use vstd::prelude::*;

verus! {

/// The process identifiers of the children that are still running.
pub struct ShutdownTracker {
    pids: Vec<i32>,
}

impl ShutdownTracker {
    pub closed spec fn view(&self) -> Set<i32> {
        self.pids@.to_set()
    }

    pub closed spec fn wf(&self) -> bool {
        self.pids@.no_duplicates()
    }

    pub fn new() -> (r: ShutdownTracker)
        ensures
            r.wf(),
            r@ == Set::<i32>::empty(),
    {
        let r = ShutdownTracker { pids: Vec::new() };
        proof {
            assert(r.pids@.to_set() =~= Set::<i32>::empty());
        }
        r
    }

    pub fn contains(&self, pid: i32) -> (r: bool)
        ensures
            r == self@.contains(pid),
    {
        let mut i: usize = 0;
        while i < self.pids.len()
            invariant
                i <= self.pids@.len(),
                forall|j: int| 0 <= j < i ==> self.pids@[j] != pid,
            decreases self.pids@.len() - i,
        {
            if self.pids[i] == pid {
                proof {
                    assert(self.pids@.to_set().contains(pid));
                }
                return true;
            }
            i = i + 1;
        }
        false
    }

    /// Records a child that has just been started.
    pub fn insert(&mut self, pid: i32)
        requires
            old(self).wf(),
        ensures
            final(self).wf(),
            final(self)@ == old(self)@.insert(pid),
    {
        if !self.contains(pid) {
            self.pids.push(pid);
            proof {
                assert(self.pids@.to_set() =~= old(self).pids@.to_set().insert(pid)) by {
                    assert forall|x: i32| self.pids@.contains(x) implies old(self).pids@.contains(x) || x == pid by {
                        let j = choose|j: int| 0 <= j < self.pids@.len() && self.pids@[j] == x;
                        if j < old(self).pids@.len() {
                            assert(old(self).pids@[j] == x);
                        }
                    }
                    assert(self.pids@[self.pids@.len() - 1] == pid);
                    assert forall|x: i32| old(self).pids@.contains(x) implies self.pids@.contains(x) by {
                        let j = choose|j: int| 0 <= j < old(self).pids@.len() && old(self).pids@[j] == x;
                        assert(self.pids@[j] == x);
                    }
                }
            }
        } else {
            proof {
                assert(old(self)@.insert(pid) =~= old(self)@);
            }
        }
    }

    /// Forgets a child whose output has ended.
    pub fn remove(&mut self, pid: i32)
        requires
            old(self).wf(),
        ensures
            final(self).wf(),
            final(self)@ == old(self)@.remove(pid),
    {
        let mut kept: Vec<i32> = Vec::new();
        let mut i: usize = 0;
        while i < self.pids.len()
            invariant
                i <= self.pids@.len(),
                self.pids@.no_duplicates(),
                kept@.no_duplicates(),
                forall|x: i32| kept@.contains(x) <==> (x != pid && exists|j: int| 0 <= j < i && self.pids@[j] == x),
            decreases self.pids@.len() - i,
        {
            let x = self.pids[i];
            if x != pid {
                proof {
                    if kept@.contains(x) {
                        let j = choose|j: int| 0 <= j < i && self.pids@[j] == x;
                        assert(false);
                    }
                }
                let ghost k0 = kept@;
                kept.push(x);
                proof {
                    assert forall|y: i32| kept@.contains(y) <==> (y != pid && exists|j: int| 0 <= j < i + 1 && self.pids@[j] == y) by {
                        if kept@.contains(y) && y != x {
                            let j = choose|j: int| 0 <= j < kept@.len() && kept@[j] == y;
                            assert(k0[j] == y);
                            assert(k0.contains(y));
                        }
                        if y == x {
                            assert(self.pids@[i as int] == y);
                        }
                        if y != pid && exists|j: int| 0 <= j < i + 1 && self.pids@[j] == y {
                            if y != x {
                                let j = choose|j: int| 0 <= j < i + 1 && self.pids@[j] == y;
                                assert(j < i);
                                assert(k0.contains(y));
                                let m = choose|m: int| 0 <= m < k0.len() && k0[m] == y;
                                assert(kept@[m] == y);
                            } else {
                                assert(kept@[kept@.len() - 1] == y);
                            }
                        }
                    }
                }
            } else {
                proof {
                    assert forall|y: i32| kept@.contains(y) <==> (y != pid && exists|j: int| 0 <= j < i + 1 && self.pids@[j] == y) by {
                        if y != pid && exists|j: int| 0 <= j < i + 1 && self.pids@[j] == y {
                            let j = choose|j: int| 0 <= j < i + 1 && self.pids@[j] == y;
                            assert(j < i);
                        }
                    }
                }
            }
            i = i + 1;
        }
        proof {
            assert(kept@.to_set() =~= old(self).pids@.to_set().remove(pid)) by {
                assert forall|y: i32| old(self).pids@.contains(y) && y != pid implies kept@.contains(y) by {
                    let j = choose|j: int| 0 <= j < old(self).pids@.len() && old(self).pids@[j] == y;
                }
            }
        }
        self.pids = kept;
    }

    /// The children being tracked, each once.
    pub fn snapshot(&self) -> (r: Vec<i32>)
        requires
            self.wf(),
        ensures
            r@.no_duplicates(),
            r@.to_set() == self@,
    {
        self.pids.clone()
    }
}

/// What the shutdown coordinator does after looking at the process table.
pub enum ShutdownAction {
    /// Some signalled child is still alive: look again later.
    Wait,
    /// Every signalled child is gone: the orchestrator may exit.
    Exit,
}

/// The children that were signalled when an interrupt arrived.
pub struct Shutdown {
    targets: Vec<i32>,
}

impl Shutdown {
    pub closed spec fn view(&self) -> Set<i32> {
        self.targets@.to_set()
    }

    /// Takes the children to terminate: every one that the tracker holds.
    pub fn begin(tracker: &ShutdownTracker) -> (r: Shutdown)
        requires
            tracker.wf(),
        ensures
            r@ == tracker@,
    {
        Shutdown { targets: tracker.snapshot() }
    }

    /// The children to send a termination request to, each once.
    pub fn targets(&self) -> (r: &Vec<i32>)
        ensures
            r@.to_set() == self@,
    {
        &self.targets
    }

    /// Decides from the identifiers that a probe of the process table found
    /// alive: exit only when none of the signalled children is among them.
    pub fn on_probe(&self, alive: &Vec<i32>) -> (r: ShutdownAction)
        ensures
            r is Exit <==> forall|p: i32| self@.contains(p) ==> !alive@.contains(p),
    {
        let mut i: usize = 0;
        while i < self.targets.len()
            invariant
                i <= self.targets@.len(),
                forall|j: int| 0 <= j < i ==> !alive@.contains(#[trigger] self.targets@[j]),
            decreases self.targets@.len() - i,
        {
            let t = self.targets[i];
            let mut k: usize = 0;
            while k < alive.len()
                invariant
                    i < self.targets@.len(),
                    t == self.targets@[i as int],
                    k <= alive@.len(),
                    forall|m: int| 0 <= m < k ==> alive@[m] != t,
                decreases alive@.len() - k,
            {
                if alive[k] == t {
                    proof {
                        assert(alive@[k as int] == t);
                        assert(self.targets@[i as int] == t);
                        assert(self.targets@.contains(t));
                        assert(self.targets@.to_set().contains(t));
                        assert(self@.contains(t) && alive@.contains(t));
                    }
                    return ShutdownAction::Wait;
                }
                k = k + 1;
            }
            i = i + 1;
        }
        proof {
            assert forall|p: i32| self@.contains(p) implies !alive@.contains(p) by {
                let j = choose|j: int| 0 <= j < self.targets@.len() && self.targets@[j] == p;
            }
        }
        ShutdownAction::Exit
    }
}

} // verus!
