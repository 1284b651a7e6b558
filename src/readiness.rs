use vstd::prelude::*;
use crate::text::{has_substring, str_contains, texts};

verus! {

/// Which services may be depended on yet, by position in the configuration.
pub struct ReadinessRegistry {
    ready: Vec<bool>,
}

impl ReadinessRegistry {
    pub closed spec fn view(&self) -> Seq<bool> {
        self.ready@
    }

    /// A registry of `n` services, none of them ready.
    pub fn new(n: usize) -> (r: ReadinessRegistry)
        ensures
            r@ == Seq::new(n as nat, |i: int| false),
    {
        let mut ready: Vec<bool> = Vec::new();
        let mut i: usize = 0;
        while i < n
            invariant
                i <= n,
                ready@ == Seq::new(i as nat, |j: int| false),
            decreases n - i,
        {
            ready.push(false);
            proof {
                assert(ready@ =~= Seq::new((i + 1) as nat, |j: int| false));
            }
            i = i + 1;
        }
        ReadinessRegistry { ready }
    }

    pub fn len(&self) -> (r: usize)
        ensures
            r == self@.len(),
    {
        self.ready.len()
    }

    pub fn is_ready(&self, i: usize) -> (r: bool)
        requires
            i < self@.len(),
        ensures
            r == self@[i as int],
    {
        self.ready[i]
    }

    pub fn set_ready(&mut self, i: usize, value: bool)
        requires
            i < old(self)@.len(),
        ensures
            final(self)@ == old(self)@.update(i as int, value),
    {
        self.ready.set(i, value);
    }
}

/// Some trigger has not been seen yet.
pub open spec fn some_unseen(seen: Seq<bool>) -> bool {
    exists|k: int| 0 <= k < seen.len() && !#[trigger] seen[k]
}

/// One output line under the readiness policy. While some trigger is unseen,
/// the line marks every trigger it contains as seen; once none is (or none was
/// declared), the line makes the service ready.
pub open spec fn policy_step(triggers: Seq<Seq<char>>, seen: Seq<bool>, ready: bool, line: Seq<char>) -> (Seq<bool>, bool) {
    if some_unseen(seen) {
        (Seq::new(seen.len(), |k: int| seen[k] || has_substring(line, triggers[k])), ready)
    } else {
        (seen, true)
    }
}

/// The seen flags and readiness after a fresh run has printed `lines`.
pub open spec fn run_lines(triggers: Seq<Seq<char>>, lines: Seq<Seq<char>>) -> (Seq<bool>, bool)
    decreases lines.len(),
{
    if lines.len() == 0 {
        (Seq::new(triggers.len(), |k: int| false), false)
    } else {
        let prev = run_lines(triggers, lines.drop_last());
        policy_step(triggers, prev.0, prev.1, lines.last())
    }
}

/// Some line of `lines` contains `t`.
pub open spec fn printed(lines: Seq<Seq<char>>, t: Seq<char>) -> bool {
    exists|m: int| 0 <= m < lines.len() && has_substring(#[trigger] lines[m], t)
}

/// The output triggers of one run and which of them have appeared.
pub struct PendingTriggers {
    triggers: Vec<String>,
    seen: Vec<bool>,
}

impl PendingTriggers {
    pub closed spec fn triggers(&self) -> Seq<Seq<char>> {
        texts(self.triggers@)
    }

    pub closed spec fn seen(&self) -> Seq<bool> {
        self.seen@
    }

    pub open spec fn wf(&self) -> bool {
        self.seen().len() == self.triggers().len()
    }

    /// The given triggers, none of them seen.
    pub fn new(triggers: Vec<String>) -> (r: PendingTriggers)
        ensures
            r.wf(),
            r.triggers() == texts(triggers@),
            r.seen() == Seq::new(triggers@.len(), |k: int| false),
    {
        let mut seen: Vec<bool> = Vec::new();
        let mut i: usize = 0;
        while i < triggers.len()
            invariant
                i <= triggers@.len(),
                seen@ == Seq::new(i as nat, |j: int| false),
            decreases triggers@.len() - i,
        {
            seen.push(false);
            proof {
                assert(seen@ =~= Seq::new((i + 1) as nat, |j: int| false));
            }
            i = i + 1;
        }
        PendingTriggers { triggers, seen }
    }

    /// Forgets every trigger seen so far, as a new run begins.
    pub fn reset(&mut self)
        requires
            old(self).wf(),
        ensures
            final(self).wf(),
            final(self).triggers() == old(self).triggers(),
            final(self).seen() == Seq::new(old(self).seen().len(), |k: int| false),
    {
        let mut i: usize = 0;
        while i < self.seen.len()
            invariant
                self.wf(),
                self.triggers() == old(self).triggers(),
                i <= self.seen@.len(),
                self.seen@.len() == old(self).seen().len(),
                forall|k: int| 0 <= k < i ==> !#[trigger] self.seen@[k],
            decreases self.seen@.len() - i,
        {
            self.seen.set(i, false);
            i = i + 1;
        }
        proof {
            assert(self.seen@ =~= Seq::new(old(self).seen().len(), |k: int| false));
        }
    }

    /// Whether some trigger has not appeared yet.
    pub fn any_unseen(&self) -> (r: bool)
        ensures
            r == some_unseen(self.seen()),
    {
        let mut i: usize = 0;
        while i < self.seen.len()
            invariant
                i <= self.seen@.len(),
                forall|k: int| 0 <= k < i ==> #[trigger] self.seen@[k],
            decreases self.seen@.len() - i,
        {
            if !self.seen[i] {
                return true;
            }
            i = i + 1;
        }
        false
    }

    /// Marks as seen every trigger that `line` contains.
    fn observe(&mut self, line: &str)
        requires
            old(self).wf(),
        ensures
            final(self).wf(),
            final(self).triggers() == old(self).triggers(),
            final(self).seen() == Seq::new(
                old(self).seen().len(),
                |k: int| old(self).seen()[k] || has_substring(line@, old(self).triggers()[k]),
            ),
    {
        let mut i: usize = 0;
        while i < self.seen.len()
            invariant
                self.wf(),
                self.triggers() == old(self).triggers(),
                i <= self.seen@.len(),
                self.seen@.len() == old(self).seen().len(),
                forall|k: int| 0 <= k < i ==> #[trigger] self.seen@[k] == (old(self).seen()[k]
                    || has_substring(line@, old(self).triggers()[k])),
                forall|k: int| i <= k < self.seen@.len() ==> #[trigger] self.seen@[k] == old(self).seen()[k],
            decreases self.seen@.len() - i,
        {
            if !self.seen[i] && str_contains(line, self.triggers[i].as_str()) {
                self.seen.set(i, true);
            }
            i = i + 1;
        }
        proof {
            assert(self.seen@ =~= Seq::new(
                old(self).seen().len(),
                |k: int| old(self).seen()[k] || has_substring(line@, old(self).triggers()[k]),
            ));
        }
    }

    /// Applies the readiness policy to one output line of service `i`.
    /// Returns whether the line made the service ready.
    pub fn on_line(&mut self, line: &str, i: usize, registry: &mut ReadinessRegistry) -> (r: bool)
        requires
            old(self).wf(),
            i < old(registry)@.len(),
        ensures
            final(self).wf(),
            final(self).triggers() == old(self).triggers(),
            ({
                let (seen, ready) = policy_step(old(self).triggers(), old(self).seen(), old(registry)@[i as int], line@);
                &&& final(self).seen() == seen
                &&& final(registry)@ == old(registry)@.update(i as int, ready)
            }),
            r == (!old(registry)@[i as int] && final(registry)@[i as int]),
    {
        if self.any_unseen() {
            self.observe(line);
            proof {
                assert(registry@ =~= old(registry)@.update(i as int, old(registry)@[i as int]));
            }
            false
        } else if !registry.is_ready(i) {
            registry.set_ready(i, true);
            true
        } else {
            proof {
                assert(registry@ =~= old(registry)@.update(i as int, true));
            }
            false
        }
    }
}

proof fn lemma_seen_means_printed(triggers: Seq<Seq<char>>, lines: Seq<Seq<char>>)
    ensures
        run_lines(triggers, lines).0.len() == triggers.len(),
        forall|k: int| 0 <= k < triggers.len() ==> (#[trigger] run_lines(triggers, lines).0[k] <==> printed(lines, triggers[k])),
        run_lines(triggers, lines).1 ==> !some_unseen(run_lines(triggers, lines).0),
    decreases lines.len(),
{
    if lines.len() > 0 {
        let pre = lines.drop_last();
        lemma_seen_means_printed(triggers, pre);
        assert forall|k: int| 0 <= k < triggers.len() implies (#[trigger] run_lines(triggers, lines).0[k] <==> printed(lines, triggers[k])) by {
            if printed(pre, triggers[k]) {
                let m = choose|m: int| 0 <= m < pre.len() && has_substring(#[trigger] pre[m], triggers[k]);
                assert(lines[m] == pre[m]);
            }
            if printed(lines, triggers[k]) {
                let m = choose|m: int| 0 <= m < lines.len() && has_substring(#[trigger] lines[m], triggers[k]);
                if m < pre.len() {
                    assert(lines[m] == pre[m]);
                }
            }
            if !some_unseen(run_lines(triggers, pre).0) {
                assert(run_lines(triggers, pre).0[k]);
            }
        }
    }
}

/// Without triggers, a service is ready exactly when it has printed a line.
pub proof fn lemma_ready_after_first_line(lines: Seq<Seq<char>>)
    ensures
        run_lines(Seq::empty(), lines).1 == (lines.len() >= 1),
    decreases lines.len(),
{
    if lines.len() > 0 {
        lemma_ready_after_first_line(lines.drop_last());
    }
}

/// With triggers, a service is ready only once each trigger has appeared in
/// some line; once they all have, the next line makes it ready; and readiness,
/// once reached, stays whatever is printed after.
pub proof fn lemma_triggers_gate_readiness(triggers: Seq<Seq<char>>, lines: Seq<Seq<char>>, next: Seq<char>)
    ensures
        run_lines(triggers, lines).1 ==> forall|k: int| 0 <= k < triggers.len() ==> printed(lines, #[trigger] triggers[k]),
        (forall|k: int| 0 <= k < triggers.len() ==> printed(lines, #[trigger] triggers[k])) ==> run_lines(triggers, lines.push(next)).1,
        run_lines(triggers, lines).1 ==> run_lines(triggers, lines.push(next)).1,
{
    lemma_seen_means_printed(triggers, lines);
    assert(lines.push(next).drop_last() =~= lines);
    if run_lines(triggers, lines).1 {
        assert forall|k: int| 0 <= k < triggers.len() implies printed(lines, #[trigger] triggers[k]) by {
            assert(run_lines(triggers, lines).0[k]);
        }
    }
    if forall|k: int| 0 <= k < triggers.len() ==> printed(lines, #[trigger] triggers[k]) {
        assert forall|k: int| 0 <= k < run_lines(triggers, lines).0.len() implies #[trigger] run_lines(triggers, lines).0[k] by {
            assert(printed(lines, triggers[k]));
        }
    }
}

} // verus!
