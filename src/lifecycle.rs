use vstd::prelude::*;
use vstd::string::StrSliceExecFns;
use crate::config::{
    has_service, names_of, pair_texts, marker_var, trigger_texts, StepnConfig,
};
use crate::graph::{in_closure, names_contain, named_set, refs_resolve, ConfigError};
use crate::readiness::{policy_step, PendingTriggers, ReadinessRegistry};
use crate::restart::may_restart;
use crate::shutdown::ShutdownTracker;
use crate::text::{joined, join_words, texts};

verus! {

/// What happens to a service whose process has ended.
pub enum ExitDecision {
    /// The service does not restart: it is done.
    Stop,
    /// The service restarts, but has used up its restarts: it is done.
    Exhausted,
    /// The service is started again after the backoff.
    Restart,
}

/// The decisions of one service's lifecycle: which dependencies to wait for,
/// how its output makes it ready, and whether it restarts when it ends.
pub struct Lifecycle {
    index: usize,
    dependencies: Vec<usize>,
    delay_sec: Option<u64>,
    restart: bool,
    max_restarts: Option<u64>,
    restarts: u64,
    pending: PendingTriggers,
}

impl Lifecycle {
    pub closed spec fn index(&self) -> nat {
        self.index as nat
    }

    pub closed spec fn dependencies(&self) -> Seq<usize> {
        self.dependencies@
    }

    pub closed spec fn restart_enabled(&self) -> bool {
        self.restart
    }

    pub closed spec fn max_restarts_setting(&self) -> Option<u64> {
        self.max_restarts
    }

    pub closed spec fn delay(&self) -> Option<u64> {
        self.delay_sec
    }

    /// How many times the service has been restarted.
    pub closed spec fn restarts(&self) -> nat {
        self.restarts as nat
    }

    pub closed spec fn triggers(&self) -> Seq<Seq<char>> {
        self.pending.triggers()
    }

    pub closed spec fn seen(&self) -> Seq<bool> {
        self.pending.seen()
    }

    pub closed spec fn wf(&self) -> bool {
        self.pending.wf()
    }

    /// The lifecycle of service `i` before its first start.
    pub fn new(config: &StepnConfig, i: usize) -> (r: Lifecycle)
        requires
            config.wf(),
            refs_resolve(config@),
            i < config@.len(),
        ensures
            r.wf(),
            r.index() == i,
            r.dependencies().len() == config@[i as int].depends_on@.len(),
            forall|k: int|
                0 <= k < r.dependencies().len() ==> (#[trigger] r.dependencies()[k]) < config@.len()
                    && config@[r.dependencies()[k] as int].name@ == config@[i as int].depends_on@[k]@,
            r.delay() == config@[i as int].delay_sec,
            r.restart_enabled() == config@[i as int].restart,
            r.max_restarts_setting() == config@[i as int].max_restarts,
            r.restarts() == 0,
            r.triggers() == trigger_texts(config@[i as int]),
            r.seen() == Seq::new(r.triggers().len(), |k: int| false),
    {
        let svc = config.service(i);
        let mut deps: Vec<usize> = Vec::new();
        let mut k: usize = 0;
        while k < svc.depends_on.len()
            invariant
                config.wf(),
                refs_resolve(config@),
                i < config@.len(),
                *svc == config@[i as int],
                k <= svc.depends_on@.len(),
                deps@.len() == k,
                forall|b: int|
                    0 <= b < k ==> (#[trigger] deps@[b]) < config@.len() && config@[deps@[b] as int].name@
                        == svc.depends_on@[b]@,
            decreases svc.depends_on@.len() - k,
        {
            proof {
                assert(has_service(config@, svc.depends_on@[k as int]@));
            }
            match config.index_of(&svc.depends_on[k]) {
                Some(j) => {
                    deps.push(j);
                },
                None => {},
            }
            k = k + 1;
        }
        Lifecycle {
            index: i,
            dependencies: deps,
            delay_sec: svc.delay_sec,
            restart: svc.restart,
            max_restarts: svc.max_restarts,
            restarts: 0,
            pending: PendingTriggers::new(svc.triggers()),
        }
    }

    /// The number of dependencies to wait for, in the order they are listed.
    pub fn dependency_count(&self) -> (r: usize)
        ensures
            r == self.dependencies().len(),
    {
        self.dependencies.len()
    }

    /// Whether the `k`-th dependency is ready, so that the wait may move on.
    pub fn dependency_ready(&self, k: usize, registry: &ReadinessRegistry) -> (r: bool)
        requires
            k < self.dependencies().len(),
            self.dependencies()[k as int] < registry@.len(),
        ensures
            r == registry@[self.dependencies()[k as int] as int],
    {
        registry.is_ready(self.dependencies[k])
    }

    /// The start delay, if one is set.
    pub fn delay_sec(&self) -> (r: Option<u64>)
        ensures
            r == self.delay(),
    {
        self.delay_sec
    }

    /// The number of restarts so far.
    pub fn restart_count(&self) -> (r: u64)
        ensures
            r == self.restarts(),
    {
        self.restarts
    }

    /// A new run is about to start: no trigger has been seen in it yet.
    pub fn begin_attempt(&mut self)
        requires
            old(self).wf(),
        ensures
            final(self).wf(),
            final(self).triggers() == old(self).triggers(),
            final(self).seen() == Seq::new(old(self).triggers().len(), |k: int| false),
            final(self).index() == old(self).index(),
            final(self).dependencies() == old(self).dependencies(),
            final(self).restarts() == old(self).restarts(),
            final(self).restart_enabled() == old(self).restart_enabled(),
            final(self).max_restarts_setting() == old(self).max_restarts_setting(),
    {
        self.pending.reset();
    }

    /// A line of output from the running process, under the readiness policy.
    /// Returns whether the line made the service ready.
    pub fn on_line(&mut self, line: &str, registry: &mut ReadinessRegistry) -> (r: bool)
        requires
            old(self).wf(),
            old(self).index() < old(registry)@.len(),
        ensures
            final(self).wf(),
            final(self).triggers() == old(self).triggers(),
            final(self).index() == old(self).index(),
            final(self).dependencies() == old(self).dependencies(),
            final(self).restarts() == old(self).restarts(),
            final(self).restart_enabled() == old(self).restart_enabled(),
            final(self).max_restarts_setting() == old(self).max_restarts_setting(),
            ({
                let (seen, ready) = policy_step(
                    old(self).triggers(),
                    old(self).seen(),
                    old(registry)@[old(self).index() as int],
                    line@,
                );
                &&& final(self).seen() == seen
                &&& final(registry)@ == old(registry)@.update(old(self).index() as int, ready)
            }),
            r == (!old(registry)@[old(self).index() as int] && final(registry)@[old(self).index() as int]),
    {
        self.pending.on_line(line, self.index, registry)
    }

    /// The process `pid` has ended, whatever its exit status: it leaves the
    /// tracker, and the restart policy decides what follows. A restart counts
    /// one more restart and makes the service unready until its new run
    /// satisfies the readiness policy again.
    pub fn on_exit(&mut self, pid: i32, registry: &mut ReadinessRegistry, tracker: &mut ShutdownTracker) -> (r: ExitDecision)
        requires
            old(self).index() < old(registry)@.len(),
            old(tracker).wf(),
        ensures
            final(tracker).wf(),
            final(tracker)@ == old(tracker)@.remove(pid),
            (r is Stop) == !old(self).restart_enabled(),
            (r is Restart) == may_restart(old(self).restart_enabled(), old(self).max_restarts_setting(), old(self).restarts()),
            r is Restart ==> final(registry)@ == old(registry)@.update(old(self).index() as int, false)
                && final(self).restarts() == if old(self).restarts() < u64::MAX {
                    old(self).restarts() + 1
                } else {
                    old(self).restarts()
                },
            !(r is Restart) ==> final(registry)@ == old(registry)@ && final(self).restarts() == old(self).restarts(),
            final(self).index() == old(self).index(),
            final(self).dependencies() == old(self).dependencies(),
            final(self).triggers() == old(self).triggers(),
            final(self).seen() == old(self).seen(),
            final(self).wf() == old(self).wf(),
            final(self).restart_enabled() == old(self).restart_enabled(),
            final(self).max_restarts_setting() == old(self).max_restarts_setting(),
    {
        tracker.remove(pid);
        if !self.restart {
            return ExitDecision::Stop;
        }
        if !crate::restart::should_restart(self.restart, self.max_restarts, self.restarts) {
            return ExitDecision::Exhausted;
        }
        if self.restarts < u64::MAX {
            self.restarts = self.restarts + 1;
        }
        registry.set_ready(self.index, false);
        ExitDecision::Restart
    }
}

/// An ad-hoc command to run under a service's environment.
pub struct OneShot {
    /// The command line handed to the shell.
    pub command: String,
    /// The variables set on top of the parent's environment, in order.
    pub environment: Vec<(String, String)>,
}

impl StepnConfig {
    /// Plans a one-shot run of `words` under the environment of the service
    /// called `name`. No readiness, restart or dependency rule is involved.
    pub fn oneshot(&self, name: &String, words: &Vec<String>) -> (r: Result<OneShot, ConfigError>)
        requires
            self.wf(),
        ensures
            r is Ok <==> has_service(self@, name@),
            r matches Ok(o) ==> o.command@ == joined(texts(words@)) && exists|i: int|
                0 <= i < self@.len() && self@[i].name@ == name@ && pair_texts(o.environment@) == seq![marker_var()]
                    + pair_texts(self@[i].environments@),
            r matches Err(e) ==> (e matches ConfigError::UnknownService { name: n, valid } && n@ == name@
                && texts(valid@) == names_of(self@)),
    {
        match self.index_of(name) {
            Some(i) => Ok(
                OneShot { command: join_words(words), environment: self.service(i).environment() },
            ),
            None => Err(ConfigError::UnknownService { name: name.clone(), valid: self.names() }),
        }
    }

    /// The services to run: all of them when nothing is requested, else the
    /// requested ones with everything they depend on. A requested name that
    /// denotes no service is refused, with the list of defined names.
    pub fn selection(&self, requested: &Option<Vec<String>>) -> (r: Result<Vec<bool>, ConfigError>)
        requires
            self.wf(),
        ensures
            requested is None ==> (r matches Ok(m) && m@ == Seq::new(self@.len(), |i: int| true)),
            requested matches Some(req) ==> (r is Ok <==> forall|k: int|
                0 <= k < req@.len() ==> has_service(self@, #[trigger] req@[k]@)),
            requested matches Some(req) ==> (r matches Ok(m) ==> m@.len() == self@.len() && forall|i: int|
                0 <= i < self@.len() ==> #[trigger] m@[i] == in_closure(self@, named_set(self@, req@), i)),
            requested matches Some(req) ==> (r matches Err(e) ==> (e matches ConfigError::UnknownService { name, valid }
                && texts(valid@) == names_of(self@) && !has_service(self@, name@) && names_contain(req@, name@))),
    {
        match requested {
            None => {
                let n = self.len();
                let mut m: Vec<bool> = Vec::new();
                let mut i: usize = 0;
                while i < n
                    invariant
                        i <= n,
                        m@ == Seq::new(i as nat, |j: int| true),
                    decreases n - i,
                {
                    m.push(true);
                    proof {
                        assert(m@ =~= Seq::new((i + 1) as nat, |j: int| true));
                    }
                    i = i + 1;
                }
                Ok(m)
            },
            Some(req) => {
                let mut k: usize = 0;
                while k < req.len()
                    invariant
                        self.wf(),
                        *requested == Some(*req),
                        k <= req@.len(),
                        forall|b: int| 0 <= b < k ==> has_service(self@, #[trigger] req@[b]@),
                    decreases req@.len() - k,
                {
                    if self.index_of(&req[k]).is_none() {
                        let name = req[k].clone();
                        proof {
                            assert(req@[k as int]@ == name@);
                            assert(!has_service(self@, req@[k as int]@));
                            assert(requested->0@[k as int]@ == req@[k as int]@);
                            assert(!has_service(self@, requested->0@[k as int]@));
                        }
                        let valid = self.names();
                        let ghost nm = name@;
                        proof {
                            assert(req@[k as int]@ == nm);
                            assert(names_contain(req@, nm));
                        }
                        let e = ConfigError::UnknownService { name, valid };
                        proof {
                            assert(!(forall|b: int| 0 <= b < req@.len() ==> has_service(self@, #[trigger] req@[b]@)));
                            assert(e matches ConfigError::UnknownService { name, valid } && texts(valid@)
                                == names_of(self@) && !has_service(self@, name@));
                        }
                        return Err(e);
                    }
                    k = k + 1;
                }
                Ok(self.dependency_closure(req))
            },
        }
    }

    /// The width of the name column in the console: the longest selected
    /// name, and at least 5.
    pub fn label_width(&self, selected: &Vec<bool>) -> (r: usize)
        requires
            selected@.len() == self@.len(),
        ensures
            r >= 5,
            forall|i: int| 0 <= i < self@.len() && #[trigger] selected@[i] ==> self@[i].name@.len() <= r,
            r == 5 || exists|i: int| 0 <= i < self@.len() && #[trigger] selected@[i] && self@[i].name@.len() == r,
    {
        let mut w: usize = 5;
        let mut i: usize = 0;
        while i < self.len()
            invariant
                selected@.len() == self@.len(),
                i <= self@.len(),
                w >= 5,
                forall|j: int| 0 <= j < i && #[trigger] selected@[j] ==> self@[j].name@.len() <= w,
                w == 5 || exists|j: int| 0 <= j < self@.len() && #[trigger] selected@[j] && self@[j].name@.len() == w,
            decreases self@.len() - i,
        {
            if selected[i] {
                let len = self.service(i).name.as_str().unicode_len();
                if len > w {
                    w = len;
                }
            }
            i = i + 1;
        }
        w
    }
}

} // verus!
