use vstd::prelude::*;

verus! {

/// How many times a crashed service may be started again.
pub enum RestartLimit {
    Bounded(u64),
    Unbounded,
}

/// The limit that a `max_restarts` setting stands for: unset means 3, 0 means
/// no limit, any other value is the limit itself.
pub open spec fn limit_of(max_restarts: Option<u64>) -> RestartLimit {
    match max_restarts {
        None => RestartLimit::Bounded(3),
        Some(0) => RestartLimit::Unbounded,
        Some(n) => RestartLimit::Bounded(n),
    }
}

/// A service that has been restarted `count` times may be restarted again.
pub open spec fn may_restart(restart: bool, max_restarts: Option<u64>, count: nat) -> bool {
    restart && match limit_of(max_restarts) {
        RestartLimit::Unbounded => true,
        RestartLimit::Bounded(n) => count < n,
    }
}

/// The number of restarts made when every run of the service ends in a crash,
/// after `crashes` crashes.
pub open spec fn restarts_after(restart: bool, max_restarts: Option<u64>, crashes: nat) -> nat
    decreases crashes,
{
    if crashes == 0 {
        0
    } else {
        let c = restarts_after(restart, max_restarts, (crashes - 1) as nat);
        if may_restart(restart, max_restarts, c) {
            c + 1
        } else {
            c
        }
    }
}

pub fn restart_limit(max_restarts: Option<u64>) -> (r: RestartLimit)
    ensures
        r == limit_of(max_restarts),
{
    match max_restarts {
        None => RestartLimit::Bounded(3),
        Some(0) => RestartLimit::Unbounded,
        Some(n) => RestartLimit::Bounded(n),
    }
}

/// Whether a service that has ended after `count` restarts is started again.
pub fn should_restart(restart: bool, max_restarts: Option<u64>, count: u64) -> (r: bool)
    ensures
        r == may_restart(restart, max_restarts, count as nat),
{
    if !restart {
        return false;
    }
    match restart_limit(max_restarts) {
        RestartLimit::Unbounded => true,
        RestartLimit::Bounded(n) => count < n,
    }
}

/// A service that crashes each time it runs is restarted as many times as its
/// limit allows and no more: never without `restart`, three times when the
/// limit is unset, after every crash when it is 0, and `n` times when it is `n`.
pub proof fn lemma_restart_count(restart: bool, max_restarts: Option<u64>, crashes: nat)
    ensures
        !restart ==> restarts_after(restart, max_restarts, crashes) == 0,
        restart ==> match limit_of(max_restarts) {
            RestartLimit::Unbounded => restarts_after(restart, max_restarts, crashes) == crashes,
            RestartLimit::Bounded(n) => restarts_after(restart, max_restarts, crashes) == if crashes < n {
                crashes
            } else {
                n as nat
            },
        },
    decreases crashes,
{
    if crashes > 0 {
        lemma_restart_count(restart, max_restarts, (crashes - 1) as nat);
    }
}

} // verus!
