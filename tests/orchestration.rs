use stepn::config::{HealthChecker, Service, StepnConfig};
use stepn::graph::ConfigError;
use stepn::lifecycle::{ExitDecision, Lifecycle};
use stepn::readiness::{PendingTriggers, ReadinessRegistry};
use stepn::restart::{restart_limit, should_restart, RestartLimit};
use stepn::shutdown::{Shutdown, ShutdownAction, ShutdownTracker};
use stepn::text::{join_words, pad_with_trailing_space, tag_stderr_line};

fn service(name: &str, deps: &[&str]) -> Service {
    Service {
        name: name.to_string(),
        command: format!("echo {}", name),
        depends_on: deps.iter().map(|d| d.to_string()).collect(),
        health_checker: None,
        environments: Vec::new(),
        delay_sec: None,
        restart: false,
        max_restarts: None,
    }
}

fn config(services: Vec<Service>) -> StepnConfig {
    let mut c = StepnConfig::new();
    for s in services {
        c.insert(s);
    }
    c
}

fn selected_names(c: &StepnConfig, mask: &[bool]) -> Vec<String> {
    let mut names: Vec<String> = (0..c.len())
        .filter(|&i| mask[i])
        .map(|i| c.service(i).name.clone())
        .collect();
    names.sort();
    names
}

fn strings(v: &[&str]) -> Vec<String> {
    v.iter().map(|s| s.to_string()).collect()
}

#[test]
fn two_service_cycle_is_rejected() {
    let c = config(vec![service("A", &["B"]), service("B", &["A"])]);
    match c.validate() {
        Err(ConfigError::Cycle { service, dependency }) => {
            assert!(
                (service == "A" && dependency == "B") || (service == "B" && dependency == "A")
            );
        }
        _ => panic!("a cycle must be rejected"),
    }
}

#[test]
fn chain_is_accepted() {
    let c = config(vec![service("A", &["B"]), service("B", &["C"]), service("C", &[])]);
    assert!(c.validate().is_ok());
}

#[test]
fn self_dependency_is_a_cycle() {
    let c = config(vec![service("A", &["A"])]);
    assert!(matches!(c.validate(), Err(ConfigError::Cycle { .. })));
}

#[test]
fn disconnected_cycle_is_found() {
    let c = config(vec![
        service("web", &["db"]),
        service("db", &[]),
        service("x", &["y"]),
        service("y", &["z"]),
        service("z", &["x"]),
    ]);
    assert!(matches!(c.validate(), Err(ConfigError::Cycle { .. })));
}

#[test]
fn diamond_is_accepted() {
    let c = config(vec![
        service("app", &["api", "worker"]),
        service("api", &["db"]),
        service("worker", &["db"]),
        service("db", &[]),
    ]);
    assert!(c.validate().is_ok());
}

#[test]
fn missing_dependency_is_reported() {
    let c = config(vec![service("A", &["B"]), service("B", &["nope"])]);
    match c.validate() {
        Err(ConfigError::MissingDependency { service, dependency }) => {
            assert_eq!(service, "B");
            assert_eq!(dependency, "nope");
        }
        _ => panic!("a dangling dependency must be reported"),
    }
}

#[test]
fn missing_dependency_is_checked_before_cycles() {
    let c = config(vec![service("A", &["B"]), service("B", &["A", "C"])]);
    assert!(matches!(c.validate(), Err(ConfigError::MissingDependency { .. })));
}

#[test]
fn insert_replaces_same_name() {
    let mut c = config(vec![service("A", &[]), service("B", &[])]);
    c.insert(service("A", &["B"]));
    assert_eq!(c.len(), 2);
    assert_eq!(c.service(0).depends_on, strings(&["B"]));
}

#[test]
fn closure_is_transitive() {
    let c = config(vec![service("A", &["B"]), service("B", &["C"]), service("C", &[]), service("D", &[])]);
    let mask = c.dependency_closure(&strings(&["A"]));
    assert_eq!(selected_names(&c, &mask), strings(&["A", "B", "C"]));
}

#[test]
fn closure_ignores_orders() {
    let c1 = config(vec![service("A", &["B"]), service("B", &["C"]), service("C", &[]), service("D", &[])]);
    let c2 = config(vec![service("D", &[]), service("C", &[]), service("B", &["C"]), service("A", &["B"])]);
    let m1 = c1.dependency_closure(&strings(&["A", "D"]));
    let m2 = c2.dependency_closure(&strings(&["D", "A", "D"]));
    assert_eq!(selected_names(&c1, &m1), strings(&["A", "B", "C", "D"]));
    assert_eq!(selected_names(&c2, &m2), selected_names(&c1, &m1));
}

#[test]
fn selection_of_everything() {
    let c = config(vec![service("A", &["B"]), service("B", &[])]);
    let mask = c.selection(&None).ok().unwrap();
    assert_eq!(mask, vec![true, true]);
}

#[test]
fn selection_of_subset() {
    let c = config(vec![service("A", &["B"]), service("B", &[]), service("C", &[])]);
    let mask = c.selection(&Some(strings(&["A"]))).ok().unwrap();
    assert_eq!(selected_names(&c, &mask), strings(&["A", "B"]));
}

#[test]
fn selection_of_unknown_name() {
    let c = config(vec![service("A", &[]), service("B", &[])]);
    match c.selection(&Some(strings(&["A", "zzz"]))) {
        Err(ConfigError::UnknownService { name, valid }) => {
            assert_eq!(name, "zzz");
            assert_eq!(valid, strings(&["A", "B"]));
        }
        _ => panic!("an unknown name must be refused"),
    }
}

#[test]
fn ready_after_first_line_without_triggers() {
    let c = config(vec![service("db", &[]), service("web", &["db"])]);
    let mut reg = ReadinessRegistry::new(2);
    let mut db = Lifecycle::new(&c, 0);
    let web = Lifecycle::new(&c, 1);
    db.begin_attempt();
    assert!(!web.dependency_ready(0, &reg));
    assert!(db.on_line("starting", &mut reg));
    assert!(reg.is_ready(0));
    assert!(!reg.is_ready(1));
    assert!(web.dependency_ready(0, &reg));
    assert!(!db.on_line("more", &mut reg));
    assert!(reg.is_ready(0));
}

fn triggered(triggers: &[&str]) -> StepnConfig {
    let mut s = service("api", &[]);
    s.health_checker = Some(HealthChecker { output_trigger: strings(triggers) });
    config(vec![s])
}

#[test]
fn ready_only_after_all_triggers() {
    let c = triggered(&["ready", "listening"]);
    let mut reg = ReadinessRegistry::new(1);
    let mut lc = Lifecycle::new(&c, 0);
    lc.begin_attempt();
    assert!(!lc.on_line("booting", &mut reg));
    assert!(!lc.on_line("server is listening on 80", &mut reg));
    assert!(!reg.is_ready(0));
    assert!(!lc.on_line("listening again", &mut reg));
    assert!(!reg.is_ready(0));
    assert!(!lc.on_line("ready", &mut reg));
    assert!(!reg.is_ready(0));
    assert!(lc.on_line("serving", &mut reg));
    assert!(reg.is_ready(0));
    assert!(!lc.on_line("ready", &mut reg));
    assert!(reg.is_ready(0));
}

#[test]
fn both_triggers_on_one_line() {
    let c = triggered(&["ready", "listening"]);
    let mut reg = ReadinessRegistry::new(1);
    let mut lc = Lifecycle::new(&c, 0);
    assert!(!lc.on_line("ready and listening", &mut reg));
    assert!(!reg.is_ready(0));
    assert!(lc.on_line("next", &mut reg));
    assert!(reg.is_ready(0));
}

#[test]
fn triggers_are_case_sensitive() {
    let c = triggered(&["ready"]);
    let mut reg = ReadinessRegistry::new(1);
    let mut lc = Lifecycle::new(&c, 0);
    lc.on_line("READY", &mut reg);
    lc.on_line("Ready", &mut reg);
    assert!(!reg.is_ready(0));
}

#[test]
fn pending_triggers_reset() {
    let mut p = PendingTriggers::new(strings(&["a", "b"]));
    let mut reg = ReadinessRegistry::new(1);
    assert!(p.any_unseen());
    p.on_line("a b", 0, &mut reg);
    assert!(!p.any_unseen());
    p.reset();
    assert!(p.any_unseen());
}

fn crashing(restart: bool, max: Option<u64>) -> (StepnConfig, Lifecycle) {
    let mut s = service("job", &[]);
    s.restart = restart;
    s.max_restarts = max;
    let c = config(vec![s]);
    let lc = Lifecycle::new(&c, 0);
    (c, lc)
}

fn restarts_until_terminal(lc: &mut Lifecycle, crashes: u64) -> (u64, ExitDecision) {
    let mut reg = ReadinessRegistry::new(1);
    let mut tracker = ShutdownTracker::new();
    let mut made = 0;
    for n in 0..crashes {
        let pid = 100 + n as i32;
        tracker.insert(pid);
        match lc.on_exit(pid, &mut reg, &mut tracker) {
            ExitDecision::Restart => made += 1,
            other => return (made, other),
        }
        assert!(!tracker.contains(pid));
    }
    (made, ExitDecision::Restart)
}

#[test]
fn default_limit_is_three_restarts() {
    let (_c, mut lc) = crashing(true, None);
    let (made, end) = restarts_until_terminal(&mut lc, 10);
    assert_eq!(made, 3);
    assert!(matches!(end, ExitDecision::Exhausted));
    assert_eq!(lc.restart_count(), 3);
}

#[test]
fn zero_limit_restarts_forever() {
    let (_c, mut lc) = crashing(true, Some(0));
    let (made, end) = restarts_until_terminal(&mut lc, 50);
    assert_eq!(made, 50);
    assert!(matches!(end, ExitDecision::Restart));
}

#[test]
fn explicit_limit_is_exact() {
    let (_c, mut lc) = crashing(true, Some(2));
    let (made, end) = restarts_until_terminal(&mut lc, 10);
    assert_eq!(made, 2);
    assert!(matches!(end, ExitDecision::Exhausted));
}

#[test]
fn no_restart_stops() {
    let (_c, mut lc) = crashing(false, Some(5));
    let (made, end) = restarts_until_terminal(&mut lc, 10);
    assert_eq!(made, 0);
    assert!(matches!(end, ExitDecision::Stop));
}

#[test]
fn restart_limits() {
    assert!(matches!(restart_limit(None), RestartLimit::Bounded(3)));
    assert!(matches!(restart_limit(Some(0)), RestartLimit::Unbounded));
    assert!(matches!(restart_limit(Some(7)), RestartLimit::Bounded(7)));
    assert!(should_restart(true, None, 2));
    assert!(!should_restart(true, None, 3));
    assert!(should_restart(true, Some(0), u64::MAX));
    assert!(!should_restart(false, Some(0), 0));
}

#[test]
fn restart_resets_readiness() {
    let (_c, mut lc) = crashing(true, None);
    let mut reg = ReadinessRegistry::new(1);
    let mut tracker = ShutdownTracker::new();
    lc.begin_attempt();
    tracker.insert(7);
    lc.on_line("up", &mut reg);
    assert!(reg.is_ready(0));
    assert!(matches!(lc.on_exit(7, &mut reg, &mut tracker), ExitDecision::Restart));
    assert!(!reg.is_ready(0));
    lc.begin_attempt();
    tracker.insert(8);
    assert!(!reg.is_ready(0));
    lc.on_line("up again", &mut reg);
    assert!(reg.is_ready(0));
}

#[test]
fn restart_resets_triggers() {
    let mut s = service("api", &[]);
    s.restart = true;
    s.health_checker = Some(HealthChecker { output_trigger: strings(&["ready"]) });
    let c = config(vec![s]);
    let mut lc = Lifecycle::new(&c, 0);
    let mut reg = ReadinessRegistry::new(1);
    let mut tracker = ShutdownTracker::new();
    lc.on_line("ready", &mut reg);
    lc.on_line("x", &mut reg);
    assert!(reg.is_ready(0));
    assert!(matches!(lc.on_exit(1, &mut reg, &mut tracker), ExitDecision::Restart));
    lc.begin_attempt();
    lc.on_line("x", &mut reg);
    assert!(!reg.is_ready(0));
}

#[test]
fn tracker_adds_and_removes() {
    let mut t = ShutdownTracker::new();
    t.insert(1);
    t.insert(2);
    t.insert(1);
    let mut snap = t.snapshot();
    snap.sort();
    assert_eq!(snap, vec![1, 2]);
    t.remove(1);
    assert!(!t.contains(1));
    assert!(t.contains(2));
    t.remove(42);
    assert_eq!(t.snapshot(), vec![2]);
}

#[test]
fn shutdown_waits_for_every_target() {
    let mut t = ShutdownTracker::new();
    for pid in [11, 12, 13] {
        t.insert(pid);
    }
    let s = Shutdown::begin(&t);
    let mut targets = s.targets().clone();
    targets.sort();
    assert_eq!(targets, vec![11, 12, 13]);
    assert!(matches!(s.on_probe(&vec![1, 12, 99]), ShutdownAction::Wait));
    assert!(matches!(s.on_probe(&vec![13]), ShutdownAction::Wait));
    assert!(matches!(s.on_probe(&vec![1, 99]), ShutdownAction::Exit));
    assert!(matches!(s.on_probe(&vec![]), ShutdownAction::Exit));
}

#[test]
fn shutdown_with_nothing_tracked() {
    let t = ShutdownTracker::new();
    let s = Shutdown::begin(&t);
    assert!(s.targets().is_empty());
    assert!(matches!(s.on_probe(&vec![5]), ShutdownAction::Exit));
}

#[test]
fn oneshot_uses_service_environment() {
    let mut s = service("web", &[]);
    s.environments = vec![("PORT".to_string(), "8080".to_string()), ("MODE".to_string(), "dev".to_string())];
    let c = config(vec![service("db", &[]), s]);
    let o = c.oneshot(&"web".to_string(), &strings(&["ls", "-la", "/tmp"])).ok().unwrap();
    assert_eq!(o.command, "ls -la /tmp");
    assert_eq!(
        o.environment,
        vec![
            ("IS_STEPN".to_string(), "true".to_string()),
            ("PORT".to_string(), "8080".to_string()),
            ("MODE".to_string(), "dev".to_string()),
        ]
    );
}

#[test]
fn oneshot_of_unknown_service() {
    let c = config(vec![service("db", &[])]);
    match c.oneshot(&"web".to_string(), &strings(&["true"])) {
        Err(ConfigError::UnknownService { name, valid }) => {
            assert_eq!(name, "web");
            assert_eq!(valid, strings(&["db"]));
        }
        _ => panic!("an unknown service must be refused"),
    }
}

#[test]
fn join_words_with_spaces() {
    assert_eq!(join_words(&strings(&[])), "");
    assert_eq!(join_words(&strings(&["a"])), "a");
    assert_eq!(join_words(&strings(&["echo", "hi there"])), "echo hi there");
}

#[test]
fn padding_to_width() {
    assert_eq!(pad_with_trailing_space(5, "ab"), "ab   ");
    assert_eq!(pad_with_trailing_space(2, "abc"), "abc");
    assert_eq!(pad_with_trailing_space(3, "abc"), "abc");
    assert_eq!(pad_with_trailing_space(4, ""), "    ");
}

#[test]
fn label_width_has_a_floor() {
    let c = config(vec![service("db", &[]), service("background-worker", &[])]);
    assert_eq!(c.label_width(&vec![true, false]), 5);
    assert_eq!(c.label_width(&vec![true, true]), 17);
}

#[test]
fn stderr_lines_are_tagged() {
    assert_eq!(tag_stderr_line("oops"), "[stderr] oops");
}

#[test]
fn dependents_are_sorted() {
    let c = config(vec![
        service("web", &["db", "cache"]),
        service("db", &[]),
        service("api", &["db"]),
        service("cache", &[]),
        service("worker", &["cache", "db"]),
    ]);
    assert_eq!(c.dependents_of(&"db".to_string()), strings(&["api", "web", "worker"]));
    assert_eq!(c.dependents_of(&"cache".to_string()), strings(&["web", "worker"]));
    assert!(c.dependents_of(&"web".to_string()).is_empty());
}
