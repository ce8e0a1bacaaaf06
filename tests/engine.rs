use cargo_cooldown::allowlist::{AllowExact, AllowSection, Allowlist};
use cargo_cooldown::config::{Config, ConfigLayer};
use cargo_cooldown::engine::{plan_round, pass_allowed, Action, PinEvent, Round, VersionsEvent};
use cargo_cooldown::graph::{
    find_manifest_dependency, DependencyEdge, EngineError, Graph, GraphNode, ManifestDependency,
    ReleaseAge, Snapshot,
};
use cargo_cooldown::registry::VersionMeta;
use cargo_cooldown::resolver::PinOutcome;
use cargo_cooldown::semver_rules::{is_exact_requirement, is_older, satisfies_requirements};

const NOW: i64 = 1_727_740_800_000_000;
const MINUTE: i64 = 60_000_000;
const GIT_INDEX: &str = "registry+https://github.com/rust-lang/crates.io-index";

fn node(name: &str, version: &str, source: Option<&str>) -> GraphNode {
    GraphNode { name: name.to_string(), version: version.to_string(), source: source.map(|s| s.to_string()) }
}

fn edge(parent: usize, child: usize, req: &str) -> DependencyEdge {
    DependencyEdge { parent, child, requirement: req.to_string() }
}

fn config(minutes: u64) -> Config {
    let env = ConfigLayer { cooldown_minutes: Some(minutes), ..ConfigLayer::default() };
    Config::from_layers(&env, &ConfigLayer::default(), &ConfigLayer::default())
}

fn meta(num: &str, age_minutes: i64) -> VersionMeta {
    VersionMeta { created_at: NOW - age_minutes * MINUTE, yanked: false, num: num.to_string() }
}

#[test]
fn blocker_is_downgraded_before_the_blocked_node() {
    let graph = Graph {
        nodes: vec![
            node("root", "0.1.0", None),
            node("a", "1.2.3", Some(GIT_INDEX)),
            node("b", "2.0.0", Some(GIT_INDEX)),
        ],
        edges: vec![edge(0, 1, "^1.2"), edge(1, 2, ">=1.0")],
    };
    let snap = Snapshot::analyze(&config(60), &Allowlist::default(), graph);
    let inspected = snap.nodes_to_inspect();
    assert_eq!(inspected, vec![1, 2]);
    let ages = vec![ReleaseAge::Published(NOW - 10 * MINUTE), ReleaseAge::Published(NOW - 2000 * MINUTE)];
    let fresh = snap.fresh_entries(&ages, NOW).unwrap();
    assert_eq!(fresh.len(), 1);
    assert_eq!(fresh[0].name, "a");
    let ordered = snap.prioritize(&fresh);
    let mut round = plan_round(ordered, inspected.len(), NOW).unwrap();

    assert!(matches!(round.start(), Action::ListVersions { ref name } if name == "a"));
    let listed = VersionsEvent::Listed(vec![meta("1.2.3", 10), meta("1.2.2", 3000), meta("1.1.0", 9000)]);
    match round.on_versions(&snap, listed) {
        Action::Pin { name, current, target } => {
            assert_eq!((name.as_str(), current.as_str(), target.as_str()), ("a", "1.2.3", "1.2.2"));
        }
        other => panic!("unexpected {:?}", other),
    }
    let rejected = PinEvent::Answered(PinOutcome::Rejected {
        stdout: String::new(),
        stderr: "error: failed to select a version\n  required by package `b v2.0.0`\n".to_string(),
    });
    assert!(matches!(round.on_pin(&snap, rejected), Action::ListVersions { ref name } if name == "b"));
    assert_eq!(round.queue.len(), 1);
    assert_eq!(round.queue[0].name, "a");
    let listed_b = VersionsEvent::Listed(vec![meta("2.0.0", 2000), meta("1.9.0", 40000)]);
    match round.on_versions(&snap, listed_b) {
        Action::Pin { name, target, .. } => {
            assert_eq!(name, "b");
            assert_eq!(target, "1.9.0");
        }
        other => panic!("unexpected {:?}", other),
    }
    assert!(matches!(round.on_pin(&snap, PinEvent::Answered(PinOutcome::Applied)), Action::Reload));
}

#[test]
fn exact_pin_from_exempt_parent_is_unsatisfiable() {
    let graph = Graph {
        nodes: vec![node("p", "1.0.0", Some(GIT_INDEX)), node("a", "1.2.3", Some(GIT_INDEX))],
        edges: vec![edge(0, 1, "=1.2.3")],
    };
    let allowlist = Allowlist {
        allow: AllowSection {
            exact: vec![AllowExact { crate_name: "p".to_string(), version: "1.0.0".to_string() }],
            package: vec![],
            global: None,
        },
    };
    let snap = Snapshot::analyze(&config(60), &allowlist, graph);
    assert_eq!(snap.nodes_to_inspect(), vec![1]);
    let fresh = snap.fresh_entries(&vec![ReleaseAge::Published(NOW - MINUTE)], NOW).unwrap();
    let mut round = plan_round(snap.prioritize(&fresh), 1, NOW).unwrap();
    round.start();
    let listed = VersionsEvent::Listed(vec![meta("1.2.3", 1), meta("1.2.2", 5000)]);
    match round.on_versions(&snap, listed) {
        Action::Stop(EngineError::NoAcceptableVersion { name, minimum_minutes }) => {
            assert_eq!(name, "a");
            assert_eq!(minimum_minutes, 60);
        }
        other => panic!("unexpected {:?}", other),
    }
}

#[test]
fn parents_are_tried_first_when_no_candidate_fits() {
    let graph = Graph {
        nodes: vec![node("p", "1.0.0", Some(GIT_INDEX)), node("a", "1.2.3", Some(GIT_INDEX))],
        edges: vec![edge(0, 1, "=1.2.3"), edge(0, 1, "=1.2.3")],
    };
    let snap = Snapshot::analyze(&config(60), &Allowlist::default(), graph);
    let fresh = snap
        .fresh_entries(&vec![ReleaseAge::Published(NOW - MINUTE), ReleaseAge::Published(NOW - MINUTE)], NOW)
        .unwrap();
    // a is pinned exactly by the fresh p, so p goes first
    let ordered = snap.prioritize(&fresh);
    assert_eq!(ordered[0].name, "p");
    assert_eq!(ordered[1].name, "a");
    let mut round = Round::new(vec![ordered[1].clone()], 2, NOW);
    round.start();
    let listed = VersionsEvent::Listed(vec![meta("1.2.2", 5000)]);
    assert!(matches!(round.on_versions(&snap, listed), Action::ListVersions { ref name } if name == "p"));
    assert_eq!(round.queue.len(), 1);
    assert_eq!(round.queue[0].name, "a");
    assert_eq!(snap.parents(1).len(), 1);
}

#[test]
fn other_registries_are_never_inspected() {
    let graph = Graph {
        nodes: vec![
            node("gitdep", "0.3.0", Some("git+https://github.com/o/r?branch=main#abc")),
            node("local", "0.1.0", None),
            node("serde", "1.0.0", Some("registry+sparse+https://index.crates.io/")),
        ],
        edges: vec![],
    };
    let snap = Snapshot::analyze(&config(60), &Allowlist::default(), graph);
    assert!(snap.states[0].is_none());
    assert!(snap.states[1].is_none());
    assert_eq!(snap.nodes_to_inspect(), vec![2]);
}

#[test]
fn unavailable_registry_fails_unless_offline() {
    let graph = Graph { nodes: vec![node("a", "1.0.0", Some(GIT_INDEX))], edges: vec![] };
    let snap = Snapshot::analyze(&config(60), &Allowlist::default(), graph.clone());
    match snap.fresh_entries(&vec![ReleaseAge::Unavailable], NOW) {
        Err(EngineError::RegistryUnavailable { name }) => assert_eq!(name, "a"),
        other => panic!("unexpected {:?}", other),
    }
    let env = ConfigLayer { cooldown_minutes: Some(60), offline_ok: Some(true), ..ConfigLayer::default() };
    let offline = Config::from_layers(&env, &ConfigLayer::default(), &ConfigLayer::default());
    let snap = Snapshot::analyze(&offline, &Allowlist::default(), graph);
    assert!(snap.fresh_entries(&vec![ReleaseAge::Unavailable], NOW).unwrap().is_empty());
}

#[test]
fn cooled_graph_plans_no_round() {
    let graph = Graph { nodes: vec![node("a", "1.0.0", Some(GIT_INDEX))], edges: vec![] };
    let snap = Snapshot::analyze(&config(60), &Allowlist::default(), graph);
    let fresh = snap.fresh_entries(&vec![ReleaseAge::Published(NOW - 60 * MINUTE)], NOW).unwrap();
    assert!(fresh.is_empty());
    assert!(plan_round(snap.prioritize(&fresh), 1, NOW).is_none());
    // a second run at the same instant finds the same
    let again = snap.fresh_entries(&vec![ReleaseAge::Published(NOW - 60 * MINUTE)], NOW).unwrap();
    assert!(again.is_empty());
}

#[test]
fn rejection_without_blockers_tries_next_candidate_then_gives_up() {
    let graph = Graph { nodes: vec![node("a", "1.2.3", Some(GIT_INDEX))], edges: vec![] };
    let snap = Snapshot::analyze(&config(60), &Allowlist::default(), graph);
    let fresh = snap.fresh_entries(&vec![ReleaseAge::Published(NOW)], NOW).unwrap();
    let mut round = plan_round(fresh, 1, NOW).unwrap();
    round.start();
    let listed = VersionsEvent::Listed(vec![meta("1.2.1", 9000), meta("1.2.2", 5000), meta("1.3.0", 9000)]);
    assert!(matches!(round.on_versions(&snap, listed), Action::Pin { ref target, .. } if target == "1.2.2"));
    let no = || PinEvent::Answered(PinOutcome::Rejected { stdout: "nope".to_string(), stderr: String::new() });
    assert!(matches!(round.on_pin(&snap, no()), Action::Pin { ref target, .. } if target == "1.2.1"));
    match round.on_pin(&snap, no()) {
        Action::Stop(EngineError::CandidatesExhausted { name, .. }) => assert_eq!(name, "a"),
        other => panic!("unexpected {:?}", other),
    }
}

#[test]
fn resolver_failure_requeues_only_offline() {
    let graph = Graph { nodes: vec![node("a", "1.2.3", Some(GIT_INDEX))], edges: vec![] };
    let snap = Snapshot::analyze(&config(60), &Allowlist::default(), graph);
    let fresh = snap.fresh_entries(&vec![ReleaseAge::Published(NOW)], NOW).unwrap();
    let mut round = plan_round(fresh, 1, NOW).unwrap();
    round.start();
    round.on_versions(&snap, VersionsEvent::Listed(vec![meta("1.2.2", 5000)]));
    match round.on_pin(&snap, PinEvent::Failed) {
        Action::Stop(EngineError::ResolverUnavailable { name }) => assert_eq!(name, "a"),
        other => panic!("unexpected {:?}", other),
    }
}

#[test]
fn step_budget_ends_endless_requeueing() {
    let env = ConfigLayer { cooldown_minutes: Some(60), offline_ok: Some(true), ..ConfigLayer::default() };
    let offline = Config::from_layers(&env, &ConfigLayer::default(), &ConfigLayer::default());
    let graph = Graph { nodes: vec![node("a", "1.2.3", Some(GIT_INDEX))], edges: vec![] };
    let snap = Snapshot::analyze(&offline, &Allowlist::default(), graph);
    let fresh = snap.fresh_entries(&vec![ReleaseAge::Published(NOW)], NOW).unwrap();
    let mut round = plan_round(fresh, 1, NOW).unwrap();
    let mut action = round.start();
    let mut steps = 0;
    while let Action::ListVersions { .. } = action {
        action = round.on_versions(&snap, VersionsEvent::Unavailable);
        steps += 1;
        assert!(steps < 100);
    }
    assert!(matches!(action, Action::Stop(EngineError::NoProgress)));
    assert_eq!(steps, 16);
    assert!(pass_allowed(15, 1));
    assert!(!pass_allowed(16, 1));
}

#[test]
fn manifest_dependency_lookup_honours_renames() {
    let deps = vec![
        ManifestDependency { name: "serde".to_string(), rename: None, requirement: "^1".to_string() },
        ManifestDependency {
            name: "rand".to_string(),
            rename: Some("rnd".to_string()),
            requirement: "^0.8".to_string(),
        },
    ];
    assert_eq!(find_manifest_dependency(&deps, "rnd", "rand"), Some(1));
    assert_eq!(find_manifest_dependency(&deps, "serde", "serde"), Some(0));
    assert_eq!(find_manifest_dependency(&deps, "x", "serde"), Some(0));
    assert_eq!(find_manifest_dependency(&deps, "x", "y"), None);
}

#[test]
fn semver_questions() {
    assert!(is_older("1.2.2", "1.2.3"));
    assert!(!is_older("1.2.4", "1.2.3"));
    assert!(!is_older("1.2.3", "1.2.3"));
    assert!(is_older("1.0.0-alpha", "1.0.0"));
    assert!(is_older("garbage", "1.2.3"));
    assert!(is_older("2.0.0", "garbage"));
    assert!(satisfies_requirements("1.5.0", &vec!["^1.2".to_string(), "<2".to_string()]));
    assert!(!satisfies_requirements("2.0.0", &vec!["^1.2".to_string()]));
    assert!(!satisfies_requirements("nope", &vec!["^1.2".to_string()]));
    assert!(satisfies_requirements("nope", &vec![]));
    assert!(is_exact_requirement("=1.2.3"));
    assert!(!is_exact_requirement("^1.2.3"));
    assert!(!is_exact_requirement("=1.2.3, <2"));
}
