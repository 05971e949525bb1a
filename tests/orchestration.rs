use juju_bundle::bundle::{Application, Bundle};
use juju_bundle::orchestrate::{
    check_prune, choose_policy, ConfigError, Outcome, Policy, WorkError, WorkErrorKind,
};
use juju_bundle::resolve::Channel;

fn s(x: &str) -> String {
    x.to_string()
}

fn two_apps() -> Bundle {
    let mut b = Bundle::new(None);
    let mut a = Application::new(s("a"));
    a.source = Some(s("./a"));
    assert!(b.add_application(a));
    let mut c = Application::new(s("b"));
    c.charm = Some(s("cs:b/1"));
    assert!(b.add_application(c));
    b.add_relation(s("a:db"), s("b:db"));
    b
}

fn ok(app: &str, charm: &str) -> Outcome {
    Outcome { app: s(app), result: Ok(s(charm)) }
}

fn failed(app: &str, kind: WorkErrorKind, message: &str) -> Outcome {
    Outcome { app: s(app), result: Err(WorkError { app: s(app), kind, message: s(message) }) }
}

fn charms(b: &Bundle) -> Vec<Option<String>> {
    b.applications.iter().map(|a| a.charm.clone()).collect()
}

#[test]
fn prune_under_parallel_is_refused() {
    assert!(matches!(
        check_prune(&Policy::Parallel(4), true),
        Err(ConfigError::PruneNeedsSerial)
    ));
    assert!(check_prune(&Policy::Parallel(4), false).is_ok());
    assert!(check_prune(&Policy::Serial, true).is_ok());
    let b = two_apps();
    assert!(b.plan_run(Policy::Parallel(1), true).is_err());
    let plan = b.plan_run(Policy::Serial, true).ok().unwrap();
    assert_eq!(plan.apps, vec![s("a"), s("b")]);
    assert!(plan.prune);
    assert!(plan.policy == Policy::Serial);
}

#[test]
fn policy_choice_and_workers() {
    assert!(choose_policy(true, 8) == Policy::Serial);
    assert!(choose_policy(false, 8) == Policy::Parallel(8));
    assert!(choose_policy(false, 0) == Policy::Parallel(1));
    assert_eq!(Policy::Serial.workers(), 1);
    assert_eq!(Policy::Parallel(6).workers(), 6);
}

#[test]
fn merge_is_keyed_by_name_not_position() {
    let mut serial = two_apps();
    let mut parallel = two_apps();
    assert!(serial.apply_outcomes(&[ok("a", "cs:a/5"), ok("b", "cs:b/2")]).is_ok());
    assert!(parallel.apply_outcomes(&[ok("b", "cs:b/2"), ok("a", "cs:a/5")]).is_ok());
    assert_eq!(charms(&serial), vec![Some(s("cs:a/5")), Some(s("cs:b/2"))]);
    assert_eq!(charms(&serial), charms(&parallel));
}

#[test]
fn merge_leaves_apps_without_outcome() {
    let mut b = two_apps();
    assert!(b.apply_outcomes(&[ok("a", "cs:a/9"), ok("zzz", "cs:z/1")]).is_ok());
    assert_eq!(charms(&b), vec![Some(s("cs:a/9")), Some(s("cs:b/1"))]);
}

#[test]
fn first_failure_wins_and_nothing_is_merged() {
    let mut b = two_apps();
    let r = b.apply_outcomes(&[
        ok("a", "cs:a/5"),
        failed("b", WorkErrorKind::Lookup, "store down"),
        failed("c", WorkErrorKind::Build, "compile"),
    ]);
    let e = match r {
        Err(e) => e,
        Ok(()) => panic!("expected a failure"),
    };
    assert_eq!(e.app, "b");
    assert!(e.kind == WorkErrorKind::Lookup);
    assert_eq!(e.message, "store down");
    assert_eq!(charms(&b), vec![None, Some(s("cs:b/1"))]);
}

#[test]
fn pinned_copy_follows_channel() {
    let mut b = two_apps();
    b.pin_to_channel(&Channel::Beta.label());
    assert_eq!(b.applications[0].channel, Some(s("beta")));
    assert_eq!(b.applications[0].source, None);
    assert_eq!(b.applications[1].channel, None);
    assert_eq!(b.applications[1].charm, Some(s("cs:b/1")));
    assert_eq!(b.relations.len(), 1);
}
