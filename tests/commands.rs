use juju_bundle::bundle::{Application, Bundle};
use juju_bundle::commands::{deploy_steps, parse_key_val, DeployStep};
use juju_bundle::resolve::{pin_revision, Action, Channel, ResolveError};
use juju_bundle::subset::SelectionError;

fn s(x: &str) -> String {
    x.to_string()
}

#[test]
fn key_val_splits_at_first_equals() {
    assert_eq!(parse_key_val("app=path/x"), (s("app"), Some(s("path/x"))));
    assert_eq!(parse_key_val("app"), (s("app"), None));
    assert_eq!(parse_key_val("a=b=c"), (s("a"), Some(s("b=c"))));
    assert_eq!(parse_key_val("a="), (s("a"), Some(s(""))));
    assert_eq!(parse_key_val("=v"), (s(""), Some(s("v"))));
}

fn sample() -> Bundle {
    let mut b = Bundle::new(None);
    let mut a = Application::new(s("a"));
    a.source = Some(s("./a"));
    assert!(b.add_application(a));
    assert!(b.add_application(Application::new(s("b"))));
    let mut c = Application::new(s("c"));
    c.source = Some(s("./c"));
    assert!(b.add_application(c));
    b
}

#[test]
fn build_targets_default_to_every_app() {
    let b = sample();
    assert_eq!(b.build_targets(&[]).ok().unwrap(), vec![s("a"), s("b"), s("c")]);
}

#[test]
fn build_without_selection_resolves_every_app() {
    let mut b = Bundle::new(None);
    let mut a = Application::new(s("a"));
    a.charm = Some(s("cs:foo"));
    a.channel = Some(s("stable"));
    assert!(b.add_application(a));
    let targets = b.build_targets(&[]).ok().unwrap();
    assert_eq!(targets, vec![s("a")]);
    let actions = b.resolve_apps(&targets, None).ok().unwrap();
    assert!(actions == vec![Action::QueryLatest(Channel::Stable)]);
    let pinned = pin_revision(b.applications[0].charm.as_ref().unwrap(), 7).ok().unwrap();
    assert_eq!(pinned, "cs:foo/7");
}

#[test]
fn build_without_selection_refuses_app_without_charm_or_source() {
    let mut b = sample();
    let targets = b.build_targets(&[]).ok().unwrap();
    match b.resolve_apps(&targets, None) {
        Err((name, e)) => {
            assert_eq!(name, "b");
            assert!(e == ResolveError::MissingCharmReference);
        }
        Ok(_) => panic!("expected an error"),
    }
    b.applications[1].charm = Some(s("ch:b/4"));
    let actions = b.resolve_apps(&targets, Some(Channel::Beta)).ok().unwrap();
    assert!(
        actions
            == vec![Action::Build(Channel::Beta), Action::Keep, Action::Build(Channel::Beta)]
    );
}

#[test]
fn build_targets_follow_selection_in_bundle_order() {
    let b = sample();
    let sel = vec![(s("c"), None), (s("b"), Some(s("x")))];
    assert_eq!(b.build_targets(&sel).ok().unwrap(), vec![s("b"), s("c")]);
    match b.build_targets(&[(s("nope"), None)]) {
        Err(SelectionError::UnknownApps(m)) => assert_eq!(m, vec![s("nope")]),
        Ok(_) => panic!("expected an error"),
    }
}

#[test]
fn deploy_steps_in_order() {
    assert!(deploy_steps(false, false, false, 0) == vec![DeployStep::Deploy]);
    assert!(
        deploy_steps(true, false, true, 60)
            == vec![DeployStep::Build, DeployStep::Remove, DeployStep::Wait(60), DeployStep::Deploy]
    );
    assert!(deploy_steps(true, true, true, 60) == vec![DeployStep::Build, DeployStep::UpgradeCharms]);
    assert!(deploy_steps(false, false, false, 5) == vec![DeployStep::Wait(5), DeployStep::Deploy]);
}
