use juju_bundle::bundle::Application;
use juju_bundle::charm::{CharmUrl, Store};
use juju_bundle::resolve::{pin_revision, resolve_action, Action, Channel, ResolveError};

fn s(x: &str) -> String {
    x.to_string()
}

#[test]
fn parses_full_reference() {
    let u = CharmUrl::parse("cs:~kubeflow/argo-controller/127").ok().unwrap();
    assert!(u.store == Store::CharmStore);
    assert_eq!(u.namespace, Some(s("kubeflow")));
    assert_eq!(u.name, "argo-controller");
    assert_eq!(u.revision, Some(127));
    assert_eq!(u.to_text(), "cs:~kubeflow/argo-controller/127");
}

#[test]
fn parses_bare_reference() {
    let u = CharmUrl::parse("ch:mysql").ok().unwrap();
    assert!(u.store == Store::CharmHub);
    assert_eq!(u.namespace, None);
    assert_eq!(u.name, "mysql");
    assert_eq!(u.revision, None);
}

#[test]
fn formats_and_reads_back() {
    let u = CharmUrl { store: Store::CharmHub, namespace: Some(s("me")), name: s("app"), revision: Some(0) };
    let t = u.to_text();
    assert_eq!(t, "ch:~me/app/0");
    let v = CharmUrl::parse(&t).ok().unwrap();
    assert_eq!(v.to_text(), t);
    assert_eq!(v.revision, Some(0));
    let big = CharmUrl { store: Store::CharmStore, namespace: None, name: s("x"), revision: Some(u64::MAX) };
    assert_eq!(big.to_text(), "cs:x/18446744073709551615");
}

#[test]
fn rejects_malformed_references() {
    for bad in [
        "", "cs", "cs:", "xx:name", "cs;name", "cs:~ns", "cs:~/name", "cs:name/", "cs:name/07",
        "cs:name/1x", "cs:na:me", "cs:~ns/~name", "cs:name/18446744073709551616", "cs:a/1/2",
    ] {
        assert!(CharmUrl::parse(bad).is_err(), "{}", bad);
    }
}

#[test]
fn channels_parse_order_and_print() {
    assert!(Channel::parse("edge") == Some(Channel::Edge));
    assert!(Channel::parse("stable") == Some(Channel::Stable));
    assert!(Channel::parse("candidate") == Some(Channel::Candidate));
    assert!(Channel::parse("beta") == Some(Channel::Beta));
    assert!(Channel::parse("Stable").is_none());
    assert!(Channel::Edge.precedes(&Channel::Beta));
    assert!(Channel::Candidate.precedes(&Channel::Stable));
    assert!(!Channel::Stable.precedes(&Channel::Edge));
    assert_eq!(Channel::Candidate.label(), "candidate");
    assert_eq!(Channel::Edge.rank(), 0);
    assert_eq!(Channel::Stable.rank(), 3);
}

#[test]
fn unpinned_app_on_stable_queries_and_pins_reported_revision() {
    let mut app = Application::new(s("a"));
    app.charm = Some(s("cs:foo"));
    app.channel = Some(s("stable"));
    let action = resolve_action(&app, None);
    assert!(action == Ok(Action::QueryLatest(Channel::Stable)));
    let pinned = pin_revision(app.charm.as_ref().unwrap(), 7).ok().unwrap();
    assert_eq!(pinned, "cs:foo/7");
    assert_eq!(CharmUrl::parse(&pinned).ok().unwrap().revision, Some(7));
}

#[test]
fn resolution_decision_table() {
    let mut built = Application::new(s("a"));
    built.source = Some(s("./charms/a"));
    assert!(resolve_action(&built, None) == Ok(Action::Build(Channel::Edge)));
    assert!(resolve_action(&built, Some(Channel::Beta)) == Ok(Action::Build(Channel::Beta)));

    let mut pinned = Application::new(s("b"));
    pinned.charm = Some(s("cs:~me/b/3"));
    assert!(resolve_action(&pinned, None) == Ok(Action::Keep));

    let mut default_channel = Application::new(s("c"));
    default_channel.charm = Some(s("ch:c"));
    assert!(resolve_action(&default_channel, None) == Ok(Action::QueryLatest(Channel::Stable)));

    let mut on_edge = Application::new(s("d"));
    on_edge.charm = Some(s("ch:d"));
    on_edge.channel = Some(s("edge"));
    assert!(resolve_action(&on_edge, None) == Ok(Action::QueryLatest(Channel::Edge)));
}

#[test]
fn resolution_errors() {
    let bare = Application::new(s("a"));
    assert!(resolve_action(&bare, None) == Err(ResolveError::MissingCharmReference));
    let mut broken = Application::new(s("b"));
    broken.charm = Some(s("nope"));
    assert!(resolve_action(&broken, None) == Err(ResolveError::InvalidCharm));
    let mut odd_channel = Application::new(s("c"));
    odd_channel.charm = Some(s("cs:c"));
    odd_channel.channel = Some(s("nightly"));
    assert!(resolve_action(&odd_channel, None) == Err(ResolveError::InvalidChannel));
    assert!(pin_revision("nope", 1).is_err());
}

#[test]
fn pin_replaces_existing_revision() {
    assert_eq!(pin_revision("cs:~ns/app/3", 12).ok().unwrap(), "cs:~ns/app/12");
}
