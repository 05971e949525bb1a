use juju_bundle::bundle::{app_of_endpoint, interface_of_endpoint, Application, Bundle};
use juju_bundle::subset::{ensure_subset, SelectionError};

fn s(x: &str) -> String {
    x.to_string()
}

fn sample() -> Bundle {
    let mut b = Bundle::new(Some(s("sample")));
    assert!(b.add_application(Application::new(s("a"))));
    assert!(b.add_application(Application::new(s("b"))));
    assert!(b.add_application(Application::new(s("c"))));
    b.add_relation(s("a:db"), s("b:db"));
    b.add_relation(s("b:http"), s("c:http"));
    b
}

fn names(b: &Bundle) -> Vec<String> {
    b.app_names()
}

fn relations(b: &Bundle) -> Vec<(String, String)> {
    b.relations.iter().map(|r| (r.from.clone(), r.to.clone())).collect()
}

#[test]
fn limit_keeps_chosen_and_drops_dangling_relations() {
    let mut b = sample();
    assert!(b.limit_apps(&[s("a"), s("b")], &[]).is_ok());
    assert_eq!(names(&b), vec![s("a"), s("b")]);
    assert_eq!(relations(&b), vec![(s("a:db"), s("b:db"))]);
    assert!(b.check_consistency());
}

#[test]
fn limit_with_no_choice_keeps_everything() {
    let mut b = sample();
    assert!(b.limit_apps(&[], &[]).is_ok());
    assert_eq!(names(&b), vec![s("a"), s("b"), s("c")]);
    assert_eq!(relations(&b).len(), 2);
}

#[test]
fn limit_except_removes_and_drops_wiring() {
    let mut b = sample();
    assert!(b.limit_apps(&[], &[s("c")]).is_ok());
    assert_eq!(names(&b), vec![s("a"), s("b")]);
    assert_eq!(relations(&b), vec![(s("a:db"), s("b:db"))]);
}

#[test]
fn limit_chosen_intersects_keys() {
    let mut b = sample();
    assert!(b.limit_apps(&[s("c"), s("a")], &[]).is_ok());
    assert_eq!(names(&b), vec![s("a"), s("c")]);
    assert!(relations(&b).is_empty());
}

#[test]
fn limit_unknown_names_every_offender_and_keeps_bundle() {
    let mut b = sample();
    let r = b.limit_apps(&[s("x"), s("a"), s("y")], &[]);
    match r {
        Err(SelectionError::UnknownApps(m)) => assert_eq!(m, vec![s("x"), s("y")]),
        Ok(()) => panic!("expected an error"),
    }
    assert_eq!(names(&b), vec![s("a"), s("b"), s("c")]);
    assert_eq!(relations(&b).len(), 2);
}

#[test]
fn limit_twice_is_limit_once() {
    let mut once = sample();
    assert!(once.limit_apps(&[s("a"), s("b")], &[s("b")]).is_ok());
    let first = (names(&once), relations(&once));
    let _ = once.limit_apps(&[s("a"), s("b")], &[s("b")]);
    assert_eq!((names(&once), relations(&once)), first);
    assert_eq!(first.0, vec![s("a")]);
}

#[test]
fn ensure_subset_reports_missing() {
    assert!(ensure_subset(&[s("a")], &[s("a"), s("b")]).is_ok());
    assert!(ensure_subset(&[], &[]).is_ok());
    match ensure_subset(&[s("q"), s("a"), s("r")], &[s("a")]) {
        Err(SelectionError::UnknownApps(m)) => assert_eq!(m, vec![s("q"), s("r")]),
        Ok(()) => panic!("expected an error"),
    }
}

#[test]
fn endpoints_split_on_colons() {
    assert_eq!(app_of_endpoint("a:db"), "a");
    assert_eq!(app_of_endpoint("plain"), "plain");
    assert_eq!(app_of_endpoint(""), "");
    assert_eq!(interface_of_endpoint("a:db"), "db");
    assert_eq!(interface_of_endpoint("a:x:y"), "y");
    assert_eq!(interface_of_endpoint("plain"), "");
}

#[test]
fn add_application_refuses_duplicate_names() {
    let mut b = sample();
    assert!(!b.add_application(Application::new(s("a"))));
    assert_eq!(names(&b).len(), 3);
    assert!(b.has_app(&s("b")));
    assert!(!b.has_app(&s("z")));
}

#[test]
fn consistency_check_finds_dangling_endpoint() {
    let mut b = sample();
    assert!(b.check_consistency());
    b.add_relation(s("a:x"), s("ghost:x"));
    assert!(!b.check_consistency());
}
