use juju_bundle::bundle::{Application, Bundle};

fn s(x: &str) -> String {
    x.to_string()
}

fn sample() -> Bundle {
    let mut b = Bundle::new(None);
    for n in ["a", "b", "c"] {
        assert!(b.add_application(Application::new(s(n))));
    }
    b.add_relation(s("a:db"), s("b:db"));
    b.add_relation(s("b:http"), s("c:http"));
    b
}

#[test]
fn export_after_filtering_has_two_nodes_and_one_edge() {
    let mut b = sample();
    assert!(b.limit_apps(&[s("a"), s("b")], &[]).is_ok());
    let g = b.export_graph();
    assert_eq!(g.nodes, vec![s("a"), s("b")]);
    assert_eq!(g.edges.len(), 1);
    assert_eq!(g.edges[0].from, 0);
    assert_eq!(g.edges[0].to, 1);
    assert_eq!(g.edges[0].label, "db");
}

#[test]
fn export_labels_missing_interface_as_empty() {
    let mut b = Bundle::new(None);
    assert!(b.add_application(Application::new(s("x"))));
    assert!(b.add_application(Application::new(s("y"))));
    b.add_relation(s("y"), s("x:in"));
    let g = b.export_graph();
    assert_eq!(g.edges[0].from, 1);
    assert_eq!(g.edges[0].to, 0);
    assert_eq!(g.edges[0].label, "");
}

#[test]
fn export_dot_renders_graphviz() {
    let mut b = sample();
    assert!(b.limit_apps(&[s("a"), s("b")], &[]).is_ok());
    let dot = b.export_dot();
    assert_eq!(
        dot,
        "digraph {\n    0 [ label = \"a\" ]\n    1 [ label = \"b\" ]\n    0 -> 1 [ ]\n}\n"
    );
}

#[test]
fn export_dot_escapes_labels() {
    let mut b = Bundle::new(None);
    assert!(b.add_application(Application::new(s("q\"x"))));
    assert!(b.add_application(Application::new(s("back\\slash"))));
    let dot = b.export_dot();
    assert_eq!(
        dot,
        "digraph {\n    0 [ label = \"q\\\"x\" ]\n    1 [ label = \"back\\\\slash\" ]\n}\n"
    );
}
