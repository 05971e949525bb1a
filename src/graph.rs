use vstd::prelude::*;
use crate::decimal::decimal;
use crate::bundle::{
    app_of_endpoint, endpoint_app, lemma_position_in, position_in, endpoint_interface, interface_of_endpoint, texts, names_of,
    wired, Application, Bundle, Relation,
};

verus! {

/// A directed, labelled edge between two nodes, by index.
pub struct Edge {
    pub from: usize,
    pub to: usize,
    pub label: String,
}

/// A dependency graph: one node per application, one edge per relation.
pub struct DepGraph {
    pub nodes: Vec<String>,
    pub edges: Vec<Edge>,
}

/// The edges as plain triples of source, target and label.
pub open spec fn edge_triples(edges: Seq<Edge>) -> Seq<(int, int, Seq<char>)> {
    edges.map_values(|e: Edge| (e.from as int, e.to as int, e.label@))
}

/// How the Graphviz writer escapes one character of a label: `"` and `\`
/// get a backslash, a newline becomes `\l`.
pub open spec fn escape_char(c: char) -> Seq<char> {
    if c == '"' || c == '\\' {
        seq!['\\', c]
    } else if c == '\n' {
        seq!['\\', 'l']
    } else {
        seq![c]
    }
}

/// A label as the Graphviz writer escapes it.
pub open spec fn escape_label(t: Seq<char>) -> Seq<char>
    decreases t.len(),
{
    if t.len() == 0 {
        Seq::empty()
    } else {
        escape_label(t.drop_last()) + escape_char(t.last())
    }
}

/// One line per node, `    <index> [ label = "<name>" ]`.
pub open spec fn node_lines(nodes: Seq<Seq<char>>) -> Seq<char>
    decreases nodes.len(),
{
    if nodes.len() == 0 {
        Seq::empty()
    } else {
        node_lines(nodes.drop_last()) + "    "@ + decimal((nodes.len() - 1) as nat)
            + " [ label = \""@ + escape_label(nodes.last()) + "\" ]\n"@
    }
}

/// One line per edge, `    <from> -> <to> [ ]`: labels are left out.
pub open spec fn edge_lines(edges: Seq<(int, int, Seq<char>)>) -> Seq<char>
    decreases edges.len(),
{
    if edges.len() == 0 {
        Seq::empty()
    } else {
        edge_lines(edges.drop_last()) + "    "@ + decimal(edges.last().0 as nat) + " -> "@
            + decimal(edges.last().1 as nat) + " [ ]\n"@
    }
}

/// The Graphviz text of a directed graph with these nodes and edges, edge
/// labels left out.
pub open spec fn dot_text(nodes: Seq<Seq<char>>, edges: Seq<(int, int, Seq<char>)>) -> Seq<char> {
    "digraph {\n"@ + node_lines(nodes) + edge_lines(edges) + "}\n"@
}

/// The edges of a bundle's graph: one per relation, in order, from the
/// position of the first endpoint's application to that of the second's,
/// labelled with the first endpoint's interface.
pub open spec fn relation_edges(apps: Seq<Application>, rels: Seq<Relation>) -> Seq<
    (int, int, Seq<char>),
> {
    rels.map_values(
        |r: Relation|
            (
                position_in(names_of(apps), endpoint_app(r.from@)),
                position_in(names_of(apps), endpoint_app(r.to@)),
                endpoint_interface(r.from@),
            ),
    )
}

impl DepGraph {
    /// Every edge joins two nodes of the graph.
    pub open spec fn well_formed(&self) -> bool {
        forall|i: int|
            0 <= i < self.edges@.len() ==> (#[trigger] self.edges@[i]).from < self.nodes@.len()
                && self.edges@[i].to < self.nodes@.len()
    }

}

/// Relies on petgraph's `Graph::add_node` and `Graph::add_edge` to build the
/// graph, nodes numbered in the order they are added, and on its `Dot`
/// writer (with `Config::EdgeNoLabel`, shown with `{}`) to print it: a
/// `digraph {` line, a line per node, a line per edge, and `}`.
/// `add_node` and `add_edge` panic once the default `u32` index space is
/// used up, and `add_edge` on an index out of range.
#[verifier::external_body]
fn render_dot(g: &DepGraph) -> (r: String)
    requires
        g.well_formed(),
        g.nodes@.len() < 0xffff_ffff,
        g.edges@.len() < 0xffff_ffff,
    ensures
        r@ == dot_text(texts(g.nodes@), edge_triples(g.edges@)),
{
    let mut graph = petgraph::Graph::<&str, &str>::new();
    let mut ids = Vec::new();
    for n in g.nodes.iter() {
        ids.push(graph.add_node(n.as_str()));
    }
    for e in g.edges.iter() {
        graph.add_edge(ids[e.from], ids[e.to], e.label.as_str());
    }
    let config = [petgraph::dot::Config::EdgeNoLabel];
    format!("{}", petgraph::dot::Dot::with_config(&graph, &config))
}

impl Bundle {
    /// The position of the application named `name`, if there is one.
    pub fn position_of(&self, name: &String) -> (r: Option<usize>)
        ensures
            r matches Some(i) ==> i < self.applications@.len()
                && self.applications@[i as int].name@ == name@,
            r is None ==> !self.keys().contains(name@),
    {
        let mut i: usize = 0;
        while i < self.applications.len()
            invariant
                0 <= i <= self.applications@.len(),
                forall|k: int| 0 <= k < i ==> (#[trigger] self.applications@[k]).name@ != name@,
            decreases self.applications.len() - i,
        {
            if self.applications[i].name == *name {
                return Some(i);
            }
            i = i + 1;
        }
        proof {
            if self.keys().contains(name@) {
                let k = choose|k: int|
                    0 <= k < names_of(self.applications@).len() && names_of(
                        self.applications@,
                    )[k] == name@;
                assert(self.applications@[k].name@ == name@);
            }
        }
        None
    }

    /// The dependency graph of a consistent bundle: a node per application,
    /// in order, and the edges of `relation_edges`.
    pub fn export_graph(&self) -> (r: DepGraph)
        requires
            self.well_formed(),
            self.consistent(),
        ensures
            r.well_formed(),
            texts(r.nodes@) == names_of(self.applications@),
            edge_triples(r.edges@) == relation_edges(self.applications@, self.relations@),
    {
        let nodes = self.app_names();
        let mut edges: Vec<Edge> = Vec::new();
        let mut i: usize = 0;
        while i < self.relations.len()
            invariant
                self.well_formed(),
                self.consistent(),
                0 <= i <= self.relations@.len(),
                texts(nodes@) == names_of(self.applications@),
                edges@.len() == i,
                forall|k: int|
                    0 <= k < i ==> (#[trigger] edges@[k]).from < nodes@.len() && edges@[k].to
                        < nodes@.len(),
                edge_triples(edges@) == relation_edges(
                    self.applications@,
                    self.relations@.subrange(0, i as int),
                ),
            decreases self.relations.len() - i,
        {
            let r = &self.relations[i];
            assert(wired(self.relations@[i as int], self.keys()));
            let from_app = app_of_endpoint(r.from.as_str());
            let to_app = app_of_endpoint(r.to.as_str());
            let from = self.position_of(&from_app);
            let to = self.position_of(&to_app);
            match (from, to) {
                (Some(a), Some(b)) => {
                    let label = interface_of_endpoint(r.from.as_str());
                    proof {
                        let names = names_of(self.applications@);
                        assert(names[a as int] == from_app@);
                        assert(names[b as int] == to_app@);
                        lemma_position_in(names, a as int);
                        lemma_position_in(names, b as int);
                        assert(self.relations@.subrange(0, i + 1) == self.relations@.subrange(
                            0,
                            i as int,
                        ).push(self.relations@[i as int]));
                        let e = Edge { from: a, to: b, label };
                        assert(edge_triples(edges@.push(e)) =~= edge_triples(edges@).push(
                            (a as int, b as int, label@),
                        ));
                    }
                    edges.push(Edge { from: a, to: b, label });
                },
                _ => {
                    // Both endpoints name applications: the bundle is consistent.
                    assert(false);
                },
            }
            i = i + 1;
        }
        assert(self.relations@.subrange(0, i as int) == self.relations@);
        DepGraph { nodes, edges }
    }

    /// The dependency graph of a consistent bundle as Graphviz text.
    pub fn export_dot(&self) -> (r: String)
        requires
            self.well_formed(),
            self.consistent(),
            self.applications@.len() < 0xffff_ffff,
            self.relations@.len() < 0xffff_ffff,
        ensures
            r@ == dot_text(
                names_of(self.applications@),
                relation_edges(self.applications@, self.relations@),
            ),
    {
        let g = self.export_graph();
        assert(g.nodes@.len() == texts(g.nodes@).len());
        assert(g.edges@.len() == edge_triples(g.edges@).len());
        render_dot(&g)
    }
}

} // verus!
