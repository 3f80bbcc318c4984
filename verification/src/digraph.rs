//! The directed graph of projects, kept by `petgraph`.
//!
//! What a graph holds is given two names: `graph_nodes`, the projects in the
//! order of their indices, and `graph_edges`, the edges in the order of their
//! indices, each from the dependent project to the one that it depends on.
use vstd::prelude::*;

use crate::project::Project;
use crate::reach;
use crate::text;

verus! {

/// `petgraph::Graph`, with directed or undirected edges.
#[verifier::external_type_specification]
#[verifier::external_body]
#[verifier::reject_recursive_types(N)]
#[verifier::reject_recursive_types(E)]
#[verifier::reject_recursive_types(Ty)]
#[verifier::reject_recursive_types(Ix)]
pub struct ExGraph<N, E, Ty, Ix>(petgraph::Graph<N, E, Ty, Ix>);

/// `petgraph::Directed`, the marker of directed edges.
#[verifier::external_type_specification]
#[verifier::external_body]
pub struct ExDirected(petgraph::Directed);

/// The projects of a graph, by index.
pub uninterp spec fn graph_nodes(graph: petgraph::graph::DiGraph<Project, ()>) -> Seq<Project>;

/// The edges of a graph, by index: the indices of their two ends.
pub uninterp spec fn graph_edges(graph: petgraph::graph::DiGraph<Project, ()>) -> Seq<(int, int)>;

/// A number in decimal digits.
pub open spec fn decimal(n: nat) -> Seq<char>
    decreases n,
{
    let digit = (('0' as int) + n % 10) as char;
    if n < 10 {
        seq![digit]
    } else {
        decimal(n / 10).push(digit)
    }
}

/// The lines of the nodes in the DOT text: each has its index and its
/// attributes.
pub open spec fn dot_nodes(attributes: Seq<Seq<char>>) -> Seq<char>
    decreases attributes.len(),
{
    if attributes.len() == 0 {
        Seq::empty()
    } else {
        let index = (attributes.len() - 1) as nat;
        dot_nodes(attributes.drop_last()) + "    "@ + decimal(index) + " [ "@ + attributes.last()
            + "]\n"@
    }
}

/// The lines of the edges in the DOT text: each has the indices of its ends and
/// no attributes.
pub open spec fn dot_edges(edges: Seq<(int, int)>) -> Seq<char>
    decreases edges.len(),
{
    if edges.len() == 0 {
        Seq::empty()
    } else {
        let (from, to) = edges.last();
        dot_edges(edges.drop_last()) + "    "@ + decimal(from as nat) + " -> "@ + decimal(
            to as nat,
        ) + " [ ]\n"@
    }
}

/// The DOT text of a directed graph whose nodes have the given attributes, and
/// whose edges have none.
pub open spec fn dot_text(attributes: Seq<Seq<char>>, edges: Seq<(int, int)>) -> Seq<char> {
    "digraph {\n"@ + dot_nodes(attributes) + dot_edges(edges) + "}\n"@
}

/// Indices as integers.
pub open spec fn ints(list: Seq<usize>) -> Seq<int> {
    list.map_values(|i: usize| i as int)
}

/// `petgraph::graph::DiGraph::new`: a graph without nodes and edges.
#[verifier::external_body]
pub(crate) fn new_graph() -> (r: petgraph::graph::DiGraph<Project, ()>)
    ensures
        graph_nodes(r) == Seq::<Project>::empty(),
        graph_edges(r) == Seq::<(int, int)>::empty(),
{
    petgraph::graph::DiGraph::new()
}

/// `petgraph::graph::Graph::clone`: a graph with the same edges at the same
/// indices, and at each index a clone of the node there, which `Project::clone`
/// makes.
#[verifier::external_body]
pub(crate) fn copy_graph(graph: &petgraph::graph::DiGraph<Project, ()>) -> (r:
    petgraph::graph::DiGraph<Project, ()>)
    ensures
        graph_nodes(r).map_values(|p: Project| p@) == graph_nodes(*graph).map_values(
            |p: Project| p@,
        ),
        graph_edges(r) == graph_edges(*graph),
{
    graph.clone()
}

/// `petgraph::graph::Graph::node_count`: the number of nodes.
#[verifier::external_body]
pub(crate) fn node_count(graph: &petgraph::graph::DiGraph<Project, ()>) -> (r: usize)
    ensures
        r == graph_nodes(*graph).len(),
{
    graph.node_count()
}

/// `petgraph::graph::Graph::edge_count`: the number of edges.
#[verifier::external_body]
pub(crate) fn edge_count(graph: &petgraph::graph::DiGraph<Project, ()>) -> (r: usize)
    ensures
        r == graph_edges(*graph).len(),
{
    graph.edge_count()
}

/// `petgraph::graph::Graph::add_node`: puts a node behind the others and gives
/// its index. It panics where the graph has as many nodes as its index type
/// allows.
#[verifier::external_body]
pub(crate) fn add_node(
    graph: &mut petgraph::graph::DiGraph<Project, ()>,
    project: Project,
) -> (r: usize)
    requires
        graph_nodes(*old(graph)).len() < u32::MAX,
    ensures
        r == graph_nodes(*old(graph)).len(),
        graph_nodes(*final(graph)) == graph_nodes(*old(graph)).push(project),
        graph_edges(*final(graph)) == graph_edges(*old(graph)),
{
    graph.add_node(project).index()
}

/// `&graph[index]` of `petgraph::graph::Graph`: the node with that index.
#[verifier::external_body]
pub(crate) fn node(graph: &petgraph::graph::DiGraph<Project, ()>, index: usize) -> (r: &Project)
    requires
        index < graph_nodes(*graph).len(),
    ensures
        *r == graph_nodes(*graph)[index as int],
{
    &graph[petgraph::graph::NodeIndex::new(index)]
}

/// `&mut graph[index]` of `petgraph::graph::Graph`: the node with that index,
/// to be changed. Nothing else of the graph changes.
#[verifier::external_body]
pub(crate) fn node_mut(
    graph: &mut petgraph::graph::DiGraph<Project, ()>,
    index: usize,
) -> (r: &mut Project)
    requires
        index < graph_nodes(*old(graph)).len(),
    ensures
        *r == graph_nodes(*old(graph))[index as int],
        graph_nodes(*final(graph)) == graph_nodes(*old(graph)).update(index as int, *final(r)),
        graph_edges(*final(graph)) == graph_edges(*old(graph)),
{
    &mut graph[petgraph::graph::NodeIndex::new(index)]
}

/// `petgraph::graph::Graph::update_edge`: adds an edge behind the others unless
/// the graph has it. It panics where an end is no node, and where an edge is
/// to be added to as many as the index type allows.
#[verifier::external_body]
pub(crate) fn update_edge(
    graph: &mut petgraph::graph::DiGraph<Project, ()>,
    from: usize,
    to: usize,
)
    requires
        from < graph_nodes(*old(graph)).len(),
        to < graph_nodes(*old(graph)).len(),
        graph_edges(*old(graph)).contains((from as int, to as int)) || graph_edges(
            *old(graph),
        ).len() < u32::MAX,
    ensures
        graph_nodes(*final(graph)) == graph_nodes(*old(graph)),
        graph_edges(*final(graph)) == if graph_edges(*old(graph)).contains(
            (from as int, to as int),
        ) {
            graph_edges(*old(graph))
        } else {
            graph_edges(*old(graph)).push((from as int, to as int))
        },
{
    graph.update_edge(
        petgraph::graph::NodeIndex::new(from),
        petgraph::graph::NodeIndex::new(to),
        (),
    );
}

/// `petgraph::graph::Graph::edge_endpoints`: the two ends of the edge with that
/// index, which are nodes of the graph.
#[verifier::external_body]
pub(crate) fn edge_endpoints(
    graph: &petgraph::graph::DiGraph<Project, ()>,
    index: usize,
) -> (r: Option<(usize, usize)>)
    requires
        index < graph_edges(*graph).len(),
    ensures
        r is Some,
        (r->0).0 == graph_edges(*graph)[index as int].0,
        (r->0).1 == graph_edges(*graph)[index as int].1,
        (r->0).0 < graph_nodes(*graph).len(),
        (r->0).1 < graph_nodes(*graph).len(),
{
    let ends = graph.edge_endpoints(petgraph::graph::EdgeIndex::new(index));
    ends.map(|(from, to)| (from.index(), to.index()))
}

/// `petgraph::graph::Graph::neighbors_directed` for incoming edges: the nodes
/// with an edge to the given one, each once for every such edge. Their order is
/// left open: it depends on how the edges came about.
#[verifier::external_body]
pub(crate) fn incoming(
    graph: &petgraph::graph::DiGraph<Project, ()>,
    index: usize,
) -> (r: Vec<usize>)
    requires
        index < graph_nodes(*graph).len(),
    ensures
        ints(r@).to_multiset() == graph_edges(*graph).filter(
            |e: (int, int)| e.1 == index,
        ).map_values(|e: (int, int)| e.0).to_multiset(),
        forall|i: int| 0 <= i < r@.len() ==> #[trigger] r@[i] < graph_nodes(*graph).len(),
{
    let index = petgraph::graph::NodeIndex::new(index);
    let found = graph.neighbors_directed(index, petgraph::Direction::Incoming);
    found.map(|neighbor| neighbor.index()).collect()
}

/// `petgraph::algo::is_cyclic_directed`: whether the graph has a cycle.
#[verifier::external_body]
pub(crate) fn is_cyclic(graph: &petgraph::graph::DiGraph<Project, ()>) -> (r: bool)
    ensures
        r == reach::cyclic(graph_edges(*graph)),
{
    petgraph::algo::is_cyclic_directed(graph)
}

/// `petgraph::algo::tarjan_scc`: the strongly connected components, in reverse
/// topological order. The order of the nodes within a component is left open.
#[verifier::external_body]
pub(crate) fn components(graph: &petgraph::graph::DiGraph<Project, ()>) -> (r: Vec<Vec<usize>>)
    ensures
        reach::strong_components(
            graph_nodes(*graph).len(),
            graph_edges(*graph),
            r@.map_values(|group: Vec<usize>| ints(group@)),
        ),
{
    let groups = petgraph::algo::tarjan_scc(graph);
    groups.into_iter().map(|group| group.into_iter().map(|node| node.index()).collect()).collect()
}

/// The attributes of a node in the DOT text: its label is the project id.
pub open spec fn label_attribute(id: Seq<char>) -> Seq<char> {
    "label = \""@ + id + "\""@
}

/// The attributes of a node in the DOT text.
pub fn node_attributes(project: &Project) -> (r: String)
    ensures
        r@ == label_attribute(project.id@),
{
    let start = text::join_text("label = \"", project.id.as_str());
    text::join_text(start.as_str(), "\"")
}

/// The debug text of `petgraph::dot::Dot`, made by `Dot::with_attr_getters`
/// without the labels of its own: a line for each node with its attributes, and
/// then a line for each edge, by index.
#[verifier::external_body]
pub(crate) fn render_dot(graph: &petgraph::graph::DiGraph<Project, ()>) -> (r: String)
    ensures
        r@ == dot_text(
            graph_nodes(*graph).map_values(|p: Project| label_attribute(p.id@)),
            graph_edges(*graph),
        ),
{
    let config = [petgraph::dot::Config::NodeNoLabel, petgraph::dot::Config::EdgeNoLabel];
    let edge = |_graph: &petgraph::graph::DiGraph<Project, ()>, _edge| String::new();
    let node = |_graph: &petgraph::graph::DiGraph<Project, ()>, node: (_, &Project)|
        node_attributes(node.1);
    format!("{:?}", petgraph::dot::Dot::with_attr_getters(graph, &config, &edge, &node))
}

} // verus!
