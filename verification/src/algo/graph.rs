//! The adjacency store of the overlap tree: a `petgraph` graph whose nodes
//! carry block identifiers, together with what this crate takes on trust
//! about it.
//!
//! The contracts of the functions that call into `petgraph` or `uuid` are
//! not proved. Each restates what the called code does, in terms of four
//! sequences that describe a graph: the node weights by node index, the
//! ends of the edges by edge index, and for each node the far ends of its
//! outgoing and of its incoming edges in the order in which the graph walks
//! them. The graph keeps the edges of a node
//! in a linked list that a new edge joins at the head, so a walk meets the
//! edge added last first, and taking an edge out leaves the others in their
//! order.

use petgraph::dot::Dot;
use petgraph::graph::EdgeIndex;
use petgraph::graph::Graph;
use petgraph::graph::NodeIndex;
use petgraph::visit::EdgeRef;
use petgraph::Directed;
use petgraph::Direction;
use uuid::Uuid;
use vstd::prelude::*;

verus! {

/// `uuid::Uuid`: the weight of a node. Nothing is known of a value but the
/// number it stands for.
#[verifier::external_type_specification]
#[verifier::external_body]
pub struct ExUuid(Uuid);

/// `petgraph::Directed`: the marker of a graph with directed edges.
#[verifier::external_type_specification]
#[verifier::external_body]
pub struct ExDirected(Directed);

/// `petgraph::graph::Graph`: what a graph holds is known only through the
/// functions below.
#[verifier::external_type_specification]
#[verifier::external_body]
#[verifier::reject_recursive_types(N)]
#[verifier::reject_recursive_types(E)]
#[verifier::reject_recursive_types(Ty)]
#[verifier::reject_recursive_types(Ix)]
pub struct ExGraph<N, E, Ty, Ix>(Graph<N, E, Ty, Ix>);

/// The weight of each node, by node index, as a 128-bit number.
pub uninterp spec fn graph_weights(g: Graph<Uuid, usize, Directed, u32>) -> Seq<u128>;

/// For each node, the targets of its outgoing edges in the order in which
/// the graph walks them: the edge added last comes first.
pub uninterp spec fn graph_successors(g: Graph<Uuid, usize, Directed, u32>) -> Seq<Seq<usize>>;

/// For each node, the sources of its incoming edges in the order in which
/// the graph walks them: the edge added last comes first.
pub uninterp spec fn graph_predecessors(g: Graph<Uuid, usize, Directed, u32>) -> Seq<Seq<usize>>;

/// Source and target of each edge, by edge index.
pub uninterp spec fn graph_edges(g: Graph<Uuid, usize, Directed, u32>) -> Seq<(usize, usize)>;

/// The text that `petgraph::dot::Dot` renders for a graph.
pub uninterp spec fn graph_dot_text(g: Graph<Uuid, usize, Directed, u32>) -> Seq<char>;

/// The version and variant bits that every random identifier carries.
pub open spec fn is_random_id(id: u128) -> bool {
    id & 0x0000_0000_0000_f000_c000_0000_0000_0000u128
        == 0x0000_0000_0000_4000_8000_0000_0000_0000u128
}

/// `Uuid::new_v4`, as a number. The value is random; only its version and
/// variant bits are fixed.
#[verifier::external_body]
pub(crate) fn fresh_id() -> (id: u128)
    ensures
        is_random_id(id),
{
    Uuid::new_v4().as_u128()
}

/// `Graph::new`: a graph without nodes.
#[verifier::external_body]
pub(crate) fn graph_new() -> (g: Graph<Uuid, usize>)
    ensures
        graph_weights(g) == Seq::<u128>::empty(),
        graph_successors(g) == Seq::<Seq<usize>>::empty(),
        graph_predecessors(g) == Seq::<Seq<usize>>::empty(),
        graph_edges(g) == Seq::<(usize, usize)>::empty(),
{
    Graph::new()
}

/// `Graph::add_node`: appends a node without edges and returns its index.
/// The graph refuses a node whose index would be the largest `u32`.
#[verifier::external_body]
pub(crate) fn graph_add_node(g: &mut Graph<Uuid, usize>, id: u128) -> (index: usize)
    requires
        graph_weights(*old(g)).len() < u32::MAX,
    ensures
        index == graph_weights(*old(g)).len(),
        graph_weights(*final(g)) == graph_weights(*old(g)).push(id),
        graph_successors(*final(g)) == graph_successors(*old(g)).push(Seq::empty()),
        graph_predecessors(*final(g)) == graph_predecessors(*old(g)).push(Seq::empty()),
        graph_edges(*final(g)) == graph_edges(*old(g)),
{
    g.add_node(Uuid::from_u128(id)).index()
}

/// `Graph::add_edge` with weight 1: the new edge becomes the first outgoing
/// edge of `a` and the first incoming edge of `b`. Both nodes must exist, and
/// the graph refuses an edge whose index would be the largest `u32`.
#[verifier::external_body]
pub(crate) fn graph_add_edge(g: &mut Graph<Uuid, usize>, a: usize, b: usize)
    requires
        a < graph_weights(*old(g)).len(),
        b < graph_weights(*old(g)).len(),
        a != b,
        graph_edges(*old(g)).len() < u32::MAX,
    ensures
        graph_weights(*final(g)) == graph_weights(*old(g)),
        graph_edges(*final(g)) == graph_edges(*old(g)).push((a, b)),
        graph_successors(*final(g)) == graph_successors(*old(g)).update(
            a as int,
            seq![b] + graph_successors(*old(g))[a as int],
        ),
        graph_predecessors(*final(g)) == graph_predecessors(*old(g)).update(
            b as int,
            seq![a] + graph_predecessors(*old(g))[b as int],
        ),
{
    g.add_edge(NodeIndex::new(a), NodeIndex::new(b), 1);
}

/// `Graph::find_edge`: the index of an edge from `a` to `b`, if the walk
/// of the edges that leave `a` meets one.
#[verifier::external_body]
pub(crate) fn graph_find_edge(g: &Graph<Uuid, usize>, a: usize, b: usize) -> (found: Option<usize>)
    requires
        a < graph_weights(*g).len(),
        b < graph_weights(*g).len(),
    ensures
        match found {
            Some(edge) => edge < graph_edges(*g).len() && graph_edges(*g)[edge as int] == (a, b),
            None => !graph_successors(*g)[a as int].contains(b),
        },
{
    g.find_edge(NodeIndex::new(a), NodeIndex::new(b)).map(|edge| edge.index())
}

/// `Graph::remove_edge`: takes the edge out of the walks of both its ends,
/// where the other edges keep their places. The last edge takes over the
/// index that falls free.
#[verifier::external_body]
pub(crate) fn graph_remove_edge(g: &mut Graph<Uuid, usize>, edge: usize)
    requires
        edge < graph_edges(*old(g)).len(),
    ensures
        graph_weights(*final(g)) == graph_weights(*old(g)),
        graph_edges(*final(g)) == graph_edges(*old(g)).update(
            edge as int,
            graph_edges(*old(g)).last(),
        ).drop_last(),
        exists|at: int|
            0 <= at < graph_successors(*old(g))[graph_edges(*old(g))[edge as int].0 as int].len()
                && graph_successors(*old(g))[graph_edges(*old(g))[edge as int].0 as int][at]
                == graph_edges(*old(g))[edge as int].1 && graph_successors(*final(g))
                == graph_successors(*old(g)).update(
                graph_edges(*old(g))[edge as int].0 as int,
                #[trigger] graph_successors(*old(g))[graph_edges(
                    *old(g),
                )[edge as int].0 as int].remove(at),
            ),
        exists|at: int|
            0 <= at < graph_predecessors(*old(g))[graph_edges(*old(g))[edge as int].1 as int].len()
                && graph_predecessors(*old(g))[graph_edges(*old(g))[edge as int].1 as int][at]
                == graph_edges(*old(g))[edge as int].0 && graph_predecessors(*final(g))
                == graph_predecessors(*old(g)).update(
                graph_edges(*old(g))[edge as int].1 as int,
                #[trigger] graph_predecessors(*old(g))[graph_edges(
                    *old(g),
                )[edge as int].1 as int].remove(at),
            ),
{
    g.remove_edge(EdgeIndex::new(edge));
}

/// `Graph::edges_directed` with `Direction::Outgoing`: the targets of the
/// edges that leave `a`, in walk order.
#[verifier::external_body]
pub(crate) fn graph_successors_of(g: &Graph<Uuid, usize>, a: usize) -> (targets: Vec<usize>)
    requires
        a < graph_weights(*g).len(),
    ensures
        targets@ == graph_successors(*g)[a as int],
{
    g.edges_directed(NodeIndex::new(a), Direction::Outgoing).map(|e| e.target().index()).collect()
}

/// `Graph::edges_directed` with `Direction::Incoming`: the sources of the
/// edges that reach `a`, in walk order.
#[verifier::external_body]
pub(crate) fn graph_predecessors_of(g: &Graph<Uuid, usize>, a: usize) -> (sources: Vec<usize>)
    requires
        a < graph_weights(*g).len(),
    ensures
        sources@ == graph_predecessors(*g)[a as int],
{
    g.edges_directed(NodeIndex::new(a), Direction::Incoming).map(|e| e.source().index()).collect()
}

/// Indexing a graph by a node: the weight of node `a`.
#[verifier::external_body]
pub(crate) fn graph_weight(g: &Graph<Uuid, usize>, a: usize) -> (id: u128)
    requires
        a < graph_weights(*g).len(),
    ensures
        id == graph_weights(*g)[a as int],
{
    g[NodeIndex::new(a)].as_u128()
}

/// `Graph::node_count`.
#[verifier::external_body]
pub(crate) fn graph_node_count(g: &Graph<Uuid, usize>) -> (n: usize)
    ensures
        n == graph_weights(*g).len(),
{
    g.node_count()
}

/// `Dot::new`, rendered with `Display`.
#[verifier::external_body]
pub(crate) fn graph_dot(g: &Graph<Uuid, usize>) -> (text: String)
    ensures
        text@ == graph_dot_text(*g),
{
    format!("{}", Dot::new(g))
}

} // verus!
