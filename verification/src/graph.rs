//! The control flow graph: its nodes and edges, and what is assumed of the
//! `petgraph` graph that holds them.

use vstd::prelude::*;
use crate::program::ProgramView;

verus! {

/// The place of a jump in a program: the positions of its subroutine, of its
/// block in the subroutine and of the jump in the block.
#[derive(Clone, Copy, Debug, PartialEq, Eq, Hash, Structural)]
pub struct JumpSite {
    pub sub: usize,
    pub blk: usize,
    pub jmp: usize,
}

/// A node of the control flow graph: the entry or the exit of the block at
/// position `blk` of the subroutine at position `sub`.
#[derive(Clone, Copy, Debug, PartialEq, Eq, Hash, Structural)]
pub enum Node {
    BlkStart { sub: usize, blk: usize },
    BlkEnd { sub: usize, blk: usize },
}

/// What an edge of the control flow graph stands for.
#[derive(Clone, Copy, Debug, PartialEq, Eq, Hash, Structural)]
pub enum Edge {
    /// From the entry of a block to its exit.
    Block,
    /// A jump inside a subroutine. The second jump, where present, is the
    /// conditional jump of the same block that was not taken.
    Jump(JumpSite, Option<JumpSite>),
    /// From a call to the first block of the called subroutine.
    Call(JumpSite),
    /// From a call whose target is not part of the program to the block at
    /// which the call returns.
    ExternCallStub(JumpSite),
    /// From a returning block of a called subroutine to the block at which
    /// the call, given here, returns.
    ReturnCombine(JumpSite),
}

/// One edge of a graph: the positions of its two nodes, and its weight.
pub ghost struct EdgeRecord {
    pub source: int,
    pub target: int,
    pub weight: Edge,
}

/// `Graph` of petgraph: an adjacency list of nodes with weights of type `N`
/// and edges with weights of type `E`. Nothing inside it is visible here.
#[verifier::external_type_specification]
#[verifier::external_body]
#[verifier::reject_recursive_types(N)]
#[verifier::reject_recursive_types(E)]
#[verifier::reject_recursive_types(Ty)]
#[verifier::reject_recursive_types(Ix)]
pub struct ExGraph<N, E, Ty, Ix>(petgraph::graph::Graph<N, E, Ty, Ix>);

/// `Directed` of petgraph: the marker for graphs whose edges have a direction.
#[verifier::external_type_specification]
#[verifier::external_body]
pub struct ExDirected(petgraph::Directed);

/// The control flow graph of a program: a directed `petgraph` graph whose
/// nodes and edges are numbered in the order in which they were added.
pub type ControlFlowGraph = petgraph::graph::Graph<Node, Edge, petgraph::Directed, usize>;

/// The weights of the nodes of a graph, by node index.
pub uninterp spec fn graph_nodes(
    g: petgraph::graph::Graph<Node, Edge, petgraph::Directed, usize>,
) -> Seq<Node>;

/// The edges of a graph, by edge index.
pub uninterp spec fn graph_edges(
    g: petgraph::graph::Graph<Node, Edge, petgraph::Directed, usize>,
) -> Seq<EdgeRecord>;

/// `weights` are the weights of the edges into `node`, each edge once:
/// `weights[j]` is the weight of edge `order[j]`.
pub open spec fn lists_incoming(
    edges: Seq<EdgeRecord>,
    node: int,
    order: Seq<int>,
    weights: Seq<Edge>,
) -> bool {
    &&& order.len() == weights.len()
    &&& order.no_duplicates()
    &&& forall|j: int|
        0 <= j < order.len() ==> {
            &&& 0 <= #[trigger] order[j] < edges.len()
            &&& edges[order[j]].target == node
            &&& weights[j] == edges[order[j]].weight
        }
    &&& forall|i: int|
        0 <= i < edges.len() && (#[trigger] edges[i]).target == node ==> order.contains(i)
}

/// Whether some edge of `edges` ends in `node`.
pub open spec fn has_incoming(edges: Seq<EdgeRecord>, node: int) -> bool {
    exists|i: int| 0 <= i < edges.len() && (#[trigger] edges[i]).target == node
}

/// `Graph::with_capacity` of petgraph, with no capacity asked for: a graph
/// without nodes and without edges.
#[verifier::external_body]
pub(crate) fn new_graph() -> (g: ControlFlowGraph)
    ensures
        graph_nodes(g) == Seq::<Node>::empty(),
        graph_edges(g) == Seq::<EdgeRecord>::empty(),
{
    petgraph::graph::Graph::with_capacity(0, 0)
}

/// `Graph::add_node` of petgraph: the node is added behind the others and its
/// index, the number of nodes before the call, is returned. The edges stay.
/// With `usize` indices the call has no limit on the number of nodes.
#[verifier::external_body]
pub(crate) fn add_node(g: &mut ControlFlowGraph, weight: Node) -> (index: usize)
    ensures
        index == graph_nodes(*old(g)).len(),
        graph_nodes(*final(g)) == graph_nodes(*old(g)).push(weight),
        graph_edges(*final(g)) == graph_edges(*old(g)),
{
    g.add_node(weight).index()
}

/// `Graph::add_edge` of petgraph: the edge from `source` to `target` is added
/// behind the others; the nodes stay. The call panics for a node that does not
/// exist, which `requires` rules out.
#[verifier::external_body]
pub(crate) fn add_edge(g: &mut ControlFlowGraph, source: usize, target: usize, weight: Edge)
    requires
        source < graph_nodes(*old(g)).len(),
        target < graph_nodes(*old(g)).len(),
    ensures
        graph_nodes(*final(g)) == graph_nodes(*old(g)),
        graph_edges(*final(g)) == graph_edges(*old(g)).push(
            EdgeRecord { source: source as int, target: target as int, weight },
        ),
{
    g.add_edge(
        petgraph::graph::NodeIndex::new(source),
        petgraph::graph::NodeIndex::new(target),
        weight,
    );
}

/// `Graph::node_count` of petgraph: the number of nodes.
#[verifier::external_body]
pub(crate) fn node_count(g: &ControlFlowGraph) -> (count: usize)
    ensures
        count == graph_nodes(*g).len(),
{
    g.node_count()
}

/// Indexing a petgraph `Graph` by a node index: the weight of that node. It
/// panics for a node that does not exist, which `requires` rules out.
#[verifier::external_body]
pub(crate) fn node_weight(g: &ControlFlowGraph, node: usize) -> (weight: Node)
    requires
        node < graph_nodes(*g).len(),
    ensures
        weight == graph_nodes(*g)[node as int],
{
    g[petgraph::graph::NodeIndex::new(node)]
}

/// `Graph::edges_directed` of petgraph, for the incoming direction: the
/// weights of the edges that end in `node`, each edge once. About the order
/// in which they come nothing is claimed.
#[verifier::external_body]
pub(crate) fn incoming_edge_weights(g: &ControlFlowGraph, node: usize) -> (weights: Vec<Edge>)
    requires
        node < graph_nodes(*g).len(),
    ensures
        exists|order: Seq<int>| lists_incoming(graph_edges(*g), node as int, order, weights@),
{
    g.edges_directed(petgraph::graph::NodeIndex::new(node), petgraph::Direction::Incoming)
        .map(|edge| *edge.weight())
        .collect()
}

/// `Graph::neighbors_directed` of petgraph, for the incoming direction, and
/// the first item of the iterator it returns: the source of some edge that
/// ends in `node`, or nothing where no edge ends there.
#[verifier::external_body]
pub(crate) fn first_incoming_neighbor(g: &ControlFlowGraph, node: usize) -> (neighbor: Option<
    usize,
>)
    requires
        node < graph_nodes(*g).len(),
    ensures
        neighbor is Some <==> has_incoming(graph_edges(*g), node as int),
        neighbor matches Some(source) ==> exists|i: int|
            0 <= i < graph_edges(*g).len() && (#[trigger] graph_edges(*g)[i]).target == node
                && graph_edges(*g)[i].source == source,
{
    g.neighbors_directed(petgraph::graph::NodeIndex::new(node), petgraph::Direction::Incoming)
        .next()
        .map(|source| source.index())
}

/// The number of graph nodes that stand for the blocks of the subroutines
/// before position `sub`: the index of the first node of that subroutine.
pub open spec fn first_node(p: ProgramView, sub: int) -> int
    decreases sub,
{
    if sub <= 0 {
        0
    } else {
        first_node(p, sub - 1) + 2 * p.subs[sub - 1].term.blocks.len()
    }
}

/// The index of the node that stands for the entry of a block.
pub open spec fn start_node(p: ProgramView, sub: int, blk: int) -> int {
    first_node(p, sub) + 2 * blk
}

/// The index of the node that stands for the exit of a block.
pub open spec fn end_node(p: ProgramView, sub: int, blk: int) -> int {
    first_node(p, sub) + 2 * blk + 1
}

/// The nodes of the first `count` blocks of the subroutine at position `sub`:
/// for each block its entry, then its exit.
pub open spec fn sub_nodes(sub: int, count: int) -> Seq<Node>
    decreases count,
{
    if count <= 0 {
        Seq::empty()
    } else {
        sub_nodes(sub, count - 1).push(
            Node::BlkStart { sub: sub as usize, blk: (count - 1) as usize },
        ).push(Node::BlkEnd { sub: sub as usize, blk: (count - 1) as usize })
    }
}

/// The nodes of the subroutines before position `sub`.
pub open spec fn nodes_upto(p: ProgramView, sub: int) -> Seq<Node>
    decreases sub,
{
    if sub <= 0 {
        Seq::empty()
    } else {
        nodes_upto(p, sub - 1) + sub_nodes(sub - 1, p.subs[sub - 1].term.blocks.len() as int)
    }
}

/// The nodes of the control flow graph of a program: two for each block, in
/// the order of the subroutines and of their blocks.
pub open spec fn cfg_nodes(p: ProgramView) -> Seq<Node> {
    nodes_upto(p, p.subs.len() as int)
}

/// A subroutine's blocks have two nodes each.
pub proof fn lemma_sub_nodes_len(sub: int, count: int)
    requires
        0 <= count,
    ensures
        sub_nodes(sub, count).len() == 2 * count,
    decreases count,
{
    if count > 0 {
        lemma_sub_nodes_len(sub, count - 1);
    }
}

/// The nodes before a subroutine are counted by `first_node`.
pub proof fn lemma_nodes_upto_len(p: ProgramView, sub: int)
    requires
        0 <= sub,
    ensures
        nodes_upto(p, sub).len() == first_node(p, sub),
    decreases sub,
{
    if sub > 0 {
        lemma_nodes_upto_len(p, sub - 1);
        lemma_sub_nodes_len(sub - 1, p.subs[sub - 1].term.blocks.len() as int);
    }
}

/// What stands at each position of a subroutine's nodes.
pub proof fn lemma_sub_nodes_index(sub: int, count: int, i: int)
    requires
        0 <= i < 2 * count,
    ensures
        sub_nodes(sub, count).len() == 2 * count,
        sub_nodes(sub, count)[i] == (if i % 2 == 0 {
            Node::BlkStart { sub: sub as usize, blk: (i / 2) as usize }
        } else {
            Node::BlkEnd { sub: sub as usize, blk: (i / 2) as usize }
        }),
    decreases count,
{
    lemma_sub_nodes_len(sub, count);
    lemma_sub_nodes_len(sub, count - 1);
    if i < 2 * (count - 1) {
        lemma_sub_nodes_index(sub, count - 1, i);
    }
}

/// The nodes of the first subroutines stay where they are when more follow.
pub proof fn lemma_nodes_upto_prefix(p: ProgramView, sub: int, later: int, i: int)
    requires
        0 <= sub <= later,
        0 <= i < first_node(p, sub),
    ensures
        first_node(p, sub) <= first_node(p, later),
        nodes_upto(p, later).len() == first_node(p, later),
        nodes_upto(p, later)[i] == nodes_upto(p, sub)[i],
    decreases later - sub,
{
    lemma_nodes_upto_len(p, later);
    lemma_nodes_upto_len(p, sub);
    if sub < later {
        lemma_nodes_upto_prefix(p, sub, later - 1, i);
        lemma_nodes_upto_len(p, later - 1);
    }
}

/// Every block of a program has its two nodes in the graph, at the positions
/// that `start_node` and `end_node` give.
pub proof fn lemma_block_nodes(p: ProgramView, sub: int, blk: int)
    requires
        p.has_block(sub, blk),
        p.fits(),
    ensures
        0 <= start_node(p, sub, blk),
        end_node(p, sub, blk) < cfg_nodes(p).len(),
        cfg_nodes(p)[start_node(p, sub, blk)] == (Node::BlkStart {
            sub: sub as usize,
            blk: blk as usize,
        }),
        cfg_nodes(p)[end_node(p, sub, blk)] == (Node::BlkEnd {
            sub: sub as usize,
            blk: blk as usize,
        }),
{
    let count = p.subs[sub].term.blocks.len() as int;
    lemma_nodes_upto_len(p, sub);
    lemma_nodes_upto_len(p, sub + 1);
    lemma_sub_nodes_index(sub, count, 2 * blk);
    lemma_sub_nodes_index(sub, count, 2 * blk + 1);
    assert(nodes_upto(p, sub + 1)[start_node(p, sub, blk)] == sub_nodes(sub, count)[2 * blk]);
    assert(nodes_upto(p, sub + 1)[end_node(p, sub, blk)] == sub_nodes(sub, count)[2 * blk + 1]);
    lemma_nodes_upto_prefix(p, sub + 1, p.subs.len() as int, start_node(p, sub, blk));
    lemma_nodes_upto_prefix(p, sub + 1, p.subs.len() as int, end_node(p, sub, blk));
}

/// Every node of the graph of a program stands for a block of the program,
/// and stands where `start_node` and `end_node` put it.
pub proof fn lemma_node_is_block(p: ProgramView, later: int, i: int)
    requires
        0 <= later <= p.subs.len(),
        p.fits(),
        0 <= i < nodes_upto(p, later).len(),
    ensures
        match nodes_upto(p, later)[i] {
            Node::BlkStart { sub, blk } => sub < later && p.has_block(sub as int, blk as int)
                && i == start_node(p, sub as int, blk as int),
            Node::BlkEnd { sub, blk } => sub < later && p.has_block(sub as int, blk as int) && i
                == end_node(p, sub as int, blk as int),
        },
    decreases later,
{
    lemma_nodes_upto_len(p, later);
    if later > 0 {
        lemma_nodes_upto_len(p, later - 1);
        if i < first_node(p, later - 1) {
            lemma_node_is_block(p, later - 1, i);
        } else {
            let count = p.subs[later - 1].term.blocks.len() as int;
            let j = i - first_node(p, later - 1);
            lemma_sub_nodes_index(later - 1, count, j);
            assert(nodes_upto(p, later)[i] == sub_nodes(later - 1, count)[j]);
        }
    }
}

} // verus!
