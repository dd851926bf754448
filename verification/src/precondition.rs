//! The condition that is known to hold on entry to a block, and at its end.

use vstd::prelude::*;
use crate::condition::{condition_option_view, negate_condition, negated};
use crate::expression::{Expression, ExpressionView};
use crate::graph::{
    graph_edges, graph_nodes, has_incoming, incoming_edge_weights, lists_incoming, node_weight,
    ControlFlowGraph, Edge, EdgeRecord, JumpSite, Node,
};
use crate::program::{Def, DefView, Jmp, JmpView, Program, ProgramView};
use crate::term::{Term, TermView};

verus! {

/// The jump at `site`, if the program has one there.
pub open spec fn jump_at(p: ProgramView, site: JumpSite) -> Option<JmpView> {
    if p.has_jump(site.sub as int, site.blk as int, site.jmp as int) {
        Some(p.jump(site.sub as int, site.blk as int, site.jmp as int).term)
    } else {
        None
    }
}

/// The condition that holds whenever control passes along an edge: the
/// condition of a conditional branch that is taken, the negation of the
/// condition of one that is not taken. Of any other edge nothing is known.
pub open spec fn edge_condition(p: ProgramView, weight: Edge) -> Option<ExpressionView> {
    match weight {
        Edge::Jump(taken, None) => match jump_at(p, taken) {
            Some(JmpView::CBranch { condition, .. }) => Some(condition),
            _ => None,
        },
        Edge::Jump(taken, Some(untaken)) => match (jump_at(p, taken), jump_at(p, untaken)) {
            (Some(JmpView::Branch(_)), Some(JmpView::CBranch { condition, .. })) => Some(
                negated(condition),
            ),
            _ => None,
        },
        _ => None,
    }
}

/// `condition` holds on entry to `node`: the node has incoming edges, and
/// `condition` is the condition of every one of them.
pub open spec fn is_shared_condition(
    p: ProgramView,
    edges: Seq<EdgeRecord>,
    node: int,
    condition: ExpressionView,
) -> bool {
    &&& has_incoming(edges, node)
    &&& forall|i: int|
        0 <= i < edges.len() && (#[trigger] edges[i]).target == node ==> edge_condition(
            p,
            edges[i].weight,
        ) == Some(condition)
}

/// The one condition that all edges into `node` share, if there is one.
pub open spec fn entry_precondition(p: ProgramView, edges: Seq<EdgeRecord>, node: int) -> Option<
    ExpressionView,
> {
    if exists|c: ExpressionView| is_shared_condition(p, edges, node, c) {
        Some(choose|c: ExpressionView| is_shared_condition(p, edges, node, c))
    } else {
        None
    }
}

/// Whether a definition writes a variable that `condition` reads. Writes to
/// memory do not count: conditions are over variables.
pub open spec fn def_overwrites(def: DefView, condition: ExpressionView) -> bool {
    match def {
        DefView::Assign { var, .. } => condition.reads(var),
        DefView::Load { var, .. } => condition.reads(var),
        DefView::Store { .. } => false,
    }
}

/// Whether one of the definitions writes a variable that `condition` reads.
pub open spec fn defs_overwrite(defs: Seq<TermView<DefView>>, condition: ExpressionView) -> bool {
    exists|i: int| 0 <= i < defs.len() && def_overwrites((#[trigger] defs[i]).term, condition)
}

/// The condition that holds at the end of the block whose entry is `node`:
/// the condition shared by all edges into it, provided that the block is not
/// the one its subroutine starts with and that none of its definitions
/// writes a variable of the condition.
pub open spec fn precondition_after_defs(
    p: ProgramView,
    nodes: Seq<Node>,
    edges: Seq<EdgeRecord>,
    node: int,
) -> Option<ExpressionView> {
    match nodes[node] {
        Node::BlkStart { sub, blk } => if !p.has_block(sub as int, blk as int) {
            None
        } else if p.block(sub as int, blk as int).tid == p.block(sub as int, 0).tid {
            None
        } else {
            match entry_precondition(p, edges, node) {
                Some(c) => if defs_overwrite(p.block(sub as int, blk as int).term.defs, c) {
                    None
                } else {
                    Some(c)
                },
                None => None,
            }
        },
        Node::BlkEnd { .. } => None,
    }
}

/// A shared condition is the condition of each listed edge.
proof fn lemma_shared_condition_is_of(
    p: ProgramView,
    edges: Seq<EdgeRecord>,
    node: int,
    order: Seq<int>,
    weights: Seq<Edge>,
    j: int,
    c: ExpressionView,
)
    requires
        lists_incoming(edges, node, order, weights),
        0 <= j < weights.len(),
        is_shared_condition(p, edges, node, c),
    ensures
        edge_condition(p, weights[j]) == Some(c),
{
    let i = order[j];
    assert(edges[i].target == node);
}

/// Two listed edges whose conditions differ leave no shared condition.
proof fn lemma_conditions_disagree(
    p: ProgramView,
    edges: Seq<EdgeRecord>,
    node: int,
    order: Seq<int>,
    weights: Seq<Edge>,
    j1: int,
    j2: int,
)
    requires
        lists_incoming(edges, node, order, weights),
        0 <= j1 < weights.len(),
        0 <= j2 < weights.len(),
        edge_condition(p, weights[j1]) is None || edge_condition(p, weights[j1]) != edge_condition(
            p,
            weights[j2],
        ),
    ensures
        entry_precondition(p, edges, node) is None,
{
    if exists|c: ExpressionView| is_shared_condition(p, edges, node, c) {
        let c = choose|c: ExpressionView| is_shared_condition(p, edges, node, c);
        lemma_shared_condition_is_of(p, edges, node, order, weights, j1, c);
        lemma_shared_condition_is_of(p, edges, node, order, weights, j2, c);
    }
}

/// A condition that all listed edges have is the entry precondition.
proof fn lemma_conditions_agree(
    p: ProgramView,
    edges: Seq<EdgeRecord>,
    node: int,
    order: Seq<int>,
    weights: Seq<Edge>,
    c: ExpressionView,
)
    requires
        lists_incoming(edges, node, order, weights),
        weights.len() > 0,
        forall|j: int| 0 <= j < weights.len() ==> edge_condition(p, #[trigger] weights[j]) == Some(c),
    ensures
        entry_precondition(p, edges, node) == Some(c),
{
    assert(edges[order[0]].target == node);
    assert forall|i: int| 0 <= i < edges.len() && (#[trigger] edges[i]).target
        == node implies edge_condition(p, edges[i].weight) == Some(c) by {
        assert(order.contains(i));
        let j = choose|j: int| 0 <= j < order.len() && order[j] == i;
        assert(weights[j] == edges[order[j]].weight);
    }
    assert(is_shared_condition(p, edges, node, c));
    let chosen = choose|c: ExpressionView| is_shared_condition(p, edges, node, c);
    lemma_shared_condition_is_of(p, edges, node, order, weights, 0, chosen);
}

/// A node without listed edges has no entry precondition.
proof fn lemma_no_incoming_edges(
    p: ProgramView,
    edges: Seq<EdgeRecord>,
    node: int,
    order: Seq<int>,
    weights: Seq<Edge>,
)
    requires
        lists_incoming(edges, node, order, weights),
        weights.len() == 0,
    ensures
        entry_precondition(p, edges, node) is None,
{
    if has_incoming(edges, node) {
        let i = choose|i: int| 0 <= i < edges.len() && (#[trigger] edges[i]).target == node;
        assert(order.contains(i));
    }
}

/// The jump at `site`, if the program has one there.
pub fn jump_at_site<'a>(program: &'a Program, site: JumpSite) -> (r: Option<&'a Term<Jmp>>)
    ensures
        match r {
            Some(jump) => jump_at(program@, site) == Some(jump@.term),
            None => jump_at(program@, site) is None,
        },
{
    if site.sub < program.subs.len() {
        let sub = &program.subs[site.sub];
        if site.blk < sub.term.blocks.len() {
            let block = &sub.term.blocks[site.blk];
            if site.jmp < block.term.jmps.len() {
                return Some(&block.term.jmps[site.jmp]);
            }
        }
    }
    None
}

/// The condition that holds whenever control passes along an edge of the
/// given weight, if one is known.
pub fn condition_of_edge(program: &Program, weight: Edge) -> (r: Option<Expression>)
    ensures
        condition_option_view(r) == edge_condition(program@, weight),
{
    match weight {
        Edge::Jump(taken, None) => match jump_at_site(program, taken) {
            Some(jump) => match &jump.term {
                Jmp::CBranch { condition, .. } => Some(condition.clone()),
                _ => None,
            },
            None => None,
        },
        Edge::Jump(taken, Some(untaken)) => match (
            jump_at_site(program, taken),
            jump_at_site(program, untaken),
        ) {
            (Some(jump), Some(conditional)) => match (&jump.term, &conditional.term) {
                (Jmp::Branch(_), Jmp::CBranch { condition, .. }) => Some(
                    negate_condition(condition.clone()),
                ),
                _ => None,
            },
            _ => None,
        },
        _ => None,
    }
}

/// Returns a condition that is known to be true before the block at `node`
/// is executed: the condition that all edges into the node share.
pub fn get_precondition_from_incoming_edges(
    program: &Program,
    graph: &ControlFlowGraph,
    node: usize,
) -> (r: Option<Expression>)
    requires
        node < graph_nodes(*graph).len(),
    ensures
        condition_option_view(r) == entry_precondition(
            program@,
            graph_edges(*graph),
            node as int,
        ),
{
    let incoming_edges = incoming_edge_weights(graph, node);
    let ghost edges = graph_edges(*graph);
    let ghost order = choose|order: Seq<int>|
        lists_incoming(edges, node as int, order, incoming_edges@);
    let mut first_condition: Option<Expression> = None;
    let mut i: usize = 0;
    while i < incoming_edges.len()
        invariant
            i <= incoming_edges.len(),
            edges == graph_edges(*graph),
            lists_incoming(edges, node as int, order, incoming_edges@),
            (i == 0) == (first_condition is None),
            first_condition matches Some(first) ==> forall|j: int|
                0 <= j < i ==> edge_condition(program@, #[trigger] incoming_edges@[j]) == Some(
                    first@,
                ),
        decreases incoming_edges.len() - i,
    {
        let Some(condition) = condition_of_edge(program, incoming_edges[i]) else {
            proof {
                lemma_conditions_disagree(
                    program@,
                    edges,
                    node as int,
                    order,
                    incoming_edges@,
                    i as int,
                    i as int,
                );
            }
            return None;
        };
        match &first_condition {
            None => {
                first_condition = Some(condition);
            },
            Some(first) => {
                if !first.same_as(&condition) {
                    proof {
                        lemma_conditions_disagree(
                            program@,
                            edges,
                            node as int,
                            order,
                            incoming_edges@,
                            0,
                            i as int,
                        );
                    }
                    return None;
                }
            },
        }
        i += 1;
    }
    proof {
        match &first_condition {
            Some(first) => {
                lemma_conditions_agree(
                    program@,
                    edges,
                    node as int,
                    order,
                    incoming_edges@,
                    first@,
                );
            },
            None => {
                lemma_no_incoming_edges(program@, edges, node as int, order, incoming_edges@);
            },
        }
    }
    first_condition
}

/// Returns a condition that is known to be true after all definitions of
/// the block at `node` are executed: the condition that all incoming edges
/// share, unless a definition of the block writes one of its variables.
pub fn get_block_precondition_after_defs(
    program: &Program,
    cfg: &ControlFlowGraph,
    node: usize,
) -> (r: Option<Expression>)
    requires
        node < graph_nodes(*cfg).len(),
    ensures
        condition_option_view(r) == precondition_after_defs(
            program@,
            graph_nodes(*cfg),
            graph_edges(*cfg),
            node as int,
        ),
{
    let Node::BlkStart { sub, blk } = node_weight(cfg, node) else {
        return None;
    };
    if sub >= program.subs.len() {
        return None;
    }
    let blocks = &program.subs[sub].term.blocks;
    if blk >= blocks.len() {
        return None;
    }
    let block = &blocks[blk];
    if block.tid.same_as(&blocks[0].tid) {
        // A subroutine may be entered from callers that the graph does not know.
        return None;
    }
    let Some(block_precondition) = get_precondition_from_incoming_edges(program, cfg, node) else {
        return None;
    };
    let ghost defs = program@.block(sub as int, blk as int).term.defs;
    let mut i: usize = 0;
    while i < block.term.defs.len()
        invariant
            i <= block.term.defs.len(),
            defs == block@.term.defs,
            defs == program@.block(sub as int, blk as int).term.defs,
            program@.has_block(sub as int, blk as int),
            graph_nodes(*cfg)[node as int] == (Node::BlkStart { sub, blk }),
            program@.block(sub as int, blk as int).tid != program@.block(sub as int, 0).tid,
            entry_precondition(program@, graph_edges(*cfg), node as int) == Some(
                block_precondition@,
            ),
            forall|j: int| 0 <= j < i ==> !def_overwrites((#[trigger] defs[j]).term, block_precondition@),
        decreases block.term.defs.len() - i,
    {
        match &block.term.defs[i].term {
            Def::Assign { var, .. } => {
                if block_precondition.reads(var) {
                    assert(def_overwrites(defs[i as int].term, block_precondition@));
                    return None;
                }
            },
            Def::Load { var, .. } => {
                if block_precondition.reads(var) {
                    assert(def_overwrites(defs[i as int].term, block_precondition@));
                    return None;
                }
            },
            Def::Store { .. } => {},
        }
        i += 1;
    }
    Some(block_precondition)
}

} // verus!
