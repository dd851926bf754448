//! The pass, the program that it leaves behind, and the laws that hold of it.

use vstd::prelude::*;
use crate::cfg::{
    branches_to, cfg_edges, get_program_cfg, lemma_branch_target_has_incoming,
    lemma_exit_has_incoming,
};
use crate::chain::{
    decided_target, is_resolving_chain, lemma_chain_without_conditions_is_unconditional,
    lemma_resolved_target_is_chain_end, lemma_resolving_chain_unique, next_target,
    resolved_target, step_is_justified,
};
use crate::collections::lookup;
use crate::condition::negated;
use crate::expression::ExpressionView;
use crate::graph::{
    cfg_nodes, has_incoming, lemma_block_nodes, lemma_node_is_block, start_node, EdgeRecord, Node,
};
use crate::orphans::{
    get_nodes_without_incoming_edge, lemma_kept_blocks_all, lemma_kept_blocks_contains,
    node_block_id, orphan_ids,
    program_without_blocks, remove_new_orphaned_blocks, sub_without_blocks,
};
use crate::plan::{
    is_branch_pair, is_plan_for, is_returning_call, known_on_edge, plan_retargets, planned_target,
    retarget_of,
};
use crate::precondition::precondition_after_defs;
use crate::program::{BlkView, JmpView, ProgramView, Project, SubView};
use crate::retarget::{
    plan_applied_to_block, plan_applied_to_program, plan_applied_to_sub, plan_fits_program,
    retarget_jumps, retargeted_jump,
};
use crate::term::{
    first_with_tid, is_first_with_tid, lemma_first_exists, lemma_first_with_tid_is, TermView,
};

verus! {

/// The block at `(sub, blk)` with each jump moved to its new target.
pub open spec fn retargeted_block(
    p: ProgramView,
    nodes: Seq<Node>,
    edges: Seq<EdgeRecord>,
    sub: int,
    blk: int,
) -> TermView<BlkView> {
    let block = p.block(sub, blk);
    TermView {
        tid: block.tid,
        term: BlkView {
            defs: block.term.defs,
            jmps: Seq::new(
                block.term.jmps.len(),
                |k: int| retargeted_jump(block.term.jmps[k], retarget_of(p, nodes, edges, sub, blk, k)),
            ),
            indirect_jmp_targets: block.term.indirect_jmp_targets,
        },
    }
}

/// The subroutine at `sub` with each jump moved to its new target.
pub open spec fn retargeted_sub(
    p: ProgramView,
    nodes: Seq<Node>,
    edges: Seq<EdgeRecord>,
    sub: int,
) -> TermView<SubView> {
    TermView {
        tid: p.subs[sub].tid,
        term: SubView {
            name: p.subs[sub].term.name,
            blocks: Seq::new(
                p.subs[sub].term.blocks.len(),
                |b: int| retargeted_block(p, nodes, edges, sub, b),
            ),
            calling_convention: p.subs[sub].term.calling_convention,
        },
    }
}

/// The program with each jump moved to its new target, given the nodes and
/// edges of its control flow graph.
pub open spec fn retargeted_program(
    p: ProgramView,
    nodes: Seq<Node>,
    edges: Seq<EdgeRecord>,
) -> ProgramView {
    ProgramView {
        subs: Seq::new(p.subs.len(), |s: int| retargeted_sub(p, nodes, edges, s)),
        extern_symbols: p.extern_symbols,
    }
}

/// The blocks of `p` that have a node without incoming edge in its control
/// flow graph.
pub open spec fn orphans_of(p: ProgramView) -> Set<Seq<char>> {
    orphan_ids(p, cfg_nodes(p), cfg_edges(p))
}

/// The program after the first step of the pass: each jump moved to its new
/// target.
pub open spec fn retargeted(p: ProgramView) -> ProgramView {
    retargeted_program(p, cfg_nodes(p), cfg_edges(p))
}

/// The identifiers of the blocks that the pass removes: those that are
/// without incoming edge once the jumps are moved, and were not before.
pub open spec fn new_orphans(p: ProgramView) -> Set<Seq<char>> {
    orphans_of(retargeted(p)).difference(orphans_of(p))
}

/// The normalized program: each jump moved to its new target, and the blocks
/// removed that lost their last incoming edge by it.
pub open spec fn normalized(p: ProgramView) -> ProgramView {
    program_without_blocks(retargeted(p), new_orphans(p))
}

/// A jump that gets a new target is one that has a target to replace.
pub proof fn lemma_planned_is_retargetable(
    sub: SubView,
    block: BlkView,
    precondition: Option<ExpressionView>,
    jmp: int,
)
    requires
        planned_target(sub, block, precondition, jmp) is Some,
    ensures
        0 <= jmp < block.jmps.len(),
        block.jmps[jmp].term.retargetable() is Some,
{
}

/// Applying the retarget plan of a program moves each jump to its new target.
pub proof fn lemma_plan_retargets_program(
    p: ProgramView,
    nodes: Seq<Node>,
    edges: Seq<EdgeRecord>,
    plan: Map<Seq<char>, Seq<char>>,
)
    requires
        is_plan_for(p, nodes, edges, plan),
    ensures
        plan_fits_program(p, plan),
        plan_applied_to_program(p, plan) == retargeted_program(p, nodes, edges),
{
    assert forall|s: int, b: int, k: int|
        p.has_jump(s, b, k) && plan.contains_key((#[trigger] p.jump(s, b, k)).tid) implies p.jump(
        s,
        b,
        k,
    ).term.retargetable() is Some by {
        assert(lookup(plan, p.jump(s, b, k).tid) == retarget_of(p, nodes, edges, s, b, k));
        lemma_planned_is_retargetable(
            p.subs[s].term,
            p.block(s, b).term,
            precondition_after_defs(p, nodes, edges, start_node(p, s, b)),
            k,
        );
    }
    assert forall|s: int| 0 <= s < p.subs.len() implies plan_applied_to_sub(p.subs[s], plan)
        == retargeted_sub(p, nodes, edges, s) by {
        assert forall|b: int| 0 <= b < p.subs[s].term.blocks.len() implies plan_applied_to_block(
            p.subs[s].term.blocks[b],
            plan,
        ) == retargeted_block(p, nodes, edges, s, b) by {
            assert forall|k: int| 0 <= k < p.block(s, b).term.jmps.len() implies retargeted_jump(
                p.block(s, b).term.jmps[k],
                lookup(plan, p.block(s, b).term.jmps[k].tid),
            ) == retargeted_jump(
                p.block(s, b).term.jmps[k],
                retarget_of(p, nodes, edges, s, b, k),
            ) by {
                assert(p.has_jump(s, b, k));
                assert(lookup(plan, p.jump(s, b, k).tid) == retarget_of(p, nodes, edges, s, b, k));
            }
            assert(plan_applied_to_block(p.subs[s].term.blocks[b], plan).term.jmps
                =~= retargeted_block(p, nodes, edges, s, b).term.jmps);
        }
        assert(plan_applied_to_sub(p.subs[s], plan).term.blocks =~= retargeted_sub(
            p,
            nodes,
            edges,
            s,
        ).term.blocks);
    }
    assert(plan_applied_to_program(p, plan).subs =~= retargeted_program(p, nodes, edges).subs);
}

/// Simplifies the control flow of the program of `project`.
///
/// A jump whose destination is a block without definitions, from which the
/// conditions known at the jump determine where control goes next, is moved
/// to the end of the chain of such blocks. The blocks that lose their last
/// incoming edge by this are dead code and are removed; blocks that had no
/// incoming edge before are kept.
pub fn propagate_control_flow(project: &mut Project)
    requires
        old(project)@.program.term.jump_ids_unique(),
    ensures
        final(project)@.program.tid == old(project)@.program.tid,
        final(project)@.program.term == normalized(old(project)@.program.term),
{
    let ghost p = project@.program.term;
    let cfg_before_normalization = get_program_cfg(&project.program);
    let nodes_without_incoming_edges_at_beginning = get_nodes_without_incoming_edge(
        &project.program.term,
        &cfg_before_normalization,
    );
    let jmps_to_retarget = plan_retargets(&project.program.term, &cfg_before_normalization);
    proof {
        lemma_plan_retargets_program(p, cfg_nodes(p), cfg_edges(p), jmps_to_retarget@);
    }
    retarget_jumps(project, jmps_to_retarget);

    let cfg_after_normalization = get_program_cfg(&project.program);
    let nodes_without_incoming_edges_at_end = get_nodes_without_incoming_edge(
        &project.program.term,
        &cfg_after_normalization,
    );

    remove_new_orphaned_blocks(
        project,
        nodes_without_incoming_edges_at_beginning,
        nodes_without_incoming_edges_at_end,
    );
}

/// Whether `condition` is known at the end of a block for one of the three
/// reasons there are: it is the block's precondition, it is the condition of
/// the conditional branch that ends the block, or it is the negation of that.
pub open spec fn is_known_at_exit(
    block: BlkView,
    precondition: Option<ExpressionView>,
    condition: ExpressionView,
) -> bool {
    ||| precondition == Some(condition)
    ||| is_branch_pair(block) && condition == block.jmps[0].term->CBranch_condition
    ||| is_branch_pair(block) && condition == negated(block.jmps[0].term->CBranch_condition)
}

/// A jump is only moved along a chain: from its old target `path[0]` to its
/// new target, the end of `path`, through blocks of its subroutine that hold
/// no definitions, each left by its single branch or by the side of its
/// conditional branch that a known condition selects; and every condition
/// that is used as known is the precondition of the jump's block after its
/// definitions, the condition of the jump's block, or the negation of that.
pub proof fn lemma_retarget_follows_chain(
    p: ProgramView,
    nodes: Seq<Node>,
    edges: Seq<EdgeRecord>,
    sub: int,
    blk: int,
    jmp: int,
) -> (path: Seq<Seq<char>>)
    requires
        p.has_jump(sub, blk, jmp),
        retarget_of(p, nodes, edges, sub, blk, jmp) is Some,
    ensures
        path.len() > 1,
        p.jump(sub, blk, jmp).term.retargetable() == Some(path[0]),
        retarget_of(p, nodes, edges, sub, blk, jmp) == Some(path.last()),
        retargeted_program(p, nodes, edges).jump(sub, blk, jmp).term.retargetable() == Some(
            path.last(),
        ),
        path.no_duplicates(),
        path.len() <= p.subs[sub].term.blocks.len() + 1,
        forall|i: int|
            0 <= i < path.len() - 1 ==> step_is_justified(
                p.subs[sub].term,
                known_on_edge(
                    p.block(sub, blk).term,
                    precondition_after_defs(p, nodes, edges, start_node(p, sub, blk)),
                    jmp,
                ),
                #[trigger] path[i],
                path[i + 1],
            ),
        forall|c: ExpressionView|
            known_on_edge(
                p.block(sub, blk).term,
                precondition_after_defs(p, nodes, edges, start_node(p, sub, blk)),
                jmp,
            ).contains(c) ==> is_known_at_exit(
                p.block(sub, blk).term,
                precondition_after_defs(p, nodes, edges, start_node(p, sub, blk)),
                c,
            ),
{
    let block = p.block(sub, blk).term;
    let pre = precondition_after_defs(p, nodes, edges, start_node(p, sub, blk));
    let known = known_on_edge(block, pre, jmp);
    let start = block.jmps[jmp].term.retargetable()->0;
    let path = lemma_resolved_target_is_chain_end(p.subs[sub].term, known, start);
    assert forall|c: ExpressionView| known.contains(c) implies is_known_at_exit(block, pre, c) by {
        let i = choose|i: int| 0 <= i < known.len() && known[i] == c;
    }
    path
}

/// The return target of a call is only moved past blocks that hold nothing
/// but one unconditional branch: no block on the way has a definition or
/// leaves through a conditional branch, whatever was known before the call.
pub proof fn lemma_call_return_skips_only_branches(
    p: ProgramView,
    nodes: Seq<Node>,
    edges: Seq<EdgeRecord>,
    sub: int,
    blk: int,
    jmp: int,
) -> (path: Seq<Seq<char>>)
    requires
        p.has_jump(sub, blk, jmp),
        is_returning_call(p.jump(sub, blk, jmp).term),
        retarget_of(p, nodes, edges, sub, blk, jmp) is Some,
    ensures
        path.len() > 1,
        p.jump(sub, blk, jmp).term.retargetable() == Some(path[0]),
        retarget_of(p, nodes, edges, sub, blk, jmp) == Some(path.last()),
        forall|i: int|
            0 <= i < path.len() - 1 ==> {
                let skipped = first_with_tid(p.subs[sub].term.blocks, #[trigger] path[i]);
                &&& skipped is Some
                &&& p.block(sub, skipped->0).term.defs.len() == 0
                &&& p.block(sub, skipped->0).term.jmps.len() == 1
                &&& p.block(sub, skipped->0).term.jmps[0].term == JmpView::Branch(path[i + 1])
            },
{
    let block = p.block(sub, blk).term;
    let pre = precondition_after_defs(p, nodes, edges, start_node(p, sub, blk));
    assert(known_on_edge(block, pre, jmp) == Seq::<ExpressionView>::empty());
    let start = block.jmps[jmp].term.retargetable()->0;
    let path = lemma_resolved_target_is_chain_end(
        p.subs[sub].term,
        Seq::<ExpressionView>::empty(),
        start,
    );
    lemma_chain_without_conditions_is_unconditional(p.subs[sub].term, path);
    path
}

/// A block that had no incoming edge before the pass is still in its
/// subroutine after the pass, with its jumps moved to their new targets.
pub proof fn lemma_orphans_before_are_kept(p: ProgramView, sub: int, blk: int)
    requires
        p.has_block(sub, blk),
        orphans_of(p).contains(p.block(sub, blk).tid),
    ensures
        normalized(p).subs[sub].term.blocks.contains(retargeted(p).block(sub, blk)),
        retargeted(p).block(sub, blk).tid == p.block(sub, blk).tid,
        retargeted(p).block(sub, blk).term.defs == p.block(sub, blk).term.defs,
{
    let blocks = retargeted(p).subs[sub].term.blocks;
    assert(blocks[blk] == retargeted(p).block(sub, blk));
    lemma_kept_blocks_contains(blocks, new_orphans(p), retargeted(p).block(sub, blk));
}

/// The blocks of a subroutine after the pass are its blocks with their jumps
/// moved, without those that lost their last incoming edge by the pass: no
/// other block is removed, and none of those stays.
pub proof fn lemma_only_new_orphans_are_removed(p: ProgramView, sub: int, block: TermView<BlkView>)
    requires
        0 <= sub < p.subs.len(),
    ensures
        normalized(p).subs[sub].term.blocks.contains(block) <==> retargeted(
            p,
        ).subs[sub].term.blocks.contains(block) && !(orphans_of(retargeted(p)).contains(block.tid)
            && !orphans_of(p).contains(block.tid)),
{
    lemma_kept_blocks_contains(retargeted(p).subs[sub].term.blocks, new_orphans(p), block);
}

/// A program in which no jump has a new target is left as it is.
pub proof fn lemma_nothing_to_retarget_is_fixpoint(p: ProgramView)
    requires
        forall|s: int, b: int, k: int|
            p.has_jump(s, b, k) ==> #[trigger] retarget_of(p, cfg_nodes(p), cfg_edges(p), s, b, k)
                is None,
    ensures
        normalized(p) == p,
{
    let nodes = cfg_nodes(p);
    let edges = cfg_edges(p);
    assert forall|s: int| 0 <= s < p.subs.len() implies retargeted_sub(p, nodes, edges, s)
        == p.subs[s] by {
        assert forall|b: int| 0 <= b < p.subs[s].term.blocks.len() implies retargeted_block(
            p,
            nodes,
            edges,
            s,
            b,
        ) == p.subs[s].term.blocks[b] by {
            assert forall|k: int| 0 <= k < p.block(s, b).term.jmps.len() implies retargeted_jump(
                p.block(s, b).term.jmps[k],
                retarget_of(p, nodes, edges, s, b, k),
            ) == p.block(s, b).term.jmps[k] by {
                assert(p.has_jump(s, b, k));
            }
            assert(retargeted_block(p, nodes, edges, s, b).term.jmps =~= p.block(s, b).term.jmps);
        }
        assert(retargeted_sub(p, nodes, edges, s).term.blocks =~= p.subs[s].term.blocks);
    }
    assert(retargeted(p).subs =~= p.subs);
    assert(retargeted(p) == p);
    assert(new_orphans(p) =~= Set::<Seq<char>>::empty());
    assert forall|s: int| 0 <= s < p.subs.len() implies sub_without_blocks(p.subs[s], new_orphans(p))
        == p.subs[s] by {
        lemma_kept_blocks_all(p.subs[s].term.blocks, new_orphans(p));
    }
    assert(normalized(p).subs =~= p.subs);
}

/// Whether a conditional branch is decided does not depend on where its two
/// sides lead.
pub proof fn lemma_decision_ignores_targets(
    known: Seq<ExpressionView>,
    from: int,
    condition: ExpressionView,
    if_target: Seq<char>,
    else_target: Seq<char>,
    other_if_target: Seq<char>,
    other_else_target: Seq<char>,
)
    requires
        0 <= from,
    ensures
        decided_target(known, from, condition, if_target, else_target) is None
            <==> decided_target(known, from, condition, other_if_target, other_else_target)
            is None,
    decreases known.len() - from,
{
    if from < known.len() && known[from] != condition && known[from] != negated(condition) {
        lemma_decision_ignores_targets(
            known,
            from + 1,
            condition,
            if_target,
            else_target,
            other_if_target,
            other_else_target,
        );
    }
}

/// A block from which a chain cannot go on is still one after the pass has
/// moved the jumps of the program.
pub proof fn lemma_chain_end_survives_retargeting(
    p: ProgramView,
    nodes: Seq<Node>,
    edges: Seq<EdgeRecord>,
    sub: int,
    known: Seq<ExpressionView>,
    end: Seq<char>,
)
    requires
        0 <= sub < p.subs.len(),
        next_target(p.subs[sub].term, known, end) is None,
    ensures
        next_target(retargeted_program(p, nodes, edges).subs[sub].term, known, end) is None,
{
    let before = p.subs[sub].term.blocks;
    let after = retargeted_program(p, nodes, edges).subs[sub].term.blocks;
    assert(after.len() == before.len());
    assert forall|i: int| 0 <= i < before.len() implies (#[trigger] after[i]).tid
        == before[i].tid by {}
    match first_with_tid(before, end) {
        Some(i) => {
            assert(is_first_with_tid(before, end, i));
            assert(is_first_with_tid(after, end, i)) by {
                assert forall|j: int| 0 <= j < i implies (#[trigger] after[j]).tid != end by {
                    assert(before[j].tid != end);
                }
            }
            lemma_first_with_tid_is(after, end, i);
            let old_block = before[i].term;
            let new_block = after[i].term;
            assert(new_block.defs == old_block.defs);
            assert(new_block.jmps.len() == old_block.jmps.len());
            if old_block.defs.len() == 0 && old_block.jmps.len() == 2 {
                assert(new_block.jmps[0] == retargeted_jump(
                    old_block.jmps[0],
                    retarget_of(p, nodes, edges, sub, i, 0),
                ));
                assert(new_block.jmps[1] == retargeted_jump(
                    old_block.jmps[1],
                    retarget_of(p, nodes, edges, sub, i, 1),
                ));
                match (old_block.jmps[0].term, old_block.jmps[1].term) {
                    (JmpView::CBranch { target, condition }, JmpView::Branch(else_target)) => {
                        lemma_decision_ignores_targets(
                            known,
                            0,
                            condition,
                            target,
                            else_target,
                            new_block.jmps[0].term->CBranch_target,
                            new_block.jmps[1].term->Branch_0,
                        );
                    },
                    _ => {},
                }
            } else if old_block.defs.len() == 0 && old_block.jmps.len() == 1 {
                assert(new_block.jmps[0] == retargeted_jump(
                    old_block.jmps[0],
                    retarget_of(p, nodes, edges, sub, i, 0),
                ));
            }
        },
        None => {
            if first_with_tid(after, end) is Some {
                let i = first_with_tid(after, end)->0;
                assert(is_first_with_tid(after, end, i));
                assert(before[i].tid == end);
                lemma_first_exists(before, end, i);
            }
        },
    }
}

/// A jump that the pass has moved to the end of a chain which stopped for
/// want of a successor is not moved again while no more is known: resolving
/// from its new target, in the program with all jumps moved and under the
/// same conditions, finds nothing.
pub proof fn lemma_moved_jump_stays(
    p: ProgramView,
    nodes: Seq<Node>,
    edges: Seq<EdgeRecord>,
    sub: int,
    blk: int,
    jmp: int,
)
    requires
        p.has_jump(sub, blk, jmp),
        retarget_of(p, nodes, edges, sub, blk, jmp) matches Some(end) && next_target(
            p.subs[sub].term,
            known_on_edge(
                p.block(sub, blk).term,
                precondition_after_defs(p, nodes, edges, start_node(p, sub, blk)),
                jmp,
            ),
            end,
        ) is None,
    ensures
        resolved_target(
            retargeted_program(p, nodes, edges).subs[sub].term,
            known_on_edge(
                p.block(sub, blk).term,
                precondition_after_defs(p, nodes, edges, start_node(p, sub, blk)),
                jmp,
            ),
            retarget_of(p, nodes, edges, sub, blk, jmp)->0,
        ) is None,
{
    let known = known_on_edge(
        p.block(sub, blk).term,
        precondition_after_defs(p, nodes, edges, start_node(p, sub, blk)),
        jmp,
    );
    let end = retarget_of(p, nodes, edges, sub, blk, jmp)->0;
    let after = retargeted_program(p, nodes, edges).subs[sub].term;
    lemma_chain_end_survives_retargeting(p, nodes, edges, sub, known, end);
    let alone = seq![end];
    assert(is_resolving_chain(after, known, end, alone));
    let path = lemma_resolved_target_is_chain_end(after, known, end);
    lemma_resolving_chain_unique(after, known, end, alone, path);
}

/// Every target of a branch and every return target of a call in the
/// subroutine names a block of the subroutine.
pub open spec fn targets_are_blocks(sub: SubView) -> bool {
    forall|b: int, k: int|
        0 <= b < sub.blocks.len() && 0 <= k < sub.blocks[b].term.jmps.len() ==> (match (
        #[trigger] sub.blocks[b].term.jmps[k]).term.retargetable() {
            Some(target) => first_with_tid(sub.blocks, target) is Some,
            None => true,
        })
}

/// Moving the jumps keeps them inside the subroutine: where every target
/// named a block of the subroutine before, every target does so afterwards.
pub proof fn lemma_targets_stay_blocks(
    p: ProgramView,
    nodes: Seq<Node>,
    edges: Seq<EdgeRecord>,
    sub: int,
)
    requires
        0 <= sub < p.subs.len(),
        targets_are_blocks(p.subs[sub].term),
    ensures
        targets_are_blocks(retargeted_program(p, nodes, edges).subs[sub].term),
{
    let before = p.subs[sub].term;
    let after = retargeted_program(p, nodes, edges).subs[sub].term;
    assert forall|b: int, k: int|
        0 <= b < after.blocks.len() && 0 <= k < after.blocks[b].term.jmps.len() implies (match (
    #[trigger] after.blocks[b].term.jmps[k]).term.retargetable() {
        Some(target) => first_with_tid(after.blocks, target) is Some,
        None => true,
    }) by {
        let old_jump = before.blocks[b].term.jmps[k];
        let new_jump = after.blocks[b].term.jmps[k];
        assert(p.has_jump(sub, b, k));
        assert(new_jump == retargeted_jump(old_jump, retarget_of(p, nodes, edges, sub, b, k)));
        if new_jump.term.retargetable() is Some {
            let target = new_jump.term.retargetable()->0;
            if retarget_of(p, nodes, edges, sub, b, k) is Some {
                let path = lemma_retarget_follows_chain(p, nodes, edges, sub, b, k);
                let last = path.len() - 2;
                let known = known_on_edge(
                    p.block(sub, b).term,
                    precondition_after_defs(p, nodes, edges, start_node(p, sub, b)),
                    k,
                );
                assert(step_is_justified(before, known, path[last], path[last + 1]));
                let i = choose|i: int|
                    {
                        &&& #[trigger] is_first_with_tid(before.blocks, path[last], i)
                        &&& before.blocks[i].term.defs.len() == 0
                        &&& {
                            ||| before.blocks[i].term.jmps.len() == 1
                                && before.blocks[i].term.jmps[0].term == JmpView::Branch(
                                path[last + 1],
                            )
                            ||| {
                                &&& before.blocks[i].term.jmps.len() == 2
                                &&& before.blocks[i].term.jmps[1].term is Branch
                                &&& before.blocks[i].term.jmps[0].term matches JmpView::CBranch {
                                    target,
                                    condition,
                                }
                                &&& {
                                    ||| path[last + 1] == target && known.contains(condition)
                                    ||| before.blocks[i].term.jmps[1].term == JmpView::Branch(
                                        path[last + 1],
                                    ) && known.contains(negated(condition))
                                }
                            }
                        }
                    };
                assert(before.blocks[i].term.jmps[0].term.retargetable() is Some);
                if before.blocks[i].term.jmps.len() == 2 {
                    assert(before.blocks[i].term.jmps[1].term.retargetable() is Some);
                }
                assert(first_with_tid(before.blocks, target) is Some);
            } else {
                assert(old_jump.term.retargetable() == Some(target));
            }
            let j = first_with_tid(before.blocks, target)->0;
            assert(is_first_with_tid(before.blocks, target, j));
            assert(after.blocks[j].tid == target);
            lemma_first_exists(after.blocks, target, j);
        }
    }
}

/// The pass removes no block that a branch still names: where the blocks
/// carry identifiers of their own and every target named a block of its
/// subroutine before the pass, every branch that is left after the pass
/// names a block that is left in its subroutine.
pub proof fn lemma_branch_targets_are_kept(
    p: ProgramView,
    sub: int,
    blk: int,
    jmp: int,
    target: Seq<char>,
)
    requires
        p.fits(),
        p.block_ids_unique(),
        0 <= sub < p.subs.len(),
        targets_are_blocks(p.subs[sub].term),
        branches_to(normalized(p), sub, blk, jmp, target),
    ensures
        first_with_tid(normalized(p).subs[sub].term.blocks, target) is Some,
{
    let moved = retargeted(p);
    let nodes = cfg_nodes(moved);
    let edges = cfg_edges(moved);
    let blocks = moved.subs[sub].term.blocks;
    let left = normalized(p).subs[sub].term.blocks;
    let block = normalized(p).block(sub, blk);
    assert(left[blk] == block);
    lemma_kept_blocks_contains(blocks, new_orphans(p), block);
    let b0 = choose|b0: int| 0 <= b0 < blocks.len() && blocks[b0] == block;
    assert(moved.has_jump(sub, b0, jmp));
    assert(branches_to(moved, sub, b0, jmp, target));
    lemma_targets_stay_blocks(p, cfg_nodes(p), cfg_edges(p), sub);
    assert(blocks[b0].term.jmps[jmp].term.retargetable() == Some(target));
    let b2 = first_with_tid(blocks, target)->0;
    assert(is_first_with_tid(blocks, target, b2));
    assert(moved.fits()) by {
        assert forall|s: int| 0 <= s < moved.subs.len() implies (#[trigger] moved.subs[s]).term.blocks.len()
            <= usize::MAX by {
            assert(p.subs[s].term.blocks.len() <= usize::MAX);
        }
    }
    lemma_branch_target_has_incoming(moved, sub, b0, jmp, target);
    lemma_exit_has_incoming(moved, sub, b2);
    lemma_block_nodes(moved, sub, b2);
    if orphans_of(moved).contains(target) {
        let n = choose|n: int|
            0 <= n < nodes.len() && n < nodes.len() && !has_incoming(edges, n) && node_block_id(
                moved,
                #[trigger] nodes[n],
            ) == Some(target);
        lemma_node_is_block(moved, moved.subs.len() as int, n);
        let (s3, b3) = match nodes[n] {
            Node::BlkStart { sub, blk } => (sub as int, blk as int),
            Node::BlkEnd { sub, blk } => (sub as int, blk as int),
        };
        assert(p.has_block(s3, b3) && p.has_block(sub, b2));
        assert(p.block(s3, b3).tid == moved.block(s3, b3).tid);
        assert(p.block(sub, b2).tid == moved.block(sub, b2).tid);
        assert(s3 == sub && b3 == b2);
    }
    lemma_kept_blocks_contains(blocks, new_orphans(p), blocks[b2]);
    let j = choose|j: int| 0 <= j < left.len() && left[j] == blocks[b2];
    lemma_first_exists(left, target, j);
}

} // verus!
