//! Planning the new targets of the jumps of a program.

use vstd::prelude::*;
use crate::chain::{find_target_for_retargetable_jump, resolved_target};
use crate::collections::{lookup, RetargetPlan};
use crate::condition::{condition_option_view, conditions_view, negate_condition, negated};
use crate::expression::{Expression, ExpressionView};
use crate::graph::{
    cfg_nodes, graph_edges, graph_nodes, lemma_block_nodes, lemma_node_is_block, node_count,
    node_weight, start_node, ControlFlowGraph, EdgeRecord, Node,
};
use crate::precondition::{get_block_precondition_after_defs, precondition_after_defs};
use crate::program::{
    lemma_program_fits, Blk, BlkView, Jmp, JmpView, Program, ProgramView, Sub, SubView,
};
use crate::term::Tid;

verus! {

/// The conditions that are known on every edge that leaves a block: its
/// precondition after its definitions, if it has one.
pub open spec fn known_conditions(precondition: Option<ExpressionView>) -> Seq<ExpressionView> {
    match precondition {
        Some(c) => seq![c],
        None => Seq::empty(),
    }
}

/// Whether the jump is a call that returns.
pub open spec fn is_returning_call(jump: JmpView) -> bool {
    match jump {
        JmpView::Call { return_: Some(_), .. } => true,
        JmpView::CallInd { return_: Some(_), .. } => true,
        JmpView::CallOther { return_: Some(_), .. } => true,
        _ => false,
    }
}

/// Whether the block ends in a conditional branch and the branch that is
/// taken otherwise.
pub open spec fn is_branch_pair(block: BlkView) -> bool {
    block.jmps.len() == 2 && block.jmps[0].term is CBranch && block.jmps[1].term is Branch
}

/// Whether jump `jmp` of the block is one for which a new target is sought:
/// the only jump of a block, where that is a branch or a call that returns,
/// or either jump of a conditional branch and the branch that follows it.
pub open spec fn is_plannable(block: BlkView, jmp: int) -> bool {
    ||| block.jmps.len() == 1 && jmp == 0 && (block.jmps[0].term is Branch || is_returning_call(
        block.jmps[0].term,
    ))
    ||| is_branch_pair(block) && (jmp == 0 || jmp == 1)
}

/// The conditions that are known to hold when control leaves the block
/// through jump `jmp`.
///
/// After a call nothing is known, whatever held before it: a call may change
/// everything. On a single branch the block's precondition is known. On a
/// conditional branch its condition is known in addition, and on the branch
/// that follows it the negation of that condition.
pub open spec fn known_on_edge(
    block: BlkView,
    precondition: Option<ExpressionView>,
    jmp: int,
) -> Seq<ExpressionView> {
    if is_branch_pair(block) {
        let condition = block.jmps[0].term->CBranch_condition;
        if jmp == 0 {
            known_conditions(precondition).push(condition)
        } else {
            known_conditions(precondition).push(negated(condition))
        }
    } else if block.jmps.len() == 1 && block.jmps[0].term is Branch {
        known_conditions(precondition)
    } else {
        Seq::empty()
    }
}

/// The new target for jump `jmp` of a block, if there is one: what the chain
/// from its present target resolves to under the conditions known on its edge.
pub open spec fn planned_target(
    sub: SubView,
    block: BlkView,
    precondition: Option<ExpressionView>,
    jmp: int,
) -> Option<Seq<char>> {
    if is_plannable(block, jmp) {
        resolved_target(
            sub,
            known_on_edge(block, precondition, jmp),
            block.jmps[jmp].term.retargetable()->0,
        )
    } else {
        None
    }
}

/// The new target for the jump at `(sub, blk, jmp)` of a program, given the
/// nodes and edges of its control flow graph.
pub open spec fn retarget_of(
    p: ProgramView,
    nodes: Seq<Node>,
    edges: Seq<EdgeRecord>,
    sub: int,
    blk: int,
    jmp: int,
) -> Option<Seq<char>> {
    planned_target(
        p.subs[sub].term,
        p.block(sub, blk).term,
        precondition_after_defs(p, nodes, edges, start_node(p, sub, blk)),
        jmp,
    )
}

/// The plan with `target` for `key`, where there is a target.
pub open spec fn insert_planned(
    plan: Map<Seq<char>, Seq<char>>,
    key: Seq<char>,
    target: Option<Seq<char>>,
) -> Map<Seq<char>, Seq<char>> {
    match target {
        Some(t) => plan.insert(key, t),
        None => plan,
    }
}

/// The plan with the new targets of the jumps of one block.
pub open spec fn block_planned(
    plan: Map<Seq<char>, Seq<char>>,
    sub: SubView,
    block: BlkView,
    precondition: Option<ExpressionView>,
) -> Map<Seq<char>, Seq<char>> {
    if block.jmps.len() == 1 {
        insert_planned(plan, block.jmps[0].tid, planned_target(sub, block, precondition, 0))
    } else if block.jmps.len() == 2 {
        insert_planned(
            insert_planned(plan, block.jmps[0].tid, planned_target(sub, block, precondition, 0)),
            block.jmps[1].tid,
            planned_target(sub, block, precondition, 1),
        )
    } else {
        plan
    }
}

/// `plan` is the plan for the blocks whose entry is among the first `count`
/// nodes: it holds for each of their jumps its new target, and nothing else.
pub open spec fn plan_covers(
    p: ProgramView,
    nodes: Seq<Node>,
    edges: Seq<EdgeRecord>,
    plan: Map<Seq<char>, Seq<char>>,
    count: int,
) -> bool {
    &&& forall|s: int, b: int, k: int|
        p.has_jump(s, b, k) && start_node(p, s, b) < count ==> lookup(plan, p.jump(s, b, k).tid)
            == #[trigger] retarget_of(p, nodes, edges, s, b, k)
    &&& forall|t: Seq<char>|
        plan.contains_key(t) ==> exists|s: int, b: int, k: int|
            p.has_jump(s, b, k) && start_node(p, s, b) < count && (#[trigger] p.jump(s, b, k)).tid
                == t
}

/// `plan` is the retarget plan of the program: it holds for each jump its new
/// target, and nothing else.
pub open spec fn is_plan_for(
    p: ProgramView,
    nodes: Seq<Node>,
    edges: Seq<EdgeRecord>,
    plan: Map<Seq<char>, Seq<char>>,
) -> bool {
    &&& forall|s: int, b: int, k: int|
        p.has_jump(s, b, k) ==> lookup(plan, p.jump(s, b, k).tid) == #[trigger] retarget_of(
            p,
            nodes,
            edges,
            s,
            b,
            k,
        )
    &&& forall|t: Seq<char>|
        plan.contains_key(t) ==> exists|s: int, b: int, k: int|
            p.has_jump(s, b, k) && (#[trigger] p.jump(s, b, k)).tid == t
}

/// The node of a block's exit adds nothing to the plan.
proof fn lemma_plan_step_exit(
    p: ProgramView,
    edges: Seq<EdgeRecord>,
    plan: Map<Seq<char>, Seq<char>>,
    n: int,
)
    requires
        p.fits(),
        0 <= n < cfg_nodes(p).len(),
        cfg_nodes(p)[n] is BlkEnd,
        plan_covers(p, cfg_nodes(p), edges, plan, n),
    ensures
        plan_covers(p, cfg_nodes(p), edges, plan, n + 1),
{
    let nodes = cfg_nodes(p);
    assert forall|s: int, b: int, k: int|
        p.has_jump(s, b, k) && start_node(p, s, b) < n + 1 implies lookup(
        plan,
        p.jump(s, b, k).tid,
    ) == #[trigger] retarget_of(p, nodes, edges, s, b, k) by {
        lemma_block_nodes(p, s, b);
    }
}

/// The node of a block's entry adds the new targets of the block's jumps.
proof fn lemma_plan_step_entry(
    p: ProgramView,
    edges: Seq<EdgeRecord>,
    plan: Map<Seq<char>, Seq<char>>,
    n: int,
    sub: int,
    blk: int,
)
    requires
        p.fits(),
        p.jump_ids_unique(),
        0 <= n < cfg_nodes(p).len(),
        p.has_block(sub, blk),
        n == start_node(p, sub, blk),
        plan_covers(p, cfg_nodes(p), edges, plan, n),
    ensures
        plan_covers(
            p,
            cfg_nodes(p),
            edges,
            block_planned(
                plan,
                p.subs[sub].term,
                p.block(sub, blk).term,
                precondition_after_defs(p, cfg_nodes(p), edges, n),
            ),
            n + 1,
        ),
{
    let nodes = cfg_nodes(p);
    let block = p.block(sub, blk).term;
    let pre = precondition_after_defs(p, nodes, edges, n);
    let after = block_planned(plan, p.subs[sub].term, block, pre);
    assert forall|k: int| 0 <= k < block.jmps.len() implies !plan.contains_key(
        (#[trigger] block.jmps[k]).tid,
    ) by {
        if plan.contains_key(block.jmps[k].tid) {
            let (s1, b1, k1) = choose|s1: int, b1: int, k1: int|
                p.has_jump(s1, b1, k1) && start_node(p, s1, b1) < n && (#[trigger] p.jump(
                    s1,
                    b1,
                    k1,
                )).tid == block.jmps[k].tid;
            assert(p.has_jump(sub, blk, k));
            assert(p.jump(s1, b1, k1).tid == p.jump(sub, blk, k).tid);
        }
    }
    assert forall|s: int, b: int, k: int|
        p.has_jump(s, b, k) && start_node(p, s, b) < n + 1 implies lookup(
        after,
        p.jump(s, b, k).tid,
    ) == #[trigger] retarget_of(p, nodes, edges, s, b, k) by {
        lemma_block_nodes(p, s, b);
        lemma_block_nodes(p, sub, blk);
        if start_node(p, s, b) == n {
            assert(s == sub && b == blk);
            if block.jmps.len() == 2 {
                assert(p.has_jump(sub, blk, 0));
                assert(p.has_jump(sub, blk, 1));
                assert(p.jump(sub, blk, 0).tid != p.jump(sub, blk, 1).tid);
            }
        } else {
            assert(lookup(plan, p.jump(s, b, k).tid) == retarget_of(p, nodes, edges, s, b, k));
            if block.jmps.len() >= 1 {
                assert(p.has_jump(sub, blk, 0));
                assert(p.jump(sub, blk, 0).tid != p.jump(s, b, k).tid);
            }
            if block.jmps.len() >= 2 {
                assert(p.has_jump(sub, blk, 1));
                assert(p.jump(sub, blk, 1).tid != p.jump(s, b, k).tid);
            }
        }
    }
    assert forall|t: Seq<char>| after.contains_key(t) implies exists|s: int, b: int, k: int|
        p.has_jump(s, b, k) && start_node(p, s, b) < n + 1 && (#[trigger] p.jump(s, b, k)).tid
            == t by {
        if plan.contains_key(t) {
            let (s1, b1, k1) = choose|s1: int, b1: int, k1: int|
                p.has_jump(s1, b1, k1) && start_node(p, s1, b1) < n && (#[trigger] p.jump(
                    s1,
                    b1,
                    k1,
                )).tid == t;
            assert(p.has_jump(s1, b1, k1) && start_node(p, s1, b1) < n + 1 && p.jump(
                s1,
                b1,
                k1,
            ).tid == t);
        } else {
            if block.jmps.len() >= 1 && block.jmps[0].tid == t {
                assert(p.has_jump(sub, blk, 0) && p.jump(sub, blk, 0).tid == t);
            } else {
                assert(block.jmps.len() == 2 && block.jmps[1].tid == t);
                assert(p.has_jump(sub, blk, 1) && p.jump(sub, blk, 1).tid == t);
            }
        }
    }
}

/// Plans the new target of one jump: what the chain from `target` resolves
/// to, with `true_conditions` known.
fn plan_jump(
    jump_tid: &Tid,
    target: &Tid,
    sub: &Sub,
    true_conditions: &Vec<Expression>,
    jmps_to_retarget: &mut RetargetPlan,
)
    requires
        old(jmps_to_retarget).wf(),
    ensures
        final(jmps_to_retarget).wf(),
        final(jmps_to_retarget)@ == insert_planned(
            old(jmps_to_retarget)@,
            jump_tid@,
            resolved_target(sub@, conditions_view(true_conditions@), target@),
        ),
{
    if let Some(new_target) = find_target_for_retargetable_jump(
        target,
        sub,
        true_conditions.as_slice(),
    ) {
        jmps_to_retarget.insert(jump_tid.clone(), new_target);
    }
}

/// Plans the new targets of the jumps of one block, given the condition that
/// is known to hold after its definitions.
pub fn plan_block(
    sub: &Sub,
    block: &Blk,
    block_precondition: Option<Expression>,
    jmps_to_retarget: &mut RetargetPlan,
)
    requires
        old(jmps_to_retarget).wf(),
    ensures
        final(jmps_to_retarget).wf(),
        final(jmps_to_retarget)@ == block_planned(
            old(jmps_to_retarget)@,
            sub@,
            block@,
            condition_option_view(block_precondition),
        ),
{
    let ghost pre = condition_option_view(block_precondition);
    // Conditions that are known to be true on a particular outgoing edge.
    let mut true_conditions: Vec<Expression> = Vec::new();
    if let Some(condition) = block_precondition {
        true_conditions.push(condition);
    }
    assert(conditions_view(true_conditions@) =~= known_conditions(pre));
    if block.jmps.len() == 1 {
        let jump = &block.jmps[0];
        match &jump.term {
            Jmp::Call { return_: Some(return_target), .. } => {
                // A call may have side effects that invalidate what was known
                // at the end of the block.
                let nothing: Vec<Expression> = Vec::new();
                assert(conditions_view(nothing@) =~= Seq::<ExpressionView>::empty());
                plan_jump(&jump.tid, return_target, sub, &nothing, jmps_to_retarget);
            },
            Jmp::CallInd { return_: Some(return_target), .. } => {
                let nothing: Vec<Expression> = Vec::new();
                assert(conditions_view(nothing@) =~= Seq::<ExpressionView>::empty());
                plan_jump(&jump.tid, return_target, sub, &nothing, jmps_to_retarget);
            },
            Jmp::CallOther { return_: Some(return_target), .. } => {
                let nothing: Vec<Expression> = Vec::new();
                assert(conditions_view(nothing@) =~= Seq::<ExpressionView>::empty());
                plan_jump(&jump.tid, return_target, sub, &nothing, jmps_to_retarget);
            },
            Jmp::Branch(target) => {
                plan_jump(&jump.tid, target, sub, &true_conditions, jmps_to_retarget);
            },
            _ => {},
        }
    } else if block.jmps.len() == 2 {
        let if_jump = &block.jmps[0];
        let else_jump = &block.jmps[1];
        match (&if_jump.term, &else_jump.term) {
            (Jmp::CBranch { condition, target: if_target }, Jmp::Branch(else_target)) => {
                let mut if_conditions = true_conditions;
                if_conditions.push(condition.clone());
                assert(conditions_view(if_conditions@) =~= known_conditions(pre).push(
                    condition@,
                ));
                plan_jump(&if_jump.tid, if_target, sub, &if_conditions, jmps_to_retarget);
                let taken = if_conditions.pop().unwrap();
                if_conditions.push(negate_condition(taken));
                assert(conditions_view(if_conditions@) =~= known_conditions(pre).push(
                    negated(condition@),
                ));
                plan_jump(&else_jump.tid, else_target, sub, &if_conditions, jmps_to_retarget);
            },
            _ => {},
        }
    }
}

/// Plans, for every jump of the program, the target to which it can be
/// moved: the map from the identifiers of these jumps to their new targets.
pub fn plan_retargets(program: &Program, cfg: &ControlFlowGraph) -> (jmps_to_retarget: RetargetPlan)
    requires
        graph_nodes(*cfg) == cfg_nodes(program@),
        program@.jump_ids_unique(),
    ensures
        jmps_to_retarget.wf(),
        is_plan_for(program@, graph_nodes(*cfg), graph_edges(*cfg), jmps_to_retarget@),
{
    let mut jmps_to_retarget = RetargetPlan::new();
    let count = node_count(cfg);
    let ghost nodes = graph_nodes(*cfg);
    let ghost edges = graph_edges(*cfg);
    proof {
        lemma_program_fits(program);
        assert forall|s: int, b: int, k: int|
            program@.has_jump(s, b, k) && start_node(program@, s, b) < 0 implies lookup(
            jmps_to_retarget@,
            program@.jump(s, b, k).tid,
        ) == #[trigger] retarget_of(program@, nodes, edges, s, b, k) by {
            lemma_block_nodes(program@, s, b);
        }
    }
    let mut node: usize = 0;
    while node < count
        invariant
            node <= count == nodes.len(),
            nodes == graph_nodes(*cfg),
            nodes == cfg_nodes(program@),
            edges == graph_edges(*cfg),
            program@.fits(),
            program@.jump_ids_unique(),
            jmps_to_retarget.wf(),
            plan_covers(program@, nodes, edges, jmps_to_retarget@, node as int),
        decreases count - node,
    {
        match node_weight(cfg, node) {
            Node::BlkStart { sub, blk } => {
                proof {
                    lemma_node_is_block(program@, program@.subs.len() as int, node as int);
                    lemma_plan_step_entry(
                        program@,
                        edges,
                        jmps_to_retarget@,
                        node as int,
                        sub as int,
                        blk as int,
                    );
                }
                let block_precondition = get_block_precondition_after_defs(program, cfg, node);
                let sub_term = &program.subs[sub].term;
                plan_block(
                    sub_term,
                    &sub_term.blocks[blk].term,
                    block_precondition,
                    &mut jmps_to_retarget,
                );
            },
            Node::BlkEnd { .. } => {
                proof {
                    lemma_plan_step_exit(program@, edges, jmps_to_retarget@, node as int);
                }
            },
        }
        node += 1;
    }
    proof {
        assert forall|s: int, b: int, k: int| program@.has_jump(s, b, k) implies lookup(
            jmps_to_retarget@,
            program@.jump(s, b, k).tid,
        ) == #[trigger] retarget_of(program@, nodes, edges, s, b, k) by {
            lemma_block_nodes(program@, s, b);
        }
    }
    jmps_to_retarget
}

} // verus!
