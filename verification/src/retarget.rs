//! Moving the jumps of a program to their planned targets.

use vstd::prelude::*;
use vstd::pervasive::unreached;
use crate::collections::{lookup, RetargetPlan};
use crate::program::{Blk, BlkView, Jmp, JmpView, ProgramView, Project, Sub, SubView};
use crate::term::{Term, TermView, Tid};

verus! {

/// The jump with `new_target` as its target, or as it is where there is none.
pub open spec fn retargeted_jump(jump: TermView<JmpView>, new_target: Option<Seq<char>>) -> TermView<
    JmpView,
> {
    match new_target {
        Some(target) => TermView { tid: jump.tid, term: jump.term.with_target(target) },
        None => jump,
    }
}

/// The block with each jump retargeted as `plan` says for its identifier.
pub open spec fn plan_applied_to_block(
    block: TermView<BlkView>,
    plan: Map<Seq<char>, Seq<char>>,
) -> TermView<BlkView> {
    TermView {
        tid: block.tid,
        term: BlkView {
            defs: block.term.defs,
            jmps: Seq::new(
                block.term.jmps.len(),
                |k: int| retargeted_jump(block.term.jmps[k], lookup(plan, block.term.jmps[k].tid)),
            ),
            indirect_jmp_targets: block.term.indirect_jmp_targets,
        },
    }
}

/// The subroutine with each jump retargeted as `plan` says for its identifier.
pub open spec fn plan_applied_to_sub(
    sub: TermView<SubView>,
    plan: Map<Seq<char>, Seq<char>>,
) -> TermView<SubView> {
    TermView {
        tid: sub.tid,
        term: SubView {
            name: sub.term.name,
            blocks: Seq::new(
                sub.term.blocks.len(),
                |b: int| plan_applied_to_block(sub.term.blocks[b], plan),
            ),
            calling_convention: sub.term.calling_convention,
        },
    }
}

/// The program with each jump retargeted as `plan` says for its identifier.
pub open spec fn plan_applied_to_program(
    p: ProgramView,
    plan: Map<Seq<char>, Seq<char>>,
) -> ProgramView {
    ProgramView {
        subs: Seq::new(p.subs.len(), |s: int| plan_applied_to_sub(p.subs[s], plan)),
        extern_symbols: p.extern_symbols,
    }
}

/// Every jump for which `plan` holds a new target has a target to replace.
pub open spec fn plan_fits_block(block: BlkView, plan: Map<Seq<char>, Seq<char>>) -> bool {
    forall|k: int|
        0 <= k < block.jmps.len() && plan.contains_key((#[trigger] block.jmps[k]).tid)
            ==> block.jmps[k].term.retargetable() is Some
}

/// Every jump for which `plan` holds a new target has a target to replace.
pub open spec fn plan_fits_program(p: ProgramView, plan: Map<Seq<char>, Seq<char>>) -> bool {
    forall|s: int, b: int, k: int|
        p.has_jump(s, b, k) && plan.contains_key((#[trigger] p.jump(s, b, k)).tid) ==> p.jump(
            s,
            b,
            k,
        ).term.retargetable() is Some
}

/// The identifiers of the first `count` jumps of a block.
pub open spec fn block_jump_ids(block: BlkView, count: int) -> Set<Seq<char>> {
    Set::new(|t: Seq<char>| exists|k: int| 0 <= k < count && k < block.jmps.len() && (#[trigger] block.jmps[k]).tid == t)
}

/// Puts `new_target` in the place of the target of a branch, or of the
/// return target of a call.
fn set_target(jump: &mut Term<Jmp>, new_target: Tid)
    requires
        old(jump)@.term.retargetable() is Some,
    ensures
        final(jump)@ == retargeted_jump(old(jump)@, Some(new_target@)),
{
    match &mut jump.term {
        Jmp::Branch(target) => {
            *target = new_target;
        },
        Jmp::CBranch { target, .. } => {
            *target = new_target;
        },
        Jmp::Call { return_: Some(target), .. } => {
            *target = new_target;
        },
        Jmp::CallInd { return_: Some(target), .. } => {
            *target = new_target;
        },
        Jmp::CallOther { return_: Some(target), .. } => {
            *target = new_target;
        },
        _ => unreached(),
    }
}

/// No two jumps of the block carry the same identifier.
pub open spec fn block_ids_distinct(block: BlkView) -> bool {
    forall|k1: int, k2: int|
        0 <= k1 < block.jmps.len() && 0 <= k2 < block.jmps.len() && (#[trigger] block.jmps[k1]).tid
            == (#[trigger] block.jmps[k2]).tid ==> k1 == k2
}

/// The identifiers of the jumps in the first `count` blocks of a subroutine.
pub open spec fn sub_jump_ids(sub: SubView, count: int) -> Set<Seq<char>> {
    Set::new(
        |t: Seq<char>|
            exists|b: int, k: int|
                0 <= b < count && b < sub.blocks.len() && 0 <= k < sub.blocks[b].term.jmps.len()
                    && (#[trigger] sub.blocks[b].term.jmps[k]).tid == t,
    )
}

/// No two jumps of the subroutine carry the same identifier.
pub open spec fn sub_ids_distinct(sub: SubView) -> bool {
    forall|b1: int, k1: int, b2: int, k2: int|
        0 <= b1 < sub.blocks.len() && 0 <= k1 < sub.blocks[b1].term.jmps.len() && 0 <= b2
            < sub.blocks.len() && 0 <= k2 < sub.blocks[b2].term.jmps.len() && (
        #[trigger] sub.blocks[b1].term.jmps[k1]).tid == (#[trigger] sub.blocks[b2].term.jmps[k2]).tid
            ==> b1 == b2 && k1 == k2
}

/// Every jump for which `plan` holds a new target has a target to replace.
pub open spec fn plan_fits_sub(sub: SubView, plan: Map<Seq<char>, Seq<char>>) -> bool {
    forall|b: int| 0 <= b < sub.blocks.len() ==> plan_fits_block((#[trigger] sub.blocks[b]).term, plan)
}

/// The identifiers of the jumps in the first `count` subroutines of a program.
pub open spec fn program_jump_ids(p: ProgramView, count: int) -> Set<Seq<char>> {
    Set::new(
        |t: Seq<char>|
            exists|s: int, b: int, k: int|
                s < count && p.has_jump(s, b, k) && (#[trigger] p.jump(s, b, k)).tid == t,
    )
}

/// Two plans that hold the same for the jumps of a block do the same to it.
proof fn lemma_block_plans_agree(
    block: TermView<BlkView>,
    plan1: Map<Seq<char>, Seq<char>>,
    plan2: Map<Seq<char>, Seq<char>>,
)
    requires
        forall|k: int|
            0 <= k < block.term.jmps.len() ==> lookup(plan1, (#[trigger] block.term.jmps[k]).tid)
                == lookup(plan2, block.term.jmps[k].tid),
    ensures
        plan_applied_to_block(block, plan1) == plan_applied_to_block(block, plan2),
{
    assert(plan_applied_to_block(block, plan1).term.jmps =~= plan_applied_to_block(
        block,
        plan2,
    ).term.jmps);
}

/// Two plans that hold the same for the jumps of a subroutine do the same to it.
proof fn lemma_sub_plans_agree(
    sub: TermView<SubView>,
    plan1: Map<Seq<char>, Seq<char>>,
    plan2: Map<Seq<char>, Seq<char>>,
)
    requires
        forall|b: int, k: int|
            0 <= b < sub.term.blocks.len() && 0 <= k < sub.term.blocks[b].term.jmps.len()
                ==> lookup(plan1, (#[trigger] sub.term.blocks[b].term.jmps[k]).tid) == lookup(
                plan2,
                sub.term.blocks[b].term.jmps[k].tid,
            ),
    ensures
        plan_applied_to_sub(sub, plan1) == plan_applied_to_sub(sub, plan2),
{
    assert forall|b: int| 0 <= b < sub.term.blocks.len() implies plan_applied_to_block(
        sub.term.blocks[b],
        plan1,
    ) == plan_applied_to_block(sub.term.blocks[b], plan2) by {
        lemma_block_plans_agree(sub.term.blocks[b], plan1, plan2);
    }
    assert(plan_applied_to_sub(sub, plan1).term.blocks =~= plan_applied_to_sub(
        sub,
        plan2,
    ).term.blocks);
}

/// Moves the jumps of one block to the targets planned for them, and takes
/// their entries out of the plan.
fn retarget_block_jumps(block: &mut Term<Blk>, plan: &mut RetargetPlan)
    requires
        old(plan).wf(),
        plan_fits_block(old(block)@.term, old(plan)@),
        block_ids_distinct(old(block)@.term),
    ensures
        final(plan).wf(),
        final(block)@ == plan_applied_to_block(old(block)@, old(plan)@),
        final(plan)@ == old(plan)@.remove_keys(
            block_jump_ids(old(block)@.term, old(block)@.term.jmps.len() as int),
        ),
{
    let ghost before = block@;
    let ghost plan0 = plan@;
    let mut k: usize = 0;
    assert(plan@ =~= plan0.remove_keys(block_jump_ids(before.term, 0)));
    while k < block.term.jmps.len()
        invariant
            k <= block.term.jmps.len(),
            before == old(block)@,
            plan0 == old(plan)@,
            plan.wf(),
            plan_fits_block(before.term, plan0),
            block_ids_distinct(before.term),
            block@.tid == before.tid,
            block@.term.defs == before.term.defs,
            block@.term.indirect_jmp_targets == before.term.indirect_jmp_targets,
            block@.term.jmps.len() == before.term.jmps.len(),
            forall|j: int|
                0 <= j < k ==> (#[trigger] block@.term.jmps[j]) == retargeted_jump(
                    before.term.jmps[j],
                    lookup(plan0, before.term.jmps[j].tid),
                ),
            forall|j: int|
                k <= j < before.term.jmps.len() ==> (#[trigger] block@.term.jmps[j])
                    == before.term.jmps[j],
            plan@ == plan0.remove_keys(block_jump_ids(before.term, k as int)),
        decreases block.term.jmps.len() - k,
    {
        let ghost jumps_before = block@.term.jmps;
        let ghost current = block.term.jmps@[k as int];
        assert(current@ == block@.term.jmps[k as int]);
        let jump = &mut block.term.jmps[k];
        proof {
            assert(*jump == current);
            assert(jump@ == before.term.jmps[k as int]);
            assert(!block_jump_ids(before.term, k as int).contains(jump@.tid));
        }
        match plan.remove(&jump.tid) {
            Some(new_target) => {
                set_target(jump, new_target);
            },
            None => {},
        }
        proof {
            assert(block@.term.jmps =~= jumps_before.update(
                k as int,
                retargeted_jump(before.term.jmps[k as int], lookup(plan0, before.term.jmps[k as int].tid)),
            ));
            assert(block_jump_ids(before.term, k + 1) =~= block_jump_ids(before.term, k as int).insert(
                before.term.jmps[k as int].tid,
            ));
            assert(plan@ =~= plan0.remove_keys(block_jump_ids(before.term, k + 1)));
        }
        k += 1;
    }
    assert(block@.term.jmps =~= plan_applied_to_block(before, plan0).term.jmps);
}

/// Moves the jumps of one subroutine to the targets planned for them, and
/// takes their entries out of the plan.
fn retarget_sub_jumps(sub: &mut Term<Sub>, plan: &mut RetargetPlan)
    requires
        old(plan).wf(),
        plan_fits_sub(old(sub)@.term, old(plan)@),
        sub_ids_distinct(old(sub)@.term),
    ensures
        final(plan).wf(),
        final(sub)@ == plan_applied_to_sub(old(sub)@, old(plan)@),
        final(plan)@ == old(plan)@.remove_keys(
            sub_jump_ids(old(sub)@.term, old(sub)@.term.blocks.len() as int),
        ),
{
    let ghost before = sub@;
    let ghost plan0 = plan@;
    let mut b: usize = 0;
    assert(plan@ =~= plan0.remove_keys(sub_jump_ids(before.term, 0)));
    while b < sub.term.blocks.len()
        invariant
            b <= sub.term.blocks.len(),
            before == old(sub)@,
            plan0 == old(plan)@,
            plan.wf(),
            plan_fits_sub(before.term, plan0),
            sub_ids_distinct(before.term),
            sub@.tid == before.tid,
            sub@.term.name == before.term.name,
            sub@.term.calling_convention == before.term.calling_convention,
            sub@.term.blocks.len() == before.term.blocks.len(),
            forall|j: int|
                0 <= j < b ==> (#[trigger] sub@.term.blocks[j]) == plan_applied_to_block(
                    before.term.blocks[j],
                    plan0,
                ),
            forall|j: int|
                b <= j < before.term.blocks.len() ==> (#[trigger] sub@.term.blocks[j])
                    == before.term.blocks[j],
            plan@ == plan0.remove_keys(sub_jump_ids(before.term, b as int)),
        decreases sub.term.blocks.len() - b,
    {
        let ghost blocks_before = sub@.term.blocks;
        let ghost plan_before = plan@;
        let ghost this = before.term.blocks[b as int];
        let ghost current = sub.term.blocks@[b as int];
        assert(current@ == sub@.term.blocks[b as int]);
        let block = &mut sub.term.blocks[b];
        proof {
            assert(*block == current);
            assert(block@ == this);
            assert(plan_fits_block(this.term, plan0));
            assert(block_ids_distinct(this.term)) by {
                assert forall|k1: int, k2: int|
                    0 <= k1 < this.term.jmps.len() && 0 <= k2 < this.term.jmps.len() && (
                    #[trigger] this.term.jmps[k1]).tid == (#[trigger] this.term.jmps[k2]).tid
                    implies k1 == k2 by {
                    assert(before.term.blocks[b as int].term.jmps[k1].tid
                        == before.term.blocks[b as int].term.jmps[k2].tid);
                }
            }
            assert forall|k: int| 0 <= k < this.term.jmps.len() implies lookup(
                plan_before,
                (#[trigger] this.term.jmps[k]).tid,
            ) == lookup(plan0, this.term.jmps[k].tid) by {
                let t = this.term.jmps[k].tid;
                if sub_jump_ids(before.term, b as int).contains(t) {
                    let (b1, k1) = choose|b1: int, k1: int|
                        0 <= b1 < b && b1 < before.term.blocks.len() && 0 <= k1
                            < before.term.blocks[b1].term.jmps.len() && (
                        #[trigger] before.term.blocks[b1].term.jmps[k1]).tid == t;
                    assert(before.term.blocks[b as int].term.jmps[k].tid == t);
                }
            }
            lemma_block_plans_agree(this, plan_before, plan0);
        }
        retarget_block_jumps(block, plan);
        proof {
            assert(sub@.term.blocks =~= blocks_before.update(
                b as int,
                plan_applied_to_block(this, plan0),
            ));
            assert(sub_jump_ids(before.term, b + 1) =~= sub_jump_ids(before.term, b as int).union(
                block_jump_ids(this.term, this.term.jmps.len() as int),
            )) by {
                assert forall|t: Seq<char>| sub_jump_ids(before.term, b + 1).contains(t)
                    == sub_jump_ids(before.term, b as int).union(
                    block_jump_ids(this.term, this.term.jmps.len() as int),
                ).contains(t) by {
                    if sub_jump_ids(before.term, b + 1).contains(t) {
                        let (b1, k1) = choose|b1: int, k1: int|
                            0 <= b1 < b + 1 && b1 < before.term.blocks.len() && 0 <= k1
                                < before.term.blocks[b1].term.jmps.len() && (
                            #[trigger] before.term.blocks[b1].term.jmps[k1]).tid == t;
                        if b1 == b {
                            assert(this.term.jmps[k1].tid == t);
                        }
                    }
                    if block_jump_ids(this.term, this.term.jmps.len() as int).contains(t) {
                        let k1 = choose|k1: int|
                            0 <= k1 < this.term.jmps.len() && (#[trigger] this.term.jmps[k1]).tid
                                == t;
                        assert(before.term.blocks[b as int].term.jmps[k1].tid == t);
                    }
                }
            }
            assert(plan@ =~= plan0.remove_keys(sub_jump_ids(before.term, b + 1)));
        }
        b += 1;
    }
    assert(sub@.term.blocks =~= plan_applied_to_sub(before, plan0).term.blocks);
}

/// Inserts the new targets into the jumps for which the plan holds one,
/// taking each entry out of the plan as it is used.
pub fn retarget_jumps(project: &mut Project, jmps_to_retarget: RetargetPlan)
    requires
        jmps_to_retarget.wf(),
        old(project)@.program.term.jump_ids_unique(),
        plan_fits_program(old(project)@.program.term, jmps_to_retarget@),
    ensures
        final(project)@.program.tid == old(project)@.program.tid,
        final(project)@.program.term == plan_applied_to_program(
            old(project)@.program.term,
            jmps_to_retarget@,
        ),
{
    let mut plan = jmps_to_retarget;
    let ghost before = project@.program.term;
    let ghost plan0 = plan@;
    let mut s: usize = 0;
    assert(plan@ =~= plan0.remove_keys(program_jump_ids(before, 0)));
    while s < project.program.term.subs.len()
        invariant
            s <= project.program.term.subs.len(),
            before == old(project)@.program.term,
            plan0 == jmps_to_retarget@,
            plan.wf(),
            before.jump_ids_unique(),
            plan_fits_program(before, plan0),
            project@.program.tid == old(project)@.program.tid,
            project@.program.term.extern_symbols == before.extern_symbols,
            project@.program.term.subs.len() == before.subs.len(),
            forall|j: int|
                0 <= j < s ==> (#[trigger] project@.program.term.subs[j]) == plan_applied_to_sub(
                    before.subs[j],
                    plan0,
                ),
            forall|j: int|
                s <= j < before.subs.len() ==> (#[trigger] project@.program.term.subs[j])
                    == before.subs[j],
            plan@ == plan0.remove_keys(program_jump_ids(before, s as int)),
        decreases project.program.term.subs.len() - s,
    {
        let ghost subs_before = project@.program.term.subs;
        let ghost plan_before = plan@;
        let ghost this = before.subs[s as int];
        let ghost current = project.program.term.subs@[s as int];
        assert(current@ == project@.program.term.subs[s as int]);
        let sub = &mut project.program.term.subs[s];
        proof {
            assert(*sub == current);
            assert(sub@ == this);
            assert(plan_fits_sub(this.term, plan_before)) by {
                assert forall|b: int| 0 <= b < this.term.blocks.len() implies plan_fits_block(
                    (#[trigger] this.term.blocks[b]).term,
                    plan_before,
                ) by {
                    assert forall|k: int|
                        0 <= k < this.term.blocks[b].term.jmps.len() && plan_before.contains_key(
                            (#[trigger] this.term.blocks[b].term.jmps[k]).tid,
                        ) implies this.term.blocks[b].term.jmps[k].term.retargetable() is Some by {
                        assert(before.has_jump(s as int, b, k));
                        assert(before.jump(s as int, b, k) == this.term.blocks[b].term.jmps[k]);
                    }
                }
            }
            assert(sub_ids_distinct(this.term)) by {
                assert forall|b1: int, k1: int, b2: int, k2: int|
                    0 <= b1 < this.term.blocks.len() && 0 <= k1
                        < this.term.blocks[b1].term.jmps.len() && 0 <= b2 < this.term.blocks.len()
                        && 0 <= k2 < this.term.blocks[b2].term.jmps.len() && (
                    #[trigger] this.term.blocks[b1].term.jmps[k1]).tid == (
                    #[trigger] this.term.blocks[b2].term.jmps[k2]).tid implies b1 == b2 && k1
                    == k2 by {
                    assert(before.has_jump(s as int, b1, k1));
                    assert(before.has_jump(s as int, b2, k2));
                    assert(before.jump(s as int, b1, k1).tid == before.jump(s as int, b2, k2).tid);
                }
            }
            assert forall|b: int, k: int|
                0 <= b < this.term.blocks.len() && 0 <= k
                    < this.term.blocks[b].term.jmps.len() implies lookup(
                plan_before,
                (#[trigger] this.term.blocks[b].term.jmps[k]).tid,
            ) == lookup(plan0, this.term.blocks[b].term.jmps[k].tid) by {
                let t = this.term.blocks[b].term.jmps[k].tid;
                assert(before.has_jump(s as int, b, k));
                assert(before.jump(s as int, b, k).tid == t);
                if program_jump_ids(before, s as int).contains(t) {
                    let (s1, b1, k1) = choose|s1: int, b1: int, k1: int|
                        s1 < s && before.has_jump(s1, b1, k1) && (#[trigger] before.jump(
                            s1,
                            b1,
                            k1,
                        )).tid == t;
                    assert(before.jump(s1, b1, k1).tid == before.jump(s as int, b, k).tid);
                }
            }
            lemma_sub_plans_agree(this, plan_before, plan0);
        }
        retarget_sub_jumps(sub, &mut plan);
        proof {
            assert(project@.program.term.subs =~= subs_before.update(
                s as int,
                plan_applied_to_sub(this, plan0),
            ));
            assert(program_jump_ids(before, s + 1) =~= program_jump_ids(before, s as int).union(
                sub_jump_ids(this.term, this.term.blocks.len() as int),
            )) by {
                assert forall|t: Seq<char>| program_jump_ids(before, s + 1).contains(t)
                    == program_jump_ids(before, s as int).union(
                    sub_jump_ids(this.term, this.term.blocks.len() as int),
                ).contains(t) by {
                    if program_jump_ids(before, s + 1).contains(t) {
                        let (s1, b1, k1) = choose|s1: int, b1: int, k1: int|
                            s1 < s + 1 && before.has_jump(s1, b1, k1) && (#[trigger] before.jump(
                                s1,
                                b1,
                                k1,
                            )).tid == t;
                        if s1 == s {
                            assert(this.term.blocks[b1].term.jmps[k1].tid == t);
                        }
                    }
                    if sub_jump_ids(this.term, this.term.blocks.len() as int).contains(t) {
                        let (b1, k1) = choose|b1: int, k1: int|
                            0 <= b1 < this.term.blocks.len() && b1 < this.term.blocks.len() && 0
                                <= k1 < this.term.blocks[b1].term.jmps.len() && (
                            #[trigger] this.term.blocks[b1].term.jmps[k1]).tid == t;
                        assert(before.has_jump(s as int, b1, k1));
                        assert(before.jump(s as int, b1, k1).tid == t);
                    }
                }
            }
            assert(plan@ =~= plan0.remove_keys(program_jump_ids(before, s + 1)));
        }
        s += 1;
    }
    assert(project@.program.term.subs =~= plan_applied_to_program(before, plan0).subs);
}

} // verus!
