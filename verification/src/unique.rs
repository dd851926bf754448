//! The test whether the jumps of a program carry identifiers of their own.

use vstd::prelude::*;
use crate::program::{Program, ProgramView};
use crate::term::{contains_tid, tids_view, Tid};

verus! {

/// Whether the place `(s1, b1, k1)` comes before the place `(s2, b2, k2)` in
/// the order of subroutines, blocks and jumps.
pub open spec fn comes_before(s1: int, b1: int, k1: int, s2: int, b2: int, k2: int) -> bool {
    s1 < s2 || (s1 == s2 && (b1 < b2 || (b1 == b2 && k1 < k2)))
}

/// Whether a jump before the place `(s, b, k)` carries the identifier `tid`.
pub open spec fn is_id_before(p: ProgramView, tid: Seq<char>, s: int, b: int, k: int) -> bool {
    exists|s1: int, b1: int, k1: int|
        p.has_jump(s1, b1, k1) && comes_before(s1, b1, k1, s, b, k) && (#[trigger] p.jump(
            s1,
            b1,
            k1,
        )).tid == tid
}

/// `seen` holds the identifiers of the jumps before the place `(s, b, k)`,
/// and no two of these jumps carry the same identifier.
pub open spec fn holds_jumps_before(
    p: ProgramView,
    seen: Seq<Seq<char>>,
    s: int,
    b: int,
    k: int,
) -> bool {
    &&& forall|s1: int, b1: int, k1: int|
        p.has_jump(s1, b1, k1) && comes_before(s1, b1, k1, s, b, k) ==> seen.contains(
            (#[trigger] p.jump(s1, b1, k1)).tid,
        )
    &&& forall|i: int| 0 <= i < seen.len() ==> is_id_before(p, #[trigger] seen[i], s, b, k)
    &&& forall|s1: int, b1: int, k1: int, s2: int, b2: int, k2: int|
        p.has_jump(s1, b1, k1) && comes_before(s1, b1, k1, s, b, k) && p.has_jump(s2, b2, k2)
            && comes_before(s2, b2, k2, s, b, k) && (#[trigger] p.jump(s1, b1, k1)).tid == (
        #[trigger] p.jump(s2, b2, k2)).tid ==> s1 == s2 && b1 == b2 && k1 == k2
}

/// Two places with the same jumps before them are the same to `seen`.
proof fn lemma_same_jumps_before(
    p: ProgramView,
    seen: Seq<Seq<char>>,
    s: int,
    b: int,
    k: int,
    s_next: int,
    b_next: int,
    k_next: int,
)
    requires
        holds_jumps_before(p, seen, s, b, k),
        forall|s1: int, b1: int, k1: int| #[trigger]
            p.has_jump(s1, b1, k1) ==> comes_before(s1, b1, k1, s, b, k) == comes_before(
                s1,
                b1,
                k1,
                s_next,
                b_next,
                k_next,
            ),
    ensures
        holds_jumps_before(p, seen, s_next, b_next, k_next),
{
    assert forall|i: int| 0 <= i < seen.len() implies is_id_before(
        p,
        #[trigger] seen[i],
        s_next,
        b_next,
        k_next,
    ) by {
        assert(is_id_before(p, seen[i], s, b, k));
        let (s1, b1, k1) = choose|s1: int, b1: int, k1: int|
            p.has_jump(s1, b1, k1) && comes_before(s1, b1, k1, s, b, k) && (#[trigger] p.jump(
                s1,
                b1,
                k1,
            )).tid == seen[i];
        assert(p.has_jump(s1, b1, k1) && comes_before(s1, b1, k1, s_next, b_next, k_next)
            && p.jump(s1, b1, k1).tid == seen[i]);
    }
}

/// Adds the identifiers of the jumps of one block to `seen`, unless one of
/// them is there already.
fn block_jump_ids_are_new(program: &Program, s: usize, b: usize, seen: &mut Vec<Tid>) -> (r: bool)
    requires
        program@.has_block(s as int, b as int),
        holds_jumps_before(program@, tids_view(old(seen)@), s as int, b as int, 0),
    ensures
        r ==> holds_jumps_before(program@, tids_view(final(seen)@), s as int, b + 1, 0),
        !r ==> !program@.jump_ids_unique(),
{
    let jumps = &program.subs[s].term.blocks[b].term.jmps;
    let mut k: usize = 0;
    while k < jumps.len()
        invariant
            k <= jumps.len(),
            program@.has_block(s as int, b as int),
            *jumps == program.subs[s as int].term.blocks[b as int].term.jmps,
            holds_jumps_before(program@, tids_view(seen@), s as int, b as int, k as int),
        decreases jumps.len() - k,
    {
        let ghost before = tids_view(seen@);
        let ghost tid = jumps[k as int].tid@;
        assert(program@.has_jump(s as int, b as int, k as int));
        assert(program@.jump(s as int, b as int, k as int).tid == tid);
        if contains_tid(seen, &jumps[k].tid) {
            proof {
                let i = choose|i: int| 0 <= i < before.len() && before[i] == tid;
                assert(is_id_before(program@, before[i], s as int, b as int, k as int));
                let (s1, b1, k1) = choose|s1: int, b1: int, k1: int|
                    program@.has_jump(s1, b1, k1) && comes_before(
                        s1,
                        b1,
                        k1,
                        s as int,
                        b as int,
                        k as int,
                    ) && (#[trigger] program@.jump(s1, b1, k1)).tid == before[i];
                assert(program@.jump(s1, b1, k1).tid == program@.jump(
                    s as int,
                    b as int,
                    k as int,
                ).tid);
            }
            return false;
        }
        seen.push(jumps[k].tid.clone());
        proof {
            let after = tids_view(seen@);
            assert(after =~= before.push(tid));
            assert forall|s1: int, b1: int, k1: int|
                program@.has_jump(s1, b1, k1) && comes_before(
                    s1,
                    b1,
                    k1,
                    s as int,
                    b as int,
                    k + 1,
                ) implies after.contains((#[trigger] program@.jump(s1, b1, k1)).tid) by {
                if comes_before(s1, b1, k1, s as int, b as int, k as int) {
                    let t = program@.jump(s1, b1, k1).tid;
                    assert(before.contains(t));
                    let i = choose|i: int| 0 <= i < before.len() && before[i] == t;
                    assert(after[i] == t);
                } else {
                    assert(after[before.len() as int] == tid);
                }
            }
            assert forall|i: int| 0 <= i < after.len() implies is_id_before(
                program@,
                #[trigger] after[i],
                s as int,
                b as int,
                k + 1,
            ) by {
                if i < before.len() {
                    assert(after[i] == before[i]);
                    assert(is_id_before(program@, before[i], s as int, b as int, k as int));
                    let (s1, b1, k1) = choose|s1: int, b1: int, k1: int|
                        program@.has_jump(s1, b1, k1) && comes_before(
                            s1,
                            b1,
                            k1,
                            s as int,
                            b as int,
                            k as int,
                        ) && (#[trigger] program@.jump(s1, b1, k1)).tid == before[i];
                    assert(program@.has_jump(s1, b1, k1) && comes_before(
                        s1,
                        b1,
                        k1,
                        s as int,
                        b as int,
                        k + 1,
                    ) && program@.jump(s1, b1, k1).tid == after[i]);
                } else {
                    assert(program@.has_jump(s as int, b as int, k as int) && comes_before(
                        s as int,
                        b as int,
                        k as int,
                        s as int,
                        b as int,
                        k + 1,
                    ) && program@.jump(s as int, b as int, k as int).tid == after[i]);
                }
            }
            assert forall|s1: int, b1: int, k1: int, s2: int, b2: int, k2: int|
                program@.has_jump(s1, b1, k1) && comes_before(
                    s1,
                    b1,
                    k1,
                    s as int,
                    b as int,
                    k + 1,
                ) && program@.has_jump(s2, b2, k2) && comes_before(
                    s2,
                    b2,
                    k2,
                    s as int,
                    b as int,
                    k + 1,
                ) && (#[trigger] program@.jump(s1, b1, k1)).tid == (#[trigger] program@.jump(
                    s2,
                    b2,
                    k2,
                )).tid implies s1 == s2 && b1 == b2 && k1 == k2 by {
                let first_old = comes_before(s1, b1, k1, s as int, b as int, k as int);
                let second_old = comes_before(s2, b2, k2, s as int, b as int, k as int);
                if first_old && !second_old {
                    assert(before.contains(program@.jump(s1, b1, k1).tid));
                }
                if !first_old && second_old {
                    assert(before.contains(program@.jump(s2, b2, k2).tid));
                }
            }
        }
        k += 1;
    }
    proof {
        assert(jumps.len() == program@.block(s as int, b as int).term.jmps.len());
        lemma_same_jumps_before(
            program@,
            tids_view(seen@),
            s as int,
            b as int,
            k as int,
            s as int,
            b + 1,
            0,
        );
    }
    true
}

/// Adds the identifiers of the jumps of one subroutine to `seen`, unless
/// one of them is there already.
fn sub_jump_ids_are_new(program: &Program, s: usize, seen: &mut Vec<Tid>) -> (r: bool)
    requires
        s < program.subs.len(),
        holds_jumps_before(program@, tids_view(old(seen)@), s as int, 0, 0),
    ensures
        r ==> holds_jumps_before(program@, tids_view(final(seen)@), s + 1, 0, 0),
        !r ==> !program@.jump_ids_unique(),
{
    let blocks = &program.subs[s].term.blocks;
    let mut b: usize = 0;
    while b < blocks.len()
        invariant
            b <= blocks.len(),
            s < program.subs.len(),
            *blocks == program.subs[s as int].term.blocks,
            holds_jumps_before(program@, tids_view(seen@), s as int, b as int, 0),
        decreases blocks.len() - b,
    {
        if !block_jump_ids_are_new(program, s, b, seen) {
            return false;
        }
        b += 1;
    }
    proof {
        assert(blocks.len() == program@.subs[s as int].term.blocks.len());
        lemma_same_jumps_before(program@, tids_view(seen@), s as int, b as int, 0, s + 1, 0, 0);
    }
    true
}

/// Whether no two jumps of the program carry the same identifier.
pub fn jump_ids_are_unique(program: &Program) -> (r: bool)
    ensures
        r == program@.jump_ids_unique(),
{
    let mut seen: Vec<Tid> = Vec::new();
    let mut s: usize = 0;
    while s < program.subs.len()
        invariant
            s <= program.subs.len(),
            holds_jumps_before(program@, tids_view(seen@), s as int, 0, 0),
        decreases program.subs.len() - s,
    {
        if !sub_jump_ids_are_new(program, s, &mut seen) {
            return false;
        }
        s += 1;
    }
    proof {
        assert(s == program@.subs.len());
        assert forall|s1: int, b1: int, k1: int, s2: int, b2: int, k2: int|
            program@.has_jump(s1, b1, k1) && program@.has_jump(s2, b2, k2) && (
            #[trigger] program@.jump(s1, b1, k1)).tid == (#[trigger] program@.jump(s2, b2, k2)).tid
            implies s1 == s2 && b1 == b2 && k1 == k2 by {
            assert(comes_before(s1, b1, k1, s as int, 0, 0));
            assert(comes_before(s2, b2, k2, s as int, 0, 0));
        }
    }
    true
}

} // verus!
