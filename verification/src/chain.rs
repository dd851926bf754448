//! Following a jump through the blocks that it can skip.

use vstd::prelude::*;
use vstd::set_lib::{lemma_int_range, lemma_len_subset, set_int_range};
use crate::condition::{conditions_view, negate_condition, negated};
use crate::expression::{Expression, ExpressionView};
use crate::program::{Blk, BlkView, Jmp, JmpView, Sub, SubView};
use crate::term::{
    contains_tid, first_with_tid, is_first_with_tid, position_of, tid_option_view, tids_view, Term,
    Tid,
};

verus! {

/// The target that the known conditions, read in order from position `from`
/// on, choose for a conditional branch on `condition`: the first of them that
/// is `condition` itself selects `if_target`, the first that is its negation
/// selects `else_target`.
pub open spec fn decided_target(
    known: Seq<ExpressionView>,
    from: int,
    condition: ExpressionView,
    if_target: Seq<char>,
    else_target: Seq<char>,
) -> Option<Seq<char>>
    decreases known.len() - from,
{
    if from < 0 || from >= known.len() {
        None
    } else if known[from] == condition {
        Some(if_target)
    } else if known[from] == negated(condition) {
        Some(else_target)
    } else {
        decided_target(known, from + 1, condition, if_target, else_target)
    }
}

/// Where control goes after a block that can be skipped: a block without
/// definitions that ends in one unconditional branch, or in a conditional
/// branch that the known conditions decide.
pub open spec fn block_successor(block: BlkView, known: Seq<ExpressionView>) -> Option<Seq<char>> {
    if block.defs.len() != 0 {
        None
    } else if block.jmps.len() == 1 {
        match block.jmps[0].term {
            JmpView::Branch(target) => Some(target),
            _ => None,
        }
    } else if block.jmps.len() == 2 {
        match (block.jmps[0].term, block.jmps[1].term) {
            (JmpView::CBranch { target, condition }, JmpView::Branch(else_target)) => {
                decided_target(known, 0, condition, target, else_target)
            },
            _ => None,
        }
    } else {
        None
    }
}

/// One step of a chain: where a jump to `current` ends up one block later.
pub open spec fn next_target(sub: SubView, known: Seq<ExpressionView>, current: Seq<char>) -> Option<
    Seq<char>,
> {
    match first_with_tid(sub.blocks, current) {
        Some(i) => block_successor(sub.blocks[i].term, known),
        None => None,
    }
}

/// A chain: identifiers without repetition, each the successor of the one before it.
pub open spec fn is_chain(sub: SubView, known: Seq<ExpressionView>, path: Seq<Seq<char>>) -> bool {
    &&& path.len() > 0
    &&& path.no_duplicates()
    &&& forall|i: int|
        0 <= i < path.len() - 1 ==> next_target(sub, known, #[trigger] path[i]) == Some(path[i + 1])
}

/// A chain is complete when it cannot go on: its end has no successor, or the
/// successor is already on the chain.
pub open spec fn chain_is_complete(
    sub: SubView,
    known: Seq<ExpressionView>,
    path: Seq<Seq<char>>,
) -> bool {
    match next_target(sub, known, path.last()) {
        Some(t) => path.contains(t),
        None => true,
    }
}

/// `path` is the complete chain that starts at `start`.
pub open spec fn is_resolving_chain(
    sub: SubView,
    known: Seq<ExpressionView>,
    start: Seq<char>,
    path: Seq<Seq<char>>,
) -> bool {
    is_chain(sub, known, path) && path[0] == start && chain_is_complete(sub, known, path)
}

/// The end of the complete chain from `start`, unless the chain is `start` alone.
pub open spec fn resolved_target(sub: SubView, known: Seq<ExpressionView>, start: Seq<char>) -> Option<
    Seq<char>,
> {
    let path = choose|path: Seq<Seq<char>>| is_resolving_chain(sub, known, start, path);
    if path.len() > 1 {
        Some(path.last())
    } else {
        None
    }
}

/// What justifies one step of a chain from `from` to `to`: the first block
/// called `from` has no definitions and either ends in the single branch to
/// `to`, or in a conditional branch whose condition, or its negation, is among
/// the known conditions and selects `to`.
pub open spec fn step_is_justified(
    sub: SubView,
    known: Seq<ExpressionView>,
    from: Seq<char>,
    to: Seq<char>,
) -> bool {
    exists|i: int|
        {
            &&& #[trigger] is_first_with_tid(sub.blocks, from, i)
            &&& sub.blocks[i].term.defs.len() == 0
            &&& {
                ||| sub.blocks[i].term.jmps.len() == 1 && sub.blocks[i].term.jmps[0].term
                    == JmpView::Branch(to)
                ||| {
                    &&& sub.blocks[i].term.jmps.len() == 2
                    &&& sub.blocks[i].term.jmps[1].term is Branch
                    &&& sub.blocks[i].term.jmps[0].term matches JmpView::CBranch {
                        target,
                        condition,
                    }
                    &&& {
                        ||| to == target && known.contains(condition)
                        ||| sub.blocks[i].term.jmps[1].term == JmpView::Branch(to)
                            && known.contains(negated(condition))
                    }
                }
            }
        }
}

/// A decided target is one of the two targets, and the condition that selects
/// it is among the known conditions.
pub proof fn lemma_decided_target_is_known(
    known: Seq<ExpressionView>,
    from: int,
    condition: ExpressionView,
    if_target: Seq<char>,
    else_target: Seq<char>,
)
    requires
        0 <= from,
    ensures
        match decided_target(known, from, condition, if_target, else_target) {
            Some(t) => (t == if_target && known.contains(condition)) || (t == else_target
                && known.contains(negated(condition))),
            None => true,
        },
    decreases known.len() - from,
{
    if from < known.len() {
        if known[from] == condition {
        } else if known[from] == negated(condition) {
        } else {
            lemma_decided_target_is_known(known, from + 1, condition, if_target, else_target);
        }
    }
}

/// Every step of a chain is justified by the block it skips.
pub proof fn lemma_chain_steps_are_justified(
    sub: SubView,
    known: Seq<ExpressionView>,
    path: Seq<Seq<char>>,
)
    requires
        is_chain(sub, known, path),
    ensures
        forall|i: int|
            0 <= i < path.len() - 1 ==> step_is_justified(sub, known, #[trigger] path[i], path[i + 1]),
{
    assert forall|i: int| 0 <= i < path.len() - 1 implies step_is_justified(
        sub,
        known,
        #[trigger] path[i],
        path[i + 1],
    ) by {
        assert(next_target(sub, known, path[i]) == Some(path[i + 1]));
        let j = first_with_tid(sub.blocks, path[i])->0;
        assert(is_first_with_tid(sub.blocks, path[i], j));
        let block = sub.blocks[j].term;
        if block.jmps.len() == 2 {
            match (block.jmps[0].term, block.jmps[1].term) {
                (JmpView::CBranch { target, condition }, JmpView::Branch(else_target)) => {
                    lemma_decided_target_is_known(known, 0, condition, target, else_target);
                },
                _ => {},
            }
        }
    }
}

/// Without known conditions a chain passes only through blocks that hold
/// nothing but one unconditional branch.
pub proof fn lemma_chain_without_conditions_is_unconditional(sub: SubView, path: Seq<Seq<char>>)
    requires
        is_chain(sub, Seq::<ExpressionView>::empty(), path),
    ensures
        forall|i: int|
            0 <= i < path.len() - 1 ==> {
                let j = first_with_tid(sub.blocks, #[trigger] path[i]);
                &&& j is Some
                &&& sub.blocks[j->0].term.defs.len() == 0
                &&& sub.blocks[j->0].term.jmps.len() == 1
                &&& sub.blocks[j->0].term.jmps[0].term == JmpView::Branch(path[i + 1])
            },
{
    let known = Seq::<ExpressionView>::empty();
    assert forall|i: int| 0 <= i < path.len() - 1 implies {
        let j = first_with_tid(sub.blocks, #[trigger] path[i]);
        &&& j is Some
        &&& sub.blocks[j->0].term.defs.len() == 0
        &&& sub.blocks[j->0].term.jmps.len() == 1
        &&& sub.blocks[j->0].term.jmps[0].term == JmpView::Branch(path[i + 1])
    } by {
        assert(next_target(sub, known, path[i]) == Some(path[i + 1]));
    }
}

/// Identifiers without repetition that all name blocks of `sub` are no more
/// than the blocks of `sub`.
pub proof fn lemma_named_blocks_bounded(sub: SubView, path: Seq<Seq<char>>, n: int)
    requires
        path.no_duplicates(),
        0 <= n <= path.len(),
        forall|i: int| 0 <= i < n ==> first_with_tid(sub.blocks, #[trigger] path[i]) is Some,
    ensures
        n <= sub.blocks.len(),
{
    let found = Seq::new(n as nat, |i: int| first_with_tid(sub.blocks, path[i])->0);
    assert forall|i: int, j: int| 0 <= i < n && 0 <= j < n && i != j implies found[i]
        != found[j] by {
        assert(is_first_with_tid(sub.blocks, path[i], found[i]));
        assert(is_first_with_tid(sub.blocks, path[j], found[j]));
    }
    found.unique_seq_to_set();
    let range = set_int_range(0, sub.blocks.len() as int);
    lemma_int_range(0, sub.blocks.len() as int);
    assert forall|x: int| found.to_set().contains(x) implies range.contains(x) by {
        let i = choose|i: int| 0 <= i < n && found[i] == x;
        assert(is_first_with_tid(sub.blocks, path[i], found[i]));
    }
    lemma_len_subset(found.to_set(), range);
}

/// A chain visits every block at most once, so it is at most one longer than
/// the subroutine has blocks.
pub proof fn lemma_chain_bounded(sub: SubView, known: Seq<ExpressionView>, path: Seq<Seq<char>>)
    requires
        is_chain(sub, known, path),
    ensures
        path.len() <= sub.blocks.len() + 1,
{
    assert forall|i: int| 0 <= i < path.len() - 1 implies first_with_tid(
        sub.blocks,
        #[trigger] path[i],
    ) is Some by {
        assert(next_target(sub, known, path[i]) == Some(path[i + 1]));
    }
    lemma_named_blocks_bounded(sub, path, path.len() - 1);
}

/// A chain whose end still has a successor is no longer than the subroutine
/// has blocks.
pub proof fn lemma_open_chain_bounded(sub: SubView, known: Seq<ExpressionView>, path: Seq<Seq<char>>)
    requires
        is_chain(sub, known, path),
        next_target(sub, known, path.last()) is Some,
    ensures
        path.len() <= sub.blocks.len(),
{
    assert forall|i: int| 0 <= i < path.len() implies first_with_tid(
        sub.blocks,
        #[trigger] path[i],
    ) is Some by {
        if i < path.len() - 1 {
            assert(next_target(sub, known, path[i]) == Some(path[i + 1]));
        }
    }
    lemma_named_blocks_bounded(sub, path, path.len() as int);
}

/// Two chains from the same start agree wherever both are defined.
pub proof fn lemma_chains_agree(
    sub: SubView,
    known: Seq<ExpressionView>,
    one: Seq<Seq<char>>,
    other: Seq<Seq<char>>,
    i: int,
)
    requires
        is_chain(sub, known, one),
        is_chain(sub, known, other),
        one[0] == other[0],
        0 <= i < one.len(),
        i < other.len(),
    ensures
        one[i] == other[i],
    decreases i,
{
    if i > 0 {
        lemma_chains_agree(sub, known, one, other, i - 1);
        assert(next_target(sub, known, one[i - 1]) == Some(one[i]));
        assert(next_target(sub, known, other[i - 1]) == Some(other[i]));
    }
}

/// There is only one complete chain from a given start.
pub proof fn lemma_resolving_chain_unique(
    sub: SubView,
    known: Seq<ExpressionView>,
    start: Seq<char>,
    one: Seq<Seq<char>>,
    other: Seq<Seq<char>>,
)
    requires
        is_resolving_chain(sub, known, start, one),
        is_resolving_chain(sub, known, start, other),
    ensures
        one == other,
{
    if one.len() < other.len() {
        lemma_complete_chain_is_longest(sub, known, one, other);
    }
    if other.len() < one.len() {
        lemma_complete_chain_is_longest(sub, known, other, one);
    }
    assert forall|i: int| 0 <= i < one.len() implies one[i] == other[i] by {
        lemma_chains_agree(sub, known, one, other, i);
    }
    assert(one =~= other);
}

/// No chain from the same start is longer than a complete one.
pub proof fn lemma_complete_chain_is_longest(
    sub: SubView,
    known: Seq<ExpressionView>,
    complete: Seq<Seq<char>>,
    other: Seq<Seq<char>>,
)
    requires
        is_chain(sub, known, complete),
        chain_is_complete(sub, known, complete),
        is_chain(sub, known, other),
        complete[0] == other[0],
    ensures
        other.len() <= complete.len(),
{
    if complete.len() < other.len() {
        let n = complete.len() as int;
        lemma_chains_agree(sub, known, complete, other, n - 1);
        assert(next_target(sub, known, other[n - 1]) == Some(other[n]));
        let t = other[n];
        assert(complete.contains(t));
        let j = choose|j: int| 0 <= j < n && complete[j] == t;
        lemma_chains_agree(sub, known, complete, other, j);
        assert(other[j] == other[n]);
    }
}

/// Every chain extends to a complete one.
pub proof fn lemma_chain_completes(sub: SubView, known: Seq<ExpressionView>, path: Seq<Seq<char>>) -> (full:
    Seq<Seq<char>>)
    requires
        is_chain(sub, known, path),
    ensures
        is_resolving_chain(sub, known, path[0], full),
    decreases sub.blocks.len() + 1 - path.len(),
{
    match next_target(sub, known, path.last()) {
        None => path,
        Some(t) => {
            if path.contains(t) {
                path
            } else {
                lemma_open_chain_bounded(sub, known, path);
                let longer = path.push(t);
                assert(longer.no_duplicates());
                assert forall|i: int| 0 <= i < longer.len() - 1 implies next_target(
                    sub,
                    known,
                    #[trigger] longer[i],
                ) == Some(longer[i + 1]) by {
                    if i < path.len() - 1 {
                        assert(longer[i] == path[i]);
                        assert(longer[i + 1] == path[i + 1]);
                    }
                }
                lemma_chain_completes(sub, known, longer)
            }
        },
    }
}

/// From every start there is a complete chain, and `resolved_target` is its
/// end: a retargeted jump reaches its new target through blocks without
/// definitions, each step justified by the known conditions.
pub proof fn lemma_resolved_target_is_chain_end(
    sub: SubView,
    known: Seq<ExpressionView>,
    start: Seq<char>,
) -> (path: Seq<Seq<char>>)
    ensures
        is_resolving_chain(sub, known, start, path),
        path.len() <= sub.blocks.len() + 1,
        forall|i: int|
            0 <= i < path.len() - 1 ==> step_is_justified(sub, known, #[trigger] path[i], path[i + 1]),
        resolved_target(sub, known, start) == (if path.len() > 1 {
            Some(path.last())
        } else {
            None
        }),
        resolved_target(sub, known, start) != Some(start),
{
    let first = seq![start];
    let full = lemma_chain_completes(sub, known, first);
    let chosen = choose|p: Seq<Seq<char>>| is_resolving_chain(sub, known, start, p);
    lemma_resolving_chain_unique(sub, known, start, full, chosen);
    lemma_chain_bounded(sub, known, full);
    lemma_chain_steps_are_justified(sub, known, full);
    full
}

/// A chain that ended because its last block decides nothing is stable:
/// resolving again from its end finds nothing further.
pub proof fn lemma_resolved_end_is_stable(
    sub: SubView,
    known: Seq<ExpressionView>,
    start: Seq<char>,
)
    requires
        resolved_target(sub, known, start) matches Some(end) && next_target(sub, known, end) is None,
    ensures
        resolved_target(sub, known, resolved_target(sub, known, start)->0) is None,
{
    let end = resolved_target(sub, known, start)->0;
    let alone = seq![end];
    assert(is_resolving_chain(sub, known, end, alone));
    let chosen = choose|p: Seq<Seq<char>>| is_resolving_chain(sub, known, end, p);
    lemma_resolving_chain_unique(sub, known, end, alone, chosen);
}

/// The view of a reference to an identifier that may be absent.
pub open spec fn tid_ref_option_view(tid: Option<&Tid>) -> Option<Seq<char>> {
    match tid {
        Some(t) => Some(t@),
        None => None,
    }
}

/// Checks whether the block holds no definitions and its exit is determined
/// by the conditions that are known to be true. If so, returns where it goes.
pub fn check_for_retargetable_block<'a>(
    block: &'a Term<Blk>,
    true_conditions: &[Expression],
) -> (r: Option<&'a Tid>)
    ensures
        tid_ref_option_view(r) == block_successor(block@.term, conditions_view(true_conditions@)),
{
    if block.term.defs.len() != 0 {
        return None;
    }
    if block.term.jmps.len() == 1 {
        match &block.term.jmps[0].term {
            Jmp::Branch(target) => Some(target),
            _ => None,
        }
    } else if block.term.jmps.len() == 2 {
        match (&block.term.jmps[0].term, &block.term.jmps[1].term) {
            (Jmp::CBranch { target: if_target, condition }, Jmp::Branch(else_target)) => {
                let negation = negate_condition(condition.clone());
                let ghost known = conditions_view(true_conditions@);
                let mut i: usize = 0;
                while i < true_conditions.len()
                    invariant
                        i <= true_conditions.len(),
                        known == conditions_view(true_conditions@),
                        negation@ == negated(condition@),
                        block@.term.defs.len() == 0,
                        block@.term.jmps.len() == 2,
                        block@.term.jmps[0].term == (JmpView::CBranch {
                            target: if_target@,
                            condition: condition@,
                        }),
                        block@.term.jmps[1].term == JmpView::Branch(else_target@),
                        decided_target(known, 0, condition@, if_target@, else_target@)
                            == decided_target(
                            known,
                            i as int,
                            condition@,
                            if_target@,
                            else_target@,
                        ),
                    decreases true_conditions.len() - i,
                {
                    if true_conditions[i].same_as(condition) {
                        return Some(if_target);
                    }
                    if true_conditions[i].same_as(&negation) {
                        return Some(else_target);
                    }
                    i += 1;
                }
                None
            },
            _ => None,
        }
    } else {
        None
    }
}

/// Follows the jumps from `target` through blocks of `sub` that hold no
/// definitions and whose exit the conditions in `true_conditions` determine,
/// and returns the last identifier reached, if it is not `target` itself.
pub fn find_target_for_retargetable_jump(
    target: &Tid,
    sub: &Sub,
    true_conditions: &[Expression],
) -> (r: Option<Tid>)
    ensures
        tid_option_view(r) == resolved_target(sub@, conditions_view(true_conditions@), target@),
{
    let ghost known = conditions_view(true_conditions@);
    let mut visited_tids: Vec<Tid> = Vec::new();
    visited_tids.push(target.clone());
    let mut new_target: &Tid = target;
    let ghost mut path: Seq<Seq<char>> = seq![target@];
    assert(tids_view(visited_tids@) =~= path);
    loop
        invariant
            known == conditions_view(true_conditions@),
            is_chain(sub@, known, path),
            path[0] == target@,
            path.last() == new_target@,
            tids_view(visited_tids@) == path,
        ensures
            chain_is_complete(sub@, known, path),
        decreases sub@.blocks.len() + 1 - path.len(),
    {
        let Some(i) = position_of(&sub.blocks, new_target) else {
            break ;
        };
        let Some(retarget) = check_for_retargetable_block(&sub.blocks[i], true_conditions) else {
            break ;
        };
        if contains_tid(&visited_tids, retarget) {
            break ;
        }
        proof {
            lemma_open_chain_bounded(sub@, known, path);
            let longer = path.push(retarget@);
            assert forall|k: int| 0 <= k < longer.len() - 1 implies next_target(
                sub@,
                known,
                #[trigger] longer[k],
            ) == Some(longer[k + 1]) by {
                if k < path.len() - 1 {
                    assert(longer[k] == path[k]);
                    assert(longer[k + 1] == path[k + 1]);
                }
            }
            path = longer;
        }
        visited_tids.push(retarget.clone());
        new_target = retarget;
        assert(tids_view(visited_tids@) =~= path);
    }
    proof {
        let chosen = choose|p: Seq<Seq<char>>| is_resolving_chain(sub@, known, target@, p);
        lemma_resolving_chain_unique(sub@, known, target@, path, chosen);
    }
    if !new_target.same_as(target) {
        Some(new_target.clone())
    } else {
        None
    }
}

} // verus!
