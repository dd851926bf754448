//! Blocks without incoming edge, and their removal.

use vstd::prelude::*;
use crate::collections::TidSet;
use crate::graph::{
    first_incoming_neighbor, graph_edges, graph_nodes, has_incoming, node_count, node_weight,
    ControlFlowGraph, EdgeRecord, Node,
};
use crate::program::{BlkView, Program, ProgramView, Project, Sub, SubView};
use crate::term::{Term, TermView};

verus! {

/// The identifier of the block that a node stands for, where the program has
/// that block.
pub open spec fn node_block_id(p: ProgramView, node: Node) -> Option<Seq<char>> {
    match node {
        Node::BlkStart { sub, blk } => if p.has_block(sub as int, blk as int) {
            Some(p.block(sub as int, blk as int).tid)
        } else {
            None
        },
        Node::BlkEnd { sub, blk } => if p.has_block(sub as int, blk as int) {
            Some(p.block(sub as int, blk as int).tid)
        } else {
            None
        },
    }
}

/// The identifiers of the blocks that have, among the first `count` nodes, a
/// node in which no edge ends.
pub open spec fn orphans_among(
    p: ProgramView,
    nodes: Seq<Node>,
    edges: Seq<EdgeRecord>,
    count: int,
) -> Set<Seq<char>> {
    Set::new(
        |t: Seq<char>|
            exists|n: int|
                0 <= n < count && n < nodes.len() && !has_incoming(edges, n) && node_block_id(
                    p,
                    #[trigger] nodes[n],
                ) == Some(t),
    )
}

/// The identifiers of the blocks that have a node in which no edge ends.
pub open spec fn orphan_ids(p: ProgramView, nodes: Seq<Node>, edges: Seq<EdgeRecord>) -> Set<
    Seq<char>,
> {
    orphans_among(p, nodes, edges, nodes.len() as int)
}

/// The blocks whose identifier is not in `removed`, in their order.
pub open spec fn kept_blocks(
    blocks: Seq<TermView<BlkView>>,
    removed: Set<Seq<char>>,
) -> Seq<TermView<BlkView>>
    decreases blocks.len(),
{
    if blocks.len() == 0 {
        blocks
    } else {
        let rest = kept_blocks(blocks.drop_last(), removed);
        if removed.contains(blocks.last().tid) {
            rest
        } else {
            rest.push(blocks.last())
        }
    }
}

/// The subroutine without the blocks whose identifier is in `removed`.
pub open spec fn sub_without_blocks(
    sub: TermView<SubView>,
    removed: Set<Seq<char>>,
) -> TermView<SubView> {
    TermView {
        tid: sub.tid,
        term: SubView {
            name: sub.term.name,
            blocks: kept_blocks(sub.term.blocks, removed),
            calling_convention: sub.term.calling_convention,
        },
    }
}

/// The program without the blocks whose identifier is in `removed`.
pub open spec fn program_without_blocks(p: ProgramView, removed: Set<Seq<char>>) -> ProgramView {
    ProgramView {
        subs: Seq::new(p.subs.len(), |s: int| sub_without_blocks(p.subs[s], removed)),
        extern_symbols: p.extern_symbols,
    }
}

/// What `kept_blocks` does with one more block.
pub proof fn lemma_kept_blocks_step(
    blocks: Seq<TermView<BlkView>>,
    removed: Set<Seq<char>>,
    count: int,
)
    requires
        0 <= count < blocks.len(),
    ensures
        kept_blocks(blocks.take(count + 1), removed) == (if removed.contains(blocks[count].tid) {
            kept_blocks(blocks.take(count), removed)
        } else {
            kept_blocks(blocks.take(count), removed).push(blocks[count])
        }),
{
    assert(blocks.take(count + 1).drop_last() =~= blocks.take(count));
}

/// The blocks that are kept are exactly the blocks whose identifier is not
/// in `removed`.
pub proof fn lemma_kept_blocks_contains(
    blocks: Seq<TermView<BlkView>>,
    removed: Set<Seq<char>>,
    block: TermView<BlkView>,
)
    ensures
        kept_blocks(blocks, removed).contains(block) <==> blocks.contains(block)
            && !removed.contains(block.tid),
    decreases blocks.len(),
{
    if blocks.len() > 0 {
        let rest = kept_blocks(blocks.drop_last(), removed);
        lemma_kept_blocks_contains(blocks.drop_last(), removed, block);
        if blocks.contains(block) {
            let i = choose|i: int| 0 <= i < blocks.len() && blocks[i] == block;
            if i < blocks.len() - 1 {
                assert(blocks.drop_last()[i] == block);
            }
        }
        if blocks.drop_last().contains(block) {
            let i = choose|i: int| 0 <= i < blocks.len() - 1 && blocks.drop_last()[i] == block;
            assert(blocks[i] == block);
        }
        if !removed.contains(blocks.last().tid) {
            let kept = rest.push(blocks.last());
            if rest.contains(block) {
                let i = choose|i: int| 0 <= i < rest.len() && rest[i] == block;
                assert(kept[i] == block);
            }
            if block == blocks.last() {
                assert(kept[rest.len() as int] == block);
                assert(blocks[blocks.len() - 1] == block);
            }
            if kept.contains(block) {
                let i = choose|i: int| 0 <= i < kept.len() && kept[i] == block;
                if i < rest.len() {
                    assert(rest[i] == block);
                }
            }
        } else {
            if block == blocks.last() {
                assert(removed.contains(block.tid));
            }
        }
    }
}

/// Where nothing is to be removed, every block is kept.
pub proof fn lemma_kept_blocks_all(blocks: Seq<TermView<BlkView>>, removed: Set<Seq<char>>)
    requires
        forall|i: int| 0 <= i < blocks.len() ==> !removed.contains((#[trigger] blocks[i]).tid),
    ensures
        kept_blocks(blocks, removed) == blocks,
    decreases blocks.len(),
{
    if blocks.len() > 0 {
        assert forall|i: int| 0 <= i < blocks.drop_last().len() implies !removed.contains(
            (#[trigger] blocks.drop_last()[i]).tid,
        ) by {
            assert(blocks.drop_last()[i] == blocks[i]);
        }
        lemma_kept_blocks_all(blocks.drop_last(), removed);
        assert(blocks.drop_last().push(blocks.last()) =~= blocks);
    }
}

/// Returns the identifiers of the blocks that have a node without an
/// incoming edge.
pub fn get_nodes_without_incoming_edge(program: &Program, cfg: &ControlFlowGraph) -> (r: TidSet)
    ensures
        r@ == orphan_ids(program@, graph_nodes(*cfg), graph_edges(*cfg)),
{
    let mut orphans = TidSet::new();
    let count = node_count(cfg);
    let ghost nodes = graph_nodes(*cfg);
    let ghost edges = graph_edges(*cfg);
    let mut node: usize = 0;
    assert(orphans@ =~= orphans_among(program@, nodes, edges, 0));
    while node < count
        invariant
            node <= count == nodes.len(),
            nodes == graph_nodes(*cfg),
            edges == graph_edges(*cfg),
            orphans@ == orphans_among(program@, nodes, edges, node as int),
        decreases count - node,
    {
        if first_incoming_neighbor(cfg, node).is_none() {
            let (sub, blk) = match node_weight(cfg, node) {
                Node::BlkStart { sub, blk } => (sub, blk),
                Node::BlkEnd { sub, blk } => (sub, blk),
            };
            if sub < program.subs.len() && blk < program.subs[sub].term.blocks.len() {
                let tid = program.subs[sub].term.blocks[blk].tid.clone();
                assert(node_block_id(program@, nodes[node as int]) == Some(tid@));
                orphans.insert(tid);
                assert(orphans@ =~= orphans_among(program@, nodes, edges, node + 1));
            } else {
                assert(node_block_id(program@, nodes[node as int]) is None);
                assert(orphans@ =~= orphans_among(program@, nodes, edges, node + 1));
            }
        } else {
            assert(orphans@ =~= orphans_among(program@, nodes, edges, node + 1));
        }
        node += 1;
    }
    orphans
}

/// Removes from one subroutine the blocks that are in `after` and not in
/// `before`.
fn remove_blocks(sub: &mut Term<Sub>, before: &TidSet, after: &TidSet)
    ensures
        final(sub)@ == sub_without_blocks(old(sub)@, after@.difference(before@)),
{
    let ghost blocks = sub@.term.blocks;
    let ghost removed = after@.difference(before@);
    let ghost mut seen: int = 0;
    let mut i: usize = 0;
    assert(sub@.term.blocks =~= kept_blocks(blocks.take(0), removed) + blocks.skip(0));
    while i < sub.term.blocks.len()
        invariant
            blocks == old(sub)@.term.blocks,
            removed == after@.difference(before@),
            0 <= seen <= blocks.len(),
            i == kept_blocks(blocks.take(seen), removed).len(),
            sub@.term.blocks == kept_blocks(blocks.take(seen), removed) + blocks.skip(seen),
            sub@.tid == old(sub)@.tid,
            sub@.term.name == old(sub)@.term.name,
            sub@.term.calling_convention == old(sub)@.term.calling_convention,
        decreases blocks.len() - seen,
    {
        let ghost current = sub@.term.blocks;
        assert(current[i as int] == blocks.skip(seen)[0]);
        proof {
            lemma_kept_blocks_step(blocks, removed, seen);
        }
        let tid = &sub.term.blocks[i].tid;
        if after.contains(tid) && !before.contains(tid) {
            sub.term.blocks.remove(i);
            assert(sub@.term.blocks =~= current.remove(i as int));
            assert(sub@.term.blocks =~= kept_blocks(blocks.take(seen + 1), removed) + blocks.skip(
                seen + 1,
            ));
        } else {
            assert(sub@.term.blocks =~= kept_blocks(blocks.take(seen + 1), removed) + blocks.skip(
                seen + 1,
            ));
            i += 1;
        }
        proof {
            seen = seen + 1;
        }
    }
    assert(blocks.take(seen) =~= blocks);
    assert(sub@.term.blocks =~= kept_blocks(blocks, removed));
}

/// Removes from the project the blocks that are in `orphaned_blocks_after`
/// and not in `orphaned_blocks_before`.
pub fn remove_new_orphaned_blocks(
    project: &mut Project,
    orphaned_blocks_before: TidSet,
    orphaned_blocks_after: TidSet,
)
    ensures
        final(project)@.program.tid == old(project)@.program.tid,
        final(project)@.program.term == program_without_blocks(
            old(project)@.program.term,
            orphaned_blocks_after@.difference(orphaned_blocks_before@),
        ),
{
    let ghost before = project@.program.term;
    let ghost removed = orphaned_blocks_after@.difference(orphaned_blocks_before@);
    let mut s: usize = 0;
    while s < project.program.term.subs.len()
        invariant
            s <= project.program.term.subs.len(),
            before == old(project)@.program.term,
            removed == orphaned_blocks_after@.difference(orphaned_blocks_before@),
            project@.program.tid == old(project)@.program.tid,
            project@.program.term.extern_symbols == before.extern_symbols,
            project@.program.term.subs.len() == before.subs.len(),
            forall|j: int|
                0 <= j < s ==> (#[trigger] project@.program.term.subs[j]) == sub_without_blocks(
                    before.subs[j],
                    removed,
                ),
            forall|j: int|
                s <= j < before.subs.len() ==> (#[trigger] project@.program.term.subs[j])
                    == before.subs[j],
        decreases project.program.term.subs.len() - s,
    {
        let ghost subs_before = project@.program.term.subs;
        let ghost current = project.program.term.subs@[s as int];
        assert(current@ == project@.program.term.subs[s as int]);
        let sub = &mut project.program.term.subs[s];
        assert(*sub == current);
        remove_blocks(sub, &orphaned_blocks_before, &orphaned_blocks_after);
        assert(project@.program.term.subs =~= subs_before.update(
            s as int,
            sub_without_blocks(before.subs[s as int], removed),
        ));
        s += 1;
    }
    assert(project@.program.term.subs =~= program_without_blocks(before, removed).subs);
}

} // verus!
