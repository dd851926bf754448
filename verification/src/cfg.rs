//! Building the control flow graph of a program.

use vstd::prelude::*;
use crate::graph::{
    add_edge, add_node, cfg_nodes, end_node, first_node, graph_edges, graph_nodes, has_incoming,
    lemma_block_nodes,
    lemma_node_is_block, lemma_nodes_upto_len, lemma_sub_nodes_len, new_graph, node_count,
    node_weight, nodes_upto, start_node, sub_nodes, ControlFlowGraph, Edge, EdgeRecord, JumpSite,
    Node,
};
use crate::program::{lemma_program_fits, Blk, Jmp, JmpView, Program, ProgramView};
use crate::term::{contains_tid, first_with_tid, position_of, tid_option_view, Term, Tid};

verus! {

/// A call that returns into its own subroutine: the position of the called
/// subroutine, the place of the call, and the node at which it returns.
#[derive(Clone, Copy, Debug, PartialEq, Eq, Structural)]
pub struct CallRecord {
    pub callee: usize,
    pub site: JumpSite,
    pub return_node: usize,
}

/// The place of the jump at `(sub, blk, jmp)`.
pub open spec fn site(sub: int, blk: int, jmp: int) -> JumpSite {
    JumpSite { sub: sub as usize, blk: blk as usize, jmp: jmp as usize }
}

/// The edges from entry to exit of the first `count` blocks of a program.
pub open spec fn block_edges(count: int) -> Seq<EdgeRecord>
    decreases count,
{
    if count <= 0 {
        Seq::empty()
    } else {
        block_edges(count - 1).push(
            EdgeRecord { source: 2 * (count - 1), target: 2 * (count - 1) + 1, weight: Edge::Block },
        )
    }
}

/// The edge from `from` to the entry of the first block of subroutine `sub`
/// that is called `tid`; no edge where there is no such block.
pub open spec fn edge_to_block(
    p: ProgramView,
    sub: int,
    from: int,
    tid: Seq<char>,
    weight: Edge,
) -> Seq<EdgeRecord> {
    match first_with_tid(p.subs[sub].term.blocks, tid) {
        Some(blk) => seq![EdgeRecord { source: from, target: start_node(p, sub, blk), weight }],
        None => Seq::empty(),
    }
}

/// The edge from `from` to the block at which a call returns, if it returns.
pub open spec fn edge_to_return(
    p: ProgramView,
    sub: int,
    from: int,
    return_: Option<Seq<char>>,
    weight: Edge,
) -> Seq<EdgeRecord> {
    match return_ {
        Some(tid) => edge_to_block(p, sub, from, tid, weight),
        None => Seq::empty(),
    }
}

/// The edges of an indirect jump to the first `count` of the targets that the
/// block lists for it.
pub open spec fn indirect_edges(
    p: ProgramView,
    sub: int,
    blk: int,
    from: int,
    weight: Edge,
    count: int,
) -> Seq<EdgeRecord>
    decreases count,
{
    if count <= 0 {
        Seq::empty()
    } else {
        indirect_edges(p, sub, blk, from, weight, count - 1) + edge_to_block(
            p,
            sub,
            from,
            p.block(sub, blk).term.indirect_jmp_targets[count - 1],
            weight,
        )
    }
}

/// The edge from `from` to the first block of the first subroutine called
/// `target`; no edge where there is no such subroutine or it has no blocks.
pub open spec fn call_edge(p: ProgramView, from: int, target: Seq<char>, weight: Edge) -> Seq<
    EdgeRecord,
> {
    match first_with_tid(p.subs, target) {
        Some(callee) => if p.subs[callee].term.blocks.len() > 0 {
            seq![EdgeRecord { source: from, target: start_node(p, callee, 0), weight }]
        } else {
            Seq::empty()
        },
        None => Seq::empty(),
    }
}

/// The edges that the jump at `(sub, blk, jmp)` adds, leaving from node `from`.
pub open spec fn jump_edges(
    p: ProgramView,
    sub: int,
    blk: int,
    jmp: int,
    from: int,
    untaken_conditional: Option<JumpSite>,
) -> Seq<EdgeRecord> {
    let here = site(sub, blk, jmp);
    match p.jump(sub, blk, jmp).term {
        JmpView::Branch(target) => edge_to_block(
            p,
            sub,
            from,
            target,
            Edge::Jump(here, untaken_conditional),
        ),
        JmpView::CBranch { target, .. } => edge_to_block(
            p,
            sub,
            from,
            target,
            Edge::Jump(here, untaken_conditional),
        ),
        JmpView::BranchInd(_) => indirect_edges(
            p,
            sub,
            blk,
            from,
            Edge::Jump(here, untaken_conditional),
            p.block(sub, blk).term.indirect_jmp_targets.len() as int,
        ),
        JmpView::Call { target, return_ } => if p.extern_symbols.contains(target) {
            edge_to_return(p, sub, from, return_, Edge::ExternCallStub(here))
        } else {
            call_edge(p, from, target, Edge::Call(here))
        },
        JmpView::CallInd { return_, .. } => edge_to_return(
            p,
            sub,
            from,
            return_,
            Edge::ExternCallStub(here),
        ),
        JmpView::CallOther { return_, .. } => edge_to_return(
            p,
            sub,
            from,
            return_,
            Edge::ExternCallStub(here),
        ),
        JmpView::Return(_) => Seq::empty(),
    }
}

/// The edges that leave the block at `(sub, blk)`, from its exit node `from`:
/// those of its one jump, or those of its two jumps, the second of which then
/// stands for the case that the first was not taken. A block with another
/// number of jumps is a dead end.
pub open spec fn block_jump_edges(p: ProgramView, sub: int, blk: int, from: int) -> Seq<EdgeRecord> {
    let count = p.block(sub, blk).term.jmps.len();
    if count == 1 {
        jump_edges(p, sub, blk, 0, from, None)
    } else if count == 2 {
        jump_edges(p, sub, blk, 0, from, None) + jump_edges(
            p,
            sub,
            blk,
            1,
            from,
            Some(site(sub, blk, 0)),
        )
    } else {
        Seq::empty()
    }
}

/// The jump edges that leave the first `count` nodes.
pub open spec fn jump_edges_upto(p: ProgramView, nodes: Seq<Node>, count: int) -> Seq<EdgeRecord>
    decreases count,
{
    if count <= 0 {
        Seq::empty()
    } else {
        jump_edges_upto(p, nodes, count - 1) + (match nodes[count - 1] {
            Node::BlkEnd { sub, blk } => block_jump_edges(p, sub as int, blk as int, count - 1),
            Node::BlkStart { .. } => Seq::empty(),
        })
    }
}

/// The record of the jump at `(sub, blk, jmp)`, where that is a call of a
/// subroutine of the program that returns to a block of its own subroutine.
pub open spec fn call_record(p: ProgramView, sub: int, blk: int, jmp: int) -> Seq<CallRecord> {
    match p.jump(sub, blk, jmp).term {
        JmpView::Call { target, return_: Some(return_tid) } => if p.extern_symbols.contains(
            target,
        ) {
            Seq::empty()
        } else {
            match (
                first_with_tid(p.subs, target),
                first_with_tid(p.subs[sub].term.blocks, return_tid),
            ) {
                (Some(callee), Some(return_blk)) => seq![
                    CallRecord {
                        callee: callee as usize,
                        site: site(sub, blk, jmp),
                        return_node: start_node(p, sub, return_blk) as usize,
                    },
                ],
                _ => Seq::empty(),
            }
        },
        _ => Seq::empty(),
    }
}

/// The records of the calls in the block at `(sub, blk)`.
pub open spec fn block_call_records(p: ProgramView, sub: int, blk: int) -> Seq<CallRecord> {
    let count = p.block(sub, blk).term.jmps.len();
    if count == 1 {
        call_record(p, sub, blk, 0)
    } else if count == 2 {
        call_record(p, sub, blk, 0) + call_record(p, sub, blk, 1)
    } else {
        Seq::empty()
    }
}

/// The records of the calls in the blocks of the first `count` nodes.
pub open spec fn call_records_upto(p: ProgramView, nodes: Seq<Node>, count: int) -> Seq<CallRecord>
    decreases count,
{
    if count <= 0 {
        Seq::empty()
    } else {
        call_records_upto(p, nodes, count - 1) + (match nodes[count - 1] {
            Node::BlkEnd { sub, blk } => block_call_records(p, sub as int, blk as int),
            Node::BlkStart { .. } => Seq::empty(),
        })
    }
}

/// The edges from the returning block with exit node `from`, in subroutine
/// `callee`, to where the first `count` recorded calls return: one for each
/// of them that calls `callee`.
pub open spec fn return_edges_from(
    records: Seq<CallRecord>,
    callee: int,
    from: int,
    count: int,
) -> Seq<EdgeRecord>
    decreases count,
{
    if count <= 0 {
        Seq::empty()
    } else {
        return_edges_from(records, callee, from, count - 1) + (if records[count - 1].callee
            == callee {
            seq![
                EdgeRecord {
                    source: from,
                    target: records[count - 1].return_node as int,
                    weight: Edge::ReturnCombine(records[count - 1].site),
                },
            ]
        } else {
            Seq::empty()
        })
    }
}

/// The return edges that leave the first `count` nodes.
pub open spec fn return_edges_upto(
    p: ProgramView,
    nodes: Seq<Node>,
    records: Seq<CallRecord>,
    count: int,
) -> Seq<EdgeRecord>
    decreases count,
{
    if count <= 0 {
        Seq::empty()
    } else {
        return_edges_upto(p, nodes, records, count - 1) + (match nodes[count - 1] {
            Node::BlkEnd { sub, blk } => if p.block(sub as int, blk as int).term.has_return() {
                return_edges_from(records, sub as int, count - 1, records.len() as int)
            } else {
                Seq::empty()
            },
            Node::BlkStart { .. } => Seq::empty(),
        })
    }
}

/// The edges of the control flow graph of a program: first those from the
/// entry to the exit of each block, then those of the jumps, block by block,
/// then those from the returning blocks back to the callers.
pub open spec fn cfg_edges(p: ProgramView) -> Seq<EdgeRecord> {
    let nodes = cfg_nodes(p);
    let count = nodes.len() as int;
    block_edges(count / 2) + jump_edges_upto(p, nodes, count) + return_edges_upto(
        p,
        nodes,
        call_records_upto(p, nodes, count),
        count,
    )
}

/// What the graph builder knows of the nodes while it adds the edges: the
/// graph holds the nodes of the program, and `first_nodes` holds, for each
/// subroutine, the index of the node of its first block, and at its end the
/// number of all nodes.
pub open spec fn nodes_are_built(p: ProgramView, nodes: Seq<Node>, first_nodes: Seq<usize>) -> bool {
    &&& nodes == cfg_nodes(p)
    &&& nodes.len() == first_node(p, p.subs.len() as int)
    &&& first_nodes.len() == p.subs.len() + 1
    &&& forall|s: int| 0 <= s < first_nodes.len() ==> #[trigger] first_nodes[s] == first_node(p, s)
}

/// The number of nodes that were built is a machine number.
proof fn lemma_built_nodes_fit(p: ProgramView, nodes: Seq<Node>, first_nodes: Seq<usize>)
    requires
        nodes_are_built(p, nodes, first_nodes),
    ensures
        nodes.len() <= usize::MAX,
{
    assert(first_nodes[p.subs.len() as int] == first_node(p, p.subs.len() as int));
}

/// Adds the nodes of the blocks of one subroutine, and for each block the
/// edge from its entry to its exit.
fn add_sub_blocks(g: &mut ControlFlowGraph, program: &Program, s: usize)
    requires
        s < program.subs.len(),
        graph_nodes(*old(g)) == nodes_upto(program@, s as int),
        graph_nodes(*old(g)).len() % 2 == 0,
        graph_edges(*old(g)) == block_edges(graph_nodes(*old(g)).len() as int / 2),
    ensures
        graph_nodes(*final(g)) == nodes_upto(program@, s + 1),
        graph_nodes(*final(g)).len() % 2 == 0,
        graph_edges(*final(g)) == block_edges(graph_nodes(*final(g)).len() as int / 2),
{
    let sub = &program.subs[s];
    let mut b: usize = 0;
    proof {
        lemma_nodes_upto_len(program@, s as int);
        assert(graph_nodes(*g) =~= nodes_upto(program@, s as int) + sub_nodes(s as int, 0));
    }
    while b < sub.term.blocks.len()
        invariant
            b <= sub.term.blocks.len(),
            s < program.subs.len(),
            *sub == program.subs[s as int],
            graph_nodes(*g) == nodes_upto(program@, s as int) + sub_nodes(s as int, b as int),
            graph_nodes(*g).len() % 2 == 0,
            graph_edges(*g) == block_edges(graph_nodes(*g).len() as int / 2),
        decreases sub.term.blocks.len() - b,
    {
        proof {
            lemma_nodes_upto_len(program@, s as int);
            lemma_sub_nodes_len(s as int, b as int);
        }
        let ghost before = graph_nodes(*g);
        let start = add_node(g, Node::BlkStart { sub: s, blk: b });
        let end = add_node(g, Node::BlkEnd { sub: s, blk: b });
        add_edge(g, start, end, Edge::Block);
        proof {
            assert(graph_nodes(*g) =~= nodes_upto(program@, s as int) + sub_nodes(
                s as int,
                b + 1,
            ));
            assert(graph_nodes(*g).len() == before.len() + 2);
            assert(start == 2 * (before.len() as int / 2));
        }
        b += 1;
    }
    proof {
        assert(program@.subs[s as int].term.blocks.len() == sub.term.blocks.len());
    }
}

/// Adds the nodes of all blocks, with the edge from entry to exit of each,
/// and returns for each subroutine the index of its first node.
fn add_program_blocks(g: &mut ControlFlowGraph, program: &Program) -> (first_nodes: Vec<usize>)
    requires
        graph_nodes(*old(g)) == Seq::<Node>::empty(),
        graph_edges(*old(g)) == Seq::<EdgeRecord>::empty(),
    ensures
        nodes_are_built(program@, graph_nodes(*final(g)), first_nodes@),
        graph_edges(*final(g)) == block_edges(graph_nodes(*final(g)).len() as int / 2),
{
    let mut first_nodes: Vec<usize> = Vec::new();
    let mut s: usize = 0;
    while s < program.subs.len()
        invariant
            s <= program.subs.len(),
            graph_nodes(*g) == nodes_upto(program@, s as int),
            graph_nodes(*g).len() % 2 == 0,
            graph_edges(*g) == block_edges(graph_nodes(*g).len() as int / 2),
            first_nodes.len() == s,
            forall|i: int| 0 <= i < s ==> #[trigger] first_nodes[i] == first_node(program@, i),
        decreases program.subs.len() - s,
    {
        let first = node_count(g);
        proof {
            lemma_nodes_upto_len(program@, s as int);
        }
        first_nodes.push(first);
        add_sub_blocks(g, program, s);
        s += 1;
    }
    proof {
        lemma_nodes_upto_len(program@, s as int);
    }
    first_nodes.push(node_count(g));
    first_nodes
}

/// Adds the edge from `from` to the entry of the block of subroutine `s`
/// that is called `tid`, if there is such a block.
fn add_edge_to_block(
    g: &mut ControlFlowGraph,
    program: &Program,
    first_nodes: &Vec<usize>,
    s: usize,
    from: usize,
    tid: &Tid,
    weight: Edge,
)
    requires
        nodes_are_built(program@, graph_nodes(*old(g)), first_nodes@),
        s < program.subs.len(),
        from < graph_nodes(*old(g)).len(),
    ensures
        graph_nodes(*final(g)) == graph_nodes(*old(g)),
        graph_edges(*final(g)) == graph_edges(*old(g)) + edge_to_block(
            program@,
            s as int,
            from as int,
            tid@,
            weight,
        ),
{
    match position_of(&program.subs[s].term.blocks, tid) {
        Some(blk) => {
            proof {
                lemma_program_fits(program);
                lemma_block_nodes(program@, s as int, blk as int);
                lemma_built_nodes_fit(program@, graph_nodes(*g), first_nodes@);
            }
            let target = first_nodes[s] + blk + blk;
            add_edge(g, from, target, weight);
            assert(graph_edges(*g) =~= graph_edges(*old(g)) + edge_to_block(
                program@,
                s as int,
                from as int,
                tid@,
                weight,
            ));
        },
        None => {
            assert(graph_edges(*g) =~= graph_edges(*old(g)) + edge_to_block(
                program@,
                s as int,
                from as int,
                tid@,
                weight,
            ));
        },
    }
}

/// Adds the edge from `from` to the block at which a call returns, if it
/// returns to a block of subroutine `s`.
fn add_edge_to_return(
    g: &mut ControlFlowGraph,
    program: &Program,
    first_nodes: &Vec<usize>,
    s: usize,
    from: usize,
    return_: &Option<Tid>,
    weight: Edge,
)
    requires
        nodes_are_built(program@, graph_nodes(*old(g)), first_nodes@),
        s < program.subs.len(),
        from < graph_nodes(*old(g)).len(),
    ensures
        graph_nodes(*final(g)) == graph_nodes(*old(g)),
        graph_edges(*final(g)) == graph_edges(*old(g)) + edge_to_return(
            program@,
            s as int,
            from as int,
            tid_option_view(*return_),
            weight,
        ),
{
    match return_ {
        Some(tid) => add_edge_to_block(g, program, first_nodes, s, from, tid, weight),
        None => {
            assert(graph_edges(*g) =~= graph_edges(*old(g)) + Seq::<EdgeRecord>::empty());
        },
    }
}

/// Adds the edge from `from` to the first block of the subroutine called
/// `target`, if the program has it and it has blocks.
fn add_call_edge(
    g: &mut ControlFlowGraph,
    program: &Program,
    first_nodes: &Vec<usize>,
    from: usize,
    target: &Tid,
    weight: Edge,
)
    requires
        nodes_are_built(program@, graph_nodes(*old(g)), first_nodes@),
        from < graph_nodes(*old(g)).len(),
    ensures
        graph_nodes(*final(g)) == graph_nodes(*old(g)),
        graph_edges(*final(g)) == graph_edges(*old(g)) + call_edge(
            program@,
            from as int,
            target@,
            weight,
        ),
{
    match position_of(&program.subs, target) {
        Some(callee) => {
            if program.subs[callee].term.blocks.len() > 0 {
                proof {
                    lemma_program_fits(program);
                    lemma_block_nodes(program@, callee as int, 0);
                }
                add_edge(g, from, first_nodes[callee], weight);
            }
        },
        None => {},
    }
    assert(graph_edges(*g) =~= graph_edges(*old(g)) + call_edge(
        program@,
        from as int,
        target@,
        weight,
    ));
}

/// Adds the edges from `from` to the targets that the block lists for its
/// indirect jump.
fn add_indirect_edges(
    g: &mut ControlFlowGraph,
    program: &Program,
    first_nodes: &Vec<usize>,
    s: usize,
    b: usize,
    from: usize,
    weight: Edge,
)
    requires
        nodes_are_built(program@, graph_nodes(*old(g)), first_nodes@),
        program@.has_block(s as int, b as int),
        from < graph_nodes(*old(g)).len(),
    ensures
        graph_nodes(*final(g)) == graph_nodes(*old(g)),
        graph_edges(*final(g)) == graph_edges(*old(g)) + indirect_edges(
            program@,
            s as int,
            b as int,
            from as int,
            weight,
            program@.block(s as int, b as int).term.indirect_jmp_targets.len() as int,
        ),
{
    let targets = &program.subs[s].term.blocks[b].term.indirect_jmp_targets;
    let mut i: usize = 0;
    assert(graph_edges(*g) =~= graph_edges(*old(g)) + Seq::<EdgeRecord>::empty());
    while i < targets.len()
        invariant
            i <= targets.len(),
            program@.has_block(s as int, b as int),
            *targets == program.subs[s as int].term.blocks[b as int].term.indirect_jmp_targets,
            nodes_are_built(program@, graph_nodes(*g), first_nodes@),
            graph_nodes(*g) == graph_nodes(*old(g)),
            from < graph_nodes(*g).len(),
            graph_edges(*g) == graph_edges(*old(g)) + indirect_edges(
                program@,
                s as int,
                b as int,
                from as int,
                weight,
                i as int,
            ),
        decreases targets.len() - i,
    {
        add_edge_to_block(g, program, first_nodes, s, from, &targets[i], weight);
        proof {
            assert(program@.block(s as int, b as int).term.indirect_jmp_targets[i as int]
                == targets[i as int]@);
            assert(graph_edges(*g) =~= graph_edges(*old(g)) + indirect_edges(
                program@,
                s as int,
                b as int,
                from as int,
                weight,
                i + 1,
            ));
        }
        i += 1;
    }
}

/// Adds the edges of the jump at `here`, which leave from node `from`.
fn add_jump_edge(
    g: &mut ControlFlowGraph,
    program: &Program,
    first_nodes: &Vec<usize>,
    here: JumpSite,
    from: usize,
    untaken_conditional: Option<JumpSite>,
)
    requires
        nodes_are_built(program@, graph_nodes(*old(g)), first_nodes@),
        program@.has_jump(here.sub as int, here.blk as int, here.jmp as int),
        from < graph_nodes(*old(g)).len(),
    ensures
        graph_nodes(*final(g)) == graph_nodes(*old(g)),
        graph_edges(*final(g)) == graph_edges(*old(g)) + jump_edges(
            program@,
            here.sub as int,
            here.blk as int,
            here.jmp as int,
            from as int,
            untaken_conditional,
        ),
{
    let s = here.sub;
    let jump = &program.subs[s].term.blocks[here.blk].term.jmps[here.jmp];
    assert(jump@ == program@.jump(here.sub as int, here.blk as int, here.jmp as int));
    assert(here == site(here.sub as int, here.blk as int, here.jmp as int));
    match &jump.term {
        Jmp::Branch(target) => {
            add_edge_to_block(
                g,
                program,
                first_nodes,
                s,
                from,
                target,
                Edge::Jump(here, untaken_conditional),
            );
        },
        Jmp::CBranch { target, .. } => {
            add_edge_to_block(
                g,
                program,
                first_nodes,
                s,
                from,
                target,
                Edge::Jump(here, untaken_conditional),
            );
        },
        Jmp::BranchInd(_) => {
            add_indirect_edges(
                g,
                program,
                first_nodes,
                s,
                here.blk,
                from,
                Edge::Jump(here, untaken_conditional),
            );
        },
        Jmp::Call { target, return_ } => {
            if contains_tid(&program.extern_symbols, target) {
                add_edge_to_return(
                    g,
                    program,
                    first_nodes,
                    s,
                    from,
                    return_,
                    Edge::ExternCallStub(here),
                );
            } else {
                add_call_edge(g, program, first_nodes, from, target, Edge::Call(here));
            }
        },
        Jmp::CallInd { return_, .. } => {
            add_edge_to_return(
                g,
                program,
                first_nodes,
                s,
                from,
                return_,
                Edge::ExternCallStub(here),
            );
        },
        Jmp::CallOther { return_, .. } => {
            add_edge_to_return(
                g,
                program,
                first_nodes,
                s,
                from,
                return_,
                Edge::ExternCallStub(here),
            );
        },
        Jmp::Return(_) => {
            assert(graph_edges(*g) =~= graph_edges(*old(g)) + Seq::<EdgeRecord>::empty());
        },
    }
}

/// Adds the edges that leave the block at `(s, b)`, whose exit is `from`.
fn add_outgoing_edges(
    g: &mut ControlFlowGraph,
    program: &Program,
    first_nodes: &Vec<usize>,
    s: usize,
    b: usize,
    from: usize,
)
    requires
        nodes_are_built(program@, graph_nodes(*old(g)), first_nodes@),
        program@.has_block(s as int, b as int),
        from < graph_nodes(*old(g)).len(),
    ensures
        graph_nodes(*final(g)) == graph_nodes(*old(g)),
        graph_edges(*final(g)) == graph_edges(*old(g)) + block_jump_edges(
            program@,
            s as int,
            b as int,
            from as int,
        ),
{
    let count = program.subs[s].term.blocks[b].term.jmps.len();
    assert(count == program@.block(s as int, b as int).term.jmps.len());
    if count == 1 {
        add_jump_edge(g, program, first_nodes, JumpSite { sub: s, blk: b, jmp: 0 }, from, None);
    } else if count == 2 {
        let if_jump = JumpSite { sub: s, blk: b, jmp: 0 };
        add_jump_edge(g, program, first_nodes, if_jump, from, None);
        add_jump_edge(
            g,
            program,
            first_nodes,
            JumpSite { sub: s, blk: b, jmp: 1 },
            from,
            Some(if_jump),
        );
        assert(graph_edges(*g) =~= graph_edges(*old(g)) + block_jump_edges(
            program@,
            s as int,
            b as int,
            from as int,
        ));
    } else {
        assert(graph_edges(*g) =~= graph_edges(*old(g)) + Seq::<EdgeRecord>::empty());
    }
}

/// Every recorded call returns to a node below `count`.
pub open spec fn records_return_below(records: Seq<CallRecord>, count: int) -> bool {
    forall|j: int| 0 <= j < records.len() ==> (#[trigger] records[j]).return_node < count
}

/// Records the jump at `here`, where it is a call that returns into its
/// own subroutine.
fn record_call(
    program: &Program,
    first_nodes: &Vec<usize>,
    here: JumpSite,
    records: &mut Vec<CallRecord>,
)
    requires
        nodes_are_built(program@, cfg_nodes(program@), first_nodes@),
        program@.has_jump(here.sub as int, here.blk as int, here.jmp as int),
        records_return_below(old(records)@, cfg_nodes(program@).len() as int),
    ensures
        final(records)@ == old(records)@ + call_record(
            program@,
            here.sub as int,
            here.blk as int,
            here.jmp as int,
        ),
        records_return_below(final(records)@, cfg_nodes(program@).len() as int),
{
    let s = here.sub;
    let jump = &program.subs[s].term.blocks[here.blk].term.jmps[here.jmp];
    assert(jump@ == program@.jump(here.sub as int, here.blk as int, here.jmp as int));
    assert(here == site(here.sub as int, here.blk as int, here.jmp as int));
    if let Jmp::Call { target, return_: Some(return_tid) } = &jump.term {
        if !contains_tid(&program.extern_symbols, target) {
            if let Some(callee) = position_of(&program.subs, target) {
                if let Some(return_blk) = position_of(&program.subs[s].term.blocks, return_tid) {
                    proof {
                        lemma_program_fits(program);
                        lemma_block_nodes(program@, s as int, return_blk as int);
                        lemma_built_nodes_fit(program@, cfg_nodes(program@), first_nodes@);
                    }
                    let return_node = first_nodes[s] + return_blk + return_blk;
                    records.push(CallRecord { callee, site: here, return_node });
                }
            }
        }
    }
    assert(records@ =~= old(records)@ + call_record(
        program@,
        here.sub as int,
        here.blk as int,
        here.jmp as int,
    ));
}

/// Records the calls of the block at `(s, b)`.
fn record_block_calls(
    program: &Program,
    first_nodes: &Vec<usize>,
    s: usize,
    b: usize,
    records: &mut Vec<CallRecord>,
)
    requires
        nodes_are_built(program@, cfg_nodes(program@), first_nodes@),
        program@.has_block(s as int, b as int),
        records_return_below(old(records)@, cfg_nodes(program@).len() as int),
    ensures
        final(records)@ == old(records)@ + block_call_records(program@, s as int, b as int),
        records_return_below(final(records)@, cfg_nodes(program@).len() as int),
{
    let count = program.subs[s].term.blocks[b].term.jmps.len();
    assert(count == program@.block(s as int, b as int).term.jmps.len());
    if count == 1 {
        record_call(program, first_nodes, JumpSite { sub: s, blk: b, jmp: 0 }, records);
    } else if count == 2 {
        record_call(program, first_nodes, JumpSite { sub: s, blk: b, jmp: 0 }, records);
        record_call(program, first_nodes, JumpSite { sub: s, blk: b, jmp: 1 }, records);
        assert(records@ =~= old(records)@ + block_call_records(program@, s as int, b as int));
    } else {
        assert(records@ =~= old(records)@ + Seq::<CallRecord>::empty());
    }
}

/// Adds the edges of all jumps, block by block, and returns the record of
/// the calls that return.
fn add_jump_and_call_edges(
    g: &mut ControlFlowGraph,
    program: &Program,
    first_nodes: &Vec<usize>,
) -> (records: Vec<CallRecord>)
    requires
        nodes_are_built(program@, graph_nodes(*old(g)), first_nodes@),
    ensures
        graph_nodes(*final(g)) == graph_nodes(*old(g)),
        graph_edges(*final(g)) == graph_edges(*old(g)) + jump_edges_upto(
            program@,
            cfg_nodes(program@),
            cfg_nodes(program@).len() as int,
        ),
        records@ == call_records_upto(
            program@,
            cfg_nodes(program@),
            cfg_nodes(program@).len() as int,
        ),
        records_return_below(records@, cfg_nodes(program@).len() as int),
{
    let mut records: Vec<CallRecord> = Vec::new();
    let count = node_count(g);
    let mut n: usize = 0;
    assert(graph_edges(*g) =~= graph_edges(*old(g)) + Seq::<EdgeRecord>::empty());
    while n < count
        invariant
            n <= count == cfg_nodes(program@).len(),
            nodes_are_built(program@, graph_nodes(*g), first_nodes@),
            graph_nodes(*g) == graph_nodes(*old(g)),
            graph_edges(*g) == graph_edges(*old(g)) + jump_edges_upto(
                program@,
                cfg_nodes(program@),
                n as int,
            ),
            records@ == call_records_upto(program@, cfg_nodes(program@), n as int),
            records_return_below(records@, cfg_nodes(program@).len() as int),
        decreases count - n,
    {
        match node_weight(g, n) {
            Node::BlkEnd { sub, blk } => {
                proof {
                    lemma_program_fits(program);
                    lemma_node_is_block(program@, program@.subs.len() as int, n as int);
                }
                add_outgoing_edges(g, program, first_nodes, sub, blk, n);
                record_block_calls(program, first_nodes, sub, blk, &mut records);
            },
            Node::BlkStart { .. } => {},
        }
        proof {
            assert(graph_edges(*g) =~= graph_edges(*old(g)) + jump_edges_upto(
                program@,
                cfg_nodes(program@),
                n + 1,
            ));
            assert(records@ =~= call_records_upto(program@, cfg_nodes(program@), n + 1));
        }
        n += 1;
    }
    records
}

/// Whether one of the block's jumps returns from the subroutine.
pub fn block_returns(block: &Term<Blk>) -> (r: bool)
    ensures
        r == block@.term.has_return(),
{
    let mut k: usize = 0;
    while k < block.term.jmps.len()
        invariant
            k <= block.term.jmps.len(),
            forall|i: int| 0 <= i < k ==> !((#[trigger] block@.term.jmps[i]).term is Return),
        decreases block.term.jmps.len() - k,
    {
        if let Jmp::Return(_) = &block.term.jmps[k].term {
            assert(block@.term.jmps[k as int].term is Return);
            return true;
        }
        k += 1;
    }
    false
}

/// Adds the edges from the returning block with exit `from` to where the
/// recorded calls of its subroutine `callee` return.
fn add_return_edges_from(g: &mut ControlFlowGraph, records: &Vec<CallRecord>, callee: usize, from: usize)
    requires
        from < graph_nodes(*old(g)).len(),
        records_return_below(records@, graph_nodes(*old(g)).len() as int),
    ensures
        graph_nodes(*final(g)) == graph_nodes(*old(g)),
        graph_edges(*final(g)) == graph_edges(*old(g)) + return_edges_from(
            records@,
            callee as int,
            from as int,
            records@.len() as int,
        ),
{
    let mut j: usize = 0;
    assert(graph_edges(*g) =~= graph_edges(*old(g)) + Seq::<EdgeRecord>::empty());
    while j < records.len()
        invariant
            j <= records.len(),
            from < graph_nodes(*g).len(),
            graph_nodes(*g) == graph_nodes(*old(g)),
            records_return_below(records@, graph_nodes(*g).len() as int),
            graph_edges(*g) == graph_edges(*old(g)) + return_edges_from(
                records@,
                callee as int,
                from as int,
                j as int,
            ),
        decreases records.len() - j,
    {
        let record = records[j];
        if record.callee == callee {
            add_edge(g, from, record.return_node, Edge::ReturnCombine(record.site));
        }
        assert(graph_edges(*g) =~= graph_edges(*old(g)) + return_edges_from(
            records@,
            callee as int,
            from as int,
            j + 1,
        ));
        j += 1;
    }
}

/// Adds the edges from each returning block back to the callers of its
/// subroutine.
fn add_return_edges(g: &mut ControlFlowGraph, program: &Program, records: &Vec<CallRecord>)
    requires
        graph_nodes(*old(g)) == cfg_nodes(program@),
        records_return_below(records@, cfg_nodes(program@).len() as int),
    ensures
        graph_nodes(*final(g)) == graph_nodes(*old(g)),
        graph_edges(*final(g)) == graph_edges(*old(g)) + return_edges_upto(
            program@,
            cfg_nodes(program@),
            records@,
            cfg_nodes(program@).len() as int,
        ),
{
    let count = node_count(g);
    let mut n: usize = 0;
    assert(graph_edges(*g) =~= graph_edges(*old(g)) + Seq::<EdgeRecord>::empty());
    while n < count
        invariant
            n <= count == cfg_nodes(program@).len(),
            graph_nodes(*g) == cfg_nodes(program@),
            records_return_below(records@, cfg_nodes(program@).len() as int),
            graph_edges(*g) == graph_edges(*old(g)) + return_edges_upto(
                program@,
                cfg_nodes(program@),
                records@,
                n as int,
            ),
        decreases count - n,
    {
        match node_weight(g, n) {
            Node::BlkEnd { sub, blk } => {
                proof {
                    lemma_program_fits(program);
                    lemma_node_is_block(program@, program@.subs.len() as int, n as int);
                }
                if block_returns(&program.subs[sub].term.blocks[blk]) {
                    add_return_edges_from(g, records, sub, n);
                }
            },
            Node::BlkStart { .. } => {},
        }
        assert(graph_edges(*g) =~= graph_edges(*old(g)) + return_edges_upto(
            program@,
            cfg_nodes(program@),
            records@,
            n + 1,
        ));
        n += 1;
    }
}

/// Builds the control flow graph of a program.
pub fn get_program_cfg(program: &Term<Program>) -> (g: ControlFlowGraph)
    ensures
        graph_nodes(g) == cfg_nodes(program@.term),
        graph_edges(g) == cfg_edges(program@.term),
{
    let mut g = new_graph();
    let first_nodes = add_program_blocks(&mut g, &program.term);
    let records = add_jump_and_call_edges(&mut g, &program.term, &first_nodes);
    add_return_edges(&mut g, &program.term, &records);
    g
}

/// An edge into `node` in one of two sequences is one in both put together.
pub proof fn lemma_has_incoming_concat(first: Seq<EdgeRecord>, second: Seq<EdgeRecord>, node: int)
    requires
        has_incoming(first, node) || has_incoming(second, node),
    ensures
        has_incoming(first + second, node),
{
    let both = first + second;
    if has_incoming(first, node) {
        let i = choose|i: int| 0 <= i < first.len() && (#[trigger] first[i]).target == node;
        assert(both[i].target == node);
    } else {
        let i = choose|i: int| 0 <= i < second.len() && (#[trigger] second[i]).target == node;
        assert(both[first.len() + i].target == node);
    }
}

/// The exit of each of the first `count` blocks has the edge from its entry.
pub proof fn lemma_block_edge_enters_exit(count: int, i: int)
    requires
        0 <= i < count,
    ensures
        has_incoming(block_edges(count), 2 * i + 1),
    decreases count,
{
    let edges = block_edges(count);
    if i == count - 1 {
        assert(edges[edges.len() - 1].target == 2 * i + 1);
    } else {
        lemma_block_edge_enters_exit(count - 1, i);
        let fewer = block_edges(count - 1);
        let j = choose|j: int| 0 <= j < fewer.len() && (#[trigger] fewer[j]).target == 2 * i + 1;
        assert(edges[j] == fewer[j]);
    }
}

/// The nodes before a subroutine are an even number.
pub proof fn lemma_first_node_is_even(p: ProgramView, sub: int)
    requires
        0 <= sub,
    ensures
        first_node(p, sub) % 2 == 0,
        first_node(p, sub) >= 0,
    decreases sub,
{
    if sub > 0 {
        lemma_first_node_is_even(p, sub - 1);
    }
}

/// The exit of every block has an incoming edge in the graph of the program:
/// the edge from the block's entry.
pub proof fn lemma_exit_has_incoming(p: ProgramView, sub: int, blk: int)
    requires
        p.fits(),
        p.has_block(sub, blk),
    ensures
        has_incoming(cfg_edges(p), end_node(p, sub, blk)),
{
    let nodes = cfg_nodes(p);
    let count = nodes.len() as int;
    lemma_block_nodes(p, sub, blk);
    lemma_first_node_is_even(p, sub);
    lemma_first_node_is_even(p, p.subs.len() as int);
    lemma_nodes_upto_len(p, p.subs.len() as int);
    let i = (end_node(p, sub, blk) - 1) / 2;
    lemma_block_edge_enters_exit(count / 2, i);
    lemma_has_incoming_concat(
        block_edges(count / 2),
        jump_edges_upto(p, nodes, count),
        end_node(p, sub, blk),
    );
    lemma_has_incoming_concat(
        block_edges(count / 2) + jump_edges_upto(p, nodes, count),
        return_edges_upto(p, nodes, call_records_upto(p, nodes, count), count),
        end_node(p, sub, blk),
    );
}

/// An edge that leaves the block whose exit is node `n` is among the jump
/// edges of every number of nodes beyond `n`.
pub proof fn lemma_jump_edges_upto_has_incoming(
    p: ProgramView,
    nodes: Seq<Node>,
    count: int,
    n: int,
    node: int,
)
    requires
        0 <= n < count,
        nodes[n] matches Node::BlkEnd { sub, blk } && has_incoming(
            block_jump_edges(p, sub as int, blk as int, n),
            node,
        ),
    ensures
        has_incoming(jump_edges_upto(p, nodes, count), node),
    decreases count,
{
    let last = match nodes[count - 1] {
        Node::BlkEnd { sub, blk } => block_jump_edges(p, sub as int, blk as int, count - 1),
        Node::BlkStart { .. } => Seq::empty(),
    };
    if n < count - 1 {
        lemma_jump_edges_upto_has_incoming(p, nodes, count - 1, n, node);
    }
    lemma_has_incoming_concat(jump_edges_upto(p, nodes, count - 1), last, node);
}

/// Whether jump `jmp` of the block at `(sub, blk)` is a branch, conditional
/// or not, to `target`, in a block that ends in one or two jumps.
pub open spec fn branches_to(p: ProgramView, sub: int, blk: int, jmp: int, target: Seq<char>) -> bool {
    &&& p.has_jump(sub, blk, jmp)
    &&& p.block(sub, blk).term.jmps.len() <= 2
    &&& match p.jump(sub, blk, jmp).term {
        JmpView::Branch(t) => t == target,
        JmpView::CBranch { target: t, .. } => t == target,
        _ => false,
    }
}

/// The block that a branch names has an incoming edge at its entry.
pub proof fn lemma_branch_target_has_incoming(
    p: ProgramView,
    sub: int,
    blk: int,
    jmp: int,
    target: Seq<char>,
)
    requires
        p.fits(),
        branches_to(p, sub, blk, jmp, target),
        first_with_tid(p.subs[sub].term.blocks, target) is Some,
    ensures
        has_incoming(
            cfg_edges(p),
            start_node(p, sub, first_with_tid(p.subs[sub].term.blocks, target)->0),
        ),
{
    let nodes = cfg_nodes(p);
    let count = nodes.len() as int;
    let from = end_node(p, sub, blk);
    let to = start_node(p, sub, first_with_tid(p.subs[sub].term.blocks, target)->0);
    lemma_block_nodes(p, sub, blk);
    let untaken = if jmp == 0 {
        None
    } else {
        Some(site(sub, blk, 0))
    };
    let own = jump_edges(p, sub, blk, jmp, from, untaken);
    assert(own[0].target == to);
    assert(has_incoming(own, to));
    let all = block_jump_edges(p, sub, blk, from);
    if p.block(sub, blk).term.jmps.len() == 2 {
        lemma_has_incoming_concat(
            jump_edges(p, sub, blk, 0, from, None),
            jump_edges(p, sub, blk, 1, from, Some(site(sub, blk, 0))),
            to,
        );
    }
    assert(has_incoming(all, to));
    lemma_jump_edges_upto_has_incoming(p, nodes, count, from, to);
    lemma_has_incoming_concat(block_edges(count / 2), jump_edges_upto(p, nodes, count), to);
    lemma_has_incoming_concat(
        block_edges(count / 2) + jump_edges_upto(p, nodes, count),
        return_edges_upto(p, nodes, call_records_upto(p, nodes, count), count),
        to,
    );
}

} // verus!
