use control_flow_propagation::cfg::{block_returns, get_program_cfg};
use control_flow_propagation::chain::{
    check_for_retargetable_block, find_target_for_retargetable_jump,
};
use control_flow_propagation::collections::{RetargetPlan, TidSet};
use control_flow_propagation::condition::negate_condition;
use control_flow_propagation::expression::{BinOpType, Expression, UnOpType, Variable};
use control_flow_propagation::graph::{Edge, JumpSite, Node};
use control_flow_propagation::orphans::{
    get_nodes_without_incoming_edge, remove_new_orphaned_blocks,
};
use control_flow_propagation::plan::plan_retargets;
use control_flow_propagation::precondition::{
    condition_of_edge, get_block_precondition_after_defs, get_precondition_from_incoming_edges,
    jump_at_site,
};
use control_flow_propagation::program::{Blk, Def, Jmp, Program, Project, Sub};
use control_flow_propagation::propagation::propagate_control_flow;
use control_flow_propagation::retarget::retarget_jumps;
use control_flow_propagation::term::{contains_tid, position_of, Term, Tid};
use control_flow_propagation::unique::jump_ids_are_unique;
use petgraph::graph::{EdgeIndex, NodeIndex};

fn zf() -> Expression {
    Expression::var("ZF", 1)
}

fn not(e: Expression) -> Expression {
    Expression::UnOp {
        op: UnOpType::BoolNegate,
        arg: Box::new(e),
    }
}

fn jump(name: &str, term: Jmp) -> Term<Jmp> {
    Term {
        tid: Tid::new(name),
        term,
    }
}

fn block(name: &str, defs: Vec<Term<Def>>, jmps: Vec<Term<Jmp>>) -> Term<Blk> {
    Term {
        tid: Tid::new(name),
        term: Blk {
            defs,
            jmps,
            indirect_jmp_targets: Vec::new(),
        },
    }
}

fn branch_block(name: &str, target: &str) -> Term<Blk> {
    block(
        name,
        Vec::new(),
        vec![jump(&format!("{name}_jmp"), Jmp::Branch(Tid::new(target)))],
    )
}

fn cond_block(name: &str, condition: Expression, if_target: &str, else_target: &str) -> Term<Blk> {
    block(
        name,
        Vec::new(),
        vec![
            jump(
                &format!("{name}_jmp_if"),
                Jmp::CBranch {
                    target: Tid::new(if_target),
                    condition,
                },
            ),
            jump(
                &format!("{name}_jmp_else"),
                Jmp::Branch(Tid::new(else_target)),
            ),
        ],
    )
}

fn assign(name: &str, var: &str, value: Expression) -> Term<Def> {
    Term {
        tid: Tid::new(name),
        term: Def::Assign {
            var: Variable::new(var, 4),
            value,
        },
    }
}

fn def_block(name: &str, var: &str, target: &str) -> Term<Blk> {
    block(
        name,
        vec![assign(&format!("{name}_def"), var, Expression::var("r1", 4))],
        vec![jump(&format!("{name}_jmp"), Jmp::Branch(Tid::new(target)))],
    )
}

fn ret_block(name: &str) -> Term<Blk> {
    block(
        name,
        Vec::new(),
        vec![jump(
            &format!("{name}_ret"),
            Jmp::Return(Expression::constant(0, 8)),
        )],
    )
}

fn sub(name: &str, blocks: Vec<Term<Blk>>) -> Term<Sub> {
    Term {
        tid: Tid::new(name),
        term: Sub {
            name: name.to_string(),
            blocks,
            calling_convention: None,
        },
    }
}

fn project(subs: Vec<Term<Sub>>, extern_symbols: Vec<Tid>) -> Project {
    Project {
        program: Term {
            tid: Tid::new("prog"),
            term: Program {
                subs,
                extern_symbols,
            },
        },
    }
}

fn block_names(project: &Project, sub: usize) -> Vec<String> {
    project.program.term.subs[sub]
        .term
        .blocks
        .iter()
        .map(|blk| blk.tid.id.clone())
        .collect()
}

fn site(sub: usize, blk: usize, jmp: usize) -> JumpSite {
    JumpSite { sub, blk, jmp }
}

#[test]
fn negation_wraps_a_plain_condition() {
    assert_eq!(negate_condition(zf()), not(zf()));
}

#[test]
fn negation_unwraps_a_negated_condition() {
    assert_eq!(negate_condition(not(zf())), zf());
}

#[test]
fn negation_twice_gives_the_condition_back() {
    assert_eq!(negate_condition(negate_condition(zf())), zf());
    assert_eq!(negate_condition(negate_condition(not(zf()))), not(zf()));
    let sum = Expression::BinOp {
        op: BinOpType::BoolAnd,
        lhs: Box::new(zf()),
        rhs: Box::new(not(Expression::var("CF", 1))),
    };
    let expected = Expression::BinOp {
        op: BinOpType::BoolAnd,
        lhs: Box::new(zf()),
        rhs: Box::new(not(Expression::var("CF", 1))),
    };
    assert_eq!(negate_condition(negate_condition(sum)), expected);
}

#[test]
fn negation_twice_strips_a_double_negation() {
    assert_eq!(negate_condition(negate_condition(not(not(zf())))), zf());
}

#[test]
fn negation_leaves_other_unary_operations_alone() {
    let minus = Expression::UnOp {
        op: UnOpType::IntNegate,
        arg: Box::new(zf()),
    };
    let expected = not(Expression::UnOp {
        op: UnOpType::IntNegate,
        arg: Box::new(zf()),
    });
    assert_eq!(negate_condition(minus), expected);
}

#[test]
fn expressions_compare_by_structure() {
    assert!(zf().same_as(&Expression::var("ZF", 1)));
    assert!(!zf().same_as(&Expression::var("ZF", 2)));
    assert!(!zf().same_as(&Expression::var("CF", 1)));
    assert!(!zf().same_as(&not(zf())));
    assert!(not(zf()).same_as(&not(zf())));
    assert!(Expression::constant(1, 4).same_as(&Expression::constant(1, 4)));
    assert!(!Expression::constant(1, 4).same_as(&Expression::constant(2, 4)));
    assert!(zf().clone().same_as(&zf()));
}

#[test]
fn expression_reads_its_variables() {
    let e = Expression::BinOp {
        op: BinOpType::IntAdd,
        lhs: Box::new(Expression::var("r0", 4)),
        rhs: Box::new(not(Expression::var("r2", 4))),
    };
    assert!(e.reads(&Variable::new("r0", 4)));
    assert!(e.reads(&Variable::new("r2", 4)));
    assert!(!e.reads(&Variable::new("r1", 4)));
    assert!(!e.reads(&Variable::new("r0", 8)));
    assert!(!Expression::constant(3, 4).reads(&Variable::new("r0", 4)));
}

#[test]
fn position_of_finds_the_first_term() {
    let blocks = vec![
        branch_block("a", "b"),
        branch_block("b", "c"),
        branch_block("b", "d"),
    ];
    assert_eq!(position_of(&blocks, &Tid::new("a")), Some(0));
    assert_eq!(position_of(&blocks, &Tid::new("b")), Some(1));
    assert_eq!(position_of(&blocks, &Tid::new("c")), None);
    let tids = vec![Tid::new("x"), Tid::new("y")];
    assert!(contains_tid(&tids, &Tid::new("y")));
    assert!(!contains_tid(&tids, &Tid::new("z")));
}

#[test]
fn block_with_definitions_is_not_skipped() {
    let blk = def_block("blk", "r0", "next");
    assert_eq!(check_for_retargetable_block(&blk, &[]), None);
    assert_eq!(check_for_retargetable_block(&blk, &[zf()]), None);
}

#[test]
fn single_branch_is_skipped_to_its_target() {
    let blk = branch_block("blk", "next");
    assert_eq!(
        check_for_retargetable_block(&blk, &[]),
        Some(&Tid::new("next"))
    );
}

#[test]
fn conditional_branch_is_decided_by_a_known_condition() {
    let blk = cond_block("blk", zf(), "yes", "no");
    assert_eq!(check_for_retargetable_block(&blk, &[]), None);
    assert_eq!(
        check_for_retargetable_block(&blk, &[Expression::var("CF", 1)]),
        None
    );
    assert_eq!(
        check_for_retargetable_block(&blk, &[zf()]),
        Some(&Tid::new("yes"))
    );
    assert_eq!(
        check_for_retargetable_block(&blk, &[not(zf())]),
        Some(&Tid::new("no"))
    );
    assert_eq!(
        check_for_retargetable_block(&blk, &[Expression::var("CF", 1), not(zf())]),
        Some(&Tid::new("no"))
    );
}

#[test]
fn first_deciding_condition_wins() {
    let blk = cond_block("blk", zf(), "yes", "no");
    assert_eq!(
        check_for_retargetable_block(&blk, &[not(zf()), zf()]),
        Some(&Tid::new("no"))
    );
    assert_eq!(
        check_for_retargetable_block(&blk, &[zf(), not(zf())]),
        Some(&Tid::new("yes"))
    );
}

#[test]
fn negated_branch_condition_is_matched_by_its_canonical_negation() {
    let blk = cond_block("blk", not(zf()), "yes", "no");
    assert_eq!(
        check_for_retargetable_block(&blk, &[zf()]),
        Some(&Tid::new("no"))
    );
    assert_eq!(
        check_for_retargetable_block(&blk, &[not(zf())]),
        Some(&Tid::new("yes"))
    );
    let doubled = cond_block("blk", not(not(zf())), "yes", "no");
    assert_eq!(
        check_for_retargetable_block(&doubled, &[not(zf())]),
        Some(&Tid::new("no"))
    );
    assert_eq!(check_for_retargetable_block(&doubled, &[zf()]), None);
}

#[test]
fn other_block_shapes_are_not_skipped() {
    let ret = ret_block("blk");
    assert_eq!(check_for_retargetable_block(&ret, &[zf()]), None);
    let call = block(
        "blk",
        Vec::new(),
        vec![jump(
            "call",
            Jmp::Call {
                target: Tid::new("f"),
                return_: Some(Tid::new("next")),
            },
        )],
    );
    assert_eq!(check_for_retargetable_block(&call, &[zf()]), None);
    let lone_conditional = block(
        "blk",
        Vec::new(),
        vec![jump(
            "c",
            Jmp::CBranch {
                target: Tid::new("next"),
                condition: zf(),
            },
        )],
    );
    assert_eq!(
        check_for_retargetable_block(&lone_conditional, &[zf()]),
        None
    );
    let empty = block("blk", Vec::new(), Vec::new());
    assert_eq!(check_for_retargetable_block(&empty, &[zf()]), None);
    let three = block(
        "blk",
        Vec::new(),
        vec![
            jump("j1", Jmp::Branch(Tid::new("a"))),
            jump("j2", Jmp::Branch(Tid::new("b"))),
            jump("j3", Jmp::Branch(Tid::new("c"))),
        ],
    );
    assert_eq!(check_for_retargetable_block(&three, &[zf()]), None);
}

#[test]
fn chain_is_followed_to_its_end() {
    let s = sub(
        "s",
        vec![
            branch_block("a", "b"),
            cond_block("b", zf(), "c", "x"),
            branch_block("c", "d"),
            def_block("d", "r0", "a"),
            def_block("x", "r0", "x"),
        ],
    );
    assert_eq!(
        find_target_for_retargetable_jump(&Tid::new("a"), &s.term, &[zf()]),
        Some(Tid::new("d"))
    );
    assert_eq!(
        find_target_for_retargetable_jump(&Tid::new("a"), &s.term, &[not(zf())]),
        Some(Tid::new("x"))
    );
    assert_eq!(
        find_target_for_retargetable_jump(&Tid::new("a"), &s.term, &[]),
        Some(Tid::new("b"))
    );
    assert_eq!(
        find_target_for_retargetable_jump(&Tid::new("d"), &s.term, &[zf()]),
        None
    );
}

#[test]
fn chain_stops_at_an_unknown_target() {
    let s = sub("s", vec![branch_block("a", "elsewhere")]);
    assert_eq!(
        find_target_for_retargetable_jump(&Tid::new("a"), &s.term, &[]),
        Some(Tid::new("elsewhere"))
    );
    assert_eq!(
        find_target_for_retargetable_jump(&Tid::new("elsewhere"), &s.term, &[]),
        None
    );
}

#[test]
fn chain_through_a_cycle_ends() {
    let s = sub(
        "s",
        vec![
            branch_block("a", "b"),
            branch_block("b", "c"),
            branch_block("c", "a"),
        ],
    );
    assert_eq!(
        find_target_for_retargetable_jump(&Tid::new("a"), &s.term, &[]),
        Some(Tid::new("c"))
    );
    assert_eq!(
        find_target_for_retargetable_jump(&Tid::new("b"), &s.term, &[]),
        Some(Tid::new("a"))
    );
    let self_loop = sub("s", vec![branch_block("a", "a")]);
    assert_eq!(
        find_target_for_retargetable_jump(&Tid::new("a"), &self_loop.term, &[]),
        None
    );
    let lasso = sub(
        "s",
        vec![
            branch_block("a", "b"),
            branch_block("b", "c"),
            branch_block("c", "b"),
        ],
    );
    assert_eq!(
        find_target_for_retargetable_jump(&Tid::new("a"), &lasso.term, &[]),
        Some(Tid::new("c"))
    );
}

#[test]
fn resolved_end_without_successor_resolves_to_nothing() {
    let s = sub(
        "s",
        vec![
            branch_block("a", "b"),
            branch_block("b", "c"),
            def_block("c", "r0", "a"),
        ],
    );
    let end = find_target_for_retargetable_jump(&Tid::new("a"), &s.term, &[]).unwrap();
    assert_eq!(end, Tid::new("c"));
    assert_eq!(find_target_for_retargetable_jump(&end, &s.term, &[]), None);
}

fn call_program() -> Project {
    project(
        vec![
            sub(
                "sub_1",
                vec![
                    block(
                        "call_blk",
                        Vec::new(),
                        vec![jump(
                            "call",
                            Jmp::Call {
                                target: Tid::new("sub_2"),
                                return_: Some(Tid::new("jump_blk")),
                            },
                        )],
                    ),
                    branch_block("jump_blk", "end_blk"),
                    def_block("end_blk", "r0", "end_blk"),
                ],
            ),
            sub("sub_2", vec![ret_block("ret_blk")]),
        ],
        Vec::new(),
    )
}

#[test]
fn graph_has_two_nodes_for_each_block() {
    let project = call_program();
    let cfg = get_program_cfg(&project.program);
    assert_eq!(cfg.node_count(), 8);
    let expected = [
        Node::BlkStart { sub: 0, blk: 0 },
        Node::BlkEnd { sub: 0, blk: 0 },
        Node::BlkStart { sub: 0, blk: 1 },
        Node::BlkEnd { sub: 0, blk: 1 },
        Node::BlkStart { sub: 0, blk: 2 },
        Node::BlkEnd { sub: 0, blk: 2 },
        Node::BlkStart { sub: 1, blk: 0 },
        Node::BlkEnd { sub: 1, blk: 0 },
    ];
    for (i, node) in expected.iter().enumerate() {
        assert_eq!(cfg[NodeIndex::new(i)], *node);
    }
}

#[test]
fn graph_edges_come_in_the_order_of_their_kinds() {
    let project = call_program();
    let cfg = get_program_cfg(&project.program);
    let expected = [
        (0, 1, Edge::Block),
        (2, 3, Edge::Block),
        (4, 5, Edge::Block),
        (6, 7, Edge::Block),
        (1, 6, Edge::Call(site(0, 0, 0))),
        (3, 4, Edge::Jump(site(0, 1, 0), None)),
        (5, 4, Edge::Jump(site(0, 2, 0), None)),
        (7, 2, Edge::ReturnCombine(site(0, 0, 0))),
    ];
    assert_eq!(cfg.edge_count(), expected.len());
    for (i, (source, target, weight)) in expected.iter().enumerate() {
        let (a, b) = cfg.edge_endpoints(EdgeIndex::new(i)).unwrap();
        assert_eq!((a.index(), b.index()), (*source, *target));
        assert_eq!(cfg[EdgeIndex::new(i)], *weight);
    }
}

#[test]
fn graph_of_a_conditional_block_marks_the_untaken_jump() {
    let project = project(
        vec![sub(
            "s",
            vec![
                cond_block("a", zf(), "b", "c"),
                def_block("b", "r0", "c"),
                def_block("c", "r0", "c"),
            ],
        )],
        Vec::new(),
    );
    let cfg = get_program_cfg(&project.program);
    let expected = [
        (0, 1, Edge::Block),
        (2, 3, Edge::Block),
        (4, 5, Edge::Block),
        (1, 2, Edge::Jump(site(0, 0, 0), None)),
        (1, 4, Edge::Jump(site(0, 0, 1), Some(site(0, 0, 0)))),
        (3, 4, Edge::Jump(site(0, 1, 0), None)),
        (5, 4, Edge::Jump(site(0, 2, 0), None)),
    ];
    assert_eq!(cfg.edge_count(), expected.len());
    for (i, (source, target, weight)) in expected.iter().enumerate() {
        let (a, b) = cfg.edge_endpoints(EdgeIndex::new(i)).unwrap();
        assert_eq!((a.index(), b.index()), (*source, *target));
        assert_eq!(cfg[EdgeIndex::new(i)], *weight);
    }
}

#[test]
fn graph_of_extern_and_indirect_calls_and_jumps() {
    let mut indirect = block(
        "ind",
        Vec::new(),
        vec![jump("ind_jmp", Jmp::BranchInd(Expression::var("r3", 4)))],
    );
    indirect.term.indirect_jmp_targets = vec![Tid::new("ext"), Tid::new("nowhere"), Tid::new("ind")];
    let project = project(
        vec![sub(
            "s",
            vec![
                indirect,
                block(
                    "ext",
                    Vec::new(),
                    vec![jump(
                        "ext_call",
                        Jmp::Call {
                            target: Tid::new("printf"),
                            return_: Some(Tid::new("other")),
                        },
                    )],
                ),
                block(
                    "other",
                    Vec::new(),
                    vec![jump(
                        "other_call",
                        Jmp::CallOther {
                            description: "fence".to_string(),
                            return_: Some(Tid::new("callind")),
                        },
                    )],
                ),
                block(
                    "callind",
                    Vec::new(),
                    vec![jump(
                        "callind_call",
                        Jmp::CallInd {
                            target: Expression::var("r4", 4),
                            return_: None,
                        },
                    )],
                ),
                block(
                    "unknown",
                    Vec::new(),
                    vec![jump(
                        "unknown_call",
                        Jmp::Call {
                            target: Tid::new("missing"),
                            return_: Some(Tid::new("ind")),
                        },
                    )],
                ),
            ],
        )],
        vec![Tid::new("printf")],
    );
    let cfg = get_program_cfg(&project.program);
    let expected = [
        (0, 1, Edge::Block),
        (2, 3, Edge::Block),
        (4, 5, Edge::Block),
        (6, 7, Edge::Block),
        (8, 9, Edge::Block),
        (1, 2, Edge::Jump(site(0, 0, 0), None)),
        (1, 0, Edge::Jump(site(0, 0, 0), None)),
        (3, 4, Edge::ExternCallStub(site(0, 1, 0))),
        (5, 6, Edge::ExternCallStub(site(0, 2, 0))),
    ];
    assert_eq!(cfg.edge_count(), expected.len());
    for (i, (source, target, weight)) in expected.iter().enumerate() {
        let (a, b) = cfg.edge_endpoints(EdgeIndex::new(i)).unwrap();
        assert_eq!((a.index(), b.index()), (*source, *target));
        assert_eq!(cfg[EdgeIndex::new(i)], *weight);
    }
}

#[test]
fn graph_has_a_return_edge_for_each_returning_block_and_call() {
    let call = |name: &str, ret: &str| {
        block(
            name,
            Vec::new(),
            vec![jump(
                &format!("{name}_call"),
                Jmp::Call {
                    target: Tid::new("callee"),
                    return_: Some(Tid::new(ret)),
                },
            )],
        )
    };
    let project = project(
        vec![
            sub(
                "caller",
                vec![call("c1", "c2"), call("c2", "end"), ret_block("end")],
            ),
            sub(
                "callee",
                vec![
                    cond_block("entry", zf(), "r1", "r2"),
                    ret_block("r1"),
                    ret_block("r2"),
                ],
            ),
        ],
        Vec::new(),
    );
    let cfg = get_program_cfg(&project.program);
    let expected = [
        (0, 1, Edge::Block),
        (2, 3, Edge::Block),
        (4, 5, Edge::Block),
        (6, 7, Edge::Block),
        (8, 9, Edge::Block),
        (10, 11, Edge::Block),
        (1, 6, Edge::Call(site(0, 0, 0))),
        (3, 6, Edge::Call(site(0, 1, 0))),
        (7, 8, Edge::Jump(site(1, 0, 0), None)),
        (7, 10, Edge::Jump(site(1, 0, 1), Some(site(1, 0, 0)))),
        (9, 2, Edge::ReturnCombine(site(0, 0, 0))),
        (9, 4, Edge::ReturnCombine(site(0, 1, 0))),
        (11, 2, Edge::ReturnCombine(site(0, 0, 0))),
        (11, 4, Edge::ReturnCombine(site(0, 1, 0))),
    ];
    assert_eq!(cfg.edge_count(), expected.len());
    for (i, (source, target, weight)) in expected.iter().enumerate() {
        let (a, b) = cfg.edge_endpoints(EdgeIndex::new(i)).unwrap();
        assert_eq!((a.index(), b.index()), (*source, *target));
        assert_eq!(cfg[EdgeIndex::new(i)], *weight);
    }
}

#[test]
fn graph_of_an_empty_program_is_empty() {
    let project = project(Vec::new(), Vec::new());
    let cfg = get_program_cfg(&project.program);
    assert_eq!(cfg.node_count(), 0);
    assert_eq!(cfg.edge_count(), 0);
    let with_empty_sub = self::project(vec![sub("s", Vec::new())], Vec::new());
    let cfg = get_program_cfg(&with_empty_sub.program);
    assert_eq!(cfg.node_count(), 0);
}

#[test]
fn jump_is_found_at_its_site() {
    let project = call_program();
    let program = &project.program.term;
    assert_eq!(
        jump_at_site(program, site(0, 1, 0)).map(|j| j.tid.clone()),
        Some(Tid::new("jump_blk_jmp"))
    );
    assert!(jump_at_site(program, site(0, 1, 1)).is_none());
    assert!(jump_at_site(program, site(0, 3, 0)).is_none());
    assert!(jump_at_site(program, site(2, 0, 0)).is_none());
}

#[test]
fn condition_of_an_edge() {
    let project = project(
        vec![sub(
            "s",
            vec![
                cond_block("a", zf(), "b", "c"),
                branch_block("b", "c"),
                def_block("c", "r0", "c"),
            ],
        )],
        Vec::new(),
    );
    let program = &project.program.term;
    assert_eq!(
        condition_of_edge(program, Edge::Jump(site(0, 0, 0), None)),
        Some(zf())
    );
    assert_eq!(
        condition_of_edge(program, Edge::Jump(site(0, 0, 1), Some(site(0, 0, 0)))),
        Some(not(zf()))
    );
    assert_eq!(
        condition_of_edge(program, Edge::Jump(site(0, 1, 0), None)),
        None
    );
    assert_eq!(
        condition_of_edge(program, Edge::Jump(site(0, 0, 1), None)),
        None
    );
    assert_eq!(
        condition_of_edge(program, Edge::Jump(site(0, 0, 0), Some(site(0, 0, 0)))),
        None
    );
    assert_eq!(
        condition_of_edge(program, Edge::Jump(site(0, 0, 1), Some(site(0, 1, 0)))),
        None
    );
    assert_eq!(
        condition_of_edge(program, Edge::Jump(site(0, 9, 0), None)),
        None
    );
    assert_eq!(condition_of_edge(program, Edge::Block), None);
    assert_eq!(condition_of_edge(program, Edge::Call(site(0, 0, 0))), None);
}

fn diamond(second_condition_swapped: bool) -> Project {
    let second = if second_condition_swapped {
        cond_block("a2", zf(), "end", "m")
    } else {
        cond_block("a2", zf(), "m", "end")
    };
    project(
        vec![sub(
            "s",
            vec![
                cond_block("entry", Expression::var("CF", 1), "a1", "a2"),
                cond_block("a1", zf(), "m", "end"),
                second,
                def_block("m", "r0", "end"),
                def_block("end", "r0", "end"),
            ],
        )],
        Vec::new(),
    )
}

#[test]
fn shared_condition_of_all_incoming_edges_is_the_precondition() {
    let project = diamond(false);
    let cfg = get_program_cfg(&project.program);
    let program = &project.program.term;
    // node 6 is the entry of block `m`
    assert_eq!(
        get_precondition_from_incoming_edges(program, &cfg, 6),
        Some(zf())
    );
    // `a1` is entered by the taken side, `a2` by the other side of `entry`
    assert_eq!(
        get_precondition_from_incoming_edges(program, &cfg, 2),
        Some(Expression::var("CF", 1))
    );
    assert_eq!(
        get_precondition_from_incoming_edges(program, &cfg, 4),
        Some(not(Expression::var("CF", 1)))
    );
}

#[test]
fn differing_conditions_give_no_precondition() {
    let project = diamond(true);
    let cfg = get_program_cfg(&project.program);
    let program = &project.program.term;
    assert_eq!(get_precondition_from_incoming_edges(program, &cfg, 6), None);
}

#[test]
fn node_without_incoming_edges_has_no_precondition() {
    let project = diamond(false);
    let cfg = get_program_cfg(&project.program);
    let program = &project.program.term;
    assert_eq!(get_precondition_from_incoming_edges(program, &cfg, 0), None);
}

#[test]
fn unconditional_incoming_edge_gives_no_precondition() {
    let project = diamond(false);
    let cfg = get_program_cfg(&project.program);
    let program = &project.program.term;
    // `end` is reached from `m` by a plain branch, among others
    assert_eq!(get_precondition_from_incoming_edges(program, &cfg, 8), None);
    // the exit of a block is reached by the edge from its entry
    assert_eq!(get_precondition_from_incoming_edges(program, &cfg, 7), None);
}

fn precondition_program(defs: Vec<Term<Def>>) -> Project {
    project(
        vec![sub(
            "s",
            vec![
                cond_block("entry", zf(), "m", "end"),
                block(
                    "m",
                    defs,
                    vec![jump("m_jmp", Jmp::Branch(Tid::new("end")))],
                ),
                def_block("end", "r0", "end"),
            ],
        )],
        Vec::new(),
    )
}

#[test]
fn precondition_survives_definitions_of_other_variables() {
    let project = precondition_program(vec![
        assign("d1", "r0", zf()),
        Term {
            tid: Tid::new("d2"),
            term: Def::Store {
                address: zf(),
                value: zf(),
            },
        },
        Term {
            tid: Tid::new("d3"),
            term: Def::Load {
                var: Variable::new("r5", 4),
                address: zf(),
            },
        },
    ]);
    let cfg = get_program_cfg(&project.program);
    assert_eq!(
        get_block_precondition_after_defs(&project.program.term, &cfg, 2),
        Some(zf())
    );
}

#[test]
fn precondition_is_lost_when_its_variable_is_assigned() {
    let mut overwrite = assign("d1", "ZF", Expression::constant(0, 1));
    if let Def::Assign { var, .. } = &mut overwrite.term {
        var.size = 1;
    }
    let project = precondition_program(vec![assign("d0", "r0", zf()), overwrite]);
    let cfg = get_program_cfg(&project.program);
    assert_eq!(
        get_block_precondition_after_defs(&project.program.term, &cfg, 2),
        None
    );
}

#[test]
fn precondition_is_lost_when_its_variable_is_loaded() {
    let project = precondition_program(vec![Term {
        tid: Tid::new("d1"),
        term: Def::Load {
            var: Variable::new("ZF", 1),
            address: Expression::var("r0", 4),
        },
    }]);
    let cfg = get_program_cfg(&project.program);
    assert_eq!(
        get_block_precondition_after_defs(&project.program.term, &cfg, 2),
        None
    );
}

#[test]
fn first_block_and_exit_nodes_have_no_precondition() {
    let looping = project(
        vec![sub(
            "s",
            vec![
                cond_block("entry", zf(), "entry", "end"),
                def_block("end", "r0", "end"),
            ],
        )],
        Vec::new(),
    );
    let cfg = get_program_cfg(&looping.program);
    let program = &looping.program.term;
    assert_eq!(
        get_precondition_from_incoming_edges(program, &cfg, 0),
        Some(zf())
    );
    assert_eq!(get_block_precondition_after_defs(program, &cfg, 0), None);
    assert_eq!(get_block_precondition_after_defs(program, &cfg, 1), None);
}

#[test]
fn blocks_without_incoming_edge_are_found() {
    let project = call_program();
    let cfg = get_program_cfg(&project.program);
    let orphans = get_nodes_without_incoming_edge(&project.program.term, &cfg);
    assert!(orphans.contains(&Tid::new("call_blk")));
    assert!(!orphans.contains(&Tid::new("jump_blk")));
    assert!(!orphans.contains(&Tid::new("end_blk")));
    assert!(!orphans.contains(&Tid::new("ret_blk")));
}

#[test]
fn tid_set_holds_what_was_inserted() {
    let mut set = TidSet::new();
    assert!(!set.contains(&Tid::new("a")));
    set.insert(Tid::new("a"));
    set.insert(Tid::new("b"));
    set.insert(Tid::new("a"));
    assert!(set.contains(&Tid::new("a")));
    assert!(set.contains(&Tid::new("b")));
    assert!(!set.contains(&Tid::new("c")));
}

#[test]
fn retarget_plan_is_a_map() {
    let mut plan = RetargetPlan::new();
    assert_eq!(plan.get(&Tid::new("j")), None);
    plan.insert(Tid::new("j"), Tid::new("a"));
    plan.insert(Tid::new("k"), Tid::new("b"));
    assert_eq!(plan.get(&Tid::new("j")), Some(&Tid::new("a")));
    plan.insert(Tid::new("j"), Tid::new("c"));
    assert_eq!(plan.get(&Tid::new("j")), Some(&Tid::new("c")));
    assert_eq!(plan.get(&Tid::new("k")), Some(&Tid::new("b")));
    assert_eq!(plan.remove(&Tid::new("j")), Some(Tid::new("c")));
    assert_eq!(plan.remove(&Tid::new("j")), None);
    assert_eq!(plan.get(&Tid::new("j")), None);
    assert_eq!(plan.get(&Tid::new("k")), Some(&Tid::new("b")));
}

#[test]
fn plan_holds_the_new_target_of_each_movable_jump() {
    let project = project(
        vec![sub(
            "sub",
            vec![
                cond_block("cond_blk_1", zf(), "def_blk_1", "cond_blk_2"),
                def_block("def_blk_1", "r0", "cond_blk_2"),
                cond_block("cond_blk_2", zf(), "def_blk_2", "end_blk"),
                def_block("def_blk_2", "r0", "end_blk"),
                def_block("end_blk", "r0", "end_blk"),
            ],
        )],
        Vec::new(),
    );
    assert!(jump_ids_are_unique(&project.program.term));
    let cfg = get_program_cfg(&project.program);
    let plan = plan_retargets(&project.program.term, &cfg);
    assert_eq!(
        plan.get(&Tid::new("cond_blk_1_jmp_else")),
        Some(&Tid::new("end_blk"))
    );
    assert_eq!(
        plan.get(&Tid::new("def_blk_1_jmp")),
        Some(&Tid::new("def_blk_2"))
    );
    assert_eq!(plan.get(&Tid::new("cond_blk_1_jmp_if")), None);
    assert_eq!(plan.get(&Tid::new("cond_blk_2_jmp_if")), None);
    assert_eq!(plan.get(&Tid::new("cond_blk_2_jmp_else")), None);
    assert_eq!(plan.get(&Tid::new("def_blk_2_jmp")), None);
    assert_eq!(plan.get(&Tid::new("end_blk_jmp")), None);
    assert_eq!(plan.entries.len(), 2);
}

#[test]
fn every_kind_of_target_is_rewritten() {
    let mut project = project(
        vec![sub(
            "s",
            vec![
                branch_block("a", "x"),
                cond_block("b", zf(), "x", "y"),
                block(
                    "c",
                    Vec::new(),
                    vec![jump(
                        "c_call",
                        Jmp::Call {
                            target: Tid::new("f"),
                            return_: Some(Tid::new("x")),
                        },
                    )],
                ),
                block(
                    "d",
                    Vec::new(),
                    vec![jump(
                        "d_call",
                        Jmp::CallInd {
                            target: zf(),
                            return_: Some(Tid::new("x")),
                        },
                    )],
                ),
                block(
                    "e",
                    Vec::new(),
                    vec![jump(
                        "e_call",
                        Jmp::CallOther {
                            description: "nop".to_string(),
                            return_: Some(Tid::new("x")),
                        },
                    )],
                ),
                ret_block("r"),
            ],
        )],
        Vec::new(),
    );
    let mut plan = RetargetPlan::new();
    for name in ["a_jmp", "b_jmp_if", "c_call", "d_call", "e_call"] {
        plan.insert(Tid::new(name), Tid::new("new"));
    }
    plan.insert(Tid::new("not_a_jump"), Tid::new("new"));
    retarget_jumps(&mut project, plan);
    let blocks = &project.program.term.subs[0].term.blocks;
    assert_eq!(blocks[0], branch_block("a", "new"));
    assert_eq!(blocks[1], cond_block("b", zf(), "new", "y"));
    assert_eq!(
        blocks[2].term.jmps[0].term,
        Jmp::Call {
            target: Tid::new("f"),
            return_: Some(Tid::new("new")),
        }
    );
    assert_eq!(
        blocks[3].term.jmps[0].term,
        Jmp::CallInd {
            target: zf(),
            return_: Some(Tid::new("new")),
        }
    );
    assert_eq!(
        blocks[4].term.jmps[0].term,
        Jmp::CallOther {
            description: "nop".to_string(),
            return_: Some(Tid::new("new")),
        }
    );
    assert_eq!(blocks[5], ret_block("r"));
}

#[test]
fn only_new_orphans_are_removed() {
    let mut project = project(
        vec![
            sub(
                "s1",
                vec![
                    branch_block("a", "b"),
                    branch_block("b", "c"),
                    branch_block("c", "d"),
                    branch_block("d", "a"),
                ],
            ),
            sub("s2", vec![branch_block("b", "b"), branch_block("e", "e")]),
        ],
        Vec::new(),
    );
    let mut before = TidSet::new();
    before.insert(Tid::new("a"));
    before.insert(Tid::new("z"));
    let mut after = TidSet::new();
    after.insert(Tid::new("a"));
    after.insert(Tid::new("b"));
    after.insert(Tid::new("d"));
    remove_new_orphaned_blocks(&mut project, before, after);
    assert_eq!(block_names(&project, 0), vec!["a", "c"]);
    assert_eq!(block_names(&project, 1), vec!["e"]);
}

#[test]
fn unique_jump_ids_are_recognized() {
    assert!(jump_ids_are_unique(&call_program().program.term));
    assert!(jump_ids_are_unique(&project(Vec::new(), Vec::new()).program.term));
    let same_block = project(
        vec![sub(
            "s",
            vec![block(
                "a",
                Vec::new(),
                vec![
                    jump("j", Jmp::Branch(Tid::new("a"))),
                    jump("j", Jmp::Branch(Tid::new("a"))),
                ],
            )],
        )],
        Vec::new(),
    );
    assert!(!jump_ids_are_unique(&same_block.program.term));
    let other_sub = project(
        vec![
            sub("s", vec![branch_block("a", "a"), ret_block("b")]),
            sub("t", vec![ret_block("c"), branch_block("a", "c")]),
        ],
        Vec::new(),
    );
    assert!(!jump_ids_are_unique(&other_sub.program.term));
}

#[test]
fn blocks_that_were_unreachable_before_stay() {
    let mut project = project(
        vec![sub(
            "s",
            vec![
                branch_block("entry", "hop"),
                branch_block("hop", "end"),
                branch_block("dead", "hop_2"),
                branch_block("hop_2", "end"),
                def_block("end", "r0", "end"),
            ],
        )],
        Vec::new(),
    );
    propagate_control_flow(&mut project);
    assert_eq!(block_names(&project, 0), vec!["entry", "dead", "end"]);
    let blocks = &project.program.term.subs[0].term.blocks;
    assert_eq!(blocks[0], branch_block("entry", "end"));
    assert_eq!(blocks[1], branch_block("dead", "end"));
}

#[test]
fn second_run_changes_nothing_here() {
    let mut project = project(
        vec![sub(
            "sub",
            vec![
                cond_block("cond_blk_1", zf(), "def_blk_1", "cond_blk_2"),
                def_block("def_blk_1", "r0", "cond_blk_2"),
                cond_block("cond_blk_2", zf(), "def_blk_2", "cond_blk_3"),
                def_block("def_blk_2", "r0", "cond_blk_3"),
                cond_block("cond_blk_3", zf(), "def_blk_3", "end_blk"),
                def_block("def_blk_3", "r0", "end_blk"),
                def_block("end_blk", "r0", "end_blk"),
            ],
        )],
        Vec::new(),
    );
    propagate_control_flow(&mut project);
    let once = project.clone();
    let cfg = get_program_cfg(&project.program);
    assert_eq!(plan_retargets(&project.program.term, &cfg).entries.len(), 0);
    propagate_control_flow(&mut project);
    assert_eq!(project, once);
}

#[test]
fn second_run_finds_more_after_a_deletion() {
    let d = || Expression::var("d", 1);
    let mut project = project(
        vec![sub(
            "s",
            vec![
                cond_block("entry", d(), "a", "b"),
                branch_block("a", "m"),
                block(
                    "b",
                    vec![assign("b_def", "r0", Expression::var("r1", 4))],
                    vec![
                        jump(
                            "b_jmp_if",
                            Jmp::CBranch {
                                target: Tid::new("m"),
                                condition: d(),
                            },
                        ),
                        jump("b_jmp_else", Jmp::Branch(Tid::new("e"))),
                    ],
                ),
                def_block("m", "r0", "f"),
                cond_block("f", d(), "g", "h"),
                def_block("e", "r0", "e"),
                def_block("g", "r0", "g"),
                def_block("h", "r0", "h"),
            ],
        )],
        Vec::new(),
    );
    propagate_control_flow(&mut project);
    assert_eq!(
        block_names(&project, 0),
        vec!["entry", "b", "m", "f", "e", "g", "h"]
    );
    assert_eq!(
        project.program.term.subs[0].term.blocks[2],
        def_block("m", "r0", "f")
    );
    propagate_control_flow(&mut project);
    assert_eq!(
        block_names(&project, 0),
        vec!["entry", "b", "m", "e", "g", "h"]
    );
    assert_eq!(
        project.program.term.subs[0].term.blocks[2],
        def_block("m", "r0", "g")
    );
}

#[test]
fn return_of_an_extern_call_is_moved_past_branches() {
    let mut project = project(
        vec![sub(
            "s",
            vec![
                block(
                    "call_blk",
                    Vec::new(),
                    vec![jump(
                        "call",
                        Jmp::Call {
                            target: Tid::new("printf"),
                            return_: Some(Tid::new("hop")),
                        },
                    )],
                ),
                branch_block("hop", "end"),
                def_block("end", "r0", "end"),
            ],
        )],
        vec![Tid::new("printf")],
    );
    propagate_control_flow(&mut project);
    assert_eq!(block_names(&project, 0), vec!["call_blk", "end"]);
    assert_eq!(
        project.program.term.subs[0].term.blocks[0].term.jmps[0].term,
        Jmp::Call {
            target: Tid::new("printf"),
            return_: Some(Tid::new("end")),
        }
    );
}

#[test]
fn return_of_indirect_and_other_calls_is_moved_past_branches() {
    let mut project = project(
        vec![sub(
            "s",
            vec![
                block(
                    "c1",
                    Vec::new(),
                    vec![jump(
                        "c1_call",
                        Jmp::CallInd {
                            target: Expression::var("r3", 4),
                            return_: Some(Tid::new("hop_1")),
                        },
                    )],
                ),
                branch_block("hop_1", "c2"),
                block(
                    "c2",
                    Vec::new(),
                    vec![jump(
                        "c2_call",
                        Jmp::CallOther {
                            description: "fence".to_string(),
                            return_: Some(Tid::new("hop_2")),
                        },
                    )],
                ),
                cond_block("hop_2", zf(), "end", "c1"),
                def_block("end", "r0", "end"),
            ],
        )],
        Vec::new(),
    );
    propagate_control_flow(&mut project);
    assert_eq!(block_names(&project, 0), vec!["c1", "c2", "hop_2", "end"]);
    assert_eq!(
        project.program.term.subs[0].term.blocks[0].term.jmps[0].term,
        Jmp::CallInd {
            target: Expression::var("r3", 4),
            return_: Some(Tid::new("c2")),
        }
    );
    assert_eq!(
        project.program.term.subs[0].term.blocks[1].term.jmps[0].term,
        Jmp::CallOther {
            description: "fence".to_string(),
            return_: Some(Tid::new("hop_2")),
        }
    );
}

#[test]
fn call_without_return_is_left_alone() {
    let mut project = project(
        vec![
            sub(
                "s",
                vec![
                    block(
                        "c",
                        Vec::new(),
                        vec![jump(
                            "c_call",
                            Jmp::Call {
                                target: Tid::new("t"),
                                return_: None,
                            },
                        )],
                    ),
                    branch_block("hop", "c"),
                ],
            ),
            sub("t", vec![ret_block("r")]),
        ],
        Vec::new(),
    );
    let before = project.clone();
    propagate_control_flow(&mut project);
    assert_eq!(project, before);
}

#[test]
fn precondition_is_not_used_across_an_overwrite() {
    let mut overwrite = assign("m_def", "ZF", Expression::constant(0, 1));
    if let Def::Assign { var, .. } = &mut overwrite.term {
        var.size = 1;
    }
    let mut project = project(
        vec![sub(
            "s",
            vec![
                cond_block("entry", zf(), "m", "end_1"),
                block(
                    "m",
                    vec![overwrite],
                    vec![jump("m_jmp", Jmp::Branch(Tid::new("c")))],
                ),
                cond_block("c", zf(), "end_2", "end_1"),
                def_block("end_1", "r0", "end_1"),
                def_block("end_2", "r0", "end_2"),
            ],
        )],
        Vec::new(),
    );
    let before = project.clone();
    propagate_control_flow(&mut project);
    assert_eq!(project, before);
}

#[test]
fn program_in_a_cycle_of_branches_is_handled() {
    let mut project = project(
        vec![sub(
            "s",
            vec![
                branch_block("a", "b"),
                branch_block("b", "c"),
                branch_block("c", "a"),
            ],
        )],
        Vec::new(),
    );
    propagate_control_flow(&mut project);
    let blocks = &project.program.term.subs[0].term.blocks;
    assert_eq!(block_names(&project, 0), vec!["a", "b", "c"]);
    assert_eq!(blocks[0], branch_block("a", "a"));
    assert_eq!(blocks[1], branch_block("b", "b"));
    assert_eq!(blocks[2], branch_block("c", "c"));
}

#[test]
fn returning_blocks_are_recognized() {
    assert!(block_returns(&ret_block("r")));
    assert!(!block_returns(&branch_block("a", "b")));
    assert!(!block_returns(&block("e", Vec::new(), Vec::new())));
    let late = block(
        "l",
        Vec::new(),
        vec![
            jump("l_jmp", Jmp::Branch(Tid::new("a"))),
            jump("l_ret", Jmp::Return(Expression::constant(0, 8))),
        ],
    );
    assert!(block_returns(&late));
}

#[test]
fn every_branch_names_a_block_after_the_pass() {
    let mut project = project(
        vec![sub(
            "sub",
            vec![
                cond_block("cond_blk_1", zf(), "def_blk_1", "cond_blk_2"),
                def_block("def_blk_1", "r0", "cond_blk_2"),
                cond_block("cond_blk_2", zf(), "def_blk_2", "cond_blk_3"),
                def_block("def_blk_2", "r0", "cond_blk_3"),
                cond_block("cond_blk_3", zf(), "def_blk_3", "end_blk"),
                def_block("def_blk_3", "r0", "end_blk"),
                def_block("end_blk", "r0", "end_blk"),
            ],
        )],
        Vec::new(),
    );
    propagate_control_flow(&mut project);
    let blocks = &project.program.term.subs[0].term.blocks;
    assert_eq!(blocks.len(), 5);
    for blk in blocks.iter() {
        for jmp in blk.term.jmps.iter() {
            let target = match &jmp.term {
                Jmp::Branch(target) => target,
                Jmp::CBranch { target, .. } => target,
                _ => unreachable!(),
            };
            assert!(position_of(blocks, target).is_some());
        }
    }
}

#[test]
fn chain_is_no_longer_than_the_blocks_allow() {
    let names = ["a", "b", "c", "d", "e", "f"];
    let mut blocks = Vec::new();
    for i in 0..names.len() {
        blocks.push(branch_block(names[i], names[(i + 1) % names.len()]));
    }
    let ring = sub("s", blocks);
    for i in 0..names.len() {
        let last = names[(i + names.len() - 1) % names.len()];
        assert_eq!(
            find_target_for_retargetable_jump(&Tid::new(names[i]), &ring.term, &[]),
            Some(Tid::new(last))
        );
    }
}
