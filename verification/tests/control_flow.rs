use control_flow_propagation::expression::Expression;
use control_flow_propagation::program::{Blk, Def, Jmp, Program, Project, Sub};
use control_flow_propagation::propagation::propagate_control_flow;
use control_flow_propagation::expression::Variable;
use control_flow_propagation::term::{Term, Tid};

fn mock_condition_block_custom(
    name: &str,
    if_target: &str,
    else_target: &str,
    condition: &str,
) -> Term<Blk> {
    let if_jmp = Jmp::CBranch {
        target: Tid::new(if_target),
        condition: Expression::var(condition, 1),
    };
    let if_jmp = Term {
        tid: Tid::new(&(name.to_string() + "_jmp_if")),
        term: if_jmp,
    };
    let else_jmp = Jmp::Branch(Tid::new(else_target));
    let else_jmp = Term {
        tid: Tid::new(&(name.to_string() + "_jmp_else")),
        term: else_jmp,
    };
    let blk = Blk {
        defs: Vec::new(),
        jmps: Vec::from([if_jmp, else_jmp]),
        indirect_jmp_targets: Vec::new(),
    };
    Term {
        tid: Tid::new(name),
        term: blk,
    }
}

fn mock_condition_block(name: &str, if_target: &str, else_target: &str) -> Term<Blk> {
    mock_condition_block_custom(name, if_target, else_target, "ZF")
}

fn mock_jump_only_block(name: &str, return_target: &str) -> Term<Blk> {
    let jmp = Jmp::Branch(Tid::new(return_target));
    let jmp = Term {
        tid: Tid::new(&(name.to_string() + "_jmp")),
        term: jmp,
    };
    let blk = Blk {
        defs: Vec::new(),
        jmps: vec![jmp],
        indirect_jmp_targets: Vec::new(),
    };
    Term {
        tid: Tid::new(name),
        term: blk,
    }
}

fn mock_ret_only_block(name: &str) -> Term<Blk> {
    let ret = Jmp::Return(Expression::constant(0, 8));
    let ret = Term {
        tid: Tid::new(&(name.to_string() + "_ret")),
        term: ret,
    };
    let blk = Blk {
        defs: Vec::new(),
        jmps: vec![ret],
        indirect_jmp_targets: Vec::new(),
    };
    Term {
        tid: Tid::new(name),
        term: blk,
    }
}

fn mock_def(name: &str) -> Term<Def> {
    Term {
        tid: Tid::new(&format!("{name}_def")),
        term: Def::Assign {
            var: Variable::new("r0", 4),
            value: Expression::var("r1", 4),
        },
    }
}

fn mock_block_with_defs(name: &str, return_target: &str) -> Term<Blk> {
    let def = mock_def(name);
    let jmp = Jmp::Branch(Tid::new(return_target));
    let jmp = Term {
        tid: Tid::new(&(name.to_string() + "_jmp")),
        term: jmp,
    };
    let blk = Blk {
        defs: vec![def],
        jmps: vec![jmp],
        indirect_jmp_targets: Vec::new(),
    };
    Term {
        tid: Tid::new(name),
        term: blk,
    }
}

fn mock_block_with_defs_and_call(name: &str, call_target: &str, return_target: &str) -> Term<Blk> {
    let def = mock_def(name);
    let call = Jmp::Call {
        target: Tid::new(call_target),
        return_: Some(Tid::new(return_target)),
    };
    let call = Term {
        tid: Tid::new(&(name.to_string() + "_call")),
        term: call,
    };
    let blk = Blk {
        defs: vec![def],
        jmps: vec![call],
        indirect_jmp_targets: Vec::new(),
    };
    Term {
        tid: Tid::new(name),
        term: blk,
    }
}

fn mock_sub(name: &str, blocks: Vec<Term<Blk>>) -> Term<Sub> {
    Term {
        tid: Tid::new(name),
        term: Sub {
            name: name.to_string(),
            calling_convention: None,
            blocks,
        },
    }
}

fn mock_project(subs: Vec<Term<Sub>>) -> Project {
    Project {
        program: Term {
            tid: Tid::new("prog"),
            term: Program {
                subs,
                extern_symbols: Vec::new(),
            },
        },
    }
}

#[test]
fn test_propagate_control_flow() {
    let sub = mock_sub(
        "sub",
        vec![
            mock_condition_block("cond_blk_1", "def_blk_1", "cond_blk_2"),
            mock_block_with_defs("def_blk_1", "cond_blk_2"),
            mock_condition_block("cond_blk_2", "def_blk_2", "cond_blk_3"),
            mock_block_with_defs("def_blk_2", "cond_blk_3"),
            mock_condition_block("cond_blk_3", "def_blk_3", "end_blk"),
            mock_block_with_defs("def_blk_3", "end_blk"),
            mock_block_with_defs("end_blk", "end_blk"),
        ],
    );
    let mut project = mock_project(vec![sub]);

    propagate_control_flow(&mut project);
    let expected_blocks = vec![
        mock_condition_block("cond_blk_1", "def_blk_1", "end_blk"),
        mock_block_with_defs("def_blk_1", "def_blk_2"),
        // cond_blk_2 removed, since no incoming edge anymore
        mock_block_with_defs("def_blk_2", "def_blk_3"),
        // cond_blk_3 removed, since no incoming edge anymore
        mock_block_with_defs("def_blk_3", "end_blk"),
        mock_block_with_defs("end_blk", "end_blk"),
    ];
    assert_eq!(
        &project.program.term.subs[0].term.blocks[..],
        &expected_blocks[..]
    );
}

#[test]
fn call_return_to_jump() {
    let sub_1 = mock_sub(
        "sub_1",
        vec![
            mock_block_with_defs_and_call("call_blk", "sub_2", "jump_blk"),
            mock_jump_only_block("jump_blk", "end_blk"),
            mock_block_with_defs("end_blk", "end_blk"),
        ],
    );
    let sub_2 = mock_sub("sub_2", vec![mock_ret_only_block("ret_blk")]);
    let mut project = mock_project(vec![sub_1, sub_2]);

    propagate_control_flow(&mut project);
    let expected_blocks = vec![
        mock_block_with_defs_and_call("call_blk", "sub_2", "end_blk"),
        // jump_blk removed since it has no incoming edges
        mock_block_with_defs("end_blk", "end_blk"),
    ];
    assert_eq!(
        &project.program.term.subs[0].term.blocks[..],
        &expected_blocks[..]
    );
}

#[test]
fn call_return_to_cond_jump() {
    let sub_1 = mock_sub(
        "sub_1",
        vec![
            mock_condition_block("cond_blk_1", "call_blk", "end_blk_1"),
            mock_block_with_defs_and_call("call_blk", "sub_2", "cond_blk_2"),
            mock_condition_block("cond_blk_2", "end_blk_2", "end_blk_1"),
            mock_block_with_defs("end_blk_1", "end_blk_1"),
            mock_block_with_defs("end_blk_2", "end_blk_2"),
        ],
    );
    let sub_2 = mock_sub("sub_2", vec![mock_ret_only_block("ret_blk")]);
    let mut project = mock_project(vec![sub_1, sub_2]);

    propagate_control_flow(&mut project);
    let expected_blocks = vec![
        mock_condition_block("cond_blk_1", "call_blk", "end_blk_1"),
        mock_block_with_defs_and_call("call_blk", "sub_2", "cond_blk_2"),
        // cond_blk_2 can not be skipped as call may modify the inputs to
        // the conditional expresion.
        mock_condition_block("cond_blk_2", "end_blk_2", "end_blk_1"),
        mock_block_with_defs("end_blk_1", "end_blk_1"),
        mock_block_with_defs("end_blk_2", "end_blk_2"),
    ];
    assert_eq!(
        &project.program.term.subs[0].term.blocks[..],
        &expected_blocks[..]
    );
}

#[test]
fn multiple_incoming_same_condition() {
    let sub = mock_sub(
        "sub",
        vec![
            mock_condition_block("cond_blk_1_1", "def_blk_1", "end_blk_1"),
            mock_condition_block("cond_blk_1_2", "def_blk_1", "end_blk_1"),
            mock_block_with_defs("def_blk_1", "cond_blk_2"),
            mock_condition_block("cond_blk_2", "end_blk_2", "end_blk_1"),
            mock_block_with_defs("end_blk_1", "end_blk_1"),
            mock_block_with_defs("end_blk_2", "end_blk_2"),
        ],
    );
    let mut project = mock_project(vec![sub]);

    propagate_control_flow(&mut project);
    let expected_blocks = vec![
        mock_condition_block("cond_blk_1_1", "def_blk_1", "end_blk_1"),
        mock_condition_block("cond_blk_1_2", "def_blk_1", "end_blk_1"),
        mock_block_with_defs("def_blk_1", "end_blk_2"),
        // cond_blk_2 removed, since no incoming edge anymore
        mock_block_with_defs("end_blk_1", "end_blk_1"),
        mock_block_with_defs("end_blk_2", "end_blk_2"),
    ];
    assert_eq!(
        &project.program.term.subs[0].term.blocks[..],
        &expected_blocks[..]
    );
}

#[test]
fn multiple_incoming_different_condition() {
    let sub = mock_sub(
        "sub",
        vec![
            mock_condition_block("cond_blk_1_1", "def_blk_1", "end_blk_1"),
            mock_condition_block("cond_blk_1_2", "end_blk_1", "def_blk_1"),
            mock_block_with_defs("def_blk_1", "cond_blk_2"),
            mock_condition_block("cond_blk_2", "end_blk_2", "end_blk_1"),
            mock_block_with_defs("end_blk_1", "end_blk_1"),
            mock_block_with_defs("end_blk_2", "end_blk_2"),
        ],
    );
    let mut project = mock_project(vec![sub]);

    propagate_control_flow(&mut project);
    let expected_blocks = vec![
        mock_condition_block("cond_blk_1_1", "def_blk_1", "end_blk_1"),
        mock_condition_block("cond_blk_1_2", "end_blk_1", "def_blk_1"),
        mock_block_with_defs("def_blk_1", "cond_blk_2"),
        mock_condition_block("cond_blk_2", "end_blk_2", "end_blk_1"),
        mock_block_with_defs("end_blk_1", "end_blk_1"),
        mock_block_with_defs("end_blk_2", "end_blk_2"),
    ];
    assert_eq!(
        &project.program.term.subs[0].term.blocks[..],
        &expected_blocks[..]
    );
}

#[test]
fn multiple_known_conditions() {
    let sub = mock_sub(
        "sub",
        vec![
            mock_condition_block("cond1_blk_1", "cond2_blk", "end_blk_1"),
            mock_condition_block_custom("cond2_blk", "cond1_blk_2", "end_blk_1", "CF"),
            mock_condition_block("cond1_blk_2", "def_blk", "end_blk_1"),
            mock_block_with_defs("def_blk", "end_blk_2"),
            mock_block_with_defs("end_blk_1", "end_blk_1"),
            mock_block_with_defs("end_blk_2", "end_blk_2"),
        ],
    );
    let mut project = mock_project(vec![sub]);

    propagate_control_flow(&mut project);
    let expected_blocks = vec![
        mock_condition_block("cond1_blk_1", "cond2_blk", "end_blk_1"),
        mock_condition_block_custom("cond2_blk", "def_blk", "end_blk_1", "CF"),
        // removed since no incoming edges
        mock_block_with_defs("def_blk", "end_blk_2"),
        mock_block_with_defs("end_blk_1", "end_blk_1"),
        mock_block_with_defs("end_blk_2", "end_blk_2"),
    ];
    assert_eq!(
        &project.program.term.subs[0].term.blocks[..],
        &expected_blocks[..]
    );
}
