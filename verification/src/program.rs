//! Definitions, jumps, blocks, subroutines and programs.

use vstd::prelude::*;
use crate::expression::{Expression, ExpressionView, Variable, VariableView};
use crate::term::{terms_view, tids_view, tid_option_view, Term, TermView, Tid};

verus! {

/// A straight-line effect inside a block.
#[derive(Debug, PartialEq, Eq, Clone)]
pub enum Def {
    /// Reads memory at `address` into `var`.
    Load { var: Variable, address: Expression },
    /// Writes `value` to memory at `address`.
    Store { address: Expression, value: Expression },
    /// Assigns `value` to `var`.
    Assign { var: Variable, value: Expression },
}

/// The mathematical value of a [`Def`].
pub ghost enum DefView {
    Load { var: VariableView, address: ExpressionView },
    Store { address: ExpressionView, value: ExpressionView },
    Assign { var: VariableView, value: ExpressionView },
}

impl View for Def {
    type V = DefView;

    open spec fn view(&self) -> DefView {
        match self {
            Def::Load { var, address } => DefView::Load { var: var@, address: address@ },
            Def::Store { address, value } => DefView::Store { address: address@, value: value@ },
            Def::Assign { var, value } => DefView::Assign { var: var@, value: value@ },
        }
    }
}

/// A control transfer at the end of a block.
#[derive(Debug, PartialEq, Eq, Clone)]
pub enum Jmp {
    /// An unconditional jump to a block.
    Branch(Tid),
    /// A jump to a computed address.
    BranchInd(Expression),
    /// A jump that is taken when `condition` holds.
    CBranch { target: Tid, condition: Expression },
    /// A call of a subroutine; execution continues at `return_`, if the call returns.
    Call { target: Tid, return_: Option<Tid> },
    /// A call of a computed address.
    CallInd { target: Expression, return_: Option<Tid> },
    /// The return from the subroutine.
    Return(Expression),
    /// A side effect that is modelled as a call.
    CallOther { description: String, return_: Option<Tid> },
}

/// The mathematical value of a [`Jmp`].
pub ghost enum JmpView {
    Branch(Seq<char>),
    BranchInd(ExpressionView),
    CBranch { target: Seq<char>, condition: ExpressionView },
    Call { target: Seq<char>, return_: Option<Seq<char>> },
    CallInd { target: ExpressionView, return_: Option<Seq<char>> },
    Return(ExpressionView),
    CallOther { description: Seq<char>, return_: Option<Seq<char>> },
}

impl View for Jmp {
    type V = JmpView;

    open spec fn view(&self) -> JmpView {
        match self {
            Jmp::Branch(target) => JmpView::Branch(target@),
            Jmp::BranchInd(target) => JmpView::BranchInd(target@),
            Jmp::CBranch { target, condition } => JmpView::CBranch {
                target: target@,
                condition: condition@,
            },
            Jmp::Call { target, return_ } => JmpView::Call {
                target: target@,
                return_: tid_option_view(*return_),
            },
            Jmp::CallInd { target, return_ } => JmpView::CallInd {
                target: target@,
                return_: tid_option_view(*return_),
            },
            Jmp::Return(value) => JmpView::Return(value@),
            Jmp::CallOther { description, return_ } => JmpView::CallOther {
                description: description@,
                return_: tid_option_view(*return_),
            },
        }
    }
}

impl JmpView {
    /// The identifier that a rewrite of this jump replaces: the target of a
    /// branch, the return target of a call that returns.
    pub open spec fn retargetable(self) -> Option<Seq<char>> {
        match self {
            JmpView::Branch(target) => Some(target),
            JmpView::CBranch { target, .. } => Some(target),
            JmpView::Call { return_, .. } => return_,
            JmpView::CallInd { return_, .. } => return_,
            JmpView::CallOther { return_, .. } => return_,
            _ => None,
        }
    }

    /// The jump with `new_target` in the place of its retargetable identifier.
    pub open spec fn with_target(self, new_target: Seq<char>) -> JmpView {
        match self {
            JmpView::Branch(_) => JmpView::Branch(new_target),
            JmpView::CBranch { condition, .. } => JmpView::CBranch {
                target: new_target,
                condition,
            },
            JmpView::Call { target, return_: Some(_) } => JmpView::Call {
                target,
                return_: Some(new_target),
            },
            JmpView::CallInd { target, return_: Some(_) } => JmpView::CallInd {
                target,
                return_: Some(new_target),
            },
            JmpView::CallOther { description, return_: Some(_) } => JmpView::CallOther {
                description,
                return_: Some(new_target),
            },
            _ => self,
        }
    }
}

/// A basic block: definitions in order, then the jumps that end it.
#[derive(Debug, PartialEq, Eq, Clone)]
pub struct Blk {
    pub defs: Vec<Term<Def>>,
    pub jmps: Vec<Term<Jmp>>,
    pub indirect_jmp_targets: Vec<Tid>,
}

/// The mathematical value of a [`Blk`].
pub ghost struct BlkView {
    pub defs: Seq<TermView<DefView>>,
    pub jmps: Seq<TermView<JmpView>>,
    pub indirect_jmp_targets: Seq<Seq<char>>,
}

impl View for Blk {
    type V = BlkView;

    open spec fn view(&self) -> BlkView {
        BlkView {
            defs: terms_view(self.defs@),
            jmps: terms_view(self.jmps@),
            indirect_jmp_targets: tids_view(self.indirect_jmp_targets@),
        }
    }
}

impl BlkView {
    /// Whether one of the block's jumps returns from the subroutine.
    pub open spec fn has_return(self) -> bool {
        exists|k: int| 0 <= k < self.jmps.len() && (#[trigger] self.jmps[k]).term is Return
    }
}

/// A subroutine: its blocks in the order in which they were added. The first
/// block is where the subroutine is entered.
#[derive(Debug, PartialEq, Eq, Clone)]
pub struct Sub {
    pub name: String,
    pub blocks: Vec<Term<Blk>>,
    pub calling_convention: Option<String>,
}

/// The mathematical value of a [`Sub`].
pub ghost struct SubView {
    pub name: Seq<char>,
    pub blocks: Seq<TermView<BlkView>>,
    pub calling_convention: Option<Seq<char>>,
}

impl View for Sub {
    type V = SubView;

    open spec fn view(&self) -> SubView {
        SubView {
            name: self.name@,
            blocks: terms_view(self.blocks@),
            calling_convention: match self.calling_convention {
                Some(c) => Some(c@),
                None => None,
            },
        }
    }
}

/// A program: its subroutines, and the identifiers of the subroutines that
/// live outside of it.
#[derive(Debug, PartialEq, Eq, Clone)]
pub struct Program {
    pub subs: Vec<Term<Sub>>,
    pub extern_symbols: Vec<Tid>,
}

/// The mathematical value of a [`Program`].
pub ghost struct ProgramView {
    pub subs: Seq<TermView<SubView>>,
    pub extern_symbols: Seq<Seq<char>>,
}

impl View for Program {
    type V = ProgramView;

    open spec fn view(&self) -> ProgramView {
        ProgramView {
            subs: terms_view(self.subs@),
            extern_symbols: tids_view(self.extern_symbols@),
        }
    }
}

impl ProgramView {
    /// Whether `(sub, blk)` names a block of the program.
    pub open spec fn has_block(self, sub: int, blk: int) -> bool {
        0 <= sub < self.subs.len() && 0 <= blk < self.subs[sub].term.blocks.len()
    }

    /// The block at `(sub, blk)`.
    pub open spec fn block(self, sub: int, blk: int) -> TermView<BlkView>
        recommends
            self.has_block(sub, blk),
    {
        self.subs[sub].term.blocks[blk]
    }

    /// Whether `(sub, blk, jmp)` names a jump of the program.
    pub open spec fn has_jump(self, sub: int, blk: int, jmp: int) -> bool {
        self.has_block(sub, blk) && 0 <= jmp < self.block(sub, blk).term.jmps.len()
    }

    /// The jump at `(sub, blk, jmp)`.
    pub open spec fn jump(self, sub: int, blk: int, jmp: int) -> TermView<JmpView>
        recommends
            self.has_jump(sub, blk, jmp),
    {
        self.block(sub, blk).term.jmps[jmp]
    }

    /// The numbers of subroutines and of blocks are such as a machine can hold.
    pub open spec fn fits(self) -> bool {
        &&& self.subs.len() <= usize::MAX
        &&& forall|s: int|
            0 <= s < self.subs.len() ==> (#[trigger] self.subs[s]).term.blocks.len() <= usize::MAX
    }

    /// No two blocks of the program carry the same identifier.
    pub open spec fn block_ids_unique(self) -> bool {
        forall|s1: int, b1: int, s2: int, b2: int|
            self.has_block(s1, b1) && self.has_block(s2, b2) && (#[trigger] self.block(s1, b1)).tid
                == (#[trigger] self.block(s2, b2)).tid ==> s1 == s2 && b1 == b2
    }

    /// No two jumps of the program carry the same identifier.
    pub open spec fn jump_ids_unique(self) -> bool {
        forall|s1: int, b1: int, k1: int, s2: int, b2: int, k2: int|
            self.has_jump(s1, b1, k1) && self.has_jump(s2, b2, k2) && #[trigger] self.jump(
                s1,
                b1,
                k1,
            ).tid == #[trigger] self.jump(s2, b2, k2).tid ==> s1 == s2 && b1 == b2 && k1 == k2
    }
}

/// The view of a program that is held in memory fits a machine.
pub proof fn lemma_program_fits(program: &Program)
    ensures
        program@.fits(),
{
    assert(program@.subs.len() == program.subs.len());
    assert forall|s: int| 0 <= s < program@.subs.len() implies (#[trigger] program@.subs[s]).term.blocks.len()
        <= usize::MAX by {
        assert(program@.subs[s].term.blocks.len() == program.subs[s].term.blocks.len());
    }
}

/// A program under analysis.
#[derive(Debug, PartialEq, Eq, Clone)]
pub struct Project {
    pub program: Term<Program>,
}

/// The mathematical value of a [`Project`].
pub ghost struct ProjectView {
    pub program: TermView<ProgramView>,
}

impl View for Project {
    type V = ProjectView;

    open spec fn view(&self) -> ProjectView {
        ProjectView { program: self.program@ }
    }
}

} // verus!
