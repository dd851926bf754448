//! Variables and expressions.

use vstd::prelude::*;

verus! {

/// A register or a temporary value, identified by name, size in bytes and kind.
#[derive(Debug, PartialEq, Eq, Hash)]
pub struct Variable {
    pub name: String,
    pub size: u64,
    pub is_temp: bool,
}

/// The mathematical value of a [`Variable`].
pub ghost struct VariableView {
    pub name: Seq<char>,
    pub size: u64,
    pub is_temp: bool,
}

impl View for Variable {
    type V = VariableView;

    open spec fn view(&self) -> VariableView {
        VariableView { name: self.name@, size: self.size, is_temp: self.is_temp }
    }
}

impl Clone for Variable {
    fn clone(&self) -> (r: Self)
        ensures
            r@ == self@,
    {
        Variable { name: self.name.clone(), size: self.size, is_temp: self.is_temp }
    }
}

impl Variable {
    pub fn new(name: &str, size: u64) -> (r: Variable)
        ensures
            r@ == (VariableView { name: name@, size, is_temp: false }),
    {
        Variable { name: name.to_owned(), size, is_temp: false }
    }

    /// Structural equality of two variables.
    pub fn same_as(&self, other: &Variable) -> (r: bool)
        ensures
            r == (self@ == other@),
    {
        self.name == other.name && self.size == other.size && self.is_temp == other.is_temp
    }
}

/// The binary operations of the expression language.
#[derive(Clone, Copy, Debug, PartialEq, Eq, Hash, Structural)]
pub enum BinOpType {
    Piece,
    IntEqual,
    IntNotEqual,
    IntLess,
    IntSLess,
    IntLessEqual,
    IntSLessEqual,
    IntAdd,
    IntSub,
    IntCarry,
    IntSCarry,
    IntSBorrow,
    IntXOr,
    IntAnd,
    IntOr,
    IntLeft,
    IntRight,
    IntSRight,
    IntMult,
    IntDiv,
    IntRem,
    IntSDiv,
    IntSRem,
    BoolXOr,
    BoolAnd,
    BoolOr,
}

/// The unary operations of the expression language.
#[derive(Clone, Copy, Debug, PartialEq, Eq, Hash, Structural)]
pub enum UnOpType {
    IntNegate,
    Int2Comp,
    BoolNegate,
}

/// The size-changing operations of the expression language.
#[derive(Clone, Copy, Debug, PartialEq, Eq, Hash, Structural)]
pub enum CastOpType {
    IntZExt,
    IntSExt,
    Trunc,
    PopCount,
    LzCount,
}

/// An expression tree over variables and constants.
///
/// Two expressions are the same exactly when their trees are the same: no
/// meaning is attached to the operations.
#[derive(Debug, PartialEq, Eq, Hash)]
pub enum Expression {
    Var(Variable),
    Const { value: u64, size: u64 },
    BinOp { op: BinOpType, lhs: Box<Expression>, rhs: Box<Expression> },
    UnOp { op: UnOpType, arg: Box<Expression> },
    Cast { op: CastOpType, size: u64, arg: Box<Expression> },
    Unknown { description: String, size: u64 },
    Subpiece { low_byte: u64, size: u64, arg: Box<Expression> },
}

/// The mathematical value of an [`Expression`]: the same tree over views.
pub ghost enum ExpressionView {
    Var(VariableView),
    Const { value: u64, size: u64 },
    BinOp { op: BinOpType, lhs: Box<ExpressionView>, rhs: Box<ExpressionView> },
    UnOp { op: UnOpType, arg: Box<ExpressionView> },
    Cast { op: CastOpType, size: u64, arg: Box<ExpressionView> },
    Unknown { description: Seq<char>, size: u64 },
    Subpiece { low_byte: u64, size: u64, arg: Box<ExpressionView> },
}

impl ExpressionView {
    /// Whether the expression reads the variable `var` anywhere in its tree.
    pub open spec fn reads(self, var: VariableView) -> bool
        decreases self,
    {
        match self {
            ExpressionView::Var(v) => v == var,
            ExpressionView::Const { .. } => false,
            ExpressionView::BinOp { lhs, rhs, .. } => (*lhs).reads(var) || (*rhs).reads(var),
            ExpressionView::UnOp { arg, .. } => (*arg).reads(var),
            ExpressionView::Cast { arg, .. } => (*arg).reads(var),
            ExpressionView::Unknown { .. } => false,
            ExpressionView::Subpiece { arg, .. } => (*arg).reads(var),
        }
    }

    /// Whether the expression is a boolean negation of something.
    pub open spec fn is_negation(self) -> bool {
        self matches ExpressionView::UnOp { op: UnOpType::BoolNegate, .. }
    }
}

impl Expression {
    /// The tree of views below this expression.
    pub open spec fn model(self) -> ExpressionView
        decreases self,
    {
        match self {
            Expression::Var(v) => ExpressionView::Var(v@),
            Expression::Const { value, size } => ExpressionView::Const { value, size },
            Expression::BinOp { op, lhs, rhs } => ExpressionView::BinOp {
                op,
                lhs: Box::new((*lhs).model()),
                rhs: Box::new((*rhs).model()),
            },
            Expression::UnOp { op, arg } => ExpressionView::UnOp {
                op,
                arg: Box::new((*arg).model()),
            },
            Expression::Cast { op, size, arg } => ExpressionView::Cast {
                op,
                size,
                arg: Box::new((*arg).model()),
            },
            Expression::Unknown { description, size } => ExpressionView::Unknown {
                description: description@,
                size,
            },
            Expression::Subpiece { low_byte, size, arg } => ExpressionView::Subpiece {
                low_byte,
                size,
                arg: Box::new((*arg).model()),
            },
        }
    }
}

impl View for Expression {
    type V = ExpressionView;

    open spec fn view(&self) -> ExpressionView {
        self.model()
    }
}

impl Clone for Expression {
    fn clone(&self) -> (r: Self)
        ensures
            r@ == self@,
        decreases self,
    {
        match self {
            Expression::Var(v) => Expression::Var(v.clone()),
            Expression::Const { value, size } => Expression::Const { value: *value, size: *size },
            Expression::BinOp { op, lhs, rhs } => Expression::BinOp {
                op: *op,
                lhs: Box::new((&**lhs).clone()),
                rhs: Box::new((&**rhs).clone()),
            },
            Expression::UnOp { op, arg } => Expression::UnOp {
                op: *op,
                arg: Box::new((&**arg).clone()),
            },
            Expression::Cast { op, size, arg } => Expression::Cast {
                op: *op,
                size: *size,
                arg: Box::new((&**arg).clone()),
            },
            Expression::Unknown { description, size } => Expression::Unknown {
                description: description.clone(),
                size: *size,
            },
            Expression::Subpiece { low_byte, size, arg } => Expression::Subpiece {
                low_byte: *low_byte,
                size: *size,
                arg: Box::new((&**arg).clone()),
            },
        }
    }
}

impl Expression {
    /// The expression that reads one variable.
    pub fn var(name: &str, size: u64) -> (r: Expression)
        ensures
            r@ == ExpressionView::Var(VariableView { name: name@, size, is_temp: false }),
    {
        Expression::Var(Variable::new(name, size))
    }

    /// The constant `value` of `size` bytes.
    pub fn constant(value: u64, size: u64) -> (r: Expression)
        ensures
            r@ == (ExpressionView::Const { value, size }),
    {
        Expression::Const { value, size }
    }

    /// Structural equality of two expressions.
    pub fn same_as(&self, other: &Expression) -> (r: bool)
        ensures
            r == (self@ == other@),
        decreases self,
    {
        match (self, other) {
            (Expression::Var(a), Expression::Var(b)) => a.same_as(b),
            (
                Expression::Const { value: v1, size: s1 },
                Expression::Const { value: v2, size: s2 },
            ) => *v1 == *v2 && *s1 == *s2,
            (
                Expression::BinOp { op: o1, lhs: l1, rhs: r1 },
                Expression::BinOp { op: o2, lhs: l2, rhs: r2 },
            ) => *o1 == *o2 && l1.same_as(l2) && r1.same_as(r2),
            (Expression::UnOp { op: o1, arg: a1 }, Expression::UnOp { op: o2, arg: a2 }) => {
                *o1 == *o2 && a1.same_as(a2)
            },
            (
                Expression::Cast { op: o1, size: s1, arg: a1 },
                Expression::Cast { op: o2, size: s2, arg: a2 },
            ) => *o1 == *o2 && *s1 == *s2 && a1.same_as(a2),
            (
                Expression::Unknown { description: d1, size: s1 },
                Expression::Unknown { description: d2, size: s2 },
            ) => *d1 == *d2 && *s1 == *s2,
            (
                Expression::Subpiece { low_byte: b1, size: s1, arg: a1 },
                Expression::Subpiece { low_byte: b2, size: s2, arg: a2 },
            ) => *b1 == *b2 && *s1 == *s2 && a1.same_as(a2),
            _ => false,
        }
    }

    /// Whether `var` is among the variables that the expression reads.
    pub fn reads(&self, var: &Variable) -> (r: bool)
        ensures
            r == self@.reads(var@),
        decreases self,
    {
        match self {
            Expression::Var(v) => v.same_as(var),
            Expression::Const { .. } => false,
            Expression::BinOp { lhs, rhs, .. } => lhs.reads(var) || rhs.reads(var),
            Expression::UnOp { arg, .. } => arg.reads(var),
            Expression::Cast { arg, .. } => arg.reads(var),
            Expression::Unknown { .. } => false,
            Expression::Subpiece { arg, .. } => arg.reads(var),
        }
    }
}

} // verus!
