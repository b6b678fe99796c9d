//! The expression model shared by every pass: expression trees, the two
//! sides of an identity, identities, and function-value definitions.
use vstd::prelude::*;

verus! {

/// A binary operator of the constraint language.
#[derive(Clone, Copy, Debug, PartialEq, Eq, Hash)]
pub enum BinaryOperator {
    Add,
    Sub,
    Mul,
    Pow,
}

/// A unary operator of the constraint language.
#[derive(Clone, Copy, Debug, PartialEq, Eq, Hash)]
pub enum UnaryOperator {
    Minus,
}

/// An expression tree. Every node owns its operands; nothing is shared.
#[derive(Debug, PartialEq, Eq, Hash)]
pub enum Expression<T> {
    /// A column, by name.
    Reference(String),
    /// A public value, by name.
    PublicReference(String),
    /// A constant.
    Number(T),
    BinaryOperation(Box<Expression<T>>, BinaryOperator, Box<Expression<T>>),
    UnaryOperation(UnaryOperator, Box<Expression<T>>),
}

/// One side of an identity: an optional selector guarding an ordered list
/// of expressions.
#[derive(Clone, Debug, PartialEq, Eq, Hash)]
pub struct SelectedExpressions<T> {
    pub selector: Option<Expression<T>>,
    pub expressions: Vec<Expression<T>>,
}

/// What an identity asserts between its two sides.
#[derive(Clone, Copy, Debug, PartialEq, Eq, Hash)]
pub enum IdentityKind {
    Polynomial,
    Plookup,
    Permutation,
    Connect,
}

/// A constraint. A polynomial identity uses its left side only, a lookup or
/// a permutation uses both.
#[derive(Clone, Debug, PartialEq, Eq, Hash)]
pub struct Identity<T> {
    pub kind: IdentityKind,
    pub left: SelectedExpressions<T>,
    pub right: SelectedExpressions<T>,
}

/// A pattern of expressions, repeated to fill `size` rows.
#[derive(Clone, Debug, PartialEq, Eq, Hash)]
pub struct RepeatedArray<T> {
    pub pattern: Vec<Expression<T>>,
    pub size: u64,
}

/// How the values of a column are defined.
#[derive(Clone, Debug, PartialEq, Eq, Hash)]
pub enum FunctionValueDefinition<T> {
    Query(Expression<T>),
    Expression(Expression<T>),
    Array(Vec<RepeatedArray<T>>),
    Number(usize),
}

/// `copy` is what cloning `e` can give: the same tree, with the same names
/// and operators, and each number a clone of the number in its place.
pub open spec fn clone_of<T: Clone>(e: Expression<T>, copy: Expression<T>) -> bool
    decreases e,
{
    match (e, copy) {
        (Expression::Reference(n), Expression::Reference(m)) => n == m,
        (Expression::PublicReference(n), Expression::PublicReference(m)) => n == m,
        (Expression::Number(v), Expression::Number(w)) => cloned::<T>(v, w),
        (Expression::BinaryOperation(l, op, r), Expression::BinaryOperation(l2, op2, r2)) => {
            &&& op == op2
            &&& clone_of(*l, *l2)
            &&& clone_of(*r, *r2)
        },
        (Expression::UnaryOperation(op, x), Expression::UnaryOperation(op2, y)) => {
            &&& op == op2
            &&& clone_of(*x, *y)
        },
        _ => false,
    }
}

impl<T: Clone> Clone for Expression<T> {
    fn clone(&self) -> (r: Self)
        ensures
            clone_of(*self, r),
        decreases *self,
    {
        match self {
            Expression::Reference(name) => Expression::Reference(name.clone()),
            Expression::PublicReference(name) => Expression::PublicReference(name.clone()),
            Expression::Number(value) => Expression::Number(value.clone()),
            Expression::BinaryOperation(left, op, right) => {
                let l: &Expression<T> = left;
                let r: &Expression<T> = right;
                Expression::BinaryOperation(Box::new(l.clone()), *op, Box::new(r.clone()))
            },
            Expression::UnaryOperation(op, inner) => {
                let x: &Expression<T> = inner;
                Expression::UnaryOperation(*op, Box::new(x.clone()))
            },
        }
    }
}

} // verus!
