//! Scalar expressions. Every compound node is shared, so copying an
//! expression never copies the tree below it.

use std::sync::Arc;
use vstd::prelude::*;

use crate::types::{ColumnBinding, ComparisonType, ConjunctionType, LogicalType, OperatorType};
use crate::value::{Value, ValueView};

pub mod analysis;
pub mod equality;
pub mod meaning;
pub mod substitution;

verus! {

#[derive(Clone, Copy, Debug, PartialEq, Eq, Structural)]
pub struct ColumnRefExpression {
    pub binding: ColumnBinding,
    /// Number of query levels between the reference and the relation.
    pub depth: usize,
    pub return_type: LogicalType,
}

#[derive(Clone, Copy, Debug, PartialEq, Eq, Structural)]
pub struct ReferenceExpression {
    pub index: usize,
    pub return_type: LogicalType,
}

#[derive(Debug)]
pub struct ConstantExpression {
    pub value: Value,
    pub return_type: LogicalType,
}

#[derive(Debug)]
pub struct ComparisonExpression {
    pub comparison_type: ComparisonType,
    pub left: Expression,
    pub right: Expression,
}

#[derive(Debug)]
pub struct ConjunctionExpression {
    pub conjunction_type: ConjunctionType,
    pub children: Vec<Expression>,
}

#[derive(Debug)]
pub struct CastExpression {
    pub child: Expression,
    pub target_type: LogicalType,
}

#[derive(Debug)]
pub struct OperatorExpression {
    pub operator_type: OperatorType,
    pub children: Vec<Expression>,
    pub return_type: LogicalType,
}

/// What a function guarantees about being evaluated.
#[derive(Clone, Copy, Debug, PartialEq, Eq, Structural)]
pub enum FunctionStability {
    /// The result depends on the arguments alone and evaluation cannot fail.
    Stable,
    /// Evaluation can raise an error.
    Fallible,
    /// Every evaluation may give another result.
    Volatile,
}

/// Built-in functions that the optimizer knows by meaning.
#[derive(Clone, Copy, Debug, PartialEq, Eq, Structural)]
pub enum Intrinsic {
    /// Full-text search: matching, ranking, and the parts of a query.
    FullText,
    /// Distance between vectors.
    VectorDistance,
    Other,
}

/// Identity of a bound function.
#[derive(Clone, Copy, Debug, PartialEq, Eq, Structural)]
pub struct FunctionId {
    pub id: usize,
    pub intrinsic: Intrinsic,
}

#[derive(Debug)]
pub struct FunctionExpression {
    pub function: FunctionId,
    pub stability: FunctionStability,
    pub children: Vec<Expression>,
    pub return_type: LogicalType,
}

/// What the estimator has to know of a bound aggregate function.
#[derive(Clone, Copy, Debug, PartialEq, Eq, Structural)]
pub enum AggregateFunction {
    Count,
    Sum,
    /// Publishes one of its input values (minimum, maximum, first, ...).
    PreservesInputDomain,
    Other,
}

#[derive(Debug)]
pub struct AggregateExpression {
    pub function: AggregateFunction,
    pub children: Vec<Expression>,
    pub distinct: bool,
    pub filter: Option<Expression>,
    pub ordered: bool,
    pub return_type: LogicalType,
}

#[derive(Debug)]
pub enum Expression {
    Constant(Arc<ConstantExpression>),
    ColumnRef(Arc<ColumnRefExpression>),
    Reference(Arc<ReferenceExpression>),
    Comparison(Arc<ComparisonExpression>),
    Conjunction(Arc<ConjunctionExpression>),
    Cast(Arc<CastExpression>),
    Operator(Arc<OperatorExpression>),
    Function(Arc<FunctionExpression>),
    Aggregate(Arc<AggregateExpression>),
}

/// The syntax tree that an expression denotes.
pub enum ExpressionView {
    Constant(ValueView, LogicalType),
    ColumnRef(ColumnRefExpression),
    Reference(ReferenceExpression),
    Comparison(ComparisonType, Box<ExpressionView>, Box<ExpressionView>),
    Conjunction(ConjunctionType, Seq<ExpressionView>),
    Cast(Box<ExpressionView>, LogicalType),
    Operator(OperatorType, Seq<ExpressionView>, LogicalType),
    Function(FunctionId, FunctionStability, Seq<ExpressionView>, LogicalType),
    Aggregate(
        AggregateFunction,
        Seq<ExpressionView>,
        bool,
        Option<Box<ExpressionView>>,
        bool,
        LogicalType,
    ),
}

pub open spec fn expression_view(e: Expression) -> ExpressionView
    decreases e,
{
    match e {
        Expression::Constant(c) => ExpressionView::Constant(c.value@, c.return_type),
        Expression::ColumnRef(c) => ExpressionView::ColumnRef(*c),
        Expression::Reference(r) => ExpressionView::Reference(*r),
        Expression::Comparison(c) => ExpressionView::Comparison(
            c.comparison_type,
            Box::new(expression_view(c.left)),
            Box::new(expression_view(c.right)),
        ),
        Expression::Conjunction(c) => ExpressionView::Conjunction(
            c.conjunction_type,
            Seq::new(
                c.children@.len(),
                |i: int|
                    if 0 <= i < c.children@.len() {
                        expression_view(c.children@[i])
                    } else {
                        arbitrary()
                    },
            ),
        ),
        Expression::Cast(c) => ExpressionView::Cast(
            Box::new(expression_view(c.child)),
            c.target_type,
        ),
        Expression::Operator(o) => ExpressionView::Operator(
            o.operator_type,
            Seq::new(
                o.children@.len(),
                |i: int|
                    if 0 <= i < o.children@.len() {
                        expression_view(o.children@[i])
                    } else {
                        arbitrary()
                    },
            ),
            o.return_type,
        ),
        Expression::Function(f) => ExpressionView::Function(
            f.function,
            f.stability,
            Seq::new(
                f.children@.len(),
                |i: int|
                    if 0 <= i < f.children@.len() {
                        expression_view(f.children@[i])
                    } else {
                        arbitrary()
                    },
            ),
            f.return_type,
        ),
        Expression::Aggregate(a) => ExpressionView::Aggregate(
            a.function,
            Seq::new(
                a.children@.len(),
                |i: int|
                    if 0 <= i < a.children@.len() {
                        expression_view(a.children@[i])
                    } else {
                        arbitrary()
                    },
            ),
            a.distinct,
            match a.filter {
                Some(filter) => Some(Box::new(expression_view(filter))),
                None => None,
            },
            a.ordered,
            a.return_type,
        ),
    }
}

impl View for Expression {
    type V = ExpressionView;

    open spec fn view(&self) -> ExpressionView {
        expression_view(*self)
    }
}

/// Shares the node behind an `Arc`: `std`'s `Arc::clone` hands out another
/// owner of the same allocation, so the new handle refers to the same value.
#[verifier::external_body]
pub(crate) fn share<T>(node: &Arc<T>) -> (r: Arc<T>)
    ensures
        r == *node,
{
    Arc::clone(node)
}

impl Expression {
    /// Another handle on the same expression.
    pub fn copy(&self) -> (r: Expression)
        ensures
            r == *self,
    {
        match self {
            Expression::Constant(node) => Expression::Constant(share(node)),
            Expression::ColumnRef(node) => Expression::ColumnRef(share(node)),
            Expression::Reference(node) => Expression::Reference(share(node)),
            Expression::Comparison(node) => Expression::Comparison(share(node)),
            Expression::Conjunction(node) => Expression::Conjunction(share(node)),
            Expression::Cast(node) => Expression::Cast(share(node)),
            Expression::Operator(node) => Expression::Operator(share(node)),
            Expression::Function(node) => Expression::Function(share(node)),
            Expression::Aggregate(node) => Expression::Aggregate(share(node)),
        }
    }
}

} // verus!
