//! Replacing column references.

use std::sync::Arc;
use vstd::prelude::*;

use crate::expression::analysis::{lemma_view_children, views};
use crate::expression::{
    share, AggregateExpression, CastExpression, ColumnRefExpression, ComparisonExpression,
    ConjunctionExpression, ConstantExpression, Expression, ExpressionView, FunctionExpression,
    OperatorExpression,
};
use crate::types::ColumnBinding;
use crate::value::{Value, ValueView};

verus! {

/// What the first pair for `binding` maps it to.
pub open spec fn lookup<T>(pairs: Seq<(ColumnBinding, T)>, binding: ColumnBinding) -> Option<T>
    decreases pairs.len(),
{
    if pairs.len() == 0 {
        None
    } else if pairs[0].0 == binding {
        Some(pairs[0].1)
    } else {
        lookup(pairs.skip(1), binding)
    }
}

/// Position of the first pair for `binding`.
pub fn position_of<T>(pairs: &Vec<(ColumnBinding, T)>, binding: ColumnBinding) -> (r: Option<usize>)
    ensures
        match r {
            Some(i) => i < pairs@.len() && lookup(pairs@, binding) == Some(pairs@[i as int].1)
                && pairs@[i as int].0 == binding,
            None => lookup(pairs@, binding) is None,
        },
{
    let mut i: usize = 0;
    assert(pairs@.skip(0) =~= pairs@);
    while i < pairs.len()
        invariant
            i <= pairs@.len(),
            lookup(pairs@, binding) == lookup(pairs@.skip(i as int), binding),
        decreases pairs@.len() - i,
    {
        assert(pairs@.skip(i as int)[0] == pairs@[i as int]);
        if pairs[i].0 == binding {
            return Some(i);
        }
        assert(pairs@.skip(i as int).skip(1) =~= pairs@.skip(i as int + 1));
        i = i + 1;
    }
    None
}

/// A replacement for column references.
#[derive(Debug)]
pub enum ColumnReplacement {
    /// Each listed binding becomes another one; depth and type stay.
    Rebind(Vec<(ColumnBinding, ColumnBinding)>),
    /// Each listed binding of the current query level becomes a literal of
    /// the column's type.
    Literals(Vec<(ColumnBinding, Value)>),
}

/// What a replacement does to column references.
pub enum ReplacementView {
    Rebind(Seq<(ColumnBinding, ColumnBinding)>),
    Literals(Seq<(ColumnBinding, ValueView)>),
}

pub open spec fn literal_pairs(pairs: Seq<(ColumnBinding, Value)>) -> Seq<(ColumnBinding, ValueView)> {
    pairs.map_values(|p: (ColumnBinding, Value)| (p.0, p.1@))
}

impl View for ColumnReplacement {
    type V = ReplacementView;

    open spec fn view(&self) -> ReplacementView {
        match *self {
            ColumnReplacement::Rebind(pairs) => ReplacementView::Rebind(pairs@),
            ColumnReplacement::Literals(pairs) => ReplacementView::Literals(literal_pairs(pairs@)),
        }
    }
}

impl ReplacementView {
    /// What stands in place of a reference to `column`.
    pub open spec fn image(self, column: ColumnRefExpression) -> ExpressionView {
        match self {
            ReplacementView::Rebind(pairs) => match lookup(pairs, column.binding) {
                Some(binding) => ExpressionView::ColumnRef(
                    ColumnRefExpression { binding, ..column },
                ),
                None => ExpressionView::ColumnRef(column),
            },
            ReplacementView::Literals(pairs) => if column.depth != 0 {
                ExpressionView::ColumnRef(column)
            } else {
                match lookup(pairs, column.binding) {
                    Some(value) => ExpressionView::Constant(value, column.return_type),
                    None => ExpressionView::ColumnRef(column),
                }
            },
        }
    }
}

proof fn lemma_lookup_literal(pairs: Seq<(ColumnBinding, Value)>, binding: ColumnBinding)
    ensures
        lookup(literal_pairs(pairs), binding) == match lookup(pairs, binding) {
            Some(value) => Some(value@),
            None => None,
        },
    decreases pairs.len(),
{
    if pairs.len() > 0 {
        lemma_lookup_literal(pairs.skip(1), binding);
        assert(literal_pairs(pairs).skip(1) =~= literal_pairs(pairs.skip(1)));
    }
}

impl ColumnReplacement {
    fn apply(&self, column: &Arc<ColumnRefExpression>) -> (r: Expression)
        ensures
            r@ == self@.image(**column),
    {
        match self {
            ColumnReplacement::Rebind(pairs) => match position_of(pairs, column.binding) {
                Some(i) => Expression::ColumnRef(Arc::new(
                    ColumnRefExpression {
                        binding: pairs[i].1,
                        depth: column.depth,
                        return_type: column.return_type,
                    },
                )),
                None => Expression::ColumnRef(share(column)),
            },
            ColumnReplacement::Literals(pairs) => {
                if column.depth != 0 {
                    return Expression::ColumnRef(share(column));
                }
                proof {
                    lemma_lookup_literal(pairs@, column.binding);
                }
                match position_of(pairs, column.binding) {
                    Some(i) => Expression::Constant(
                        Arc::new(
                            ConstantExpression {
                                value: pairs[i].1.copy(),
                                return_type: column.return_type,
                            },
                        ),
                    ),
                    None => Expression::ColumnRef(share(column)),
                }
            },
        }
    }
}

/// `e` with every column reference `c` replaced by `replacement.image(c)`.
pub open spec fn substituted(e: ExpressionView, replacement: ReplacementView) -> ExpressionView
    decreases e,
{
    match e {
        ExpressionView::Constant(_, _) => e,
        ExpressionView::ColumnRef(c) => replacement.image(c),
        ExpressionView::Reference(_) => e,
        ExpressionView::Comparison(kind, left, right) => ExpressionView::Comparison(
            kind,
            Box::new(substituted(*left, replacement)),
            Box::new(substituted(*right, replacement)),
        ),
        ExpressionView::Conjunction(kind, children) => ExpressionView::Conjunction(
            kind,
            Seq::new(
                children.len(),
                |i: int|
                    if 0 <= i < children.len() {
                        substituted(children[i], replacement)
                    } else {
                        arbitrary()
                    },
            ),
        ),
        ExpressionView::Cast(child, ty) => ExpressionView::Cast(
            Box::new(substituted(*child, replacement)),
            ty,
        ),
        ExpressionView::Operator(kind, children, ty) => ExpressionView::Operator(
            kind,
            Seq::new(
                children.len(),
                |i: int|
                    if 0 <= i < children.len() {
                        substituted(children[i], replacement)
                    } else {
                        arbitrary()
                    },
            ),
            ty,
        ),
        ExpressionView::Function(function, stability, children, ty) => ExpressionView::Function(
            function,
            stability,
            Seq::new(
                children.len(),
                |i: int|
                    if 0 <= i < children.len() {
                        substituted(children[i], replacement)
                    } else {
                        arbitrary()
                    },
            ),
            ty,
        ),
        ExpressionView::Aggregate(function, children, distinct, filter, ordered, ty) =>
        ExpressionView::Aggregate(
            function,
            Seq::new(
                children.len(),
                |i: int|
                    if 0 <= i < children.len() {
                        substituted(children[i], replacement)
                    } else {
                        arbitrary()
                    },
            ),
            distinct,
            match filter {
                Some(filter) => Some(Box::new(substituted(*filter, replacement))),
                None => None,
            },
            ordered,
            ty,
        ),
    }
}

/// Every expression of the list with its column references replaced.
pub open spec fn all_substituted(
    expressions: Seq<ExpressionView>,
    replacement: ReplacementView,
) -> Seq<ExpressionView> {
    expressions.map_values(|e: ExpressionView| substituted(e, replacement))
}

pub proof fn lemma_substituted_children(e: ExpressionView, replacement: ReplacementView)
    ensures
        e matches ExpressionView::Conjunction(kind, children) ==> substituted(e, replacement)
            == ExpressionView::Conjunction(kind, all_substituted(children, replacement)),
        e matches ExpressionView::Operator(kind, children, ty) ==> substituted(e, replacement)
            == ExpressionView::Operator(kind, all_substituted(children, replacement), ty),
        e matches ExpressionView::Function(function, stability, children, ty) ==> substituted(
            e,
            replacement,
        ) == ExpressionView::Function(
            function,
            stability,
            all_substituted(children, replacement),
            ty,
        ),
        e matches ExpressionView::Aggregate(function, children, distinct, filter, ordered, ty)
            ==> substituted(e, replacement) == ExpressionView::Aggregate(
            function,
            all_substituted(children, replacement),
            distinct,
            match filter {
                Some(filter) => Some(Box::new(substituted(*filter, replacement))),
                None => None,
            },
            ordered,
            ty,
        ),
{
    let r = substituted(e, replacement);
    match e {
        ExpressionView::Conjunction(_, children) => {
            assert(r->Conjunction_1 =~= all_substituted(children, replacement));
        },
        ExpressionView::Operator(_, children, _) => {
            assert(r->Operator_1 =~= all_substituted(children, replacement));
        },
        ExpressionView::Function(_, _, children, _) => {
            assert(r->Function_2 =~= all_substituted(children, replacement));
        },
        ExpressionView::Aggregate(_, children, _, _, _, _) => {
            assert(r->Aggregate_1 =~= all_substituted(children, replacement));
        },
        _ => {},
    }
}

/// Replaces every column reference of `e`.
pub fn substitute(e: &Expression, replacement: &ColumnReplacement) -> (r: Expression)
    ensures
        r@ == substituted(e@, replacement@),
    decreases e,
{
    proof {
        lemma_view_children(*e);
        lemma_substituted_children(e@, replacement@);
    }
    match e {
        Expression::Constant(c) => e.copy(),
        Expression::ColumnRef(c) => replacement.apply(c),
        Expression::Reference(_) => e.copy(),
        Expression::Comparison(c) => {
            let left = substitute(&c.left, replacement);
            let right = substitute(&c.right, replacement);
            Expression::Comparison(
                Arc::new(
                    ComparisonExpression { comparison_type: c.comparison_type, left, right },
                ),
            )
        },
        Expression::Conjunction(c) => {
            let children = substitute_all(&c.children, replacement);
            let r = Expression::Conjunction(
                Arc::new(
                    ConjunctionExpression { conjunction_type: c.conjunction_type, children },
                ),
            );
            proof {
                lemma_view_children(r);
            }
            r
        },
        Expression::Cast(c) => {
            let child = substitute(&c.child, replacement);
            Expression::Cast(Arc::new(CastExpression { child, target_type: c.target_type }))
        },
        Expression::Operator(o) => {
            let children = substitute_all(&o.children, replacement);
            let r = Expression::Operator(
                Arc::new(
                    OperatorExpression {
                        operator_type: o.operator_type,
                        children,
                        return_type: o.return_type,
                    },
                ),
            );
            proof {
                lemma_view_children(r);
            }
            r
        },
        Expression::Function(f) => {
            let children = substitute_all(&f.children, replacement);
            let r = Expression::Function(
                Arc::new(
                    FunctionExpression {
                        function: f.function,
                        stability: f.stability,
                        children,
                        return_type: f.return_type,
                    },
                ),
            );
            proof {
                lemma_view_children(r);
            }
            r
        },
        Expression::Aggregate(a) => {
            let children = substitute_all(&a.children, replacement);
            let filter = match &a.filter {
                Some(filter) => Some(substitute(filter, replacement)),
                None => None,
            };
            let r = Expression::Aggregate(
                Arc::new(
                    AggregateExpression {
                        function: a.function,
                        children,
                        distinct: a.distinct,
                        filter,
                        ordered: a.ordered,
                        return_type: a.return_type,
                    },
                ),
            );
            proof {
                lemma_view_children(r);
            }
            r
        },
    }
}

/// Replaces every column reference of each expression.
pub fn substitute_all(expressions: &Vec<Expression>, replacement: &ColumnReplacement) -> (r: Vec<
    Expression,
>)
    ensures
        views(r@) == all_substituted(views(expressions@), replacement@),
    decreases expressions,
{
    let mut r: Vec<Expression> = Vec::new();
    let mut i: usize = 0;
    while i < expressions.len()
        invariant
            i <= expressions@.len(),
            r@.len() == i,
            forall|k: int|
                0 <= k < i ==> (#[trigger] r@[k])@ == substituted(expressions@[k]@, replacement@),
        decreases expressions@.len() - i,
    {
        let e = substitute(&expressions[i], replacement);
        r.push(e);
        i = i + 1;
    }
    assert(views(r@) =~= all_substituted(views(expressions@), replacement@));
    r
}

} // verus!
