//! Structural questions about expressions, and column substitution.

use vstd::prelude::*;

use crate::expression::{Expression, ExpressionView, FunctionStability};
use crate::types::{ColumnBinding, LogicalType};

verus! {

/// The syntax trees of a sequence of expressions.
pub open spec fn views(expressions: Seq<Expression>) -> Seq<ExpressionView> {
    expressions.map_values(|e: Expression| e@)
}

/// The view of a compound expression holds the views of its parts in order.
pub proof fn lemma_view_children(e: Expression)
    ensures
        e matches Expression::Conjunction(c) ==> e@ == ExpressionView::Conjunction(
            c.conjunction_type,
            views(c.children@),
        ),
        e matches Expression::Operator(o) ==> e@ == ExpressionView::Operator(
            o.operator_type,
            views(o.children@),
            o.return_type,
        ),
        e matches Expression::Function(f) ==> e@ == ExpressionView::Function(
            f.function,
            f.stability,
            views(f.children@),
            f.return_type,
        ),
        e matches Expression::Aggregate(a) ==> e@ == ExpressionView::Aggregate(
            a.function,
            views(a.children@),
            a.distinct,
            match a.filter {
                Some(filter) => Some(Box::new(filter@)),
                None => None,
            },
            a.ordered,
            a.return_type,
        ),
{
    match e {
        Expression::Conjunction(c) => {
            assert(e@->Conjunction_1 =~= views(c.children@));
        },
        Expression::Operator(o) => {
            assert(e@->Operator_1 =~= views(o.children@));
        },
        Expression::Function(f) => {
            assert(e@->Function_2 =~= views(f.children@));
        },
        Expression::Aggregate(a) => {
            assert(e@->Aggregate_1 =~= views(a.children@));
        },
        _ => {},
    }
}

/// Whether a column reference to `binding` occurs anywhere in `e`.
pub open spec fn mentions(e: ExpressionView, binding: ColumnBinding) -> bool
    decreases e, 0nat,
{
    match e {
        ExpressionView::Constant(_, _) => false,
        ExpressionView::ColumnRef(c) => c.binding == binding,
        ExpressionView::Reference(_) => false,
        ExpressionView::Comparison(_, left, right) => mentions(*left, binding) || mentions(
            *right,
            binding,
        ),
        ExpressionView::Conjunction(_, children) => any_mentions(children, children.len(), binding),
        ExpressionView::Cast(child, _) => mentions(*child, binding),
        ExpressionView::Operator(_, children, _) => any_mentions(children, children.len(), binding),
        ExpressionView::Function(_, _, children, _) => any_mentions(
            children,
            children.len(),
            binding,
        ),
        ExpressionView::Aggregate(_, children, _, filter, _, _) => {
            ||| any_mentions(children, children.len(), binding)
            ||| match filter {
                Some(filter) => mentions(*filter, binding),
                None => false,
            }
        },
    }
}

/// Whether one of the first `n` expressions mentions `binding`.
pub open spec fn any_mentions(
    expressions: Seq<ExpressionView>,
    n: nat,
    binding: ColumnBinding,
) -> bool
    decreases expressions, n,
{
    if n == 0 || n > expressions.len() {
        false
    } else {
        any_mentions(expressions, (n - 1) as nat, binding) || mentions(
            expressions[n - 1],
            binding,
        )
    }
}

/// Whether evaluating `e` at another place or another number of times could
/// be observed: some function in it is volatile or can fail.
pub open spec fn reorder_fence(e: ExpressionView) -> bool
    decreases e, 0nat,
{
    match e {
        ExpressionView::Constant(_, _) => false,
        ExpressionView::ColumnRef(_) => false,
        ExpressionView::Reference(_) => false,
        ExpressionView::Comparison(_, left, right) => reorder_fence(*left) || reorder_fence(*right),
        ExpressionView::Conjunction(_, children) => any_reorder_fence(children, children.len()),
        ExpressionView::Cast(child, _) => reorder_fence(*child),
        ExpressionView::Operator(_, children, _) => any_reorder_fence(children, children.len()),
        ExpressionView::Function(_, stability, children, _) => stability
            != FunctionStability::Stable || any_reorder_fence(children, children.len()),
        ExpressionView::Aggregate(_, children, _, filter, _, _) => {
            ||| any_reorder_fence(children, children.len())
            ||| match filter {
                Some(filter) => reorder_fence(*filter),
                None => false,
            }
        },
    }
}

/// Whether one of the first `n` expressions is a reorder fence.
pub open spec fn any_reorder_fence(expressions: Seq<ExpressionView>, n: nat) -> bool
    decreases expressions, n,
{
    if n == 0 || n > expressions.len() {
        false
    } else {
        any_reorder_fence(expressions, (n - 1) as nat) || reorder_fence(expressions[n - 1])
    }
}

/// A list mentions a binding exactly when one of its expressions does.
pub proof fn lemma_any_mentions(expressions: Seq<ExpressionView>, n: nat, binding: ColumnBinding)
    requires
        n <= expressions.len(),
    ensures
        any_mentions(expressions, n, binding) <==> exists|i: int|
            0 <= i < n && #[trigger] mentions(expressions[i], binding),
    decreases n,
{
    if n > 0 {
        lemma_any_mentions(expressions, (n - 1) as nat, binding);
        if any_mentions(expressions, n, binding) {
            if any_mentions(expressions, (n - 1) as nat, binding) {
                let i = choose|i: int| 0 <= i < n - 1 && #[trigger] mentions(expressions[i], binding);
                assert(mentions(expressions[i], binding));
            } else {
                assert(mentions(expressions[n - 1], binding));
            }
        }
        if exists|i: int| 0 <= i < n && #[trigger] mentions(expressions[i], binding) {
            let i = choose|i: int| 0 <= i < n && #[trigger] mentions(expressions[i], binding);
            assert(mentions(expressions[i], binding));
            if i == n - 1 {
                assert(any_mentions(expressions, n, binding));
            } else {
                assert(any_mentions(expressions, (n - 1) as nat, binding));
            }
        }
    }
}

/// A list holds a reorder fence exactly when one of its expressions is one.
pub proof fn lemma_any_reorder_fence(expressions: Seq<ExpressionView>, n: nat)
    requires
        n <= expressions.len(),
    ensures
        any_reorder_fence(expressions, n) <==> exists|i: int|
            0 <= i < n && #[trigger] reorder_fence(expressions[i]),
    decreases n,
{
    if n > 0 {
        lemma_any_reorder_fence(expressions, (n - 1) as nat);
        if any_reorder_fence(expressions, n) {
            if any_reorder_fence(expressions, (n - 1) as nat) {
                let i = choose|i: int| 0 <= i < n - 1 && #[trigger] reorder_fence(expressions[i]);
                assert(reorder_fence(expressions[i]));
            } else {
                assert(reorder_fence(expressions[n - 1]));
            }
        }
        if exists|i: int| 0 <= i < n && #[trigger] reorder_fence(expressions[i]) {
            let i = choose|i: int| 0 <= i < n && #[trigger] reorder_fence(expressions[i]);
            assert(reorder_fence(expressions[i]));
            if i == n - 1 {
                assert(any_reorder_fence(expressions, n));
            } else {
                assert(any_reorder_fence(expressions, (n - 1) as nat));
            }
        }
    }
}

/// The type of the value that `e` computes.
pub open spec fn result_type(e: ExpressionView) -> LogicalType {
    match e {
        ExpressionView::Constant(_, ty) => ty,
        ExpressionView::ColumnRef(c) => c.return_type,
        ExpressionView::Reference(r) => r.return_type,
        ExpressionView::Comparison(_, _, _) => LogicalType::Boolean,
        ExpressionView::Conjunction(_, _) => LogicalType::Boolean,
        ExpressionView::Cast(_, ty) => ty,
        ExpressionView::Operator(_, _, ty) => ty,
        ExpressionView::Function(_, _, _, ty) => ty,
        ExpressionView::Aggregate(_, _, _, _, _, ty) => ty,
    }
}

impl Expression {
    pub fn return_type(&self) -> (r: LogicalType)
        ensures
            r == result_type(self@),
    {
        match self {
            Expression::Constant(c) => c.return_type,
            Expression::ColumnRef(c) => c.return_type,
            Expression::Reference(r) => r.return_type,
            Expression::Comparison(_) => LogicalType::Boolean,
            Expression::Conjunction(_) => LogicalType::Boolean,
            Expression::Cast(c) => c.target_type,
            Expression::Operator(o) => o.return_type,
            Expression::Function(f) => f.return_type,
            Expression::Aggregate(a) => a.return_type,
        }
    }

    pub fn is_reorder_fence(&self) -> (r: bool)
        ensures
            r == reorder_fence(self@),
        decreases self,
    {
        proof {
            lemma_view_children(*self);
        }
        match self {
            Expression::Constant(_) => false,
            Expression::ColumnRef(_) => false,
            Expression::Reference(_) => false,
            Expression::Comparison(c) => c.left.is_reorder_fence() || c.right.is_reorder_fence(),
            Expression::Conjunction(c) => contains_reorder_fence(&c.children),
            Expression::Cast(c) => c.child.is_reorder_fence(),
            Expression::Operator(o) => contains_reorder_fence(&o.children),
            Expression::Function(f) => f.stability != FunctionStability::Stable
                || contains_reorder_fence(&f.children),
            Expression::Aggregate(a) => contains_reorder_fence(&a.children) || match &a.filter {
                Some(filter) => filter.is_reorder_fence(),
                None => false,
            },
        }
    }
}

/// Whether some expression of the list is a reorder fence.
pub fn contains_reorder_fence(expressions: &Vec<Expression>) -> (r: bool)
    ensures
        r == any_reorder_fence(views(expressions@), expressions@.len()),
    decreases expressions,
{
    let mut found: bool = false;
    let mut i: usize = 0;
    while i < expressions.len()
        invariant
            i <= expressions@.len(),
            found == any_reorder_fence(views(expressions@), i as nat),
        decreases expressions@.len() - i,
    {
        assert(views(expressions@)[i as int] == expressions@[i as int]@);
        if expressions[i].is_reorder_fence() {
            found = true;
        }
        i = i + 1;
    }
    found
}

/// Adds the bindings of every column reference in `e` to `bindings`.
pub fn extract_column_bindings(e: &Expression, bindings: &mut Vec<ColumnBinding>)
    ensures
        forall|b: ColumnBinding|
            #![trigger final(bindings)@.contains(b)]
            #![trigger mentions(
                e@,
                b,
            )]
            final(bindings)@.contains(b) <==> (old(bindings)@.contains(b) || mentions(
                e@,
                b,
            )),
    decreases e,
{
    proof {
        lemma_view_children(*e);
    }
    match e {
        Expression::Constant(_) => {},
        Expression::Reference(_) => {},
        Expression::ColumnRef(c) => {
            bindings.push(c.binding);
            proof {
                assert forall|b: ColumnBinding|
                    #![trigger bindings@.contains(b)]
                    #![trigger mentions(
                        e@,
                        b,
                    )]
                    bindings@.contains(b) <==> (old(bindings)@.contains(b) || mentions(
                        e@,
                        b,
                    )) by {
                    lemma_push_contains(old(bindings)@, c.binding, b);
                }
            }
        },
        Expression::Comparison(c) => {
            extract_column_bindings(&c.left, bindings);
            let ghost middle = bindings@;
            extract_column_bindings(&c.right, bindings);
            proof {
                assert forall|b: ColumnBinding|
                    #![trigger bindings@.contains(b)]
                    #![trigger mentions(
                        e@,
                        b,
                    )]
                    bindings@.contains(b) <==> (old(bindings)@.contains(b) || mentions(
                        e@,
                        b,
                    )) by {
                    assert(middle.contains(b) <==> (old(bindings)@.contains(b) || mentions(
                        c.left@,
                        b,
                    )));
                    assert(bindings@.contains(b) <==> (middle.contains(b) || mentions(c.right@, b)));
                }
            }
        },
        Expression::Conjunction(c) => {
            extract_all_column_bindings(&c.children, bindings);
        },
        Expression::Cast(c) => {
            extract_column_bindings(&c.child, bindings);
            proof {
                assert forall|b: ColumnBinding|
                    #![trigger bindings@.contains(b)]
                    #![trigger mentions(
                        e@,
                        b,
                    )]
                    bindings@.contains(b) <==> (old(bindings)@.contains(b) || mentions(
                        e@,
                        b,
                    )) by {
                    assert(bindings@.contains(b) <==> (old(bindings)@.contains(b) || mentions(
                        c.child@,
                        b,
                    )));
                }
            }
        },
        Expression::Operator(o) => {
            extract_all_column_bindings(&o.children, bindings);
        },
        Expression::Function(f) => {
            extract_all_column_bindings(&f.children, bindings);
        },
        Expression::Aggregate(a) => {
            extract_all_column_bindings(&a.children, bindings);
            let ghost middle = bindings@;
            match &a.filter {
                Some(filter) => {
                    extract_column_bindings(filter, bindings);
                    proof {
                        assert forall|b: ColumnBinding|
                            #![trigger bindings@.contains(b)]
                            #![trigger mentions(e@, b)]
                            bindings@.contains(b) <==> (old(bindings)@.contains(b) || mentions(e@, b)) by {
                            assert(bindings@.contains(b) <==> (middle.contains(b) || mentions(
                                filter@,
                                b,
                            )));
                        }
                    }
                },
                None => {},
            }
        },
    }
}

proof fn lemma_push_contains(s: Seq<ColumnBinding>, pushed: ColumnBinding, b: ColumnBinding)
    ensures
        s.push(pushed).contains(b) <==> s.contains(b) || b == pushed,
{
    let t = s.push(pushed);
    if s.contains(b) {
        let k = choose|k: int| 0 <= k < s.len() && s[k] == b;
        assert(t[k] == b);
    }
    if b == pushed {
        assert(t[s.len() as int] == b);
    }
    if t.contains(b) && b != pushed {
        let k = choose|k: int| 0 <= k < t.len() && t[k] == b;
        assert(s[k] == b);
    }
}

/// Adds the bindings of every column reference in `expressions` to `bindings`.
pub fn extract_all_column_bindings(
    expressions: &Vec<Expression>,
    bindings: &mut Vec<ColumnBinding>,
)
    ensures
        forall|b: ColumnBinding|
            #![trigger final(bindings)@.contains(b)]
            #![trigger any_mentions(views(expressions@), expressions@.len(), b)]
            final(bindings)@.contains(b) <==> (old(bindings)@.contains(b) || any_mentions(
                views(expressions@),
                expressions@.len(),
                b,
            )),
    decreases expressions,
{
    let mut i: usize = 0;
    while i < expressions.len()
        invariant
            i <= expressions@.len(),
            forall|b: ColumnBinding|
                #![trigger bindings@.contains(b)]
                #![trigger any_mentions(
                    views(expressions@),
                    i as nat,
                    b,
                )]
                bindings@.contains(b) <==> (old(bindings)@.contains(b) || any_mentions(
                    views(expressions@),
                    i as nat,
                    b,
                )),
        decreases expressions@.len() - i,
    {
        let ghost before = bindings@;
        extract_column_bindings(&expressions[i], bindings);
        proof {
            assert(views(expressions@)[i as int] == expressions@[i as int]@);
            assert forall|b: ColumnBinding|
                #![trigger bindings@.contains(b)]
                #![trigger any_mentions(
                    views(expressions@),
                    (i + 1) as nat,
                    b,
                )]
                bindings@.contains(b) <==> (old(bindings)@.contains(b) || any_mentions(
                    views(expressions@),
                    (i + 1) as nat,
                    b,
                )) by {
                assert(before.contains(b) <==> (old(bindings)@.contains(b) || any_mentions(
                    views(expressions@),
                    i as nat,
                    b,
                )));
                assert(bindings@.contains(b) <==> (before.contains(b) || mentions(
                    expressions@[i as int]@,
                    b,
                )));
            }
        }
        i = i + 1;
    }
}

} // verus!
