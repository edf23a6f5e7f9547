//! What expressions come to on a row.
//!
//! A row gives each column a value, `None` being NULL. Nothing is said of what
//! functions compute: laws that hold for every way to compute them are laws of
//! the expressions alone.

use vstd::prelude::*;

use crate::cte::predicate_domain::respects_connectives;
use crate::expression::analysis::{any_mentions, any_reorder_fence, mentions, reorder_fence};
use crate::expression::equality::{equality_domain, fixed_value, lemma_branch};
use crate::expression::substitution::{
    all_substituted, lemma_substituted_children, lookup, substituted, ReplacementView,
};
use crate::expression::{
    AggregateFunction, ColumnRefExpression, ExpressionView, FunctionId, FunctionStability,
    ReferenceExpression,
};
use crate::types::{ColumnBinding, ComparisonType, ConjunctionType, LogicalType, OperatorType};
use crate::value::{Value, ValueView};

verus! {

/// Whether what expressions come to agrees with the columns of a row.
pub open spec fn reads_columns(
    value: spec_fn(ExpressionView) -> Option<int>,
    row: spec_fn(ColumnBinding) -> Option<int>,
) -> bool {
    forall|c: ColumnRefExpression| #[trigger]
        value(ExpressionView::ColumnRef(c)) == row(c.binding) || c.depth != 0
}

/// Whether what expressions come to agrees with what literals denote, of which
/// only NULL denotes no value.
pub open spec fn reads_literals(
    value: spec_fn(ExpressionView) -> Option<int>,
    literal: spec_fn(ValueView) -> Option<int>,
) -> bool {
    &&& forall|v: ValueView, ty: LogicalType| #[trigger]
        value(ExpressionView::Constant(v, ty)) == literal(v)
    &&& forall|v: ValueView| (#[trigger] literal(v)) is None <==> v == ValueView::Plain(Value::Null)
}

/// Whether comparisons hold as their operands compare.
pub open spec fn reads_comparisons(
    holds: spec_fn(ExpressionView) -> bool,
    value: spec_fn(ExpressionView) -> Option<int>,
) -> bool {
    forall|kind: ComparisonType, left: Box<ExpressionView>, right: Box<ExpressionView>| #[trigger]
        holds(ExpressionView::Comparison(kind, left, right)) <==> kind.is_true_of(
            value(*left),
            value(*right),
        )
}

/// Whether `part` is `e` itself or occurs below it.
pub open spec fn occurs(part: ExpressionView, e: ExpressionView) -> bool
    decreases e,
{
    part == e || match e {
        ExpressionView::Comparison(_, left, right) => occurs(part, *left) || occurs(part, *right),
        ExpressionView::Conjunction(_, children) => exists|i: int|
            0 <= i < children.len() && occurs(part, #[trigger] children[i]),
        ExpressionView::Cast(child, _) => occurs(part, *child),
        ExpressionView::Operator(_, children, _) => exists|i: int|
            0 <= i < children.len() && occurs(part, #[trigger] children[i]),
        ExpressionView::Function(_, _, children, _) => exists|i: int|
            0 <= i < children.len() && occurs(part, #[trigger] children[i]),
        ExpressionView::Aggregate(_, children, _, filter, _, _) => {
            ||| exists|i: int| 0 <= i < children.len() && occurs(part, #[trigger] children[i])
            ||| filter matches Some(filter) && occurs(part, *filter)
        },
        _ => false,
    }
}

/// Whether something with a property occurs in an expression.
pub open spec fn has_part(e: ExpressionView, property: spec_fn(ExpressionView) -> bool) -> bool {
    exists|part: ExpressionView| #[trigger] occurs(part, e) && property(part)
}

/// The property of referring to a column.
pub open spec fn refers_to(binding: ColumnBinding) -> spec_fn(ExpressionView) -> bool {
    |e: ExpressionView| e matches ExpressionView::ColumnRef(c) && c.binding == binding
}

/// The property of calling a function that may fail or change.
pub open spec fn calls_unstable() -> spec_fn(ExpressionView) -> bool {
    |e: ExpressionView|
        e matches ExpressionView::Function(_, stability, _, _) && !(stability is Stable)
}

pub proof fn lemma_has_part(e: ExpressionView, property: spec_fn(ExpressionView) -> bool)
    ensures
        has_part(e, property) <==> property(e) || match e {
            ExpressionView::Comparison(_, left, right) => has_part(*left, property) || has_part(
                *right,
                property,
            ),
            ExpressionView::Conjunction(_, children) => some_has_part(children, property),
            ExpressionView::Cast(child, _) => has_part(*child, property),
            ExpressionView::Operator(_, children, _) => some_has_part(children, property),
            ExpressionView::Function(_, _, children, _) => some_has_part(children, property),
            ExpressionView::Aggregate(_, children, _, filter, _, _) => {
                ||| some_has_part(children, property)
                ||| filter matches Some(filter) && has_part(*filter, property)
            },
            _ => false,
        },
{
    if property(e) {
        assert(occurs(e, e));
    }
    if has_part(e, property) {
        let part = choose|part: ExpressionView| #[trigger] occurs(part, e) && property(part);
        if part != e {
            match e {
                ExpressionView::Comparison(_, left, right) => {
                    if occurs(part, *left) {
                        assert(has_part(*left, property));
                    } else {
                        assert(occurs(part, *right));
                        assert(has_part(*right, property));
                    }
                },
                ExpressionView::Cast(child, _) => {
                    assert(occurs(part, *child));
                    assert(has_part(*child, property));
                },
                ExpressionView::Conjunction(_, children)
                | ExpressionView::Operator(_, children, _)
                | ExpressionView::Function(_, _, children, _) => {
                    let i = choose|i: int|
                        0 <= i < children.len() && occurs(part, #[trigger] children[i]);
                    assert(has_part(children[i], property));
                },
                ExpressionView::Aggregate(_, children, _, filter, _, _) => {
                    if exists|i: int| 0 <= i < children.len() && occurs(part, #[trigger] children[i]) {
                        let i = choose|i: int|
                            0 <= i < children.len() && occurs(part, #[trigger] children[i]);
                        assert(has_part(children[i], property));
                    } else {
                        assert(occurs(part, *(filter->0)));
                        assert(has_part(*(filter->0), property));
                    }
                },
                _ => {},
            }
        }
    }
    match e {
        ExpressionView::Comparison(_, left, right) => {
            if has_part(*left, property) {
                let part = choose|part: ExpressionView| #[trigger]
                    occurs(part, *left) && property(part);
                assert(occurs(part, e));
            }
            if has_part(*right, property) {
                let part = choose|part: ExpressionView| #[trigger]
                    occurs(part, *right) && property(part);
                assert(occurs(part, e));
            }
        },
        ExpressionView::Cast(child, _) => {
            if has_part(*child, property) {
                let part = choose|part: ExpressionView| #[trigger]
                    occurs(part, *child) && property(part);
                assert(occurs(part, e));
            }
        },
        ExpressionView::Conjunction(_, children)
        | ExpressionView::Operator(_, children, _)
        | ExpressionView::Function(_, _, children, _)
        | ExpressionView::Aggregate(_, children, _, _, _, _) => {
            if some_has_part(children, property) {
                let i = choose|i: int|
                    0 <= i < children.len() && has_part(#[trigger] children[i], property);
                let part = choose|part: ExpressionView| #[trigger]
                    occurs(part, children[i]) && property(part);
                assert(occurs(part, e));
            }
            if let ExpressionView::Aggregate(_, _, _, filter, _, _) = e {
                if filter is Some && has_part(*(filter->0), property) {
                    let part = choose|part: ExpressionView| #[trigger]
                        occurs(part, *(filter->0)) && property(part);
                    assert(occurs(part, e));
                }
            }
        },
        _ => {},
    }
}

pub open spec fn some_has_part(
    expressions: Seq<ExpressionView>,
    property: spec_fn(ExpressionView) -> bool,
) -> bool {
    exists|i: int| 0 <= i < expressions.len() && has_part(#[trigger] expressions[i], property)
}

/// An expression mentions a column exactly where a reference to it occurs in it,
/// however deep.
pub proof fn mentioned_columns_occur(e: ExpressionView, binding: ColumnBinding)
    ensures
        mentions(e, binding) <==> has_part(e, refers_to(binding)),
    decreases e, 0nat,
{
    lemma_has_part(e, refers_to(binding));
    match e {
        ExpressionView::Comparison(_, left, right) => {
            mentioned_columns_occur(*left, binding);
            mentioned_columns_occur(*right, binding);
        },
        ExpressionView::Cast(child, _) => {
            mentioned_columns_occur(*child, binding);
        },
        ExpressionView::Conjunction(_, children) => {
            lemma_mentioned_among(children, children.len(), binding);
        },
        ExpressionView::Operator(_, children, _) => {
            lemma_mentioned_among(children, children.len(), binding);
        },
        ExpressionView::Function(_, _, children, _) => {
            lemma_mentioned_among(children, children.len(), binding);
        },
        ExpressionView::Aggregate(_, children, _, filter, _, _) => {
            lemma_mentioned_among(children, children.len(), binding);
            if let Some(filter) = filter {
                mentioned_columns_occur(*filter, binding);
            }
        },
        _ => {},
    }
}

proof fn lemma_mentioned_among(
    expressions: Seq<ExpressionView>,
    n: nat,
    binding: ColumnBinding,
)
    requires
        n <= expressions.len(),
    ensures
        any_mentions(expressions, n, binding) <==> exists|i: int|
            0 <= i < n && has_part(#[trigger] expressions[i], refers_to(binding)),
    decreases expressions, n,
{
    if n > 0 {
        lemma_mentioned_among(expressions, (n - 1) as nat, binding);
        mentioned_columns_occur(expressions[n - 1], binding);
    }
}

/// Evaluating an expression elsewhere can be observed exactly where a function
/// that may fail or change occurs in it, however deep.
pub proof fn fences_call_unstable_functions(e: ExpressionView)
    ensures
        reorder_fence(e) <==> has_part(e, calls_unstable()),
    decreases e, 0nat,
{
    lemma_has_part(e, calls_unstable());
    match e {
        ExpressionView::Comparison(_, left, right) => {
            fences_call_unstable_functions(*left);
            fences_call_unstable_functions(*right);
        },
        ExpressionView::Cast(child, _) => {
            fences_call_unstable_functions(*child);
        },
        ExpressionView::Conjunction(_, children) => {
            lemma_fences_among(children, children.len());
        },
        ExpressionView::Operator(_, children, _) => {
            lemma_fences_among(children, children.len());
        },
        ExpressionView::Function(_, _, children, _) => {
            lemma_fences_among(children, children.len());
        },
        ExpressionView::Aggregate(_, children, _, filter, _, _) => {
            lemma_fences_among(children, children.len());
            if let Some(filter) = filter {
                fences_call_unstable_functions(*filter);
            }
        },
        _ => {},
    }
}

proof fn lemma_fences_among(expressions: Seq<ExpressionView>, n: nat)
    requires
        n <= expressions.len(),
    ensures
        any_reorder_fence(expressions, n) <==> exists|i: int|
            0 <= i < n && has_part(#[trigger] expressions[i], calls_unstable()),
    decreases expressions, n,
{
    if n > 0 {
        lemma_fences_among(expressions, (n - 1) as nat);
        fences_call_unstable_functions(expressions[n - 1]);
    }
}

/// An expression without what it is applied to.
pub enum Symbol {
    Constant(ValueView, LogicalType),
    Reference(ReferenceExpression),
    Comparison(ComparisonType),
    Conjunction(ConjunctionType),
    Cast(LogicalType),
    Operator(OperatorType, LogicalType),
    Function(FunctionId, FunctionStability, LogicalType),
    Aggregate(AggregateFunction, bool, bool, LogicalType),
    FilteredAggregate(AggregateFunction, bool, bool, LogicalType),
}

/// What an expression comes to, given what references to columns come to and how
/// everything else is computed from its inputs.
pub open spec fn evaluated(
    e: ExpressionView,
    column: spec_fn(ColumnRefExpression) -> int,
    compute: spec_fn(Symbol, Seq<int>) -> int,
) -> int
    decreases e, 0nat,
{
    match e {
        ExpressionView::Constant(v, ty) => compute(Symbol::Constant(v, ty), Seq::empty()),
        ExpressionView::ColumnRef(c) => column(c),
        ExpressionView::Reference(r) => compute(Symbol::Reference(r), Seq::empty()),
        ExpressionView::Comparison(kind, left, right) => compute(
            Symbol::Comparison(kind),
            seq![evaluated(*left, column, compute), evaluated(*right, column, compute)],
        ),
        ExpressionView::Conjunction(kind, children) => compute(
            Symbol::Conjunction(kind),
            all_evaluated(children, children.len(), column, compute),
        ),
        ExpressionView::Cast(child, ty) => compute(
            Symbol::Cast(ty),
            seq![evaluated(*child, column, compute)],
        ),
        ExpressionView::Operator(kind, children, ty) => compute(
            Symbol::Operator(kind, ty),
            all_evaluated(children, children.len(), column, compute),
        ),
        ExpressionView::Function(function, stability, children, ty) => compute(
            Symbol::Function(function, stability, ty),
            all_evaluated(children, children.len(), column, compute),
        ),
        ExpressionView::Aggregate(function, children, distinct, filter, ordered, ty) => {
            let inputs = all_evaluated(children, children.len(), column, compute);
            match filter {
                Some(filter) => compute(
                    Symbol::FilteredAggregate(function, distinct, ordered, ty),
                    inputs.push(evaluated(*filter, column, compute)),
                ),
                None => compute(Symbol::Aggregate(function, distinct, ordered, ty), inputs),
            }
        },
    }
}

/// What the first `n` expressions come to.
pub open spec fn all_evaluated(
    expressions: Seq<ExpressionView>,
    n: nat,
    column: spec_fn(ColumnRefExpression) -> int,
    compute: spec_fn(Symbol, Seq<int>) -> int,
) -> Seq<int>
    decreases expressions, n,
{
    if n == 0 || n > expressions.len() {
        Seq::empty()
    } else {
        all_evaluated(expressions, (n - 1) as nat, column, compute).push(
            evaluated(expressions[n - 1], column, compute),
        )
    }
}

/// What references to columns come to where each is replaced.
pub open spec fn through(
    replacement: ReplacementView,
    column: spec_fn(ColumnRefExpression) -> int,
    compute: spec_fn(Symbol, Seq<int>) -> int,
) -> spec_fn(ColumnRefExpression) -> int {
    |c: ColumnRefExpression| evaluated(replacement.image(c), column, compute)
}

/// Replacing columns and evaluating gives what evaluating gives where each column
/// comes to what replaces it.
pub proof fn replacing_is_evaluating_elsewhere(
    e: ExpressionView,
    replacement: ReplacementView,
    column: spec_fn(ColumnRefExpression) -> int,
    compute: spec_fn(Symbol, Seq<int>) -> int,
)
    ensures
        evaluated(substituted(e, replacement), column, compute) == evaluated(
            e,
            through(replacement, column, compute),
            compute,
        ),
    decreases e, 0nat,
{
    lemma_substituted_children(e, replacement);
    match e {
        ExpressionView::Comparison(_, left, right) => {
            replacing_is_evaluating_elsewhere(*left, replacement, column, compute);
            replacing_is_evaluating_elsewhere(*right, replacement, column, compute);
        },
        ExpressionView::Cast(child, _) => {
            replacing_is_evaluating_elsewhere(*child, replacement, column, compute);
        },
        ExpressionView::Conjunction(_, children) => {
            lemma_replacing_all(children, children.len(), replacement, column, compute);
        },
        ExpressionView::Operator(_, children, _) => {
            lemma_replacing_all(children, children.len(), replacement, column, compute);
        },
        ExpressionView::Function(_, _, children, _) => {
            lemma_replacing_all(children, children.len(), replacement, column, compute);
        },
        ExpressionView::Aggregate(_, children, _, filter, _, _) => {
            lemma_replacing_all(children, children.len(), replacement, column, compute);
            if let Some(filter) = filter {
                replacing_is_evaluating_elsewhere(*filter, replacement, column, compute);
            }
        },
        _ => {},
    }
}

proof fn lemma_replacing_all(
    expressions: Seq<ExpressionView>,
    n: nat,
    replacement: ReplacementView,
    column: spec_fn(ColumnRefExpression) -> int,
    compute: spec_fn(Symbol, Seq<int>) -> int,
)
    requires
        n <= expressions.len(),
    ensures
        all_evaluated(all_substituted(expressions, replacement), n, column, compute)
            == all_evaluated(expressions, n, through(replacement, column, compute), compute),
    decreases expressions, n,
{
    if n > 0 {
        lemma_replacing_all(expressions, (n - 1) as nat, replacement, column, compute);
        replacing_is_evaluating_elsewhere(expressions[n - 1], replacement, column, compute);
    }
}

proof fn lemma_lookup<T>(pairs: Seq<(ColumnBinding, T)>, binding: ColumnBinding)
    ensures
        match lookup(pairs, binding) {
            Some(found) => exists|i: int|
                0 <= i < pairs.len() && #[trigger] pairs[i] == (binding, found) && forall|j: int|
                    0 <= j < i ==> (#[trigger] pairs[j]).0 != binding,
            None => forall|i: int| 0 <= i < pairs.len() ==> (#[trigger] pairs[i]).0 != binding,
        },
    decreases pairs.len(),
{
    if pairs.len() > 0 {
        let rest = pairs.skip(1);
        lemma_lookup(rest, binding);
        if pairs[0].0 == binding {
            assert(pairs[0] == (binding, pairs[0].1));
        } else {
            match lookup(rest, binding) {
                Some(found) => {
                    let i = choose|i: int|
                        0 <= i < rest.len() && #[trigger] rest[i] == (binding, found) && forall|j: int|
                            0 <= j < i ==> (#[trigger] rest[j]).0 != binding;
                    assert(pairs[i + 1] == (binding, found));
                    assert forall|j: int| 0 <= j < i + 1 implies (#[trigger] pairs[j]).0 != binding by {
                        if j > 0 {
                            assert(rest[j - 1] == pairs[j]);
                        }
                    }
                },
                None => {
                    assert forall|i: int| 0 <= i < pairs.len() implies (#[trigger] pairs[i]).0
                        != binding by {
                        if i > 0 {
                            assert(rest[i - 1] == pairs[i]);
                        }
                    }
                },
            }
        }
    }
}

/// A replacement maps a column as the first pair for it says, and leaves columns
/// without a pair alone. A literal replaces columns of the current query level
/// only.
pub proof fn columns_are_replaced_by_their_first_pair(
    rebound: Seq<(ColumnBinding, ColumnBinding)>,
    fixed: Seq<(ColumnBinding, ValueView)>,
    column: ColumnRefExpression,
    i: int,
)
    ensures
        (forall|k: int| 0 <= k < rebound.len() ==> (#[trigger] rebound[k]).0 != column.binding)
            ==> ReplacementView::Rebind(rebound).image(column) == ExpressionView::ColumnRef(column),
        0 <= i < rebound.len() && rebound[i].0 == column.binding && (forall|k: int|
            0 <= k < i ==> (#[trigger] rebound[k]).0 != column.binding)
            ==> ReplacementView::Rebind(rebound).image(column) == ExpressionView::ColumnRef(
            ColumnRefExpression {
                binding: rebound[i].1,
                depth: column.depth,
                return_type: column.return_type,
            },
        ),
        column.depth != 0 || (forall|k: int|
            0 <= k < fixed.len() ==> (#[trigger] fixed[k]).0 != column.binding)
            ==> ReplacementView::Literals(fixed).image(column) == ExpressionView::ColumnRef(column),
        column.depth == 0 && 0 <= i < fixed.len() && fixed[i].0 == column.binding && (forall|
            k: int,
        |
            0 <= k < i ==> (#[trigger] fixed[k]).0 != column.binding)
            ==> ReplacementView::Literals(fixed).image(column) == ExpressionView::Constant(
            fixed[i].1,
            column.return_type,
        ),
{
    lemma_lookup(rebound, column.binding);
    lemma_lookup(fixed, column.binding);
    if let Some(found) = lookup(rebound, column.binding) {
        let k = choose|k: int|
            0 <= k < rebound.len() && #[trigger] rebound[k] == (column.binding, found) && forall|
                j: int,
            |
                0 <= j < k ==> (#[trigger] rebound[j]).0 != column.binding;
        assert(rebound[k].0 == column.binding);
        if 0 <= i < rebound.len() && rebound[i].0 == column.binding && i != k {
            if i < k {
                assert(rebound[i].0 != column.binding);
            }
        }
    }
    if let Some(found) = lookup(fixed, column.binding) {
        let k = choose|k: int|
            0 <= k < fixed.len() && #[trigger] fixed[k] == (column.binding, found) && forall|
                j: int,
            |
                0 <= j < k ==> (#[trigger] fixed[j]).0 != column.binding;
        assert(fixed[k].0 == column.binding);
        if 0 <= i < fixed.len() && fixed[i].0 == column.binding && i != k {
            if i < k {
                assert(fixed[i].0 != column.binding);
            }
        }
    }
}

/// A comparison that fixes a column is true only of rows that have the literal's
/// value there, and that value is not NULL.
pub proof fn fixed_column_has_the_literal(
    kind: ComparisonType,
    left: ExpressionView,
    right: ExpressionView,
    value: spec_fn(ExpressionView) -> Option<int>,
    row: spec_fn(ColumnBinding) -> Option<int>,
    literal: spec_fn(ValueView) -> Option<int>,
)
    requires
        reads_columns(value, row),
        reads_literals(value, literal),
        kind.is_true_of(value(left), value(right)),
        fixed_value(ExpressionView::Comparison(kind, Box::new(left), Box::new(right))) is Some,
    ensures
        ({
            let (binding, v) = fixed_value(
                ExpressionView::Comparison(kind, Box::new(left), Box::new(right)),
            )->0;
            row(binding) == literal(v) && row(binding) is Some
        }),
{
    match (left, right) {
        (ExpressionView::ColumnRef(c), ExpressionView::Constant(v, ty)) => {
            assert(value(ExpressionView::ColumnRef(c)) == row(c.binding));
            assert(value(ExpressionView::Constant(v, ty)) == literal(v));
        },
        (ExpressionView::Constant(v, ty), ExpressionView::ColumnRef(c)) => {
            assert(value(ExpressionView::ColumnRef(c)) == row(c.binding));
            assert(value(ExpressionView::Constant(v, ty)) == literal(v));
        },
        _ => {},
    }
}

/// An equality of a column of the current query level with a literal that is not
/// NULL fixes the column, whichever side it stands on.
pub proof fn equality_fixes_its_column(c: ColumnRefExpression, v: ValueView, ty: LogicalType)
    requires
        c.depth == 0,
        v != ValueView::Plain(Value::Null),
    ensures
        ({
            let column = Box::new(ExpressionView::ColumnRef(c));
            let constant = Box::new(ExpressionView::Constant(v, ty));
            let equal = ComparisonType::Equal;
            let same = ComparisonType::NotDistinctFrom;
            &&& fixed_value(ExpressionView::Comparison(equal, column, constant)) == Some(
                (c.binding, v),
            )
            &&& fixed_value(ExpressionView::Comparison(equal, constant, column)) == Some(
                (c.binding, v),
            )
            &&& fixed_value(ExpressionView::Comparison(same, column, constant)) == Some(
                (c.binding, v),
            )
            &&& fixed_value(ExpressionView::Comparison(same, constant, column)) == Some(
                (c.binding, v),
            )
        }),
{
}

/// A predicate that restricts a column to some literals is true only of rows that
/// have the value of one of them there.
pub proof fn restricted_column_has_a_listed_value(
    e: ExpressionView,
    holds: spec_fn(ExpressionView) -> bool,
    value: spec_fn(ExpressionView) -> Option<int>,
    row: spec_fn(ColumnBinding) -> Option<int>,
    literal: spec_fn(ValueView) -> Option<int>,
) -> (k: int)
    requires
        respects_connectives(holds),
        reads_comparisons(holds, value),
        reads_columns(value, row),
        reads_literals(value, literal),
        holds(e),
        equality_domain(e) is Some,
    ensures
        0 <= k < (equality_domain(e)->0).1.len(),
        row((equality_domain(e)->0).0) == literal((equality_domain(e)->0).1[k]),
        row((equality_domain(e)->0).0) is Some,
    decreases e,
{
    match e {
        ExpressionView::Conjunction(_, children) => {
            let i = choose|i: int| 0 <= i < children.len() && holds(#[trigger] children[i]);
            lemma_branch(children, children.len(), i);
            let j = restricted_column_has_a_listed_value(children[i], holds, value, row, literal);
            let v = (equality_domain(children[i])->0).1[j];
            assert((equality_domain(children[i])->0).1.contains(v));
            let all = (equality_domain(e)->0).1;
            assert(all.contains(v));
            choose|k: int| 0 <= k < all.len() && all[k] == v
        },
        ExpressionView::Comparison(kind, left, right) => {
            assert(holds(ExpressionView::Comparison(kind, left, right)));
            fixed_column_has_the_literal(kind, *left, *right, value, row, literal);
            0
        },
        _ => 0,
    }
}

} // verus!
