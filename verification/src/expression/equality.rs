//! What predicates say about the columns they compare.

use vstd::prelude::*;

use crate::expression::analysis::{lemma_view_children, views};
use crate::expression::{expression_view, Expression, ExpressionView};
use crate::types::{ColumnBinding, ComparisonType, ConjunctionType};
use crate::value::{Value, ValueView};

verus! {

/// Whether a comparison holds only of equal values.
pub open spec fn is_equality(kind: ComparisonType) -> bool {
    kind == ComparisonType::Equal || kind == ComparisonType::NotDistinctFrom
}

/// The literal that denotes SQL NULL.
pub open spec fn null_view() -> ValueView {
    ValueView::Plain(Value::Null)
}

/// The column of the current query level and the literal that a comparison
/// relates, in either order.
pub open spec fn column_and_literal(left: ExpressionView, right: ExpressionView) -> Option<
    (ColumnBinding, ValueView),
> {
    match (left, right) {
        (ExpressionView::ColumnRef(c), ExpressionView::Constant(v, _)) => if c.depth == 0 {
            Some((c.binding, v))
        } else {
            None
        },
        (ExpressionView::Constant(v, _), ExpressionView::ColumnRef(c)) => if c.depth == 0 {
            Some((c.binding, v))
        } else {
            None
        },
        _ => None,
    }
}

/// The non-NULL literal that an equality predicate fixes a column to.
pub open spec fn fixed_value(e: ExpressionView) -> Option<(ColumnBinding, ValueView)> {
    match e {
        ExpressionView::Comparison(kind, left, right) => if is_equality(kind) {
            match column_and_literal(*left, *right) {
                Some((binding, value)) => if value != null_view() {
                    Some((binding, value))
                } else {
                    None
                },
                None => None,
            }
        } else {
            None
        },
        _ => None,
    }
}

/// `values` followed by those of `more` that it does not hold yet.
pub open spec fn with_new(values: Seq<ValueView>, more: Seq<ValueView>) -> Seq<ValueView>
    decreases more.len(),
{
    if more.len() == 0 {
        values
    } else {
        let prefix = with_new(values, more.drop_last());
        if prefix.contains(more.last()) {
            prefix
        } else {
            prefix.push(more.last())
        }
    }
}

/// Column and values that a predicate restricts it to: one equality, or a
/// disjunction of such restrictions of one column.
pub open spec fn equality_domain(e: ExpressionView) -> Option<(ColumnBinding, Seq<ValueView>)>
    decreases e, 0nat,
{
    match e {
        ExpressionView::Comparison(_, _, _) => match fixed_value(e) {
            Some((binding, value)) => Some((binding, seq![value])),
            None => None,
        },
        ExpressionView::Conjunction(kind, children) => if kind == ConjunctionType::Or
            && children.len() > 0 {
            branch_domain(children, children.len())
        } else {
            None
        },
        _ => None,
    }
}

/// The restriction that the first `n` alternatives share.
pub open spec fn branch_domain(children: Seq<ExpressionView>, n: nat) -> Option<
    (ColumnBinding, Seq<ValueView>),
>
    decreases children, n,
{
    if n == 0 || n > children.len() {
        None
    } else if n == 1 {
        match equality_domain(children[0]) {
            Some((binding, values)) => Some((binding, with_new(Seq::empty(), values))),
            None => None,
        }
    } else {
        match (branch_domain(children, (n - 1) as nat), equality_domain(children[n - 1])) {
            (Some((binding, values)), Some((other, more))) => if binding == other {
                Some((binding, with_new(values, more)))
            } else {
                None
            },
            _ => None,
        }
    }
}

/// A predicate restricts its column soundly: whatever makes it true gives the
/// column one of the listed values. `holds` is any reading of predicates that
/// makes a disjunction true only through one of its alternatives and an
/// equality true only when the column has the literal's value.
pub proof fn equality_domain_is_sound(
    e: ExpressionView,
    holds: spec_fn(ExpressionView) -> bool,
    row: spec_fn(ColumnBinding) -> ValueView,
)
    requires
        forall|children: Seq<ExpressionView>|
            #[trigger] holds(ExpressionView::Conjunction(ConjunctionType::Or, children))
                ==> exists|i: int| 0 <= i < children.len() && holds(#[trigger] children[i]),
        forall|p: ExpressionView|
            #[trigger] holds(p) && fixed_value(p) is Some ==> row((fixed_value(p)->0).0)
                == (fixed_value(p)->0).1,
        holds(e),
        equality_domain(e) is Some,
    ensures
        (equality_domain(e)->0).1.contains(row((equality_domain(e)->0).0)),
    decreases e,
{
    match e {
        ExpressionView::Conjunction(kind, children) => {
            let i = choose|i: int| 0 <= i < children.len() && holds(#[trigger] children[i]);
            lemma_branch(children, children.len(), i);
            equality_domain_is_sound(children[i], holds, row);
        },
        _ => {
            assert((equality_domain(e)->0).1[0] == (fixed_value(e)->0).1);
        },
    }
}

proof fn lemma_with_new(values: Seq<ValueView>, more: Seq<ValueView>)
    ensures
        forall|v: ValueView| #[trigger] values.contains(v) ==> with_new(values, more).contains(v),
        forall|v: ValueView| #[trigger] more.contains(v) ==> with_new(values, more).contains(v),
        values.no_duplicates() ==> with_new(values, more).no_duplicates(),
        with_new(values, more).len() >= values.len(),
        more.len() > 0 ==> with_new(values, more).len() > 0,
    decreases more.len(),
{
    if more.len() > 0 {
        let rest = more.drop_last();
        lemma_with_new(values, rest);
        let prefix = with_new(values, rest);
        let r = with_new(values, more);
        assert forall|v: ValueView| prefix.contains(v) implies r.contains(v) by {
            let k = choose|k: int| 0 <= k < prefix.len() && prefix[k] == v;
            assert(r[k] == v);
        }
        assert(r.contains(more.last())) by {
            if !prefix.contains(more.last()) {
                assert(r[prefix.len() as int] == more.last());
            }
        }
        assert forall|v: ValueView| #[trigger] more.contains(v) implies r.contains(v) by {
            let k = choose|k: int| 0 <= k < more.len() && more[k] == v;
            if k < rest.len() {
                assert(rest[k] == v);
                assert(rest.contains(v));
            }
        }
    }
}

pub proof fn lemma_branch(children: Seq<ExpressionView>, n: nat, i: int)
    requires
        0 <= i < n <= children.len(),
        branch_domain(children, n) is Some,
    ensures
        equality_domain(children[i]) is Some,
        (equality_domain(children[i])->0).0 == (branch_domain(children, n)->0).0,
        forall|v: ValueView|
            #[trigger] (equality_domain(children[i])->0).1.contains(v) ==> (branch_domain(
                children,
                n,
            )->0).1.contains(v),
    decreases n,
{
    let own = (equality_domain(children[n - 1])->0).1;
    if n == 1 {
        lemma_with_new(Seq::empty(), own);
    } else {
        let values = (branch_domain(children, (n - 1) as nat)->0).1;
        lemma_with_new(values, own);
        if i < n - 1 {
            lemma_branch(children, (n - 1) as nat, i);
            assert forall|v: ValueView|
                #[trigger] (equality_domain(children[i])->0).1.contains(v) implies (branch_domain(
                children,
                n,
            )->0).1.contains(v) by {
                assert(values.contains(v));
            }
        }
    }
}

/// What a list of literals denotes.
pub open spec fn value_views(values: Seq<Value>) -> Seq<ValueView> {
    values.map_values(|v: Value| v@)
}

/// Whether `values` holds a literal that denotes the same as `value`.
pub fn contains_value(values: &Vec<Value>, value: &Value) -> (r: bool)
    ensures
        r == value_views(values@).contains(value@),
{
    let mut i: usize = 0;
    while i < values.len()
        invariant
            i <= values@.len(),
            forall|k: int| 0 <= k < i ==> value_views(values@)[k] != value@,
        decreases values@.len() - i,
    {
        if values[i].same(value) {
            assert(value_views(values@)[i as int] == value@);
            return true;
        }
        i = i + 1;
    }
    false
}

/// The column of the current query level and the non-NULL literal that an
/// equality predicate fixes it to.
pub fn fixed_column_value(e: &Expression) -> (r: Option<(ColumnBinding, Value)>)
    ensures
        match r {
            Some((binding, value)) => fixed_value(e@) == Some((binding, value@)),
            None => fixed_value(e@) is None,
        },
{
    proof {
        reveal_with_fuel(expression_view, 2);
    }
    let Expression::Comparison(c) = e else {
        return None;
    };
    if c.comparison_type != ComparisonType::Equal && c.comparison_type
        != ComparisonType::NotDistinctFrom {
        return None;
    }
    match (&c.left, &c.right) {
        (Expression::ColumnRef(column), Expression::Constant(constant)) => {
            if column.depth == 0 && !constant.value.is_null() {
                Some((column.binding, constant.value.copy()))
            } else {
                None
            }
        },
        (Expression::Constant(constant), Expression::ColumnRef(column)) => {
            if column.depth == 0 && !constant.value.is_null() {
                Some((column.binding, constant.value.copy()))
            } else {
                None
            }
        },
        _ => None,
    }
}

/// Extracts the finite value domain that an equality predicate proves of a
/// column. A disjunction is accepted only when every alternative restricts
/// the same column.
pub fn finite_equality_domain(e: &Expression) -> (r: Option<(ColumnBinding, Vec<Value>)>)
    ensures
        match r {
            Some((binding, values)) => equality_domain(e@) == Some((binding, value_views(values@))),
            None => equality_domain(e@) is None,
        },
    decreases e,
{
    proof {
        lemma_view_children(*e);
    }
    match e {
        Expression::Comparison(_) => match fixed_column_value(e) {
            Some((binding, value)) => {
                let mut values: Vec<Value> = Vec::new();
                values.push(value);
                assert(value_views(values@) =~= seq![value@]);
                Some((binding, values))
            },
            None => None,
        },
        Expression::Conjunction(c) => {
            if c.conjunction_type != ConjunctionType::Or || c.children.len() == 0 {
                return None;
            }
            branch_equality_domain(&c.children)
        },
        _ => None,
    }
}

fn branch_equality_domain(children: &Vec<Expression>) -> (r: Option<(ColumnBinding, Vec<Value>)>)
    requires
        children@.len() > 0,
    ensures
        match r {
            Some((binding, values)) => branch_domain(views(children@), children@.len()) == Some(
                (binding, value_views(values@)),
            ),
            None => branch_domain(views(children@), children@.len()) is None,
        },
    decreases children,
{
    let ghost all = views(children@);
    let mut binding: Option<ColumnBinding> = None;
    let mut values: Vec<Value> = Vec::new();
    let mut i: usize = 0;
    while i < children.len()
        invariant
            i <= children@.len(),
            all == views(children@),
            i == 0 ==> binding is None && value_views(values@) =~= Seq::empty(),
            i > 0 ==> binding is Some && branch_domain(all, i as nat) == Some(
                (binding->0, value_views(values@)),
            ),
        decreases children@.len() - i,
    {
        assert(all[i as int] == children@[i as int]@);
        let Some((child_binding, child_values)) = finite_equality_domain(&children[i]) else {
            proof {
                lemma_branch_stays_none(all, (i + 1) as nat, all.len());
            }
            return None;
        };
        if let Some(known) = binding {
            if known != child_binding {
                proof {
                    lemma_branch_stays_none(all, (i + 1) as nat, all.len());
                }
                return None;
            }
        }
        binding = Some(child_binding);
        append_new(&mut values, &child_values);
        i = i + 1;
    }
    match binding {
        Some(binding) => Some((binding, values)),
        None => None,
    }
}

proof fn lemma_branch_stays_none(children: Seq<ExpressionView>, n: nat, m: nat)
    requires
        0 < n <= m <= children.len(),
        branch_domain(children, n) is None,
    ensures
        branch_domain(children, m) is None,
    decreases m,
{
    if n < m {
        lemma_branch_stays_none(children, n, (m - 1) as nat);
    }
}

/// Appends those literals of `more` that `values` does not hold yet.
pub fn append_new(values: &mut Vec<Value>, more: &Vec<Value>)
    ensures
        value_views(final(values)@) == with_new(value_views(old(values)@), value_views(more@)),
{
    let ghost start = value_views(values@);
    let mut i: usize = 0;
    assert(value_views(more@).take(0) =~= Seq::empty());
    while i < more.len()
        invariant
            i <= more@.len(),
            value_views(values@) == with_new(start, value_views(more@).take(i as int)),
        decreases more@.len() - i,
    {
        let ghost before = values@;
        proof {
            let next = value_views(more@).take(i as int + 1);
            assert(next.drop_last() =~= value_views(more@).take(i as int));
            assert(next.last() == more@[i as int]@);
        }
        if !contains_value(values, &more[i]) {
            values.push(more[i].copy());
            assert(value_views(values@) =~= value_views(before).push(more@[i as int]@));
        }
        i = i + 1;
    }
    assert(value_views(more@).take(i as int) =~= value_views(more@));
}

} // verus!
