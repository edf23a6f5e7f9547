//! Row estimates of operators that remove duplicates.

use vstd::prelude::*;

use crate::estimate::cardinality::{
    capped, fallback_distinct, fallback_group_distinct, greatest, least, maximum, minimum,
    saturating_add_u64, saturating_mul_u64,
};
use crate::expression::{ColumnRefExpression, Expression, ExpressionView};
use crate::operator::{Aggregate, OutputColumn};
use crate::plan::CardinalityEstimate;
use crate::statistics::{
    distinct_point, known_distinct_point, ColumnStatistics, ColumnStatisticsLookup,
};
use crate::types::ColumnBinding;

verus! {

/// The proven bound on a column's distinct values in a relation of at most
/// `max` rows.
pub open spec fn proven_upper(
    known: Map<ColumnBinding, ColumnStatistics>,
    binding: ColumnBinding,
    max: u64,
) -> Option<u64> {
    if !known.contains_key(binding) {
        None
    } else {
        match known[binding].guaranteed_distinct_upper {
            Some(upper) => Some(least(upper, max)),
            None => None,
        }
    }
}

/// Distinct values of a grouping expression: the estimate and, where one is
/// known, an upper bound. A sketch is no bound, so twice its count stands in.
pub open spec fn group_distinct(
    e: ExpressionView,
    known: Map<ColumnBinding, ColumnStatistics>,
    expected: u64,
    max: u64,
) -> (u64, Option<u64>) {
    match e {
        ExpressionView::ColumnRef(column) => {
            let point = distinct_point(known, column.binding);
            match proven_upper(known, column.binding, max) {
                Some(upper) => if point > 0 {
                    (least(point, upper), Some(upper))
                } else {
                    (least(upper, expected), Some(upper))
                },
                None => if point > 0 {
                    (point, Some(greatest(least(capped(point * 2), max), point)))
                } else {
                    (fallback_distinct(expected), None)
                },
            }
        },
        ExpressionView::Constant(_, _) => (1, Some(1)),
        _ => (fallback_distinct(expected), None),
    }
}

pub fn estimate_group_distinct<L: ColumnStatisticsLookup>(
    e: &Expression,
    columns: &L,
    child_expected_rows: u64,
    child_max_rows: u64,
) -> (r: (u64, Option<u64>))
    ensures
        r == group_distinct(e@, columns.known(), child_expected_rows, child_max_rows),
{
    match e {
        Expression::ColumnRef(column) => {
            let point: u64 = known_distinct_point(columns, &column.binding);
            let upper: Option<u64> = match columns.get(&column.binding) {
                Some(statistics) => match statistics.guaranteed_distinct_upper {
                    Some(upper) => Some(minimum(upper, child_max_rows)),
                    None => None,
                },
                None => None,
            };
            match upper {
                Some(upper) => if point > 0 {
                    (minimum(point, upper), Some(upper))
                } else {
                    (minimum(upper, child_expected_rows), Some(upper))
                },
                None => if point > 0 {
                    (
                        point,
                        Some(
                            maximum(minimum(saturating_mul_u64(point, 2), child_max_rows), point),
                        ),
                    )
                } else {
                    (fallback_group_distinct(child_expected_rows), None)
                },
            }
        },
        Expression::Constant(_) => (1, Some(1)),
        _ => (fallback_group_distinct(child_expected_rows), None),
    }
}

/// Distinct tuples of the first `n` grouping expressions over `child` rows.
pub open spec fn tuple_distinct(
    groups: Seq<Expression>,
    n: nat,
    known: Map<ColumnBinding, ColumnStatistics>,
    child: CardinalityEstimate,
) -> (u64, Option<u64>)
    decreases n,
{
    if n == 0 || n > groups.len() {
        (1, Some(1))
    } else {
        let (expected, upper) = tuple_distinct(groups, (n - 1) as nat, known, child);
        let (distinct, bound) = group_distinct(groups[n - 1]@, known, child.expected, child.max);
        (
            least(capped(expected * greatest(distinct, 1)), child.expected),
            match (upper, bound) {
                (Some(current), Some(bound)) => Some(least(capped(current * bound), child.max)),
                _ => None,
            },
        )
    }
}

/// How many of the first `n` grouping sets name a column.
pub open spec fn non_empty_sets(sets: Seq<Vec<usize>>, n: nat) -> nat
    decreases n,
{
    if n == 0 || n > sets.len() {
        0
    } else if sets[n - 1]@.len() > 0 {
        non_empty_sets(sets, (n - 1) as nat) + 1
    } else {
        non_empty_sets(sets, (n - 1) as nat)
    }
}

/// Grouping domains of an aggregation that have, and that lack, a key. A
/// domain without a key emits one row over any input, even an empty one.
pub open spec fn grouping_domains(aggregate: Aggregate) -> (int, int) {
    if aggregate.grouping_sets@.len() == 0 {
        (1, 0)
    } else {
        let keyed = non_empty_sets(aggregate.grouping_sets@, aggregate.grouping_sets@.len()) as int;
        (keyed, aggregate.grouping_sets@.len() - keyed)
    }
}

/// Rows of an aggregation over `child` rows, before its own predicate.
pub open spec fn aggregate_rows(
    aggregate: Aggregate,
    known: Map<ColumnBinding, ColumnStatistics>,
    child: CardinalityEstimate,
) -> CardinalityEstimate {
    if aggregate.groups@.len() == 0 {
        CardinalityEstimate::spec_exact(
            if aggregate.grouping_sets@.len() == 0 {
                1
            } else {
                aggregate.grouping_sets@.len() as u64
            },
        )
    } else {
        let (tuples, upper) = tuple_distinct(
            aggregate.groups@,
            aggregate.groups@.len(),
            known,
            child,
        );
        let base = least(tuples, child.expected);
        let (keyed, unkeyed) = grouping_domains(aggregate);
        let expected = capped(capped(base * keyed) + unkeyed);
        let most = match upper {
            Some(upper) => upper,
            None => child.max,
        };
        CardinalityEstimate {
            min: least(
                capped(capped(least((base / 2) as u64, expected) * keyed) + unkeyed),
                expected,
            ),
            expected,
            max: greatest(capped(capped(most * keyed) + unkeyed), expected),
        }
    }
}

proof fn lemma_non_empty_sets(sets: Seq<Vec<usize>>, n: nat)
    requires
        n <= sets.len(),
    ensures
        non_empty_sets(sets, n) <= n,
    decreases n,
{
    if n > 0 {
        lemma_non_empty_sets(sets, (n - 1) as nat);
    }
}

fn count_grouping_domains(aggregate: &Aggregate) -> (r: (u64, u64))
    ensures
        r.0 == grouping_domains(*aggregate).0,
        r.1 == grouping_domains(*aggregate).1,
{
    if aggregate.grouping_sets.len() == 0 {
        return (1, 0);
    }
    let mut keyed: u64 = 0;
    let mut i: usize = 0;
    while i < aggregate.grouping_sets.len()
        invariant
            i <= aggregate.grouping_sets@.len(),
            keyed == non_empty_sets(aggregate.grouping_sets@, i as nat),
            keyed <= i,
        decreases aggregate.grouping_sets@.len() - i,
    {
        if aggregate.grouping_sets[i].len() > 0 {
            keyed = keyed + 1;
        }
        i = i + 1;
    }
    (keyed, aggregate.grouping_sets.len() as u64 - keyed)
}

/// Estimates the rows of an aggregation before its own predicate.
pub fn estimate_aggregate_rows<L: ColumnStatisticsLookup>(
    aggregate: &Aggregate,
    columns: &L,
    child: CardinalityEstimate,
) -> (r: CardinalityEstimate)
    ensures
        r == aggregate_rows(*aggregate, columns.known(), child),
{
    if aggregate.groups.len() == 0 {
        return CardinalityEstimate::exact(
            if aggregate.grouping_sets.len() == 0 {
                1
            } else {
                aggregate.grouping_sets.len() as u64
            },
        );
    }
    let mut tuples: u64 = 1;
    let mut upper: Option<u64> = Some(1);
    let mut i: usize = 0;
    while i < aggregate.groups.len()
        invariant
            i <= aggregate.groups@.len(),
            (tuples, upper) == tuple_distinct(
                aggregate.groups@,
                i as nat,
                columns.known(),
                child,
            ),
        decreases aggregate.groups@.len() - i,
    {
        let (distinct, bound) = estimate_group_distinct(
            &aggregate.groups[i],
            columns,
            child.expected,
            child.max,
        );
        tuples = minimum(saturating_mul_u64(tuples, maximum(distinct, 1)), child.expected);
        upper = match (upper, bound) {
            (Some(current), Some(bound)) => Some(
                minimum(saturating_mul_u64(current, bound), child.max),
            ),
            _ => None,
        };
        i = i + 1;
    }
    let base: u64 = minimum(tuples, child.expected);
    let (keyed, unkeyed) = count_grouping_domains(aggregate);
    let expected: u64 = saturating_add_u64(saturating_mul_u64(base, keyed), unkeyed);
    let most: u64 = match upper {
        Some(upper) => upper,
        None => child.max,
    };
    CardinalityEstimate {
        min: minimum(
            saturating_add_u64(
                saturating_mul_u64(minimum(base / 2, expected), keyed),
                unkeyed,
            ),
            expected,
        ),
        expected,
        max: maximum(saturating_add_u64(saturating_mul_u64(most, keyed), unkeyed), expected),
    }
}

/// A plainly grouped aggregation of an empty input is empty.
pub proof fn grouping_an_empty_input_gives_no_group(
    aggregate: Aggregate,
    known: Map<ColumnBinding, ColumnStatistics>,
)
    requires
        aggregate.groups@.len() > 0,
        aggregate.grouping_sets@.len() == 0,
    ensures
        aggregate_rows(aggregate, known, CardinalityEstimate::spec_exact(0))
            == CardinalityEstimate::spec_exact(0),
{
    lemma_tuples_of_nothing(aggregate.groups@, aggregate.groups@.len(), known);
}

proof fn lemma_tuples_of_nothing(
    groups: Seq<Expression>,
    n: nat,
    known: Map<ColumnBinding, ColumnStatistics>,
)
    requires
        0 < n <= groups.len(),
    ensures
        tuple_distinct(groups, n, known, CardinalityEstimate::spec_exact(0)).0 == 0,
        tuple_distinct(groups, n, known, CardinalityEstimate::spec_exact(0)).1 matches Some(upper)
            ==> upper == 0,
{
}

/// A grouping set without a key emits a row over every input.
pub proof fn keyless_grouping_sets_always_emit(
    aggregate: Aggregate,
    known: Map<ColumnBinding, ColumnStatistics>,
    child: CardinalityEstimate,
)
    requires
        aggregate.groups@.len() > 0,
        grouping_domains(aggregate).1 > 0,
    ensures
        aggregate_rows(aggregate, known, child).expected >= 1,
        aggregate_rows(aggregate, known, child).min >= 1,
{
    lemma_non_empty_sets(aggregate.grouping_sets@, aggregate.grouping_sets@.len());
    let (tuples, upper) = tuple_distinct(aggregate.groups@, aggregate.groups@.len(), known, child);
    let base = least(tuples, child.expected);
    let (keyed, unkeyed) = grouping_domains(aggregate);
    vstd::arithmetic::mul::lemma_mul_nonnegative(base as int, keyed);
    let expected = capped(capped(base * keyed) + unkeyed);
    vstd::arithmetic::mul::lemma_mul_nonnegative(least((base / 2) as u64, expected) as int, keyed);
}

/// Distinct tuples of the first `n` columns, where some count is known.
pub open spec fn distinct_product(
    columns: Seq<OutputColumn>,
    n: nat,
    known: Map<ColumnBinding, ColumnStatistics>,
    limit: u64,
) -> (u64, bool)
    decreases n,
{
    if n == 0 || n > columns.len() {
        (1, false)
    } else {
        let (product, seen) = distinct_product(columns, (n - 1) as nat, known, limit);
        let distinct = distinct_point(known, columns[n - 1].binding);
        if distinct > 0 {
            (least(capped(product * distinct), limit), true)
        } else {
            (product, seen)
        }
    }
}

/// Rows of a duplicate elimination over the given columns.
pub open spec fn distinct_rows(
    columns: Seq<OutputColumn>,
    known: Map<ColumnBinding, ColumnStatistics>,
    child: CardinalityEstimate,
) -> CardinalityEstimate {
    let limit = greatest(child.expected, 1);
    let (product, seen) = distinct_product(columns, columns.len(), known, limit);
    let expected = if seen {
        product
    } else {
        fallback_distinct(child.expected)
    };
    CardinalityEstimate {
        min: (expected / 2) as u64,
        expected: least(expected, limit),
        max: least(capped(expected * 2), greatest(child.max, 1)),
    }
}

pub fn estimate_distinct_cardinality<L: ColumnStatisticsLookup>(
    output: &Vec<OutputColumn>,
    columns: &L,
    child: CardinalityEstimate,
) -> (r: CardinalityEstimate)
    ensures
        r == distinct_rows(output@, columns.known(), child),
{
    let limit: u64 = maximum(child.expected, 1);
    let mut product: u64 = 1;
    let mut seen: bool = false;
    let mut i: usize = 0;
    while i < output.len()
        invariant
            i <= output@.len(),
            (product, seen) == distinct_product(output@, i as nat, columns.known(), limit),
        decreases output@.len() - i,
    {
        let distinct: u64 = known_distinct_point(columns, &output[i].binding);
        if distinct > 0 {
            product = minimum(saturating_mul_u64(product, distinct), limit);
            seen = true;
        }
        i = i + 1;
    }
    let expected: u64 = if seen {
        product
    } else {
        fallback_group_distinct(child.expected)
    };
    CardinalityEstimate {
        min: expected / 2,
        expected: minimum(expected, limit),
        max: minimum(saturating_mul_u64(expected, 2), maximum(child.max, 1)),
    }
}

/// Product of the first `n` point estimates, at most `limit`; none where one
/// of them is unknown.
pub open spec fn outer_keys(points: Seq<u64>, n: nat, limit: u64) -> Option<u64>
    decreases n,
{
    if n == 0 || n > points.len() {
        Some(1)
    } else {
        match outer_keys(points, (n - 1) as nat, limit) {
            Some(product) => if points[n - 1] == 0 {
                None
            } else {
                Some(least(capped(product * points[n - 1]), limit))
            },
            None => None,
        }
    }
}

/// Distinct outer keys that a dependent join hands to its right side.
pub open spec fn delim_rows(points: Seq<u64>, outer: CardinalityEstimate) -> CardinalityEstimate {
    let expected = match outer_keys(points, points.len(), greatest(outer.expected, 1)) {
        Some(product) => product,
        None => fallback_distinct(outer.expected),
    };
    CardinalityEstimate {
        min: (expected / 2) as u64,
        expected,
        max: least(capped(expected * 2), greatest(outer.max, expected)),
    }
}

/// Estimates the distinct outer keys from the point estimates of the key
/// columns.
pub fn estimate_delim_rows(points: &Vec<u64>, outer: CardinalityEstimate) -> (r:
    CardinalityEstimate)
    ensures
        r == delim_rows(points@, outer),
{
    let limit: u64 = maximum(outer.expected, 1);
    let mut product: Option<u64> = Some(1);
    let mut i: usize = 0;
    while i < points.len()
        invariant
            i <= points@.len(),
            product == outer_keys(points@, i as nat, limit),
        decreases points@.len() - i,
    {
        product = match product {
            Some(product) => if points[i] == 0 {
                None
            } else {
                Some(minimum(saturating_mul_u64(product, points[i]), limit))
            },
            None => None,
        };
        i = i + 1;
    }
    let expected: u64 = match product {
        Some(product) => product,
        None => fallback_group_distinct(outer.expected),
    };
    CardinalityEstimate {
        min: expected / 2,
        expected,
        max: minimum(saturating_mul_u64(expected, 2), maximum(outer.max, expected)),
    }
}

/// The groups of a plain grouping are no more than the rows that are grouped, and
/// its bounds are in order.
pub proof fn groups_are_no_more_than_rows(
    aggregate: Aggregate,
    known: Map<ColumnBinding, ColumnStatistics>,
    child: CardinalityEstimate,
)
    requires
        aggregate.groups@.len() > 0,
        aggregate.grouping_sets@.len() == 0,
    ensures
        aggregate_rows(aggregate, known, child).expected <= child.expected,
        aggregate_rows(aggregate, known, child).min <= aggregate_rows(
            aggregate,
            known,
            child,
        ).expected,
        aggregate_rows(aggregate, known, child).expected <= aggregate_rows(
            aggregate,
            known,
            child,
        ).max,
        child.expected <= child.max ==> aggregate_rows(aggregate, known, child).max <= child.max,
{
    lemma_tuples_are_bounded(aggregate.groups@, aggregate.groups@.len(), known, child);
    let (tuples, upper) = tuple_distinct(aggregate.groups@, aggregate.groups@.len(), known, child);
    let base = least(tuples, child.expected);
    let (keyed, unkeyed) = grouping_domains(aggregate);
    lemma_times_one(base as int, keyed);
    let most = match upper {
        Some(upper) => upper,
        None => child.max,
    };
    lemma_times_one(most as int, keyed);
    lemma_times_one(least((base / 2) as u64, base) as int, keyed);
}

proof fn lemma_times_one(n: int, one: int)
    requires
        one == 1,
    ensures
        n * one == n,
        one * n == n,
{
    assert(n * one == n && one * n == n) by (nonlinear_arith)
        requires
            one == 1,
    ;
}

proof fn lemma_tuples_are_bounded(
    groups: Seq<Expression>,
    n: nat,
    known: Map<ColumnBinding, ColumnStatistics>,
    child: CardinalityEstimate,
)
    requires
        0 < n <= groups.len(),
    ensures
        tuple_distinct(groups, n, known, child).0 <= child.expected,
        tuple_distinct(groups, n, known, child).1 matches Some(upper) ==> upper <= child.max,
{
}

/// An aggregation without groups gives one row over any input, or one for each of
/// its grouping sets.
pub proof fn ungrouped_aggregation_gives_one_row(
    aggregate: Aggregate,
    known: Map<ColumnBinding, ColumnStatistics>,
    child: CardinalityEstimate,
)
    requires
        aggregate.groups@.len() == 0,
        aggregate.grouping_sets@.len() <= 1,
    ensures
        aggregate_rows(aggregate, known, child) == CardinalityEstimate::spec_exact(1),
{
}

/// Grouping by one column more never gives fewer groups of some rows, and one by a
/// constant more gives as many.
pub proof fn finer_grouping_gives_no_fewer_groups(
    groups: Seq<Expression>,
    n: nat,
    known: Map<ColumnBinding, ColumnStatistics>,
    child: CardinalityEstimate,
)
    requires
        0 < n <= groups.len(),
        child.expected > 0,
    ensures
        tuple_distinct(groups, (n - 1) as nat, known, child).0 <= tuple_distinct(
            groups,
            n,
            known,
            child,
        ).0,
        groups[n - 1]@ is Constant ==> tuple_distinct(groups, n, known, child).0 == tuple_distinct(
            groups,
            (n - 1) as nat,
            known,
            child,
        ).0,
{
    let before = tuple_distinct(groups, (n - 1) as nat, known, child).0;
    let (distinct, _) = group_distinct(groups[n - 1]@, known, child.expected, child.max);
    if n > 1 {
        lemma_tuples_are_bounded(groups, (n - 1) as nat, known, child);
    }
    assert(before <= before * greatest(distinct, 1)) by (nonlinear_arith)
        requires
            greatest(distinct, 1) >= 1,
            before >= 0,
    ;
    if groups[n - 1]@ is Constant {
        lemma_times_one(before as int, greatest(distinct, 1) as int);
    }
}

/// Grouping by one column gives as many groups as it has distinct values, as long
/// as there are as many rows; a proven bound is never exceeded.
pub proof fn one_column_groups_by_its_values(
    groups: Seq<Expression>,
    column: ColumnRefExpression,
    known: Map<ColumnBinding, ColumnStatistics>,
    child: CardinalityEstimate,
)
    requires
        groups.len() == 1,
        groups[0]@ == ExpressionView::ColumnRef(column),
        known.contains_key(column.binding),
        known[column.binding].distinct.point > 0,
        child.expected <= child.max,
    ensures
        ({
            let point = known[column.binding].distinct.point;
            let (expected, upper) = tuple_distinct(groups, 1, known, child);
            &&& known[column.binding].guaranteed_distinct_upper is None && point
                <= child.expected ==> expected == point && upper is Some && expected <= upper->0
            &&& known[column.binding].guaranteed_distinct_upper is None && point
                > child.expected ==> expected == child.expected
            &&& match known[column.binding].guaranteed_distinct_upper {
                Some(bound) => bound > 0 ==> {
                    &&& expected <= bound
                    &&& upper is Some && upper->0 <= bound
                    &&& point <= bound && point <= child.expected ==> expected == point
                },
                None => true,
            }
        }),
{
    let none = tuple_distinct(groups, 0, known, child);
    assert(none == (1u64, Some(1u64)));
    let (distinct, bound) = group_distinct(groups[0]@, known, child.expected, child.max);
    lemma_times_one(greatest(distinct, 1) as int, none.0 as int);
    lemma_times_one(bound->0 as int, none.1->0 as int);
}

/// Every grouping set with a key gives the groups of the plain grouping, and every
/// one without a key gives one row.
pub proof fn grouping_sets_repeat_the_grouping(
    aggregate: Aggregate,
    plain: Aggregate,
    known: Map<ColumnBinding, ColumnStatistics>,
    child: CardinalityEstimate,
)
    requires
        aggregate.groups@.len() > 0,
        aggregate.grouping_sets@.len() > 0,
        plain.groups == aggregate.groups,
        plain.grouping_sets@.len() == 0,
    ensures
        ({
            let keyed = aggregate.grouping_sets@.filter(|set: Vec<usize>| set@.len() > 0).len();
            let unkeyed = aggregate.grouping_sets@.len() - keyed;
            let groups = aggregate_rows(plain, known, child).expected;
            let all = aggregate_rows(aggregate, known, child).expected;
            &&& groups * keyed + unkeyed <= u64::MAX ==> all == groups * keyed + unkeyed
            &&& groups * keyed + unkeyed > u64::MAX ==> all == u64::MAX
        }),
{
    lemma_keyed_sets(aggregate.grouping_sets@, aggregate.grouping_sets@.len());
    assert(aggregate.grouping_sets@.take(aggregate.grouping_sets@.len() as int)
        =~= aggregate.grouping_sets@);
    let (tuples, _) = tuple_distinct(aggregate.groups@, aggregate.groups@.len(), known, child);
    let base = least(tuples, child.expected);
    let keyed = non_empty_sets(aggregate.grouping_sets@, aggregate.grouping_sets@.len()) as int;
    vstd::arithmetic::mul::lemma_mul_nonnegative(base as int, keyed);
    assert(base * 1 == base);
}

proof fn lemma_keyed_sets(sets: Seq<Vec<usize>>, n: nat)
    requires
        n <= sets.len(),
    ensures
        non_empty_sets(sets, n) == sets.take(n as int).filter(
            |set: Vec<usize>| set@.len() > 0,
        ).len(),
        non_empty_sets(sets, n) <= n,
    decreases n,
{
    reveal(Seq::filter);
    if n > 0 {
        lemma_keyed_sets(sets, (n - 1) as nat);
        assert(sets.take(n as int).drop_last() =~= sets.take(n - 1));
        assert(sets.take(n as int).last() == sets[n - 1]);
    }
}

/// Removing duplicates leaves no more rows than there were, and as many as a
/// single column has distinct values where there are that many rows.
pub proof fn distinct_rows_are_no_more_than_rows(
    columns: Seq<OutputColumn>,
    known: Map<ColumnBinding, ColumnStatistics>,
    child: CardinalityEstimate,
)
    ensures
        child.expected > 0 ==> distinct_rows(columns, known, child).expected <= child.expected,
        distinct_rows(columns, known, child).expected <= 1 || distinct_rows(
            columns,
            known,
            child,
        ).expected <= child.expected,
        child.max > 0 ==> distinct_rows(columns, known, child).max <= child.max,
        columns.len() == 1 && known.contains_key(columns[0].binding) && 0
            < known[columns[0].binding].distinct.point <= child.expected ==> distinct_rows(
            columns,
            known,
            child,
        ).expected == known[columns[0].binding].distinct.point,
        columns.len() == 1 && known.contains_key(columns[0].binding)
            && known[columns[0].binding].distinct.point > child.expected > 0 ==> distinct_rows(
            columns,
            known,
            child,
        ).expected == child.expected,
{
    if columns.len() == 1 {
        let limit = greatest(child.expected, 1);
        assert(distinct_product(columns, 0, known, limit) == (1u64, false));
        lemma_times_one(
            distinct_point(known, columns[0].binding) as int,
            distinct_product(columns, 0, known, limit).0 as int,
        );
    }
}

/// A dependent join hands its right side no more keys than it has rows on its
/// left, and as many as a single correlated column has values where it has that
/// many rows.
pub proof fn outer_keys_are_no_more_than_rows(points: Seq<u64>, outer: CardinalityEstimate)
    requires
        outer.expected > 0,
        points.len() > 0,
        forall|i: int| 0 <= i < points.len() ==> #[trigger] points[i] > 0,
    ensures
        delim_rows(points, outer).expected <= outer.expected,
        points.len() == 1 && points[0] <= outer.expected ==> delim_rows(points, outer).expected
            == points[0],
{
    lemma_outer_keys(points, points.len(), greatest(outer.expected, 1));
    if points.len() == 1 {
        let none = outer_keys(points, 0, greatest(outer.expected, 1));
        assert(none == Some(1u64));
        lemma_times_one(points[0] as int, none->0 as int);
    }
}

proof fn lemma_outer_keys(points: Seq<u64>, n: nat, limit: u64)
    requires
        0 < n <= points.len(),
        forall|i: int| 0 <= i < points.len() ==> #[trigger] points[i] > 0,
    ensures
        outer_keys(points, n, limit) is Some,
        outer_keys(points, n, limit)->0 <= limit,
    decreases n,
{
    if n > 1 {
        lemma_outer_keys(points, (n - 1) as nat, limit);
    } else {
        assert(outer_keys(points, 0, limit) == Some(1u64));
    }
    assert(points[n - 1] > 0);
}

} // verus!
