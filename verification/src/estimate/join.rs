//! Row estimates of comparison joins.

use vstd::arithmetic::div_mod::*;
use vstd::arithmetic::mul::*;
use vstd::prelude::*;

use crate::estimate::cardinality::{
    adjust_join_estimate, greatest, join_rows, least, maximum, minimum,
};
use crate::expression::{Expression, ExpressionView};
use crate::operator::{ComparisonJoin, JoinCondition};
use crate::plan::{CardinalityEstimate, UniqueKey};
use crate::statistics::{
    distinct_point, known_distinct_point, ColumnStatistics, ColumnStatisticsLookup,
};
use crate::types::{ColumnBinding, ComparisonType, JoinComparisonType, JoinType};
use crate::value::{Value, ValueView};

verus! {

/// The column that an expression passes on: a reference by binding or by
/// position, possibly cast. A cast changes the compared domain but not which
/// relation the value comes from.
pub open spec fn bound_column(e: ExpressionView, positional: Seq<ColumnBinding>) -> Option<
    ColumnBinding,
>
    decreases e,
{
    match e {
        ExpressionView::ColumnRef(column) => Some(column.binding),
        ExpressionView::Reference(reference) => if reference.index < positional.len() {
            Some(positional[reference.index as int])
        } else {
            None
        },
        ExpressionView::Cast(child, _) => bound_column(*child, positional),
        _ => None,
    }
}

pub fn expression_binding(e: &Expression, positional_bindings: &[ColumnBinding]) -> (r: Option<
    ColumnBinding,
>)
    ensures
        r == bound_column(e@, positional_bindings@),
    decreases e,
{
    match e {
        Expression::ColumnRef(column) => Some(column.binding),
        Expression::Reference(reference) => if reference.index < positional_bindings.len() {
            Some(positional_bindings[reference.index])
        } else {
            None
        },
        Expression::Cast(cast) => expression_binding(&cast.child, positional_bindings),
        _ => None,
    }
}

/// The two relations that an equality condition connects, the smaller first.
pub open spec fn relation_pair(
    condition: JoinCondition,
    left: Seq<ColumnBinding>,
    right: Seq<ColumnBinding>,
) -> Option<(usize, usize)> {
    if condition.comparison != JoinComparisonType::Equal && condition.comparison
        != JoinComparisonType::NotDistinctFrom {
        None
    } else {
        match (bound_column(condition.left@, left), bound_column(condition.right@, right)) {
            (Some(l), Some(r)) => if l.table_index <= r.table_index {
                Some((l.table_index, r.table_index))
            } else {
                Some((r.table_index, l.table_index))
            },
            _ => None,
        }
    }
}

/// The relations that an equality condition connects. Equalities between the
/// same two relations are correlated; no other conditions are.
pub fn equality_relation_pair(
    condition: &JoinCondition,
    left_bindings: &[ColumnBinding],
    right_bindings: &[ColumnBinding],
) -> (r: Option<(usize, usize)>)
    ensures
        r == relation_pair(*condition, left_bindings@, right_bindings@),
{
    if condition.comparison != JoinComparisonType::Equal && condition.comparison
        != JoinComparisonType::NotDistinctFrom {
        return None;
    }
    match (
        expression_binding(&condition.left, left_bindings),
        expression_binding(&condition.right, right_bindings),
    ) {
        (Some(l), Some(r)) => if l.table_index <= r.table_index {
            Some((l.table_index, r.table_index))
        } else {
            Some((r.table_index, l.table_index))
        },
        _ => None,
    }
}

/// Exchanging the inputs of a condition keeps its relation pair.
pub proof fn relation_pair_is_symmetric(
    condition: JoinCondition,
    flipped: JoinCondition,
    left: Seq<ColumnBinding>,
    right: Seq<ColumnBinding>,
)
    requires
        flipped.left == condition.right,
        flipped.right == condition.left,
        flipped.comparison == condition.comparison.spec_flip(),
    ensures
        relation_pair(flipped, right, left) == relation_pair(condition, left, right),
{
}

pub open spec fn as_comparison(comparison: JoinComparisonType) -> ComparisonType {
    match comparison {
        JoinComparisonType::Equal => ComparisonType::Equal,
        JoinComparisonType::NotEqual => ComparisonType::NotEqual,
        JoinComparisonType::LessThan => ComparisonType::LessThan,
        JoinComparisonType::GreaterThan => ComparisonType::GreaterThan,
        JoinComparisonType::LessThanOrEqual => ComparisonType::LessThanOrEqual,
        JoinComparisonType::GreaterThanOrEqual => ComparisonType::GreaterThanOrEqual,
        JoinComparisonType::NotDistinctFrom => ComparisonType::NotDistinctFrom,
        JoinComparisonType::DistinctFrom => ComparisonType::DistinctFrom,
    }
}

/// The comparison that a join condition makes.
pub fn join_comparison_to_comparison(comparison: JoinComparisonType) -> (r: ComparisonType)
    ensures
        r == as_comparison(comparison),
{
    match comparison {
        JoinComparisonType::Equal => ComparisonType::Equal,
        JoinComparisonType::NotEqual => ComparisonType::NotEqual,
        JoinComparisonType::LessThan => ComparisonType::LessThan,
        JoinComparisonType::GreaterThan => ComparisonType::GreaterThan,
        JoinComparisonType::LessThanOrEqual => ComparisonType::LessThanOrEqual,
        JoinComparisonType::GreaterThanOrEqual => ComparisonType::GreaterThanOrEqual,
        JoinComparisonType::NotDistinctFrom => ComparisonType::NotDistinctFrom,
        JoinComparisonType::DistinctFrom => ComparisonType::DistinctFrom,
    }
}

/// Rows of the input that owns `binding`; the left one where both do.
pub open spec fn owner_rows(
    binding: ColumnBinding,
    left: Seq<ColumnBinding>,
    right: Seq<ColumnBinding>,
    left_rows: u64,
    right_rows: u64,
) -> u64 {
    if left.contains(binding) {
        left_rows
    } else if right.contains(binding) {
        right_rows
    } else {
        u64::MAX
    }
}

/// Number of values that an equality condition compares, where both sides
/// have distinct counts: the larger of the two, each capped by the rows of
/// the input that owns it. One pair in that many matches.
pub open spec fn equality_values(
    condition: JoinCondition,
    left: Seq<ColumnBinding>,
    right: Seq<ColumnBinding>,
    left_rows: u64,
    right_rows: u64,
    known: Map<ColumnBinding, ColumnStatistics>,
) -> Option<u64> {
    if condition.comparison != JoinComparisonType::Equal && condition.comparison
        != JoinComparisonType::NotDistinctFrom {
        None
    } else {
        match (bound_column(condition.left@, left), bound_column(condition.right@, right)) {
            (Some(l), Some(r)) => if distinct_point(known, l) > 0 && distinct_point(known, r) > 0 {
                Some(
                    greatest(
                        greatest(
                            least(
                                distinct_point(known, l),
                                owner_rows(l, left, right, left_rows, right_rows),
                            ),
                            least(
                                distinct_point(known, r),
                                owner_rows(r, left, right, left_rows, right_rows),
                            ),
                        ),
                        1,
                    ),
                )
            } else {
                None
            },
            _ => None,
        }
    }
}

fn contains_binding(bindings: &[ColumnBinding], binding: ColumnBinding) -> (r: bool)
    ensures
        r == bindings@.contains(binding),
{
    let mut i: usize = 0;
    while i < bindings.len()
        invariant
            i <= bindings@.len(),
            forall|k: int| 0 <= k < i ==> bindings@[k] != binding,
        decreases bindings@.len() - i,
    {
        if bindings[i] == binding {
            return true;
        }
        i = i + 1;
    }
    false
}

fn rows_of_owner(
    binding: ColumnBinding,
    left_bindings: &[ColumnBinding],
    right_bindings: &[ColumnBinding],
    left_rows: u64,
    right_rows: u64,
) -> (r: u64)
    ensures
        r == owner_rows(binding, left_bindings@, right_bindings@, left_rows, right_rows),
{
    if contains_binding(left_bindings, binding) {
        left_rows
    } else if contains_binding(right_bindings, binding) {
        right_rows
    } else {
        u64::MAX
    }
}

/// The number of values that an equality condition compares. A condition
/// without one is estimated as an ordinary predicate.
pub fn equality_condition_values<L: ColumnStatisticsLookup>(
    condition: &JoinCondition,
    left_bindings: &[ColumnBinding],
    right_bindings: &[ColumnBinding],
    left_rows: u64,
    right_rows: u64,
    columns: &L,
) -> (r: Option<u64>)
    ensures
        r == equality_values(
            *condition,
            left_bindings@,
            right_bindings@,
            left_rows,
            right_rows,
            columns.known(),
        ),
{
    if condition.comparison != JoinComparisonType::Equal && condition.comparison
        != JoinComparisonType::NotDistinctFrom {
        return None;
    }
    let (left, right) = match (
        expression_binding(&condition.left, left_bindings),
        expression_binding(&condition.right, right_bindings),
    ) {
        (Some(left), Some(right)) => (left, right),
        _ => {
            return None;
        },
    };
    let left_distinct: u64 = known_distinct_point(columns, &left);
    let right_distinct: u64 = known_distinct_point(columns, &right);
    if left_distinct == 0 || right_distinct == 0 {
        return None;
    }
    let left_domain: u64 = minimum(
        left_distinct,
        rows_of_owner(left, left_bindings, right_bindings, left_rows, right_rows),
    );
    let right_domain: u64 = minimum(
        right_distinct,
        rows_of_owner(right, left_bindings, right_bindings, left_rows, right_rows),
    );
    Some(maximum(maximum(left_domain, right_domain), 1))
}

pub open spec fn bound_view(bound: Option<Value>) -> Option<ValueView> {
    match bound {
        Some(value) => Some(value@),
        None => None,
    }
}

fn same_bound(a: &Option<Value>, b: &Option<Value>) -> (r: bool)
    ensures
        r == (bound_view(*a) == bound_view(*b)),
{
    match (a, b) {
        (Some(a), Some(b)) => a.same(b),
        (None, None) => true,
        _ => false,
    }
}

/// Whether two columns carry the statistics of one key domain.
pub open spec fn same_domain(a: ColumnStatistics, b: ColumnStatistics) -> bool {
    &&& a.distinct.point != 0
    &&& a.distinct.point == b.distinct.point
    &&& a.logical_type == b.logical_type
    &&& bound_view(a.minimum) == bound_view(b.minimum)
    &&& bound_view(a.maximum) == bound_view(b.maximum)
}

pub open spec fn or_column(a: Option<ColumnBinding>, b: Option<ColumnBinding>) -> Option<
    ColumnBinding,
> {
    match a {
        Some(_) => a,
        None => b,
    }
}

/// Rows of a semi join whose only condition compares two columns of one key
/// domain for equality: demand rows do not multiply preserved rows.
pub open spec fn same_domain_semi_rows(
    join: ComparisonJoin,
    left: CardinalityEstimate,
    right: CardinalityEstimate,
    left_bindings: Seq<ColumnBinding>,
    right_bindings: Seq<ColumnBinding>,
    known: Map<ColumnBinding, ColumnStatistics>,
) -> Option<CardinalityEstimate> {
    if join.join_type != JoinType::Semi && join.join_type != JoinType::RightSemi {
        None
    } else if join.conditions@.len() != 1 || join.conditions@[0].comparison
        != JoinComparisonType::Equal {
        None
    } else {
        let from_left = join.join_type == JoinType::Semi;
        let preserved_bindings = if from_left {
            left_bindings
        } else {
            right_bindings
        };
        let demand_bindings = if from_left {
            right_bindings
        } else {
            left_bindings
        };
        let preserved = if from_left {
            left
        } else {
            right
        };
        let demand = if from_left {
            right
        } else {
            left
        };
        let condition = join.conditions@[0];
        let preserved_key = or_column(
            bound_column(condition.left@, preserved_bindings),
            bound_column(condition.right@, preserved_bindings),
        );
        let demand_key = or_column(
            bound_column(condition.right@, demand_bindings),
            bound_column(condition.left@, demand_bindings),
        );
        match (preserved_key, demand_key) {
            (Some(p), Some(d)) => if known.contains_key(p) && known.contains_key(d) && same_domain(
                known[p],
                known[d],
            ) {
                let expected = least(preserved.expected, demand.expected);
                Some(
                    CardinalityEstimate {
                        min: 0,
                        expected,
                        max: greatest(least(preserved.max, demand.max), expected),
                    },
                )
            } else {
                None
            },
            _ => None,
        }
    }
}

fn either_binding(
    first: &Expression,
    second: &Expression,
    bindings: &[ColumnBinding],
) -> (r: Option<ColumnBinding>)
    ensures
        r == or_column(bound_column(first@, bindings@), bound_column(second@, bindings@)),
{
    match expression_binding(first, bindings) {
        Some(binding) => Some(binding),
        None => expression_binding(second, bindings),
    }
}

/// Estimates a semi join between two filtered views of one key domain without
/// charging repeated demand keys as new matches.
pub fn estimate_same_domain_semi_join<L: ColumnStatisticsLookup>(
    join: &ComparisonJoin,
    left: CardinalityEstimate,
    right: CardinalityEstimate,
    left_bindings: &[ColumnBinding],
    right_bindings: &[ColumnBinding],
    columns: &L,
) -> (r: Option<CardinalityEstimate>)
    ensures
        r == same_domain_semi_rows(
            *join,
            left,
            right,
            left_bindings@,
            right_bindings@,
            columns.known(),
        ),
{
    let (preserved, demand, preserved_bindings, demand_bindings) = match join.join_type {
        JoinType::Semi => (left, right, left_bindings, right_bindings),
        JoinType::RightSemi => (right, left, right_bindings, left_bindings),
        _ => {
            return None;
        },
    };
    if join.conditions.len() != 1 {
        return None;
    }
    let condition = &join.conditions[0];
    if condition.comparison != JoinComparisonType::Equal {
        return None;
    }
    let Some(preserved_key) = either_binding(
        &condition.left,
        &condition.right,
        preserved_bindings,
    ) else {
        return None;
    };
    let Some(demand_key) = either_binding(&condition.right, &condition.left, demand_bindings) else {
        return None;
    };
    let Some(p) = columns.get(&preserved_key) else {
        return None;
    };
    let Some(d) = columns.get(&demand_key) else {
        return None;
    };
    if p.distinct.point == 0 || p.distinct.point != d.distinct.point || p.logical_type
        != d.logical_type || !same_bound(&p.minimum, &d.minimum) || !same_bound(
        &p.maximum,
        &d.maximum,
    ) {
        return None;
    }
    let expected: u64 = minimum(preserved.expected, demand.expected);
    Some(
        CardinalityEstimate {
            min: 0,
            expected,
            max: maximum(minimum(preserved.max, demand.max), expected),
        },
    )
}

/// A semi join over one key domain never estimates more rows than it
/// preserves, nor more than the demand supplies.
pub proof fn same_domain_semi_join_is_bounded(
    join: ComparisonJoin,
    left: CardinalityEstimate,
    right: CardinalityEstimate,
    left_bindings: Seq<ColumnBinding>,
    right_bindings: Seq<ColumnBinding>,
    known: Map<ColumnBinding, ColumnStatistics>,
)
    ensures
        same_domain_semi_rows(join, left, right, left_bindings, right_bindings, known) matches Some(
            rows,
        ) ==> rows.expected <= left.expected && rows.expected <= right.expected && rows.expected
            <= rows.max,
{
}

/// Whether some key consists of `binding` alone.
pub open spec fn has_single_column_key(keys: Seq<UniqueKey>, binding: ColumnBinding) -> bool {
    exists|k: int|
        0 <= k < keys.len() && (#[trigger] keys[k]).columns@.len() == 1
            && keys[k].columns@[0].binding == binding
}

pub fn has_single_column_unique_key(keys: &Vec<UniqueKey>, binding: ColumnBinding) -> (r: bool)
    ensures
        r == has_single_column_key(keys@, binding),
{
    let mut i: usize = 0;
    while i < keys.len()
        invariant
            i <= keys@.len(),
            forall|k: int|
                0 <= k < i ==> !((#[trigger] keys@[k]).columns@.len() == 1
                    && keys@[k].columns@[0].binding == binding),
        decreases keys@.len() - i,
    {
        if keys[i].columns.len() == 1 && keys[i].columns[0].binding == binding {
            return true;
        }
        i = i + 1;
    }
    false
}

/// `rows` rows, of which one in `domain` matches each of `selected` keys.
pub open spec fn scaled(rows: u64, selected: u64, domain: u64) -> u64 {
    let matched = (rows * selected) / (domain as int);
    if matched <= rows {
        matched as u64
    } else {
        rows
    }
}

fn scale(rows: u64, selected: u64, domain: u64) -> (r: u64)
    requires
        domain > 0,
    ensures
        r == scaled(rows, selected, domain),
{
    proof {
        lemma_mul_inequality(rows as int, u64::MAX as int, selected as int);
        lemma_mul_inequality(selected as int, u64::MAX as int, u64::MAX as int);
        lemma_mul_is_commutative(selected as int, u64::MAX as int);
        lemma_mul_nonnegative(rows as int, selected as int);
        lemma_div_nonneg_fits((rows * selected) as int, domain as int);
    }
    let matched: u128 = (rows as u128) * (selected as u128) / (domain as u128);
    if matched <= rows as u128 {
        matched as u64
    } else {
        rows
    }
}

proof fn lemma_div_nonneg_fits(n: int, d: int)
    requires
        n >= 0,
        d > 0,
    ensures
        n / d >= 0,
{
    lemma_div_pos_is_pos(n, d);
}

pub open spec fn unique_lookup(
    fact: CardinalityEstimate,
    dimension: CardinalityEstimate,
    domain: u64,
) -> CardinalityEstimate {
    let expected = scaled(fact.expected, dimension.expected, domain);
    CardinalityEstimate {
        min: least(scaled(fact.min, dimension.min, domain), expected),
        expected,
        max: greatest(scaled(fact.max, dimension.max, domain), expected),
    }
}

/// Rows of an equality lookup into a unique relation: each fact row matches
/// with the share of the fact key's domain that the dimension selects.
pub fn unique_lookup_estimate(
    fact: CardinalityEstimate,
    dimension: CardinalityEstimate,
    domain: u64,
) -> (r: CardinalityEstimate)
    requires
        domain > 0,
    ensures
        r == unique_lookup(fact, dimension, domain),
{
    let expected: u64 = scale(fact.expected, dimension.expected, domain);
    CardinalityEstimate {
        min: minimum(scale(fact.min, dimension.min, domain), expected),
        expected,
        max: maximum(scale(fact.max, dimension.max, domain), expected),
    }
}

/// A unique lookup matches each fact row at most once.
pub proof fn unique_lookup_never_multiplies(
    fact: CardinalityEstimate,
    dimension: CardinalityEstimate,
    domain: u64,
)
    requires
        domain > 0,
    ensures
        unique_lookup(fact, dimension, domain).expected <= fact.expected,
        unique_lookup(fact, dimension, domain).min <= unique_lookup(
            fact,
            dimension,
            domain,
        ).expected <= unique_lookup(fact, dimension, domain).max,
{
    lemma_mul_nonnegative(fact.expected as int, dimension.expected as int);
    lemma_div_nonneg_fits(fact.expected * dimension.expected, domain as int);
}

/// Matching rows of a join whose only condition is an equality with a unique
/// key of one input and a distinct count of the other.
pub open spec fn unique_dimension_rows(
    join: ComparisonJoin,
    left: CardinalityEstimate,
    right: CardinalityEstimate,
    left_bindings: Seq<ColumnBinding>,
    right_bindings: Seq<ColumnBinding>,
    left_keys: Seq<UniqueKey>,
    right_keys: Seq<UniqueKey>,
    known: Map<ColumnBinding, ColumnStatistics>,
) -> Option<CardinalityEstimate> {
    if join.conditions@.len() != 1 || join.conditions@[0].comparison != JoinComparisonType::Equal {
        None
    } else {
        let condition = join.conditions@[0];
        match (
            bound_column(condition.left@, left_bindings),
            bound_column(condition.right@, right_bindings),
        ) {
            (Some(l), Some(r)) => if has_single_column_key(right_keys, r) {
                if distinct_point(known, l) == 0 {
                    None
                } else {
                    Some(unique_lookup(left, right, distinct_point(known, l)))
                }
            } else if has_single_column_key(left_keys, l) {
                if distinct_point(known, r) == 0 {
                    None
                } else {
                    Some(unique_lookup(right, left, distinct_point(known, r)))
                }
            } else {
                None
            },
            _ => None,
        }
    }
}

/// Estimates an equality lookup into a declared unique relation against the
/// key domain that is present on the other side.
pub fn estimate_unique_dimension_join<L: ColumnStatisticsLookup>(
    join: &ComparisonJoin,
    left: CardinalityEstimate,
    right: CardinalityEstimate,
    left_bindings: &[ColumnBinding],
    right_bindings: &[ColumnBinding],
    left_keys: &Vec<UniqueKey>,
    right_keys: &Vec<UniqueKey>,
    columns: &L,
) -> (r: Option<CardinalityEstimate>)
    ensures
        r == unique_dimension_rows(
            *join,
            left,
            right,
            left_bindings@,
            right_bindings@,
            left_keys@,
            right_keys@,
            columns.known(),
        ),
{
    if join.conditions.len() != 1 {
        return None;
    }
    let condition = &join.conditions[0];
    if condition.comparison != JoinComparisonType::Equal {
        return None;
    }
    let Some(left_key) = expression_binding(&condition.left, left_bindings) else {
        return None;
    };
    let Some(right_key) = expression_binding(&condition.right, right_bindings) else {
        return None;
    };
    if has_single_column_unique_key(right_keys, right_key) {
        let domain: u64 = known_distinct_point(columns, &left_key);
        if domain == 0 {
            return None;
        }
        return Some(unique_lookup_estimate(left, right, domain));
    }
    if has_single_column_unique_key(left_keys, left_key) {
        let domain: u64 = known_distinct_point(columns, &right_key);
        if domain == 0 {
            return None;
        }
        return Some(unique_lookup_estimate(right, left, domain));
    }
    None
}

/// Whether an equality condition of the list compares `binding` on one side.
pub open spec fn equated(
    conditions: Seq<JoinCondition>,
    on_left: bool,
    bindings: Seq<ColumnBinding>,
    binding: ColumnBinding,
) -> bool {
    exists|i: int|
        0 <= i < conditions.len() && (#[trigger] conditions[i]).comparison
            == JoinComparisonType::Equal && bound_column(
            if on_left {
                conditions[i].left@
            } else {
                conditions[i].right@
            },
            bindings,
        ) == Some(binding)
}

fn is_equated(
    conditions: &Vec<JoinCondition>,
    on_left: bool,
    bindings: &[ColumnBinding],
    binding: ColumnBinding,
) -> (r: bool)
    ensures
        r == equated(conditions@, on_left, bindings@, binding),
{
    let mut i: usize = 0;
    while i < conditions.len()
        invariant
            i <= conditions@.len(),
            forall|k: int|
                0 <= k < i ==> !((#[trigger] conditions@[k]).comparison == JoinComparisonType::Equal
                    && bound_column(
                    if on_left {
                        conditions@[k].left@
                    } else {
                        conditions@[k].right@
                    },
                    bindings@,
                ) == Some(binding)),
        decreases conditions@.len() - i,
    {
        if conditions[i].comparison == JoinComparisonType::Equal {
            let side = if on_left {
                &conditions[i].left
            } else {
                &conditions[i].right
            };
            if let Some(found) = expression_binding(side, bindings) {
                if found == binding {
                    return true;
                }
            }
        }
        i = i + 1;
    }
    false
}

/// Whether equality conditions fix every column of a non-empty key.
pub open spec fn covers_a_key(
    keys: Seq<UniqueKey>,
    conditions: Seq<JoinCondition>,
    on_left: bool,
    bindings: Seq<ColumnBinding>,
) -> bool {
    exists|k: int|
        0 <= k < keys.len() && (#[trigger] keys[k]).columns@.len() > 0 && key_is_equated(
            keys[k],
            conditions,
            on_left,
            bindings,
        )
}

pub open spec fn key_is_equated(
    key: UniqueKey,
    conditions: Seq<JoinCondition>,
    on_left: bool,
    bindings: Seq<ColumnBinding>,
) -> bool {
    forall|c: int|
        0 <= c < key.columns@.len() ==> equated(
            conditions,
            on_left,
            bindings,
            (#[trigger] key.columns@[c]).binding,
        )
}

fn covers_key(
    keys: &Vec<UniqueKey>,
    conditions: &Vec<JoinCondition>,
    on_left: bool,
    bindings: &[ColumnBinding],
) -> (r: bool)
    ensures
        r == covers_a_key(keys@, conditions@, on_left, bindings@),
{
    let mut k: usize = 0;
    while k < keys.len()
        invariant
            k <= keys@.len(),
            forall|j: int|
                0 <= j < k ==> !((#[trigger] keys@[j]).columns@.len() > 0 && key_is_equated(
                    keys@[j],
                    conditions@,
                    on_left,
                    bindings@,
                )),
        decreases keys@.len() - k,
    {
        let mut all: bool = true;
        let mut c: usize = 0;
        while c < keys[k].columns.len()
            invariant
                k < keys@.len(),
                c <= keys@[k as int].columns@.len(),
                all == (forall|j: int|
                    0 <= j < c ==> equated(
                        conditions@,
                        on_left,
                        bindings@,
                        (#[trigger] keys@[k as int].columns@[j]).binding,
                    )),
            decreases keys@[k as int].columns@.len() - c,
        {
            let ghost before = c;
            if !is_equated(conditions, on_left, bindings, keys[k].columns[c].binding) {
                all = false;
                assert(!equated(
                    conditions@,
                    on_left,
                    bindings@,
                    keys@[k as int].columns@[before as int].binding,
                ));
            }
            c = c + 1;
        }
        if keys[k].columns.len() > 0 && all {
            return true;
        }
        k = k + 1;
    }
    false
}

pub open spec fn bounded_by(
    estimate: CardinalityEstimate,
    bound: CardinalityEstimate,
) -> CardinalityEstimate {
    let expected = least(estimate.expected, bound.expected);
    CardinalityEstimate {
        min: least(estimate.min, expected),
        expected,
        max: greatest(least(estimate.max, bound.max), expected),
    }
}

/// Matching rows of a join, given that a key covered by its equality
/// conditions admits at most one match per row of the other input.
pub open spec fn unique_capped(
    estimate: CardinalityEstimate,
    join: ComparisonJoin,
    left: CardinalityEstimate,
    right: CardinalityEstimate,
    left_bindings: Seq<ColumnBinding>,
    right_bindings: Seq<ColumnBinding>,
    left_keys: Seq<UniqueKey>,
    right_keys: Seq<UniqueKey>,
) -> CardinalityEstimate {
    let by_right = if covers_a_key(right_keys, join.conditions@, false, right_bindings) {
        bounded_by(estimate, left)
    } else {
        estimate
    };
    if covers_a_key(left_keys, join.conditions@, true, left_bindings) {
        bounded_by(by_right, right)
    } else {
        by_right
    }
}

fn bound_estimate(estimate: CardinalityEstimate, bound: CardinalityEstimate) -> (r:
    CardinalityEstimate)
    ensures
        r == bounded_by(estimate, bound),
{
    let expected: u64 = minimum(estimate.expected, bound.expected);
    CardinalityEstimate {
        min: minimum(estimate.min, expected),
        expected,
        max: maximum(minimum(estimate.max, bound.max), expected),
    }
}

/// Caps a join estimate by the unique keys that its equality conditions cover.
pub fn cap_unique_join(
    estimate: CardinalityEstimate,
    join: &ComparisonJoin,
    left: CardinalityEstimate,
    right: CardinalityEstimate,
    left_bindings: &[ColumnBinding],
    right_bindings: &[ColumnBinding],
    left_keys: &Vec<UniqueKey>,
    right_keys: &Vec<UniqueKey>,
) -> (r: CardinalityEstimate)
    ensures
        r == unique_capped(
            estimate,
            *join,
            left,
            right,
            left_bindings@,
            right_bindings@,
            left_keys@,
            right_keys@,
        ),
{
    let mut r = estimate;
    if covers_key(right_keys, &join.conditions, false, right_bindings) {
        r = bound_estimate(r, left);
    }
    if covers_key(left_keys, &join.conditions, true, left_bindings) {
        r = bound_estimate(r, right);
    }
    r
}

/// A join on a whole unique key of one input never estimates more rows than
/// the other input has.
pub proof fn covered_keys_bound_the_join(
    estimate: CardinalityEstimate,
    join: ComparisonJoin,
    left: CardinalityEstimate,
    right: CardinalityEstimate,
    left_bindings: Seq<ColumnBinding>,
    right_bindings: Seq<ColumnBinding>,
    left_keys: Seq<UniqueKey>,
    right_keys: Seq<UniqueKey>,
)
    ensures
        ({
            let rows = unique_capped(
                estimate,
                join,
                left,
                right,
                left_bindings,
                right_bindings,
                left_keys,
                right_keys,
            );
            &&& covers_a_key(right_keys, join.conditions@, false, right_bindings) ==> rows.expected
                <= left.expected
            &&& covers_a_key(left_keys, join.conditions@, true, left_bindings) ==> rows.expected
                <= right.expected
            &&& rows.expected <= estimate.expected
        }),
{
}

/// How the rows of a comparison join are found.
#[derive(Clone, Copy, Debug, PartialEq, Eq, Structural)]
pub enum JoinDecision {
    /// Statistics and keys give the rows.
    Rows(CardinalityEstimate),
    /// The pairs of both inputs are reduced by the selectivity of the
    /// conditions.
    BySelectivity,
}

pub open spec fn comparison_join(
    join: ComparisonJoin,
    left: CardinalityEstimate,
    right: CardinalityEstimate,
    left_bindings: Seq<ColumnBinding>,
    right_bindings: Seq<ColumnBinding>,
    left_keys: Seq<UniqueKey>,
    right_keys: Seq<UniqueKey>,
    known: Map<ColumnBinding, ColumnStatistics>,
) -> JoinDecision {
    match same_domain_semi_rows(join, left, right, left_bindings, right_bindings, known) {
        Some(rows) => JoinDecision::Rows(rows),
        None => match unique_dimension_rows(
            join,
            left,
            right,
            left_bindings,
            right_bindings,
            left_keys,
            right_keys,
            known,
        ) {
            Some(inner) => JoinDecision::Rows(
                join_rows(
                    unique_capped(
                        inner,
                        join,
                        left,
                        right,
                        left_bindings,
                        right_bindings,
                        left_keys,
                        right_keys,
                    ),
                    left,
                    right,
                    join.join_type,
                ),
            ),
            None => JoinDecision::BySelectivity,
        },
    }
}

/// Decides how the rows of a comparison join are estimated.
pub fn estimate_comparison_join<L: ColumnStatisticsLookup>(
    join: &ComparisonJoin,
    left: CardinalityEstimate,
    right: CardinalityEstimate,
    left_bindings: &[ColumnBinding],
    right_bindings: &[ColumnBinding],
    left_keys: &Vec<UniqueKey>,
    right_keys: &Vec<UniqueKey>,
    columns: &L,
) -> (r: JoinDecision)
    ensures
        r == comparison_join(
            *join,
            left,
            right,
            left_bindings@,
            right_bindings@,
            left_keys@,
            right_keys@,
            columns.known(),
        ),
{
    if let Some(rows) = estimate_same_domain_semi_join(
        join,
        left,
        right,
        left_bindings,
        right_bindings,
        columns,
    ) {
        return JoinDecision::Rows(rows);
    }
    if let Some(inner) = estimate_unique_dimension_join(
        join,
        left,
        right,
        left_bindings,
        right_bindings,
        left_keys,
        right_keys,
        columns,
    ) {
        let capped_inner = cap_unique_join(
            inner,
            join,
            left,
            right,
            left_bindings,
            right_bindings,
            left_keys,
            right_keys,
        );
        return JoinDecision::Rows(adjust_join_estimate(capped_inner, left, right, join.join_type));
    }
    JoinDecision::BySelectivity
}

/// Rows of a comparison join whose pairs, reduced by the selectivity of the
/// conditions, are estimated by `selected`.
pub fn complete_comparison_join(
    selected: CardinalityEstimate,
    join: &ComparisonJoin,
    left: CardinalityEstimate,
    right: CardinalityEstimate,
    left_bindings: &[ColumnBinding],
    right_bindings: &[ColumnBinding],
    left_keys: &Vec<UniqueKey>,
    right_keys: &Vec<UniqueKey>,
) -> (r: CardinalityEstimate)
    ensures
        r == join_rows(
            unique_capped(
                selected,
                *join,
                left,
                right,
                left_bindings@,
                right_bindings@,
                left_keys@,
                right_keys@,
            ),
            left,
            right,
            join.join_type,
        ),
{
    let inner = cap_unique_join(
        selected,
        join,
        left,
        right,
        left_bindings,
        right_bindings,
        left_keys,
        right_keys,
    );
    adjust_join_estimate(inner, left, right, join.join_type)
}

/// A condition connects two relations only where it is true of equal values alone.
pub proof fn connected_relations_have_equal_values(
    condition: JoinCondition,
    left: Seq<ColumnBinding>,
    right: Seq<ColumnBinding>,
    a: Option<int>,
    b: Option<int>,
)
    requires
        relation_pair(condition, left, right) is Some,
        condition.comparison.is_true_of(a, b),
    ensures
        a == b,
        (relation_pair(condition, left, right)->0).0 <= (relation_pair(
            condition,
            left,
            right,
        )->0).1,
{
}

/// A comparison of a join means the same as the comparison of an expression that
/// stands for it.
pub proof fn join_comparison_keeps_the_meaning(
    comparison: JoinComparisonType,
    a: Option<int>,
    b: Option<int>,
)
    ensures
        as_comparison(comparison).is_true_of(a, b) <==> comparison.is_true_of(a, b),
{
}

/// The values that a condition compares are counted only where it is true of equal
/// values alone; there is at least one of them, and no more than the larger side
/// has, or the rows that it stands in.
pub proof fn compared_values_are_counted(
    condition: JoinCondition,
    left: Seq<ColumnBinding>,
    right: Seq<ColumnBinding>,
    left_rows: u64,
    right_rows: u64,
    known: Map<ColumnBinding, ColumnStatistics>,
    l: ColumnBinding,
    r: ColumnBinding,
)
    requires
        bound_column(condition.left@, left) == Some(l),
        bound_column(condition.right@, right) == Some(r),
        left.contains(l),
        right.contains(r) && !left.contains(r),
        equality_values(condition, left, right, left_rows, right_rows, known) is Some,
    ensures
        ({
            let values = equality_values(condition, left, right, left_rows, right_rows, known)->0;
            let on_left = distinct_point(known, l);
            let on_right = distinct_point(known, r);
            &&& forall|a: Option<int>, b: Option<int>| #[trigger]
                condition.comparison.is_true_of(a, b) ==> a == b
            &&& values >= 1
            &&& values <= on_left || values <= on_right
            &&& values <= left_rows || values <= right_rows || values == 1
            &&& on_left <= left_rows && on_right <= right_rows ==> values >= on_left && values
                >= on_right
        }),
{
}

/// Exchanging the inputs of a condition compares as many values.
pub proof fn compared_values_are_symmetric(
    condition: JoinCondition,
    flipped: JoinCondition,
    left: Seq<ColumnBinding>,
    right: Seq<ColumnBinding>,
    left_rows: u64,
    right_rows: u64,
    known: Map<ColumnBinding, ColumnStatistics>,
)
    requires
        flipped.left == condition.right,
        flipped.right == condition.left,
        flipped.comparison == condition.comparison.spec_flip(),
        forall|b: ColumnBinding| #[trigger] left.contains(b) ==> !right.contains(b),
    ensures
        equality_values(flipped, right, left, right_rows, left_rows, known) == equality_values(
            condition,
            left,
            right,
            left_rows,
            right_rows,
            known,
        ),
{
}

/// Two rows on one side that match the same row on the other agree in what the
/// conditions compare each column of a covered key by, and none of it is NULL: a
/// key admits one match. `first` and `second` are what operands come to on the two
/// pairs of rows.
pub proof fn covered_key_admits_one_match(
    keys: Seq<UniqueKey>,
    conditions: Seq<JoinCondition>,
    on_left: bool,
    bindings: Seq<ColumnBinding>,
    first: spec_fn(ExpressionView) -> Option<int>,
    second: spec_fn(ExpressionView) -> Option<int>,
) -> (k: int)
    requires
        covers_a_key(keys, conditions, on_left, bindings),
        forall|i: int|
            0 <= i < conditions.len() ==> (#[trigger] conditions[i]).is_true_in(first)
                && conditions[i].is_true_in(second),
        forall|i: int|
            0 <= i < conditions.len() ==> {
                let other = if on_left {
                    (#[trigger] conditions[i]).right@
                } else {
                    conditions[i].left@
                };
                first(other) == second(other)
            },
    ensures
        0 <= k < keys.len(),
        keys[k].columns@.len() > 0,
        forall|c: int|
            0 <= c < keys[k].columns@.len() ==> agree_on(
                conditions,
                on_left,
                bindings,
                (#[trigger] keys[k].columns@[c]).binding,
                first,
                second,
            ),
{
    let k = choose|k: int|
        0 <= k < keys.len() && (#[trigger] keys[k]).columns@.len() > 0 && key_is_equated(
            keys[k],
            conditions,
            on_left,
            bindings,
        );
    assert forall|c: int| 0 <= c < keys[k].columns@.len() implies agree_on(
        conditions,
        on_left,
        bindings,
        (#[trigger] keys[k].columns@[c]).binding,
        first,
        second,
    ) by {
        let binding = keys[k].columns@[c].binding;
        assert(equated(conditions, on_left, bindings, binding));
        let i = choose|i: int|
            0 <= i < conditions.len() && (#[trigger] conditions[i]).comparison
                == JoinComparisonType::Equal && bound_column(
                if on_left {
                    conditions[i].left@
                } else {
                    conditions[i].right@
                },
                bindings,
            ) == Some(binding);
        assert(conditions[i].is_true_in(first) && conditions[i].is_true_in(second));
    }
    k
}

/// Whether two pairs of rows agree in an operand that stands for a column.
pub open spec fn agree_on(
    conditions: Seq<JoinCondition>,
    on_left: bool,
    bindings: Seq<ColumnBinding>,
    binding: ColumnBinding,
    first: spec_fn(ExpressionView) -> Option<int>,
    second: spec_fn(ExpressionView) -> Option<int>,
) -> bool {
    exists|i: int|
        {
            let operand = if on_left {
                (#[trigger] conditions[i]).left@
            } else {
                conditions[i].right@
            };
            &&& 0 <= i < conditions.len()
            &&& bound_column(operand, bindings) == Some(binding)
            &&& first(operand) == second(operand)
            &&& first(operand) is Some
        }
}

/// A join whose conditions cover no key keeps its estimate, and so does one that
/// expects no more matches than its bounds already.
pub proof fn uncovered_join_is_unbounded(
    estimate: CardinalityEstimate,
    join: ComparisonJoin,
    left: CardinalityEstimate,
    right: CardinalityEstimate,
    left_bindings: Seq<ColumnBinding>,
    right_bindings: Seq<ColumnBinding>,
    left_keys: Seq<UniqueKey>,
    right_keys: Seq<UniqueKey>,
)
    ensures
        ({
            let rows = unique_capped(
                estimate,
                join,
                left,
                right,
                left_bindings,
                right_bindings,
                left_keys,
                right_keys,
            );
            let by_right = covers_a_key(right_keys, join.conditions@, false, right_bindings);
            let by_left = covers_a_key(left_keys, join.conditions@, true, left_bindings);
            &&& !by_right && !by_left ==> rows == estimate
            &&& rows.expected == estimate.expected || (by_right && rows.expected == left.expected)
                || (by_left && rows.expected == right.expected)
            &&& estimate.min <= estimate.expected <= estimate.max ==> rows.min <= rows.expected
                <= rows.max
        }),
{
}

/// A lookup of rows in a dimension with unique keys finds nothing in an empty one,
/// each row in one that holds all keys, and in between the same share of the rows
/// as it holds of the keys.
pub proof fn unique_lookup_finds_its_share(
    fact: CardinalityEstimate,
    dimension: CardinalityEstimate,
    domain: u64,
)
    requires
        domain > 0,
    ensures
        dimension.expected == 0 ==> unique_lookup(fact, dimension, domain).expected == 0,
        dimension.expected >= domain ==> unique_lookup(fact, dimension, domain).expected
            == fact.expected,
        dimension.expected <= domain ==> {
            let found = unique_lookup(fact, dimension, domain).expected;
            &&& found * domain <= fact.expected * dimension.expected
            &&& fact.expected * dimension.expected < (found + 1) * domain
        },
{
    let rows = fact.expected as int;
    let selected = dimension.expected as int;
    let d = domain as int;
    vstd::arithmetic::div_mod::lemma_fundamental_div_mod(rows * selected, d);
    vstd::arithmetic::div_mod::lemma_mod_bound(rows * selected, d);
    let q = (rows * selected) / d;
    assert(q * d <= rows * selected < (q + 1) * d) by (nonlinear_arith)
        requires
            rows * selected == d * q + (rows * selected) % d,
            0 <= (rows * selected) % d < d,
    ;
    if selected == 0 {
        assert(rows * selected == 0) by (nonlinear_arith)
            requires
                selected == 0,
        ;
        assert(q == 0) by (nonlinear_arith)
            requires
                q * d <= 0 < (q + 1) * d,
                d > 0,
        ;
    }
    if selected >= d {
        assert(q >= rows) by (nonlinear_arith)
            requires
                rows * selected < (q + 1) * d,
                selected >= d,
                d > 0,
                rows >= 0,
        ;
    }
    if selected <= d {
        assert(0 <= q <= rows) by (nonlinear_arith)
            requires
                q * d <= rows * selected < (q + 1) * d,
                0 <= selected <= d,
                d > 0,
                rows >= 0,
        ;
    }
}

/// A join on a unique key of one input expects no more matches than the other
/// input has rows, and only an equality that NULL never passes is such a join.
pub proof fn unique_key_join_follows_the_other_input(
    join: ComparisonJoin,
    left: CardinalityEstimate,
    right: CardinalityEstimate,
    left_bindings: Seq<ColumnBinding>,
    right_bindings: Seq<ColumnBinding>,
    left_keys: Seq<UniqueKey>,
    right_keys: Seq<UniqueKey>,
    known: Map<ColumnBinding, ColumnStatistics>,
)
    requires
        unique_dimension_rows(
            join,
            left,
            right,
            left_bindings,
            right_bindings,
            left_keys,
            right_keys,
            known,
        ) is Some,
    ensures
        ({
            let rows = unique_dimension_rows(
                join,
                left,
                right,
                left_bindings,
                right_bindings,
                left_keys,
                right_keys,
                known,
            )->0;
            let r = bound_column(join.conditions@[0].right@, right_bindings);
            let l = bound_column(join.conditions@[0].left@, left_bindings);
            &&& join.conditions@.len() == 1
            &&& forall|a: Option<int>, b: Option<int>| #[trigger]
                join.conditions@[0].comparison.is_true_of(a, b) ==> a == b && a is Some
            &&& r is Some && l is Some
            &&& has_single_column_key(right_keys, r->0) ==> rows.expected <= left.expected
            &&& !has_single_column_key(right_keys, r->0) ==> has_single_column_key(
                left_keys,
                l->0,
            ) && rows.expected <= right.expected
        }),
{
    let l = bound_column(join.conditions@[0].left@, left_bindings)->0;
    let r = bound_column(join.conditions@[0].right@, right_bindings)->0;
    if has_single_column_key(right_keys, r) {
        unique_lookup_never_multiplies(left, right, distinct_point(known, l));
    } else {
        unique_lookup_never_multiplies(right, left, distinct_point(known, r));
    }
}

/// A semi join over one key domain gives as many rows as the smaller side, and the
/// domain is one only where both columns have the same type, values and bounds.
pub proof fn same_domain_semi_join_gives_the_smaller_side(
    join: ComparisonJoin,
    left: CardinalityEstimate,
    right: CardinalityEstimate,
    left_bindings: Seq<ColumnBinding>,
    right_bindings: Seq<ColumnBinding>,
    known: Map<ColumnBinding, ColumnStatistics>,
)
    requires
        same_domain_semi_rows(join, left, right, left_bindings, right_bindings, known) is Some,
    ensures
        ({
            let rows = same_domain_semi_rows(
                join,
                left,
                right,
                left_bindings,
                right_bindings,
                known,
            )->0;
            &&& join.join_type is Semi || join.join_type is RightSemi
            &&& join.conditions@.len() == 1
            &&& forall|a: Option<int>, b: Option<int>| #[trigger]
                join.conditions@[0].comparison.is_true_of(a, b) ==> a == b && a is Some
            &&& rows.expected == left.expected || rows.expected == right.expected
            &&& rows.expected <= left.expected && rows.expected <= right.expected
            &&& rows.min == 0
        }),
{
}

/// Being of one key domain is mutual.
pub proof fn same_domain_is_symmetric(a: ColumnStatistics, b: ColumnStatistics)
    ensures
        same_domain(a, b) == same_domain(b, a),
        same_domain(a, b) ==> a.distinct.point == b.distinct.point && a.distinct.point > 0,
{
}

/// An expression without the casts around it.
pub open spec fn without_casts(e: ExpressionView) -> ExpressionView
    decreases e,
{
    match e {
        ExpressionView::Cast(child, _) => without_casts(*child),
        _ => e,
    }
}

/// An expression passes on a column exactly where it refers to one, by name or by
/// position, under any number of casts.
pub proof fn only_references_pass_on_columns(e: ExpressionView, positional: Seq<ColumnBinding>)
    ensures
        bound_column(e, positional) is Some <==> (without_casts(e) is ColumnRef || (without_casts(
            e,
        ) matches ExpressionView::Reference(reference) && reference.index < positional.len())),
        without_casts(e) matches ExpressionView::ColumnRef(column) ==> bound_column(e, positional)
            == Some(column.binding),
        without_casts(e) matches ExpressionView::Reference(reference) ==> (reference.index
            < positional.len() ==> bound_column(e, positional) == Some(
            positional[reference.index as int],
        )),
    decreases e,
{
    match e {
        ExpressionView::Cast(child, _) => {
            only_references_pass_on_columns(*child, positional);
        },
        _ => {},
    }
}

/// An equality of two columns connects their relations, whichever side they are on;
/// nothing else connects any.
pub proof fn equalities_connect_their_relations(
    condition: JoinCondition,
    left: Seq<ColumnBinding>,
    right: Seq<ColumnBinding>,
)
    ensures
        relation_pair(condition, left, right) is Some <==> {
            &&& condition.comparison is Equal || condition.comparison is NotDistinctFrom
            &&& bound_column(condition.left@, left) is Some
            &&& bound_column(condition.right@, right) is Some
        },
        relation_pair(condition, left, right) matches Some((first, second)) ==> first <= second && {
            let l = (bound_column(condition.left@, left)->0).table_index;
            let r = (bound_column(condition.right@, right)->0).table_index;
            first == l && second == r || first == r && second == l
        },
{
}

} // verus!
