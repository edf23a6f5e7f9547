//! Row-count arithmetic. Every operation saturates at the largest count.

use vstd::arithmetic::div_mod::*;
use vstd::arithmetic::mul::*;
use vstd::arithmetic::power2::*;
use vstd::prelude::*;

use crate::plan::CardinalityEstimate;
use crate::types::JoinType;

verus! {

/// A count, or the largest one where it does not fit.
pub open spec fn capped(n: int) -> u64 {
    if n <= u64::MAX {
        n as u64
    } else {
        u64::MAX
    }
}

pub open spec fn least(a: u64, b: u64) -> u64 {
    if a <= b {
        a
    } else {
        b
    }
}

pub open spec fn greatest(a: u64, b: u64) -> u64 {
    if a >= b {
        a
    } else {
        b
    }
}

/// `a - b`, or zero.
pub open spec fn less(a: u64, b: u64) -> u64 {
    if a >= b {
        (a - b) as u64
    } else {
        0
    }
}

pub fn minimum(a: u64, b: u64) -> (r: u64)
    ensures
        r == least(a, b),
{
    if a <= b {
        a
    } else {
        b
    }
}

pub fn maximum(a: u64, b: u64) -> (r: u64)
    ensures
        r == greatest(a, b),
{
    if a >= b {
        a
    } else {
        b
    }
}

/// Product of two counts.
pub fn saturating_mul_u64(left: u64, right: u64) -> (r: u64)
    ensures
        r == capped(left * right),
{
    proof {
        lemma_mul_inequality(left as int, u64::MAX as int, right as int);
        lemma_mul_inequality(right as int, u64::MAX as int, u64::MAX as int);
        lemma_mul_is_commutative(right as int, u64::MAX as int);
        lemma_mul_nonnegative(left as int, right as int);
    }
    let product: u128 = (left as u128) * (right as u128);
    if product <= u64::MAX as u128 {
        product as u64
    } else {
        u64::MAX
    }
}

/// Sum of two counts.
pub fn saturating_add_u64(left: u64, right: u64) -> (r: u64)
    ensures
        r == capped(left + right),
{
    if left <= u64::MAX - right {
        left + right
    } else {
        u64::MAX
    }
}

/// Difference of two counts.
pub fn saturating_sub_u64(left: u64, right: u64) -> (r: u64)
    ensures
        r == less(left, right),
{
    if left >= right {
        left - right
    } else {
        0
    }
}

pub open spec fn product(left: CardinalityEstimate, right: CardinalityEstimate) -> CardinalityEstimate {
    CardinalityEstimate {
        min: capped(left.min * right.min),
        expected: capped(left.expected * right.expected),
        max: capped(left.max * right.max),
    }
}

/// Rows of a cross product.
pub fn product_estimate(left: CardinalityEstimate, right: CardinalityEstimate) -> (r:
    CardinalityEstimate)
    ensures
        r == product(left, right),
{
    CardinalityEstimate {
        min: saturating_mul_u64(left.min, right.min),
        expected: saturating_mul_u64(left.expected, right.expected),
        max: saturating_mul_u64(left.max, right.max),
    }
}

pub open spec fn sum(left: CardinalityEstimate, right: CardinalityEstimate) -> CardinalityEstimate {
    CardinalityEstimate {
        min: capped(left.min + right.min),
        expected: capped(left.expected + right.expected),
        max: capped(left.max + right.max),
    }
}

/// Rows of a bag union.
pub fn sum_estimate(left: CardinalityEstimate, right: CardinalityEstimate) -> (r:
    CardinalityEstimate)
    ensures
        r == sum(left, right),
{
    CardinalityEstimate {
        min: saturating_add_u64(left.min, right.min),
        expected: saturating_add_u64(left.expected, right.expected),
        max: saturating_add_u64(left.max, right.max),
    }
}

/// Rows that remain of `rows` after skipping `offset` and keeping `limit`.
pub open spec fn limited(rows: u64, limit: Option<usize>, offset: usize) -> u64 {
    match limit {
        Some(limit) => least(less(rows, offset as u64), limit as u64),
        None => less(rows, offset as u64),
    }
}

pub open spec fn limited_estimate(
    estimate: CardinalityEstimate,
    limit: Option<usize>,
    offset: usize,
) -> CardinalityEstimate {
    let expected = limited(estimate.expected, limit, offset);
    CardinalityEstimate {
        min: limited(estimate.min, limit, offset),
        expected,
        max: greatest(limited(estimate.max, limit, offset), expected),
    }
}

fn apply_one(rows: u64, limit: Option<usize>, offset: usize) -> (r: u64)
    ensures
        r == limited(rows, limit, offset),
{
    let after_offset: u64 = saturating_sub_u64(rows, offset as u64);
    match limit {
        Some(limit) => minimum(after_offset, limit as u64),
        None => after_offset,
    }
}

/// Rows of a limit over `estimate` rows.
pub fn apply_limit_estimate(
    estimate: CardinalityEstimate,
    limit: Option<usize>,
    offset: usize,
) -> (r: CardinalityEstimate)
    ensures
        r == limited_estimate(estimate, limit, offset),
{
    let min: u64 = apply_one(estimate.min, limit, offset);
    let expected: u64 = apply_one(estimate.expected, limit, offset);
    let max: u64 = maximum(apply_one(estimate.max, limit, offset), expected);
    CardinalityEstimate { min, expected, max }
}

/// Rows of a join whose matching pairs are estimated by `inner`.
pub open spec fn join_rows(
    inner: CardinalityEstimate,
    left: CardinalityEstimate,
    right: CardinalityEstimate,
    join_type: JoinType,
) -> CardinalityEstimate {
    match join_type {
        JoinType::Inner => inner,
        JoinType::Invalid => inner,
        JoinType::Left => CardinalityEstimate {
            min: left.min,
            expected: greatest(inner.expected, left.expected),
            max: greatest(inner.max, left.max),
        },
        JoinType::Right => CardinalityEstimate {
            min: right.min,
            expected: greatest(inner.expected, right.expected),
            max: greatest(inner.max, right.max),
        },
        JoinType::Outer => CardinalityEstimate {
            min: greatest(left.min, right.min),
            expected: greatest(inner.expected, greatest(left.expected, right.expected)),
            max: greatest(inner.max, capped(left.max + right.max)),
        },
        JoinType::Semi => CardinalityEstimate {
            min: 0,
            expected: least(inner.expected, left.expected),
            max: left.max,
        },
        JoinType::Mark => left,
        JoinType::Single => left,
        JoinType::Anti => CardinalityEstimate {
            min: 0,
            expected: less(left.expected, least(inner.expected, left.expected)),
            max: left.max,
        },
        JoinType::RightSemi => CardinalityEstimate {
            min: 0,
            expected: least(inner.expected, right.expected),
            max: right.max,
        },
        JoinType::RightAnti => CardinalityEstimate {
            min: 0,
            expected: less(right.expected, least(inner.expected, right.expected)),
            max: right.max,
        },
    }
}

/// Turns the estimate of matching pairs into that of the join's output.
///
/// MARK and SINGLE joins append one derived value to every preserved row, so
/// they keep the left estimate whatever matches.
pub fn adjust_join_estimate(
    inner: CardinalityEstimate,
    left: CardinalityEstimate,
    right: CardinalityEstimate,
    join_type: JoinType,
) -> (r: CardinalityEstimate)
    ensures
        r == join_rows(inner, left, right, join_type),
{
    match join_type {
        JoinType::Inner => inner,
        JoinType::Left => CardinalityEstimate {
            min: left.min,
            expected: maximum(inner.expected, left.expected),
            max: maximum(inner.max, left.max),
        },
        JoinType::Right => CardinalityEstimate {
            min: right.min,
            expected: maximum(inner.expected, right.expected),
            max: maximum(inner.max, right.max),
        },
        JoinType::Outer => CardinalityEstimate {
            min: maximum(left.min, right.min),
            expected: maximum(inner.expected, maximum(left.expected, right.expected)),
            max: maximum(inner.max, saturating_add_u64(left.max, right.max)),
        },
        JoinType::Semi => CardinalityEstimate {
            min: 0,
            expected: minimum(inner.expected, left.expected),
            max: left.max,
        },
        JoinType::Mark => left,
        JoinType::Single => left,
        JoinType::Anti => {
            let semi: u64 = minimum(inner.expected, left.expected);
            CardinalityEstimate {
                min: 0,
                expected: saturating_sub_u64(left.expected, semi),
                max: left.max,
            }
        },
        JoinType::RightSemi => CardinalityEstimate {
            min: 0,
            expected: minimum(inner.expected, right.expected),
            max: right.max,
        },
        JoinType::RightAnti => {
            let semi: u64 = minimum(inner.expected, right.expected);
            CardinalityEstimate {
                min: 0,
                expected: saturating_sub_u64(right.expected, semi),
                max: right.max,
            }
        },
        JoinType::Invalid => inner,
    }
}

/// Matched and unmatched rows of a semi and an anti join over the same inputs
/// add up to the preserved input.
pub proof fn semi_and_anti_join_partition_the_preserved_rows(
    inner: CardinalityEstimate,
    left: CardinalityEstimate,
    right: CardinalityEstimate,
)
    ensures
        join_rows(inner, left, right, JoinType::Semi).expected + join_rows(
            inner,
            left,
            right,
            JoinType::Anti,
        ).expected == left.expected,
        join_rows(inner, left, right, JoinType::RightSemi).expected + join_rows(
            inner,
            left,
            right,
            JoinType::RightAnti,
        ).expected == right.expected,
{
}

/// An outer join never estimates fewer rows than an input that it preserves.
pub proof fn outer_joins_keep_the_preserved_rows(
    inner: CardinalityEstimate,
    left: CardinalityEstimate,
    right: CardinalityEstimate,
)
    ensures
        join_rows(inner, left, right, JoinType::Left).expected >= left.expected,
        join_rows(inner, left, right, JoinType::Right).expected >= right.expected,
        join_rows(inner, left, right, JoinType::Outer).expected >= left.expected,
        join_rows(inner, left, right, JoinType::Outer).expected >= right.expected,
{
}

/// A semi join expects no more rows than there are matching pairs or preserved
/// rows, and as many as the fewer of them; an anti join expects the preserved
/// rows that are left, all of them where nothing matches. Neither has more rows
/// than it preserves, and each may have none.
pub proof fn semi_join_keeps_matches_and_anti_join_the_rest(
    inner: CardinalityEstimate,
    left: CardinalityEstimate,
    right: CardinalityEstimate,
)
    ensures
        ({
            let semi = join_rows(inner, left, right, JoinType::Semi);
            let anti = join_rows(inner, left, right, JoinType::Anti);
            &&& semi.expected <= inner.expected && semi.expected <= left.expected
            &&& inner.expected <= left.expected ==> semi.expected == inner.expected
                && anti.expected == left.expected - inner.expected
            &&& inner.expected >= left.expected ==> semi.expected == left.expected
                && anti.expected == 0
            &&& inner.expected == 0 ==> semi.expected == 0 && anti.expected == left.expected
            &&& semi.min == 0 && semi.max == left.max
            &&& anti.min == 0 && anti.max == left.max
        }),
        ({
            let semi = join_rows(inner, left, right, JoinType::RightSemi);
            let anti = join_rows(inner, left, right, JoinType::RightAnti);
            &&& semi.expected <= inner.expected && semi.expected <= right.expected
            &&& inner.expected <= right.expected ==> semi.expected == inner.expected
                && anti.expected == right.expected - inner.expected
            &&& inner.expected >= right.expected ==> semi.expected == right.expected
                && anti.expected == 0
            &&& inner.expected == 0 ==> semi.expected == 0 && anti.expected == right.expected
            &&& semi.min == 0 && semi.max == right.max
            &&& anti.min == 0 && anti.max == right.max
        }),
{
}

/// Exchanging the inputs of a join exchanges the sides that its kind speaks of
/// and leaves the rows as they are.
pub proof fn exchanging_inputs_exchanges_the_kinds(
    inner: CardinalityEstimate,
    left: CardinalityEstimate,
    right: CardinalityEstimate,
)
    ensures
        join_rows(inner, left, right, JoinType::Left) == join_rows(
            inner,
            right,
            left,
            JoinType::Right,
        ),
        join_rows(inner, left, right, JoinType::Semi) == join_rows(
            inner,
            right,
            left,
            JoinType::RightSemi,
        ),
        join_rows(inner, left, right, JoinType::Anti) == join_rows(
            inner,
            right,
            left,
            JoinType::RightAnti,
        ),
        join_rows(inner, left, right, JoinType::Inner) == join_rows(
            inner,
            right,
            left,
            JoinType::Inner,
        ),
        join_rows(inner, left, right, JoinType::Outer) == join_rows(
            inner,
            right,
            left,
            JoinType::Outer,
        ),
{
}

/// An inner join has the matching pairs as its rows. An outer join has at least
/// those, at least the rows that it preserves, and no more than the larger of
/// the two; where both sides are preserved, its rows reach up to both together.
pub proof fn outer_join_adds_only_preserved_rows(
    inner: CardinalityEstimate,
    left: CardinalityEstimate,
    right: CardinalityEstimate,
)
    ensures
        join_rows(inner, left, right, JoinType::Inner) == inner,
        ({
            let outer = join_rows(inner, left, right, JoinType::Left);
            &&& outer.expected >= inner.expected && outer.expected >= left.expected
            &&& outer.expected == inner.expected || outer.expected == left.expected
            &&& outer.min == left.min
            &&& outer.max >= inner.max && outer.max >= left.max
            &&& outer.max == inner.max || outer.max == left.max
        }),
        ({
            let outer = join_rows(inner, left, right, JoinType::Outer);
            &&& outer.expected >= inner.expected && outer.expected >= left.expected
                && outer.expected >= right.expected
            &&& outer.expected == inner.expected || outer.expected == left.expected
                || outer.expected == right.expected
            &&& outer.min >= left.min && outer.min >= right.min
            &&& outer.min == left.min || outer.min == right.min
            &&& outer.max >= inner.max
            &&& outer.max >= left.max + right.max || outer.max == u64::MAX
            &&& outer.max == inner.max || outer.max <= left.max + right.max
        }),
{
}

/// A cross product with no rows has none, one with a single row has the rows of
/// the other input, and the order of the inputs does not matter. More rows on
/// one side never give fewer.
pub proof fn product_counts_pairs(
    a: CardinalityEstimate,
    b: CardinalityEstimate,
    c: CardinalityEstimate,
)
    ensures
        product(a, b) == product(b, a),
        product(a, CardinalityEstimate::spec_exact(0)) == CardinalityEstimate::spec_exact(0),
        product(a, CardinalityEstimate::spec_exact(1)) == a,
        a.expected <= b.expected ==> product(a, c).expected <= product(b, c).expected,
        a.expected * b.expected <= u64::MAX ==> product(a, b).expected == a.expected * b.expected,
        a.expected * b.expected > u64::MAX ==> product(a, b).expected == u64::MAX,
{
    lemma_mul_is_commutative(a.min as int, b.min as int);
    lemma_mul_is_commutative(a.expected as int, b.expected as int);
    lemma_mul_is_commutative(a.max as int, b.max as int);
    if a.expected <= b.expected {
        lemma_mul_inequality(a.expected as int, b.expected as int, c.expected as int);
    }
    lemma_mul_nonnegative(a.expected as int, b.expected as int);
    lemma_mul_nonnegative(a.expected as int, c.expected as int);
    lemma_mul_nonnegative(b.expected as int, c.expected as int);
}

/// A bag union has the rows of both inputs, whatever their order; an empty input
/// adds none.
pub proof fn sum_counts_both(a: CardinalityEstimate, b: CardinalityEstimate)
    ensures
        sum(a, b) == sum(b, a),
        sum(a, CardinalityEstimate::spec_exact(0)) == a,
        sum(a, b).expected >= a.expected,
        a.expected + b.expected <= u64::MAX ==> sum(a, b).expected - a.expected == b.expected,
        a.max + b.max <= u64::MAX ==> sum(a, b).max - a.max == b.max,
        a.min + b.min <= u64::MAX ==> sum(a, b).min - a.min == b.min,
{
}

/// A limit lets through no more rows than it names or than there are after the
/// skipped ones, and all of them where they are fewer than it names.
pub proof fn limit_keeps_what_follows_the_offset(rows: u64, limit: usize, offset: usize)
    ensures
        limited(rows, Some(limit), offset) <= limit,
        limited(rows, Some(limit), offset) <= rows,
        rows <= offset ==> limited(rows, Some(limit), offset) == 0,
        rows >= offset + limit ==> limited(rows, Some(limit), offset) == limit,
        offset <= rows < offset + limit ==> limited(rows, Some(limit), offset) + offset == rows,
        rows <= offset ==> limited(rows, None, offset) == 0,
        rows >= offset ==> limited(rows, None, offset) + offset == rows,
{
}

/// Skipping in two steps skips as much as in one, and the smaller of two limits
/// counts.
pub proof fn limits_combine(rows: u64, first: usize, second: usize, offset: usize)
    requires
        first <= second,
    ensures
        limited(limited(rows, None, offset), Some(first), 0) == limited(rows, Some(first), offset),
        limited(limited(rows, Some(second), offset), Some(first), 0) == limited(
            rows,
            Some(first),
            offset,
        ),
        limited(limited(rows, Some(first), offset), Some(second), 0) == limited(
            rows,
            Some(first),
            offset,
        ),
{
}

/// The bounds of a limited estimate stay in order.
pub proof fn limited_bounds_are_ordered(
    estimate: CardinalityEstimate,
    limit: Option<usize>,
    offset: usize,
)
    requires
        estimate.min <= estimate.expected <= estimate.max,
    ensures
        ({
            let r = limited_estimate(estimate, limit, offset);
            &&& r.min <= r.expected <= r.max
            &&& r.max <= estimate.max
            &&& limit matches Some(limit) ==> r.max <= limit
            &&& limit is None && offset == 0 ==> r == estimate
        }),
{
}

/// A join that adds one derived value to each row of its left input gives as
/// many rows as that input, whatever it matches.
pub proof fn derived_values_add_no_rows(
    inner: CardinalityEstimate,
    left: CardinalityEstimate,
    right: CardinalityEstimate,
)
    ensures
        join_rows(inner, left, right, JoinType::Mark) == left,
        join_rows(inner, left, right, JoinType::Single) == left,
{
}

/// Number of integers that double precision represents exactly from zero on.
pub const EXACT_DOUBLE_INTEGERS: u128 = 0x20_0000_0000_0000;

/// Smallest power of two, from `unit` on, in which `n` counts fewer than
/// `EXACT_DOUBLE_INTEGERS` units.
pub open spec fn double_unit(n: nat, unit: nat) -> nat
    decreases n / unit,
    when unit > 0
{
    if n / unit < EXACT_DOUBLE_INTEGERS {
        unit
    } else {
        proof {
            lemma_half(n, unit);
        }
        double_unit(n, 2 * unit)
    }
}

/// Counting in units twice as large halves the count.
pub proof fn lemma_half(n: nat, unit: nat)
    requires
        unit > 0,
        n / unit > 0,
    ensures
        n / (2 * unit) < n / unit,
        n / (2 * unit) == (n / unit) / 2,
{
    lemma_div_denominator(n as int, unit as int, 2);
    lemma_mul_is_commutative(unit as int, 2);
}

/// The double-precision value of `n`: the nearest multiple of its unit, ties
/// to an even number of units.
pub open spec fn as_double(n: nat) -> nat {
    let unit = double_unit(n, 1);
    let whole = n / unit;
    let rest = n % unit;
    if 2 * rest > unit || (2 * rest == unit && whole % 2 == 1) {
        (whole + 1) * unit
    } else {
        whole * unit
    }
}

/// The largest integer whose square is at most `n`.
pub open spec fn is_floor_sqrt(n: nat, root: nat) -> bool {
    root * root <= n && n < (root + 1) * (root + 1)
}

/// Largest power of two, from `power` on, that is at most `n`.
pub open spec fn leading_power(n: nat, power: nat) -> nat
    decreases n - power,
    when power > 0
{
    if 2 * power <= n {
        leading_power(n, 2 * power)
    } else {
        power
    }
}

/// The ceiling of the double-precision square root of `n`. A root that
/// exceeds an integer by at most half of the spacing of doubles there rounds
/// to that integer.
pub open spec fn is_ceiling_double_sqrt(n: nat, r: nat) -> bool {
    exists|root: nat|
        {
            &&& #[trigger] is_floor_sqrt(n, root)
            &&& r == if n - root * root <= (root * leading_power(root, 1)) / 0x10_0000_0000_0000 {
                root
            } else {
                root + 1
            }
        }
}

/// The number of groups that is guessed for `rows` rows without statistics:
/// the ceiling of the square root, computed in double precision.
pub open spec fn is_fallback_distinct(rows: u64, r: u64) -> bool {
    is_ceiling_double_sqrt(as_double(greatest(rows, 1) as nat), r as nat)
}

/// That count.
pub open spec fn fallback_distinct(rows: u64) -> u64 {
    choose|r: u64| is_fallback_distinct(rows, r)
}

/// The guess for a number of rows is determined.
pub proof fn fallback_is_determined(rows: u64, a: u64, b: u64)
    requires
        is_fallback_distinct(rows, a),
        is_fallback_distinct(rows, b),
    ensures
        a == b,
{
    let n = as_double(greatest(rows, 1) as nat);
    let x = choose|root: nat|
        {
            &&& #[trigger] is_floor_sqrt(n, root)
            &&& a == if n - root * root <= (root * leading_power(root, 1)) / 0x10_0000_0000_0000 {
                root
            } else {
                root + 1
            }
        };
    let y = choose|root: nat|
        {
            &&& #[trigger] is_floor_sqrt(n, root)
            &&& b == if n - root * root <= (root * leading_power(root, 1)) / 0x10_0000_0000_0000 {
                root
            } else {
                root + 1
            }
        };
    lemma_root_unique(n, x, y);
}

proof fn lemma_root_unique(n: nat, a: nat, b: nat)
    requires
        is_floor_sqrt(n, a),
        is_floor_sqrt(n, b),
    ensures
        a == b,
{
    if a < b {
        lemma_mul_inequality((a + 1) as int, b as int, (a + 1) as int);
        lemma_mul_inequality((a + 1) as int, b as int, b as int);
        lemma_mul_is_commutative((a + 1) as int, b as int);
        assert((a + 1) * (a + 1) <= b * b);
    } else if b < a {
        lemma_mul_inequality((b + 1) as int, a as int, (b + 1) as int);
        lemma_mul_inequality((b + 1) as int, a as int, a as int);
        lemma_mul_is_commutative((b + 1) as int, a as int);
        assert((b + 1) * (b + 1) <= a * a);
    }
}


/// Largest integer whose square is at most `n`.
fn floor_sqrt(n: u128) -> (root: u128)
    requires
        n <= 0x1_0000_0000_0000_0000,
    ensures
        is_floor_sqrt(n as nat, root as nat),
        root <= 0x1_0000_0000,
{
    let mut root: u128 = 0;
    let mut span: u128 = 0x2_0000_0000;
    let mut width: u32 = 33;
    proof {
        lemma2_to64();
        lemma2_to64_rest();
    }
    while width > 0
        invariant
            width <= 33,
            span == pow2(width as nat),
            span <= 0x2_0000_0000,
            n <= 0x1_0000_0000_0000_0000,
            root * root <= n < (root + span) * (root + span),
            root <= 0x1_0000_0000,
        decreases width,
    {
        proof {
            lemma_pow2_unfold(width as nat);
            lemma_pow2_pos((width - 1) as nat);
        }
        let half: u128 = span / 2;
        assert(span == 2 * half);
        let next: u128 = root + half;
        proof {
            lemma_mul_inequality(next as int, 0x2_0000_0000, next as int);
            lemma_mul_inequality(next as int, 0x2_0000_0000, 0x2_0000_0000);
        }
        if next * next <= n {
            proof {
                if next > 0x1_0000_0000 {
                    lemma_mul_strict_inequality(0x1_0000_0000, next as int, 0x1_0000_0000);
                    lemma_mul_inequality(0x1_0000_0000, next as int, next as int);
                    assert(next * next > 0x1_0000_0000_0000_0000);
                }
            }
            root = next;
        }
        span = half;
        width = width - 1;
    }
    assert(span == 1) by {
        lemma2_to64();
    }
    root
}

/// The number of groups that is guessed for `child_rows` rows without any
/// statistics.
pub fn fallback_group_distinct(child_rows: u64) -> (r: u64)
    ensures
        is_fallback_distinct(child_rows, r),
        r == fallback_distinct(child_rows),
        r > 0,
{
    let n: u128 = maximum(child_rows, 1) as u128;
    let mut unit: u128 = 1;
    proof {
        assert(double_unit(n as nat, 1) == double_unit(n as nat, unit as nat));
    }
    while n / unit >= EXACT_DOUBLE_INTEGERS
        invariant
            unit > 0,
            unit <= n,
            1 <= n <= u64::MAX,
            double_unit(n as nat, 1) == double_unit(n as nat, unit as nat),
        decreases n / unit,
    {
        proof {
            lemma_half(n as nat, unit as nat);
            assert(2 * unit <= n) by (nonlinear_arith)
                requires
                    n / unit >= 2,
                    unit > 0,
            ;
        }
        unit = 2 * unit;
    }
    let whole: u128 = n / unit;
    let rest: u128 = n % unit;
    proof {
        lemma_fundamental_div_mod(n as int, unit as int);
        lemma_mul_is_commutative(unit as int, whole as int);
        lemma_unit_bound(n as nat, 1);
        assert(whole * unit <= n);
        assert((whole + 1) * unit == whole * unit + unit) by (nonlinear_arith);
    }
    let value: u128 = if 2 * rest > unit || (2 * rest == unit && whole % 2 == 1) {
        (whole + 1) * unit
    } else {
        whole * unit
    };
    assert(value == as_double(n as nat));
    assert(value <= 0x1_0000_0000_0000_0000) by {
        lemma_double_bound(n as nat);
    }
    assert(value >= 1) by {
        assert(whole >= 1) by {
            lemma_div_is_ordered(unit as int, n as int, unit as int);
            lemma_div_by_self(unit as int);
        }
        lemma_mul_inequality(1, whole as int, unit as int);
        lemma_mul_inequality(1, (whole + 1) as int, unit as int);
    }
    let root: u128 = floor_sqrt(value);
    let mut power: u128 = 1;
    while root >= 2 * power
        invariant
            0 < power <= 0x1_0000_0000,
            root <= 0x1_0000_0000,
            leading_power(root as nat, 1) == leading_power(root as nat, power as nat),
        decreases root - power,
    {
        power = 2 * power;
    }
    proof {
        lemma_mul_inequality(root as int, 0x1_0000_0000, power as int);
        lemma_mul_inequality(power as int, 0x1_0000_0000, 0x1_0000_0000);
        lemma_mul_inequality(root as int, 0x1_0000_0000, root as int);
        lemma_mul_inequality(root as int, 0x1_0000_0000, 0x1_0000_0000);
        if root == 0 {
            assert((root + 1) * (root + 1) == 1) by (nonlinear_arith)
                requires
                    root == 0,
            ;
        }
    }
    let slack: u128 = (root * power) / 0x10_0000_0000_0000;
    let r: u64 = if value - root * root <= slack {
        root as u64
    } else {
        (root + 1) as u64
    };
    proof {
        assert(is_floor_sqrt(value as nat, root as nat));
        assert(is_fallback_distinct(child_rows, r));
        fallback_is_determined(child_rows, r, fallback_distinct(child_rows));
    }
    r
}

proof fn lemma_unit_power(n: nat, j: nat)
    requires
        n <= u64::MAX,
        j <= 11,
    ensures
        0 < double_unit(n, pow2(j)) <= 2048,
    decreases 11 - j,
{
    lemma2_to64();
    lemma_pow2_pos(j);
    if j < 11 {
        lemma_pow2_unfold(j + 1);
        lemma_unit_power(n, j + 1);
        if j == 0 {
        } else {
            lemma_pow2_strictly_increases(j, 11);
        }
    }
}

proof fn lemma_double_bound(n: nat)
    requires
        n <= u64::MAX,
    ensures
        as_double(n) <= 0x1_0000_0000_0000_0000,
{
    lemma2_to64();
    lemma_unit_power(n, 0);
    lemma_unit_bound(n, 1);
    let unit = double_unit(n, 1);
    let whole = n / unit;
    lemma_mul_inequality((whole + 1) as int, EXACT_DOUBLE_INTEGERS as int, unit as int);
    lemma_mul_inequality(whole as int, (whole + 1) as int, unit as int);
    lemma_mul_inequality(unit as int, 2048, EXACT_DOUBLE_INTEGERS as int);
    lemma_mul_is_commutative(unit as int, EXACT_DOUBLE_INTEGERS as int);
}

/// Up to the largest count that double precision squares exactly, the guess is
/// the exact ceiling of the square root.
pub proof fn fallback_is_the_exact_ceiling(rows: u64, r: u64)
    requires
        is_fallback_distinct(rows, r),
        1 <= rows <= 0x10_0000_0000_0000,
    ensures
        rows <= r * r,
        (r - 1) * (r - 1) < rows,
{
    let n = rows as nat;
    assert(double_unit(n, 1) == 1);
    assert(as_double(n) == n);
    let root = choose|root: nat|
        {
            &&& #[trigger] is_floor_sqrt(n, root)
            &&& r == if n - root * root <= (root * leading_power(root, 1)) / 0x10_0000_0000_0000 {
                root
            } else {
                root + 1
            }
        };
    if root > 0x400_0000 {
        lemma_mul_strict_inequality(0x400_0000, root as int, 0x400_0000);
        lemma_mul_inequality(0x400_0000, root as int, root as int);
        assert(false);
    }
    if root == 0 {
        assert((root + 1) * (root + 1) == 1) by (nonlinear_arith)
            requires
                root == 0,
        ;
    }
    lemma_leading_power(root, 1);
    let power = leading_power(root, 1);
    if root < 0x400_0000 {
        lemma_mul_inequality(power as int, root as int, root as int);
        lemma_mul_is_commutative(power as int, root as int);
        lemma_mul_strict_inequality(root as int, 0x400_0000, 0x400_0000);
        lemma_mul_inequality(root as int, 0x400_0000, root as int);
        lemma_mul_is_commutative(root as int, 0x400_0000);
        assert(root * power < 0x10_0000_0000_0000);
        assert((root * power) / 0x10_0000_0000_0000 == 0);
    }
    assert((root - 1) * (root - 1) < root * root) by (nonlinear_arith)
        requires
            root >= 1,
    ;
    if r == root {
        assert(r * r == root * root) by (nonlinear_arith)
            requires
                r == root,
        ;
        if root == 0x400_0000 {
            assert(root * root == 0x10_0000_0000_0000) by (nonlinear_arith)
                requires
                    root == 0x400_0000,
            ;
        }
    } else {
        assert(r * r == (root + 1) * (root + 1)) by (nonlinear_arith)
            requires
                r == root + 1,
        ;
    }
}

proof fn lemma_leading_power(n: nat, power: nat)
    requires
        0 < power <= n,
    ensures
        0 < leading_power(n, power) <= n,
    decreases n - power,
{
    if 2 * power <= n {
        lemma_leading_power(n, 2 * power);
    }
}

proof fn lemma_unit_bound(n: nat, unit: nat)
    requires
        unit > 0,
    ensures
        double_unit(n, unit) > 0,
        n / double_unit(n, unit) < EXACT_DOUBLE_INTEGERS,
    decreases n / unit,
{
    if n / unit >= EXACT_DOUBLE_INTEGERS {
        lemma_half(n, unit);
        lemma_unit_bound(n, 2 * unit);
    }
}

} // verus!
