//! Conditions across a join cut and the widths of their values.

use vstd::prelude::*;

use crate::expression::analysis::{lemma_view_children, result_type, views};
use crate::expression::{Expression, ExpressionView};
use crate::types::{ComparisonType, LogicalType};

verus! {

/// How a predicate lies across a cut: as it is written, or the other way round.
#[derive(Clone, Copy, Debug, PartialEq, Eq, Structural)]
pub enum JoinEdgeOrientation {
    Forward,
    Inverted,
}

/// A predicate at a cut. Without an orientation it is no join condition.
#[derive(Debug)]
pub struct CutPredicate {
    pub orientation: Option<JoinEdgeOrientation>,
    pub filter: Expression,
}

/// One comparison across a cut: the types of its sides, left and right of the
/// cut.
#[derive(Clone, Copy, Debug, PartialEq, Eq, Structural)]
pub struct CutComparison {
    /// Whether the comparison can key a hash table.
    pub is_hash_key: bool,
    pub left: LogicalType,
    pub right: LogicalType,
    /// The type of the right operand as it is written.
    pub key: LogicalType,
}

pub open spec fn is_hash_key(kind: ComparisonType) -> bool {
    kind is Equal || kind is NotDistinctFrom
}

pub open spec fn across(
    kind: ComparisonType,
    left: LogicalType,
    right: LogicalType,
    orientation: JoinEdgeOrientation,
) -> CutComparison {
    match orientation {
        JoinEdgeOrientation::Forward => CutComparison {
            is_hash_key: is_hash_key(kind),
            left,
            right,
            key: right,
        },
        JoinEdgeOrientation::Inverted => CutComparison {
            is_hash_key: is_hash_key(kind),
            left: right,
            right: left,
            key: right,
        },
    }
}

/// The comparison that an expression is, if it is one.
pub open spec fn comparison_at(e: ExpressionView, orientation: JoinEdgeOrientation) -> Seq<
    CutComparison,
> {
    match e {
        ExpressionView::Comparison(kind, left, right) => seq![
            across(kind, result_type(*left), result_type(*right), orientation),
        ],
        _ => Seq::empty(),
    }
}

pub open spec fn comparisons_among(
    children: Seq<ExpressionView>,
    orientation: JoinEdgeOrientation,
    n: nat,
) -> Seq<CutComparison>
    decreases n,
{
    if n == 0 {
        Seq::empty()
    } else {
        comparisons_among(children, orientation, (n - 1) as nat) + comparison_at(
            children[n - 1],
            orientation,
        )
    }
}

/// The comparisons of a predicate: itself, or those directly in a conjunction.
pub open spec fn predicate_comparisons(e: ExpressionView, orientation: JoinEdgeOrientation) -> Seq<
    CutComparison,
> {
    match e {
        ExpressionView::Conjunction(_, children) => comparisons_among(
            children,
            orientation,
            children.len(),
        ),
        _ => comparison_at(e, orientation),
    }
}

/// The comparisons of the first `n` predicates.
pub open spec fn cut_comparisons(predicates: Seq<CutPredicate>, n: nat) -> Seq<CutComparison>
    decreases n,
{
    if n == 0 {
        Seq::empty()
    } else {
        let before = cut_comparisons(predicates, (n - 1) as nat);
        match predicates[n - 1].orientation {
            Some(orientation) => before + predicate_comparisons(
                predicates[n - 1].filter@,
                orientation,
            ),
            None => before,
        }
    }
}

fn push_comparison(e: &Expression, orientation: JoinEdgeOrientation, out: &mut Vec<CutComparison>)
    ensures
        final(out)@ == old(out)@ + comparison_at(e@, orientation),
{
    match e {
        Expression::Comparison(c) => {
            let is_hash_key = match c.comparison_type {
                ComparisonType::Equal | ComparisonType::NotDistinctFrom => true,
                _ => false,
            };
            let left = c.left.return_type();
            let right = c.right.return_type();
            match orientation {
                JoinEdgeOrientation::Forward => {
                    out.push(CutComparison { is_hash_key, left, right, key: right });
                },
                JoinEdgeOrientation::Inverted => {
                    out.push(CutComparison { is_hash_key, left: right, right: left, key: right });
                },
            }
            assert(out@ =~= old(out)@ + comparison_at(e@, orientation));
        },
        _ => {
            assert(out@ =~= old(out)@ + comparison_at(e@, orientation));
        },
    }
}

/// The comparisons at a cut, in order.
pub fn collect_comparisons(predicates: &Vec<CutPredicate>) -> (r: Vec<CutComparison>)
    ensures
        r@ == cut_comparisons(predicates@, predicates@.len()),
{
    let mut out: Vec<CutComparison> = Vec::new();
    let mut i: usize = 0;
    while i < predicates.len()
        invariant
            i <= predicates@.len(),
            out@ == cut_comparisons(predicates@, i as nat),
        decreases predicates@.len() - i,
    {
        if let Some(orientation) = predicates[i].orientation {
            let ghost before = out@;
            match &predicates[i].filter {
                Expression::Conjunction(c) => {
                    proof {
                        lemma_view_children(predicates@[i as int].filter);
                    }
                    let ghost children = views(c.children@);
                    let mut k: usize = 0;
                    assert(out@ =~= before + comparisons_among(children, orientation, 0));
                    while k < c.children.len()
                        invariant
                            k <= c.children@.len(),
                            children == views(c.children@),
                            out@ == before + comparisons_among(children, orientation, k as nat),
                        decreases c.children@.len() - k,
                    {
                        push_comparison(&c.children[k], orientation, &mut out);
                        assert(out@ =~= before + comparisons_among(
                            children,
                            orientation,
                            (k + 1) as nat,
                        ));
                        k = k + 1;
                    }
                },
                _ => {
                    push_comparison(&predicates[i].filter, orientation, &mut out);
                },
            }
        }
        i = i + 1;
    }
    out
}

/// The widths of one comparison's values: left and right of the cut, and of
/// the hash key.
#[derive(Clone, Copy, Debug, PartialEq, Eq, Structural)]
pub struct ComparisonWidths {
    pub left: usize,
    pub right: usize,
    pub key: usize,
}

/// Condition values on both sides of a cut, and whether a hash table can serve
/// them.
#[derive(Clone, Copy, Debug, PartialEq, Eq, Structural)]
pub struct JoinConditionProfile {
    pub left_payload_width: usize,
    pub right_payload_width: usize,
    pub hash_key_width: usize,
    pub has_join_conditions: bool,
    pub has_hash_key: bool,
}

/// A sum of widths, as far as it fits.
pub open spec fn width_sum(a: usize, b: usize) -> usize {
    if a + b <= usize::MAX {
        (a + b) as usize
    } else {
        usize::MAX
    }
}

pub fn add_widths(a: usize, b: usize) -> (r: usize)
    ensures
        r == width_sum(a, b),
{
    if b <= usize::MAX - a {
        a + b
    } else {
        usize::MAX
    }
}

/// The profile of the first `n` comparisons.
pub open spec fn profile_of(
    comparisons: Seq<CutComparison>,
    widths: Seq<ComparisonWidths>,
    has_join_conditions: bool,
    n: nat,
) -> JoinConditionProfile
    decreases n,
{
    if n == 0 {
        JoinConditionProfile {
            left_payload_width: 0,
            right_payload_width: 0,
            hash_key_width: 0,
            has_join_conditions,
            has_hash_key: false,
        }
    } else {
        let before = profile_of(comparisons, widths, has_join_conditions, (n - 1) as nat);
        let term = comparisons[n - 1];
        let width = widths[n - 1];
        JoinConditionProfile {
            left_payload_width: width_sum(before.left_payload_width, width.left),
            right_payload_width: width_sum(before.right_payload_width, width.right),
            hash_key_width: if term.is_hash_key {
                width_sum(before.hash_key_width, width.key)
            } else {
                before.hash_key_width
            },
            has_join_conditions,
            has_hash_key: before.has_hash_key || term.is_hash_key,
        }
    }
}

/// Condition values on both sides of a cut, given the width of each.
pub fn condition_profile(
    comparisons: &Vec<CutComparison>,
    widths: &Vec<ComparisonWidths>,
    has_join_conditions: bool,
) -> (r: JoinConditionProfile)
    requires
        comparisons@.len() == widths@.len(),
    ensures
        r == profile_of(comparisons@, widths@, has_join_conditions, comparisons@.len()),
{
    let mut r = JoinConditionProfile {
        left_payload_width: 0,
        right_payload_width: 0,
        hash_key_width: 0,
        has_join_conditions,
        has_hash_key: false,
    };
    let mut i: usize = 0;
    while i < comparisons.len()
        invariant
            i <= comparisons@.len(),
            comparisons@.len() == widths@.len(),
            r == profile_of(comparisons@, widths@, has_join_conditions, i as nat),
        decreases comparisons@.len() - i,
    {
        let term = comparisons[i];
        let width = widths[i];
        r = JoinConditionProfile {
            left_payload_width: add_widths(r.left_payload_width, width.left),
            right_payload_width: add_widths(r.right_payload_width, width.right),
            hash_key_width: if term.is_hash_key {
                add_widths(r.hash_key_width, width.key)
            } else {
                r.hash_key_width
            },
            has_join_conditions,
            has_hash_key: r.has_hash_key || term.is_hash_key,
        };
        i = i + 1;
    }
    r
}

proof fn lemma_hash_key(
    comparisons: Seq<CutComparison>,
    widths: Seq<ComparisonWidths>,
    has_join_conditions: bool,
    n: nat,
)
    requires
        n <= comparisons.len(),
    ensures
        profile_of(comparisons, widths, has_join_conditions, n).has_hash_key <==> exists|i: int|
            0 <= i < n && (#[trigger] comparisons[i]).is_hash_key,
    decreases n,
{
    if n > 0 {
        lemma_hash_key(comparisons, widths, has_join_conditions, (n - 1) as nat);
        let last = comparisons[n - 1];
        if last.is_hash_key {
            assert(comparisons[n - 1].is_hash_key);
        }
    }
}

/// A hash table can serve a cut exactly when one of its comparisons is an
/// equality.
pub proof fn hash_key_is_an_equality(
    comparisons: Seq<CutComparison>,
    widths: Seq<ComparisonWidths>,
    has_join_conditions: bool,
)
    ensures
        profile_of(comparisons, widths, has_join_conditions, comparisons.len()).has_hash_key
            <==> exists|i: int| 0 <= i < comparisons.len() && (#[trigger] comparisons[i]).is_hash_key,
{
    lemma_hash_key(comparisons, widths, has_join_conditions, comparisons.len());
}

/// A comparison can key a hash table exactly where it is true of equal values
/// alone.
pub proof fn hash_keys_are_true_of_equal_values_only(kind: ComparisonType)
    ensures
        is_hash_key(kind) <==> forall|a: Option<int>, b: Option<int>| #[trigger]
            kind.is_true_of(a, b) ==> a == b,
{
    if !is_hash_key(kind) {
        assert(kind.is_true_of(Some(0), Some(1)) || kind.is_true_of(Some(1), Some(0)));
    }
}

/// A predicate that lies the other way round across a cut has its operands on the
/// other sides.
pub proof fn inverting_exchanges_the_sides(
    kind: ComparisonType,
    left: LogicalType,
    right: LogicalType,
)
    ensures
        ({
            let forward = across(kind, left, right, JoinEdgeOrientation::Forward);
            let inverted = across(kind, left, right, JoinEdgeOrientation::Inverted);
            &&& forward.left == left && forward.right == right
            &&& inverted.left == forward.right && inverted.right == forward.left
            &&& inverted.key == forward.key
            &&& inverted.is_hash_key == forward.is_hash_key
        }),
{
}

/// Predicates that are no join conditions give no comparisons.
pub proof fn only_oriented_predicates_are_compared(predicates: Seq<CutPredicate>, n: nat)
    requires
        n <= predicates.len(),
        forall|i: int| 0 <= i < n ==> (#[trigger] predicates[i]).orientation is None,
    ensures
        cut_comparisons(predicates, n).len() == 0,
    decreases n,
{
    if n > 0 {
        only_oriented_predicates_are_compared(predicates, (n - 1) as nat);
    }
}

/// One comparison more widens both sides by its own widths, and the key only where
/// it can key a hash table; nothing ever gets narrower.
pub proof fn comparisons_widen_the_profile(
    comparisons: Seq<CutComparison>,
    widths: Seq<ComparisonWidths>,
    has_join_conditions: bool,
    n: nat,
)
    requires
        0 < n <= comparisons.len(),
        n <= widths.len(),
    ensures
        ({
            let before = profile_of(comparisons, widths, has_join_conditions, (n - 1) as nat);
            let now = profile_of(comparisons, widths, has_join_conditions, n);
            let width = widths[n - 1];
            &&& now.left_payload_width >= before.left_payload_width
            &&& now.right_payload_width >= before.right_payload_width
            &&& now.hash_key_width >= before.hash_key_width
            &&& before.left_payload_width + width.left <= usize::MAX ==> now.left_payload_width
                - before.left_payload_width == width.left
            &&& before.right_payload_width + width.right <= usize::MAX ==> now.right_payload_width
                - before.right_payload_width == width.right
            &&& comparisons[n - 1].is_hash_key && before.hash_key_width + width.key <= usize::MAX
                ==> now.hash_key_width - before.hash_key_width == width.key
            &&& !comparisons[n - 1].is_hash_key ==> now.hash_key_width == before.hash_key_width
            &&& now.has_join_conditions == has_join_conditions
        }),
{
}

/// A comparison across a cut has the types of its own operands, each on the side that
/// its orientation puts it.
pub proof fn comparisons_have_their_operands_types(
    kind: ComparisonType,
    left: Box<ExpressionView>,
    right: Box<ExpressionView>,
)
    ensures
        ({
            let e = ExpressionView::Comparison(kind, left, right);
            let forward = comparison_at(e, JoinEdgeOrientation::Forward);
            let inverted = comparison_at(e, JoinEdgeOrientation::Inverted);
            &&& forward.len() == 1 && inverted.len() == 1
            &&& forward[0].left == result_type(*left) && inverted[0].right == result_type(*left)
            &&& forward[0].right == result_type(*right) && inverted[0].left == result_type(*right)
            &&& forward[0].key == inverted[0].key
        }),
{
}

} // verus!
