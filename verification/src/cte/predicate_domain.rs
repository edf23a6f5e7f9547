//! Conditions on a shared definition that follow from what its readers keep.

use std::sync::Arc;
use vstd::prelude::*;

use crate::expression::analysis::{
    any_mentions, any_reorder_fence, contains_reorder_fence, extract_all_column_bindings,
    lemma_view_children, views,
};
use crate::expression::meaning::{occurs, reads_columns, reads_comparisons};
use crate::expression::substitution::{
    all_substituted, substitute, substitute_all, substituted, ColumnReplacement, ReplacementView,
};
use crate::expression::{expression_view, ConjunctionExpression, Expression, ExpressionView};
use crate::types::{ColumnBinding, ComparisonType, ConjunctionType, LogicalType};
use crate::value::ValueView;

verus! {

/// A read of a shared definition with the filters right above it.
#[derive(Debug)]
pub struct FilteredCTERef {
    /// Columns of the read, in the order of the definition's columns.
    pub old_bindings: Vec<ColumnBinding>,
    pub filters: Vec<Expression>,
}

pub struct FilteredView {
    pub bindings: Seq<ColumnBinding>,
    pub filters: Seq<ExpressionView>,
}

impl View for FilteredCTERef {
    type V = FilteredView;

    open spec fn view(&self) -> FilteredView {
        FilteredView { bindings: self.old_bindings@, filters: views(self.filters@) }
    }
}

pub open spec fn reference_views(references: Seq<FilteredCTERef>) -> Seq<FilteredView> {
    references.map_values(|r: FilteredCTERef| r@)
}

/// Columns of a read paired with those of the definition.
pub open spec fn renaming(old: Seq<ColumnBinding>, new: Seq<ColumnBinding>) -> Seq<
    (ColumnBinding, ColumnBinding),
> {
    Seq::new(
        if old.len() <= new.len() {
            old.len()
        } else {
            new.len()
        },
        |i: int| (old[i], new[i]),
    )
}

pub open spec fn rename(old: Seq<ColumnBinding>, new: Seq<ColumnBinding>) -> ReplacementView {
    ReplacementView::Rebind(renaming(old, new))
}

/// One expression by itself, or all of them connected.
pub open spec fn connected(kind: ConjunctionType, expressions: Seq<ExpressionView>) -> ExpressionView {
    if expressions.len() == 1 {
        expressions[0]
    } else {
        ExpressionView::Conjunction(kind, expressions)
    }
}

/// Whether the expressions mention only the given columns.
pub open spec fn only_mention(expressions: Seq<ExpressionView>, bindings: Seq<ColumnBinding>) -> bool {
    forall|b: ColumnBinding| #[trigger]
        any_mentions(expressions, expressions.len(), b) ==> bindings.contains(b)
}

/// Whether the filters of a read can be evaluated on the definition.
pub open spec fn is_movable(reference: FilteredView, new: Seq<ColumnBinding>) -> bool {
    &&& only_mention(reference.filters, reference.bindings)
    &&& only_mention(
        all_substituted(reference.filters, rename(reference.bindings, new)),
        new,
    )
}

/// What the first `n` reads keep, in terms of the definition's columns; none
/// where a filter cannot be evaluated there. A read with another number of
/// columns adds nothing.
pub open spec fn kept_rows(references: Seq<FilteredView>, new: Seq<ColumnBinding>, n: nat) -> Option<
    Seq<ExpressionView>,
>
    decreases n,
{
    if n == 0 {
        Some(Seq::empty())
    } else {
        let reference = references[n - 1];
        match kept_rows(references, new, (n - 1) as nat) {
            None => None,
            Some(before) => if any_reorder_fence(reference.filters, reference.filters.len()) {
                None
            } else if reference.bindings.len() != new.len() {
                Some(before)
            } else if !is_movable(reference, new) {
                None
            } else {
                Some(
                    before.push(
                        connected(
                            ConjunctionType::And,
                            all_substituted(
                                reference.filters,
                                rename(reference.bindings, new),
                            ),
                        ),
                    ),
                )
            },
        }
    }
}

/// The condition that a row of the definition is kept by some read.
pub open spec fn or_filter(references: Seq<FilteredView>, new: Seq<ColumnBinding>) -> Option<
    ExpressionView,
> {
    match kept_rows(references, new, references.len()) {
        None => None,
        Some(terms) => if terms.len() == 0 {
            None
        } else {
            Some(connected(ConjunctionType::Or, terms))
        },
    }
}

/// The last position of a column.
pub open spec fn last_position(bindings: Seq<ColumnBinding>, binding: ColumnBinding, n: nat) -> Option<
    nat,
>
    decreases n,
{
    if n == 0 {
        None
    } else if bindings[n - 1] == binding {
        Some((n - 1) as nat)
    } else {
        last_position(bindings, binding, (n - 1) as nat)
    }
}

/// The column of the current query level that an expression equates with a
/// literal.
pub open spec fn equated_column(e: ExpressionView) -> Option<ColumnBinding> {
    match e {
        ExpressionView::Comparison(ComparisonType::Equal, left, right) => match (*left, *right) {
            (ExpressionView::ColumnRef(c), ExpressionView::Constant(_, _)) => if c.depth == 0 {
                Some(c.binding)
            } else {
                None
            },
            (ExpressionView::Constant(_, _), ExpressionView::ColumnRef(c)) => if c.depth == 0 {
                Some(c.binding)
            } else {
                None
            },
            _ => None,
        },
        _ => None,
    }
}

/// The position of the column that an expression equates with a literal.
pub open spec fn equated_position(e: ExpressionView, bindings: Seq<ColumnBinding>) -> Option<nat> {
    match equated_column(e) {
        Some(binding) => last_position(bindings, binding, bindings.len()),
        None => None,
    }
}

/// The first of the filters that equates the column at a position.
pub open spec fn first_equality(reference: FilteredView, position: nat, from: nat) -> Option<nat>
    decreases reference.filters.len() - from,
{
    if from >= reference.filters.len() {
        None
    } else if equated_position(reference.filters[from as int], reference.bindings) == Some(
        position,
    ) {
        Some(from)
    } else {
        first_equality(reference, position, from + 1)
    }
}

pub open spec fn equates(reference: FilteredView, position: nat) -> bool {
    first_equality(reference, position, 0) is Some
}

/// Whether every read equates the column at a position with a literal.
pub open spec fn all_equate(references: Seq<FilteredView>, position: nat) -> bool {
    forall|i: int| 0 <= i < references.len() ==> equates(#[trigger] references[i], position)
}

/// The positions below `n` that every read equates, in order.
pub open spec fn common_positions(references: Seq<FilteredView>, n: nat) -> Seq<usize>
    decreases n,
{
    if n == 0 {
        Seq::empty()
    } else {
        let before = common_positions(references, (n - 1) as nat);
        if all_equate(references, (n - 1) as nat) {
            before.push((n - 1) as usize)
        } else {
            before
        }
    }
}

/// The equality of a read at a position, in terms of the definition's columns.
pub open spec fn moved_equality(
    reference: FilteredView,
    position: nat,
    new: Seq<ColumnBinding>,
) -> ExpressionView {
    substituted(
        reference.filters[first_equality(reference, position, 0)->0 as int],
        rename(reference.bindings, new),
    )
}

pub open spec fn moved_equalities(
    reference: FilteredView,
    positions: Seq<usize>,
    new: Seq<ColumnBinding>,
) -> ExpressionView {
    connected(
        ConjunctionType::And,
        Seq::new(
            positions.len(),
            |i: int| moved_equality(reference, positions[i] as nat, new),
        ),
    )
}

/// What all reads have in common: the condition that a row has the literals of
/// some read in all columns that every read equates.
pub open spec fn common_domain(references: Seq<FilteredView>, new: Seq<ColumnBinding>) -> Option<
    ExpressionView,
> {
    if references.len() == 0 {
        None
    } else {
        let positions = common_positions(references, references[0].bindings.len());
        if positions.len() == 0 {
            None
        } else {
            Some(
                connected(
                    ConjunctionType::Or,
                    Seq::new(
                        references.len(),
                        |i: int| moved_equalities(references[i], positions, new),
                    ),
                ),
            )
        }
    }
}

/// The conditions on a definition that all its reads justify.
pub open spec fn producer_predicates(references: Seq<FilteredView>, new: Seq<ColumnBinding>) -> Option<
    Seq<ExpressionView>,
> {
    match or_filter(references, new) {
        None => None,
        Some(filter) => match common_domain(references, new) {
            Some(domain) => Some(seq![filter, domain]),
            None => Some(seq![filter]),
        },
    }
}

fn connect(kind: ConjunctionType, expressions: Vec<Expression>) -> (r: Expression)
    ensures
        r@ == connected(kind, views(expressions@)),
{
    let mut expressions = expressions;
    if expressions.len() == 1 {
        let ghost all = expressions@;
        if let Some(e) = expressions.pop() {
            assert(views(all)[0] == e@);
            return e;
        }
    }
    let r = Expression::Conjunction(
        Arc::new(ConjunctionExpression { conjunction_type: kind, children: expressions }),
    );
    proof {
        lemma_view_children(r);
    }
    r
}

fn bound_among(mentioned: &Vec<ColumnBinding>, bindings: &Vec<ColumnBinding>) -> (r: bool)
    ensures
        r == (forall|b: ColumnBinding| #[trigger] mentioned@.contains(b) ==> bindings@.contains(b)),
{
    let mut i: usize = 0;
    while i < mentioned.len()
        invariant
            i <= mentioned@.len(),
            forall|k: int| 0 <= k < i ==> bindings@.contains(#[trigger] mentioned@[k]),
        decreases mentioned@.len() - i,
    {
        let mut found: bool = false;
        let mut j: usize = 0;
        while j < bindings.len()
            invariant
                j <= bindings@.len(),
                i < mentioned@.len(),
                found == bindings@.take(j as int).contains(mentioned@[i as int]),
            decreases bindings@.len() - j,
        {
            let ghost earlier = bindings@.take(j as int);
            let ghost later = bindings@.take(j + 1);
            proof {
                assert(later =~= earlier.push(bindings@[j as int]));
                assert(later[j as int] == bindings@[j as int]);
                if earlier.contains(mentioned@[i as int]) {
                    let k = choose|k: int|
                        0 <= k < earlier.len() && earlier[k] == mentioned@[i as int];
                    assert(later[k] == mentioned@[i as int]);
                }
                if later.contains(mentioned@[i as int]) && bindings@[j as int] != mentioned@[i as int] {
                    let k = choose|k: int|
                        0 <= k < later.len() && later[k] == mentioned@[i as int];
                    assert(earlier[k] == mentioned@[i as int]);
                }
            }
            if bindings[j] == mentioned[i] {
                found = true;
            }
            j = j + 1;
        }
        assert(bindings@.take(j as int) =~= bindings@);
        if !found {
            assert(mentioned@.contains(mentioned@[i as int]));
            return false;
        }
        i = i + 1;
    }
    assert forall|b: ColumnBinding| #[trigger] mentioned@.contains(b) implies bindings@.contains(
        b,
    ) by {
        let k = choose|k: int| 0 <= k < mentioned@.len() && mentioned@[k] == b;
        assert(bindings@.contains(mentioned@[k]));
    }
    true
}

pub(crate) fn mention_only(expressions: &Vec<Expression>, bindings: &Vec<ColumnBinding>) -> (r: bool)
    ensures
        r == only_mention(views(expressions@), bindings@),
{
    let mut mentioned: Vec<ColumnBinding> = Vec::new();
    extract_all_column_bindings(expressions, &mut mentioned);
    let r = bound_among(&mentioned, bindings);
    proof {
        let e = views(expressions@);
        assert(e.len() == expressions@.len());
        if r {
            assert forall|b: ColumnBinding| #[trigger] any_mentions(e, e.len(), b) implies bindings@.contains(
                b,
            ) by {
                assert(mentioned@.contains(b));
            }
        } else {
            let b = choose|b: ColumnBinding| #[trigger]
                mentioned@.contains(b) && !bindings@.contains(b);
            assert(any_mentions(e, e.len(), b));
        }
    }
    r
}

fn rename_to(old: &Vec<ColumnBinding>, new: &Vec<ColumnBinding>) -> (r: ColumnReplacement)
    ensures
        r@ == rename(old@, new@),
{
    let mut pairs: Vec<(ColumnBinding, ColumnBinding)> = Vec::new();
    let mut i: usize = 0;
    while i < old.len() && i < new.len()
        invariant
            i <= old@.len(),
            i <= new@.len(),
            pairs@ == renaming(old@, new@).take(i as int),
        decreases old@.len() - i,
    {
        pairs.push((old[i], new[i]));
        assert(pairs@ =~= renaming(old@, new@).take(i + 1));
        i = i + 1;
    }
    assert(pairs@ =~= renaming(old@, new@));
    ColumnReplacement::Rebind(pairs)
}

proof fn lemma_kept_stays_none(
    references: Seq<FilteredView>,
    new: Seq<ColumnBinding>,
    n: nat,
    m: nat,
)
    requires
        n <= m,
        kept_rows(references, new, n) is None,
    ensures
        kept_rows(references, new, m) is None,
    decreases m,
{
    if n < m {
        lemma_kept_stays_none(references, new, n, (m - 1) as nat);
    }
}

/// The condition that a row of the definition is kept by some read; none where
/// a filter has effects or needs other columns.
pub fn build_or_filter(references: &Vec<FilteredCTERef>, new_bindings: &Vec<ColumnBinding>) -> (r:
    Option<Expression>)
    ensures
        match r {
            Some(e) => or_filter(reference_views(references@), new_bindings@) == Some(e@),
            None => or_filter(reference_views(references@), new_bindings@) is None,
        },
{
    let ghost all = reference_views(references@);
    let mut terms: Vec<Expression> = Vec::new();
    assert(views(terms@) =~= Seq::empty());
    let mut i: usize = 0;
    while i < references.len()
        invariant
            i <= references@.len(),
            all == reference_views(references@),
            kept_rows(all, new_bindings@, i as nat) == Some(views(terms@)),
        decreases references@.len() - i,
    {
        let reference = &references[i];
        let ghost seen = all[i as int];
        assert(seen == reference@);
        if contains_reorder_fence(&reference.filters) {
            proof {
                lemma_kept_stays_none(all, new_bindings@, (i + 1) as nat, all.len());
            }
            return None;
        }
        if reference.old_bindings.len() == new_bindings.len() {
            let replacement = rename_to(&reference.old_bindings, new_bindings);
            let rewritten = substitute_all(&reference.filters, &replacement);
            if !mention_only(&reference.filters, &reference.old_bindings) || !mention_only(
                &rewritten,
                new_bindings,
            ) {
                proof {
                    lemma_kept_stays_none(all, new_bindings@, (i + 1) as nat, all.len());
                }
                return None;
            }
            let ghost before = terms@;
            let term = connect(ConjunctionType::And, rewritten);
            terms.push(term);
            assert(views(terms@) =~= views(before).push(term@));
        }
        i = i + 1;
    }
    if terms.len() == 0 {
        None
    } else {
        Some(connect(ConjunctionType::Or, terms))
    }
}

fn last_position_of(bindings: &Vec<ColumnBinding>, binding: ColumnBinding) -> (r: Option<usize>)
    ensures
        match r {
            Some(i) => last_position(bindings@, binding, bindings@.len()) == Some(i as nat),
            None => last_position(bindings@, binding, bindings@.len()) is None,
        },
{
    let mut found: Option<usize> = None;
    let mut i: usize = 0;
    while i < bindings.len()
        invariant
            i <= bindings@.len(),
            match found {
                Some(k) => last_position(bindings@, binding, i as nat) == Some(k as nat),
                None => last_position(bindings@, binding, i as nat) is None,
            },
        decreases bindings@.len() - i,
    {
        if bindings[i] == binding {
            found = Some(i);
        }
        i = i + 1;
    }
    found
}

fn equated(e: &Expression) -> (r: Option<ColumnBinding>)
    ensures
        r == equated_column(e@),
{
    proof {
        reveal_with_fuel(expression_view, 2);
    }
    let Expression::Comparison(c) = e else {
        return None;
    };
    if c.comparison_type != ComparisonType::Equal {
        return None;
    }
    match (&c.left, &c.right) {
        (Expression::ColumnRef(column), Expression::Constant(_)) => if column.depth == 0 {
            Some(column.binding)
        } else {
            None
        },
        (Expression::Constant(_), Expression::ColumnRef(column)) => if column.depth == 0 {
            Some(column.binding)
        } else {
            None
        },
        _ => None,
    }
}

fn find_equality(reference: &FilteredCTERef, position: usize) -> (r: Option<usize>)
    ensures
        match r {
            Some(i) => first_equality(reference@, position as nat, 0) == Some(i as nat) && i
                < reference.filters@.len(),
            None => first_equality(reference@, position as nat, 0) is None,
        },
{
    let mut i: usize = 0;
    while i < reference.filters.len()
        invariant
            i <= reference.filters@.len(),
            first_equality(reference@, position as nat, 0) == first_equality(
                reference@,
                position as nat,
                i as nat,
            ),
        decreases reference.filters@.len() - i,
    {
        assert(reference@.filters[i as int] == reference.filters@[i as int]@);
        if let Some(binding) = equated(&reference.filters[i]) {
            if let Some(at) = last_position_of(&reference.old_bindings, binding) {
                if at == position {
                    return Some(i);
                }
            }
        }
        i = i + 1;
    }
    None
}

fn every_read_equates(references: &Vec<FilteredCTERef>, position: usize) -> (r: bool)
    ensures
        r == all_equate(reference_views(references@), position as nat),
{
    let ghost all = reference_views(references@);
    let mut i: usize = 0;
    while i < references.len()
        invariant
            i <= references@.len(),
            all == reference_views(references@),
            forall|k: int| 0 <= k < i ==> equates(#[trigger] all[k], position as nat),
        decreases references@.len() - i,
    {
        assert(all[i as int] == references@[i as int]@);
        if find_equality(&references[i], position).is_none() {
            return false;
        }
        i = i + 1;
    }
    true
}

proof fn lemma_common_positions(references: Seq<FilteredView>, n: nat)
    requires
        n <= usize::MAX,
    ensures
        forall|i: int|
            0 <= i < common_positions(references, n).len() ==> all_equate(
                references,
                #[trigger] common_positions(references, n)[i] as nat,
            ),
    decreases n,
{
    if n > 0 {
        lemma_common_positions(references, (n - 1) as nat);
        let before = common_positions(references, (n - 1) as nat);
        let all = common_positions(references, n);
        assert forall|i: int| 0 <= i < all.len() implies all_equate(
            references,
            #[trigger] all[i] as nat,
        ) by {
            if i < before.len() {
                assert(all[i] == before[i]);
            }
        }
    }
}

/// What all reads have in common, as a condition on the definition. It crosses
/// aggregates and unions that the full condition does not.
pub fn build_common_equality_domain(
    references: &Vec<FilteredCTERef>,
    new_bindings: &Vec<ColumnBinding>,
) -> (r: Option<Expression>)
    ensures
        match r {
            Some(e) => common_domain(reference_views(references@), new_bindings@) == Some(e@),
            None => common_domain(reference_views(references@), new_bindings@) is None,
        },
{
    let ghost all = reference_views(references@);
    if references.len() == 0 {
        return None;
    }
    assert(all[0] == references@[0]@);
    let width: usize = references[0].old_bindings.len();
    let mut positions: Vec<usize> = Vec::new();
    let mut p: usize = 0;
    while p < width
        invariant
            p <= width,
            all == reference_views(references@),
            positions@ == common_positions(all, p as nat),
        decreases width - p,
    {
        if every_read_equates(references, p) {
            positions.push(p);
        }
        p = p + 1;
    }
    if positions.len() == 0 {
        return None;
    }
    proof {
        lemma_common_positions(all, width as nat);
    }
    let ghost wanted = Seq::new(
        all.len(),
        |i: int| moved_equalities(all[i], positions@, new_bindings@),
    );
    let mut disjuncts: Vec<Expression> = Vec::new();
    let mut i: usize = 0;
    while i < references.len()
        invariant
            i <= references@.len(),
            all == reference_views(references@),
            positions@.len() > 0,
            positions@ == common_positions(all, width as nat),
            forall|k: int|
                0 <= k < positions@.len() ==> all_equate(all, #[trigger] positions@[k] as nat),
            wanted == Seq::new(
                all.len(),
                |i: int| moved_equalities(all[i], positions@, new_bindings@),
            ),
            views(disjuncts@) == wanted.take(i as int),
        decreases references@.len() - i,
    {
        let reference = &references[i];
        assert(all[i as int] == reference@);
        let replacement = rename_to(&reference.old_bindings, new_bindings);
        let ghost each = Seq::new(
            positions@.len(),
            |k: int| moved_equality(reference@, positions@[k] as nat, new_bindings@),
        );
        let mut conjuncts: Vec<Expression> = Vec::new();
        let mut k: usize = 0;
        while k < positions.len()
            invariant
                k <= positions@.len(),
                i < references@.len(),
                all == reference_views(references@),
                *reference == references@[i as int],
                all[i as int] == reference@,
                replacement@ == rename(reference@.bindings, new_bindings@),
                forall|k: int|
                    0 <= k < positions@.len() ==> all_equate(all, #[trigger] positions@[k] as nat),
                each == Seq::new(
                    positions@.len(),
                    |k: int| moved_equality(reference@, positions@[k] as nat, new_bindings@),
                ),
                views(conjuncts@) == each.take(k as int),
            decreases positions@.len() - k,
        {
            proof {
                assert(all_equate(all, positions@[k as int] as nat));
                assert(equates(all[i as int], positions@[k as int] as nat));
            }
            if let Some(at) = find_equality(reference, positions[k]) {
                let ghost before = conjuncts@;
                let e = substitute(&reference.filters[at], &replacement);
                assert(reference@.filters[at as int] == reference.filters@[at as int]@);
                conjuncts.push(e);
                assert(views(conjuncts@) =~= views(before).push(e@));
                assert(views(conjuncts@) =~= each.take(k + 1));
            }
            k = k + 1;
        }
        assert(each.take(k as int) =~= each);
        assert(conjuncts@.len() == views(conjuncts@).len());
        let ghost before = disjuncts@;
        let e = connect(ConjunctionType::And, conjuncts);
        disjuncts.push(e);
        assert(views(disjuncts@) =~= views(before).push(e@));
        assert(views(disjuncts@) =~= wanted.take(i + 1));
        i = i + 1;
    }
    assert(wanted.take(i as int) =~= wanted);
    assert(disjuncts@.len() == views(disjuncts@).len());
    Some(connect(ConjunctionType::Or, disjuncts))
}

/// The conditions on a definition, given all its reads. Every read must have
/// filters and the definition's columns.
pub fn derive_producer_predicates(
    references: &Vec<FilteredCTERef>,
    producer_bindings: &Vec<ColumnBinding>,
) -> (r: Option<Vec<Expression>>)
    ensures
        ({
            let all = reference_views(references@);
            let usable = all.len() > 0 && forall|i: int|
                0 <= i < all.len() ==> (#[trigger] all[i]).filters.len() > 0
                    && all[i].bindings.len() == producer_bindings@.len();
            match r {
                Some(predicates) => usable && producer_predicates(all, producer_bindings@) == Some(
                    views(predicates@),
                ),
                None => !usable || producer_predicates(all, producer_bindings@) is None,
            }
        }),
{
    let ghost all = reference_views(references@);
    if references.len() == 0 {
        return None;
    }
    let mut i: usize = 0;
    while i < references.len()
        invariant
            i <= references@.len(),
            all == reference_views(references@),
            forall|k: int|
                0 <= k < i ==> (#[trigger] all[k]).filters.len() > 0 && all[k].bindings.len()
                    == producer_bindings@.len(),
        decreases references@.len() - i,
    {
        assert(all[i as int] == references@[i as int]@);
        if references[i].filters.len() == 0 || references[i].old_bindings.len()
            != producer_bindings.len() {
            return None;
        }
        i = i + 1;
    }
    derive_predicates(references, producer_bindings)
}

/// The conditions on a definition that its reads justify.
pub fn derive_predicates(
    references: &Vec<FilteredCTERef>,
    producer_bindings: &Vec<ColumnBinding>,
) -> (r: Option<Vec<Expression>>)
    ensures
        match r {
            Some(predicates) => producer_predicates(
                reference_views(references@),
                producer_bindings@,
            ) == Some(views(predicates@)),
            None => producer_predicates(reference_views(references@), producer_bindings@) is None,
        },
{
    match build_or_filter(references, producer_bindings) {
        None => None,
        Some(filter) => {
            let mut predicates: Vec<Expression> = Vec::new();
            predicates.push(filter);
            if let Some(domain) = build_common_equality_domain(references, producer_bindings) {
                predicates.push(domain);
                assert(views(predicates@) =~= seq![filter@, domain@]);
            } else {
                assert(views(predicates@) =~= seq![filter@]);
            }
            Some(predicates)
        },
    }
}

/// Whether a judgement of expressions on one row treats AND and OR as it
/// should.
pub open spec fn respects_connectives(holds: spec_fn(ExpressionView) -> bool) -> bool {
    &&& forall|children: Seq<ExpressionView>|
        (#[trigger] holds(ExpressionView::Conjunction(ConjunctionType::And, children))) <==> forall|
            i: int,
        |
            0 <= i < children.len() ==> holds(#[trigger] children[i])
    &&& forall|children: Seq<ExpressionView>|
        (#[trigger] holds(ExpressionView::Conjunction(ConjunctionType::Or, children))) <==> exists|
            i: int,
        |
            0 <= i < children.len() && holds(#[trigger] children[i])
}

proof fn lemma_all_hold(holds: spec_fn(ExpressionView) -> bool, expressions: Seq<ExpressionView>)
    requires
        respects_connectives(holds),
        forall|i: int| 0 <= i < expressions.len() ==> holds(#[trigger] expressions[i]),
    ensures
        holds(connected(ConjunctionType::And, expressions)),
{
    if expressions.len() == 1 {
        assert(holds(expressions[0]));
    }
}

proof fn lemma_one_holds(
    holds: spec_fn(ExpressionView) -> bool,
    expressions: Seq<ExpressionView>,
    i: int,
)
    requires
        respects_connectives(holds),
        0 <= i < expressions.len(),
        holds(expressions[i]),
    ensures
        holds(connected(ConjunctionType::Or, expressions)),
{
    assert(holds(expressions[i]));
}

proof fn lemma_kept_contains(
    references: Seq<FilteredView>,
    new: Seq<ColumnBinding>,
    n: nat,
    i: int,
) -> (k: int)
    requires
        0 <= i < n,
        references[i].bindings.len() == new.len(),
        kept_rows(references, new, n) is Some,
    ensures
        0 <= k < (kept_rows(references, new, n)->0).len(),
        (kept_rows(references, new, n)->0)[k] == connected(
            ConjunctionType::And,
            all_substituted(references[i].filters, rename(references[i].bindings, new)),
        ),
    decreases n,
{
    let before = kept_rows(references, new, (n - 1) as nat)->0;
    if i == n - 1 {
        before.len() as int
    } else {
        lemma_kept_contains(references, new, (n - 1) as nat, i)
    }
}

proof fn lemma_first_equality(reference: FilteredView, position: nat, from: nat)
    ensures
        first_equality(reference, position, from) matches Some(at) ==> from <= at
            < reference.filters.len(),
    decreases reference.filters.len() - from,
{
    if from < reference.filters.len() {
        lemma_first_equality(reference, position, from + 1);
    }
}

/// A row that some read keeps passes every condition put on the definition:
/// pushing the conditions down never loses a row that is needed.
pub proof fn needed_rows_are_kept(
    references: Seq<FilteredView>,
    new: Seq<ColumnBinding>,
    i: int,
    holds: spec_fn(ExpressionView) -> bool,
)
    requires
        respects_connectives(holds),
        new.len() <= usize::MAX,
        0 <= i < references.len(),
        references[i].bindings.len() == new.len(),
        references[0].bindings.len() <= usize::MAX,
        producer_predicates(references, new) is Some,
        forall|k: int|
            0 <= k < references[i].filters.len() ==> holds(
                substituted(
                    #[trigger] references[i].filters[k],
                    rename(references[i].bindings, new),
                ),
            ),
    ensures
        forall|p: int|
            0 <= p < (producer_predicates(references, new)->0).len() ==> holds(
                #[trigger] (producer_predicates(references, new)->0)[p],
            ),
{
    let read = references[i];
    let moved = all_substituted(read.filters, rename(read.bindings, new));
    assert forall|k: int| 0 <= k < moved.len() implies holds(#[trigger] moved[k]) by {
        assert(moved[k] == substituted(read.filters[k], rename(read.bindings, new)));
    }
    lemma_all_hold(holds, moved);
    let terms = kept_rows(references, new, references.len())->0;
    let k = lemma_kept_contains(references, new, references.len(), i);
    lemma_one_holds(holds, terms, k);
    if common_domain(references, new) is Some {
        let width = references[0].bindings.len();
        let positions = common_positions(references, width);
        lemma_common_positions(references, width);
        let each = Seq::new(
            positions.len(),
            |k: int| moved_equality(read, positions[k] as nat, new),
        );
        assert forall|k: int| 0 <= k < each.len() implies holds(#[trigger] each[k]) by {
            assert(all_equate(references, positions[k] as nat));
            assert(equates(references[i], positions[k] as nat));
            lemma_first_equality(read, positions[k] as nat, 0);
            let at = first_equality(read, positions[k] as nat, 0)->0;
            assert(holds(substituted(read.filters[at as int], rename(read.bindings, new))));
        }
        lemma_all_hold(holds, each);
        let disjuncts = Seq::new(
            references.len(),
            |i: int| moved_equalities(references[i], positions, new),
        );
        assert(disjuncts[i] == connected(ConjunctionType::And, each));
        lemma_one_holds(holds, disjuncts, i);
    }
}

proof fn lemma_kept_is_some_read(
    references: Seq<FilteredView>,
    new: Seq<ColumnBinding>,
    n: nat,
    k: int,
) -> (i: int)
    requires
        kept_rows(references, new, n) is Some,
        0 <= k < (kept_rows(references, new, n)->0).len(),
    ensures
        0 <= i < n,
        (kept_rows(references, new, n)->0)[k] == connected(
            ConjunctionType::And,
            all_substituted(references[i].filters, rename(references[i].bindings, new)),
        ),
    decreases n,
{
    let before = kept_rows(references, new, (n - 1) as nat)->0;
    if k < before.len() {
        lemma_kept_is_some_read(references, new, (n - 1) as nat, k)
    } else {
        n - 1
    }
}

proof fn lemma_listed_positions(references: Seq<FilteredView>, n: nat, position: nat) -> (k: int)
    requires
        n <= usize::MAX,
        position < n,
        all_equate(references, position),
    ensures
        0 <= k < common_positions(references, n).len(),
        common_positions(references, n)[k] == position,
    decreases n,
{
    let before = common_positions(references, (n - 1) as nat);
    if position == n - 1 {
        before.len() as int
    } else {
        lemma_listed_positions(references, (n - 1) as nat, position)
    }
}

proof fn lemma_found_equality(reference: FilteredView, position: nat, from: nat, at: int)
    requires
        from <= at < reference.filters.len(),
        equated_position(reference.filters[at], reference.bindings) == Some(position),
    ensures
        first_equality(reference, position, from) is Some,
    decreases reference.filters.len() - from,
{
    if from < at {
        lemma_found_equality(reference, position, from + 1, at);
    }
}

proof fn lemma_equality_found(reference: FilteredView, position: nat, from: nat)
    ensures
        first_equality(reference, position, from) matches Some(at) ==> from <= at
            < reference.filters.len() && equated_position(
            reference.filters[at as int],
            reference.bindings,
        ) == Some(position),
    decreases reference.filters.len() - from,
{
    if from < reference.filters.len() {
        lemma_equality_found(reference, position, from + 1);
    }
}

/// A row that passes the conditions put on a definition is one that some read
/// keeps: the conditions leave no row that every read throws away.
pub proof fn kept_rows_are_needed(
    references: Seq<FilteredView>,
    new: Seq<ColumnBinding>,
    holds: spec_fn(ExpressionView) -> bool,
)
    requires
        respects_connectives(holds),
        producer_predicates(references, new) is Some,
        forall|p: int|
            0 <= p < (producer_predicates(references, new)->0).len() ==> holds(
                #[trigger] (producer_predicates(references, new)->0)[p],
            ),
    ensures
        exists|i: int|
            #![trigger references[i]]
            0 <= i < references.len() && forall|k: int|
                0 <= k < references[i].filters.len() ==> holds(
                    substituted(
                        #[trigger] references[i].filters[k],
                        rename(references[i].bindings, new),
                    ),
                ),
{
    let terms = kept_rows(references, new, references.len())->0;
    assert(holds((producer_predicates(references, new)->0)[0]));
    let at = if terms.len() == 1 {
        0
    } else {
        choose|at: int| 0 <= at < terms.len() && holds(#[trigger] terms[at])
    };
    assert(holds(terms[at]));
    let i = lemma_kept_is_some_read(references, new, references.len(), at);
    let moved = all_substituted(references[i].filters, rename(references[i].bindings, new));
    assert forall|k: int| 0 <= k < references[i].filters.len() implies holds(
        substituted(#[trigger] references[i].filters[k], rename(references[i].bindings, new)),
    ) by {
        assert(moved[k] == substituted(
            references[i].filters[k],
            rename(references[i].bindings, new),
        ));
        assert(holds(moved[k]));
    }
}

/// Whether a filter of a read compares the column at a position with a literal.
pub open spec fn compares_with_literal(
    reference: FilteredView,
    k: int,
    position: nat,
) -> bool {
    &&& 0 <= k < reference.filters.len()
    &&& equated_position(reference.filters[k], reference.bindings) == Some(position)
}

/// Whether every read compares the column at a position with a literal.
pub open spec fn every_read_compares(references: Seq<FilteredView>, position: nat) -> bool {
    forall|j: int|
        #![trigger references[j]]
        0 <= j < references.len() ==> exists|k: int| #[trigger]
            compares_with_literal(references[j], k, position)
}

/// A row in what all reads have in common passes, for some read, an equality on
/// each column that every read compares with a literal.
pub proof fn common_domain_keeps_shared_equalities(
    references: Seq<FilteredView>,
    new: Seq<ColumnBinding>,
    holds: spec_fn(ExpressionView) -> bool,
)
    requires
        respects_connectives(holds),
        common_domain(references, new) is Some,
        holds(common_domain(references, new)->0),
        references[0].bindings.len() <= usize::MAX,
    ensures
        exists|i: int|
            #![trigger references[i]]
            0 <= i < references.len() && forall|position: nat|
                position < references[0].bindings.len() && every_read_compares(
                    references,
                    position,
                ) ==> #[trigger] passes_equality_at(references[i], position, new, holds),
{
    let width = references[0].bindings.len();
    let positions = common_positions(references, width);
    let disjuncts = Seq::new(
        references.len(),
        |i: int| moved_equalities(references[i], positions, new),
    );
    let i = if disjuncts.len() == 1 {
        0
    } else {
        choose|i: int| 0 <= i < disjuncts.len() && holds(#[trigger] disjuncts[i])
    };
    assert(holds(disjuncts[i]));
    let read = references[i];
    let each = Seq::new(
        positions.len(),
        |k: int| moved_equality(read, positions[k] as nat, new),
    );
    assert(disjuncts[i] == connected(ConjunctionType::And, each));
    assert forall|position: nat|
        position < references[0].bindings.len() && every_read_compares(
            references,
            position,
        ) implies #[trigger] passes_equality_at(references[i], position, new, holds) by {
        assert forall|j: int| 0 <= j < references.len() implies equates(
            #[trigger] references[j],
            position,
        ) by {
            let k = choose|k: int| compares_with_literal(references[j], k, position);
            lemma_found_equality(references[j], position, 0, k);
        }
        let at = lemma_listed_positions(references, width, position);
        assert(each[at] == moved_equality(read, position, new));
        assert(holds(each[at]));
        lemma_equality_found(read, position, 0);
        let k = first_equality(read, position, 0)->0 as int;
        assert(equates(references[i], position));
        assert(compares_with_literal(read, k, position));
    }
}

/// Whether a row of the definition passes an equality with a literal that a read
/// puts on the column at a position.
pub open spec fn passes_equality_at(
    reference: FilteredView,
    position: nat,
    new: Seq<ColumnBinding>,
    holds: spec_fn(ExpressionView) -> bool,
) -> bool {
    exists|k: int| #[trigger]
        compares_with_literal(reference, k, position) && holds(
            substituted(reference.filters[k], rename(reference.bindings, new)),
        )
}

/// An equality with a literal gives the column at its position that literal: it
/// is true of a row exactly where the column has the literal's value.
pub proof fn equality_fixes_the_column_at_its_position(
    e: ExpressionView,
    bindings: Seq<ColumnBinding>,
    position: nat,
    holds: spec_fn(ExpressionView) -> bool,
    value: spec_fn(ExpressionView) -> Option<int>,
    row: spec_fn(ColumnBinding) -> Option<int>,
)
    requires
        reads_comparisons(holds, value),
        reads_columns(value, row),
        equated_position(e, bindings) == Some(position),
    ensures
        position < bindings.len(),
        exists|v: ValueView, ty: LogicalType| {
            &&& occurs(ExpressionView::Constant(v, ty), e)
            &&& holds(e) <==> row(bindings[position as int]) is Some && row(
                bindings[position as int],
            ) == #[trigger] value(ExpressionView::Constant(v, ty))
        },
{
    lemma_last_position(bindings, equated_column(e)->0, bindings.len());
    match e {
        ExpressionView::Comparison(kind, left, right) => {
            assert(holds(ExpressionView::Comparison(kind, left, right)) <==> kind.is_true_of(
                value(*left),
                value(*right),
            ));
            assert(occurs(*left, *left));
            assert(occurs(*right, *right));
            assert(occurs(*left, e));
            assert(occurs(*right, e));
            match (*left, *right) {
                (ExpressionView::ColumnRef(c), ExpressionView::Constant(v, ty)) => {
                    assert(value(ExpressionView::ColumnRef(c)) == row(c.binding));
                    assert(value(ExpressionView::Constant(v, ty)) == value(*right));
                },
                (ExpressionView::Constant(v, ty), ExpressionView::ColumnRef(c)) => {
                    assert(value(ExpressionView::ColumnRef(c)) == row(c.binding));
                    assert(value(ExpressionView::Constant(v, ty)) == value(*left));
                },
                _ => {},
            }
        },
        _ => {},
    }
}

proof fn lemma_last_position(bindings: Seq<ColumnBinding>, binding: ColumnBinding, n: nat)
    requires
        n <= bindings.len(),
    ensures
        last_position(bindings, binding, n) matches Some(at) ==> at < n && bindings[at as int]
            == binding,
    decreases n,
{
    if n > 0 {
        lemma_last_position(bindings, binding, (n - 1) as nat);
    }
}

} // verus!
