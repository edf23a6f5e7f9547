//! Filters over columns whose possible values are all known.

use vstd::prelude::*;

use crate::binding_map::ordered;
use crate::cte::predicate_domain::respects_connectives;
use crate::domain::{
    all_domain_values, denotes_domain, domain_from_values, domain_of, lemma_domain_of, Domain,
    DomainValueView, FiniteDomains,
};
use crate::expression::analysis::{lemma_view_children, views};
use crate::expression::equality::{equality_domain, finite_equality_domain};
use crate::expression::meaning::{
    reads_columns, reads_comparisons, reads_literals, restricted_column_has_a_listed_value,
};
use crate::expression::{Expression, ExpressionView};
use crate::plan::CardinalityEstimate;
use crate::types::{ColumnBinding, ConjunctionType};
use crate::value::ValueView;

verus! {

/// The conditions that a predicate conjoins, in order.
pub open spec fn conditions(e: ExpressionView) -> Seq<ExpressionView>
    decreases e, 0nat,
{
    match e {
        ExpressionView::Conjunction(kind, children) => if kind == ConjunctionType::And {
            all_conditions(children, children.len())
        } else {
            seq![e]
        },
        _ => seq![e],
    }
}

/// The conditions that the first `n` predicates conjoin, in order.
pub open spec fn all_conditions(predicates: Seq<ExpressionView>, n: nat) -> Seq<ExpressionView>
    decreases predicates, n,
{
    if n == 0 || n > predicates.len() {
        Seq::empty()
    } else {
        all_conditions(predicates, (n - 1) as nat) + conditions(predicates[n - 1])
    }
}

/// Appends the conditions that `e` conjoins.
pub fn collect_conditions(e: &Expression, collected: &mut Vec<Expression>)
    ensures
        views(final(collected)@) == views(old(collected)@) + conditions(e@),
    decreases e, 0nat,
{
    proof {
        lemma_view_children(*e);
    }
    match e {
        Expression::Conjunction(c) => {
            if c.conjunction_type == ConjunctionType::And {
                collect_all_conditions(&c.children, collected);
            } else {
                collected.push(e.copy());
                assert(views(collected@) =~= views(old(collected)@) + seq![e@]);
            }
        },
        _ => {
            collected.push(e.copy());
            assert(views(collected@) =~= views(old(collected)@) + seq![e@]);
        },
    }
}

/// Appends the conditions that `predicates` conjoin.
pub fn collect_all_conditions(predicates: &Vec<Expression>, collected: &mut Vec<Expression>)
    ensures
        views(final(collected)@) == views(old(collected)@) + all_conditions(
            views(predicates@),
            predicates@.len(),
        ),
    decreases predicates, 1nat,
{
    let mut i: usize = 0;
    assert(views(collected@) =~= views(old(collected)@) + all_conditions(views(predicates@), 0));
    while i < predicates.len()
        invariant
            i <= predicates@.len(),
            views(collected@) == views(old(collected)@) + all_conditions(
                views(predicates@),
                i as nat,
            ),
        decreases predicates@.len() - i,
    {
        let ghost before = views(collected@);
        assert(views(predicates@)[i as int] == predicates@[i as int]@);
        collect_conditions(&predicates[i], collected);
        assert(views(collected@) =~= views(old(collected)@) + all_conditions(
            views(predicates@),
            (i + 1) as nat,
        ));
        i = i + 1;
    }
}

/// The values that a condition admits of a column with a known domain.
pub open spec fn constraint(
    e: ExpressionView,
    domains: Map<ColumnBinding, Set<DomainValueView>>,
) -> Option<(ColumnBinding, Set<DomainValueView>)> {
    match equality_domain(e) {
        Some((binding, values)) => if domains.contains_key(binding) && all_domain_values(values) {
            Some((binding, domain_of(values, values.len())))
        } else {
            None
        },
        None => None,
    }
}

/// The values that the conditions from position `from` on admit, per column.
pub open spec fn selected(
    all: Seq<ExpressionView>,
    from: int,
    domains: Map<ColumnBinding, Set<DomainValueView>>,
) -> Map<ColumnBinding, Set<DomainValueView>>
    decreases all.len() - from,
{
    if from < 0 || from >= all.len() {
        Map::empty()
    } else {
        let later = selected(all, from + 1, domains);
        match constraint(all[from], domains) {
            Some((binding, values)) => later.insert(
                binding,
                if later.contains_key(binding) {
                    later[binding].intersect(values)
                } else {
                    values
                },
            ),
            None => later,
        }
    }
}

/// The conditions from position `from` on that no known domain decides, last
/// condition first.
pub open spec fn undecided(
    all: Seq<ExpressionView>,
    from: int,
    domains: Map<ColumnBinding, Set<DomainValueView>>,
) -> Seq<ExpressionView>
    decreases all.len() - from,
{
    if from < 0 || from >= all.len() {
        Seq::empty()
    } else {
        let later = undecided(all, from + 1, domains);
        if constraint(all[from], domains) is Some {
            later
        } else {
            later.push(all[from])
        }
    }
}

/// Whether a condition restricts a column.
spec fn restricts(
    e: ExpressionView,
    domains: Map<ColumnBinding, Set<DomainValueView>>,
    binding: ColumnBinding,
) -> bool {
    constraint(e, domains) matches Some((restricted, _)) && restricted == binding
}

/// Whether a condition admits a value of the column that it restricts.
spec fn admits(
    e: ExpressionView,
    domains: Map<ColumnBinding, Set<DomainValueView>>,
    value: DomainValueView,
) -> bool {
    constraint(e, domains) matches Some((_, values)) && values.contains(value)
}

/// A value is selected of a column exactly if every condition on it admits it.
proof fn lemma_selected(
    all: Seq<ExpressionView>,
    from: int,
    domains: Map<ColumnBinding, Set<DomainValueView>>,
    binding: ColumnBinding,
    value: DomainValueView,
)
    requires
        0 <= from <= all.len(),
    ensures
        selected(all, from, domains).contains_key(binding) <==> exists|i: int|
            from <= i < all.len() && restricts(#[trigger] all[i], domains, binding),
        selected(all, from, domains).contains_key(binding) ==> (selected(
            all,
            from,
            domains,
        )[binding].contains(value) <==> forall|i: int|
            from <= i < all.len() && restricts(#[trigger] all[i], domains, binding)
                ==> admits(all[i], domains, value)),
    decreases all.len() - from,
{
    if from < all.len() {
        lemma_selected(all, from + 1, domains, binding, value);
        let later = selected(all, from + 1, domains);
        if restricts(all[from], domains, binding) && later.contains_key(binding) {
            let i = choose|i: int|
                from + 1 <= i < all.len() && restricts(#[trigger] all[i], domains, binding);
            assert(restricts(all[i], domains, binding));
        }
    }
}

proof fn lemma_undecided_repeated(
    all: Seq<ExpressionView>,
    from: int,
    domains: Map<ColumnBinding, Set<DomainValueView>>,
    e: ExpressionView,
)
    requires
        0 <= from <= all.len(),
        constraint(e, domains) is Some,
    ensures
        undecided(all.push(e), from, domains) == undecided(all, from, domains),
    decreases all.len() - from,
{
    let longer = all.push(e);
    if from < all.len() {
        lemma_undecided_repeated(all, from + 1, domains, e);
        assert(longer[from] == all[from]);
    } else {
        assert(longer[from] == e);
        assert(undecided(longer, from + 1, domains) =~= Seq::empty());
    }
}

/// Repeating a condition that a known domain decides changes neither what is
/// selected nor what is left to decide.
pub proof fn repeating_a_decided_condition_changes_nothing(
    all: Seq<ExpressionView>,
    domains: Map<ColumnBinding, Set<DomainValueView>>,
    i: int,
)
    requires
        0 <= i < all.len(),
        constraint(all[i], domains) is Some,
    ensures
        selected(all.push(all[i]), 0, domains) == selected(all, 0, domains),
        undecided(all.push(all[i]), 0, domains) == undecided(all, 0, domains),
{
    let longer = all.push(all[i]);
    let before = selected(all, 0, domains);
    let after = selected(longer, 0, domains);
    lemma_undecided_repeated(all, 0, domains, all[i]);
    assert forall|k: int| 0 <= k < longer.len() implies exists|j: int|
        0 <= j < all.len() && #[trigger] all[j] == #[trigger] longer[k] by {
        if k < all.len() {
            assert(all[k] == longer[k]);
        } else {
            assert(all[i] == longer[k]);
        }
    }
    assert forall|j: int| 0 <= j < all.len() implies longer[j] == #[trigger] all[j] by {}
    assert forall|b: ColumnBinding| before.contains_key(b) == after.contains_key(b) by {
        lemma_selected(all, 0, domains, b, arbitrary());
        lemma_selected(longer, 0, domains, b, arbitrary());
    }
    assert forall|b: ColumnBinding| before.contains_key(b) implies before[b] == after[b] by {
        assert forall|v: DomainValueView| before[b].contains(v) == after[b].contains(v) by {
            lemma_selected(all, 0, domains, b, v);
            lemma_selected(longer, 0, domains, b, v);
        }
        assert(before[b] =~= after[b]);
    }
    assert(before =~= after);
}

fn known_constraint(e: &Expression, domains: &FiniteDomains) -> (r: Option<(ColumnBinding, Domain)>)
    ensures
        match r {
            Some((binding, domain)) => constraint(e@, domains@) == Some((binding, domain@)),
            None => constraint(e@, domains@) is None,
        },
{
    match finite_equality_domain(e) {
        Some((binding, values)) => match domains.get(&binding) {
            Some(_) => match domain_from_values(&values) {
                Some(domain) => Some((binding, domain)),
                None => None,
            },
            None => None,
        },
        None => None,
    }
}

/// Values that a filter keeps of a column, out of those that it can take.
#[derive(Clone, Copy, Debug, PartialEq, Eq, Structural)]
pub struct DomainShare {
    pub binding: ColumnBinding,
    pub kept: usize,
    pub known: usize,
}

/// What known domains say about a filter.
#[derive(Debug)]
pub struct FiniteFilterSelectivity {
    /// Shares of the restricted columns, in binding order. Their product is
    /// the selectivity under a uniform distribution.
    pub shares: Vec<DomainShare>,
    /// Whether some column keeps no value, so that no row can pass.
    pub impossible: bool,
    /// Conditions that the shares do not account for.
    pub residuals: Vec<Expression>,
}

/// Whether `share` counts the kept and known values of its column.
pub open spec fn counts(
    share: DomainShare,
    kept: Map<ColumnBinding, Set<DomainValueView>>,
    domains: Map<ColumnBinding, Set<DomainValueView>>,
) -> bool {
    &&& kept.contains_key(share.binding)
    &&& share.kept == domains[share.binding].intersect(kept[share.binding]).len()
    &&& share.known == domains[share.binding].len()
}

/// Whether `shares` lists exactly the restricted columns, in binding order.
pub open spec fn lists_shares(
    shares: Seq<DomainShare>,
    kept: Map<ColumnBinding, Set<DomainValueView>>,
    domains: Map<ColumnBinding, Set<DomainValueView>>,
) -> bool {
    &&& forall|i: int, j: int|
        #![trigger shares[i], shares[j]]
        0 <= i < j < shares.len() ==> shares[i].binding.spec_before(shares[j].binding)
    &&& forall|i: int| 0 <= i < shares.len() ==> counts(#[trigger] shares[i], kept, domains)
    &&& forall|b: ColumnBinding| #[trigger]
        kept.contains_key(b) ==> exists|i: int|
            0 <= i < shares.len() && (#[trigger] shares[i]).binding == b
}

/// What `finite_filter_fraction` finds, where it finds anything.
pub open spec fn describes(
    r: FiniteFilterSelectivity,
    all: Seq<ExpressionView>,
    domains: Map<ColumnBinding, Set<DomainValueView>>,
) -> bool {
    let kept = selected(all, 0, domains);
    &&& lists_shares(r.shares@, kept, domains)
    &&& views(r.residuals@) == undecided(all, 0, domains)
    &&& r.impossible <==> exists|b: ColumnBinding|
        #[trigger] kept.contains_key(b) && domains[b].disjoint(kept[b])
}

/// Evaluates the conditions of a filter against known domains. Repeating a
/// condition changes nothing, and a product of shares that rounds to zero does
/// not make the filter impossible.
pub fn finite_filter_fraction(expressions: &Vec<Expression>, domains: &FiniteDomains) -> (r: Option<
    FiniteFilterSelectivity,
>)
    ensures
        ({
            let all = all_conditions(views(expressions@), expressions@.len());
            match r {
                Some(found) => selected(all, 0, domains@).dom() != Set::<ColumnBinding>::empty()
                    && describes(found, all, domains@),
                None => selected(all, 0, domains@).dom() == Set::<ColumnBinding>::empty(),
            }
        }),
{
    let ghost all = all_conditions(views(expressions@), expressions@.len());
    let mut pending: Vec<Expression> = Vec::new();
    assert(views(pending@) =~= Seq::empty());
    collect_all_conditions(expressions, &mut pending);
    assert(views(pending@) =~= all);
    let mut kept: FiniteDomains = FiniteDomains::new();
    let mut residuals: Vec<Expression> = Vec::new();
    let mut i: usize = pending.len();
    assert(views(residuals@) =~= Seq::empty());
    while i > 0
        invariant
            i <= pending@.len(),
            views(pending@) == all,
            kept@ == selected(all, i as int, domains@),
            views(residuals@) == undecided(all, i as int, domains@),
        decreases i,
    {
        i = i - 1;
        assert(all[i as int] == pending@[i as int]@);
        match known_constraint(&pending[i], domains) {
            Some((binding, values)) => {
                let narrowed = match kept.get(&binding) {
                    Some(old) => old.intersection(&values),
                    None => values,
                };
                kept.insert(binding, narrowed);
            },
            None => {
                let ghost before = residuals@;
                residuals.push(pending[i].copy());
                assert(views(residuals@) =~= views(before).push(all[i as int]));
            },
        }
    }
    if kept.is_empty() {
        return None;
    }
    proof {
        lemma_selected_domains(all, 0, domains@);
    }
    let mut shares: Vec<DomainShare> = Vec::new();
    let mut impossible: bool = false;
    let mut k: usize = 0;
    let total: usize = kept.columns.len();
    while k < total
        invariant
            k <= total,
            total == kept.columns.sequence().len(),
            ordered(kept.columns.sequence()),
            kept@ == selected(all, 0, domains@),
            forall|b: ColumnBinding| #[trigger]
                kept@.contains_key(b) ==> domains@.contains_key(b),
            shares@.len() == k,
            forall|j: int|
                0 <= j < k ==> (#[trigger] shares@[j]).binding
                    == kept.columns.sequence()[j].0,
            forall|j: int| 0 <= j < k ==> counts(#[trigger] shares@[j], kept@, domains@),
            impossible <==> exists|j: int|
                0 <= j < k && domains@[(#[trigger] shares@[j]).binding].disjoint(
                    kept@[shares@[j].binding],
                ),
        decreases kept.columns.sequence().len() - k,
    {
        let (binding, values) = kept.columns.entry(k);
        assert(kept@.contains_key(binding) && kept@[binding] == values@);
        match domains.get(&binding) {
            Some(known) => {
                let common = known.intersection(values);
                let ghost before = shares@;
                let ghost was_impossible = impossible;
                let disjoint = common.is_empty();
                proof {
                    if disjoint {
                        assert forall|v: DomainValueView| known@.contains(v) implies !values@.contains(
                            v,
                        ) by {
                            assert(!common@.contains(v));
                        }
                    } else {
                        if known@.disjoint(values@) {
                            assert(common@ =~= Set::<DomainValueView>::empty());
                        }
                    }
                    assert(disjoint == domains@[binding].disjoint(kept@[binding]));
                }
                if disjoint {
                    impossible = true;
                }
                shares.push(DomainShare { binding, kept: common.len(), known: known.len() });
                proof {
                    assert(shares@[k as int].binding == binding);
                    if was_impossible {
                        let j = choose|j: int|
                            0 <= j < k && domains@[(#[trigger] before[j]).binding].disjoint(
                                kept@[before[j].binding],
                            );
                        assert(shares@[j] == before[j]);
                    }
                    assert forall|j: int| 0 <= j < k implies shares@[j] == before[j] by {}
                }
            },
            None => {
                assert(false);
            },
        }
        k = k + 1;
    }
    proof {
        assert forall|b: ColumnBinding| #[trigger] kept@.contains_key(b) implies exists|i: int|
            0 <= i < shares@.len() && (#[trigger] shares@[i]).binding == b by {
            assert(kept.columns@.contains_key(b));
            let i = kept.columns.lemma_position(b);
            assert(shares@[i].binding == b);
        }
        assert(lists_shares(shares@, kept@, domains@));
        if impossible {
            let j = choose|j: int|
                0 <= j < k && domains@[(#[trigger] shares@[j]).binding].disjoint(
                    kept@[shares@[j].binding],
                );
            assert(kept@.contains_key(shares@[j].binding));
        }
        if exists|b: ColumnBinding| #[trigger]
            kept@.contains_key(b) && domains@[b].disjoint(kept@[b]) {
            let b = choose|b: ColumnBinding| #[trigger]
                kept@.contains_key(b) && domains@[b].disjoint(kept@[b]);
            let i = choose|i: int| 0 <= i < shares@.len() && (#[trigger] shares@[i]).binding == b;
            assert(shares@[i].binding == b);
        }
    }
    Some(FiniteFilterSelectivity { shares, impossible, residuals })
}

proof fn lemma_selected_domains(
    all: Seq<ExpressionView>,
    from: int,
    domains: Map<ColumnBinding, Set<DomainValueView>>,
)
    requires
        0 <= from <= all.len(),
    ensures
        forall|b: ColumnBinding| #[trigger]
            selected(all, from, domains).contains_key(b) ==> domains.contains_key(b),
    decreases all.len() - from,
{
    if from < all.len() {
        lemma_selected_domains(all, from + 1, domains);
        assert forall|b: ColumnBinding| #[trigger]
            selected(all, from, domains).contains_key(b) implies domains.contains_key(b) by {
            if selected(all, from + 1, domains).contains_key(b) {
            } else {
                assert(constraint(all[from], domains) is Some);
            }
        }
    }
}

/// How the rows of a filter are found.
#[derive(Debug)]
pub enum FilterDecision {
    /// Known domains give the rows.
    Rows(CardinalityEstimate),
    /// The shares and the selectivity of the residual conditions scale the
    /// child's rows.
    Scaled { child: CardinalityEstimate, finite: FiniteFilterSelectivity },
    /// The selectivity of the whole filter scales the child's rows.
    BySelectivity { child: CardinalityEstimate },
}

/// Whether the filter keeps every value of every restricted column.
pub open spec fn keeps_everything(shares: Seq<DomainShare>) -> bool {
    forall|i: int|
        0 <= i < shares.len() ==> (#[trigger] shares[i]).kept == shares[i].known && shares[i].known
            > 0
}

pub open spec fn filter_decision(
    r: FilterDecision,
    predicates: Seq<ExpressionView>,
    child: CardinalityEstimate,
    domains: Map<ColumnBinding, Set<DomainValueView>>,
) -> bool {
    let all = all_conditions(predicates, predicates.len());
    let kept = selected(all, 0, domains);
    let impossible = exists|b: ColumnBinding| #[trigger]
        kept.contains_key(b) && domains[b].disjoint(kept[b]);
    let unrestricted = undecided(all, 0, domains).len() == 0 && exists|shares: Seq<DomainShare>| #[trigger]
        lists_shares(shares, kept, domains) && keeps_everything(shares);
    match r {
        FilterDecision::Rows(rows) => {
            &&& kept.dom() != Set::<ColumnBinding>::empty()
            &&& (impossible && rows == CardinalityEstimate::spec_exact(0)) || (!impossible
                && unrestricted && rows == child)
        },
        FilterDecision::Scaled { child: scaled, finite } => {
            &&& kept.dom() != Set::<ColumnBinding>::empty()
            &&& !impossible
            &&& scaled == child
            &&& describes(finite, all, domains)
            &&& !(keeps_everything(finite.shares@) && finite.residuals@.len() == 0)
        },
        FilterDecision::BySelectivity { child: scaled } => {
            &&& kept.dom() == Set::<ColumnBinding>::empty()
            &&& scaled == child
        },
    }
}

fn keeps_all(shares: &Vec<DomainShare>) -> (r: bool)
    ensures
        r == keeps_everything(shares@),
{
    let mut i: usize = 0;
    while i < shares.len()
        invariant
            i <= shares@.len(),
            forall|k: int|
                0 <= k < i ==> (#[trigger] shares@[k]).kept == shares@[k].known && shares@[k].known
                    > 0,
        decreases shares@.len() - i,
    {
        if shares[i].kept != shares[i].known || shares[i].known == 0 {
            return false;
        }
        i = i + 1;
    }
    true
}

/// Decides how the rows of a filter over `child` rows are estimated.
pub fn estimate_filter_cardinality(
    expressions: &Vec<Expression>,
    child: CardinalityEstimate,
    domains: &FiniteDomains,
) -> (r: FilterDecision)
    ensures
        filter_decision(r, views(expressions@), child, domains@),
{
    match finite_filter_fraction(expressions, domains) {
        Some(finite) => {
            if finite.impossible {
                return FilterDecision::Rows(CardinalityEstimate::exact(0));
            }
            if finite.residuals.len() == 0 && keeps_all(&finite.shares) {
                assert(views(finite.residuals@).len() == 0);
                return FilterDecision::Rows(child);
            }
            FilterDecision::Scaled { child, finite }
        },
        None => FilterDecision::BySelectivity { child },
    }
}

/// Rows of a filter whose shares and residual conditions leave `scaled` rows
/// in expectation. A permitted value set is no frequency histogram, so the
/// upper bound stays that of the child.
pub fn complete_finite_filter(child: CardinalityEstimate, scaled: u64) -> (r: CardinalityEstimate)
    ensures
        r.min == 0,
        r.expected == if scaled <= child.expected {
            scaled
        } else {
            child.expected
        },
        r.max == child.max,
{
    CardinalityEstimate {
        min: 0,
        expected: if scaled <= child.expected {
            scaled
        } else {
            child.expected
        },
        max: child.max,
    }
}

/// A predicate is true of a row exactly where all the conditions that it conjoins
/// are.
pub proof fn conditions_are_the_predicate(
    e: ExpressionView,
    holds: spec_fn(ExpressionView) -> bool,
)
    requires
        respects_connectives(holds),
    ensures
        holds(e) <==> forall|i: int|
            0 <= i < conditions(e).len() ==> holds(#[trigger] conditions(e)[i]),
    decreases e, 0nat,
{
    match e {
        ExpressionView::Conjunction(kind, children) => {
            if kind == ConjunctionType::And {
                all_conditions_are_the_predicates(children, children.len(), holds);
                let all = all_conditions(children, children.len());
                assert(conditions(e) == all);
                assert(holds(e) <==> forall|i: int|
                    0 <= i < children.len() ==> holds(#[trigger] children[i]));
                assert(holds(e) <==> forall|i: int|
                    0 <= i < all.len() ==> holds(#[trigger] all[i]));
            } else {
                assert(conditions(e)[0] == e);
            }
        },
        _ => {
            assert(conditions(e)[0] == e);
        },
    }
}

/// Predicates are all true of a row exactly where all the conditions that they
/// conjoin are.
pub proof fn all_conditions_are_the_predicates(
    predicates: Seq<ExpressionView>,
    n: nat,
    holds: spec_fn(ExpressionView) -> bool,
)
    requires
        respects_connectives(holds),
        n <= predicates.len(),
    ensures
        (forall|i: int| 0 <= i < n ==> holds(#[trigger] predicates[i])) <==> forall|i: int|
            0 <= i < all_conditions(predicates, n).len() ==> holds(
                #[trigger] all_conditions(predicates, n)[i],
            ),
    decreases predicates, n,
{
    if n > 0 {
        all_conditions_are_the_predicates(predicates, (n - 1) as nat, holds);
        conditions_are_the_predicate(predicates[n - 1], holds);
        let before = all_conditions(predicates, (n - 1) as nat);
        let last = conditions(predicates[n - 1]);
        let all = all_conditions(predicates, n);
        assert forall|i: int| 0 <= i < before.len() implies #[trigger] before[i] == all[i] by {}
        assert forall|i: int| 0 <= i < last.len() implies #[trigger] last[i] == all[before.len()
            + i] by {}
        if forall|i: int| 0 <= i < n ==> holds(#[trigger] predicates[i]) {
            assert forall|i: int| 0 <= i < all.len() implies holds(#[trigger] all[i]) by {
                if i < before.len() {
                    assert(holds(before[i]));
                } else {
                    assert(holds(last[i - before.len()]));
                }
            }
        }
        if forall|i: int| 0 <= i < all.len() ==> holds(#[trigger] all[i]) {
            assert forall|i: int| 0 <= i < before.len() implies holds(#[trigger] before[i]) by {
                assert(holds(all[i]));
            }
            assert forall|i: int| 0 <= i < last.len() implies holds(#[trigger] last[i]) by {
                assert(holds(all[before.len() + i]));
            }
            assert forall|i: int| 0 <= i < n implies holds(#[trigger] predicates[i]) by {}
        }
    }
}

/// Every condition is either decided by a known domain or left to estimate, and
/// nothing else is left.
pub proof fn no_condition_is_lost(
    all: Seq<ExpressionView>,
    from: int,
    domains: Map<ColumnBinding, Set<DomainValueView>>,
    e: ExpressionView,
)
    requires
        0 <= from <= all.len(),
    ensures
        undecided(all, from, domains).contains(e) <==> constraint(e, domains) is None && exists|
            i: int,
        |
            from <= i < all.len() && #[trigger] all[i] == e,
    decreases all.len() - from,
{
    if from < all.len() {
        no_condition_is_lost(all, from + 1, domains, e);
        let later = undecided(all, from + 1, domains);
        let now = undecided(all, from, domains);
        if later.contains(e) {
            let k = choose|k: int| 0 <= k < later.len() && later[k] == e;
            assert(now[k] == e);
        }
        if now.contains(e) {
            let k = choose|k: int| 0 <= k < now.len() && now[k] == e;
            if k < later.len() {
                assert(later[k] == e);
            } else {
                assert(all[from] == e);
            }
        }
        if constraint(e, domains) is None && all[from] == e {
            assert(now[later.len() as int] == e);
        }
    } else {
        assert(undecided(all, from, domains) =~= Seq::empty());
    }
}

/// A row of which all conditions are true has a selected value in every column
/// that they restrict. `domain` is what values compare as across types.
pub proof fn passing_rows_have_selected_values(
    all: Seq<ExpressionView>,
    from: int,
    domains: Map<ColumnBinding, Set<DomainValueView>>,
    binding: ColumnBinding,
    holds: spec_fn(ExpressionView) -> bool,
    value: spec_fn(ExpressionView) -> Option<int>,
    row: spec_fn(ColumnBinding) -> Option<int>,
    literal: spec_fn(ValueView) -> Option<int>,
    domain: spec_fn(int) -> DomainValueView,
)
    requires
        0 <= from <= all.len(),
        respects_connectives(holds),
        reads_comparisons(holds, value),
        reads_columns(value, row),
        reads_literals(value, literal),
        denotes_domain(literal, domain),
        forall|i: int| 0 <= i < all.len() ==> holds(#[trigger] all[i]),
        selected(all, from, domains).contains_key(binding),
    ensures
        row(binding) is Some,
        selected(all, from, domains)[binding].contains(domain(row(binding)->0)),
    decreases all.len() - from,
{
    if from < all.len() {
        assert(holds(all[from]));
        let later = selected(all, from + 1, domains);
        if later.contains_key(binding) {
            passing_rows_have_selected_values(
                all,
                from + 1,
                domains,
                binding,
                holds,
                value,
                row,
                literal,
                domain,
            );
        }
        if let Some((restricted, values)) = constraint(all[from], domains) {
            if restricted == binding {
                let k = restricted_column_has_a_listed_value(
                    all[from],
                    holds,
                    value,
                    row,
                    literal,
                );
                let listed = (equality_domain(all[from])->0).1;
                lemma_domain_of(listed, listed.len(), k);
            }
        }
    }
}

/// A filter that known domains rule out passes no row whose columns keep to
/// these domains.
pub proof fn impossible_filter_passes_no_row(
    r: FiniteFilterSelectivity,
    all: Seq<ExpressionView>,
    domains: Map<ColumnBinding, Set<DomainValueView>>,
    holds: spec_fn(ExpressionView) -> bool,
    value: spec_fn(ExpressionView) -> Option<int>,
    row: spec_fn(ColumnBinding) -> Option<int>,
    literal: spec_fn(ValueView) -> Option<int>,
    domain: spec_fn(int) -> DomainValueView,
)
    requires
        respects_connectives(holds),
        reads_comparisons(holds, value),
        reads_columns(value, row),
        reads_literals(value, literal),
        denotes_domain(literal, domain),
        forall|b: ColumnBinding| #[trigger]
            domains.contains_key(b) && row(b) is Some ==> domains[b].contains(domain(row(b)->0)),
        describes(r, all, domains),
        r.impossible,
    ensures
        exists|i: int| 0 <= i < all.len() && !holds(#[trigger] all[i]),
{
    let kept = selected(all, 0, domains);
    let b = choose|b: ColumnBinding| #[trigger]
        kept.contains_key(b) && domains[b].disjoint(kept[b]);
    lemma_selected_domains(all, 0, domains);
    if forall|i: int| 0 <= i < all.len() ==> holds(#[trigger] all[i]) {
        passing_rows_have_selected_values(
            all,
            0,
            domains,
            b,
            holds,
            value,
            row,
            literal,
            domain,
        );
        assert(domains.contains_key(b));
        assert(false);
    }
}

/// A filter by known domains keeps no more values of a column than it can take.
pub proof fn shares_are_parts(
    share: DomainShare,
    kept: Map<ColumnBinding, Set<DomainValueView>>,
    domains: Map<ColumnBinding, Set<DomainValueView>>,
)
    requires
        counts(share, kept, domains),
        domains[share.binding].finite(),
    ensures
        share.kept <= share.known,
        share.kept == share.known <==> domains[share.binding].subset_of(kept[share.binding]),
        share.kept == 0 <==> domains[share.binding].disjoint(kept[share.binding]),
{
    let known = domains[share.binding];
    let both = known.intersect(kept[share.binding]);
    vstd::set_lib::lemma_len_subset(both, known);
    if share.kept == share.known {
        vstd::set_lib::lemma_subset_equality(both, known);
        assert forall|v: DomainValueView| known.contains(v) implies kept[share.binding].contains(
            v,
        ) by {
            assert(both.contains(v));
        }
    }
    if known.subset_of(kept[share.binding]) {
        assert(both =~= known);
    }
    if both.len() == 0 {
        assert forall|v: DomainValueView| known.contains(v) implies !kept[share.binding].contains(
            v,
        ) by {
            if kept[share.binding].contains(v) {
                assert(both.contains(v));
                vstd::set_lib::lemma_set_empty_equivalency_len(both);
            }
        }
    }
    if known.disjoint(kept[share.binding]) {
        assert(both =~= Set::empty());
    }
}

/// A filter that restricts nothing keeps everything; a further column spoils that
/// exactly where it loses a value or has none.
pub proof fn lost_values_are_noticed(shares: Seq<DomainShare>, further: DomainShare)
    ensures
        keeps_everything(Seq::<DomainShare>::empty()),
        keeps_everything(shares.push(further)) <==> keeps_everything(shares) && further.kept
            == further.known && further.known > 0,
{
    let all = shares.push(further);
    if keeps_everything(all) {
        assert(all[shares.len() as int] == further);
        assert forall|i: int| 0 <= i < shares.len() implies (#[trigger] shares[i]).kept
            == shares[i].known && shares[i].known > 0 by {
            assert(all[i] == shares[i]);
        }
    }
    if keeps_everything(shares) && further.kept == further.known && further.known > 0 {
        assert forall|i: int| 0 <= i < all.len() implies (#[trigger] all[i]).kept == all[i].known
            && all[i].known > 0 by {
            if i < shares.len() {
                assert(all[i] == shares[i]);
            }
        }
    }
}

} // verus!
