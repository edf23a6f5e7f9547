//! Logical plans and the facts attached to their nodes.

use vstd::prelude::*;

use crate::domain::{DomainValueView, FiniteDomains};
use crate::operator::LogicalOperator;
use crate::types::ColumnBinding;

verus! {

/// Row-count estimate with its uncertainty envelope.
#[derive(Clone, Copy, Debug, PartialEq, Eq, Structural)]
pub struct CardinalityEstimate {
    pub min: u64,
    pub expected: u64,
    pub max: u64,
}

impl CardinalityEstimate {
    pub open spec fn spec_exact(rows: u64) -> CardinalityEstimate {
        CardinalityEstimate { min: rows, expected: rows, max: rows }
    }

    pub fn exact(rows: u64) -> (r: CardinalityEstimate)
        ensures
            r == Self::spec_exact(rows),
    {
        CardinalityEstimate { min: rows, expected: rows, max: rows }
    }
}

/// Where a node's row estimate comes from.
#[derive(Clone, Copy, Debug, PartialEq, Eq, Structural)]
pub enum CardinalityProvenance {
    Unknown,
    Statistics,
    JoinGraph,
}

#[derive(Clone, Copy, Debug, PartialEq, Eq, Structural)]
pub struct UniqueKeyColumn {
    pub output_index: usize,
    pub binding: ColumnBinding,
}

#[derive(Clone, Copy, Debug, PartialEq, Eq, Structural)]
pub enum UniqueKeyProvenance {
    Declared,
    /// Follows from the shape of the plan.
    Derived,
}

/// Whether two rows that agree on a NULL key component count as equal.
/// Uniqueness under `NullsEqual` is the stronger claim.
#[derive(Clone, Copy, Debug, PartialEq, Eq, Structural)]
pub enum UniqueKeyNullSemantics {
    NullsEqual,
    NullsDistinct,
}

impl UniqueKeyNullSemantics {
    pub open spec fn spec_weaker(self, other: UniqueKeyNullSemantics) -> UniqueKeyNullSemantics {
        if self is NullsDistinct {
            self
        } else {
            other
        }
    }

    /// The weaker of two claims.
    pub fn weaker(self, other: UniqueKeyNullSemantics) -> (r: UniqueKeyNullSemantics)
        ensures
            r == self.spec_weaker(other),
    {
        match self {
            UniqueKeyNullSemantics::NullsDistinct => self,
            UniqueKeyNullSemantics::NullsEqual => other,
        }
    }
}

/// A set of output columns that no two rows agree on.
#[derive(Debug)]
pub struct UniqueKey {
    pub columns: Vec<UniqueKeyColumn>,
    pub provenance: UniqueKeyProvenance,
    pub null_semantics: UniqueKeyNullSemantics,
}

/// Facts known of the rows that a plan node produces.
#[derive(Debug)]
pub struct NodeStats {
    pub estimated_cardinality: Option<CardinalityEstimate>,
    pub cardinality_provenance: CardinalityProvenance,
    pub unique_keys: Vec<UniqueKey>,
    pub finite_domains: FiniteDomains,
}

impl NodeStats {
    /// Whether nothing is known.
    pub open spec fn is_unknown(self) -> bool {
        &&& self.estimated_cardinality is None
        &&& self.cardinality_provenance is Unknown
        &&& self.unique_keys@ == Seq::<UniqueKey>::empty()
        &&& self.finite_domains@ == Map::<ColumnBinding, Set<DomainValueView>>::empty()
    }
}

impl UniqueKey {
    /// Whether two keys claim the same.
    pub open spec fn same_claim(self, other: UniqueKey) -> bool {
        &&& self.columns@ == other.columns@
        &&& self.provenance == other.provenance
        &&& self.null_semantics == other.null_semantics
    }

    pub fn copy(&self) -> (r: UniqueKey)
        ensures
            r.same_claim(*self),
    {
        let mut columns: Vec<UniqueKeyColumn> = Vec::new();
        let mut i: usize = 0;
        while i < self.columns.len()
            invariant
                i <= self.columns@.len(),
                columns@ == self.columns@.take(i as int),
            decreases self.columns@.len() - i,
        {
            columns.push(self.columns[i]);
            assert(columns@ =~= self.columns@.take(i + 1));
            i = i + 1;
        }
        assert(columns@ =~= self.columns@);
        UniqueKey { columns, provenance: self.provenance, null_semantics: self.null_semantics }
    }
}

impl NodeStats {
    /// Whether both say the same.
    pub open spec fn same_facts(self, other: NodeStats) -> bool {
        &&& self.estimated_cardinality == other.estimated_cardinality
        &&& self.cardinality_provenance == other.cardinality_provenance
        &&& self.finite_domains@ == other.finite_domains@
        &&& self.unique_keys@.len() == other.unique_keys@.len()
        &&& forall|i: int|
            #![trigger self.unique_keys@[i]]
            #![trigger other.unique_keys@[i]]
            0 <= i < self.unique_keys@.len() ==> self.unique_keys@[i].same_claim(
                other.unique_keys@[i],
            )
    }

    pub fn copy(&self) -> (r: NodeStats)
        ensures
            r.same_facts(*self),
    {
        let mut unique_keys: Vec<UniqueKey> = Vec::new();
        let mut i: usize = 0;
        while i < self.unique_keys.len()
            invariant
                i <= self.unique_keys@.len(),
                unique_keys@.len() == i,
                forall|k: int|
                    0 <= k < i ==> (#[trigger] unique_keys@[k]).same_claim(self.unique_keys@[k]),
            decreases self.unique_keys@.len() - i,
        {
            unique_keys.push(self.unique_keys[i].copy());
            i = i + 1;
        }
        NodeStats {
            estimated_cardinality: self.estimated_cardinality,
            cardinality_provenance: self.cardinality_provenance,
            unique_keys,
            finite_domains: self.finite_domains.copy(),
        }
    }
}

impl Default for NodeStats {
    fn default() -> (r: NodeStats)
        ensures
            r.is_unknown(),
    {
        NodeStats {
            estimated_cardinality: None,
            cardinality_provenance: CardinalityProvenance::Unknown,
            unique_keys: Vec::new(),
            finite_domains: FiniteDomains::new(),
        }
    }
}

#[derive(Debug)]
pub struct LogicalPlan {
    pub stats: NodeStats,
    pub operator: LogicalOperator,
    pub children: Vec<LogicalPlan>,
}

impl LogicalPlan {
    /// A node of which nothing is known yet.
    pub fn synthetic(operator: LogicalOperator, children: Vec<LogicalPlan>) -> (r: LogicalPlan)
        ensures
            r.stats.is_unknown(),
            r.operator == operator,
            r.children == children,
    {
        LogicalPlan { stats: NodeStats::default(), operator, children }
    }
}

/// The items of a list from the last to the first.
pub fn reversed<T>(items: Vec<T>) -> (r: Vec<T>)
    ensures
        r@ == items@.reverse(),
{
    let ghost all = items@;
    let mut rest = items;
    let mut r: Vec<T> = Vec::new();
    while rest.len() > 0
        invariant
            rest@.len() <= all.len(),
            rest@ == all.take(rest@.len() as int),
            r@ == all.reverse().take(all.len() - rest@.len()),
        decreases rest@.len(),
    {
        let ghost n = rest@.len();
        if let Some(item) = rest.pop() {
            r.push(item);
            assert(rest@ =~= all.take(n - 1));
            assert(r@ =~= all.reverse().take(all.len() - n + 1));
        }
    }
    assert(r@ =~= all.reverse());
    r
}

/// Copies plans, for rewrites that use a plan more than once.
pub trait PlanCopier {
    /// A copy of a plan under relation indices of its own. Nothing is taken
    /// for granted about the copy.
    fn deep_copy_plan(&mut self, plan: &LogicalPlan) -> LogicalPlan;
}

/// Whether `copy` is what a copier of this kind gave for a plan.
pub open spec fn is_copy<C: PlanCopier>(plan: LogicalPlan, copy: LogicalPlan) -> bool {
    exists|copier: &mut C| #[trigger] call_ensures(C::deep_copy_plan, (copier, &plan), copy)
}

/// What a list of references refers to.
pub open spec fn referents(plans: Seq<&LogicalPlan>) -> Seq<LogicalPlan> {
    plans.map_values(|p: &LogicalPlan| *p)
}

/// Operators of a plan.
pub open spec fn plan_size(plan: LogicalPlan) -> nat
    decreases plan, 0nat,
{
    1 + plans_size(plan.children@, plan.children@.len())
}

/// Operators of the first `n` plans.
pub open spec fn plans_size(plans: Seq<LogicalPlan>, n: nat) -> nat
    decreases plans, n,
{
    if n == 0 || n > plans.len() {
        0
    } else {
        plans_size(plans, (n - 1) as nat) + plan_size(plans[n - 1])
    }
}

proof fn lemma_plans_size(plans: Seq<LogicalPlan>, more: Seq<LogicalPlan>, n: nat)
    requires
        n <= more.len(),
    ensures
        plans_size(plans + more, plans.len() + n) == plans_size(plans, plans.len()) + plans_size(
            more,
            n,
        ),
    decreases n,
{
    let all = plans + more;
    if n == 0 {
        lemma_plans_size_prefix(plans, all, plans.len());
    } else {
        lemma_plans_size(plans, more, (n - 1) as nat);
        assert(all[plans.len() + n - 1] == more[n - 1]);
    }
}

pub proof fn lemma_plans_size_prefix(plans: Seq<LogicalPlan>, all: Seq<LogicalPlan>, n: nat)
    requires
        n <= plans.len(),
        n <= all.len(),
        forall|i: int| 0 <= i < n ==> #[trigger] plans[i] == all[i],
    ensures
        plans_size(plans, n) == plans_size(all, n),
    decreases n,
{
    if n > 0 {
        lemma_plans_size_prefix(plans, all, (n - 1) as nat);
        assert(plans[n - 1] == all[n - 1]);
    }
}

/// The order of the plans does not matter.
pub proof fn lemma_reversed_size(plans: Seq<LogicalPlan>)
    ensures
        plans_size(plans.reverse(), plans.len()) == plans_size(plans, plans.len()),
    decreases plans.len(),
{
    if plans.len() > 0 {
        let rest = plans.drop_last();
        let last = seq![plans.last()];
        assert(plans.reverse() =~= last + rest.reverse());
        lemma_plans_size(last, rest.reverse(), rest.len());
        assert(plans_size(last, 0) == 0);
        assert(plans_size(last, 1) == plan_size(last[0]));
        lemma_reversed_size(rest);
        lemma_plans_size_prefix(plans, rest, rest.len());
    }
}

/// Visiting the last of the plans and leaving its inputs to visit.
pub proof fn lemma_visit_size(plans: Seq<LogicalPlan>)
    requires
        plans.len() > 0,
    ensures
        ({
            let left = plans.drop_last() + plans.last().children@;
            plans_size(left, left.len()) + 1 == plans_size(plans, plans.len())
        }),
{
    let rest = plans.drop_last();
    let children = plans.last().children@;
    reveal_with_fuel(plans_size, 2);
    lemma_plans_size_prefix(plans, rest, rest.len());
    lemma_plans_size(rest, children, children.len());
}

/// Puts the inputs of a plan on a stack.
pub fn push_children<'a>(plan: &'a LogicalPlan, stack: &mut Vec<&'a LogicalPlan>)
    ensures
        referents(final(stack)@) == referents(old(stack)@) + plan.children@,
{
    let mut i: usize = 0;
    assert(referents(stack@) =~= referents(old(stack)@) + plan.children@.take(0));
    while i < plan.children.len()
        invariant
            i <= plan.children@.len(),
            referents(stack@) == referents(old(stack)@) + plan.children@.take(i as int),
        decreases plan.children@.len() - i,
    {
        let ghost before = stack@;
        stack.push(&plan.children[i]);
        assert(referents(stack@) =~= referents(before).push(plan.children@[i as int]));
        assert(referents(stack@) =~= referents(old(stack)@) + plan.children@.take(i + 1));
        i = i + 1;
    }
    assert(plan.children@.take(i as int) =~= plan.children@);
}

/// Whether a plan is `whole` itself or occurs in one of its inputs.
pub open spec fn is_part(part: LogicalPlan, whole: LogicalPlan) -> bool
    decreases whole,
{
    part == whole || exists|i: int|
        #![trigger whole.children@[i]]
        0 <= i < whole.children@.len() && is_part(part, whole.children@[i])
}

/// How many operators of a plan have a property, whatever stands above or below
/// them.
pub open spec fn count_parts(plan: LogicalPlan, property: spec_fn(LogicalPlan) -> bool) -> nat
    decreases plan, 0nat,
{
    count_among(plan.children@, property, plan.children@.len()) + if property(plan) {
        1nat
    } else {
        0nat
    }
}

/// How many operators of the first `n` plans have a property.
pub open spec fn count_among(
    plans: Seq<LogicalPlan>,
    property: spec_fn(LogicalPlan) -> bool,
    n: nat,
) -> nat
    decreases plans, n,
{
    if n == 0 || n > plans.len() {
        0
    } else {
        count_among(plans, property, (n - 1) as nat) + count_parts(plans[n - 1], property)
    }
}

/// The property of being a read of a definition.
pub open spec fn read_of(cte_index: usize) -> spec_fn(LogicalPlan) -> bool {
    |plan: LogicalPlan|
        plan.operator matches LogicalOperator::CTERef(reference) && reference.cte_index == cte_index
}

/// Whether reads of definitions have no input and filters have one, everywhere
/// in a plan.
pub open spec fn has_sound_arity(plan: LogicalPlan) -> bool
    decreases plan,
{
    &&& plan.operator is CTERef ==> plan.children@.len() == 0
    &&& plan.operator is Filter ==> plan.children@.len() == 1
    &&& forall|i: int|
        #![trigger plan.children@[i]]
        0 <= i < plan.children@.len() ==> has_sound_arity(plan.children@[i])
}

/// Inputs are parts.
pub proof fn lemma_input_is_part(plan: LogicalPlan, i: int)
    requires
        0 <= i < plan.children@.len(),
    ensures
        is_part(plan.children@[i], plan),
{
    assert(is_part(plan.children@[i], plan.children@[i]));
}

/// Parts of a part are parts of the whole.
pub proof fn lemma_part_of_part(inner: LogicalPlan, part: LogicalPlan, whole: LogicalPlan)
    requires
        is_part(inner, part),
        is_part(part, whole),
    ensures
        is_part(inner, whole),
    decreases whole,
{
    if part != whole {
        let i = choose|i: int|
            #![trigger whole.children@[i]]
            0 <= i < whole.children@.len() && is_part(part, whole.children@[i]);
        lemma_part_of_part(inner, part, whole.children@[i]);
    }
}

/// Some operator of a plan has a property exactly where they are counted.
pub proof fn lemma_counted_part(plan: LogicalPlan, property: spec_fn(LogicalPlan) -> bool)
    ensures
        count_parts(plan, property) > 0 <==> exists|part: LogicalPlan| #[trigger]
            is_part(part, plan) && property(part),
    decreases plan, 0nat,
{
    lemma_counted_among(plan.children@, property, plan.children@.len());
    if property(plan) {
        assert(is_part(plan, plan));
    }
    if count_among(plan.children@, property, plan.children@.len()) > 0 {
        let i = choose|i: int|
            #![trigger plan.children@[i]]
            0 <= i < plan.children@.len() && count_parts(plan.children@[i], property) > 0;
        lemma_counted_part(plan.children@[i], property);
        let part = choose|part: LogicalPlan| #[trigger]
            is_part(part, plan.children@[i]) && property(part);
        assert(is_part(part, plan));
    }
    if exists|part: LogicalPlan| #[trigger] is_part(part, plan) && property(part) {
        let part = choose|part: LogicalPlan| #[trigger] is_part(part, plan) && property(part);
        if part != plan {
            let i = choose|i: int|
                #![trigger plan.children@[i]]
                0 <= i < plan.children@.len() && is_part(part, plan.children@[i]);
            lemma_counted_part(plan.children@[i], property);
        }
    }
}

proof fn lemma_counted_among(
    plans: Seq<LogicalPlan>,
    property: spec_fn(LogicalPlan) -> bool,
    n: nat,
)
    requires
        n <= plans.len(),
    ensures
        count_among(plans, property, n) > 0 <==> exists|i: int|
            #![trigger plans[i]]
            0 <= i < n && count_parts(plans[i], property) > 0,
    decreases plans, n,
{
    if n > 0 {
        lemma_counted_among(plans, property, (n - 1) as nat);
        assert(plans[n - 1] == plans[n - 1]);
    }
}

/// Of two claims of uniqueness, rows with NULL keys count as equal only where both
/// say so.
pub proof fn weaker_claim_needs_both(a: UniqueKeyNullSemantics, b: UniqueKeyNullSemantics)
    ensures
        a.spec_weaker(b) is NullsEqual <==> a is NullsEqual && b is NullsEqual,
        a.spec_weaker(b) == b.spec_weaker(a),
        a.spec_weaker(a) == a,
{
}

} // verus!
