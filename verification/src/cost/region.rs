//! Join-order cost model.
//!
//! Rows are doubles held by their bits. What has to be computed with them, and
//! which widths go into it, is given as work; the caller evaluates it.

use std::sync::Arc;
use vstd::prelude::*;

use crate::cost::join_conditions::{add_widths, width_sum, JoinEdgeOrientation};
use crate::cost::number::{Number, INFINITY};
use crate::cost::relation_set::JoinRelationSet;
use crate::expression::share;
use crate::plan::CardinalityProvenance;

verus! {

#[derive(Clone, Copy, Debug, PartialEq, Eq, Structural)]
pub enum JoinBuildSide {
    Left,
    Right,
}

/// Bytes of an address or a position.
pub open spec fn word_bytes() -> int {
    usize::BITS as int / 8
}

fn word() -> (r: usize)
    ensures
        r == word_bytes(),
        r == 4 || r == 8,
{
    (usize::BITS / 8) as usize
}

/// Every accepted hash match is staged twice, as a probe ordinal of four bytes
/// and a build pointer.
pub open spec fn match_row_bytes() -> int {
    2 * (4 + word_bytes())
}

pub fn hash_match_row_bytes() -> (r: usize)
    ensures
        r == match_row_bytes(),
{
    2 * (4 + word())
}

/// Access to a hash bucket transfers one cache line.
pub const HASH_BUCKET_CACHE_LINE_BYTES: usize = 64;

/// A cross product emits one ordinal for each pair.
pub const CROSS_PRODUCT_SELECTION_BYTES: usize = 4;

/// A nested loop advances two cursors for each candidate pair.
pub open spec fn cursor_bytes() -> int {
    2 * word_bytes()
}

pub fn nested_loop_cursor_bytes() -> (r: usize)
    ensures
        r == cursor_bytes(),
{
    2 * word()
}

/// What a probe reads beside its condition values: hash, cache line, pointer
/// and ordinal.
pub open spec fn probe_runtime_bytes() -> int {
    8 + HASH_BUCKET_CACHE_LINE_BYTES + word_bytes() + 4
}

/// Bytes that the probe of one row reads.
pub fn estimate_hash_probe_row_width(condition_payload_width: usize) -> (r: usize)
    ensures
        r == width_sum(condition_payload_width, probe_runtime_bytes() as usize),
{
    add_widths(condition_payload_width, 8 + HASH_BUCKET_CACHE_LINE_BYTES + word() + 4)
}

/// A join tree over a set of relations.
#[derive(Debug)]
pub struct DPJoinNode {
    pub set: Arc<JoinRelationSet>,
    pub is_leaf: bool,
    pub left_set: Arc<JoinRelationSet>,
    pub right_set: Arc<JoinRelationSet>,
    pub build_side: JoinBuildSide,
    pub cost: Number,
    pub cardinality: Number,
    /// What the rows are known from.
    pub cardinality_provenance: CardinalityProvenance,
    pub risk_cardinality: Number,
    pub materialization_cardinality: Number,
    /// Whether the materialization rows are those that a reduction preserves.
    pub materialization_is_reduction_bound: bool,
    pub output_payload_width: usize,
    pub peak_build_bytes: u64,
}

/// What the rows of a join are known from: nothing, where those of an input
/// are not known from anything.
pub open spec fn joined_provenance(
    left: CardinalityProvenance,
    right: CardinalityProvenance,
) -> CardinalityProvenance {
    if left is Unknown || right is Unknown {
        CardinalityProvenance::Unknown
    } else {
        CardinalityProvenance::JoinGraph
    }
}

pub fn join_provenances(left: CardinalityProvenance, right: CardinalityProvenance) -> (r:
    CardinalityProvenance)
    ensures
        r == joined_provenance(left, right),
{
    match (left, right) {
        (CardinalityProvenance::Unknown, _) => CardinalityProvenance::Unknown,
        (_, CardinalityProvenance::Unknown) => CardinalityProvenance::Unknown,
        _ => CardinalityProvenance::JoinGraph,
    }
}

/// However joins are nested, one input of unknown provenance leaves the result
/// unknown.
pub proof fn unknown_rows_stay_unknown(
    a: CardinalityProvenance,
    b: CardinalityProvenance,
    c: CardinalityProvenance,
)
    ensures
        joined_provenance(joined_provenance(a, b), c) is Unknown <==> a is Unknown || b is Unknown
            || c is Unknown,
        joined_provenance(a, joined_provenance(b, c)) == joined_provenance(
            joined_provenance(a, b),
            c,
        ),
{
}

impl DPJoinNode {
    /// A single relation. It costs nothing by itself.
    pub fn leaf(
        set: Arc<JoinRelationSet>,
        output_payload_width: usize,
        cardinality: Number,
        risk_cardinality: Number,
        materialization_cardinality: Number,
    ) -> (r: DPJoinNode)
        ensures
            r == (DPJoinNode {
                set,
                is_leaf: true,
                left_set: set,
                right_set: set,
                build_side: JoinBuildSide::Right,
                cost: Number { bits: 0 },
                cardinality,
                cardinality_provenance: CardinalityProvenance::Statistics,
                risk_cardinality,
                materialization_cardinality,
                materialization_is_reduction_bound: false,
                output_payload_width,
                peak_build_bytes: 0,
            }),
    {
        let left_set = share(&set);
        let right_set = share(&set);
        DPJoinNode {
            set,
            is_leaf: true,
            left_set,
            right_set,
            build_side: JoinBuildSide::Right,
            cost: Number::zero(),
            cardinality,
            cardinality_provenance: CardinalityProvenance::Statistics,
            risk_cardinality,
            materialization_cardinality,
            materialization_is_reduction_bound: false,
            output_payload_width,
            peak_build_bytes: 0,
        }
    }

    /// A join of two trees with its cost.
    pub fn intermediate(left: &DPJoinNode, right: &DPJoinNode, join: CostedJoin) -> (r: DPJoinNode)
        ensures
            r == (DPJoinNode {
                set: join.combination,
                is_leaf: false,
                left_set: left.set,
                right_set: right.set,
                build_side: join.build_side,
                cost: join.cost,
                cardinality: join.rows.cardinality,
                cardinality_provenance: joined_provenance(
                    left.cardinality_provenance,
                    right.cardinality_provenance,
                ),
                risk_cardinality: join.rows.risk_cardinality,
                materialization_cardinality: join.rows.materialization_cardinality,
                materialization_is_reduction_bound: join.rows.materialization_is_reduction_bound,
                output_payload_width: join.rows.output_payload_width,
                peak_build_bytes: join.peak_build_bytes,
            }),
    {
        DPJoinNode {
            set: join.combination,
            is_leaf: false,
            left_set: share(&left.set),
            right_set: share(&right.set),
            build_side: join.build_side,
            cost: join.cost,
            cardinality: join.rows.cardinality,
            cardinality_provenance: join_provenances(
                left.cardinality_provenance,
                right.cardinality_provenance,
            ),
            risk_cardinality: join.rows.risk_cardinality,
            materialization_cardinality: join.rows.materialization_cardinality,
            materialization_is_reduction_bound: join.rows.materialization_is_reduction_bound,
            output_payload_width: join.rows.output_payload_width,
            peak_build_bytes: join.peak_build_bytes,
        }
    }
}

/// What is known of one relation.
#[derive(Clone, Copy, Debug, PartialEq, Eq, Structural)]
pub struct RelationStats {
    pub cardinality: usize,
    pub risk_cardinality: usize,
    pub materialization_cardinality: usize,
    pub estimated_payload_width: usize,
    pub contains_control_region: bool,
    pub cardinality_provenance: CardinalityProvenance,
    /// Whether distinct counts are known for the rows to materialize.
    pub has_materialization_domains: bool,
}

/// Rows of one relation under each estimator.
#[derive(Clone, Copy, Debug, PartialEq, Eq, Structural)]
pub struct RelationRows {
    pub expected: usize,
    pub risk: usize,
    pub materialization: usize,
    /// Whether materialization uses distinct counts of its own.
    pub own_materialization_domains: bool,
}

pub open spec fn larger(a: usize, b: usize) -> usize {
    if a >= b {
        a
    } else {
        b
    }
}

fn larger_of(a: usize, b: usize) -> (r: usize)
    ensures
        r == larger(a, b),
{
    if a >= b {
        a
    } else {
        b
    }
}

impl RelationStats {
    /// Rows to expect when the relation has to be materialized.
    pub open spec fn materialized(self) -> usize {
        larger(larger(self.materialization_cardinality, self.risk_cardinality), self.cardinality)
    }

    fn materialization_rows(&self) -> (r: usize)
        ensures
            r == self.materialized(),
    {
        larger_of(
            larger_of(self.materialization_cardinality, self.risk_cardinality),
            self.cardinality,
        )
    }

    pub open spec fn rows(self) -> RelationRows {
        RelationRows {
            expected: self.cardinality,
            risk: larger(self.risk_cardinality, self.cardinality),
            materialization: self.materialized(),
            own_materialization_domains: self.has_materialization_domains,
        }
    }
}

/// Facts about all relations of a join graph.
#[derive(Debug)]
pub struct RegionCostModel {
    /// Predicates that filter once all their relations are joined, with the
    /// fraction of rows that they keep.
    pub residual_selectivities: Vec<(JoinRelationSet, Number)>,
    pub relations: Vec<RelationStats>,
}

/// The sum of the widths of the first `n` listed relations. Unknown ones add
/// nothing.
pub open spec fn total_width(listing: Seq<usize>, stats: Seq<RelationStats>, n: nat) -> int
    decreases n,
{
    if n == 0 {
        0
    } else {
        total_width(listing, stats, (n - 1) as nat) + if listing[n - 1] < stats.len() {
            stats[listing[n - 1] as int].estimated_payload_width as int
        } else {
            0
        }
    }
}

proof fn lemma_total_width_grows(listing: Seq<usize>, stats: Seq<RelationStats>, n: nat, m: nat)
    requires
        n <= m,
    ensures
        0 <= total_width(listing, stats, n) <= total_width(listing, stats, m),
    decreases m,
{
    if n < m {
        lemma_total_width_grows(listing, stats, n, (m - 1) as nat);
    } else if n > 0 {
        lemma_total_width_grows(listing, stats, (n - 1) as nat, (n - 1) as nat);
    }
}

/// Positions among the first `n` residual predicates whose relations are all
/// in one of the sets.
pub open spec fn supported(
    residuals: Seq<(JoinRelationSet, Number)>,
    sets: Seq<Set<usize>>,
    n: nat,
) -> Seq<usize>
    decreases n,
{
    if n == 0 {
        Seq::empty()
    } else {
        let before = supported(residuals, sets, (n - 1) as nat);
        if exists|k: int|
            0 <= k < sets.len() && residuals[n - 1].0@.subset_of(#[trigger] sets[k]) {
            before.push((n - 1) as usize)
        } else {
            before
        }
    }
}

impl RegionCostModel {
    /// The statistics of the relations, in order.
    pub open spec fn stats(self) -> Seq<RelationStats> {
        self.relations@
    }

    /// Nothing is known yet.
    pub fn new() -> (r: RegionCostModel)
        ensures
            r.residual_selectivities@ == Seq::<(JoinRelationSet, Number)>::empty(),
            r.stats() == Seq::<RelationStats>::empty(),
    {
        RegionCostModel { residual_selectivities: Vec::new(), relations: Vec::new() }
    }

    /// Forgets everything that belongs to one query.
    pub fn reset(&mut self)
        ensures
            final(self).residual_selectivities@ == Seq::<(JoinRelationSet, Number)>::empty(),
            final(self).stats() == Seq::<RelationStats>::empty(),
    {
        *self = RegionCostModel::new();
    }

    /// Takes the statistics of all relations in order, and gives the rows of
    /// each under the three estimators.
    pub fn init_cost_model(&mut self, stats: &Vec<RelationStats>) -> (r: Vec<RelationRows>)
        ensures
            final(self).residual_selectivities == old(self).residual_selectivities,
            final(self).stats() == stats@,
            r@ == stats@.map_values(|s: RelationStats| s.rows()),
    {
        let mut relations: Vec<RelationStats> = Vec::new();
        let mut rows: Vec<RelationRows> = Vec::new();
        let mut i: usize = 0;
        while i < stats.len()
            invariant
                i <= stats@.len(),
                relations@ == stats@.take(i as int),
                rows@ == stats@.take(i as int).map_values(|s: RelationStats| s.rows()),
            decreases stats@.len() - i,
        {
            let s = stats[i];
            relations.push(s);
            rows.push(
                RelationRows {
                    expected: s.cardinality,
                    risk: larger_of(s.risk_cardinality, s.cardinality),
                    materialization: s.materialization_rows(),
                    own_materialization_domains: s.has_materialization_domains,
                },
            );
            proof {
                let next = stats@.take(i + 1);
                assert(next =~= stats@.take(i as int).push(s));
                assert(relations@ =~= next);
                assert(rows@ =~= next.map_values(|s: RelationStats| s.rows()));
            }
            i = i + 1;
        }
        assert(stats@.take(i as int) =~= stats@);
        self.relations = relations;
        rows
    }

    pub fn relation_provenance(&self, relation: usize) -> (r: CardinalityProvenance)
        requires
            relation < self.stats().len(),
        ensures
            r == self.stats()[relation as int].cardinality_provenance,
    {
        self.relations[relation].cardinality_provenance
    }

    /// Bytes of one row over all relations of a set. Unknown relations add
    /// nothing.
    pub fn payload_width(&self, set: &JoinRelationSet) -> (r: usize)
        requires
            total_width(set.listing(), self.stats(), set.listing().len()) <= usize::MAX,
        ensures
            r == total_width(set.listing(), self.stats(), set.listing().len()),
    {
        let listing = set.relations();
        let mut total: usize = 0;
        let mut i: usize = 0;
        while i < listing.len()
            invariant
                i <= listing@.len(),
                total_width(listing@, self.stats(), listing@.len()) <= usize::MAX,
                total == total_width(listing@, self.stats(), i as nat),
            decreases listing@.len() - i,
        {
            proof {
                lemma_total_width_grows(
                    listing@,
                    self.stats(),
                    (i + 1) as nat,
                    listing@.len(),
                );
            }
            if listing[i] < self.relations.len() {
                total = total + self.relations[listing[i]].estimated_payload_width;
            }
            i = i + 1;
        }
        total
    }

    /// Whether a relation of the set holds a control region.
    pub open spec fn controls(self, set: Set<usize>) -> bool {
        exists|relation: usize| #[trigger]
            set.contains(relation) && relation < self.stats().len()
                && self.stats()[relation as int].contains_control_region
    }

    pub fn contains_control_region(&self, set: &JoinRelationSet) -> (r: bool)
        ensures
            r == self.controls(set@),
    {
        let listing = set.relations();
        let mut i: usize = 0;
        while i < listing.len()
            invariant
                i <= listing@.len(),
                listing@.to_set() == set@,
                forall|k: int|
                    0 <= k < i ==> !((#[trigger] listing@[k]) < self.stats().len()
                        && self.stats()[listing@[k] as int].contains_control_region),
            decreases listing@.len() - i,
        {
            if listing[i] < self.relations.len()
                && self.relations[listing[i]].contains_control_region {
                assert(listing@.contains(listing@[i as int]));
                assert(set@.contains(listing@[i as int]));
                return true;
            }
            i = i + 1;
        }
        assert forall|relation: usize| #[trigger] set@.contains(relation) implies !(relation
            < self.stats().len() && self.stats()[relation as int].contains_control_region) by {
            assert(listing@.contains(relation));
        }
        false
    }

    /// The most rows that a single relation of the set has when it is
    /// materialized. Without a proof that the others are key-preserving, a join
    /// cannot be taken to need less.
    pub fn atomic_floor(&self, set: &JoinRelationSet) -> (r: usize)
        ensures
            forall|relation: usize| #[trigger]
                set@.contains(relation) && relation < self.stats().len()
                    ==> self.stats()[relation as int].materialized() <= r,
            r == 0 || exists|relation: usize| #[trigger]
                set@.contains(relation) && relation < self.stats().len()
                    && self.stats()[relation as int].materialized() == r,
    {
        let listing = set.relations();
        let mut floor: usize = 0;
        let mut i: usize = 0;
        while i < listing.len()
            invariant
                i <= listing@.len(),
                listing@.to_set() == set@,
                forall|k: int|
                    0 <= k < i && (#[trigger] listing@[k]) < self.stats().len()
                        ==> self.stats()[listing@[k] as int].materialized() <= floor,
                floor == 0 || exists|relation: usize| #[trigger]
                    set@.contains(relation) && relation < self.stats().len()
                        && self.stats()[relation as int].materialized() == floor,
            decreases listing@.len() - i,
        {
            if listing[i] < self.relations.len() {
                let rows: usize = self.relations[listing[i]].materialization_rows();
                if rows > floor {
                    floor = rows;
                    assert(listing@.contains(listing@[i as int]));
                    assert(set@.contains(listing@[i as int]));
                }
            }
            i = i + 1;
        }
        assert forall|relation: usize| #[trigger]
            set@.contains(relation) && relation < self.stats().len() implies self.stats()[relation as int].materialized()
            <= floor by {
            assert(listing@.contains(relation));
        }
        floor
    }

    /// Residual predicates that a set activates: each counts once, whatever
    /// tree joins the set.
    pub fn activated(&self, set: &JoinRelationSet) -> (r: Vec<usize>)
        ensures
            r@ == supported(
                self.residual_selectivities@,
                seq![set@],
                self.residual_selectivities@.len(),
            ),
    {
        let mut r: Vec<usize> = Vec::new();
        let ghost sets = seq![set@];
        let mut i: usize = 0;
        while i < self.residual_selectivities.len()
            invariant
                i <= self.residual_selectivities@.len(),
                sets == seq![set@],
                r@ == supported(self.residual_selectivities@, sets, i as nat),
            decreases self.residual_selectivities@.len() - i,
        {
            let held = set.contains_all(&self.residual_selectivities[i].0);
            if held {
                assert(self.residual_selectivities@[i as int].0@.subset_of(sets[0]));
                r.push(i);
            }
            i = i + 1;
        }
        r
    }

    /// Residual predicates that one of two inputs has activated already.
    pub fn inherited(&self, left: &JoinRelationSet, right: &JoinRelationSet) -> (r: Vec<usize>)
        ensures
            r@ == supported(
                self.residual_selectivities@,
                seq![left@, right@],
                self.residual_selectivities@.len(),
            ),
    {
        let mut r: Vec<usize> = Vec::new();
        let ghost sets = seq![left@, right@];
        let mut i: usize = 0;
        while i < self.residual_selectivities.len()
            invariant
                i <= self.residual_selectivities@.len(),
                sets == seq![left@, right@],
                r@ == supported(self.residual_selectivities@, sets, i as nat),
            decreases self.residual_selectivities@.len() - i,
        {
            let required = &self.residual_selectivities[i].0;
            let in_left = left.contains_all(required);
            let in_right = right.contains_all(required);
            if in_left || in_right {
                assert(required@.subset_of(sets[0]) || required@.subset_of(sets[1]));
                r.push(i);
            }
            i = i + 1;
        }
        r
    }
}

proof fn lemma_supported_member(
    residuals: Seq<(JoinRelationSet, Number)>,
    sets: Seq<Set<usize>>,
    n: nat,
    p: usize,
)
    requires
        n <= residuals.len(),
        n <= usize::MAX,
    ensures
        supported(residuals, sets, n).contains(p) <==> p < n && exists|k: int|
            0 <= k < sets.len() && residuals[p as int].0@.subset_of(#[trigger] sets[k]),
    decreases n,
{
    if n > 0 {
        lemma_supported_member(residuals, sets, (n - 1) as nat, p);
        let before = supported(residuals, sets, (n - 1) as nat);
        let pushed = before.push((n - 1) as usize);
        assert(pushed.last() == (n - 1) as usize);
        if before.contains(p) {
            let i = choose|i: int| 0 <= i < before.len() && before[i] == p;
            assert(pushed[i] == p);
        }
        if pushed.contains(p) {
            let i = choose|i: int| 0 <= i < pushed.len() && pushed[i] == p;
            if i < before.len() {
                assert(before[i] == p);
            }
        }
    }
}

/// What an input has activated, the join of both inputs activates too: a
/// predicate is never lost on the way up.
pub proof fn activation_is_monotone(
    residuals: Seq<(JoinRelationSet, Number)>,
    left: Set<usize>,
    right: Set<usize>,
    p: usize,
)
    requires
        residuals.len() <= usize::MAX,
        supported(residuals, seq![left, right], residuals.len()).contains(p),
    ensures
        supported(residuals, seq![left.union(right)], residuals.len()).contains(p),
{
    let sets = seq![left, right];
    let both = seq![left.union(right)];
    lemma_supported_member(residuals, sets, residuals.len(), p);
    lemma_supported_member(residuals, both, residuals.len(), p);
    let k = choose|k: int|
        0 <= k < sets.len() && residuals[p as int].0@.subset_of(#[trigger] sets[k]);
    assert(sets[k].subset_of(left.union(right)));
    assert(residuals[p as int].0@.subset_of(both[0]));
}

/// Estimates for a join that come from outside.
#[derive(Clone, Copy, Debug, PartialEq, Eq, Structural)]
pub struct JoinEstimates {
    pub expected: Number,
    pub risk: Number,
    /// Rows to materialize of the join, and of each input's relations.
    pub materialization: Number,
    pub left_materialization: Number,
    pub right_materialization: Number,
    /// Rows before the join activates residual predicates. There are any only
    /// where work is priced for the region as a whole.
    pub before_activation: Option<Number>,
}

/// Rows of a join.
#[derive(Clone, Copy, Debug, PartialEq, Eq, Structural)]
pub struct JoinRows {
    pub cardinality: Number,
    pub risk_cardinality: Number,
    pub materialization_cardinality: Number,
    pub materialization_is_reduction_bound: bool,
    pub output_payload_width: usize,
    pub left_materialization: Number,
    pub right_materialization: Number,
    /// Rows that the work is charged for.
    pub priced: Number,
}

/// A join with its price.
#[derive(Debug)]
pub struct CostedJoin {
    pub combination: Arc<JoinRelationSet>,
    pub rows: JoinRows,
    pub cost: Number,
    pub build_side: JoinBuildSide,
    pub peak_build_bytes: u64,
}

/// The input whose rows a reduction preserves.
pub open spec fn preserved(
    left: DPJoinNode,
    right: DPJoinNode,
    reduction: Option<JoinEdgeOrientation>,
) -> Option<DPJoinNode> {
    match reduction {
        Some(JoinEdgeOrientation::Forward) => Some(left),
        Some(JoinEdgeOrientation::Inverted) => Some(right),
        None => None,
    }
}

/// Rows of an input if it is materialized. The bound of a reduction belongs to
/// the input's own tree; otherwise the estimate for its relations holds.
pub open spec fn input_materialization(child: DPJoinNode, estimate: Number) -> Number {
    if child.materialization_is_reduction_bound {
        child.materialization_cardinality.spec_most(child.risk_cardinality)
    } else {
        estimate.spec_most(child.risk_cardinality)
    }
}

/// The rows of a join. A reduction puts out no more rows than it preserves.
pub open spec fn joined_rows(
    left: DPJoinNode,
    right: DPJoinNode,
    reduction: Option<JoinEdgeOrientation>,
    estimates: JoinEstimates,
) -> JoinRows {
    let cardinality = match preserved(left, right, reduction) {
        Some(node) => estimates.expected.spec_least(node.cardinality),
        None => estimates.expected,
    };
    let estimated_risk = estimates.risk.spec_most(cardinality);
    let risk_cardinality = match preserved(left, right, reduction) {
        Some(node) => estimated_risk.spec_least(node.risk_cardinality.spec_most(cardinality)),
        None => estimated_risk,
    };
    let left_materialization = input_materialization(left, estimates.left_materialization);
    let right_materialization = input_materialization(right, estimates.right_materialization);
    JoinRows {
        cardinality,
        risk_cardinality,
        materialization_cardinality: (match reduction {
            Some(JoinEdgeOrientation::Forward) => left_materialization,
            Some(JoinEdgeOrientation::Inverted) => right_materialization,
            None => estimates.materialization,
        }).spec_most(risk_cardinality),
        materialization_is_reduction_bound: reduction is Some,
        output_payload_width: match preserved(left, right, reduction) {
            Some(node) => node.output_payload_width,
            None => width_sum(left.output_payload_width, right.output_payload_width),
        },
        left_materialization,
        right_materialization,
        priced: match estimates.before_activation {
            Some(rows) => match preserved(left, right, reduction) {
                Some(node) => rows.spec_least(node.cardinality),
                None => rows.spec_least(Number { bits: INFINITY }),
            },
            None => risk_cardinality,
        },
    }
}

fn materialized_input(child: &DPJoinNode, estimate: Number) -> (r: Number)
    ensures
        r == input_materialization(*child, estimate),
{
    if child.materialization_is_reduction_bound {
        child.materialization_cardinality.most(child.risk_cardinality)
    } else {
        estimate.most(child.risk_cardinality)
    }
}

/// The rows of a join of two trees.
pub fn estimate_join(
    left: &DPJoinNode,
    right: &DPJoinNode,
    reduction: Option<JoinEdgeOrientation>,
    estimates: JoinEstimates,
) -> (r: JoinRows)
    ensures
        r == joined_rows(*left, *right, reduction, estimates),
{
    let kept: Option<&DPJoinNode> = match reduction {
        Some(JoinEdgeOrientation::Forward) => Some(left),
        Some(JoinEdgeOrientation::Inverted) => Some(right),
        None => None,
    };
    let cardinality = match kept {
        Some(node) => estimates.expected.least(node.cardinality),
        None => estimates.expected,
    };
    let estimated_risk = estimates.risk.most(cardinality);
    let risk_cardinality = match kept {
        Some(node) => estimated_risk.least(node.risk_cardinality.most(cardinality)),
        None => estimated_risk,
    };
    let left_materialization = materialized_input(left, estimates.left_materialization);
    let right_materialization = materialized_input(right, estimates.right_materialization);
    let materialization = match reduction {
        Some(JoinEdgeOrientation::Forward) => left_materialization,
        Some(JoinEdgeOrientation::Inverted) => right_materialization,
        None => estimates.materialization,
    };
    let priced = match estimates.before_activation {
        Some(rows) => match kept {
            Some(node) => rows.least(node.cardinality),
            None => rows.least(Number { bits: INFINITY }),
        },
        None => risk_cardinality,
    };
    JoinRows {
        cardinality,
        risk_cardinality,
        materialization_cardinality: materialization.most(risk_cardinality),
        materialization_is_reduction_bound: kept.is_some(),
        output_payload_width: output_payload_width(left, right, reduction),
        left_materialization,
        right_materialization,
        priced,
    }
}

/// Bytes of a row that a join puts out: those of both inputs, or of the one
/// that a reduction preserves.
pub fn output_payload_width(
    left: &DPJoinNode,
    right: &DPJoinNode,
    reduction: Option<JoinEdgeOrientation>,
) -> (r: usize)
    ensures
        r == match preserved(*left, *right, reduction) {
            Some(node) => node.output_payload_width,
            None => width_sum(left.output_payload_width, right.output_payload_width),
        },
{
    match reduction {
        Some(JoinEdgeOrientation::Forward) => left.output_payload_width,
        Some(JoinEdgeOrientation::Inverted) => right.output_payload_width,
        None => add_widths(left.output_payload_width, right.output_payload_width),
    }
}

/// The rows of a join stay in order: what is expected is no more than the risk,
/// and the risk no more than what may have to be materialized.
pub proof fn rows_are_ordered(
    left: DPJoinNode,
    right: DPJoinNode,
    reduction: Option<JoinEdgeOrientation>,
    estimates: JoinEstimates,
)
    requires
        estimates.expected.is_number(),
    ensures
        ({
            let rows = joined_rows(left, right, reduction, estimates);
            &&& rows.cardinality.position() <= rows.risk_cardinality.position()
            &&& rows.risk_cardinality.position() <= rows.materialization_cardinality.position()
        }),
{
}

/// A reduction never puts out more rows than it preserves.
pub proof fn reduction_is_bounded_by_what_it_preserves(
    left: DPJoinNode,
    right: DPJoinNode,
    reduction: Option<JoinEdgeOrientation>,
    estimates: JoinEstimates,
)
    requires
        preserved(left, right, reduction) matches Some(node) && node.cardinality.is_number(),
    ensures
        joined_rows(left, right, reduction, estimates).cardinality.position() <= (preserved(
            left,
            right,
            reduction,
        )->0).cardinality.position(),
{
}

/// The side that a reduction filters by.
pub fn reduction_filtering_side(reduction: Option<JoinEdgeOrientation>) -> (r: Option<JoinBuildSide>)
    ensures
        r == filtering_side(reduction),
{
    match reduction {
        Some(JoinEdgeOrientation::Forward) => Some(JoinBuildSide::Right),
        Some(JoinEdgeOrientation::Inverted) => Some(JoinBuildSide::Left),
        None => None,
    }
}

pub open spec fn filtering_side(reduction: Option<JoinEdgeOrientation>) -> Option<JoinBuildSide> {
    match reduction {
        Some(JoinEdgeOrientation::Forward) => Some(JoinBuildSide::Right),
        Some(JoinEdgeOrientation::Inverted) => Some(JoinBuildSide::Left),
        None => None,
    }
}

/// The most bytes that any build below or at a join holds.
pub fn peak_build_bytes(
    left: &DPJoinNode,
    right: &DPJoinNode,
    build_side: JoinBuildSide,
    left_bytes: u64,
    right_bytes: u64,
) -> (r: u64)
    ensures
        r >= left.peak_build_bytes,
        r >= right.peak_build_bytes,
        r >= (match build_side {
            JoinBuildSide::Left => left_bytes,
            JoinBuildSide::Right => right_bytes,
        }),
        r == left.peak_build_bytes || r == right.peak_build_bytes || r == (match build_side {
            JoinBuildSide::Left => left_bytes,
            JoinBuildSide::Right => right_bytes,
        }),
{
    let built: u64 = match build_side {
        JoinBuildSide::Left => left_bytes,
        JoinBuildSide::Right => right_bytes,
    };
    let peak: u64 = if left.peak_build_bytes >= right.peak_build_bytes {
        left.peak_build_bytes
    } else {
        right.peak_build_bytes
    };
    if peak >= built {
        peak
    } else {
        built
    }
}

/// Exchanging the inputs of a join and what its reduction preserves changes none
/// of its rows.
pub proof fn exchanging_inputs_keeps_the_rows(
    left: DPJoinNode,
    right: DPJoinNode,
    reduction: Option<JoinEdgeOrientation>,
    estimates: JoinEstimates,
)
    ensures
        ({
            let turned = match reduction {
                Some(JoinEdgeOrientation::Forward) => Some(JoinEdgeOrientation::Inverted),
                Some(JoinEdgeOrientation::Inverted) => Some(JoinEdgeOrientation::Forward),
                None => None,
            };
            let exchanged = JoinEstimates {
                left_materialization: estimates.right_materialization,
                right_materialization: estimates.left_materialization,
                ..estimates
            };
            let here = joined_rows(left, right, reduction, estimates);
            let there = joined_rows(right, left, turned, exchanged);
            &&& here.cardinality == there.cardinality
            &&& here.risk_cardinality == there.risk_cardinality
            &&& here.materialization_cardinality == there.materialization_cardinality
            &&& here.output_payload_width == there.output_payload_width
            &&& here.left_materialization == there.right_materialization
            &&& here.right_materialization == there.left_materialization
            &&& here.priced == there.priced
        }),
{
}

/// A reduction filters by the side whose rows it does not preserve.
pub proof fn reduction_filters_by_the_other_side(left: DPJoinNode, right: DPJoinNode)
    ensures
        preserved(left, right, Some(JoinEdgeOrientation::Forward)) == Some(left),
        filtering_side(Some(JoinEdgeOrientation::Forward)) == Some(JoinBuildSide::Right),
        preserved(left, right, Some(JoinEdgeOrientation::Inverted)) == Some(right),
        filtering_side(Some(JoinEdgeOrientation::Inverted)) == Some(JoinBuildSide::Left),
        preserved(left, right, None) is None && filtering_side(None) is None,
{
}

/// A reduction puts out the columns of what it preserves, a join those of both
/// inputs. A join that is no reduction keeps its estimate.
pub proof fn reduction_keeps_the_preserved_width(
    left: DPJoinNode,
    right: DPJoinNode,
    estimates: JoinEstimates,
)
    ensures
        joined_rows(left, right, Some(JoinEdgeOrientation::Forward), estimates).output_payload_width
            == left.output_payload_width,
        joined_rows(left, right, None, estimates).output_payload_width
            >= left.output_payload_width,
        joined_rows(left, right, None, estimates).output_payload_width
            >= right.output_payload_width,
        left.output_payload_width + right.output_payload_width <= usize::MAX ==> joined_rows(
            left,
            right,
            None,
            estimates,
        ).output_payload_width == left.output_payload_width + right.output_payload_width,
        joined_rows(left, right, None, estimates).cardinality == estimates.expected,
{
}

/// A residual predicate is supported exactly where all of its relations are in one
/// of the sets.
pub proof fn supported_predicates_have_their_relations(
    residuals: Seq<(JoinRelationSet, Number)>,
    sets: Seq<Set<usize>>,
    n: nat,
    p: usize,
)
    requires
        n <= residuals.len() <= usize::MAX,
    ensures
        supported(residuals, sets, n).contains(p) <==> p < n && exists|k: int|
            0 <= k < sets.len() && residuals[p as int].0@.subset_of(#[trigger] sets[k]),
    decreases n,
{
    let now = supported(residuals, sets, n);
    if n > 0 {
        supported_predicates_have_their_relations(residuals, sets, (n - 1) as nat, p);
        let before = supported(residuals, sets, (n - 1) as nat);
        if before.contains(p) {
            let j = choose|j: int| 0 <= j < before.len() && before[j] == p;
            assert(now[j] == p);
        }
        if now.contains(p) && p != n - 1 {
            let j = choose|j: int| 0 <= j < now.len() && now[j] == p;
            assert(before[j] == p);
        }
        if now.len() > before.len() {
            assert(now[before.len() as int] == (n - 1) as usize);
        }
        if p == n - 1 && now.contains(p) && !before.contains(p) {
            let j = choose|j: int| 0 <= j < now.len() && now[j] == p;
            if j < before.len() {
                assert(before[j] == p);
            }
        }
    }
}

/// A relation that has to be materialized counts with no fewer rows than expected
/// or risked.
pub proof fn materialized_rows_are_the_most(stats: RelationStats)
    ensures
        stats.materialized() >= stats.cardinality,
        stats.materialized() >= stats.risk_cardinality,
        stats.materialized() >= stats.materialization_cardinality,
        stats.rows().risk >= stats.rows().expected,
        stats.rows().materialization >= stats.rows().risk,
        stats.rows().expected == stats.cardinality,
{
}

} // verus!
