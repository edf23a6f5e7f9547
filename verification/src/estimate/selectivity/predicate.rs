//! Predicates as graphs. Nodes that are evaluated once for several readers
//! occur once, so a graph can stand for exponentially many occurrences.

use vstd::prelude::*;

use crate::expression::Intrinsic;
use crate::statistics::NumericDistribution;
use crate::types::{ColumnBinding, ComparisonType, ConjunctionType, LogicalType, OperatorType};
use crate::value::Value;

verus! {

/// Type and bounds of a column's values.
#[derive(Debug)]
pub struct ColumnValues {
    pub logical_type: LogicalType,
    pub minimum: Option<Value>,
    pub maximum: Option<Value>,
}

/// What the estimator knows of one column. A distinct count, the values and
/// their distribution are independent of each other.
#[derive(Debug)]
pub struct ColumnPredicateEvidence {
    /// Distinct values; none where unknown.
    pub point: Option<u64>,
    pub values: Option<ColumnValues>,
    pub distribution: Option<NumericDistribution>,
}

#[derive(Debug)]
pub enum PredicateKind {
    Constant(Value),
    /// A column; without a binding where it belongs to an outer query or to no
    /// known position.
    Column { binding: Option<ColumnBinding>, evidence: Option<ColumnPredicateEvidence> },
    /// The two operands are the children.
    Comparison(ComparisonType),
    And,
    Or,
    Operator(OperatorType),
    Function(Intrinsic),
    Other,
}

#[derive(Debug)]
pub struct PredicateNode {
    pub kind: PredicateKind,
    pub children: Vec<usize>,
    /// Whether all readers can share one evaluation.
    pub shareable: bool,
}

/// Nodes in an order in which children precede their readers.
#[derive(Debug)]
pub struct PredicateGraph {
    pub nodes: Vec<PredicateNode>,
}

pub open spec fn node_wf(nodes: Seq<PredicateNode>, n: int) -> bool {
    &&& forall|i: int|
        0 <= i < nodes[n].children@.len() ==> (#[trigger] nodes[n].children@[i]) < n
    &&& nodes[n].kind is Comparison ==> nodes[n].children@.len() == 2
}

impl PredicateGraph {
    pub open spec fn wf(self) -> bool {
        forall|n: int| 0 <= n < self.nodes@.len() ==> #[trigger] node_wf(self.nodes@, n)
    }

    pub fn new() -> (r: PredicateGraph)
        ensures
            r.wf(),
            r.nodes@ == Seq::<PredicateNode>::empty(),
    {
        PredicateGraph { nodes: Vec::new() }
    }

    /// Adds a node whose children are in the graph, and returns its position.
    pub fn add_node(&mut self, node: PredicateNode) -> (r: usize)
        requires
            old(self).wf(),
            forall|i: int|
                0 <= i < node.children@.len() ==> (#[trigger] node.children@[i])
                    < old(self).nodes@.len(),
            node.kind is Comparison ==> node.children@.len() == 2,
        ensures
            final(self).wf(),
            r == old(self).nodes@.len(),
            final(self).nodes@ == old(self).nodes@.push(node),
    {
        let r: usize = self.nodes.len();
        let ghost before = self.nodes@;
        self.nodes.push(node);
        assert forall|n: int| 0 <= n < self.nodes@.len() implies #[trigger] node_wf(
            self.nodes@,
            n,
        ) by {
            if n < before.len() {
                assert(node_wf(before, n));
                assert(self.nodes@[n] == before[n]);
            }
        }
        r
    }

    pub fn len(&self) -> (r: usize)
        ensures
            r == self.nodes@.len(),
    {
        self.nodes.len()
    }
}

/// Whether a node is a conjunction (or disjunction), as `kind` asks.
pub open spec fn is_boolean(node: PredicateNode, kind: ConjunctionType) -> bool {
    match kind {
        ConjunctionType::And => node.kind is And,
        ConjunctionType::Or => node.kind is Or,
    }
}

pub fn same_boolean_kind(kind: ConjunctionType, node: &PredicateNode) -> (r: bool)
    ensures
        r == is_boolean(*node, kind),
{
    match (kind, &node.kind) {
        (ConjunctionType::And, PredicateKind::And) => true,
        (ConjunctionType::Or, PredicateKind::Or) => true,
        _ => false,
    }
}

/// The binding of a column node.
pub open spec fn column_of(node: PredicateNode) -> Option<ColumnBinding> {
    match node.kind {
        PredicateKind::Column { binding, .. } => binding,
        _ => None,
    }
}

pub fn node_binding(node: &PredicateNode) -> (r: Option<ColumnBinding>)
    ensures
        r == column_of(*node),
{
    match &node.kind {
        PredicateKind::Column { binding, .. } => *binding,
        _ => None,
    }
}

/// The literal of a constant node.
pub open spec fn literal_of(node: PredicateNode) -> Option<Value> {
    match node.kind {
        PredicateKind::Constant(value) => Some(value),
        _ => None,
    }
}

pub fn node_constant(node: &PredicateNode) -> (r: Option<&Value>)
    ensures
        match r {
            Some(value) => literal_of(*node) == Some(*value),
            None => literal_of(*node) is None,
        },
{
    match &node.kind {
        PredicateKind::Constant(value) => Some(value),
        _ => None,
    }
}

/// What is known of the column that a node stands for.
pub open spec fn evidence_of(node: PredicateNode) -> Option<ColumnPredicateEvidence> {
    match node.kind {
        PredicateKind::Column { evidence, .. } => evidence,
        _ => None,
    }
}

pub fn node_evidence(node: &PredicateNode) -> (r: Option<&ColumnPredicateEvidence>)
    ensures
        match r {
            Some(evidence) => evidence_of(*node) == Some(*evidence),
            None => evidence_of(*node) is None,
        },
{
    match &node.kind {
        PredicateKind::Column { evidence, .. } => match evidence {
            Some(evidence) => Some(evidence),
            None => None,
        },
        _ => None,
    }
}

/// Distinct values of the column that a node stands for; none where unknown
/// or zero.
pub open spec fn point_of(node: PredicateNode) -> Option<u64> {
    match evidence_of(node) {
        Some(evidence) => match evidence.point {
            Some(point) => if point > 0 {
                Some(point)
            } else {
                None
            },
            None => None,
        },
        None => None,
    }
}

pub fn node_point(node: &PredicateNode) -> (r: Option<u64>)
    ensures
        r == point_of(*node),
{
    match node_evidence(node) {
        Some(evidence) => match evidence.point {
            Some(point) => if point > 0 {
                Some(point)
            } else {
                None
            },
            None => None,
        },
        None => None,
    }
}

pub open spec fn reversed(comparison: ComparisonType) -> ComparisonType {
    match comparison {
        ComparisonType::LessThan => ComparisonType::GreaterThan,
        ComparisonType::LessThanOrEqual => ComparisonType::GreaterThanOrEqual,
        ComparisonType::GreaterThan => ComparisonType::LessThan,
        ComparisonType::GreaterThanOrEqual => ComparisonType::LessThanOrEqual,
        other => other,
    }
}

/// The comparison that holds of exchanged operands.
pub fn reverse_comparison(comparison: ComparisonType) -> (r: ComparisonType)
    ensures
        r == reversed(comparison),
{
    match comparison {
        ComparisonType::LessThan => ComparisonType::GreaterThan,
        ComparisonType::LessThanOrEqual => ComparisonType::GreaterThanOrEqual,
        ComparisonType::GreaterThan => ComparisonType::LessThan,
        ComparisonType::GreaterThanOrEqual => ComparisonType::LessThanOrEqual,
        other => other,
    }
}

/// Exchanging the operands twice gives the comparison back.
pub proof fn reversing_twice_changes_nothing(comparison: ComparisonType)
    ensures
        reversed(reversed(comparison)) == comparison,
{
}

/// A reversed comparison is true of two values exactly when the comparison is
/// true of them the other way round.
pub proof fn reversing_keeps_the_meaning(
    comparison: ComparisonType,
    a: Option<int>,
    b: Option<int>,
)
    ensures
        reversed(comparison).is_true_of(b, a) <==> comparison.is_true_of(a, b),
{
}

/// A column node, a constant node and how the column compares to the constant.
#[derive(Clone, Copy, Debug, PartialEq, Eq, Structural)]
pub struct ColumnComparison {
    pub column: usize,
    pub constant: usize,
    pub comparison: ComparisonType,
}

/// The comparison of a column with a constant that node `n` makes, if it is
/// one, with the column on the left.
pub open spec fn column_comparison(nodes: Seq<PredicateNode>, n: int) -> Option<ColumnComparison> {
    match nodes[n].kind {
        PredicateKind::Comparison(comparison) => {
            let left = nodes[n].children@[0];
            let right = nodes[n].children@[1];
            if column_of(nodes[left as int]) is Some && literal_of(nodes[right as int]) is Some {
                Some(ColumnComparison { column: left, constant: right, comparison })
            } else if column_of(nodes[right as int]) is Some && literal_of(nodes[left as int])
                is Some {
                Some(
                    ColumnComparison {
                        column: right,
                        constant: left,
                        comparison: reversed(comparison),
                    },
                )
            } else {
                None
            }
        },
        _ => None,
    }
}

pub fn column_constant_comparison(graph: &PredicateGraph, n: usize) -> (r: Option<ColumnComparison>)
    requires
        graph.wf(),
        n < graph.nodes@.len(),
    ensures
        r == column_comparison(graph.nodes@, n as int),
        r matches Some(found) ==> found.column < n && found.constant < n,
{
    assert(node_wf(graph.nodes@, n as int));
    match &graph.nodes[n].kind {
        PredicateKind::Comparison(comparison) => {
            let left: usize = graph.nodes[n].children[0];
            let right: usize = graph.nodes[n].children[1];
            if node_binding(&graph.nodes[left]).is_some() && node_constant(
                &graph.nodes[right],
            ).is_some() {
                return Some(
                    ColumnComparison { column: left, constant: right, comparison: *comparison },
                );
            }
            if node_binding(&graph.nodes[right]).is_some() && node_constant(
                &graph.nodes[left],
            ).is_some() {
                return Some(
                    ColumnComparison {
                        column: right,
                        constant: left,
                        comparison: reverse_comparison(*comparison),
                    },
                );
            }
            None
        },
        _ => None,
    }
}

/// The columns that a predicate depends on, as far as it matters.
#[derive(Clone, Copy, Debug, PartialEq, Eq, Structural)]
pub enum ColumnScope {
    NoColumn,
    One(ColumnBinding),
    /// Several columns, or one that is not resolved here.
    Many,
}

pub open spec fn joined_scope(a: ColumnScope, b: ColumnScope) -> ColumnScope {
    match (a, b) {
        (ColumnScope::NoColumn, _) => b,
        (_, ColumnScope::NoColumn) => a,
        (ColumnScope::One(x), ColumnScope::One(y)) => if x == y {
            a
        } else {
            ColumnScope::Many
        },
        _ => ColumnScope::Many,
    }
}

pub fn join_scopes(a: ColumnScope, b: ColumnScope) -> (r: ColumnScope)
    ensures
        r == joined_scope(a, b),
{
    match (a, b) {
        (ColumnScope::NoColumn, _) => b,
        (_, ColumnScope::NoColumn) => a,
        (ColumnScope::One(x), ColumnScope::One(y)) => if x == y {
            a
        } else {
            ColumnScope::Many
        },
        _ => ColumnScope::Many,
    }
}

/// The columns that node `n` depends on.
pub open spec fn scope(nodes: Seq<PredicateNode>, n: int) -> ColumnScope
    decreases n, 1nat, 0nat,
{
    if n < 0 || n >= nodes.len() {
        ColumnScope::NoColumn
    } else {
        match nodes[n].kind {
            PredicateKind::Column { binding, .. } => match binding {
                Some(binding) => ColumnScope::One(binding),
                None => ColumnScope::Many,
            },
            _ => children_scope(nodes, n, nodes[n].children@.len()),
        }
    }
}

/// The columns that the first `k` children of node `n` depend on.
pub open spec fn children_scope(nodes: Seq<PredicateNode>, n: int, k: nat) -> ColumnScope
    decreases n, 0nat, k,
{
    if k == 0 || k > nodes[n].children@.len() || n < 0 {
        ColumnScope::NoColumn
    } else {
        let child = nodes[n].children@[k - 1] as int;
        joined_scope(
            children_scope(nodes, n, (k - 1) as nat),
            if child < n {
                scope(nodes, child)
            } else {
                ColumnScope::NoColumn
            },
        )
    }
}

impl PredicateGraph {
    /// The columns that each node depends on.
    pub fn scopes(&self) -> (r: Vec<ColumnScope>)
        requires
            self.wf(),
        ensures
            r@.len() == self.nodes@.len(),
            forall|n: int| 0 <= n < r@.len() ==> #[trigger] r@[n] == scope(self.nodes@, n),
    {
        let mut r: Vec<ColumnScope> = Vec::new();
        let mut n: usize = 0;
        while n < self.nodes.len()
            invariant
                self.wf(),
                n <= self.nodes@.len(),
                r@.len() == n,
                forall|m: int| 0 <= m < n ==> #[trigger] r@[m] == scope(self.nodes@, m),
            decreases self.nodes@.len() - n,
        {
            assert(node_wf(self.nodes@, n as int));
            let found = match &self.nodes[n].kind {
                PredicateKind::Column { binding, .. } => match binding {
                    Some(binding) => ColumnScope::One(*binding),
                    None => ColumnScope::Many,
                },
                _ => {
                    let mut joined = ColumnScope::NoColumn;
                    let mut k: usize = 0;
                    while k < self.nodes[n].children.len()
                        invariant
                            self.wf(),
                            n < self.nodes@.len(),
                            node_wf(self.nodes@, n as int),
                            r@.len() == n,
                            forall|m: int|
                                0 <= m < n ==> #[trigger] r@[m] == scope(self.nodes@, m),
                            k <= self.nodes@[n as int].children@.len(),
                            joined == children_scope(self.nodes@, n as int, k as nat),
                        decreases self.nodes@[n as int].children@.len() - k,
                    {
                        let child: usize = self.nodes[n].children[k];
                        assert(r@[child as int] == scope(self.nodes@, child as int));
                        joined = join_scopes(joined, r[child]);
                        k = k + 1;
                    }
                    joined
                },
            };
            r.push(found);
            n = n + 1;
        }
        r
    }
}

/// The only column that a predicate depends on.
pub open spec fn single_column(scope: ColumnScope) -> Option<ColumnBinding> {
    match scope {
        ColumnScope::One(binding) => Some(binding),
        _ => None,
    }
}

pub fn single_binding(scope: ColumnScope) -> (r: Option<ColumnBinding>)
    ensures
        r == single_column(scope),
{
    match scope {
        ColumnScope::One(binding) => Some(binding),
        _ => None,
    }
}

/// The comparison of a column with a constant is true exactly where the node's
/// comparison is, whichever side the column stands on. `value` is what nodes come
/// to.
pub proof fn column_comparison_keeps_the_condition(
    nodes: Seq<PredicateNode>,
    n: int,
    comparison: ComparisonType,
    value: spec_fn(usize) -> Option<int>,
)
    requires
        nodes[n].kind == PredicateKind::Comparison(comparison),
        column_comparison(nodes, n) is Some,
    ensures
        ({
            let found = column_comparison(nodes, n)->0;
            &&& found.comparison.is_true_of(value(found.column), value(found.constant))
                <==> comparison.is_true_of(
                value(nodes[n].children@[0]),
                value(nodes[n].children@[1]),
            )
            &&& column_of(nodes[found.column as int]) is Some
            &&& literal_of(nodes[found.constant as int]) is Some
        }),
{
}

/// Putting scopes together loses no column: only what has no column on either side
/// has none, and only what has one column on both sides, or on one with none on
/// the other, has one. The order does not matter.
pub proof fn joined_scopes_lose_no_column(
    a: ColumnScope,
    b: ColumnScope,
    c: ColumnScope,
    x: ColumnBinding,
)
    ensures
        joined_scope(a, b) is NoColumn <==> a is NoColumn && b is NoColumn,
        joined_scope(a, b) == ColumnScope::One(x) <==> (a == ColumnScope::One(x) && (b
            == ColumnScope::One(x) || b is NoColumn)) || (a is NoColumn && b == ColumnScope::One(
            x,
        )),
        joined_scope(a, b) == joined_scope(b, a),
        joined_scope(joined_scope(a, b), c) == joined_scope(a, joined_scope(b, c)),
{
}

} // verus!
