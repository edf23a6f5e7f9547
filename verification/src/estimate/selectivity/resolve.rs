//! Expressions as predicate graphs, with the statistics of their columns.

use std::sync::Arc;
use vstd::prelude::*;

use crate::estimate::selectivity::predicate::{
    ColumnPredicateEvidence, ColumnValues, PredicateGraph, PredicateKind, PredicateNode,
};
use crate::expression::analysis::{lemma_view_children, views};
use crate::expression::{
    AggregateExpression, CastExpression, ColumnRefExpression, ComparisonExpression,
    ConjunctionExpression, ConstantExpression, Expression, ExpressionView, FunctionExpression,
    FunctionStability, OperatorExpression, ReferenceExpression,
};
use crate::statistics::{ColumnStatistics, ColumnStatisticsLookup};
use crate::types::{ColumnBinding, ConjunctionType};

verus! {

/// What is known of the columns that an expression can name.
pub struct Resolution {
    pub known: Map<ColumnBinding, ColumnStatistics>,
    /// Columns of positional references.
    pub positions: Option<Seq<ColumnBinding>>,
}

/// Whether one evaluation serves all readers: nothing in the expression gives
/// another result each time.
pub open spec fn can_share(e: ExpressionView) -> bool
    decreases e,
{
    match e {
        ExpressionView::Constant(_, _) => true,
        ExpressionView::ColumnRef(_) => true,
        ExpressionView::Reference(_) => true,
        ExpressionView::Comparison(_, left, right) => can_share(*left) && can_share(*right),
        ExpressionView::Conjunction(_, children) => forall|i: int|
            0 <= i < children.len() ==> can_share(#[trigger] children[i]),
        ExpressionView::Cast(child, _) => can_share(*child),
        ExpressionView::Operator(_, children, _) => forall|i: int|
            0 <= i < children.len() ==> can_share(#[trigger] children[i]),
        ExpressionView::Function(_, stability, children, _) => stability
            != FunctionStability::Volatile && forall|i: int|
            0 <= i < children.len() ==> can_share(#[trigger] children[i]),
        ExpressionView::Aggregate(_, children, _, filter, _, _) => (forall|i: int|
            0 <= i < children.len() ==> can_share(#[trigger] children[i])) && match filter {
            Some(filter) => can_share(*filter),
            None => true,
        },
    }
}

/// The column that a reference resolves to.
pub open spec fn resolved_binding(e: ExpressionView, resolution: Resolution) -> Option<
    ColumnBinding,
> {
    match e {
        ExpressionView::ColumnRef(column) => if column.depth == 0 {
            Some(column.binding)
        } else {
            None
        },
        ExpressionView::Reference(reference) => match resolution.positions {
            Some(positions) => if reference.index < positions.len() {
                Some(positions[reference.index as int])
            } else {
                None
            },
            None => None,
        },
        _ => None,
    }
}

/// What statistics say to the estimator.
pub open spec fn statistics_evidence(statistics: ColumnStatistics) -> ColumnPredicateEvidence {
    ColumnPredicateEvidence {
        point: if statistics.distinct.point == 0 {
            None
        } else {
            Some(statistics.distinct.point)
        },
        values: Some(
            ColumnValues {
                logical_type: statistics.logical_type,
                minimum: statistics.minimum,
                maximum: statistics.maximum,
            },
        ),
        distribution: statistics.distribution,
    }
}

pub open spec fn resolved_evidence(binding: Option<ColumnBinding>, resolution: Resolution) -> Option<
    ColumnPredicateEvidence,
> {
    match binding {
        Some(binding) => if resolution.known.contains_key(binding) {
            Some(statistics_evidence(resolution.known[binding]))
        } else {
            None
        },
        None => None,
    }
}

/// What kind of node an expression becomes.
pub open spec fn resolved_kind(e: ExpressionView, kind: PredicateKind, resolution: Resolution) -> bool {
    match e {
        ExpressionView::Constant(value, _) => kind matches PredicateKind::Constant(literal)
            && literal@ == value,
        ExpressionView::ColumnRef(_) | ExpressionView::Reference(_) => kind
            == (PredicateKind::Column {
            binding: resolved_binding(e, resolution),
            evidence: resolved_evidence(resolved_binding(e, resolution), resolution),
        }),
        ExpressionView::Comparison(comparison, _, _) => kind == PredicateKind::Comparison(
            comparison,
        ),
        ExpressionView::Conjunction(conjunction, _) => match conjunction {
            ConjunctionType::And => kind is And,
            ConjunctionType::Or => kind is Or,
        },
        ExpressionView::Operator(operator, _, _) => kind == PredicateKind::Operator(operator),
        ExpressionView::Function(function, _, _, _) => kind == PredicateKind::Function(
            function.intrinsic,
        ),
        _ => kind is Other,
    }
}

/// The operands of an expression, in order.
pub open spec fn operands(e: ExpressionView) -> Seq<ExpressionView> {
    match e {
        ExpressionView::Comparison(_, left, right) => seq![*left, *right],
        ExpressionView::Conjunction(_, children) => children,
        ExpressionView::Cast(child, _) => seq![*child],
        ExpressionView::Operator(_, children, _) => children,
        ExpressionView::Function(_, _, children, _) => children,
        ExpressionView::Aggregate(_, children, _, filter, _, _) => match filter {
            Some(filter) => children.push(*filter),
            None => children,
        },
        _ => Seq::empty(),
    }
}

/// Whether node `n` stands for an expression.
pub open spec fn represents(
    nodes: Seq<PredicateNode>,
    n: int,
    e: ExpressionView,
    resolution: Resolution,
) -> bool
    decreases n,
{
    &&& 0 <= n < nodes.len()
    &&& resolved_kind(e, nodes[n].kind, resolution)
    &&& nodes[n].shareable == can_share(e)
    &&& nodes[n].children@.len() == operands(e).len()
    &&& forall|i: int|
        #![trigger nodes[n].children@[i]]
        0 <= i < nodes[n].children@.len() ==> nodes[n].children@[i] < n && represents(
            nodes,
            nodes[n].children@[i] as int,
            operands(e)[i],
            resolution,
        )
}

/// More nodes change nothing of the earlier ones.
proof fn lemma_represents_push(
    nodes: Seq<PredicateNode>,
    added: PredicateNode,
    n: int,
    e: ExpressionView,
    resolution: Resolution,
)
    requires
        represents(nodes, n, e, resolution),
    ensures
        represents(nodes.push(added), n, e, resolution),
    decreases n,
{
    let longer = nodes.push(added);
    assert(longer[n] == nodes[n]);
    assert forall|i: int|
        #![trigger longer[n].children@[i]]
        0 <= i < longer[n].children@.len() implies longer[n].children@[i] < n && represents(
        longer,
        longer[n].children@[i] as int,
        operands(e)[i],
        resolution,
    ) by {
        assert(nodes[n].children@[i] < n);
        lemma_represents_push(
            nodes,
            added,
            nodes[n].children@[i] as int,
            operands(e)[i],
            resolution,
        );
    }
}

/// Whether two handles refer to one allocation: `std`'s `Arc::ptr_eq`. One
/// allocation holds one value; different allocations may hold equal ones.
#[verifier::external_body]
fn same_allocation<T>(a: &Arc<T>, b: &Arc<T>) -> (r: bool)
    ensures
        r ==> *a == *b,
{
    Arc::ptr_eq(a, b)
}

/// Whether `answer` tells if two expressions are one shared node: it is what
/// `same_allocation` answers about their handles. Expressions of different
/// kinds are never one node.
pub closed spec fn is_answer(a: Expression, b: Expression, answer: bool) -> bool {
    match (a, b) {
        (Expression::Constant(x), Expression::Constant(y)) => call_ensures(
            same_allocation::<ConstantExpression>,
            (&x, &y),
            answer,
        ),
        (Expression::ColumnRef(x), Expression::ColumnRef(y)) => call_ensures(
            same_allocation::<ColumnRefExpression>,
            (&x, &y),
            answer,
        ),
        (Expression::Reference(x), Expression::Reference(y)) => call_ensures(
            same_allocation::<ReferenceExpression>,
            (&x, &y),
            answer,
        ),
        (Expression::Comparison(x), Expression::Comparison(y)) => call_ensures(
            same_allocation::<ComparisonExpression>,
            (&x, &y),
            answer,
        ),
        (Expression::Conjunction(x), Expression::Conjunction(y)) => call_ensures(
            same_allocation::<ConjunctionExpression>,
            (&x, &y),
            answer,
        ),
        (Expression::Cast(x), Expression::Cast(y)) => call_ensures(
            same_allocation::<CastExpression>,
            (&x, &y),
            answer,
        ),
        (Expression::Operator(x), Expression::Operator(y)) => call_ensures(
            same_allocation::<OperatorExpression>,
            (&x, &y),
            answer,
        ),
        (Expression::Function(x), Expression::Function(y)) => call_ensures(
            same_allocation::<FunctionExpression>,
            (&x, &y),
            answer,
        ),
        (Expression::Aggregate(x), Expression::Aggregate(y)) => call_ensures(
            same_allocation::<AggregateExpression>,
            (&x, &y),
            answer,
        ),
        _ => !answer,
    }
}

/// Whether two expressions are one shared node.
fn same_node(a: &Expression, b: &Expression) -> (r: bool)
    ensures
        r ==> *a == *b,
        is_answer(*a, *b, r),
{
    match (a, b) {
        (Expression::Constant(x), Expression::Constant(y)) => same_allocation(x, y),
        (Expression::ColumnRef(x), Expression::ColumnRef(y)) => same_allocation(x, y),
        (Expression::Reference(x), Expression::Reference(y)) => same_allocation(x, y),
        (Expression::Comparison(x), Expression::Comparison(y)) => same_allocation(x, y),
        (Expression::Conjunction(x), Expression::Conjunction(y)) => same_allocation(x, y),
        (Expression::Cast(x), Expression::Cast(y)) => same_allocation(x, y),
        (Expression::Operator(x), Expression::Operator(y)) => same_allocation(x, y),
        (Expression::Function(x), Expression::Function(y)) => same_allocation(x, y),
        (Expression::Aggregate(x), Expression::Aggregate(y)) => same_allocation(x, y),
        _ => false,
    }
}

/// Statistics and positions that column references resolve to.
pub struct StatisticsResolver<'a, L> {
    pub columns: &'a L,
    pub positions: Option<&'a Vec<ColumnBinding>>,
}

impl<'a, L: ColumnStatisticsLookup> View for StatisticsResolver<'a, L> {
    type V = Resolution;

    open spec fn view(&self) -> Resolution {
        Resolution {
            known: self.columns.known(),
            positions: match self.positions {
                Some(positions) => Some(positions@),
                None => None,
            },
        }
    }
}

impl<'a, L: ColumnStatisticsLookup> StatisticsResolver<'a, L> {
    /// References resolve by their column.
    pub fn logical(columns: &'a L) -> (r: StatisticsResolver<'a, L>)
        ensures
            r@ == (Resolution { known: columns.known(), positions: None }),
    {
        StatisticsResolver { columns, positions: None }
    }

    /// Positional references resolve by the given columns.
    pub fn with_positions(columns: &'a L, positions: &'a Vec<ColumnBinding>) -> (r:
        StatisticsResolver<'a, L>)
        ensures
            r@ == (Resolution { known: columns.known(), positions: Some(positions@) }),
    {
        StatisticsResolver { columns, positions: Some(positions) }
    }

    /// The column that a reference resolves to.
    pub fn binding(&self, e: &Expression) -> (r: Option<ColumnBinding>)
        ensures
            r == resolved_binding(e@, self@),
    {
        match e {
            Expression::ColumnRef(column) => if column.depth == 0 {
                Some(column.binding)
            } else {
                None
            },
            Expression::Reference(reference) => match self.positions {
                Some(positions) => if reference.index < positions.len() {
                    Some(positions[reference.index])
                } else {
                    None
                },
                None => None,
            },
            _ => None,
        }
    }

    fn evidence(&self, binding: Option<ColumnBinding>) -> (r: Option<ColumnPredicateEvidence>)
        ensures
            r == resolved_evidence(binding, self@),
    {
        match binding {
            Some(binding) => match self.columns.get(&binding) {
                Some(statistics) => {
                    let known = statistics.copy();
                    Some(
                        ColumnPredicateEvidence {
                            point: if known.distinct.point == 0 {
                                None
                            } else {
                                Some(known.distinct.point)
                            },
                            values: Some(
                                ColumnValues {
                                    logical_type: known.logical_type,
                                    minimum: known.minimum,
                                    maximum: known.maximum,
                                },
                            ),
                            distribution: known.distribution,
                        },
                    )
                },
                None => None,
            },
            None => None,
        }
    }
}

/// The operands of an expression, in order.
pub open spec fn parts(e: Expression) -> Seq<Expression> {
    match e {
        Expression::Comparison(comparison) => seq![comparison.left, comparison.right],
        Expression::Conjunction(conjunction) => conjunction.children@,
        Expression::Cast(cast) => seq![cast.child],
        Expression::Operator(operator) => operator.children@,
        Expression::Function(function) => function.children@,
        Expression::Aggregate(aggregate) => match aggregate.filter {
            Some(filter) => aggregate.children@.push(filter),
            None => aggregate.children@,
        },
        _ => Seq::empty(),
    }
}

pub proof fn lemma_parts(e: Expression)
    ensures
        views(parts(e)) == operands(e@),
{
    lemma_view_children(e);
    assert(views(parts(e)) =~= operands(e@));
}

/// Whether `found` is the first expression that is one shared node with `e`.
pub open spec fn is_first_shared(
    entries: Seq<Expression>,
    e: Expression,
    found: Option<usize>,
) -> bool {
    let before = match found {
        Some(n) => n as int,
        None => entries.len() as int,
    };
    &&& before <= entries.len()
    &&& forall|i: int| 0 <= i < before ==> is_answer(#[trigger] entries[i], e, false)
    &&& found matches Some(n) ==> n < entries.len() && is_answer(entries[n as int], e, true)
}

/// Whether no two of the expressions are one shared node.
pub open spec fn are_apart(entries: Seq<Expression>) -> bool {
    forall|i: int, k: int|
        #![trigger entries[i], entries[k]]
        0 <= i < k < entries.len() ==> is_answer(entries[i], entries[k], false)
}

/// The first of the expressions that is one shared node with `e`.
pub fn find_shared(entries: &Vec<Expression>, e: &Expression) -> (r: Option<usize>)
    ensures
        is_first_shared(entries@, *e, r),
        r matches Some(n) ==> n < entries@.len() && entries@[n as int] == *e,
{
    let mut k: usize = 0;
    while k < entries.len()
        invariant
            k <= entries@.len(),
            forall|i: int| 0 <= i < k ==> is_answer(#[trigger] entries@[i], *e, false),
        decreases entries@.len() - k,
    {
        if same_node(&entries[k], e) {
            return Some(k);
        }
        k = k + 1;
    }
    None
}

/// An operand of a node, by the node and the operand's position.
pub open spec fn is_edge(nodes: Seq<PredicateNode>, edge: (int, int)) -> bool {
    0 <= edge.0 < nodes.len() && 0 <= edge.1 < nodes[edge.0].children@.len()
}

pub open spec fn edge_end(nodes: Seq<PredicateNode>, edge: (int, int)) -> int {
    nodes[edge.0].children@[edge.1] as int
}

/// The expressions that the nodes of a graph were made for.
pub struct BuiltNodes {
    /// The expression of each node.
    pub entries: Vec<Expression>,
    /// The operands that a node was made for, one for each node at most.
    pub made: Ghost<Set<(int, int)>>,
}

impl BuiltNodes {
    /// Whether every node stands for its expression, and one shared node of
    /// the expressions is one node of the graph: no two nodes were made for
    /// it, and an operand reads the node that was made for it or for an
    /// expression with which it is one shared node.
    pub open spec fn hold(self, nodes: Seq<PredicateNode>, resolution: Resolution) -> bool {
        &&& self.entries@.len() == nodes.len()
        &&& forall|k: int|
            0 <= k < nodes.len() ==> represents(
                nodes,
                k,
                (#[trigger] self.entries@[k])@,
                resolution,
            )
        &&& are_apart(self.entries@)
        &&& self.links(nodes)
    }

    pub open spec fn links(self, nodes: Seq<PredicateNode>) -> bool {
        &&& forall|edge: (int, int)| #[trigger]
            self.made@.contains(edge) ==> is_edge(nodes, edge)
        &&& forall|a: (int, int), b: (int, int)|
            #![trigger self.made@.contains(a), self.made@.contains(b)]
            self.made@.contains(a) && self.made@.contains(b) && a != b ==> edge_end(nodes, a)
                != edge_end(nodes, b)
        &&& forall|edge: (int, int)|
            #![trigger edge_end(nodes, edge)]
            is_edge(nodes, edge) && !self.made@.contains(edge) ==> is_answer(
                self.entries@[edge_end(nodes, edge)],
                parts(self.entries@[edge.0])[edge.1],
                true,
            )
    }

    pub fn new() -> (r: BuiltNodes)
        ensures
            r.entries@.len() == 0,
            forall|resolution: Resolution| #[trigger] r.hold(Seq::empty(), resolution),
    {
        BuiltNodes { entries: Vec::new(), made: Ghost(Set::empty()) }
    }
}

/// Whether the first nodes are the same.
pub open spec fn extends(after: Seq<PredicateNode>, before: Seq<PredicateNode>) -> bool {
    before.len() <= after.len() && after.take(before.len() as int) == before
}

proof fn lemma_extends_again(a: Seq<PredicateNode>, b: Seq<PredicateNode>, c: Seq<PredicateNode>)
    requires
        extends(b, a),
        extends(c, b),
    ensures
        extends(c, a),
{
    assert(c.take(a.len() as int) =~= b.take(a.len() as int));
}

/// Nodes of the syntax tree of an expression.
pub open spec fn expression_size(e: ExpressionView) -> nat
    decreases e, 0nat,
{
    match e {
        ExpressionView::Comparison(_, left, right) => 1 + expression_size(*left) + expression_size(
            *right,
        ),
        ExpressionView::Conjunction(_, children) => 1 + expressions_size(children, children.len()),
        ExpressionView::Cast(child, _) => 1 + expression_size(*child),
        ExpressionView::Operator(_, children, _) => 1 + expressions_size(children, children.len()),
        ExpressionView::Function(_, _, children, _) => 1 + expressions_size(
            children,
            children.len(),
        ),
        ExpressionView::Aggregate(_, children, _, filter, _, _) => 1 + expressions_size(
            children,
            children.len(),
        ) + match filter {
            Some(filter) => expression_size(*filter),
            None => 0,
        },
        _ => 1,
    }
}

/// Nodes of the first `n` syntax trees.
pub open spec fn expressions_size(list: Seq<ExpressionView>, n: nat) -> nat
    decreases list, n,
{
    if n == 0 || n > list.len() {
        0
    } else {
        expressions_size(list, (n - 1) as nat) + expression_size(list[n - 1])
    }
}

proof fn lemma_expressions_size_prefix(a: Seq<ExpressionView>, b: Seq<ExpressionView>, n: nat)
    requires
        n <= a.len(),
        n <= b.len(),
        forall|i: int| 0 <= i < n ==> #[trigger] a[i] == b[i],
    ensures
        expressions_size(a, n) == expressions_size(b, n),
    decreases n,
{
    if n > 0 {
        lemma_expressions_size_prefix(a, b, (n - 1) as nat);
        assert(a[n - 1] == b[n - 1]);
    }
}

pub proof fn lemma_expression_size(e: ExpressionView)
    ensures
        expression_size(e) == 1 + expressions_size(operands(e), operands(e).len()),
{
    let parts = operands(e);
    match e {
        ExpressionView::Comparison(_, left, right) => {
            assert(parts[0] == *left && parts[1] == *right);
            assert(expressions_size(parts, 0) == 0);
            assert(expressions_size(parts, 1) == expression_size(*left));
            assert(expressions_size(parts, 2) == expression_size(*left) + expression_size(*right));
        },
        ExpressionView::Cast(child, _) => {
            assert(parts[0] == *child);
            assert(expressions_size(parts, 0) == 0);
            assert(expressions_size(parts, 1) == expression_size(*child));
        },
        ExpressionView::Aggregate(_, children, _, Some(filter), _, _) => {
            lemma_expressions_size_prefix(children, parts, children.len());
            assert(parts.last() == *filter);
        },
        _ => {},
    }
}

/// What is left to do for an expression.
enum Task<'e> {
    Enter(&'e Expression),
    /// Add the node, once the operands have theirs.
    Finish(&'e Expression),
}

/// Whether the tasks, the last one first, add to the nodes of `done` and end
/// with those of `wanted`.
spec fn yields(
    tasks: Seq<Task>,
    done: Seq<Expression>,
    wanted: Seq<Expression>,
) -> bool
    decreases tasks.len(),
{
    if tasks.len() == 0 {
        done == wanted
    } else {
        let rest = tasks.drop_last();
        match tasks.last() {
            Task::Enter(e) => yields(rest, done.push(*e), wanted),
            Task::Finish(e) => {
                let kept = done.len() - parts(*e).len();
                &&& kept >= 0
                &&& done.skip(kept) == parts(*e)
                &&& yields(rest, done.take(kept).push(*e), wanted)
            },
        }
    }
}

/// Parts that are left to enter.
spec fn tasks_size(tasks: Seq<Task>) -> nat
    decreases tasks.len(),
{
    if tasks.len() == 0 {
        0
    } else {
        tasks_size(tasks.drop_last()) + match tasks.last() {
            Task::Enter(e) => expression_size(e@),
            Task::Finish(_) => 0,
        }
    }
}

proof fn lemma_task_push(tasks: Seq<Task>, task: Task)
    ensures
        tasks.push(task).drop_last() == tasks,
        tasks.push(task).last() == task,
{
    assert(tasks.push(task).drop_last() =~= tasks);
}

/// Leaves an expression to enter.
fn push_enter<'e>(
    e: &'e Expression,
    tasks: &mut Vec<Task<'e>>,
    Ghost(done): Ghost<Seq<Expression>>,
    Ghost(wanted): Ghost<Seq<Expression>>,
)
    requires
        yields(old(tasks)@, done.push(*e), wanted),
    ensures
        final(tasks)@ == old(tasks)@.push(Task::Enter(e)),
        yields(final(tasks)@, done, wanted),
        tasks_size(final(tasks)@) == tasks_size(old(tasks)@) + expression_size(e@),
{
    proof {
        lemma_task_push(tasks@, Task::Enter(e));
    }
    tasks.push(Task::Enter(e));
}

/// Leaves several expressions to enter, the first one next.
fn push_all<'e>(
    expressions: &'e Vec<Expression>,
    tasks: &mut Vec<Task<'e>>,
    Ghost(done): Ghost<Seq<Expression>>,
    Ghost(wanted): Ghost<Seq<Expression>>,
)
    requires
        yields(old(tasks)@, done + expressions@, wanted),
    ensures
        yields(final(tasks)@, done, wanted),
        tasks_size(final(tasks)@) == tasks_size(old(tasks)@) + expressions_size(
            views(expressions@),
            expressions@.len(),
        ),
{
    let ghost all = views(expressions@);
    let mut i: usize = expressions.len();
    assert(expressions@.take(i as int) =~= expressions@);
    while i > 0
        invariant
            all == views(expressions@),
            i <= expressions@.len(),
            yields(tasks@, done + expressions@.take(i as int), wanted),
            tasks_size(tasks@) + expressions_size(all, i as nat) == tasks_size(old(tasks)@)
                + expressions_size(all, expressions@.len()),
        decreases i,
    {
        i = i - 1;
        let ghost before = done + expressions@.take(i as int);
        assert(done + expressions@.take(i + 1) =~= before.push(expressions@[i as int]));
        push_enter(&expressions[i], tasks, Ghost(before), Ghost(wanted));
    }
    assert(done + expressions@.take(0) =~= done);
}

/// Leaves the operands of an expression to enter, the first one next.
fn push_operands<'e>(
    e: &'e Expression,
    tasks: &mut Vec<Task<'e>>,
    Ghost(done): Ghost<Seq<Expression>>,
    Ghost(wanted): Ghost<Seq<Expression>>,
)
    requires
        yields(old(tasks)@, done + parts(*e), wanted),
    ensures
        yields(final(tasks)@, done, wanted),
        tasks_size(final(tasks)@) + 1 == tasks_size(old(tasks)@) + expression_size(e@),
{
    proof {
        lemma_view_children(*e);
        lemma_expression_size(e@);
    }
    match e {
        Expression::Comparison(comparison) => {
            let ghost first = done.push(parts(*e)[0]);
            assert(done + parts(*e) =~= first.push(comparison.right));
            push_enter(&comparison.right, tasks, Ghost(first), Ghost(wanted));
            push_enter(&comparison.left, tasks, Ghost(done), Ghost(wanted));
        },
        Expression::Conjunction(conjunction) => {
            push_all(&conjunction.children, tasks, Ghost(done), Ghost(wanted));
        },
        Expression::Cast(cast) => {
            assert(done + parts(*e) =~= done.push(cast.child));
            push_enter(&cast.child, tasks, Ghost(done), Ghost(wanted));
        },
        Expression::Operator(operator) => {
            push_all(&operator.children, tasks, Ghost(done), Ghost(wanted));
        },
        Expression::Function(function) => {
            push_all(&function.children, tasks, Ghost(done), Ghost(wanted));
        },
        Expression::Aggregate(aggregate) => {
            let ghost inner = done + aggregate.children@;
            if let Some(filter) = &aggregate.filter {
                assert(done + parts(*e) =~= inner.push(*filter));
                push_enter(filter, tasks, Ghost(inner), Ghost(wanted));
            }
            push_all(&aggregate.children, tasks, Ghost(done), Ghost(wanted));
        },
        _ => {
            assert(done + parts(*e) =~= done);
        },
    }
}

/// The number of operands of an expression.
fn operand_count(e: &Expression) -> (r: usize)
    requires
        operands(e@).len() <= usize::MAX,
    ensures
        r == operands(e@).len(),
{
    proof {
        lemma_view_children(*e);
    }
    match e {
        Expression::Comparison(_) => 2,
        Expression::Conjunction(conjunction) => conjunction.children.len(),
        Expression::Cast(_) => 1,
        Expression::Operator(operator) => operator.children.len(),
        Expression::Function(function) => function.children.len(),
        Expression::Aggregate(aggregate) => match &aggregate.filter {
            Some(_) => aggregate.children.len() + 1,
            None => aggregate.children.len(),
        },
        _ => 0,
    }
}

/// Whether an expression itself, apart from its operands, gives one result to
/// all readers.
spec fn is_repeatable(e: ExpressionView) -> bool {
    match e {
        ExpressionView::Function(_, stability, _, _) => stability != FunctionStability::Volatile,
        _ => true,
    }
}

fn repeatable(e: &Expression) -> (r: bool)
    ensures
        r == is_repeatable(e@),
{
    match e {
        Expression::Function(function) => match function.stability {
            FunctionStability::Volatile => false,
            _ => true,
        },
        _ => true,
    }
}

proof fn lemma_can_share(e: ExpressionView)
    ensures
        can_share(e) == (is_repeatable(e) && forall|i: int|
            0 <= i < operands(e).len() ==> can_share(#[trigger] operands(e)[i])),
{
    let parts = operands(e);
    match e {
        ExpressionView::Comparison(_, left, right) => {
            assert(parts[0] == *left && parts[1] == *right);
        },
        ExpressionView::Cast(child, _) => {
            assert(parts[0] == *child);
        },
        ExpressionView::Aggregate(_, children, _, Some(filter), _, _) => {
            assert(parts[children.len() as int] == *filter);
            assert(forall|i: int| 0 <= i < children.len() ==> children[i] == #[trigger] parts[i]);
            if can_share(e) {
                assert forall|i: int| 0 <= i < parts.len() implies can_share(
                    #[trigger] parts[i],
                ) by {
                    if i < children.len() {
                        assert(can_share(children[i]));
                    }
                }
            } else if forall|i: int| 0 <= i < parts.len() ==> can_share(#[trigger] parts[i]) {
                assert forall|i: int| 0 <= i < children.len() implies can_share(
                    #[trigger] children[i],
                ) by {
                    assert(can_share(parts[i]));
                }
                assert(can_share(parts[children.len() as int]));
            }
        },
        _ => {},
    }
}

/// Whether all of the nodes can be shared.
fn all_shareable(graph: &PredicateGraph, list: &Vec<usize>) -> (r: bool)
    requires
        forall|i: int| 0 <= i < list@.len() ==> (#[trigger] list@[i]) < graph.nodes@.len(),
    ensures
        r == (forall|i: int|
            0 <= i < list@.len() ==> graph.nodes@[#[trigger] list@[i] as int].shareable),
{
    let mut i: usize = 0;
    while i < list.len()
        invariant
            i <= list@.len(),
            forall|i: int| 0 <= i < list@.len() ==> (#[trigger] list@[i]) < graph.nodes@.len(),
            forall|k: int|
                0 <= k < i ==> graph.nodes@[#[trigger] list@[k] as int].shareable,
        decreases list@.len() - i,
    {
        if !graph.nodes[list[i]].shareable {
            assert(!graph.nodes@[list@[i as int] as int].shareable);
            return false;
        }
        i = i + 1;
    }
    true
}

/// Whether listed nodes were made for their expressions or for one with which
/// they are one shared node. Flagged ones have been made for them.
spec fn are_answered(
    entries: Seq<Expression>,
    list: Seq<usize>,
    flags: Seq<bool>,
    done: Seq<Expression>,
) -> bool {
    &&& list.len() == done.len()
    &&& flags.len() == done.len()
    &&& forall|i: int|
        0 <= i < list.len() ==> (#[trigger] list[i]) < entries.len() && entries[list[i] as int]
            == done[i] && (flags[i] || is_answer(entries[list[i] as int], done[i], true))
}

/// Whether the flagged nodes differ from one another and from those that were
/// made for an operand.
spec fn are_claimed(
    nodes: Seq<PredicateNode>,
    made: Set<(int, int)>,
    list: Seq<usize>,
    flags: Seq<bool>,
) -> bool {
    &&& flags.len() == list.len()
    &&& forall|i: int, j: int|
        #![trigger flags[i], flags[j]]
        0 <= i < j < list.len() && flags[i] && flags[j] ==> list[i] != list[j]
    &&& forall|i: int, edge: (int, int)|
        #![trigger flags[i], made.contains(edge)]
        0 <= i < list.len() && flags[i] && made.contains(edge) ==> edge_end(nodes, edge) != list[i]
}

/// The flagged operands of a node.
spec fn new_edges(n: int, flags: Seq<bool>) -> Set<(int, int)> {
    Set::new(|edge: (int, int)| edge.0 == n && 0 <= edge.1 < flags.len() && flags[edge.1])
}

/// A node that stands for an expression already is read once more.
proof fn lemma_read_again(
    nodes: Seq<PredicateNode>,
    built: BuiltNodes,
    list: Seq<usize>,
    flags: Seq<bool>,
    done: Seq<Expression>,
    n: usize,
    e: Expression,
)
    requires
        are_answered(built.entries@, list, flags, done),
        are_claimed(nodes, built.made@, list, flags),
        n < built.entries@.len(),
        built.entries@[n as int] == e,
        is_answer(built.entries@[n as int], e, true),
    ensures
        are_answered(built.entries@, list.push(n), flags.push(false), done.push(e)),
        are_claimed(nodes, built.made@, list.push(n), flags.push(false)),
{
    let longer = list.push(n);
    let marks = flags.push(false);
    assert forall|i: int| 0 <= i < longer.len() implies (#[trigger] longer[i])
        < built.entries@.len() && built.entries@[longer[i] as int] == done.push(e)[i] && (marks[i]
        || is_answer(built.entries@[longer[i] as int], done.push(e)[i], true)) by {
        if i < list.len() {
            assert(longer[i] == list[i]);
        }
    }
    assert forall|i: int, edge: (int, int)|
        #![trigger marks[i], built.made@.contains(edge)]
        0 <= i < longer.len() && marks[i] && built.made@.contains(edge) implies edge_end(
        nodes,
        edge,
    ) != longer[i] by {
        assert(flags[i]);
    }
    assert forall|i: int, j: int|
        #![trigger marks[i], marks[j]]
        0 <= i < j < longer.len() && marks[i] && marks[j] implies longer[i] != longer[j] by {
        assert(flags[i] && flags[j]);
    }
}

proof fn lemma_shorter_list(
    nodes: Seq<PredicateNode>,
    built: BuiltNodes,
    list: Seq<usize>,
    flags: Seq<bool>,
    done: Seq<Expression>,
    kept: int,
)
    requires
        are_answered(built.entries@, list, flags, done),
        are_claimed(nodes, built.made@, list, flags),
        0 <= kept <= list.len(),
    ensures
        are_answered(built.entries@, list.take(kept), flags.take(kept), done.take(kept)),
        are_claimed(nodes, built.made@, list.take(kept), flags.take(kept)),
{
    let shorter = list.take(kept);
    let marks = flags.take(kept);
    assert forall|i: int| 0 <= i < shorter.len() implies (#[trigger] shorter[i])
        < built.entries@.len() && built.entries@[shorter[i] as int] == done.take(kept)[i] && (
    marks[i] || is_answer(built.entries@[shorter[i] as int], done.take(kept)[i], true)) by {
        assert(shorter[i] == list[i]);
    }
    assert forall|i: int, edge: (int, int)|
        #![trigger marks[i], built.made@.contains(edge)]
        0 <= i < shorter.len() && marks[i] && built.made@.contains(edge) implies edge_end(
        nodes,
        edge,
    ) != shorter[i] by {
        assert(flags[i]);
    }
    assert forall|i: int, j: int|
        #![trigger marks[i], marks[j]]
        0 <= i < j < shorter.len() && marks[i] && marks[j] implies shorter[i] != shorter[j] by {
        assert(flags[i] && flags[j]);
    }
}

proof fn lemma_links_push(
    nodes: Seq<PredicateNode>,
    node: PredicateNode,
    entries: Seq<Expression>,
    e: Expression,
    made: Set<(int, int)>,
    list: Seq<usize>,
    flags: Seq<bool>,
    done: Seq<Expression>,
)
    requires
        entries.len() == nodes.len(),
        forall|edge: (int, int)| #[trigger] made.contains(edge) ==> is_edge(nodes, edge),
        forall|a: (int, int), b: (int, int)|
            #![trigger made.contains(a), made.contains(b)]
            made.contains(a) && made.contains(b) && a != b ==> edge_end(nodes, a) != edge_end(
                nodes,
                b,
            ),
        forall|edge: (int, int)|
            #![trigger edge_end(nodes, edge)]
            is_edge(nodes, edge) && !made.contains(edge) ==> is_answer(
                entries[edge_end(nodes, edge)],
                parts(entries[edge.0])[edge.1],
                true,
            ),
        forall|k: int, i: int|
            #![trigger nodes[k].children@[i]]
            is_edge(nodes, (k, i)) ==> nodes[k].children@[i] < k,
        are_answered(entries, list, flags, done),
        are_claimed(nodes, made, list, flags),
        parts(e).len() <= list.len(),
        node.children@ == list.skip(list.len() - parts(e).len()),
        done.skip(list.len() - parts(e).len()) == parts(e),
    ensures
        ({
            let all = nodes.push(node);
            let listed = entries.push(e);
            let n = nodes.len() as int;
            let now = made.union(new_edges(n, flags.skip(list.len() - parts(e).len())));
            &&& forall|edge: (int, int)| #[trigger] now.contains(edge) ==> is_edge(all, edge)
            &&& forall|a: (int, int), b: (int, int)|
                #![trigger now.contains(a), now.contains(b)]
                now.contains(a) && now.contains(b) && a != b ==> edge_end(all, a) != edge_end(all, b)
            &&& forall|edge: (int, int)|
                #![trigger edge_end(all, edge)]
                is_edge(all, edge) && !now.contains(edge) ==> is_answer(
                    listed[edge_end(all, edge)],
                    parts(listed[edge.0])[edge.1],
                    true,
                )
        }),
{
    let all = nodes.push(node);
    let listed = entries.push(e);
    let n = nodes.len() as int;
    let kept = list.len() - parts(e).len();
    let marks = flags.skip(kept);
    let added = new_edges(n, marks);
    let now = made.union(added);
    assert forall|edge: (int, int)| #[trigger] now.contains(edge) implies is_edge(all, edge) by {
        if made.contains(edge) {
            assert(is_edge(nodes, edge));
        } else {
            assert(added.contains(edge));
        }
    }
    assert forall|a: (int, int), b: (int, int)|
        #![trigger now.contains(a), now.contains(b)]
        now.contains(a) && now.contains(b) && a != b implies edge_end(all, a) != edge_end(all, b) by {
        if made.contains(a) {
            assert(is_edge(nodes, a));
            assert(edge_end(all, a) == edge_end(nodes, a));
        } else {
            assert(added.contains(a));
            assert(marks[a.1] == flags[kept + a.1]);
            assert(edge_end(all, a) == list[kept + a.1]);
        }
        if made.contains(b) {
            assert(is_edge(nodes, b));
            assert(edge_end(all, b) == edge_end(nodes, b));
        } else {
            assert(added.contains(b));
            assert(marks[b.1] == flags[kept + b.1]);
            assert(edge_end(all, b) == list[kept + b.1]);
        }
        if !made.contains(a) && !made.contains(b) {
            if a.1 < b.1 {
                assert(list[kept + a.1] != list[kept + b.1]);
            } else {
                assert(list[kept + b.1] != list[kept + a.1]);
            }
        }
    }
    assert forall|edge: (int, int)|
        #![trigger edge_end(all, edge)]
        is_edge(all, edge) && !now.contains(edge) implies is_answer(
        listed[edge_end(all, edge)],
        parts(listed[edge.0])[edge.1],
        true,
    ) by {
        if edge.0 < n {
            assert(edge_end(all, edge) == edge_end(nodes, edge));
            assert(nodes[edge.0].children@[edge.1] < edge.0);
            assert(!made.contains(edge));
        } else {
            let i = kept + edge.1;
            assert(edge_end(all, edge) == list[i]);
            assert(!added.contains(edge));
            assert(marks[edge.1] == flags[i]);
            assert(parts(e)[edge.1] == done[i]);
            assert(list[i] < entries.len());
        }
    }
}

proof fn lemma_claims_push(
    nodes: Seq<PredicateNode>,
    node: PredicateNode,
    made: Set<(int, int)>,
    list: Seq<usize>,
    flags: Seq<bool>,
    kept: int,
)
    requires
        nodes.len() <= usize::MAX,
        forall|edge: (int, int)| #[trigger] made.contains(edge) ==> is_edge(nodes, edge),
        forall|k: int, i: int|
            #![trigger nodes[k].children@[i]]
            is_edge(nodes, (k, i)) ==> nodes[k].children@[i] < k,
        are_claimed(nodes, made, list, flags),
        forall|i: int| 0 <= i < list.len() ==> (#[trigger] list[i]) < nodes.len(),
        0 <= kept <= list.len(),
        node.children@ == list.skip(kept),
    ensures
        are_claimed(
            nodes.push(node),
            made.union(new_edges(nodes.len() as int, flags.skip(kept))),
            list.take(kept).push(nodes.len() as usize),
            flags.take(kept).push(true),
        ),
{
    let n = nodes.len() as int;
    let all = nodes.push(node);
    let added = new_edges(n, flags.skip(kept));
    let now = made.union(added);
    let longer = list.take(kept).push(n as usize);
    let marks = flags.take(kept).push(true);
    assert forall|i: int, edge: (int, int)|
        #![trigger marks[i], now.contains(edge)]
        0 <= i < longer.len() && marks[i] && now.contains(edge) implies edge_end(all, edge)
        != longer[i] by {
        if made.contains(edge) {
            assert(is_edge(nodes, edge));
            assert(edge_end(all, edge) == edge_end(nodes, edge));
            assert(nodes[edge.0].children@[edge.1] < edge.0);
            if i < kept {
                assert(flags[i]);
                assert(longer[i] == list[i]);
            }
        } else {
            assert(added.contains(edge));
            let j = kept + edge.1;
            assert(flags.skip(kept)[edge.1] == flags[j]);
            assert(edge_end(all, edge) == list[j]);
            if i < kept {
                assert(flags[i]);
                assert(longer[i] == list[i]);
                assert(list[i] != list[j]);
            }
        }
    }
    assert forall|i: int, j: int|
        #![trigger marks[i], marks[j]]
        0 <= i < j < longer.len() && marks[i] && marks[j] implies longer[i] != longer[j] by {
        assert(longer[i] == list[i]);
        if j < kept {
            assert(longer[j] == list[j]);
            assert(flags[i] && flags[j]);
        }
    }
}

proof fn lemma_answers_push(
    entries: Seq<Expression>,
    e: Expression,
    list: Seq<usize>,
    flags: Seq<bool>,
    done: Seq<Expression>,
    kept: int,
)
    requires
        entries.len() <= usize::MAX,
        are_answered(entries, list, flags, done),
        0 <= kept <= list.len(),
    ensures
        are_answered(
            entries.push(e),
            list.take(kept).push(entries.len() as usize),
            flags.take(kept).push(true),
            done.take(kept).push(e),
        ),
{
    let longer = list.take(kept).push(entries.len() as usize);
    let marks = flags.take(kept).push(true);
    let after = done.take(kept).push(e);
    assert forall|i: int| 0 <= i < longer.len() implies (#[trigger] longer[i])
        < entries.push(e).len() && entries.push(e)[longer[i] as int] == after[i] && (marks[i]
        || is_answer(entries.push(e)[longer[i] as int], after[i], true)) by {
        if i < kept {
            assert(longer[i] == list[i]);
        }
    }
}

/// Whether the roots stand for the expressions: each is the node that was made
/// for its expression, or one that an earlier root reads and with whose
/// expression it is one shared node.
pub open spec fn are_roots(
    built: BuiltNodes,
    nodes: Seq<PredicateNode>,
    roots: Seq<usize>,
    expressions: Seq<Expression>,
) -> bool {
    &&& roots.len() == expressions.len()
    &&& forall|k: int|
        0 <= k < roots.len() ==> (#[trigger] roots[k]) < nodes.len()
            && built.entries@[roots[k] as int] == expressions[k]
    &&& forall|j: int, k: int|
        #![trigger roots[j], roots[k]]
        0 <= j < k < roots.len() && roots[k] <= roots[j] ==> is_answer(
            built.entries@[roots[k] as int],
            expressions[k],
            true,
        )
}

impl<'a, L: ColumnStatisticsLookup> StatisticsResolver<'a, L> {
    fn kind_of(&self, e: &Expression) -> (r: PredicateKind)
        ensures
            resolved_kind(e@, r, self@),
    {
        match e {
            Expression::Constant(constant) => PredicateKind::Constant(constant.value.copy()),
            Expression::ColumnRef(_) | Expression::Reference(_) => {
                let binding = self.binding(e);
                let evidence = self.evidence(binding);
                PredicateKind::Column { binding, evidence }
            },
            Expression::Comparison(comparison) => PredicateKind::Comparison(
                comparison.comparison_type,
            ),
            Expression::Conjunction(conjunction) => match conjunction.conjunction_type {
                ConjunctionType::And => PredicateKind::And,
                ConjunctionType::Or => PredicateKind::Or,
            },
            Expression::Operator(operator) => PredicateKind::Operator(operator.operator_type),
            Expression::Function(function) => PredicateKind::Function(function.function.intrinsic),
            _ => PredicateKind::Other,
        }
    }

    /// Adds the nodes of an expression. A shared part becomes one node, whether
    /// it occurs again in the expression or was added before. Expressions can
    /// be deep, so what is left to do stands in a list.
    pub fn add_expression(
        &self,
        e: &Expression,
        graph: &mut PredicateGraph,
        built: &mut BuiltNodes,
    ) -> (r: usize)
        requires
            old(graph).wf(),
            old(built).hold(old(graph).nodes@, self@),
        ensures
            final(graph).wf(),
            final(built).hold(final(graph).nodes@, self@),
            extends(final(graph).nodes@, old(graph).nodes@),
            old(built).entries@.is_prefix_of(final(built).entries@),
            r < final(graph).nodes@.len(),
            final(built).entries@[r as int] == *e,
            r < old(graph).nodes@.len() ==> is_answer(final(built).entries@[r as int], *e, true),
    {
        let ghost earlier = built.entries@;
        let ghost wanted = seq![*e];
        let ghost mut done: Seq<Expression> = Seq::empty();
        let ghost mut flags: Seq<bool> = Seq::empty();
        let mut list: Vec<usize> = Vec::new();
        let mut tasks: Vec<Task> = Vec::new();
        proof {
            assert(done.push(*e) =~= wanted);
            assert(graph.nodes@.take(graph.nodes@.len() as int) =~= graph.nodes@);
        }
        push_enter(e, &mut tasks, Ghost(done), Ghost(wanted));
        while tasks.len() > 0
            invariant
                wanted == seq![*e],
                earlier == old(built).entries@,
                earlier.len() == old(graph).nodes@.len(),
                graph.wf(),
                built.hold(graph.nodes@, self@),
                extends(graph.nodes@, old(graph).nodes@),
                earlier.is_prefix_of(built.entries@),
                are_answered(built.entries@, list@, flags, done),
                are_claimed(graph.nodes@, built.made@, list@, flags),
                forall|i: int| 0 <= i < list@.len() && #[trigger] flags[i] ==> list@[i]
                    >= earlier.len(),
                yields(tasks@, done, wanted),
            decreases tasks_size(tasks@), tasks@.len(),
        {
            let ghost before = tasks@;
            let ghost nodes = graph.nodes@;
            let ghost listed = list@;
            let ghost known = done;
            let ghost marks = flags;
            match tasks.pop() {
                Some(Task::Enter(x)) => {
                    assert(tasks@ =~= before.drop_last());
                    proof {
                        lemma_expression_size(x@);
                    }
                    match find_shared(&built.entries, x) {
                        Some(n) => {
                            list.push(n);
                            proof {
                                done = done.push(*x);
                                flags = flags.push(false);
                                lemma_read_again(
                                    graph.nodes@,
                                    *built,
                                    listed,
                                    marks,
                                    known,
                                    n,
                                    *x,
                                );
                            }
                        },
                        None => {
                            let ghost inner = done + parts(*x);
                            let ghost rest = tasks@;
                            proof {
                                let kept = inner.len() - parts(*x).len();
                                assert(inner.skip(kept) =~= parts(*x));
                                assert(inner.take(kept) =~= done);
                                lemma_task_push(rest, Task::Finish(x));
                            }
                            tasks.push(Task::Finish(x));
                            push_operands(x, &mut tasks, Ghost(done), Ghost(wanted));
                        },
                    }
                },
                Some(Task::Finish(x)) => {
                    proof {
                        assert(tasks@ =~= before.drop_last());
                        lemma_parts(*x);
                    }
                    let size: usize = list.len();
                    assert(operands(x@).len() <= size);
                    let count: usize = operand_count(x);
                    let kept: usize = size - count;
                    let children = list.split_off(kept);
                    proof {
                        assert(children@ =~= listed.skip(kept as int));
                        assert(list@ =~= listed.take(kept as int));
                        done = known.take(kept as int).push(*x);
                    }
                    match find_shared(&built.entries, x) {
                        Some(n) => {
                            proof {
                                lemma_shorter_list(
                                    graph.nodes@,
                                    *built,
                                    listed,
                                    marks,
                                    known,
                                    kept as int,
                                );
                                flags = marks.take(kept as int).push(false);
                                lemma_read_again(
                                    graph.nodes@,
                                    *built,
                                    list@,
                                    marks.take(kept as int),
                                    known.take(kept as int),
                                    n,
                                    *x,
                                );
                            }
                            list.push(n);
                        },
                        None => {
                            let n: usize = self.finish(
                                x,
                                children,
                                graph,
                                built,
                                Ghost(listed),
                                Ghost(marks),
                                Ghost(known),
                            );
                            list.push(n);
                            proof {
                                flags = marks.take(kept as int).push(true);
                                lemma_extends_again(old(graph).nodes@, nodes, graph.nodes@);
                            }
                        },
                    }
                },
                None => {},
            }
        }
        assert(list@.len() == 1);
        assert(done[0] == *e);
        assert(built.entries@[list@[0] as int] == done[0]);
        list[0]
    }

    /// Adds the node of an expression whose operands stand at the end of a list
    /// of nodes, and which is no shared node of an earlier one.
    fn finish(
        &self,
        e: &Expression,
        children: Vec<usize>,
        graph: &mut PredicateGraph,
        built: &mut BuiltNodes,
        Ghost(list): Ghost<Seq<usize>>,
        Ghost(flags): Ghost<Seq<bool>>,
        Ghost(done): Ghost<Seq<Expression>>,
    ) -> (r: usize)
        requires
            old(graph).wf(),
            old(built).hold(old(graph).nodes@, self@),
            is_first_shared(old(built).entries@, *e, None),
            are_answered(old(built).entries@, list, flags, done),
            are_claimed(old(graph).nodes@, old(built).made@, list, flags),
            parts(*e).len() <= list.len(),
            children@ == list.skip(list.len() - parts(*e).len()),
            done.skip(list.len() - parts(*e).len()) == parts(*e),
        ensures
            final(graph).wf(),
            final(built).hold(final(graph).nodes@, self@),
            extends(final(graph).nodes@, old(graph).nodes@),
            final(built).entries@ == old(built).entries@.push(*e),
            r == old(graph).nodes@.len(),
            ({
                let kept = list.len() - parts(*e).len();
                &&& are_answered(
                    final(built).entries@,
                    list.take(kept).push(r),
                    flags.take(kept).push(true),
                    done.take(kept).push(*e),
                )
                &&& are_claimed(
                    final(graph).nodes@,
                    final(built).made@,
                    list.take(kept).push(r),
                    flags.take(kept).push(true),
                )
            }),
    {
        let ghost before = graph.nodes@;
        let ghost entries = built.entries@;
        let ghost made = built.made@;
        let ghost kept = list.len() - parts(*e).len();
        proof {
            lemma_parts(*e);
            assert forall|i: int| 0 <= i < children@.len() implies represents(
                before,
                #[trigger] children@[i] as int,
                operands(e@)[i],
                self@,
            ) by {
                assert(children@[i] == list[kept + i]);
                assert(parts(*e)[i] == done[kept + i]);
                assert(entries[list[kept + i] as int] == done[kept + i]);
                assert(operands(e@)[i] == views(parts(*e))[i]);
            }
            lemma_can_share(e@);
            assert forall|i: int| 0 <= i < children@.len() implies before[
                #[trigger] children@[i] as int
            ].shareable == can_share(operands(e@)[i]) by {
                assert(represents(before, children@[i] as int, operands(e@)[i], self@));
            }
        }
        let shared: bool = all_shareable(graph, &children);
        proof {
            if shared {
                assert forall|i: int| 0 <= i < operands(e@).len() implies can_share(
                    #[trigger] operands(e@)[i],
                ) by {
                    assert(before[children@[i] as int].shareable);
                }
            } else {
                let i = choose|i: int|
                    0 <= i < children@.len() && !before[#[trigger] children@[i] as int].shareable;
                assert(!can_share(operands(e@)[i]));
            }
        }
        let shareable: bool = repeatable(e) && shared;
        let kind = self.kind_of(e);
        let node = PredicateNode { kind, children, shareable };
        let n: usize = graph.add_node(node);
        built.entries.push(e.copy());
        built.made = Ghost(made.union(new_edges(n as int, flags.skip(kept))));
        proof {
            assert(graph.nodes@ == before.push(node));
            assert(graph.nodes@.take(before.len() as int) =~= before);
            assert(built.entries@ =~= entries.push(*e));
            assert forall|i: int|
                #![trigger graph.nodes@[n as int].children@[i]]
                0 <= i < node.children@.len() implies node.children@[i] < n && represents(
                graph.nodes@,
                node.children@[i] as int,
                operands(e@)[i],
                self@,
            ) by {
                lemma_represents_push(
                    before,
                    node,
                    node.children@[i] as int,
                    operands(e@)[i],
                    self@,
                );
            }
            assert(represents(graph.nodes@, n as int, e@, self@));
            assert forall|k: int| 0 <= k < graph.nodes@.len() implies represents(
                graph.nodes@,
                k,
                (#[trigger] built.entries@[k])@,
                self@,
            ) by {
                if k < before.len() {
                    assert(built.entries@[k] == entries[k]);
                    lemma_represents_push(before, node, k, entries[k]@, self@);
                }
            }
            assert forall|i: int, k: int|
                #![trigger built.entries@[i], built.entries@[k]]
                0 <= i < k < built.entries@.len() implies is_answer(
                built.entries@[i],
                built.entries@[k],
                false,
            ) by {
                assert(built.entries@[i] == entries[i]);
                if k < entries.len() {
                    assert(built.entries@[k] == entries[k]);
                }
            }
            assert forall|k: int, i: int|
                #![trigger before[k].children@[i]]
                is_edge(before, (k, i)) implies before[k].children@[i] < k by {
                assert(represents(before, k, entries[k]@, self@));
            }
            lemma_links_push(before, node, entries, *e, made, list, flags, done);
            lemma_claims_push(before, node, made, list, flags, kept);
            lemma_answers_push(entries, *e, list, flags, done, kept);
        }
        n
    }

    /// The graph of several expressions, with one root for each.
    pub fn graph_of(&self, expressions: &Vec<Expression>) -> (r: (
        PredicateGraph,
        Vec<usize>,
        BuiltNodes,
    ))
        ensures
            r.0.wf(),
            r.2.hold(r.0.nodes@, self@),
            are_roots(r.2, r.0.nodes@, r.1@, expressions@),
    {
        let mut graph = PredicateGraph::new();
        let mut built = BuiltNodes::new();
        let mut roots: Vec<usize> = Vec::new();
        let mut i: usize = 0;
        assert(graph.nodes@ =~= Seq::empty());
        assert(expressions@.take(0) =~= Seq::empty());
        while i < expressions.len()
            invariant
                graph.wf(),
                built.hold(graph.nodes@, self@),
                i <= expressions@.len(),
                are_roots(built, graph.nodes@, roots@, expressions@.take(i as int)),
            decreases expressions@.len() - i,
        {
            let ghost earlier = built.entries@;
            let ghost listed = roots@;
            let root: usize = self.add_expression(&expressions[i], &mut graph, &mut built);
            roots.push(root);
            proof {
                let now = expressions@.take(i + 1);
                assert forall|k: int| 0 <= k < roots@.len() implies ({
                    &&& (#[trigger] roots@[k]) < graph.nodes@.len()
                    &&& built.entries@[roots@[k] as int] == now[k]
                }) by {
                    if k < listed.len() {
                        assert(roots@[k] == listed[k]);
                        assert(now[k] == expressions@.take(i as int)[k]);
                        assert(built.entries@[listed[k] as int] == earlier[listed[k] as int]);
                    }
                }
                assert forall|j: int, k: int|
                    #![trigger roots@[j], roots@[k]]
                    0 <= j < k < roots@.len() && roots@[k] <= roots@[j] implies is_answer(
                    built.entries@[roots@[k] as int],
                    now[k],
                    true,
                ) by {
                    assert(roots@[j] == listed[j]);
                    if k < listed.len() {
                        assert(roots@[k] == listed[k]);
                        assert(now[k] == expressions@.take(i as int)[k]);
                        assert(built.entries@[listed[k] as int] == earlier[listed[k] as int]);
                    }
                }
            }
            i = i + 1;
        }
        assert(expressions@.take(i as int) =~= expressions@);
        (graph, roots, built)
    }
}

} // verus!
