//! What the nodes of a predicate graph come to on a row.

use vstd::prelude::*;

use crate::estimate::selectivity::finite::{
    all_facts, column_facts, finite_filter, integral_literal, term_facts, terms_filter, ValueFact,
    ValueForm,
};
use crate::estimate::selectivity::flatten::{
    are_nodes, associative_terms, child_paths, flattened, is_term, occurrences, paths,
    terms_are_the_occurrences,
};
use crate::cost_model::named_binding;
use crate::estimate::selectivity::formula::{
    atomic_selectivity, like_selectivity, AtomicSelectivity, DefaultSelectivity,
};
use crate::estimate::selectivity::integral::{
    coordinates_keep_the_order, integral_value, satisfies, IntegralRangeBound,
};
use crate::estimate::selectivity::like::{pattern_shape, LikePatternShape};
use crate::estimate::selectivity::predicate::{
    column_comparison, column_of, is_boolean, literal_of, node_wf, point_of, scope, single_column,
    PredicateKind, PredicateNode,
};
use crate::estimate::selectivity::range::{bounds_measure, range_constraint, RangeMeasure};
use crate::estimate::selectivity::resolve::{can_share, resolved_binding, Resolution};
use crate::estimate::selectivity::steps::graph_wf;
use crate::expression::meaning::{has_part, lemma_has_part};
use crate::expression::{ColumnRefExpression, ExpressionView, ReferenceExpression};
use crate::types::{ColumnBinding, ComparisonType, ConjunctionType, OperatorType};
use crate::value::{Value, ValueView};

verus! {

/// Whether a node is true of a row as its inputs say.
pub open spec fn is_read(
    nodes: Seq<PredicateNode>,
    n: int,
    truth: spec_fn(int) -> bool,
    value: spec_fn(int) -> Option<int>,
) -> bool {
    let children = nodes[n].children@;
    match nodes[n].kind {
        PredicateKind::And => truth(n) <==> forall|i: int|
            0 <= i < children.len() ==> truth(#[trigger] children[i] as int),
        PredicateKind::Or => truth(n) <==> exists|i: int|
            0 <= i < children.len() && truth(#[trigger] children[i] as int),
        PredicateKind::Comparison(comparison) => truth(n) <==> comparison.is_true_of(
            value(children[0] as int),
            value(children[1] as int),
        ),
        PredicateKind::Operator(OperatorType::In) => truth(n) <==> exists|i: int|
            1 <= i < children.len() && value(children[0] as int) is Some && value(
                #[trigger] children[i] as int,
            ) == value(children[0] as int),
        _ => true,
    }
}

/// Whether `truth` and `value` read a graph on a row: predicates are true as their
/// inputs say, columns have the values of the row, and integral constants are where
/// they lie in their domain.
pub open spec fn reads_graph(
    nodes: Seq<PredicateNode>,
    truth: spec_fn(int) -> bool,
    value: spec_fn(int) -> Option<int>,
    row: spec_fn(ColumnBinding) -> Option<int>,
) -> bool {
    &&& forall|n: int| 0 <= n < nodes.len() ==> #[trigger] is_read(nodes, n, truth, value)
    &&& forall|n: int|
        0 <= n < nodes.len() && column_of(#[trigger] nodes[n]) is Some ==> value(n) == row(
            column_of(nodes[n])->0,
        )
    &&& forall|n: int|
        0 <= n < nodes.len() && integral_literal(#[trigger] nodes[n]) is Some ==> value(n) == Some(
            (integral_literal(nodes[n])->0).coordinate as int,
        )
}

/// Whether a node settles a chain that it is an operand of: one that is false a
/// conjunction, one that is true a disjunction.
spec fn settles(kind: ConjunctionType, truth: spec_fn(int) -> bool, n: int) -> bool {
    match kind {
        ConjunctionType::And => !truth(n),
        ConjunctionType::Or => truth(n),
    }
}

spec fn settling(
    nodes: Seq<PredicateNode>,
    kind: ConjunctionType,
    truth: spec_fn(int) -> bool,
    n: int,
    term: int,
) -> bool {
    is_term(nodes, kind, term) && paths(nodes, kind, n, term) > 0 && settles(kind, truth, term)
}

proof fn lemma_child_paths(
    nodes: Seq<PredicateNode>,
    kind: ConjunctionType,
    n: int,
    k: nat,
    term: int,
)
    requires
        graph_wf(nodes),
        0 <= n < nodes.len(),
        k <= nodes[n].children@.len(),
    ensures
        child_paths(nodes, kind, n, k, term) > 0 <==> exists|i: int|
            0 <= i < k && paths(nodes, kind, #[trigger] nodes[n].children@[i] as int, term) > 0,
    decreases k,
{
    if k > 0 {
        lemma_child_paths(nodes, kind, n, (k - 1) as nat, term);
        assert(node_wf(nodes, n));
        assert(nodes[n].children@[k - 1] < n);
    }
}

proof fn lemma_settled(
    nodes: Seq<PredicateNode>,
    kind: ConjunctionType,
    truth: spec_fn(int) -> bool,
    value: spec_fn(int) -> Option<int>,
    n: int,
)
    requires
        graph_wf(nodes),
        0 <= n < nodes.len(),
        forall|m: int| 0 <= m < nodes.len() ==> #[trigger] is_read(nodes, m, truth, value),
    ensures
        settles(kind, truth, n) <==> exists|term: int| #[trigger]
            settling(nodes, kind, truth, n, term),
    decreases n,
{
    let children = nodes[n].children@;
    if is_boolean(nodes[n], kind) {
        assert(is_read(nodes, n, truth, value));
        assert(node_wf(nodes, n));
        if settles(kind, truth, n) {
            let i = choose|i: int|
                0 <= i < children.len() && settles(kind, truth, #[trigger] children[i] as int);
            lemma_settled(nodes, kind, truth, value, children[i] as int);
            let term = choose|term: int| #[trigger]
                settling(nodes, kind, truth, children[i] as int, term);
            lemma_child_paths(nodes, kind, n, children.len(), term);
            assert(settling(nodes, kind, truth, n, term));
        }
        if exists|term: int| #[trigger] settling(nodes, kind, truth, n, term) {
            let term = choose|term: int| #[trigger] settling(nodes, kind, truth, n, term);
            lemma_child_paths(nodes, kind, n, children.len(), term);
            let i = choose|i: int|
                0 <= i < children.len() && paths(nodes, kind, #[trigger] children[i] as int, term)
                    > 0;
            assert(settling(nodes, kind, truth, children[i] as int, term));
            lemma_settled(nodes, kind, truth, value, children[i] as int);
            assert(settles(kind, truth, children[i] as int));
        }
    } else {
        if settles(kind, truth, n) {
            assert(settling(nodes, kind, truth, n, n));
        }
    }
}

proof fn lemma_occurrences(
    nodes: Seq<PredicateNode>,
    kind: ConjunctionType,
    roots: Seq<usize>,
    k: nat,
    term: int,
)
    requires
        k <= roots.len(),
    ensures
        occurrences(nodes, kind, roots, k, term) > 0 <==> exists|i: int|
            0 <= i < k && paths(nodes, kind, #[trigger] roots[i] as int, term) > 0,
    decreases k,
{
    if k > 0 {
        lemma_occurrences(nodes, kind, roots, (k - 1) as nat, term);
        assert(roots[k - 1] == roots[k - 1]);
    }
}

/// However a chain is nested, its roots are all true of a row exactly where its
/// terms are, and one of its roots is exactly where one of its terms is.
pub proof fn flattening_keeps_the_meaning(
    nodes: Seq<PredicateNode>,
    roots: Seq<usize>,
    truth: spec_fn(int) -> bool,
    value: spec_fn(int) -> Option<int>,
)
    requires
        graph_wf(nodes),
        are_nodes(nodes, roots),
        nodes.len() <= usize::MAX,
        forall|m: int| 0 <= m < nodes.len() ==> #[trigger] is_read(nodes, m, truth, value),
    ensures
        ({
            let terms = associative_terms(nodes, ConjunctionType::And, roots);
            (forall|i: int| 0 <= i < roots.len() ==> truth(#[trigger] roots[i] as int))
                <==> forall|j: int| 0 <= j < terms.len() ==> truth((#[trigger] terms[j]).0 as int)
        }),
        ({
            let terms = associative_terms(nodes, ConjunctionType::Or, roots);
            (exists|i: int| 0 <= i < roots.len() && truth(#[trigger] roots[i] as int)) <==> exists|
                j: int,
            |
                0 <= j < terms.len() && truth((#[trigger] terms[j]).0 as int)
        }),
{
    lemma_chain(nodes, ConjunctionType::And, roots, truth, value);
    lemma_chain(nodes, ConjunctionType::Or, roots, truth, value);
    let all = associative_terms(nodes, ConjunctionType::And, roots);
    if forall|i: int| 0 <= i < roots.len() ==> truth(#[trigger] roots[i] as int) {
        assert forall|j: int| 0 <= j < all.len() implies truth((#[trigger] all[j]).0 as int) by {
            if !truth(all[j].0 as int) {
                assert(settles(ConjunctionType::And, truth, all[j].0 as int));
                let i = choose|i: int|
                    0 <= i < roots.len() && settles(
                        ConjunctionType::And,
                        truth,
                        #[trigger] roots[i] as int,
                    );
                assert(truth(roots[i] as int));
            }
        }
    }
    if forall|j: int| 0 <= j < all.len() ==> truth((#[trigger] all[j]).0 as int) {
        assert forall|i: int| 0 <= i < roots.len() implies truth(#[trigger] roots[i] as int) by {
            if !truth(roots[i] as int) {
                assert(settles(ConjunctionType::And, truth, roots[i] as int));
                let j = choose|j: int|
                    0 <= j < all.len() && settles(
                        ConjunctionType::And,
                        truth,
                        (#[trigger] all[j]).0 as int,
                    );
                assert(truth(all[j].0 as int));
            }
        }
    }
    let some = associative_terms(nodes, ConjunctionType::Or, roots);
    if exists|i: int| 0 <= i < roots.len() && truth(#[trigger] roots[i] as int) {
        let i = choose|i: int| 0 <= i < roots.len() && truth(#[trigger] roots[i] as int);
        assert(settles(ConjunctionType::Or, truth, roots[i] as int));
        let j = choose|j: int|
            0 <= j < some.len() && settles(ConjunctionType::Or, truth, (#[trigger] some[j]).0 as int);
        assert(truth(some[j].0 as int));
    }
    if exists|j: int| 0 <= j < some.len() && truth((#[trigger] some[j]).0 as int) {
        let j = choose|j: int| 0 <= j < some.len() && truth((#[trigger] some[j]).0 as int);
        assert(settles(ConjunctionType::Or, truth, some[j].0 as int));
        let i = choose|i: int|
            0 <= i < roots.len() && settles(ConjunctionType::Or, truth, #[trigger] roots[i] as int);
        assert(truth(roots[i] as int));
    }
}

proof fn lemma_chain(
    nodes: Seq<PredicateNode>,
    kind: ConjunctionType,
    roots: Seq<usize>,
    truth: spec_fn(int) -> bool,
    value: spec_fn(int) -> Option<int>,
)
    requires
        graph_wf(nodes),
        are_nodes(nodes, roots),
        nodes.len() <= usize::MAX,
        forall|m: int| 0 <= m < nodes.len() ==> #[trigger] is_read(nodes, m, truth, value),
    ensures
        (exists|i: int| 0 <= i < roots.len() && settles(kind, truth, #[trigger] roots[i] as int))
            <==> exists|j: int|
            0 <= j < associative_terms(nodes, kind, roots).len() && settles(
                kind,
                truth,
                (#[trigger] associative_terms(nodes, kind, roots)[j]).0 as int,
            ),
{
    let terms = associative_terms(nodes, kind, roots);
    terms_are_the_occurrences(nodes, kind, roots);
    assert(flattened(terms, nodes, kind, roots));
    if exists|i: int| 0 <= i < roots.len() && settles(kind, truth, #[trigger] roots[i] as int) {
        let i = choose|i: int|
            0 <= i < roots.len() && settles(kind, truth, #[trigger] roots[i] as int);
        assert(roots[i] < nodes.len());
        lemma_settled(nodes, kind, truth, value, roots[i] as int);
        let term = choose|term: int| #[trigger] settling(nodes, kind, truth, roots[i] as int, term);
        lemma_occurrences(nodes, kind, roots, roots.len(), term);
        assert(occurrences(nodes, kind, roots, roots.len(), term) > 0);
        let j = choose|j: int| 0 <= j < terms.len() && (#[trigger] terms[j]).0 == term;
        assert(settles(kind, truth, terms[j].0 as int));
    }
    if exists|j: int| 0 <= j < terms.len() && settles(kind, truth, (#[trigger] terms[j]).0 as int) {
        let j = choose|j: int|
            0 <= j < terms.len() && settles(kind, truth, (#[trigger] terms[j]).0 as int);
        let term = terms[j].0 as int;
        lemma_occurrences(nodes, kind, roots, roots.len(), term);
        let i = choose|i: int|
            0 <= i < roots.len() && paths(nodes, kind, #[trigger] roots[i] as int, term) > 0;
        assert(settling(nodes, kind, truth, roots[i] as int, term));
        assert(roots[i] < nodes.len());
        lemma_settled(nodes, kind, truth, value, roots[i] as int);
        assert(settles(kind, truth, roots[i] as int));
    }
}

/// Whether a row has one of the listed values in its column.
pub open spec fn has_listed_value(
    facts: Seq<ValueFact>,
    row: spec_fn(ColumnBinding) -> Option<int>,
) -> bool {
    exists|i: int|
        0 <= i < facts.len() && row((#[trigger] facts[i]).binding) == Some(
            facts[i].coordinate as int,
        )
}

/// A single predicate that admits only listed values of a column is true only of
/// rows that have one of them there.
pub proof fn admitted_values_are_listed(
    nodes: Seq<PredicateNode>,
    n: int,
    form: ValueForm,
    truth: spec_fn(int) -> bool,
    value: spec_fn(int) -> Option<int>,
    row: spec_fn(ColumnBinding) -> Option<int>,
)
    requires
        graph_wf(nodes),
        0 <= n < nodes.len(),
        reads_graph(nodes, truth, value, row),
        term_facts(nodes, n, form) is Some,
        truth(n),
    ensures
        has_listed_value(term_facts(nodes, n, form)->0, row),
{
    let facts = term_facts(nodes, n, form)->0;
    let children = nodes[n].children@;
    assert(is_read(nodes, n, truth, value));
    assert(node_wf(nodes, n));
    match nodes[n].kind {
        PredicateKind::Comparison(comparison) => {
            let found = column_comparison(nodes, n)->0;
            assert(children[0] < n && children[1] < n);
            let constants = seq![found.constant];
            assert(column_facts(nodes, found.column as int, constants) == Some(facts));
            assert(integral_literal(nodes[constants[0] as int]) is Some);
            assert(integral_literal(nodes[found.constant as int]) is Some);
            assert(column_of(nodes[found.column as int]) is Some);
            assert(value(found.constant as int) == Some(facts[0].coordinate as int));
            assert(row(facts[0].binding) == Some(facts[0].coordinate as int));
        },
        _ => {
            let constants = children.skip(1);
            let i = choose|i: int|
                1 <= i < children.len() && value(children[0] as int) is Some && value(
                    #[trigger] children[i] as int,
                ) == value(children[0] as int);
            assert(children[0] < n && children[i] < n);
            assert(constants[i - 1] == children[i]);
            assert(integral_literal(nodes[constants[i - 1] as int]) is Some);
            assert(column_of(nodes[children[0] as int]) is Some);
            assert(value(children[i] as int) == Some(facts[i - 1].coordinate as int));
            assert(row(facts[i - 1].binding) == Some(facts[i - 1].coordinate as int));
        },
    }
}

proof fn lemma_all_facts(
    nodes: Seq<PredicateNode>,
    terms: Seq<(usize, u64)>,
    form: ValueForm,
    k: nat,
    j: int,
    row: spec_fn(ColumnBinding) -> Option<int>,
)
    requires
        0 <= j < k <= terms.len(),
        all_facts(nodes, terms, form, k) is Some,
        term_facts(nodes, terms[j].0 as int, form) is Some ==> has_listed_value(
            term_facts(nodes, terms[j].0 as int, form)->0,
            row,
        ),
    ensures
        has_listed_value(all_facts(nodes, terms, form, k)->0, row),
    decreases k,
{
    let all = all_facts(nodes, terms, form, k)->0;
    let before = all_facts(nodes, terms, form, (k - 1) as nat)->0;
    let more = term_facts(nodes, terms[k - 1].0 as int, form)->0;
    assert(all == before + more);
    if j < k - 1 {
        lemma_all_facts(nodes, terms, form, (k - 1) as nat, j, row);
        let i = choose|i: int|
            0 <= i < before.len() && row((#[trigger] before[i]).binding) == Some(
                before[i].coordinate as int,
            );
        assert(all[i] == before[i]);
    } else {
        let i = choose|i: int|
            0 <= i < more.len() && row((#[trigger] more[i]).binding) == Some(
                more[i].coordinate as int,
            );
        assert(all[before.len() + i] == more[i]);
    }
}

proof fn lemma_term_facts(
    nodes: Seq<PredicateNode>,
    terms: Seq<(usize, u64)>,
    form: ValueForm,
    k: nat,
    j: int,
)
    requires
        0 <= j < k <= terms.len(),
        all_facts(nodes, terms, form, k) is Some,
    ensures
        term_facts(nodes, terms[j].0 as int, form) is Some,
    decreases k,
{
    if j < k - 1 {
        lemma_term_facts(nodes, terms, form, (k - 1) as nat, j);
    }
}

/// A finite filter is true only of rows that have one of its values in its column:
/// an equality, a membership test, or however nested a disjunction of them.
pub proof fn finite_filter_admits_its_values(
    nodes: Seq<PredicateNode>,
    n: int,
    truth: spec_fn(int) -> bool,
    value: spec_fn(int) -> Option<int>,
    row: spec_fn(ColumnBinding) -> Option<int>,
)
    requires
        graph_wf(nodes),
        0 <= n < nodes.len() <= usize::MAX,
        reads_graph(nodes, truth, value, row),
        finite_filter(nodes, n) is Some,
        truth(n),
    ensures
        ({
            let filter = finite_filter(nodes, n)->0;
            row(filter.binding) matches Some(x) && 0 <= x <= u128::MAX && filter.values.contains(
                x as u128,
            )
        }),
{
    let roots = seq![n as usize];
    let kind = ConjunctionType::Or;
    let terms = associative_terms(nodes, kind, roots);
    let form = ValueForm::Filter;
    flattening_keeps_the_meaning(nodes, roots, truth, value);
    assert(truth(roots[0] as int));
    let j = choose|j: int| 0 <= j < terms.len() && truth((#[trigger] terms[j]).0 as int);
    terms_are_the_occurrences(nodes, kind, roots);
    assert(is_term(nodes, kind, terms[j].0 as int));
    lemma_term_facts(nodes, terms, form, terms.len(), j);
    admitted_values_are_listed(nodes, terms[j].0 as int, form, truth, value, row);
    lemma_all_facts(nodes, terms, form, terms.len(), j, row);
    let facts = all_facts(nodes, terms, form, terms.len())->0;
    let filter = finite_filter(nodes, n)->0;
    let i = choose|i: int|
        0 <= i < facts.len() && row((#[trigger] facts[i]).binding) == Some(
            facts[i].coordinate as int,
        );
    let coordinates = facts.map_values(|fact: ValueFact| fact.coordinate);
    assert(coordinates[i] == facts[i].coordinate);
    assert(coordinates.contains(facts[i].coordinate));
    assert(filter.values.contains(facts[i].coordinate));
}

/// A range condition admits of its column what the comparison that it stands for is
/// true of.
pub proof fn range_condition_keeps_the_comparison(
    nodes: Seq<PredicateNode>,
    n: int,
    truth: spec_fn(int) -> bool,
    value: spec_fn(int) -> Option<int>,
    row: spec_fn(ColumnBinding) -> Option<int>,
    x: int,
)
    requires
        graph_wf(nodes),
        0 <= n < nodes.len(),
        reads_graph(nodes, truth, value, row),
        range_constraint(nodes, n) is Some,
        row((range_constraint(nodes, n)->0).binding) == Some(x),
    ensures
        truth(n) <==> satisfies(
            x,
            (range_constraint(nodes, n)->0).bound,
            (range_constraint(nodes, n)->0).constant as int,
        ),
{
    let found = column_comparison(nodes, n)->0;
    assert(is_read(nodes, n, truth, value));
    assert(node_wf(nodes, n));
    let children = nodes[n].children@;
    assert(children[0] < n && children[1] < n);
    assert(column_of(nodes[found.column as int]) is Some);
    assert(integral_literal(nodes[found.constant as int]) is Some);
}

/// The property of calling a function that may give another result each time.
pub open spec fn calls_volatile() -> spec_fn(ExpressionView) -> bool {
    |e: ExpressionView|
        e matches ExpressionView::Function(_, stability, _, _) && stability is Volatile
}

/// One evaluation serves all readers exactly where no function that may give
/// another result each time is called, however deep.
pub proof fn shared_evaluations_call_nothing_volatile(e: ExpressionView)
    ensures
        can_share(e) <==> !has_part(e, calls_volatile()),
    decreases e,
{
    lemma_has_part(e, calls_volatile());
    match e {
        ExpressionView::Comparison(_, left, right) => {
            shared_evaluations_call_nothing_volatile(*left);
            shared_evaluations_call_nothing_volatile(*right);
        },
        ExpressionView::Cast(child, _) => {
            shared_evaluations_call_nothing_volatile(*child);
        },
        ExpressionView::Conjunction(_, children)
        | ExpressionView::Operator(_, children, _)
        | ExpressionView::Function(_, _, children, _) => {
            assert forall|i: int| 0 <= i < children.len() implies can_share(#[trigger] children[i])
                == !has_part(children[i], calls_volatile()) by {
                shared_evaluations_call_nothing_volatile(children[i]);
            }
        },
        ExpressionView::Aggregate(_, children, _, filter, _, _) => {
            assert forall|i: int| 0 <= i < children.len() implies can_share(#[trigger] children[i])
                == !has_part(children[i], calls_volatile()) by {
                shared_evaluations_call_nothing_volatile(children[i]);
            }
            if let Some(filter) = filter {
                shared_evaluations_call_nothing_volatile(*filter);
            }
        },
        _ => {},
    }
}

/// A node with another kind reads what it read before.
pub open spec fn with_kind(
    nodes: Seq<PredicateNode>,
    n: int,
    after: Seq<PredicateNode>,
    kind: PredicateKind,
) -> bool {
    &&& 0 <= n < nodes.len()
    &&& after.len() == nodes.len()
    &&& after[n].kind == kind
    &&& after[n].children == nodes[n].children
    &&& forall|m: int| 0 <= m < nodes.len() && m != n ==> #[trigger] after[m] == nodes[m]
    &&& forall|i: int|
        0 <= i < nodes[n].children@.len() ==> 0 <= #[trigger] nodes[n].children@[i] < n
}

/// A membership test and its opposite are measured by the same lookups, and so are
/// the two tests for NULL by the same default: what the one passes the other rejects.
pub proof fn opposite_tests_are_complements(
    nodes: Seq<PredicateNode>,
    after: Seq<PredicateNode>,
    n: int,
)
    ensures
        nodes[n].kind == PredicateKind::Operator(OperatorType::In) && with_kind(
            nodes,
            n,
            after,
            PredicateKind::Operator(OperatorType::NotIn),
        ) ==> (atomic_selectivity(nodes, n) matches AtomicSelectivity::Member(looked_up)
            && atomic_selectivity(after, n) == AtomicSelectivity::NonMember(looked_up)),
        nodes[n].kind == PredicateKind::Operator(OperatorType::IsNull) && with_kind(
            nodes,
            n,
            after,
            PredicateKind::Operator(OperatorType::IsNotNull),
        ) ==> (atomic_selectivity(nodes, n) matches AtomicSelectivity::DefaultComplement(assumed)
            && atomic_selectivity(after, n) == AtomicSelectivity::Default(assumed)),
{
}

/// A reference by position resolves to the column that a reference by name to the
/// same column does.
pub proof fn positions_resolve_as_names_do(
    reference: ReferenceExpression,
    column: ColumnRefExpression,
    resolution: Resolution,
)
    requires
        resolution.positions is Some,
        reference.index < resolution.positions->0.len(),
        column.binding == resolution.positions->0[reference.index as int],
        column.depth == 0,
    ensures
        resolved_binding(ExpressionView::Reference(reference), resolution) == resolved_binding(
            ExpressionView::ColumnRef(column),
            resolution,
        ),
        resolved_binding(ExpressionView::ColumnRef(column), resolution) == Some(column.binding),
        named_binding(ExpressionView::Reference(reference), resolution) == named_binding(
            ExpressionView::ColumnRef(column),
            resolution,
        ),
        named_binding(ExpressionView::ColumnRef(column), resolution) == Some(column.binding),
{
}

/// A pattern without wildcards passes as much as an equality with it, as long as
/// case matters; one of nothing but wildcards for any text passes every text.
pub proof fn exact_patterns_pass_as_equalities(
    nodes: Seq<PredicateNode>,
    n: int,
    text: Seq<char>,
    distinct: u64,
)
    requires
        0 <= n < nodes.len(),
        nodes[n].children@.len() == 2,
        literal_of(nodes[nodes[n].children@[1] as int]) matches Some(value) && value@
            == ValueView::Text(text),
        point_of(nodes[nodes[n].children@[0] as int]) == Some(distinct),
    ensures
        pattern_shape(text) is Exact ==> {
            &&& like_selectivity(nodes, n, false) == AtomicSelectivity::OneIn(distinct)
            &&& like_selectivity(nodes, n, true) == AtomicSelectivity::Default(
                DefaultSelectivity::Equality,
            )
        },
        pattern_shape(text) is MatchAll ==> forall|folds_case: bool| #[trigger]
            like_selectivity(nodes, n, folds_case) is EveryText,
        pattern_shape(text) matches LikePatternShape::Wildcard(pattern) ==> forall|folds_case: bool|
            #[trigger]
            like_selectivity(nodes, n, folds_case) == AtomicSelectivity::Wildcard(pattern),
{
}

/// A bound is measured exactly where the column's bounds and the literal are on one
/// line, and then by the positions that satisfy it.
pub proof fn only_one_line_is_measured(
    minimum: Value,
    maximum: Value,
    bound: IntegralRangeBound,
    constant: ValueView,
)
    requires
        integral_value(minimum@) is Some,
        integral_value(maximum@) is Some,
        integral_value(constant) is Some,
    ensures
        ({
            let (low_domain, low) = integral_value(minimum@)->0;
            let (high_domain, high) = integral_value(maximum@)->0;
            let (domain, at) = integral_value(constant)->0;
            match bounds_measure(Some(minimum), Some(maximum), bound, constant) {
                RangeMeasure::Share { matching, domain: all } => {
                    &&& low_domain == high_domain && low_domain == domain && low <= high
                    &&& matching <= all
                },
                RangeMeasure::Unknown => low_domain != high_domain || low_domain != domain || low
                    > high,
                _ => false,
            }
        }),
{
    if (integral_value(minimum@)->0).0 == (integral_value(maximum@)->0).0 {
        coordinates_keep_the_order(minimum@, maximum@);
    }
}

/// Equalities, memberships and disjunctions are finite filters wherever their terms
/// admit values of one column.
pub proof fn lookups_are_finite_filters(nodes: Seq<PredicateNode>, n: int)
    requires
        nodes[n].kind is Or || nodes[n].kind == PredicateKind::Comparison(ComparisonType::Equal)
            || nodes[n].kind == PredicateKind::Operator(OperatorType::In),
    ensures
        finite_filter(nodes, n) is Some <==> terms_filter(
            nodes,
            associative_terms(nodes, ConjunctionType::Or, seq![n as usize]),
            ValueForm::Filter,
        ) is Some,
{
}

/// A reference to a column depends on that column alone.
pub proof fn columns_depend_on_themselves(nodes: Seq<PredicateNode>, n: int, column: ColumnBinding)
    requires
        0 <= n < nodes.len(),
        nodes[n].kind matches PredicateKind::Column { binding, .. } && binding == Some(column),
    ensures
        column_of(nodes[n]) == Some(column),
        single_column(scope(nodes, n)) == Some(column),
{
}

} // verus!
