//! The work that a chain of conditions takes.

use vstd::prelude::*;

use crate::estimate::selectivity::conjunction::{
    conjunction, conjunction_work, evidence_work, term_facts, term_inputs, ConjunctionTerm,
};
use crate::estimate::selectivity::finite::{
    column_work, facts_work, filter_work, integral_work, operand_work, term_work, ValueForm,
};
use crate::estimate::selectivity::flatten::{
    associative_terms, distinct_nodes, edges, flat_terms, flatten_work, flattening_is_linear,
    is_nested, is_term, shallow_nodes, shallow_work, terms_are_the_occurrences,
};
use crate::estimate::selectivity::formula::{formula_work, node_formula, reads};
use crate::estimate::selectivity::predicate::{is_boolean, PredicateKind, PredicateNode};
use crate::estimate::selectivity::steps::{
    estimate_work, formulas_work, graph_wf, lemma_coalesced_inputs, needed, node_set,
};
use crate::types::ConjunctionType;

verus! {

/// Whether the selectivity of a node is not put together from others.
pub open spec fn is_atom(node: PredicateNode) -> bool {
    match node.kind {
        PredicateKind::And => false,
        PredicateKind::Or => false,
        PredicateKind::Operator(operator) => !(operator is Not),
        _ => true,
    }
}

/// Whether a graph holds nothing but nodes of one kind and atoms.
pub open spec fn is_chain(nodes: Seq<PredicateNode>, kind: ConjunctionType) -> bool {
    forall|n: int|
        0 <= n < nodes.len() ==> is_boolean(#[trigger] nodes[n], kind) || is_atom(nodes[n])
}

/// The weights of the first `n` nodes together, of those in a set.
spec fn weight_in(weight: spec_fn(int) -> nat, set: Set<int>, n: nat) -> nat
    decreases n,
{
    if n == 0 {
        0
    } else {
        weight_in(weight, set, (n - 1) as nat) + if set.contains(n - 1) {
            weight(n - 1)
        } else {
            0
        }
    }
}

proof fn lemma_weight_in_more(weight: spec_fn(int) -> nat, set: Set<int>, m: int, n: nat)
    requires
        0 <= m,
        !set.contains(m),
    ensures
        weight_in(weight, set.insert(m), n) == weight_in(weight, set, n) + if m < n {
            weight(m)
        } else {
            0
        },
    decreases n,
{
    if n > 0 {
        lemma_weight_in_more(weight, set, m, (n - 1) as nat);
    }
}

proof fn lemma_weight_in_bound(nodes: Seq<PredicateNode>, a: nat, b: nat, set: Set<int>, n: nat)
    requires
        n <= nodes.len(),
    ensures
        weight_in(|m: int| a + b * nodes[m].children@.len(), set, n) <= a * n + b * edges(nodes, n),
    decreases n,
{
    let weight = |m: int| a + b * nodes[m].children@.len();
    if n > 0 {
        lemma_weight_in_bound(nodes, a, b, set, (n - 1) as nat);
        let c = nodes[n - 1].children@.len();
        let e = edges(nodes, (n - 1) as nat);
        assert(weight(n - 1) == a + b * c);
        assert(b * (e + c) == b * e + b * c) by (nonlinear_arith);
        assert(a * n == a * (n - 1) + a) by (nonlinear_arith);
        assert(a + b * c >= 0);
    } else {
        assert(a * 0 == 0);
        assert(b * 0 == 0);
    }
}

/// The weights of the first `k` terms together.
spec fn term_weights(weight: spec_fn(int) -> nat, terms: Seq<(usize, u64)>, k: nat) -> nat
    decreases k,
{
    if k == 0 {
        0
    } else {
        term_weights(weight, terms, (k - 1) as nat) + weight(terms[k - 1].0 as int)
    }
}

spec fn first_nodes(terms: Seq<(usize, u64)>, k: nat) -> Set<int> {
    Set::new(|n: int| exists|i: int| 0 <= i < k && (#[trigger] terms[i]).0 == n)
}

proof fn lemma_term_weights(
    weight: spec_fn(int) -> nat,
    terms: Seq<(usize, u64)>,
    k: nat,
    n: nat,
)
    requires
        k <= terms.len(),
        distinct_nodes(terms),
        forall|i: int| 0 <= i < terms.len() ==> (#[trigger] terms[i]).0 < n,
    ensures
        term_weights(weight, terms, k) == weight_in(weight, first_nodes(terms, k), n),
    decreases k,
{
    if k == 0 {
        lemma_weight_in_none(weight, first_nodes(terms, 0), n);
    } else {
        let before = first_nodes(terms, (k - 1) as nat);
        let m = terms[k - 1].0 as int;
        lemma_term_weights(weight, terms, (k - 1) as nat, n);
        if before.contains(m) {
            let i = choose|i: int| 0 <= i < k - 1 && (#[trigger] terms[i]).0 == m;
            assert(terms[i].0 != terms[k - 1].0);
        }
        lemma_weight_in_more(weight, before, m, n);
        assert forall|x: int| #[trigger] first_nodes(terms, k).contains(x) <==> before.insert(
            m,
        ).contains(x) by {
            if x == m {
                assert(terms[k - 1].0 == x);
            }
            if before.contains(x) {
                let i = choose|i: int| 0 <= i < k - 1 && (#[trigger] terms[i]).0 == x;
                assert(terms[i].0 == x);
            }
        }
        assert(first_nodes(terms, k) =~= before.insert(m));
    }
}

proof fn lemma_weight_in_none(weight: spec_fn(int) -> nat, set: Set<int>, n: nat)
    requires
        forall|m: int| !#[trigger] set.contains(m),
    ensures
        weight_in(weight, set, n) == 0,
    decreases n,
{
    if n > 0 {
        lemma_weight_in_none(weight, set, (n - 1) as nat);
    }
}

proof fn lemma_integral_work(nodes: Seq<PredicateNode>, constants: Seq<usize>, i: nat)
    requires
        i <= constants.len(),
    ensures
        integral_work(nodes, constants, i) <= constants.len() - i,
    decreases constants.len() - i,
{
    if i < constants.len() {
        lemma_integral_work(nodes, constants, i + 1);
    }
}

proof fn lemma_operand_work(nodes: Seq<PredicateNode>, children: Seq<usize>, i: nat)
    requires
        i <= children.len(),
    ensures
        operand_work(nodes, children, i) <= children.len() - i,
    decreases children.len() - i,
{
    if i < children.len() {
        lemma_operand_work(nodes, children, i + 1);
    }
}

proof fn lemma_term_work(nodes: Seq<PredicateNode>, n: int, form: ValueForm)
    ensures
        term_work(nodes, n, form) <= 1 + 2 * nodes[n].children@.len(),
        form is Disjoint ==> term_work(nodes, n, form) == 0,
{
    let children = nodes[n].children@;
    assert forall|constant: usize, column: int|
        #[trigger] column_work(nodes, column, seq![constant]) <= 1 by {
        lemma_integral_work(nodes, seq![constant], 0);
    }
    if children.len() > 0 {
        lemma_operand_work(nodes, children, 1);
        lemma_integral_work(nodes, children.skip(1), 0);
    }
}

/// An atom is flattened and read in steps linear in its operands.
proof fn lemma_filter_work(nodes: Seq<PredicateNode>, n: usize)
    requires
        n < nodes.len(),
        is_atom(nodes[n as int]),
    ensures
        filter_work(nodes, n as int) <= 4 + 2 * nodes[n as int].children@.len(),
{
    let kind = ConjunctionType::Or;
    let roots = seq![n];
    assert(roots[0] == n);
    assert(shallow_nodes(nodes, kind, roots, 0) =~= Seq::<usize>::empty());
    assert(shallow_nodes(nodes, kind, roots, 1) =~= seq![n]);
    assert(shallow_work(nodes, kind, roots, 0) == 0);
    assert(shallow_work(nodes, kind, roots, 1) == 1);
    assert(!is_nested(nodes, kind, seq![n]));
    assert(flatten_work(nodes, kind, roots) == 2);
    let list = seq![n];
    assert(flat_terms(nodes, list, 0) =~= Seq::<(usize, u64)>::empty());
    assert(flat_terms(nodes, list, 1) =~= seq![(n, 1u64)]);
    let terms = associative_terms(nodes, kind, roots);
    assert(terms =~= seq![(n, 1u64)]);
    lemma_term_work(nodes, n as int, ValueForm::Filter);
    assert(facts_work(nodes, terms, ValueForm::Filter, 1) == 0);
}

proof fn lemma_evidence_work(nodes: Seq<PredicateNode>, terms: Seq<(usize, u64)>, k: nat)
    requires
        k <= terms.len(),
        forall|i: int|
            0 <= i < terms.len() ==> (#[trigger] terms[i]).0 < nodes.len() && is_atom(
                nodes[terms[i].0 as int],
            ),
    ensures
        evidence_work(nodes, terms, k) <= term_weights(
            |m: int| 5 + 2 * nodes[m].children@.len(),
            terms,
            k,
        ),
    decreases k,
{
    if k > 0 {
        lemma_evidence_work(nodes, terms, (k - 1) as nat);
        assert(terms[k - 1].0 < nodes.len());
        lemma_filter_work(nodes, terms[k - 1].0);
    }
}

proof fn lemma_disjoint_facts_work(nodes: Seq<PredicateNode>, terms: Seq<(usize, u64)>, j: nat)
    requires
        j <= terms.len(),
    ensures
        facts_work(nodes, terms, ValueForm::Disjoint, j) <= terms.len() - j,
    decreases terms.len() - j,
{
    if j < terms.len() {
        lemma_term_work(nodes, terms[j as int].0 as int, ValueForm::Disjoint);
        lemma_disjoint_facts_work(nodes, terms, j + 1);
    }
}

proof fn lemma_count_of_terms(nodes: Seq<PredicateNode>, terms: Seq<(usize, u64)>, k: nat)
    requires
        k <= terms.len(),
    ensures
        term_weights(|m: int| 1 + 0 * nodes[m].children@.len(), terms, k) == k,
    decreases k,
{
    if k > 0 {
        lemma_count_of_terms(nodes, terms, (k - 1) as nat);
        let c = nodes[terms[k - 1].0 as int].children@.len();
        assert(0 * c == 0);
    }
}

/// What a node of a chain takes is linear in the nodes and operands.
proof fn lemma_formula_work(nodes: Seq<PredicateNode>, kind: ConjunctionType, n: usize)
    requires
        graph_wf(nodes),
        nodes.len() <= usize::MAX,
        is_chain(nodes, kind),
        n < nodes.len(),
    ensures
        formula_work(nodes, n as int) <= 2 + 6 * nodes.len() + 5 * edges(nodes, nodes.len()),
        is_atom(nodes[n as int]) ==> formula_work(nodes, n as int) == 0,
{
    let roots = seq![n];
    if is_boolean(nodes[n as int], kind) {
        let terms = associative_terms(nodes, kind, roots);
        assert(roots[0] == n);
        terms_are_the_occurrences(nodes, kind, roots);
        flattening_is_linear(nodes, kind, roots);
        assert(shallow_work(nodes, kind, roots, 0) == 0);
        assert(shallow_work(nodes, kind, roots, 1) == 1 + nodes[n as int].children@.len());
        lemma_children_are_edges(nodes, n as int, nodes.len());
        assert forall|i: int| 0 <= i < terms.len() implies (#[trigger] terms[i]).0 < nodes.len()
            && is_atom(nodes[terms[i].0 as int]) by {
            assert(is_term(nodes, kind, terms[i].0 as int));
            assert(is_boolean(nodes[terms[i].0 as int], kind) || is_atom(nodes[terms[i].0 as int]));
        }
        let count = terms.len();
        let set = first_nodes(terms, count);
        match kind {
            ConjunctionType::And => {
                lemma_evidence_work(nodes, terms, count);
                let weight = |m: int| 5 + 2 * nodes[m].children@.len();
                lemma_term_weights(weight, terms, count, nodes.len());
                lemma_weight_in_bound(nodes, 5, 2, set, nodes.len());
                assert(weight =~= |m: int| 5nat + 2nat * nodes[m].children@.len());
                assert(conjunction_work(nodes, roots) == flatten_work(nodes, kind, roots)
                    + evidence_work(nodes, terms, count));
            },
            ConjunctionType::Or => {
                lemma_disjoint_facts_work(nodes, terms, 0);
                let weight = |m: int| 1 + 0 * nodes[m].children@.len();
                lemma_count_of_terms(nodes, terms, count);
                lemma_term_weights(weight, terms, count, nodes.len());
                lemma_weight_in_bound(nodes, 1, 0, set, nodes.len());
                assert(weight =~= |m: int| 1nat + 0nat * nodes[m].children@.len());
            },
        }
    } else {
        assert(is_atom(nodes[n as int]));
    }
}

proof fn lemma_children_are_edges(nodes: Seq<PredicateNode>, n: int, m: nat)
    requires
        0 <= n < m <= nodes.len(),
    ensures
        nodes[n].children@.len() <= edges(nodes, m),
    decreases m,
{
    if n < m - 1 {
        lemma_children_are_edges(nodes, n, (m - 1) as nat);
    }
}

/// Whatever a node of a chain reads is an atom.
proof fn lemma_reads_atoms(nodes: Seq<PredicateNode>, kind: ConjunctionType, n: int, m: int)
    requires
        graph_wf(nodes),
        nodes.len() <= usize::MAX,
        is_chain(nodes, kind),
        0 <= n < nodes.len(),
        reads(node_formula(nodes, n), m),
    ensures
        0 <= m < nodes.len(),
        is_atom(nodes[m]),
{
    assert(is_boolean(nodes[n], kind) || is_atom(nodes[n]));
    let roots = seq![n as usize];
    let flat = associative_terms(nodes, kind, roots);
    assert(roots[0] == n);
    terms_are_the_occurrences(nodes, kind, roots);
    match nodes[n].kind {
        PredicateKind::And => {
            let terms = conjunction(nodes, roots);
            let i = choose|i: int|
                0 <= i < terms.len() && ((#[trigger] terms[i]) matches ConjunctionTerm::Input {
                    node,
                    ..
                } && node == m);
            let inputs = term_inputs(nodes, flat);
            lemma_coalesced_inputs(term_facts(nodes, flat), inputs, flat.len(), i);
            let j = choose|j: int| 0 <= j < flat.len() && #[trigger] inputs[j] == terms[i];
            assert(flat[j].0 == m);
            assert(is_term(nodes, kind, flat[j].0 as int));
            assert(is_boolean(nodes[m], kind) || is_atom(nodes[m]));
        },
        PredicateKind::Or => {
            let i = choose|i: int| 0 <= i < flat.len() && (#[trigger] flat[i]).0 == m;
            assert(is_term(nodes, kind, flat[i].0 as int));
            assert(is_boolean(nodes[m], kind) || is_atom(nodes[m]));
        },
        _ => {},
    }
}

/// Of a chain, only the root and atoms are read.
proof fn lemma_needed_of_chain(
    nodes: Seq<PredicateNode>,
    kind: ConjunctionType,
    root: usize,
    low: nat,
)
    requires
        graph_wf(nodes),
        nodes.len() <= usize::MAX,
        is_chain(nodes, kind),
        root < nodes.len(),
        low <= nodes.len(),
    ensures
        forall|n: int| #[trigger]
            needed(nodes, node_set(seq![root]), low).contains(n) ==> n == root || (0 <= n
                < nodes.len() && is_atom(nodes[n])),
    decreases nodes.len() - low,
{
    let wanted = node_set(seq![root]);
    if low < nodes.len() {
        lemma_needed_of_chain(nodes, kind, root, low + 1);
        let above = needed(nodes, wanted, low + 1);
        assert forall|n: int| #[trigger] needed(nodes, wanted, low).contains(n) implies n == root
            || (0 <= n < nodes.len() && is_atom(nodes[n])) by {
            if !above.contains(n) {
                lemma_reads_atoms(nodes, kind, low as int, n);
            }
        }
    } else {
        assert forall|n: int| #[trigger] needed(nodes, wanted, low).contains(n) implies n
            == root by {
            let i = choose|i: int| 0 <= i < 1 && #[trigger] seq![root][i] == n;
            assert(seq![root][i] == root);
        }
    }
}

proof fn lemma_formulas_work(
    nodes: Seq<PredicateNode>,
    kind: ConjunctionType,
    root: usize,
    low: nat,
)
    requires
        graph_wf(nodes),
        nodes.len() <= usize::MAX,
        is_chain(nodes, kind),
        root < nodes.len(),
        low <= nodes.len(),
    ensures
        formulas_work(nodes, node_set(seq![root]), low) <= nodes.len() - low + if low <= root {
            2 + 6 * nodes.len() + 5 * edges(nodes, nodes.len())
        } else {
            0
        },
    decreases nodes.len() - low,
{
    if low < nodes.len() {
        lemma_formulas_work(nodes, kind, root, low + 1);
        lemma_needed_of_chain(nodes, kind, root, low + 1);
        lemma_formula_work(nodes, kind, low as usize);
    }
}

/// A chain of conditions of one kind is analysed in steps linear in the nodes
/// and operands of its graph, however many ways lead to a shared one.
pub proof fn shared_chain_takes_linear_work(
    nodes: Seq<PredicateNode>,
    kind: ConjunctionType,
    root: usize,
)
    requires
        graph_wf(nodes),
        nodes.len() <= usize::MAX,
        is_chain(nodes, kind),
        root < nodes.len(),
    ensures
        estimate_work(nodes, seq![root]) <= 3 + 7 * nodes.len() + 5 * edges(nodes, nodes.len()),
{
    lemma_formulas_work(nodes, kind, root, 0);
}

} // verus!
