//! The order in which the selectivities of a predicate are computed.

use vstd::prelude::*;

use crate::estimate::selectivity::conjunction::{
    are_scopes, coalesced, conjunction, term_facts, term_inputs, ConjunctionTerm, TermFact,
};
use crate::estimate::selectivity::flatten::{
    are_nodes, associative_terms, lemma_no_paths_up, lists, occurrences, paths,
    terms_are_the_occurrences,
};
use crate::estimate::selectivity::formula::{
    formula_of, formula_work, node_formula, reads, reads_term, FormulaView, NodeFormula,
};
use crate::estimate::selectivity::predicate::{
    is_boolean, node_wf, ColumnScope, PredicateGraph, PredicateKind, PredicateNode,
};
use crate::estimate::selectivity::work::{
    group_runs, is_run, stopped, takes, unrestricted_work_goes_on, SelectivityStop, SelectivityWork,
    Unrestricted, WorkAdmission,
};
use crate::types::ConjunctionType;

verus! {

broadcast use group_runs;

/// The selectivity of one node.
#[derive(Debug)]
pub struct EstimateStep {
    pub node: usize,
    pub formula: NodeFormula,
}

/// The nodes that an estimate of the wanted ones reads, once the nodes from
/// `low` on have been looked at.
pub open spec fn needed(nodes: Seq<PredicateNode>, wanted: Set<int>, low: nat) -> Set<int>
    decreases nodes.len() - low,
{
    if low >= nodes.len() {
        wanted
    } else {
        let above = needed(nodes, wanted, low + 1);
        if above.contains(low as int) {
            above.union(Set::new(|n: int| reads(node_formula(nodes, low as int), n)))
        } else {
            above
        }
    }
}

pub open spec fn graph_wf(nodes: Seq<PredicateNode>) -> bool {
    forall|n: int| 0 <= n < nodes.len() ==> #[trigger] node_wf(nodes, n)
}

pub proof fn lemma_coalesced_inputs(
    facts: Seq<TermFact>,
    inputs: Seq<ConjunctionTerm>,
    k: nat,
    i: int,
)
    requires
        k <= inputs.len(),
        0 <= i < coalesced(facts, inputs, k).len(),
        coalesced(facts, inputs, k)[i] is Input,
    ensures
        exists|j: int| 0 <= j < k && #[trigger] inputs[j] == coalesced(facts, inputs, k)[i],
    decreases k,
{
    let before = coalesced(facts, inputs, (k - 1) as nat);
    if i < before.len() {
        assert(coalesced(facts, inputs, k)[i] == before[i]);
        lemma_coalesced_inputs(facts, inputs, (k - 1) as nat, i);
        let j = choose|j: int| 0 <= j < k - 1 && #[trigger] inputs[j] == before[i];
        assert(inputs[j] == coalesced(facts, inputs, k)[i]);
    } else {
        assert(inputs[k - 1] == coalesced(facts, inputs, k)[i]);
    }
}

/// The terms of a chain come before the node that reads them.
proof fn lemma_terms_below(
    nodes: Seq<PredicateNode>,
    kind: ConjunctionType,
    n: usize,
    j: int,
)
    requires
        graph_wf(nodes),
        n < nodes.len() <= usize::MAX,
        is_boolean(nodes[n as int], kind),
        0 <= j < associative_terms(nodes, kind, seq![n]).len(),
    ensures
        associative_terms(nodes, kind, seq![n])[j].0 < n,
{
    let terms = associative_terms(nodes, kind, seq![n]);
    terms_are_the_occurrences(nodes, kind, seq![n]);
    let term = terms[j].0 as int;
    reveal_with_fuel(occurrences, 2);
    assert(occurrences(nodes, kind, seq![n], 1, term) == paths(nodes, kind, n as int, term));
    if term > n {
        lemma_no_paths_up(nodes, kind, n as int, term);
    }
}

/// A node reads only nodes before it.
proof fn lemma_reads_below(nodes: Seq<PredicateNode>, n: int, m: int)
    requires
        graph_wf(nodes),
        0 <= n < nodes.len() <= usize::MAX,
        reads(node_formula(nodes, n), m),
    ensures
        0 <= m < n,
{
    assert(node_wf(nodes, n));
    match nodes[n].kind {
        PredicateKind::And => {
            let terms = conjunction(nodes, seq![n as usize]);
            let i = choose|i: int|
                0 <= i < terms.len() && ((#[trigger] terms[i]) matches ConjunctionTerm::Input {
                    node,
                    ..
                } && node == m);
            let flat = associative_terms(nodes, ConjunctionType::And, seq![n as usize]);
            let inputs = term_inputs(nodes, flat);
            lemma_coalesced_inputs(term_facts(nodes, flat), inputs, flat.len(), i);
            let j = choose|j: int| 0 <= j < flat.len() && #[trigger] inputs[j] == terms[i];
            lemma_terms_below(nodes, ConjunctionType::And, n as usize, j);
        },
        PredicateKind::Or => {
            let terms = associative_terms(nodes, ConjunctionType::Or, seq![n as usize]);
            let i = choose|i: int| 0 <= i < terms.len() && (#[trigger] terms[i]).0 == m;
            lemma_terms_below(nodes, ConjunctionType::Or, n as usize, i);
        },
        _ => {},
    }
}

/// The terms of a conjunction read nodes of the graph.
pub proof fn input_nodes_are_nodes(nodes: Seq<PredicateNode>, roots: Seq<usize>)
    requires
        graph_wf(nodes),
        are_nodes(nodes, roots),
        nodes.len() <= usize::MAX,
    ensures
        forall|n: int| #[trigger]
            reads_term(conjunction(nodes, roots), n) ==> 0 <= n < nodes.len(),
{
    let terms = conjunction(nodes, roots);
    let flat = associative_terms(nodes, ConjunctionType::And, roots);
    let inputs = term_inputs(nodes, flat);
    terms_are_the_occurrences(nodes, ConjunctionType::And, roots);
    assert forall|n: int| #[trigger] reads_term(terms, n) implies 0 <= n < nodes.len() by {
        let i = choose|i: int|
            0 <= i < terms.len() && ((#[trigger] terms[i]) matches ConjunctionTerm::Input {
                node,
                ..
            } && node == n);
        lemma_coalesced_inputs(term_facts(nodes, flat), inputs, flat.len(), i);
        let j = choose|j: int| 0 <= j < flat.len() && #[trigger] inputs[j] == terms[i];
        assert(flat[j].0 == n);
    }
}

proof fn lemma_needed_grows(nodes: Seq<PredicateNode>, wanted: Set<int>, low: nat, high: nat, n: int)
    requires
        low <= high <= nodes.len(),
        needed(nodes, wanted, high).contains(n),
    ensures
        needed(nodes, wanted, low).contains(n),
    decreases high - low,
{
    if low < high {
        lemma_needed_grows(nodes, wanted, low + 1, high, n);
    }
}

/// Later nodes are decided before earlier ones are looked at.
proof fn lemma_needed_settled(
    nodes: Seq<PredicateNode>,
    wanted: Set<int>,
    low: nat,
    high: nat,
    n: int,
)
    requires
        graph_wf(nodes),
        nodes.len() <= usize::MAX,
        low <= high <= nodes.len(),
        n >= high - 1,
        needed(nodes, wanted, low).contains(n),
    ensures
        needed(nodes, wanted, high).contains(n),
    decreases high - low,
{
    if low < high {
        let above = needed(nodes, wanted, low + 1);
        if !above.contains(n) {
            lemma_reads_below(nodes, low as int, n);
        }
        lemma_needed_settled(nodes, wanted, low + 1, high, n);
    }
}

/// The needed nodes are the wanted ones and, with each node, all that it reads.
pub proof fn needed_is_closed(nodes: Seq<PredicateNode>, wanted: Set<int>)
    requires
        graph_wf(nodes),
        nodes.len() <= usize::MAX,
    ensures
        forall|n: int| wanted.contains(n) ==> #[trigger] needed(nodes, wanted, 0).contains(n),
        forall|n: int, m: int|
            0 <= n < nodes.len() && needed(nodes, wanted, 0).contains(n) && #[trigger] reads(
                node_formula(nodes, n),
                m,
            ) ==> m < n && needed(nodes, wanted, 0).contains(m),
{
    assert forall|n: int| wanted.contains(n) implies #[trigger] needed(nodes, wanted, 0).contains(
        n,
    ) by {
        lemma_needed_grows(nodes, wanted, 0, nodes.len(), n);
    }
    assert forall|n: int, m: int|
        0 <= n < nodes.len() && needed(nodes, wanted, 0).contains(n) && #[trigger] reads(
            node_formula(nodes, n),
            m,
        ) implies m < n && needed(nodes, wanted, 0).contains(m) by {
        lemma_reads_below(nodes, n, m);
        lemma_needed_settled(nodes, wanted, 0, (n + 1) as nat, n);
        assert(needed(nodes, wanted, n as nat).contains(m));
        lemma_needed_grows(nodes, wanted, 0, n as nat, m);
    }
}

/// Whether the steps compute exactly the needed nodes, each after all that it
/// reads.
pub open spec fn computes(
    steps: Seq<EstimateStep>,
    nodes: Seq<PredicateNode>,
    wanted: Set<int>,
) -> bool {
    &&& forall|i: int, j: int|
        #![trigger steps[i], steps[j]]
        0 <= i < j < steps.len() ==> steps[i].node < steps[j].node
    &&& forall|i: int|
        0 <= i < steps.len() ==> {
            let step = #[trigger] steps[i];
            &&& step.node < nodes.len()
            &&& needed(nodes, wanted, 0).contains(step.node as int)
            &&& step.formula@ == node_formula(nodes, step.node as int)
        }
    &&& forall|n: int|
        0 <= n < nodes.len() && #[trigger] needed(nodes, wanted, 0).contains(n) ==> exists|i: int|
            0 <= i < steps.len() && (#[trigger] steps[i]).node == n
}

/// The nodes of a list.
pub open spec fn node_set(list: Seq<usize>) -> Set<int> {
    Set::new(|n: int| exists|i: int| 0 <= i < list.len() && #[trigger] list[i] == n)
}

fn mark(flags: &mut Vec<bool>, n: usize)
    requires
        n < old(flags)@.len(),
    ensures
        final(flags)@ == old(flags)@.update(n as int, true),
{
    flags.set(n, true);
}

/// Marks the nodes that a formula reads.
fn mark_reads(formula: &NodeFormula, flags: &mut Vec<bool>)
    requires
        forall|n: int| #[trigger] reads(formula@, n) ==> 0 <= n < old(flags)@.len(),
    ensures
        final(flags)@.len() == old(flags)@.len(),
        forall|n: int|
            0 <= n < old(flags)@.len() ==> #[trigger] final(flags)@[n] == (old(flags)@[n] || reads(
                formula@,
                n,
            )),
{
    let ghost before = flags@;
    match formula {
        NodeFormula::And(terms) => {
            let mut i: usize = 0;
            while i < terms.len()
                invariant
                    formula@ == FormulaView::And(terms@),
                    forall|n: int| #[trigger] reads(formula@, n) ==> 0 <= n < before.len(),
                    i <= terms@.len(),
                    flags@.len() == before.len(),
                    forall|n: int|
                        0 <= n < before.len() ==> #[trigger] flags@[n] == (before[n] || reads_term(
                            terms@.take(i as int),
                            n,
                        )),
                decreases terms@.len() - i,
            {
                let ghost marked = flags@;
                match terms[i] {
                    ConjunctionTerm::Input { node, .. } => {
                        assert(reads_term(terms@, node as int)) by {
                            assert(terms@[i as int] is Input);
                        }
                        assert(reads(formula@, node as int));
                        mark(flags, node);
                    },
                    ConjunctionTerm::Share { .. } => {},
                }
                proof {
                    assert forall|n: int| 0 <= n < before.len() implies #[trigger] flags@[n] == (
                    before[n] || reads_term(terms@.take(i + 1), n)) by {
                        lemma_reads_term_push(terms@, i as int, n);
                        assert(marked[n] == (before[n] || reads_term(terms@.take(i as int), n)));
                    }
                }
                i = i + 1;
            }
            proof {
                assert(terms@.take(i as int) =~= terms@);
                assert forall|n: int| 0 <= n < before.len() implies #[trigger] flags@[n] == (
                before[n] || reads(formula@, n)) by {}
            }
        },
        NodeFormula::Or(terms) => {
            let mut i: usize = 0;
            while i < terms.len()
                invariant
                    formula@ == FormulaView::Or(terms@),
                    forall|n: int| #[trigger] reads(formula@, n) ==> 0 <= n < before.len(),
                    i <= terms@.len(),
                    flags@.len() == before.len(),
                    forall|n: int|
                        0 <= n < before.len() ==> #[trigger] flags@[n] == (before[n] || lists(
                            terms@.take(i as int),
                            n,
                        )),
                decreases terms@.len() - i,
            {
                let ghost marked = flags@;
                let (node, _) = terms[i];
                assert(terms@[i as int].0 == node);
                assert(lists(terms@, node as int));
                assert(reads(formula@, node as int));
                mark(flags, node);
                proof {
                    assert forall|n: int| 0 <= n < before.len() implies #[trigger] flags@[n] == (
                    before[n] || lists(terms@.take(i + 1), n)) by {
                        lemma_lists_push(terms@, i as int, n);
                        assert(marked[n] == (before[n] || lists(terms@.take(i as int), n)));
                    }
                }
                i = i + 1;
            }
            proof {
                assert(terms@.take(i as int) =~= terms@);
                assert forall|n: int| 0 <= n < before.len() implies #[trigger] flags@[n] == (
                before[n] || reads(formula@, n)) by {}
            }
        },
        NodeFormula::Not(child) => {
            assert(reads(formula@, *child as int));
            mark(flags, *child);
        },
        _ => {},
    }
}

proof fn lemma_lists_push(terms: Seq<(usize, u64)>, i: int, n: int)
    requires
        0 <= i < terms.len(),
    ensures
        lists(terms.take(i + 1), n) <==> (lists(terms.take(i), n) || terms[i].0 == n),
{
    let longer = terms.take(i + 1);
    let shorter = terms.take(i);
    if lists(shorter, n) {
        let j = choose|j: int| 0 <= j < shorter.len() && (#[trigger] shorter[j]).0 == n;
        assert(longer[j] == shorter[j]);
    }
    if terms[i].0 == n {
        assert(longer[i] == terms[i]);
    }
    if lists(longer, n) {
        let j = choose|j: int| 0 <= j < longer.len() && (#[trigger] longer[j]).0 == n;
        if j < i {
            assert(shorter[j] == longer[j]);
        }
    }
}

pub proof fn lemma_reads_term_push(terms: Seq<ConjunctionTerm>, i: int, n: int)
    requires
        0 <= i < terms.len(),
    ensures
        reads_term(terms.take(i + 1), n) <==> (reads_term(terms.take(i), n) || (
        terms[i] matches ConjunctionTerm::Input { node, .. } && node == n)),
{
    let longer = terms.take(i + 1);
    let shorter = terms.take(i);
    if reads_term(shorter, n) {
        let j = choose|j: int|
            0 <= j < shorter.len() && ((#[trigger] shorter[j]) matches ConjunctionTerm::Input {
                node,
                ..
            } && node == n);
        assert(longer[j] == shorter[j]);
    }
    if terms[i] matches ConjunctionTerm::Input { node, .. } && node == n {
        assert(longer[i] == terms[i]);
    }
    if reads_term(longer, n) {
        let j = choose|j: int|
            0 <= j < longer.len() && ((#[trigger] longer[j]) matches ConjunctionTerm::Input {
                node,
                ..
            } && node == n);
        if j < i {
            assert(shorter[j] == longer[j]);
        }
    }
}

/// Steps for the nodes from `low` on that an estimate of the wanted ones reads:
/// one for each, and those to find how its selectivity comes about.
pub open spec fn formulas_work(nodes: Seq<PredicateNode>, wanted: Set<int>, low: nat) -> nat
    decreases nodes.len() - low,
{
    if low >= nodes.len() {
        0
    } else {
        formulas_work(nodes, wanted, low + 1) + if needed(nodes, wanted, low + 1).contains(
            low as int,
        ) {
            1 + formula_work(nodes, low as int)
        } else {
            0
        }
    }
}

proof fn lemma_formulas_work_grows(nodes: Seq<PredicateNode>, wanted: Set<int>, low: nat)
    requires
        low <= nodes.len(),
    ensures
        formulas_work(nodes, wanted, low) <= formulas_work(nodes, wanted, 0),
    decreases low,
{
    if low > 0 {
        lemma_formulas_work_grows(nodes, wanted, (low - 1) as nat);
    }
}

/// Steps that it takes to order the selectivities that the roots need.
pub open spec fn estimate_work(nodes: Seq<PredicateNode>, roots: Seq<usize>) -> nat {
    roots.len() + formulas_work(nodes, node_set(roots), 0)
}

/// Plans the selectivities that the wanted nodes depend on. Shared nodes are
/// computed once, and nothing is computed that nobody reads.
pub fn estimate_nodes<A: WorkAdmission>(
    graph: &PredicateGraph,
    scopes: &Vec<ColumnScope>,
    roots: &Vec<usize>,
    work: &mut SelectivityWork<A>,
) -> (r: Result<Vec<EstimateStep>, SelectivityStop<A::Error>>)
    requires
        graph.wf(),
        are_scopes(graph.nodes@, scopes@),
        are_nodes(graph.nodes@, roots@),
    ensures
        r matches Ok(steps) ==> computes(steps@, graph.nodes@, node_set(roots@)),
        is_run::<A>(old(work).answers(), final(work).answers(), stopped(r)),
        takes::<A>(
            old(work).answers(),
            final(work).answers(),
            stopped(r),
            estimate_work(graph.nodes@, roots@),
        ),
{
    let ghost nodes = graph.nodes@;
    let ghost wanted = node_set(roots@);
    let size: usize = graph.nodes.len();
    let mut flags: Vec<bool> = Vec::new();
    let mut n: usize = 0;
    while n < size
        invariant
            n <= size,
            flags@.len() == n,
            forall|m: int| 0 <= m < n ==> !#[trigger] flags@[m],
        decreases size - n,
    {
        flags.push(false);
        n = n + 1;
    }
    let mut i: usize = 0;
    while i < roots.len()
        invariant
            nodes == graph.nodes@,
            are_nodes(nodes, roots@),
            i <= roots@.len(),
            is_run::<A>(old(work).answers(), work.answers(), None),
            work.answers().len() == old(work).answers().len() + i,
            flags@.len() == nodes.len(),
            forall|m: int|
                0 <= m < nodes.len() ==> #[trigger] flags@[m] == (exists|k: int|
                    0 <= k < i && #[trigger] roots@[k] == m),
        decreases roots@.len() - i,
    {
        if let Err(stop) = work.take_step() {
            return Err(stop);
        }
        let ghost before = flags@;
        let root: usize = roots[i];
        mark(&mut flags, root);
        proof {
            assert forall|m: int| 0 <= m < nodes.len() implies #[trigger] flags@[m] == (exists|
                k: int,
            |
                0 <= k < i + 1 && #[trigger] roots@[k] == m) by {
                assert(before[m] == (exists|k: int| 0 <= k < i && #[trigger] roots@[k] == m));
                if m == root {
                    assert(roots@[i as int] == m);
                }
            }
        }
        i = i + 1;
    }
    let mut reversed: Vec<EstimateStep> = Vec::new();
    let mut left: usize = size;
    while left > 0
        invariant
            graph.wf(),
            nodes == graph.nodes@,
            nodes.len() == size,
            wanted == node_set(roots@),
            are_scopes(nodes, scopes@),
            left <= nodes.len(),
            is_run::<A>(old(work).answers(), work.answers(), None),
            work.answers().len() == old(work).answers().len() + roots@.len() + formulas_work(
                nodes,
                wanted,
                left as nat,
            ),
            flags@.len() == nodes.len(),
            forall|m: int|
                0 <= m < nodes.len() ==> #[trigger] flags@[m] == needed(
                    nodes,
                    wanted,
                    left as nat,
                ).contains(m),
            forall|a: int, b: int|
                #![trigger reversed@[a], reversed@[b]]
                0 <= a < b < reversed@.len() ==> reversed@[a].node > reversed@[b].node,
            forall|a: int|
                0 <= a < reversed@.len() ==> {
                    let step = #[trigger] reversed@[a];
                    &&& left <= step.node < nodes.len()
                    &&& needed(nodes, wanted, left as nat).contains(step.node as int)
                    &&& step.formula@ == node_formula(nodes, step.node as int)
                },
            forall|m: int|
                left <= m < nodes.len() && #[trigger] needed(nodes, wanted, left as nat).contains(m)
                    ==> exists|a: int| 0 <= a < reversed@.len() && (#[trigger] reversed@[a]).node
                    == m,
        decreases left,
    {
        proof {
            lemma_formulas_work_grows(nodes, wanted, (left - 1) as nat);
        }
        let current: usize = left - 1;
        let ghost before = reversed@;
        let ghost above = needed(nodes, wanted, left as nat);
        let ghost below = needed(nodes, wanted, current as nat);
        let wants: bool = flags[current];
        assert(flags@[current as int] == above.contains(current as int));
        if wants {
            if let Err(stop) = work.take_step() {
                return Err(stop);
            }
            let formula = match formula_of(graph, scopes, current, work) {
                Ok(formula) => formula,
                Err(stop) => {
                    return Err(stop);
                },
            };
            proof {
                assert forall|m: int| #[trigger] reads(formula@, m) implies 0 <= m < nodes.len() by {
                    lemma_reads_below(nodes, current as int, m);
                }
            }
            mark_reads(&formula, &mut flags);
            reversed.push(EstimateStep { node: current, formula });
        }
        proof {
            assert forall|m: int|
                current <= m < nodes.len() && #[trigger] below.contains(m) implies exists|a: int|
                0 <= a < reversed@.len() && (#[trigger] reversed@[a]).node == m by {
                if !above.contains(m) {
                    lemma_reads_below(nodes, current as int, m);
                }
                if m == current {
                    assert(reversed@[before.len() as int].node == m);
                } else {
                    let a = choose|a: int|
                        0 <= a < before.len() && (#[trigger] before[a]).node == m;
                    assert(reversed@[a].node == m);
                }
            }
            assert forall|a: int| 0 <= a < reversed@.len() implies {
                let step = #[trigger] reversed@[a];
                &&& current <= step.node < nodes.len()
                &&& below.contains(step.node as int)
                &&& step.formula@ == node_formula(nodes, step.node as int)
            } by {
                if a < before.len() {
                    assert(reversed@[a] == before[a]);
                }
            }
        }
        left = current;
    }
    let mut steps: Vec<EstimateStep> = Vec::new();
    let ghost all = reversed@;
    while reversed.len() > 0
        invariant
            reversed@.len() + steps@.len() == all.len(),
            reversed@ == all.take(reversed@.len() as int),
            forall|a: int|
                0 <= a < steps@.len() ==> #[trigger] steps@[a] == all[all.len() - 1 - a],
        decreases reversed@.len(),
    {
        let ghost short = reversed@;
        match reversed.pop() {
            Some(step) => {
                steps.push(step);
            },
            None => {},
        }
        assert(reversed@ =~= all.take(reversed@.len() as int));
    }
    proof {
        assert forall|m: int|
            0 <= m < nodes.len() && #[trigger] needed(nodes, wanted, 0).contains(m) implies exists|
            a: int,
        |
            0 <= a < steps@.len() && (#[trigger] steps@[a]).node == m by {
            let a = choose|a: int| 0 <= a < all.len() && (#[trigger] all[a]).node == m;
            assert(steps@[all.len() - 1 - a] == all[a]);
        }
    }
    Ok(steps)
}

/// Orders the selectivities that the given nodes need, whatever work that takes.
pub fn estimate_all(
    graph: &PredicateGraph,
    scopes: &Vec<ColumnScope>,
    roots: &Vec<usize>,
) -> (r: Vec<EstimateStep>)
    requires
        graph.wf(),
        are_scopes(graph.nodes@, scopes@),
        are_nodes(graph.nodes@, roots@),
    ensures
        computes(r@, graph.nodes@, node_set(roots@)),
{
    let mut work = SelectivityWork::new(Unrestricted);
    match estimate_nodes(graph, scopes, roots, &mut work) {
        Ok(steps) => steps,
        Err(stop) => {
            proof {
                unrestricted_work_goes_on(Seq::empty(), work.answers(), Some(stop));
            }
            Vec::new()
        },
    }
}

} // verus!
