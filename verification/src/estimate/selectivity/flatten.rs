//! Flattening nested conjunctions and disjunctions into their terms.

use std::collections::HashMap;
use vstd::prelude::*;

use crate::estimate::cardinality::{capped, saturating_add_u64};
use crate::estimate::selectivity::node_list::{NodeList, NodeSequence};
use crate::estimate::selectivity::predicate::{
    is_boolean, node_wf, same_boolean_kind, PredicateGraph, PredicateNode,
};
use crate::estimate::selectivity::steps::node_set;
use crate::estimate::selectivity::work::{
    group_runs, is_run, stopped, takes, SelectivityStop, SelectivityWork, WorkAdmission,
};
use crate::types::ConjunctionType;

verus! {

broadcast use group_runs;

/// Whether node `n` is a term of a `kind` chain: not itself of that kind.
pub open spec fn is_term(nodes: Seq<PredicateNode>, kind: ConjunctionType, n: int) -> bool {
    0 <= n < nodes.len() && !is_boolean(nodes[n], kind)
}

/// Number of ways to reach `term` from node `n` through nodes of `kind`.
pub open spec fn paths(
    nodes: Seq<PredicateNode>,
    kind: ConjunctionType,
    n: int,
    term: int,
) -> nat
    decreases n, 1nat, 0nat,
{
    if n < 0 || n >= nodes.len() {
        0
    } else if is_boolean(nodes[n], kind) {
        child_paths(nodes, kind, n, nodes[n].children@.len(), term)
    } else if n == term {
        1
    } else {
        0
    }
}

/// Number of ways to reach `term` from the first `k` children of node `n`.
pub open spec fn child_paths(
    nodes: Seq<PredicateNode>,
    kind: ConjunctionType,
    n: int,
    k: nat,
    term: int,
) -> nat
    decreases n, 0nat, k,
{
    if n < 0 || n >= nodes.len() || k == 0 || k > nodes[n].children@.len() {
        0
    } else {
        let child = nodes[n].children@[k - 1] as int;
        child_paths(nodes, kind, n, (k - 1) as nat, term) + if child < n {
            paths(nodes, kind, child, term)
        } else {
            0
        }
    }
}

/// Number of occurrences of `term` below the first `k` roots.
pub open spec fn occurrences(
    nodes: Seq<PredicateNode>,
    kind: ConjunctionType,
    roots: Seq<usize>,
    k: nat,
    term: int,
) -> nat
    decreases k,
{
    if k == 0 || k > roots.len() {
        0
    } else {
        occurrences(nodes, kind, roots, (k - 1) as nat, term) + paths(
            nodes,
            kind,
            roots[k - 1] as int,
            term,
        )
    }
}

/// How often a term counts: a shared evaluation once, any other as often as it
/// occurs.
pub open spec fn counted(node: PredicateNode, occurrences: nat) -> u64 {
    if node.shareable {
        1
    } else {
        capped(occurrences as int)
    }
}

/// Whether `list` holds an item for node `n`.
pub open spec fn lists(list: Seq<(usize, u64)>, n: int) -> bool {
    exists|j: int| 0 <= j < list.len() && (#[trigger] list[j]).0 == n
}

/// Whether no two items are for the same node.
pub open spec fn distinct_nodes(list: Seq<(usize, u64)>) -> bool {
    forall|i: int, j: int|
        #![trigger list[i], list[j]]
        0 <= i < j < list.len() ==> list[i].0 != list[j].0
}

/// Whether `terms` lists every term below the roots once, with its count.
pub open spec fn flattened(
    terms: Seq<(usize, u64)>,
    nodes: Seq<PredicateNode>,
    kind: ConjunctionType,
    roots: Seq<usize>,
) -> bool {
    &&& distinct_nodes(terms)
    &&& forall|j: int|
        0 <= j < terms.len() ==> {
            let n = (#[trigger] terms[j]).0 as int;
            &&& is_term(nodes, kind, n)
            &&& occurrences(nodes, kind, roots, roots.len(), n) > 0
            &&& terms[j].1 == counted(nodes[n], occurrences(nodes, kind, roots, roots.len(), n))
        }
    &&& forall|n: int|
        is_term(nodes, kind, n) && #[trigger] occurrences(nodes, kind, roots, roots.len(), n) > 0
            ==> lists(terms, n)
}

/// Whether all positions are nodes of the graph.
pub open spec fn are_nodes(nodes: Seq<PredicateNode>, list: Seq<usize>) -> bool {
    forall|i: int| 0 <= i < list.len() ==> (#[trigger] list[i]) < nodes.len()
}

/// How often `n` is among the first `k` of a list.
pub open spec fn multiplicity(list: Seq<usize>, k: nat, n: int) -> nat
    decreases k,
{
    if k == 0 || k > list.len() {
        0
    } else {
        multiplicity(list, (k - 1) as nat, n) + if list[k - 1] == n {
            1nat
        } else {
            0nat
        }
    }
}

proof fn lemma_terms_occur_as_listed(
    nodes: Seq<PredicateNode>,
    kind: ConjunctionType,
    list: Seq<usize>,
    k: nat,
    term: int,
)
    requires
        k <= list.len(),
        forall|i: int| 0 <= i < k ==> is_term(nodes, kind, #[trigger] list[i] as int),
    ensures
        occurrences(nodes, kind, list, k, term) == multiplicity(list, k, term),
    decreases k,
{
    if k > 0 {
        lemma_terms_occur_as_listed(nodes, kind, list, (k - 1) as nat, term);
        assert(is_term(nodes, kind, list[k - 1] as int));
    }
}

proof fn lemma_multiplicity(list: Seq<usize>, k: nat, n: int)
    requires
        k <= list.len(),
    ensures
        multiplicity(list, k, n) > 0 <==> exists|i: int| 0 <= i < k && #[trigger] list[i] == n,
    decreases k,
{
    if k > 0 {
        lemma_multiplicity(list, (k - 1) as nat, n);
        if multiplicity(list, k, n) > 0 {
            if multiplicity(list, (k - 1) as nat, n) > 0 {
                let i = choose|i: int| 0 <= i < k - 1 && #[trigger] list[i] == n;
                assert(list[i] == n);
            } else {
                assert(list[k - 1] == n);
            }
        }
        if exists|i: int| 0 <= i < k && #[trigger] list[i] == n {
            let i = choose|i: int| 0 <= i < k && #[trigger] list[i] == n;
            if i < k - 1 {
                assert(multiplicity(list, (k - 1) as nat, n) > 0);
            }
        }
    }
}

/// What the shallow pass over the first `k` roots retains: the children of
/// roots of `kind`, and the other roots themselves.
pub open spec fn shallow_nodes(
    nodes: Seq<PredicateNode>,
    kind: ConjunctionType,
    roots: Seq<usize>,
    k: nat,
) -> Seq<usize>
    decreases k,
{
    if k == 0 || k > roots.len() {
        Seq::empty()
    } else {
        let root = roots[k - 1];
        shallow_nodes(nodes, kind, roots, (k - 1) as nat) + if is_boolean(
            nodes[root as int],
            kind,
        ) {
            nodes[root as int].children@
        } else {
            seq![root]
        }
    }
}

/// Whether some node of the list is itself of `kind`.
pub open spec fn is_nested(
    nodes: Seq<PredicateNode>,
    kind: ConjunctionType,
    list: Seq<usize>,
) -> bool {
    exists|i: int| 0 <= i < list.len() && is_boolean(nodes[#[trigger] list[i] as int], kind)
}

/// One more occurrence of node `n`.
pub open spec fn counted_again(list: Seq<(usize, u64)>, n: usize) -> Seq<(usize, u64)> {
    list.map_values(
        |item: (usize, u64)|
            if item.0 == n {
                (n, capped(item.1 + 1))
            } else {
                item
            },
    )
}

/// The distinct nodes among the first `k` of a list in the order of their first
/// occurrence, with their counts.
pub open spec fn flat_terms(nodes: Seq<PredicateNode>, list: Seq<usize>, k: nat) -> Seq<
    (usize, u64),
>
    decreases k,
{
    if k == 0 || k > list.len() {
        Seq::empty()
    } else {
        let before = flat_terms(nodes, list, (k - 1) as nat);
        let n = list[k - 1];
        if !lists(before, n as int) {
            before.push((n, 1u64))
        } else if nodes[n as int].shareable {
            before
        } else {
            counted_again(before, n)
        }
    }
}

/// The terms from node `low` on, the last node first, with their counts.
pub open spec fn descending_terms(
    nodes: Seq<PredicateNode>,
    kind: ConjunctionType,
    list: Seq<usize>,
    low: nat,
) -> Seq<(usize, u64)>
    decreases nodes.len() - low,
{
    if low >= nodes.len() {
        Seq::empty()
    } else {
        let above = descending_terms(nodes, kind, list, low + 1);
        let found = occurrences(nodes, kind, list, list.len(), low as int);
        if is_term(nodes, kind, low as int) && found > 0 {
            above.push((low as usize, counted(nodes[low as int], found)))
        } else {
            above
        }
    }
}

/// The terms of a chain: in the order of their first occurrence where it is
/// flat, readers before what they read where it is nested.
pub open spec fn associative_terms(
    nodes: Seq<PredicateNode>,
    kind: ConjunctionType,
    roots: Seq<usize>,
) -> Seq<(usize, u64)> {
    let shallow = shallow_nodes(nodes, kind, roots, roots.len());
    if is_nested(nodes, kind, shallow) {
        descending_terms(nodes, kind, roots, 0)
    } else {
        flat_terms(nodes, shallow, shallow.len())
    }
}

proof fn lemma_occurrences_concat(
    nodes: Seq<PredicateNode>,
    kind: ConjunctionType,
    a: Seq<usize>,
    b: Seq<usize>,
    k: nat,
    term: int,
)
    requires
        k <= b.len(),
    ensures
        occurrences(nodes, kind, a + b, a.len() + k, term) == occurrences(
            nodes,
            kind,
            a,
            a.len(),
            term,
        ) + occurrences(nodes, kind, b, k, term),
    decreases k,
{
    if k == 0 {
        lemma_occurrences_prefix(nodes, kind, a + b, a, a.len(), term);
    } else {
        lemma_occurrences_concat(nodes, kind, a, b, (k - 1) as nat, term);
        assert((a + b)[a.len() + k - 1] == b[k - 1]);
    }
}

proof fn lemma_occurrences_prefix(
    nodes: Seq<PredicateNode>,
    kind: ConjunctionType,
    longer: Seq<usize>,
    shorter: Seq<usize>,
    k: nat,
    term: int,
)
    requires
        k <= shorter.len() <= longer.len(),
        forall|i: int| 0 <= i < k ==> longer[i] == #[trigger] shorter[i],
    ensures
        occurrences(nodes, kind, longer, k, term) == occurrences(nodes, kind, shorter, k, term),
    decreases k,
{
    if k > 0 {
        lemma_occurrences_prefix(nodes, kind, longer, shorter, (k - 1) as nat, term);
        assert(longer[k - 1] == shorter[k - 1]);
    }
}

proof fn lemma_children_occur(
    nodes: Seq<PredicateNode>,
    kind: ConjunctionType,
    n: int,
    k: nat,
    term: int,
)
    requires
        0 <= n < nodes.len(),
        node_wf(nodes, n),
        k <= nodes[n].children@.len(),
    ensures
        occurrences(nodes, kind, nodes[n].children@, k, term) == child_paths(
            nodes,
            kind,
            n,
            k,
            term,
        ),
    decreases k,
{
    if k > 0 {
        lemma_children_occur(nodes, kind, n, (k - 1) as nat, term);
        assert(nodes[n].children@[k - 1] < n);
    }
}

/// The shallow pass keeps every occurrence.
proof fn lemma_shallow_occurrences(
    nodes: Seq<PredicateNode>,
    kind: ConjunctionType,
    roots: Seq<usize>,
    k: nat,
    term: int,
)
    requires
        forall|n: int| 0 <= n < nodes.len() ==> #[trigger] node_wf(nodes, n),
        are_nodes(nodes, roots),
        k <= roots.len(),
    ensures
        ({
            let shallow = shallow_nodes(nodes, kind, roots, k);
            occurrences(nodes, kind, shallow, shallow.len(), term) == occurrences(
                nodes,
                kind,
                roots,
                k,
                term,
            )
        }),
    decreases k,
{
    if k > 0 {
        let before = shallow_nodes(nodes, kind, roots, (k - 1) as nat);
        let root = roots[k - 1];
        lemma_shallow_occurrences(nodes, kind, roots, (k - 1) as nat, term);
        assert(node_wf(nodes, root as int));
        if is_boolean(nodes[root as int], kind) {
            let children = nodes[root as int].children@;
            lemma_occurrences_concat(nodes, kind, before, children, children.len(), term);
            lemma_children_occur(nodes, kind, root as int, children.len(), term);
        } else {
            lemma_occurrences_concat(nodes, kind, before, seq![root], 1, term);
            reveal_with_fuel(occurrences, 2);
        }
    }
}

proof fn lemma_shallow_are_nodes(
    nodes: Seq<PredicateNode>,
    kind: ConjunctionType,
    roots: Seq<usize>,
    k: nat,
)
    requires
        forall|n: int| 0 <= n < nodes.len() ==> #[trigger] node_wf(nodes, n),
        are_nodes(nodes, roots),
        k <= roots.len(),
    ensures
        are_nodes(nodes, shallow_nodes(nodes, kind, roots, k)),
    decreases k,
{
    if k > 0 {
        lemma_shallow_are_nodes(nodes, kind, roots, (k - 1) as nat);
        let before = shallow_nodes(nodes, kind, roots, (k - 1) as nat);
        let root = roots[k - 1];
        assert(node_wf(nodes, root as int));
        assert forall|i: int|
            0 <= i < shallow_nodes(nodes, kind, roots, k).len() implies (#[trigger] shallow_nodes(
            nodes,
            kind,
            roots,
            k,
        )[i]) < nodes.len() by {
            if i < before.len() {
                assert(before[i] < nodes.len());
            } else if is_boolean(nodes[root as int], kind) {
                assert(nodes[root as int].children@[i - before.len()] < root);
            }
        }
    }
}

/// What the distinct nodes of a flat list are, and their counts.
proof fn lemma_flat_terms(nodes: Seq<PredicateNode>, list: Seq<usize>, k: nat)
    requires
        k <= list.len(),
    ensures
        distinct_nodes(flat_terms(nodes, list, k)),
        flat_terms(nodes, list, k).len() <= k,
        forall|j: int|
            0 <= j < flat_terms(nodes, list, k).len() ==> {
                let item = #[trigger] flat_terms(nodes, list, k)[j];
                &&& multiplicity(list, k, item.0 as int) > 0
                &&& item.1 == counted(
                    nodes[item.0 as int],
                    multiplicity(list, k, item.0 as int),
                )
            },
        forall|n: int|
            #![trigger multiplicity(list, k, n)]
            multiplicity(list, k, n) > 0 ==> lists(flat_terms(nodes, list, k), n),
    decreases k,
{
    if k > 0 {
        let before = flat_terms(nodes, list, (k - 1) as nat);
        let after = flat_terms(nodes, list, k);
        let n = list[k - 1];
        lemma_flat_terms(nodes, list, (k - 1) as nat);
        assert forall|j: int| 0 <= j < after.len() implies {
            let item = #[trigger] after[j];
            &&& multiplicity(list, k, item.0 as int) > 0
            &&& item.1 == counted(nodes[item.0 as int], multiplicity(list, k, item.0 as int))
        } by {
            if j < before.len() {
                let item = before[j];
                assert(multiplicity(list, (k - 1) as nat, item.0 as int) > 0);
            } else {
                if multiplicity(list, (k - 1) as nat, n as int) > 0 {
                    assert(lists(before, n as int));
                }
            }
        }
        assert forall|m: int|
            #![trigger multiplicity(list, k, m)]
            multiplicity(list, k, m) > 0 implies lists(after, m) by {
            if multiplicity(list, (k - 1) as nat, m) > 0 {
                let j = choose|j: int| 0 <= j < before.len() && (#[trigger] before[j]).0 == m;
                assert(after[j].0 == m);
            } else {
                assert(m == n);
                if !lists(before, n as int) {
                    assert(after[before.len() as int].0 == m);
                } else {
                    let j = choose|j: int| 0 <= j < before.len() && (#[trigger] before[j]).0 == m;
                    assert(after[j].0 == m);
                }
            }
        }
        assert(distinct_nodes(after)) by {
            assert forall|i: int, j: int|
                #![trigger after[i], after[j]]
                0 <= i < j < after.len() implies after[i].0 != after[j].0 by {
                if j < before.len() {
                    assert(before[i].0 != before[j].0);
                } else {
                    assert(before[i].0 != n);
                }
            }
        }
    }
}

/// A flat chain lists every term below its roots once, with its count.
proof fn lemma_flat_is_flattened(
    nodes: Seq<PredicateNode>,
    kind: ConjunctionType,
    roots: Seq<usize>,
)
    requires
        forall|n: int| 0 <= n < nodes.len() ==> #[trigger] node_wf(nodes, n),
        are_nodes(nodes, roots),
        !is_nested(nodes, kind, shallow_nodes(nodes, kind, roots, roots.len())),
    ensures
        flattened(associative_terms(nodes, kind, roots), nodes, kind, roots),
{
    let shallow = shallow_nodes(nodes, kind, roots, roots.len());
    let terms = flat_terms(nodes, shallow, shallow.len());
    lemma_shallow_are_nodes(nodes, kind, roots, roots.len());
    lemma_flat_terms(nodes, shallow, shallow.len());
    assert forall|i: int| 0 <= i < shallow.len() implies is_term(
        nodes,
        kind,
        #[trigger] shallow[i] as int,
    ) by {
        assert(!is_boolean(nodes[shallow[i] as int], kind));
    }
    assert forall|n: int|
        #![trigger occurrences(nodes, kind, roots, roots.len(), n)]
        #![trigger multiplicity(shallow, shallow.len(), n)]
        occurrences(nodes, kind, roots, roots.len(), n) == multiplicity(
            shallow,
            shallow.len(),
            n,
        ) by {
        lemma_shallow_occurrences(nodes, kind, roots, roots.len(), n);
        lemma_terms_occur_as_listed(nodes, kind, shallow, shallow.len(), n);
    }
    assert forall|j: int| 0 <= j < terms.len() implies {
        let n = (#[trigger] terms[j]).0 as int;
        &&& is_term(nodes, kind, n)
        &&& occurrences(nodes, kind, roots, roots.len(), n) > 0
        &&& terms[j].1 == counted(nodes[n], occurrences(nodes, kind, roots, roots.len(), n))
    } by {
        let n = terms[j].0 as int;
        lemma_multiplicity(shallow, shallow.len(), n);
        assert(multiplicity(shallow, shallow.len(), n) > 0);
        let i = choose|i: int| 0 <= i < shallow.len() && #[trigger] shallow[i] == n;
        assert(is_term(nodes, kind, shallow[i] as int));
    }
}

/// A nested chain lists every term below its roots once, with its count.
proof fn lemma_descending_terms(
    nodes: Seq<PredicateNode>,
    kind: ConjunctionType,
    roots: Seq<usize>,
    low: nat,
)
    requires
        low <= nodes.len() <= usize::MAX,
    ensures
        ({
            let terms = descending_terms(nodes, kind, roots, low);
            &&& terms.len() <= nodes.len() - low
            &&& distinct_nodes(terms)
            &&& forall|j: int|
                0 <= j < terms.len() ==> {
                    let n = (#[trigger] terms[j]).0 as int;
                    &&& low <= n
                    &&& is_term(nodes, kind, n)
                    &&& occurrences(nodes, kind, roots, roots.len(), n) > 0
                    &&& terms[j].1 == counted(
                        nodes[n],
                        occurrences(nodes, kind, roots, roots.len(), n),
                    )
                }
            &&& forall|n: int|
                low <= n && is_term(nodes, kind, n) && #[trigger] occurrences(
                    nodes,
                    kind,
                    roots,
                    roots.len(),
                    n,
                ) > 0 ==> lists(terms, n)
        }),
    decreases nodes.len() - low,
{
    let terms = descending_terms(nodes, kind, roots, low);
    if low < nodes.len() {
        let above = descending_terms(nodes, kind, roots, low + 1);
        lemma_descending_terms(nodes, kind, roots, low + 1);
        assert forall|n: int|
            low <= n && is_term(nodes, kind, n) && #[trigger] occurrences(
                nodes,
                kind,
                roots,
                roots.len(),
                n,
            ) > 0 implies lists(terms, n) by {
            if n == low {
                assert(terms[above.len() as int].0 == n);
            } else {
                assert(lists(above, n));
                let j = choose|j: int| 0 <= j < above.len() && (#[trigger] above[j]).0 == n;
                assert(terms[j].0 == n);
            }
        }
        assert forall|j: int| 0 <= j < terms.len() implies {
            let n = (#[trigger] terms[j]).0 as int;
            &&& low <= n
            &&& is_term(nodes, kind, n)
            &&& occurrences(nodes, kind, roots, roots.len(), n) > 0
            &&& terms[j].1 == counted(nodes[n], occurrences(nodes, kind, roots, roots.len(), n))
        } by {
            if j < above.len() {
                assert(terms[j] == above[j]);
            }
        }
        assert(distinct_nodes(terms)) by {
            assert forall|i: int, j: int|
                #![trigger terms[i], terms[j]]
                0 <= i < j < terms.len() implies terms[i].0 != terms[j].0 by {
                assert(terms[i] == above[i]);
                if j < above.len() {
                    assert(terms[j] == above[j]);
                }
            }
        }
    }
}

/// However a chain is nested, its terms are those below its roots: each is
/// listed once and counts as often as it occurs, or once where one evaluation
/// is shared.
pub proof fn terms_are_the_occurrences(
    nodes: Seq<PredicateNode>,
    kind: ConjunctionType,
    roots: Seq<usize>,
)
    requires
        forall|n: int| 0 <= n < nodes.len() ==> #[trigger] node_wf(nodes, n),
        are_nodes(nodes, roots),
        nodes.len() <= usize::MAX,
    ensures
        flattened(associative_terms(nodes, kind, roots), nodes, kind, roots),
{
    if is_nested(nodes, kind, shallow_nodes(nodes, kind, roots, roots.len())) {
        lemma_descending_terms(nodes, kind, roots, 0);
    } else {
        lemma_flat_is_flattened(nodes, kind, roots);
    }
}

/// Steps of a shallow pass over the first `k` roots.
pub open spec fn shallow_work(
    nodes: Seq<PredicateNode>,
    kind: ConjunctionType,
    roots: Seq<usize>,
    k: nat,
) -> nat
    decreases k,
{
    if k == 0 {
        0
    } else {
        let root = nodes[roots[k - 1] as int];
        shallow_work(nodes, kind, roots, (k - 1) as nat) + 1 + if is_boolean(root, kind) {
            root.children@.len()
        } else {
            0
        }
    }
}

/// Nodes that a list reaches through the nodes of `kind` from `low` on.
pub open spec fn reached(
    nodes: Seq<PredicateNode>,
    kind: ConjunctionType,
    list: Seq<usize>,
    low: nat,
) -> Set<int>
    decreases nodes.len() - low,
{
    if low >= nodes.len() {
        node_set(list)
    } else {
        let above = reached(nodes, kind, list, low + 1);
        if above.contains(low as int) && is_boolean(nodes[low as int], kind) {
            above.union(node_set(nodes[low as int].children@))
        } else {
            above
        }
    }
}

/// Steps for the nodes from `low` on that a list reaches: one for each of them,
/// and one for each operand of those of `kind`.
pub open spec fn reach_work(
    nodes: Seq<PredicateNode>,
    kind: ConjunctionType,
    list: Seq<usize>,
    low: nat,
) -> nat
    decreases nodes.len() - low,
{
    if low >= nodes.len() {
        0
    } else {
        let node = nodes[low as int];
        reach_work(nodes, kind, list, low + 1) + if !reached(nodes, kind, list, low + 1).contains(
            low as int,
        ) {
            0
        } else if is_boolean(node, kind) {
            1 + node.children@.len()
        } else {
            1
        }
    }
}

proof fn lemma_reach_work_grows(
    nodes: Seq<PredicateNode>,
    kind: ConjunctionType,
    list: Seq<usize>,
    low: nat,
)
    requires
        low <= nodes.len(),
    ensures
        reach_work(nodes, kind, list, low) <= reach_work(nodes, kind, list, 0),
    decreases low,
{
    if low > 0 {
        lemma_reach_work_grows(nodes, kind, list, (low - 1) as nat);
    }
}

/// Steps that it takes to flatten the roots: a shallow pass over them, a step
/// for each node that it finds, and where one of those is of `kind` again the
/// nodes and operands that they reach.
pub open spec fn flatten_work(
    nodes: Seq<PredicateNode>,
    kind: ConjunctionType,
    roots: Seq<usize>,
) -> nat {
    let shallow = shallow_nodes(nodes, kind, roots, roots.len());
    shallow_work(nodes, kind, roots, roots.len()) + shallow.len() + if is_nested(
        nodes,
        kind,
        shallow,
    ) {
        reach_work(nodes, kind, shallow, 0)
    } else {
        0
    }
}

/// Operands of the first `n` nodes.
pub open spec fn edges(nodes: Seq<PredicateNode>, n: nat) -> nat
    decreases n,
{
    if n == 0 {
        0
    } else {
        edges(nodes, (n - 1) as nat) + nodes[n - 1].children@.len()
    }
}

proof fn lemma_reach_work(
    nodes: Seq<PredicateNode>,
    kind: ConjunctionType,
    list: Seq<usize>,
    low: nat,
)
    requires
        low <= nodes.len(),
    ensures
        reach_work(nodes, kind, list, low) <= nodes.len() - low + edges(nodes, nodes.len()) - edges(
            nodes,
            low,
        ),
    decreases nodes.len() - low,
{
    if low < nodes.len() {
        lemma_reach_work(nodes, kind, list, low + 1);
    }
}

/// However often the parts of a chain are shared, it is flattened in steps
/// linear in the nodes and operands of its graph.
pub proof fn flattening_is_linear(
    nodes: Seq<PredicateNode>,
    kind: ConjunctionType,
    roots: Seq<usize>,
)
    ensures
        flatten_work(nodes, kind, roots) <= 2 * shallow_work(nodes, kind, roots, roots.len())
            + nodes.len() + edges(nodes, nodes.len()),
{
    let shallow = shallow_nodes(nodes, kind, roots, roots.len());
    lemma_shallow_work(nodes, kind, roots, roots.len());
    lemma_reach_work(nodes, kind, shallow, 0);
}

proof fn lemma_shallow_work(
    nodes: Seq<PredicateNode>,
    kind: ConjunctionType,
    roots: Seq<usize>,
    k: nat,
)
    requires
        k <= roots.len(),
    ensures
        shallow_nodes(nodes, kind, roots, k).len() <= shallow_work(nodes, kind, roots, k),
    decreases k,
{
    if k > 0 {
        lemma_shallow_work(nodes, kind, roots, (k - 1) as nat);
    }
}

proof fn lemma_shallow_work_grows(
    nodes: Seq<PredicateNode>,
    kind: ConjunctionType,
    roots: Seq<usize>,
    k: nat,
    m: nat,
)
    requires
        k <= m,
    ensures
        shallow_work(nodes, kind, roots, k) <= shallow_work(nodes, kind, roots, m),
    decreases m,
{
    if k < m {
        lemma_shallow_work_grows(nodes, kind, roots, k, (m - 1) as nat);
    }
}

/// Collects the terms of a chain of conjunctions (or disjunctions). Flat
/// predicates are recognized by a shallow pass; nested and shared ones go
/// through the general graph.
pub fn flatten_associative<A: WorkAdmission>(
    graph: &PredicateGraph,
    roots: &Vec<usize>,
    kind: ConjunctionType,
    work: &mut SelectivityWork<A>,
) -> (r: Result<NodeList, SelectivityStop<A::Error>>)
    requires
        graph.wf(),
        are_nodes(graph.nodes@, roots@),
    ensures
        r matches Ok(terms) ==> terms@ == associative_terms(graph.nodes@, kind, roots@)
            && flattened(terms@, graph.nodes@, kind, roots@),
        is_run::<A>(old(work).answers(), final(work).answers(), stopped(r)),
        takes::<A>(
            old(work).answers(),
            final(work).answers(),
            stopped(r),
            flatten_work(graph.nodes@, kind, roots@),
        ),
{
    let ghost nodes = graph.nodes@;
    let size: usize = graph.nodes.len();
    assert(nodes.len() == size);
    let mut shallow = NodeSequence::new();
    let mut nested: bool = false;
    let mut i: usize = 0;
    while i < roots.len()
        invariant
            graph.wf(),
            nodes == graph.nodes@,
            are_nodes(nodes, roots@),
            i <= roots@.len(),
            is_run::<A>(old(work).answers(), work.answers(), None),
            work.answers().len() == old(work).answers().len() + shallow_work(
                nodes,
                kind,
                roots@,
                i as nat,
            ),
            shallow@ == shallow_nodes(nodes, kind, roots@, i as nat),
            nested == is_nested(nodes, kind, shallow@),
        decreases roots@.len() - i,
    {
        proof {
            lemma_shallow_work_grows(nodes, kind, roots@, (i + 1) as nat, roots@.len());
        }
        if let Err(stop) = work.take_step() {
            return Err(stop);
        }
        let root: usize = roots[i];
        assert(node_wf(nodes, root as int));
        let ghost start = shallow@;
        let ghost whole = shallow_nodes(nodes, kind, roots@, (i + 1) as nat);
        if same_boolean_kind(kind, &graph.nodes[root]) {
            let ghost children = nodes[root as int].children@;
            let mut c: usize = 0;
            assert(children.take(0) =~= Seq::<usize>::empty());
            assert(start + children.take(0) =~= start);
            while c < graph.nodes[root].children.len()
                invariant
                    graph.wf(),
                    nodes == graph.nodes@,
                    root < nodes.len(),
                    node_wf(nodes, root as int),
                    children == nodes[root as int].children@,
                    i < roots@.len(),
                    roots@[i as int] == root,
                    is_boolean(nodes[root as int], kind),
                    shallow_work(nodes, kind, roots@, (i + 1) as nat) <= shallow_work(
                        nodes,
                        kind,
                        roots@,
                        roots@.len(),
                    ),
                    whole == start + children,
                    c <= children.len(),
                    is_run::<A>(old(work).answers(), work.answers(), None),
                    work.answers().len() == old(work).answers().len() + shallow_work(
                        nodes,
                        kind,
                        roots@,
                        i as nat,
                    ) + 1 + c,
                    shallow@ == start + children.take(c as int),
                    nested == is_nested(nodes, kind, shallow@),
                decreases children.len() - c,
            {
                if let Err(stop) = work.take_step() {
                    return Err(stop);
                }
                let child: usize = graph.nodes[root].children[c];
                let ghost before = shallow@;
                shallow.push(child);
                if same_boolean_kind(kind, &graph.nodes[child]) {
                    nested = true;
                    assert(shallow@[before.len() as int] == child);
                }
                proof {
                    assert(children.take(c + 1) =~= children.take(c as int).push(child));
                    assert(shallow@ =~= start + children.take(c + 1));
                    lemma_nested_push(nodes, kind, before, child);
                }
                c = c + 1;
            }
            proof {
                assert(children.take(c as int) =~= children);
            }
        } else {
            shallow.push(root);
            proof {
                assert(shallow@ =~= start + seq![root]);
                lemma_nested_push(nodes, kind, start, root);
            }
        }
        i = i + 1;
    }
    proof {
        lemma_shallow_work(nodes, kind, roots@, roots@.len());
        lemma_shallow_are_nodes(nodes, kind, roots@, roots@.len());
        terms_are_the_occurrences(nodes, kind, roots@);
    }
    if nested {
        let terms = match flatten_associative_dag(graph, &shallow, kind, work) {
            Ok(terms) => terms,
            Err(stop) => {
                return Err(stop);
            },
        };
        proof {
            assert forall|term: int|
                #![trigger occurrences(nodes, kind, shallow@, shallow@.len(), term)]
                occurrences(nodes, kind, shallow@, shallow@.len(), term) == occurrences(
                    nodes,
                    kind,
                    roots@,
                    roots@.len(),
                    term,
                ) by {
                lemma_shallow_occurrences(nodes, kind, roots@, roots@.len(), term);
            }
            lemma_descending_same(nodes, kind, shallow@, roots@, 0);
        }
        return Ok(terms);
    }
    merge_repeated(graph, &shallow, work)
}

proof fn lemma_nested_push(
    nodes: Seq<PredicateNode>,
    kind: ConjunctionType,
    list: Seq<usize>,
    added: usize,
)
    ensures
        is_nested(nodes, kind, list.push(added)) <==> (is_nested(nodes, kind, list) || is_boolean(
            nodes[added as int],
            kind,
        )),
{
    let longer = list.push(added);
    if is_nested(nodes, kind, list) {
        let i = choose|i: int|
            0 <= i < list.len() && is_boolean(nodes[#[trigger] list[i] as int], kind);
        assert(longer[i] == list[i]);
    }
    if is_boolean(nodes[added as int], kind) {
        assert(longer[list.len() as int] == added);
    }
    if is_nested(nodes, kind, longer) {
        let i = choose|i: int|
            0 <= i < longer.len() && is_boolean(nodes[#[trigger] longer[i] as int], kind);
        if i < list.len() {
            assert(list[i] == longer[i]);
        }
    }
}

proof fn lemma_descending_same(
    nodes: Seq<PredicateNode>,
    kind: ConjunctionType,
    a: Seq<usize>,
    b: Seq<usize>,
    low: nat,
)
    requires
        forall|term: int|
            #![trigger occurrences(nodes, kind, a, a.len(), term)]
            occurrences(nodes, kind, a, a.len(), term) == occurrences(
                nodes,
                kind,
                b,
                b.len(),
                term,
            ),
    ensures
        descending_terms(nodes, kind, a, low) == descending_terms(nodes, kind, b, low),
    decreases nodes.len() - low,
{
    if low < nodes.len() {
        lemma_descending_same(nodes, kind, a, b, low + 1);
        assert(occurrences(nodes, kind, a, a.len(), low as int) == occurrences(
            nodes,
            kind,
            b,
            b.len(),
            low as int,
        ));
    }
}

/// Whether the index holds the position of every listed node, and no others.
spec fn indexes(positions: Map<usize, usize>, list: Seq<(usize, u64)>) -> bool {
    &&& forall|j: int|
        0 <= j < list.len() ==> positions.contains_key((#[trigger] list[j]).0)
            && positions[list[j].0] == j
    &&& forall|n: usize| #[trigger]
        positions.contains_key(n) ==> positions[n] < list.len() && list[positions[n] as int].0 == n
}

/// The distinct nodes of a flat list with their counts. Short lists are
/// searched; once the list no longer fits inline an index finds the nodes, so
/// that wide filters do not take quadratic work.
fn merge_repeated<A: WorkAdmission>(
    graph: &PredicateGraph,
    shallow: &NodeSequence,
    work: &mut SelectivityWork<A>,
) -> (r: Result<NodeList, SelectivityStop<A::Error>>)
    requires
        graph.wf(),
        are_nodes(graph.nodes@, shallow@),
    ensures
        r matches Ok(terms) ==> terms@ == flat_terms(graph.nodes@, shallow@, shallow@.len()),
        is_run::<A>(old(work).answers(), final(work).answers(), stopped(r)),
        takes::<A>(
            old(work).answers(),
            final(work).answers(),
            stopped(r),
            shallow@.len(),
        ),
{
    broadcast use vstd::std_specs::hash::group_hash_axioms;

    let ghost nodes = graph.nodes@;
    let mut terms = NodeList::new();
    let mut positions: Option<HashMap<usize, usize>> = None;
    let mut i: usize = 0;
    while i < shallow.len()
        invariant
            nodes == graph.nodes@,
            are_nodes(nodes, shallow@),
            i <= shallow@.len(),
            is_run::<A>(old(work).answers(), work.answers(), None),
            work.answers().len() == old(work).answers().len() + i,
            terms@ == flat_terms(nodes, shallow@, i as nat),
            positions matches Some(index) ==> indexes(index@, terms@),
        decreases shallow@.len() - i,
    {
        if let Err(stop) = work.take_step() {
            return Err(stop);
        }
        let node: usize = shallow.get(i);
        proof {
            lemma_flat_terms(nodes, shallow@, i as nat);
        }
        if positions.is_none() && terms.len() == terms.inline_size() {
            positions = Some(index_nodes(&terms));
        }
        let position: Option<usize> = match &positions {
            Some(index) => match index.get(&node) {
                Some(found) => Some(*found),
                None => None,
            },
            None => find_node(&terms, node),
        };
        proof {
            if let Some(index) = &positions {
                if lists(terms@, node as int) {
                    let j = choose|j: int|
                        0 <= j < terms@.len() && (#[trigger] terms@[j]).0 == node;
                    assert(index@.contains_key(terms@[j].0));
                }
            }
        }
        match position {
            Some(j) => {
                assert(terms@[j as int].0 == node);
                assert(lists(terms@, node as int));
                if !graph.nodes[node].shareable {
                    let ghost before = terms@;
                    let count: u64 = terms.get(j).1;
                    terms.set(j, node, saturating_add_u64(count, 1));
                    proof {
                        assert forall|k: int| 0 <= k < before.len() implies #[trigger] terms@[k]
                            == counted_again(before, node)[k] by {
                            if k < j {
                                assert(before[k].0 != before[j as int].0);
                            } else if k > j {
                                assert(before[j as int].0 != before[k].0);
                            }
                        }
                        assert(terms@ =~= counted_again(before, node));
                        assert forall|k: int| 0 <= k < terms@.len() implies (#[trigger] terms@[k]).0
                            == before[k].0 by {}
                        if let Some(index) = &positions {
                            assert forall|k: int| 0 <= k < terms@.len() implies index@.contains_key(
                                (#[trigger] terms@[k]).0,
                            ) && index@[terms@[k].0] == k by {
                                assert(index@.contains_key(before[k].0));
                            }
                            assert(indexes(index@, terms@));
                        }
                    }
                }
            },
            None => {
                assert(!lists(terms@, node as int));
                let ghost before = terms@;
                if let Some(index) = &mut positions {
                    index.insert(node, terms.len());
                }
                terms.push(node, 1);
                proof {
                    if let Some(index) = &positions {
                        assert forall|k: int| 0 <= k < terms@.len() implies index@.contains_key(
                            (#[trigger] terms@[k]).0,
                        ) && index@[terms@[k].0] == k by {
                            if k < before.len() {
                                assert(terms@[k] == before[k]);
                                assert(before[k].0 != node);
                            }
                        }
                        assert(indexes(index@, terms@));
                    }
                }
            },
        }
        i = i + 1;
    }
    Ok(terms)
}

fn find_node(list: &NodeList, node: usize) -> (r: Option<usize>)
    ensures
        match r {
            Some(j) => j < list@.len() && list@[j as int].0 == node,
            None => !lists(list@, node as int),
        },
{
    let mut j: usize = 0;
    while j < list.len()
        invariant
            j <= list@.len(),
            forall|k: int| 0 <= k < j ==> (#[trigger] list@[k]).0 != node,
        decreases list@.len() - j,
    {
        if list.get(j).0 == node {
            return Some(j);
        }
        j = j + 1;
    }
    None
}

fn index_nodes(list: &NodeList) -> (r: HashMap<usize, usize>)
    requires
        distinct_nodes(list@),
    ensures
        indexes(r@, list@),
{
    broadcast use vstd::std_specs::hash::group_hash_axioms;

    let mut r: HashMap<usize, usize> = HashMap::new();
    let mut j: usize = 0;
    while j < list.len()
        invariant
            j <= list@.len(),
            distinct_nodes(list@),
            forall|k: int|
                0 <= k < j ==> r@.contains_key((#[trigger] list@[k]).0) && r@[list@[k].0] == k,
            forall|n: usize| #[trigger]
                r@.contains_key(n) ==> r@[n] < j && list@[r@[n] as int].0 == n,
        decreases list@.len() - j,
    {
        let ghost before = r@;
        let node: usize = list.get(j).0;
        r.insert(node, j);
        proof {
            assert forall|k: int| 0 <= k < j + 1 implies r@.contains_key((#[trigger] list@[k]).0)
                && r@[list@[k].0] == k by {
                if k < j {
                    assert(list@[k].0 != list@[j as int].0);
                }
            }
        }
        j = j + 1;
    }
    r
}

/// Occurrences of `term` below the first `k` nodes, each weighted.
spec fn weighted_paths(
    nodes: Seq<PredicateNode>,
    kind: ConjunctionType,
    weights: Seq<nat>,
    k: nat,
    term: int,
) -> nat
    decreases k,
{
    if k == 0 {
        0
    } else {
        weighted_paths(nodes, kind, weights, (k - 1) as nat, term) + weights[k - 1] * paths(
            nodes,
            kind,
            k - 1,
            term,
        )
    }
}

proof fn lemma_weighted_paths_update(
    nodes: Seq<PredicateNode>,
    kind: ConjunctionType,
    weights: Seq<nat>,
    n: int,
    more: nat,
    k: nat,
    term: int,
)
    requires
        0 <= n < weights.len(),
        k <= weights.len(),
    ensures
        weighted_paths(nodes, kind, weights.update(n, weights[n] + more), k, term)
            == weighted_paths(nodes, kind, weights, k, term) + if n < k {
            more * paths(nodes, kind, n, term)
        } else {
            0
        },
    decreases k,
{
    let updated = weights.update(n, weights[n] + more);
    if k > 0 {
        lemma_weighted_paths_update(nodes, kind, weights, n, more, (k - 1) as nat, term);
        if n == k - 1 {
            let through = paths(nodes, kind, n, term);
            assert((weights[n] + more) * through == weights[n] * through + more * through)
                by (nonlinear_arith);
        }
    }
}

/// A term is reached from no node before it.
pub proof fn lemma_no_paths_up(
    nodes: Seq<PredicateNode>,
    kind: ConjunctionType,
    n: int,
    term: int,
)
    requires
        n < term,
    ensures
        paths(nodes, kind, n, term) == 0,
    decreases n, 1nat, 0nat,
{
    if 0 <= n < nodes.len() && is_boolean(nodes[n], kind) {
        lemma_no_child_paths_up(nodes, kind, n, nodes[n].children@.len(), term);
    }
}

proof fn lemma_no_child_paths_up(
    nodes: Seq<PredicateNode>,
    kind: ConjunctionType,
    n: int,
    k: nat,
    term: int,
)
    requires
        n < term,
    ensures
        child_paths(nodes, kind, n, k, term) == 0,
    decreases n, 0nat, k,
{
    if 0 <= n < nodes.len() && 0 < k <= nodes[n].children@.len() {
        lemma_no_child_paths_up(nodes, kind, n, (k - 1) as nat, term);
        let child = nodes[n].children@[k - 1] as int;
        if child < n {
            lemma_no_paths_up(nodes, kind, child, term);
        }
    }
}

proof fn lemma_no_weighted_paths_up(
    nodes: Seq<PredicateNode>,
    kind: ConjunctionType,
    weights: Seq<nat>,
    k: nat,
    term: int,
)
    requires
        k <= term,
    ensures
        weighted_paths(nodes, kind, weights, k, term) == 0,
    decreases k,
{
    if k > 0 {
        lemma_no_weighted_paths_up(nodes, kind, weights, (k - 1) as nat, term);
        lemma_no_paths_up(nodes, kind, k - 1, term);
    }
}

proof fn lemma_no_weights(
    nodes: Seq<PredicateNode>,
    kind: ConjunctionType,
    weights: Seq<nat>,
    k: nat,
    term: int,
)
    requires
        k <= weights.len(),
        forall|n: int| 0 <= n < weights.len() ==> #[trigger] weights[n] == 0,
    ensures
        weighted_paths(nodes, kind, weights, k, term) == 0,
    decreases k,
{
    if k > 0 {
        lemma_no_weights(nodes, kind, weights, (k - 1) as nat, term);
        assert(weights[k - 1] == 0);
    }
}

/// Counts the occurrences of every term by passing the count of each node on
/// to its children, readers first. Walking the paths themselves would expand a
/// small shared graph exponentially.
#[verifier::spinoff_prover]
fn flatten_associative_dag<A: WorkAdmission>(
    graph: &PredicateGraph,
    list: &NodeSequence,
    kind: ConjunctionType,
    work: &mut SelectivityWork<A>,
) -> (r: Result<NodeList, SelectivityStop<A::Error>>)
    requires
        graph.wf(),
        are_nodes(graph.nodes@, list@),
    ensures
        r matches Ok(terms) ==> terms@ == descending_terms(graph.nodes@, kind, list@, 0),
        is_run::<A>(old(work).answers(), final(work).answers(), stopped(r)),
        takes::<A>(
            old(work).answers(),
            final(work).answers(),
            stopped(r),
            list@.len() + reach_work(graph.nodes@, kind, list@, 0),
        ),
{
    let ghost nodes = graph.nodes@;
    let size: usize = graph.nodes.len();
    let mut counts: Vec<u64> = Vec::new();
    let ghost mut weights: Seq<nat> = Seq::new(nodes.len(), |n: int| 0nat);
    let mut n: usize = 0;
    while n < size
        invariant
            n <= size,
            counts@.len() == n,
            forall|m: int| 0 <= m < n ==> #[trigger] counts@[m] == 0,
        decreases size - n,
    {
        counts.push(0);
        n = n + 1;
    }
    proof {
        assert forall|term: int|
            #![trigger weighted_paths(nodes, kind, weights, nodes.len(), term)]
            weighted_paths(nodes, kind, weights, nodes.len(), term) == 0 by {
            lemma_no_weights(nodes, kind, weights, nodes.len(), term);
        }
    }
    let mut i: usize = 0;
    while i < list.len()
        invariant
            nodes == graph.nodes@,
            are_nodes(nodes, list@),
            i <= list@.len(),
            is_run::<A>(old(work).answers(), work.answers(), None),
            work.answers().len() == old(work).answers().len() + i,
            forall|m: int|
                0 <= m < nodes.len() ==> ((#[trigger] weights[m]) > 0 <==> exists|k: int|
                    0 <= k < i && #[trigger] list@[k] == m),
            counts@.len() == nodes.len(),
            weights.len() == nodes.len(),
            forall|m: int|
                0 <= m < nodes.len() ==> #[trigger] counts@[m] == capped(weights[m] as int),
            forall|term: int|
                #![trigger weighted_paths(nodes, kind, weights, nodes.len(), term)]
                #![trigger occurrences(nodes, kind, list@, i as nat, term)]
                weighted_paths(nodes, kind, weights, nodes.len(), term) == occurrences(
                    nodes,
                    kind,
                    list@,
                    i as nat,
                    term,
                ),
        decreases list@.len() - i,
    {
        if let Err(stop) = work.take_step() {
            return Err(stop);
        }
        let root: usize = list.get(i);
        let ghost before = weights;
        counts.set(root, saturating_add_u64(counts[root], 1));
        proof {
            weights = weights.update(root as int, weights[root as int] + 1);
            assert forall|m: int| 0 <= m < nodes.len() implies ((#[trigger] weights[m]) > 0
                <==> exists|k: int| 0 <= k < i + 1 && #[trigger] list@[k] == m) by {
                assert(before[m] > 0 <==> exists|k: int| 0 <= k < i && #[trigger] list@[k] == m);
                if m == root {
                    assert(list@[i as int] == m);
                }
            }
            assert forall|term: int|
                #![trigger weighted_paths(nodes, kind, weights, nodes.len(), term)]
                #![trigger occurrences(nodes, kind, list@, (i + 1) as nat, term)]
                weighted_paths(nodes, kind, weights, nodes.len(), term) == occurrences(
                    nodes,
                    kind,
                    list@,
                    (i + 1) as nat,
                    term,
                ) by {
                lemma_weighted_paths_update(
                    nodes,
                    kind,
                    before,
                    root as int,
                    1,
                    nodes.len(),
                    term,
                );
                assert(weighted_paths(nodes, kind, before, nodes.len(), term) == occurrences(
                    nodes,
                    kind,
                    list@,
                    i as nat,
                    term,
                ));
            }
        }
        i = i + 1;
    }
    let mut output = NodeList::new();
    let mut left: usize = size;
    while left > 0
        invariant
            graph.wf(),
            nodes == graph.nodes@,
            left <= nodes.len(),
            is_run::<A>(old(work).answers(), work.answers(), None),
            work.answers().len() == old(work).answers().len() + list@.len() + reach_work(
                nodes,
                kind,
                list@,
                left as nat,
            ),
            forall|m: int|
                0 <= m < nodes.len() ==> ((#[trigger] weights[m]) > 0 <==> reached(
                    nodes,
                    kind,
                    list@,
                    left as nat,
                ).contains(m)),
            counts@.len() == nodes.len(),
            weights.len() == nodes.len(),
            forall|m: int|
                0 <= m < nodes.len() ==> #[trigger] counts@[m] == capped(weights[m] as int),
            forall|term: int|
                0 <= term < left && is_term(nodes, kind, term) ==> weighted_paths(
                    nodes,
                    kind,
                    weights,
                    left as nat,
                    term,
                ) == #[trigger] occurrences(nodes, kind, list@, list@.len(), term),
            output@ == descending_terms(nodes, kind, list@, left as nat),
        decreases left,
    {
        let current: usize = left - 1;
        let found: u64 = counts[current];
        proof {
            lemma_reach_work_grows(nodes, kind, list@, current as nat);
            assert(weights[current as int] > 0 <==> reached(
                nodes,
                kind,
                list@,
                left as nat,
            ).contains(current as int));
            assert(counts@[current as int] == capped(weights[current as int] as int));
        }
        if found > 0 {
            if let Err(stop) = work.take_step() {
                return Err(stop);
            }
        }
        let ghost weight = weights[current as int];
        assert(node_wf(nodes, current as int));
        assert(counts@[current as int] == capped(weight as int));
        if same_boolean_kind(kind, &graph.nodes[current]) {
            let ghost start = weights;
            let ghost children = nodes[current as int].children@;
            if found > 0 {
                let mut c: usize = 0;
                while c < graph.nodes[current].children.len()
                    invariant
                        graph.wf(),
                        nodes == graph.nodes@,
                        current < nodes.len(),
                        node_wf(nodes, current as int),
                        children == nodes[current as int].children@,
                        left == current + 1,
                        c <= children.len(),
                        is_run::<A>(old(work).answers(), work.answers(), None),
                        work.answers().len() == old(work).answers().len() + list@.len()
                            + reach_work(nodes, kind, list@, left as nat) + 1 + c,
                        work.answers().len() <= old(work).answers().len() + list@.len()
                            + reach_work(nodes, kind, list@, 0) - children.len() + c,
                        weight > 0,
                        start.len() == nodes.len(),
                        forall|m: int|
                            0 <= m < nodes.len() ==> ((#[trigger] weights[m]) > 0 <==> (start[m] > 0
                                || exists|k: int| 0 <= k < c && #[trigger] children[k] == m)),
                        counts@.len() == nodes.len(),
                        weights.len() == nodes.len(),
                        found == capped(weight as int),
                        forall|m: int|
                            0 <= m < nodes.len() ==> #[trigger] counts@[m] == capped(
                                weights[m] as int,
                            ),
                        forall|term: int|
                            #![trigger weighted_paths(nodes, kind, weights, current as nat, term)]
                            #![trigger child_paths(nodes, kind, current as int, c as nat, term)]
                            weighted_paths(nodes, kind, weights, current as nat, term)
                                == weighted_paths(nodes, kind, start, current as nat, term)
                                + weight * child_paths(
                                nodes,
                                kind,
                                current as int,
                                c as nat,
                                term,
                            ),
                    decreases children.len() - c,
                {
                    if let Err(stop) = work.take_step() {
                        return Err(stop);
                    }
                    let child: usize = graph.nodes[current].children[c];
                    let ghost before = weights;
                    assert(children[c as int] < current);
                    counts.set(child, saturating_add_u64(counts[child], found));
                    proof {
                        weights = weights.update(child as int, weights[child as int] + weight);
                        assert forall|m: int| 0 <= m < nodes.len() implies ((
                        #[trigger] weights[m]) > 0 <==> (start[m] > 0 || exists|k: int|
                            0 <= k < c + 1 && #[trigger] children[k] == m)) by {
                            assert(before[m] > 0 <==> (start[m] > 0 || exists|k: int|
                                0 <= k < c && #[trigger] children[k] == m));
                            if m == child {
                                assert(children[c as int] == m);
                            }
                        }
                        assert forall|term: int|
                            #![trigger weighted_paths(nodes, kind, weights, current as nat, term)]
                            #![trigger child_paths(nodes, kind, current as int, (c + 1) as nat, term)]
                            weighted_paths(nodes, kind, weights, current as nat, term)
                                == weighted_paths(nodes, kind, start, current as nat, term)
                                + weight * child_paths(
                                nodes,
                                kind,
                                current as int,
                                (c + 1) as nat,
                                term,
                            ) by {
                            lemma_weighted_paths_update(
                                nodes,
                                kind,
                                before,
                                child as int,
                                weight,
                                current as nat,
                                term,
                            );
                            let a = child_paths(nodes, kind, current as int, c as nat, term);
                            let b = paths(nodes, kind, child as int, term);
                            assert(weighted_paths(nodes, kind, before, current as nat, term)
                                == weighted_paths(nodes, kind, start, current as nat, term)
                                + weight * a);
                            assert(child_paths(nodes, kind, current as int, (c + 1) as nat, term)
                                == a + b);
                            assert(weight * (a + b) == weight * a + weight * b)
                                by (nonlinear_arith);
                        }
                    }
                    c = c + 1;
                }
            }
            proof {
                assert forall|term: int|
                    0 <= term < current && is_term(nodes, kind, term) implies weighted_paths(
                    nodes,
                    kind,
                    weights,
                    current as nat,
                    term,
                ) == #[trigger] occurrences(nodes, kind, list@, list@.len(), term) by {
                    assert(weighted_paths(nodes, kind, start, left as nat, term) == weighted_paths(
                        nodes,
                        kind,
                        start,
                        current as nat,
                        term,
                    ) + weight * paths(nodes, kind, current as int, term));
                    let ways = paths(nodes, kind, current as int, term);
                    if found > 0 {
                        assert(child_paths(
                            nodes,
                            kind,
                            current as int,
                            children.len(),
                            term,
                        ) == ways);
                        assert(weighted_paths(nodes, kind, weights, current as nat, term)
                            == weighted_paths(nodes, kind, start, current as nat, term) + weight
                            * ways);
                    } else {
                        assert(weights == start);
                        assert(weight * ways == 0) by (nonlinear_arith)
                            requires
                                weight == 0,
                        ;
                    }
                }
                assert(!is_term(nodes, kind, current as int));
                assert forall|m: int| 0 <= m < nodes.len() implies ((#[trigger] weights[m]) > 0
                    <==> reached(nodes, kind, list@, current as nat).contains(m)) by {
                    assert(start[m] > 0 <==> reached(nodes, kind, list@, left as nat).contains(m));
                    if found > 0 {
                        assert(node_set(children).contains(m) <==> exists|k: int|
                            0 <= k < children.len() && #[trigger] children[k] == m);
                    }
                }
            }
        } else {
            proof {
                assert(is_term(nodes, kind, current as int));
                lemma_no_weighted_paths_up(
                    nodes,
                    kind,
                    weights,
                    current as nat,
                    current as int,
                );
                assert(paths(nodes, kind, current as int, current as int) == 1);
                assert(weighted_paths(nodes, kind, weights, left as nat, current as int)
                    == occurrences(nodes, kind, list@, list@.len(), current as int));
                assert(weight * 1 == weight);
                assert forall|term: int|
                    0 <= term < current && is_term(nodes, kind, term) implies weighted_paths(
                    nodes,
                    kind,
                    weights,
                    current as nat,
                    term,
                ) == #[trigger] occurrences(nodes, kind, list@, list@.len(), term) by {
                    assert(paths(nodes, kind, current as int, term) == 0);
                    assert(weight * 0 == 0);
                }
            }
            if found > 0 {
                output.push(
                    current,
                    if graph.nodes[current].shareable {
                        1
                    } else {
                        found
                    },
                );
            }
        }
        left = current;
    }
    Ok(output)
}

} // verus!
