//! Selectivity of expressions over columns with statistics.

use vstd::prelude::*;

use crate::estimate::cardinality::capped;
use crate::estimate::selectivity::filter::{plan_filter, plans_filter, FilterPlan};
use crate::estimate::selectivity::flatten::{
    are_nodes, associative_terms, is_term, occurrences, terms_are_the_occurrences,
};
use crate::estimate::selectivity::predicate::{PredicateGraph, PredicateNode};
use crate::estimate::selectivity::resolve::{
    are_roots, can_share, is_answer, represents, BuiltNodes, Resolution, StatisticsResolver,
};
use crate::estimate::selectivity::spine::{
    comes_to, composite, is_composite, is_path, is_walk, is_whole_walk, walk_edges, walk_steps,
};
use crate::estimate::selectivity::steps::{
    computes, estimate_all, estimate_nodes, estimate_work, graph_wf, node_set, EstimateStep,
};
use crate::estimate::selectivity::work::{
    group_runs, is_run, stopped, unrestricted_work_goes_on, SelectivityStop, SelectivityWork,
    Unrestricted, WorkAdmission,
};
use crate::expression::Expression;
use crate::statistics::ColumnStatisticsLookup;
use crate::types::{ColumnBinding, ConjunctionType};

verus! {

/// What an estimate of one predicate computes.
#[derive(Debug)]
pub struct SelectivityPlan {
    pub graph: PredicateGraph,
    /// The node of the predicate itself.
    pub root: usize,
    pub steps: Vec<EstimateStep>,
}

/// Whether a graph with a root is that of an expression, with one node for
/// each shared part.
pub open spec fn is_graph_of(
    nodes: Seq<PredicateNode>,
    root: usize,
    e: Expression,
    resolution: Resolution,
) -> bool {
    exists|built: BuiltNodes| #[trigger]
        built.hold(nodes, resolution) && root < nodes.len() && built.entries@[root as int] == e
}

/// Whether a plan computes the selectivity of an expression.
pub open spec fn plans_selectivity(
    plan: SelectivityPlan,
    e: Expression,
    resolution: Resolution,
) -> bool {
    &&& plan.graph.wf()
    &&& is_graph_of(plan.graph.nodes@, plan.root, e, resolution)
    &&& represents(plan.graph.nodes@, plan.root as int, e@, resolution)
    &&& computes(plan.steps@, plan.graph.nodes@, set![plan.root as int])
}

/// Steps of an analysis: those of the walk over its operands, and those that
/// its graph takes where it has operands to put together.
pub open spec fn analysis_steps(
    seen: Seq<Expression>,
    e: Expression,
    nodes: Seq<PredicateNode>,
    root: usize,
) -> nat {
    walk_steps(seen) + if is_composite(e@) {
        estimate_work(nodes, seq![root])
    } else {
        0
    }
}

/// Whether an analysis has taken so many steps without an end: some of the
/// walk, or all of it and some of those that its graph takes.
pub open spec fn is_cut_short(
    steps: int,
    seen: Seq<Expression>,
    e: Expression,
    resolution: Resolution,
) -> bool {
    ||| is_walk(e, seen) && 0 < steps <= walk_steps(seen)
    ||| is_whole_walk(e, seen) && exists|nodes: Seq<PredicateNode>, root: usize| #[trigger]
        is_graph_of(nodes, root, e, resolution) && walk_steps(seen) < steps <= analysis_steps(
            seen,
            e,
            nodes,
            root,
        )
}

/// Plans the selectivity of one predicate, as far as the work is granted. A
/// stopped analysis gives no plan, and a plan is given only where every step
/// was granted. A predicate that is not put together from others takes one
/// step; the operands of any other are asked for before they are followed.
pub fn estimate_selectivity_controlled<'a, L: ColumnStatisticsLookup, A: WorkAdmission>(
    e: &Expression,
    resolver: &StatisticsResolver<'a, L>,
    work: &mut SelectivityWork<A>,
) -> (r: Result<SelectivityPlan, SelectivityStop<A::Error>>)
    ensures
        is_run::<A>(old(work).answers(), final(work).answers(), stopped(r)),
        match r {
            Ok(plan) => {
                &&& plans_selectivity(plan, *e, resolver@)
                &&& exists|seen: Seq<Expression>| #[trigger]
                    is_whole_walk(*e, seen) && final(work).answers().len() == old(
                        work,
                    ).answers().len() + analysis_steps(seen, *e, plan.graph.nodes@, plan.root)
            },
            Err(_) => exists|seen: Seq<Expression>| #[trigger]
                is_cut_short(
                    final(work).answers().len() - old(work).answers().len(),
                    seen,
                    *e,
                    resolver@,
                ),
        },
{
    broadcast use group_runs;

    let mut seen: Vec<Expression> = Vec::new();
    if let Err(stop) = walk_edges(e, &mut seen, work) {
        assert(is_cut_short(
            work.answers().len() - old(work).answers().len(),
            seen@,
            *e,
            resolver@,
        ));
        return Err(stop);
    }
    let mut graph = PredicateGraph::new();
    let mut built = BuiltNodes::new();
    assert(graph.nodes@ =~= Seq::empty());
    let root: usize = resolver.add_expression(e, &mut graph, &mut built);
    let scopes = graph.scopes();
    let mut roots: Vec<usize> = Vec::new();
    roots.push(root);
    let ghost list = roots@;
    proof {
        assert(list =~= seq![root]);
        assert(represents(
            graph.nodes@,
            root as int,
            built.entries@[root as int]@,
            resolver@,
        ));
        assert(is_graph_of(graph.nodes@, root, *e, resolver@));
        assert forall|n: int| #[trigger] node_set(list).contains(n) <==> set![
            root as int,
        ].contains(n) by {
            if n == root {
                assert(list[0] == n);
            }
        }
        assert(node_set(list) =~= set![root as int]);
    }
    if !composite(e) {
        let steps = estimate_all(&graph, &scopes, &roots);
        return Ok(SelectivityPlan { graph, root, steps });
    }
    match estimate_nodes(&graph, &scopes, &roots, work) {
        Ok(steps) => Ok(SelectivityPlan { graph, root, steps }),
        Err(stop) => {
            assert(is_cut_short(
                work.answers().len() - old(work).answers().len(),
                seen@,
                *e,
                resolver@,
            ));
            Err(stop)
        },
    }
}

/// A predicate that is not put together from others takes one step.
pub proof fn atomic_predicate_takes_one_step(
    e: Expression,
    seen: Seq<Expression>,
    nodes: Seq<PredicateNode>,
    root: usize,
)
    requires
        !is_composite(e@),
        is_walk(e, seen),
    ensures
        analysis_steps(seen, e, nodes, root) == 1,
{
    if seen.len() > 0 {
        assert(comes_to(e, seen[0]));
        let path = choose|path: Seq<Expression>| #[trigger]
            is_path(path) && path.first() == e && path.last() == seen[0];
        if path.len() > 1 {
            assert(is_composite(path[0]@));
        }
    }
}

/// In a chain of conditions, a shared one that gives one result to all readers
/// counts once, and any other as often as it occurs. Two conditions that are
/// listed apart are no shared one.
pub proof fn shared_predicate_counts_once(
    built: BuiltNodes,
    nodes: Seq<PredicateNode>,
    resolution: Resolution,
    kind: ConjunctionType,
    roots: Seq<usize>,
)
    requires
        built.hold(nodes, resolution),
        graph_wf(nodes),
        are_nodes(nodes, roots),
        nodes.len() <= usize::MAX,
    ensures
        ({
            let terms = associative_terms(nodes, kind, roots);
            &&& forall|j: int|
                0 <= j < terms.len() ==> {
                    let n = (#[trigger] terms[j]).0 as int;
                    terms[j].1 == if can_share(built.entries@[n]@) {
                        1
                    } else {
                        capped(occurrences(nodes, kind, roots, roots.len(), n) as int)
                    }
                }
            &&& forall|i: int, j: int|
                #![trigger terms[i], terms[j]]
                0 <= i < terms.len() && 0 <= j < terms.len() && terms[i].0 < terms[j].0
                    ==> is_answer(
                    built.entries@[terms[i].0 as int],
                    built.entries@[terms[j].0 as int],
                    false,
                )
        }),
{
    let terms = associative_terms(nodes, kind, roots);
    terms_are_the_occurrences(nodes, kind, roots);
    assert forall|j: int| 0 <= j < terms.len() implies {
        let n = (#[trigger] terms[j]).0 as int;
        terms[j].1 == if can_share(built.entries@[n]@) {
            1
        } else {
            capped(occurrences(nodes, kind, roots, roots.len(), n) as int)
        }
    } by {
        let n = terms[j].0 as int;
        assert(is_term(nodes, kind, n));
        assert(represents(nodes, n, built.entries@[n]@, resolution));
    }
    assert forall|i: int, j: int|
        #![trigger terms[i], terms[j]]
        0 <= i < terms.len() && 0 <= j < terms.len() && terms[i].0 < terms[j].0 implies is_answer(
        built.entries@[terms[i].0 as int],
        built.entries@[terms[j].0 as int],
        false,
    ) by {
        assert(is_term(nodes, kind, terms[j].0 as int));
    }
}

/// Plans the selectivity of one predicate.
pub fn estimate_selectivity<L: ColumnStatisticsLookup>(e: &Expression, columns: &L) -> (r:
    SelectivityPlan)
    ensures
        plans_selectivity(r, *e, Resolution { known: columns.known(), positions: None }),
{
    let mut work = SelectivityWork::new(Unrestricted);
    match estimate_selectivity_controlled(
        e,
        &StatisticsResolver::logical(columns),
        &mut work,
    ) {
        Ok(plan) => plan,
        Err(stop) => {
            proof {
                unrestricted_work_goes_on(Seq::empty(), work.answers(), Some(stop));
            }
            SelectivityPlan { graph: PredicateGraph::new(), root: 0, steps: Vec::new() }
        },
    }
}

/// What an estimate of the rows that pass several predicates computes.
#[derive(Debug)]
pub struct FilterEstimatePlan {
    pub graph: PredicateGraph,
    /// The nodes of the predicates.
    pub roots: Vec<usize>,
    pub plan: FilterPlan,
}

/// Whether a plan computes the rows of `base` that pass all expressions.
pub open spec fn plans_rows(
    plan: FilterEstimatePlan,
    base: u64,
    expressions: Seq<Expression>,
    resolution: Resolution,
) -> bool {
    &&& plan.graph.wf()
    &&& exists|built: BuiltNodes| #[trigger]
        built.hold(plan.graph.nodes@, resolution) && are_roots(
            built,
            plan.graph.nodes@,
            plan.roots@,
            expressions,
        )
    &&& plans_filter(plan.plan, plan.graph.nodes@, base, plan.roots@)
}

/// Plans the rows that pass all predicates, whose references resolve as given.
pub fn estimate_filter_cardinality_with_resolver<'a, L: ColumnStatisticsLookup>(
    base: u64,
    expressions: &Vec<Expression>,
    resolver: &StatisticsResolver<'a, L>,
) -> (r: FilterEstimatePlan)
    ensures
        plans_rows(r, base, expressions@, resolver@),
{
    let (graph, roots, built) = resolver.graph_of(expressions);
    assert(built.hold(graph.nodes@, resolver@));
    let plan = plan_filter(&graph, base, &roots);
    FilterEstimatePlan { graph, roots, plan }
}

/// Plans the rows that pass all predicates over named columns.
pub fn estimate_filter_cardinality<L: ColumnStatisticsLookup>(
    base: u64,
    expressions: &Vec<Expression>,
    columns: &L,
) -> (r: FilterEstimatePlan)
    ensures
        plans_rows(
            r,
            base,
            expressions@,
            Resolution { known: columns.known(), positions: None },
        ),
{
    estimate_filter_cardinality_with_resolver(
        base,
        expressions,
        &StatisticsResolver::logical(columns),
    )
}

/// Plans the rows that pass all predicates, whose positional references stand
/// for the given columns.
pub fn estimate_filter_cardinality_with_positions<L: ColumnStatisticsLookup>(
    base: u64,
    expressions: &Vec<Expression>,
    columns: &L,
    positions: &Vec<ColumnBinding>,
) -> (r: FilterEstimatePlan)
    ensures
        plans_rows(
            r,
            base,
            expressions@,
            Resolution { known: columns.known(), positions: Some(positions@) },
        ),
{
    estimate_filter_cardinality_with_resolver(
        base,
        expressions,
        &StatisticsResolver::with_positions(columns, positions),
    )
}

} // verus!
