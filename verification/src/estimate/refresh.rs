//! Keys and domains of a whole plan, derived again from its leaves up. Row
//! estimates stay as they are.

use vstd::prelude::*;

use crate::estimate::relation_proofs::{
    child_inputs, inputs_of, key_views, operator_domains, operator_keys, publishes, reduced_keys,
    retained, PublishedProofs, RelationProofs,
};
use crate::frame::{frames_size, lemma_frames_size_push, lemma_open_size, Frame};
use crate::layout::{
    child_columns, layouts_of, lemma_plan_columns, plan_columns, LogicalOutputLayout,
};
use crate::operator::LogicalOperator;
use crate::plan::{plans_size, LogicalPlan, NodeStats, UniqueKey};

verus! {

/// What the catalog knows of keys. Nothing is claimed of what it answers.
pub trait KeyDerivation {
    /// Keys that inputs and constraints give an operator's output.
    fn base_unique_keys(
        &mut self,
        operator: &LogicalOperator,
        layouts: &[LogicalOutputLayout],
        children: &Vec<LogicalPlan>,
    ) -> (r: Vec<UniqueKey>);

    /// Keys without those that others imply.
    fn normalize_unique_keys(&mut self, keys: Vec<UniqueKey>) -> (r: Vec<UniqueKey>);
}

/// Whether `base` is what the catalog answered about an operator over inputs.
pub open spec fn are_base_keys<K: KeyDerivation>(
    operator: LogicalOperator,
    children: Vec<LogicalPlan>,
    base: Vec<UniqueKey>,
) -> bool {
    exists|keys: &mut K, layouts: &[LogicalOutputLayout]| #[trigger]
        call_ensures(K::base_unique_keys, (keys, &operator, layouts, &children), base)
            && layouts_of(layouts@) == child_columns(children@)
}

/// Whether `kept` is what the catalog made of derived keys.
pub open spec fn are_normalized_keys<K: KeyDerivation>(
    derived: Vec<UniqueKey>,
    kept: Vec<UniqueKey>,
) -> bool {
    exists|keys: &mut K| #[trigger]
        call_ensures(K::normalize_unique_keys, (keys, derived), kept)
}

/// Whether a node over completed inputs has the keys that follow from the
/// catalog's answers.
pub open spec fn has_derived_keys<K: KeyDerivation>(
    plan: LogicalPlan,
    definitions: Definitions,
) -> bool {
    exists|base: Vec<UniqueKey>, derived: Vec<UniqueKey>| #[trigger]
        are_base_keys::<K>(plan.operator, plan.children, base)
            && #[trigger] are_normalized_keys::<K>(derived, plan.stats.unique_keys) && key_views(
            derived@,
        ) == reduced_keys(
            operator_keys(
                plan.operator,
                plan_columns(plan),
                child_columns(plan.children@),
                child_inputs(plan.children@),
                definitions,
                key_views(base@),
            ),
            plan.stats.finite_domains@,
        )
}

/// Proofs of shared definitions, by definition.
pub type Definitions = Map<usize, PublishedProofs>;

/// Whether `after` is `before` once input `i` of an operator is settled: the
/// owner of a definition keeps what its producer proves for the readers.
pub open spec fn is_settled(
    operator: LogicalOperator,
    i: int,
    child: LogicalPlan,
    before: Definitions,
    after: Definitions,
) -> bool {
    match operator {
        LogicalOperator::MaterializedCTE(cte) => if i == 0 {
            &&& after.contains_key(cte.cte_index)
            &&& after.remove(cte.cte_index) == before.remove(cte.cte_index)
            &&& publishes(after[cte.cte_index], cte.output_columns@, child.stats)
        } else {
            after == before
        },
        _ => after == before,
    }
}

/// Whether a node has the domains that its operator gives it, where `held`
/// are those that it had.
pub open spec fn has_derived_domains(
    plan: LogicalPlan,
    definitions: Definitions,
    held: LogicalPlan,
) -> bool {
    plan.stats.finite_domains@ == retained(
        operator_domains(
            plan.operator,
            plan_columns(plan),
            child_columns(plan.children@),
            child_inputs(plan.children@),
            definitions,
            held.stats.finite_domains@,
        ),
        plan_columns(plan),
    )
}

/// Definitions around the inputs of an operator: `entered` holds those before
/// each of the `n` inputs and after the last one, `left` those that each input
/// leaves behind.
pub open spec fn is_trace(
    entered: Seq<Definitions>,
    left: Seq<Definitions>,
    n: nat,
    start: Definitions,
    end: Definitions,
) -> bool {
    &&& entered.len() == n + 1
    &&& left.len() == n
    &&& entered[0] == start
    &&& entered.last() == end
}

/// `after` is `before` with all keys and domains derived again, input by input,
/// where the definitions are known at the `start`. At the `end` those within
/// `before` are as well.
pub open spec fn is_refreshed<K: KeyDerivation>(
    before: LogicalPlan,
    start: Definitions,
    after: LogicalPlan,
    end: Definitions,
) -> bool
    decreases before,
{
    &&& after.operator == before.operator
    &&& after.stats.estimated_cardinality == before.stats.estimated_cardinality
    &&& after.stats.cardinality_provenance == before.stats.cardinality_provenance
    &&& has_derived_domains(after, end, before)
    &&& has_derived_keys::<K>(after, end)
    &&& after.children@.len() == before.children@.len()
    &&& exists|entered: Seq<Definitions>, left: Seq<Definitions>| #[trigger]
        is_trace(entered, left, before.children@.len(), start, end) && forall|i: int|
            #![trigger before.children@[i]]
            #![trigger left[i]]
            0 <= i < before.children@.len() ==> is_refreshed::<K>(
                before.children@[i],
                entered[i],
                after.children@[i],
                left[i],
            ) && is_settled(before.operator, i, after.children@[i], left[i], entered[i + 1])
}

/// Deriving domains again leaves the columns of every plan as they are.
pub proof fn refreshing_keeps_columns<K: KeyDerivation>(
    before: LogicalPlan,
    start: Definitions,
    after: LogicalPlan,
    end: Definitions,
)
    requires
        is_refreshed::<K>(before, start, after, end),
    ensures
        plan_columns(after) == plan_columns(before),
    decreases before,
{
    let (entered, left) = choose|entered: Seq<Definitions>, left: Seq<Definitions>| #[trigger]
        is_trace(entered, left, before.children@.len(), start, end) && forall|i: int|
            #![trigger before.children@[i]]
            #![trigger left[i]]
            0 <= i < before.children@.len() ==> is_refreshed::<K>(
                before.children@[i],
                entered[i],
                after.children@[i],
                left[i],
            ) && is_settled(before.operator, i, after.children@[i], left[i], entered[i + 1]);
    assert forall|i: int| 0 <= i < before.children@.len() implies plan_columns(
        #[trigger] after.children@[i],
    ) == plan_columns(before.children@[i]) by {
        refreshing_keeps_columns::<K>(before.children@[i], entered[i], after.children@[i], left[i]);
    }
    lemma_plan_columns(before);
    lemma_plan_columns(after);
    assert(child_columns(after.children@) =~= child_columns(before.children@));
}

/// What is kept of the refreshed inputs of an operator.
struct RefreshedInputs {
    layouts: Vec<LogicalOutputLayout>,
    entered: Ghost<Seq<Definitions>>,
    left: Ghost<Seq<Definitions>>,
}

/// Whether the rewritten inputs of a frame are refreshed, with so many of the
/// others entered.
spec fn is_under_way<K: KeyDerivation>(frame: Frame<RefreshedInputs>, open: nat) -> bool {
    let all = frame.whole@.children@;
    let n = frame.inputs@.len();
    let state = frame.state;
    &&& frame.is_split(open)
    &&& state.layouts@.len() == n
    &&& state.left@.len() == n
    &&& state.entered@.len() == n + 1
    &&& forall|k: int|
        0 <= k < n ==> (#[trigger] state.layouts@[k]).columns@ == plan_columns(frame.inputs@[k])
    &&& forall|k: int|
        #![trigger state.left@[k]]
        0 <= k < n ==> is_refreshed::<K>(
            all[k],
            state.entered@[k],
            frame.inputs@[k],
            state.left@[k],
        ) && is_settled(
            frame.operator,
            k,
            frame.inputs@[k],
            state.left@[k],
            state.entered@[k + 1],
        )
}

/// Whether each frame waits for the one after it, from the whole plan on down
/// to the given one.
spec fn are_waiting<K: KeyDerivation>(
    frames: Seq<Frame<RefreshedInputs>>,
    plan: LogicalPlan,
    entered: Definitions,
    whole: LogicalPlan,
    start: Definitions,
) -> bool
    decreases frames.len(),
{
    if frames.len() == 0 {
        plan == whole && entered == start
    } else {
        let frame = frames.last();
        &&& is_under_way::<K>(frame, 1)
        &&& plan == frame.next_input()
        &&& entered == frame.state.entered@.last()
        &&& are_waiting::<K>(
            frames.drop_last(),
            frame.whole@,
            frame.state.entered@[0],
            whole,
            start,
        )
    }
}

fn open_frame<K: KeyDerivation>(plan: LogicalPlan, Ghost(start): Ghost<Definitions>) -> (r: Frame<
    RefreshedInputs,
>)
    ensures
        is_under_way::<K>(r, 0),
        r.whole@ == plan,
        r.state.entered@ == Seq::<Definitions>::empty().push(start),
        r.size() == 1 + 2 * plans_size(plan.children@, plan.children@.len()),
{
    let r = Frame::open(
        plan,
        RefreshedInputs {
            layouts: Vec::new(),
            entered: Ghost(Seq::empty().push(start)),
            left: Ghost(Seq::empty()),
        },
    );
    proof {
        lemma_open_size(r);
    }
    r
}

/// Takes the refreshed next input of an operator, and publishes what the
/// operator publishes of its first one.
fn receive<K: KeyDerivation>(
    frame: Frame<RefreshedInputs>,
    settled: LogicalPlan,
    layout: LogicalOutputLayout,
    proofs: &mut RelationProofs,
    Ghost(entered): Ghost<Definitions>,
) -> (r: Frame<RefreshedInputs>)
    requires
        is_under_way::<K>(frame, 1),
        entered == frame.state.entered@.last(),
        is_refreshed::<K>(frame.next_input(), entered, settled, old(proofs).ctes@),
        layout.columns@ == plan_columns(settled),
    ensures
        is_under_way::<K>(r, 0),
        r.whole == frame.whole,
        r.size() == frame.size(),
        r.state.entered@[0] == frame.state.entered@[0],
        r.state.entered@.last() == final(proofs).ctes@,
{
    let Frame { stats, operator, rest, inputs, state, whole: Ghost(whole) } = frame;
    let RefreshedInputs { layouts, entered: Ghost(passed), left: Ghost(left) } = state;
    let ghost reached = proofs.ctes@;
    let ghost k = inputs@.len() as int;
    let mut inputs = inputs;
    let mut layouts = layouts;
    if let LogicalOperator::MaterializedCTE(cte) = &operator {
        if inputs.len() == 0 {
            proofs.publish(cte.cte_index, &cte.output_columns, &settled.stats);
        }
    }
    assert(is_settled(operator, k, settled, reached, proofs.ctes@));
    inputs.push(settled);
    layouts.push(layout);
    Frame {
        stats,
        operator,
        rest,
        inputs,
        state: RefreshedInputs {
            layouts,
            entered: Ghost(passed.push(proofs.ctes@)),
            left: Ghost(left.push(reached)),
        },
        whole: Ghost(whole),
    }
}

/// Derives the keys and domains of an operator whose inputs are refreshed.
fn close<K: KeyDerivation>(
    frame: Frame<RefreshedInputs>,
    keys: &mut K,
    proofs: &mut RelationProofs,
) -> (r: (LogicalPlan, LogicalOutputLayout))
    requires
        is_under_way::<K>(frame, 0),
        frame.inputs@.len() == frame.whole@.children@.len(),
        frame.state.entered@.last() == old(proofs).ctes@,
    ensures
        is_refreshed::<K>(frame.whole@, frame.state.entered@[0], r.0, final(proofs).ctes@),
        r.1.columns@ == plan_columns(r.0),
{
    let Frame { stats, operator, rest: _, inputs, state, whole: Ghost(whole) } = frame;
    let RefreshedInputs { layouts, entered: Ghost(entered), left: Ghost(left) } = state;
    let mut stats = stats;
    let output = operator.output_layout_from_children(layouts.as_slice());
    let base = keys.base_unique_keys(&operator, layouts.as_slice(), &inputs);
    let ghost given = base;
    let facts = inputs_of(&inputs);
    proofs.derive(&operator, &output, layouts.as_slice(), &facts, base, &mut stats);
    let NodeStats { estimated_cardinality, cardinality_provenance, unique_keys, finite_domains } =
        stats;
    let ghost derived = unique_keys;
    let kept = keys.normalize_unique_keys(unique_keys);
    let stats = NodeStats {
        estimated_cardinality,
        cardinality_provenance,
        unique_keys: kept,
        finite_domains,
    };
    let after = LogicalPlan { stats, operator, children: inputs };
    proof {
        assert(layouts_of(layouts@) =~= child_columns(after.children@));
        lemma_plan_columns(after);
        assert(are_base_keys::<K>(after.operator, after.children, given));
        assert(are_normalized_keys::<K>(derived, after.stats.unique_keys));
        assert(is_trace(entered, left, whole.children@.len(), entered[0], proofs.ctes@));
    }
    (after, output)
}

/// Refreshes a plan input by input. Plans can be deep, so the operators that
/// wait for an input stand in a list.
fn refresh_proofs<K: KeyDerivation>(
    plan: LogicalPlan,
    keys: &mut K,
    proofs: &mut RelationProofs,
) -> (r: (LogicalPlan, LogicalOutputLayout))
    ensures
        is_refreshed::<K>(plan, old(proofs).ctes@, r.0, final(proofs).ctes@),
        r.1.columns@ == plan_columns(r.0),
{
    let ghost whole = plan;
    let ghost start = proofs.ctes@;
    let mut waiting: Vec<Frame<RefreshedInputs>> = Vec::new();
    let mut top = open_frame::<K>(plan, Ghost(start));
    loop
        invariant
            is_under_way::<K>(top, 0),
            top.state.entered@.last() == proofs.ctes@,
            are_waiting::<K>(waiting@, top.whole@, top.state.entered@[0], whole, start),
            start == old(proofs).ctes@,
            whole == plan,
        decreases frames_size(waiting@, waiting@.len()) + top.size(),
    {
        let ghost before = top;
        let ghost below = waiting@;
        match top.enter() {
            Some(child) => {
                let ghost now = proofs.ctes@;
                let opened = open_frame::<K>(child, Ghost(now));
                proof {
                    assert(is_under_way::<K>(top, 1));
                    assert(below.push(top).drop_last() =~= below);
                    lemma_frames_size_push(below, top);
                }
                waiting.push(top);
                top = opened;
            },
            None => {
                assert(is_under_way::<K>(top, 0));
                let (settled, layout) = close(top, keys, proofs);
                match waiting.pop() {
                    Some(frame) => {
                        proof {
                            assert(waiting@ =~= below.drop_last());
                            assert(below =~= waiting@.push(frame));
                            lemma_frames_size_push(waiting@, frame);
                        }
                        top = receive::<K>(
                            frame,
                            settled,
                            layout,
                            proofs,
                            Ghost(before.state.entered@[0]),
                        );
                    },
                    None => {
                        return (settled, layout);
                    },
                }
            },
        }
    }
}

/// Derives the keys and domains of a plan again.
pub fn refresh<K: KeyDerivation>(plan: LogicalPlan, keys: &mut K) -> (r: LogicalPlan)
    ensures
        exists|end: Definitions| #[trigger] is_refreshed::<K>(plan, Map::empty(), r, end),
{
    let mut proofs = RelationProofs::new();
    refresh_proofs(plan, keys, &mut proofs).0
}

/// Deriving keys and domains again leaves operators and estimated rows as they are.
pub proof fn refreshing_keeps_rows<K: KeyDerivation>(
    before: LogicalPlan,
    start: Definitions,
    after: LogicalPlan,
    end: Definitions,
)
    requires
        is_refreshed::<K>(before, start, after, end),
    ensures
        after.operator == before.operator,
        after.stats.estimated_cardinality == before.stats.estimated_cardinality,
        after.stats.cardinality_provenance == before.stats.cardinality_provenance,
        after.children@.len() == before.children@.len(),
{
}

} // verus!
