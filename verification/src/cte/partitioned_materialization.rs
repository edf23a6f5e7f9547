//! Splitting a shared `UNION ALL` into one shared definition for each branch.
//!
//! Where every reader wants one branch, sharing the whole union makes each
//! reader scan all of it. Each branch becomes a definition of its own, filtered
//! by what its readers keep.

use vstd::prelude::*;

use crate::cte::demand_producer::TableIndexes;
use crate::cte::filter_pusher::{
    gets_predicates, is_pushed, pushed_predicates, pushing_keeps_columns, CTEFilterPusher,
};
use crate::cte::partition_recognition::{
    assignment, consume_union_all, first_partition, filtered_columns, literal_position, literals_at,
    listing, partition_at, recognize, recognized, safe_among, safe_readers, union_branches,
    PartitionView, Partitioning,
};
use crate::expression::substitution::{literal_pairs, ColumnReplacement, ReplacementView};
use crate::index_list::{increasing, increasing_list_exists};
use crate::layout::{operator_columns, plan_columns};
use crate::operator::substitution::{is_replaced, replace_columns, replacing_keeps_columns};
use crate::operator::{CTERef, CteOutputColumn, LogicalOperator, MaterializedCTE, OutputColumn};
use crate::plan::{
    count_among, count_parts, has_sound_arity, is_part, lemma_input_is_part, lemma_part_of_part,
    read_of, reversed, LogicalPlan,
};
use crate::types::{copy_types, CTEMaterialize, ColumnBinding};
use crate::value::{Value, ValueView};

verus! {

/// The branch that a reader is assigned to.
pub open spec fn assigned_branch(assigned: Seq<(usize, usize)>, reader: usize, from: nat) -> Option<
    usize,
>
    decreases assigned.len() - from,
{
    if from >= assigned.len() {
        None
    } else if assigned[from as int].0 == reader {
        Some(assigned[from as int].1)
    } else {
        assigned_branch(assigned, reader, from + 1)
    }
}

/// The literal that each reader's discriminating column stands for.
pub open spec fn branch_literals(partition: PartitionView) -> ReplacementView {
    ReplacementView::Literals(
        Seq::new(
            partition.assigned.len(),
            |i: int|
                (
                    ColumnBinding {
                        table_index: partition.assigned[i].0,
                        column_index: partition.ordinal as usize,
                    },
                    partition.values[partition.assigned[i].1 as int],
                ),
        ),
    )
}

/// `after` is `before` with each reader of a definition turned to its branch,
/// and the discriminating column of each replaced by its literal. The branches
/// have consecutive indices from `base` on.
pub open spec fn is_redirected(
    before: LogicalPlan,
    cte_index: usize,
    partition: PartitionView,
    base: int,
    after: LogicalPlan,
) -> bool
    decreases before,
{
    &&& after.stats == before.stats
    &&& match before.operator {
        LogicalOperator::CTERef(reference) => {
            &&& after.children == before.children
            &&& if reference.cte_index == cte_index {
                assigned_branch(partition.assigned, reference.table_index, 0) matches Some(branch)
                    && after.operator == LogicalOperator::CTERef(
                    CTERef { cte_index: (base + branch) as usize, ..reference },
                )
            } else {
                after.operator == before.operator
            }
        },
        _ => {
            &&& is_replaced(before.operator, branch_literals(partition), after.operator)
            &&& after.children@.len() == before.children@.len()
            &&& forall|i: int|
                #![trigger before.children@[i]]
                #![trigger after.children@[i]]
                0 <= i < before.children@.len() ==> is_redirected(
                    before.children@[i],
                    cte_index,
                    partition,
                    base,
                    after.children@[i],
                )
        },
    }
}

/// Whether every reader of a definition is listed.
pub open spec fn readers_within(plan: LogicalPlan, cte_index: usize, readers: Seq<usize>) -> bool
    decreases plan,
{
    match plan.operator {
        LogicalOperator::CTERef(reference) => reference.cte_index == cte_index
            ==> readers.contains(reference.table_index),
        _ => forall|i: int|
            #![trigger plan.children@[i]]
            0 <= i < plan.children@.len() ==> readers_within(
                plan.children@[i],
                cte_index,
                readers,
            ),
    }
}

/// The digit of a number below ten.
pub open spec fn digit(n: nat) -> char {
    if n == 0 {
        '0'
    } else if n == 1 {
        '1'
    } else if n == 2 {
        '2'
    } else if n == 3 {
        '3'
    } else if n == 4 {
        '4'
    } else if n == 5 {
        '5'
    } else if n == 6 {
        '6'
    } else if n == 7 {
        '7'
    } else if n == 8 {
        '8'
    } else {
        '9'
    }
}

/// The decimal digits of a number.
pub open spec fn decimal(n: nat) -> Seq<char>
    decreases n,
{
    if n < 10 {
        seq![digit(n)]
    } else {
        decimal(n / 10).push(digit(n % 10))
    }
}

fn append_digit(text: &mut String, n: usize)
    requires
        n < 10,
    ensures
        final(text)@ == old(text)@.push(digit(n as nat)),
{
    proof {
        reveal_strlit("0");
        reveal_strlit("1");
        reveal_strlit("2");
        reveal_strlit("3");
        reveal_strlit("4");
        reveal_strlit("5");
        reveal_strlit("6");
        reveal_strlit("7");
        reveal_strlit("8");
        reveal_strlit("9");
    }
    let ghost before = text@;
    if n == 0 {
        text.append("0");
    } else if n == 1 {
        text.append("1");
    } else if n == 2 {
        text.append("2");
    } else if n == 3 {
        text.append("3");
    } else if n == 4 {
        text.append("4");
    } else if n == 5 {
        text.append("5");
    } else if n == 6 {
        text.append("6");
    } else if n == 7 {
        text.append("7");
    } else if n == 8 {
        text.append("8");
    } else {
        text.append("9");
    }
    assert(text@ =~= before.push(digit(n as nat)));
}

fn append_decimal(text: &mut String, n: usize)
    ensures
        final(text)@ == old(text)@ + decimal(n as nat),
    decreases n,
{
    let ghost before = text@;
    if n >= 10 {
        append_decimal(text, n / 10);
        append_digit(text, n % 10);
        assert(text@ =~= before + decimal(n as nat));
    } else {
        append_digit(text, n);
        assert(text@ =~= before + decimal(n as nat));
    }
}

/// The name of a branch's definition. Branches are counted from one.
pub open spec fn partition_name(name: Seq<char>, branch: nat) -> Seq<char> {
    name + "$partition"@ + decimal(branch + 1)
}

fn name_of_partition(name: &String, branch: usize) -> (r: String)
    requires
        branch < usize::MAX,
    ensures
        r@ == partition_name(name@, branch as nat),
{
    let mut text = name.clone();
    text.append("$partition");
    append_decimal(&mut text, branch + 1);
    text
}

/// The columns of a branch under the identities that readers of the whole
/// definition use.
pub open spec fn owner_columns(columns: Seq<CteOutputColumn>, branch: Seq<OutputColumn>) -> Seq<
    CteOutputColumn,
> {
    Seq::new(
        if columns.len() <= branch.len() {
            columns.len()
        } else {
            branch.len()
        },
        |i: int|
            CteOutputColumn { definition: columns[i].definition, binding: branch[i].binding },
    )
}

/// Whether an operator shares one branch of a definition.
pub open spec fn is_branch_owner(
    operator: LogicalOperator,
    cte: MaterializedCTE,
    branch: LogicalPlan,
    position: nat,
    base: int,
    readers: usize,
) -> bool {
    operator matches LogicalOperator::MaterializedCTE(owner) && {
        &&& owner.cte_index == base + position
        &&& owner.cte_name@ == partition_name(cte.cte_name@, position)
        &&& owner.column_types@ == cte.column_types@
        &&& owner.materialized is Default
        &&& owner.output_columns@ == owner_columns(cte.output_columns@, plan_columns(branch))
        &&& owner.ref_count == readers
    }
}

/// Whether a plan owns the branches from position `k` on, above a reader.
pub open spec fn is_owner_chain(
    plan: LogicalPlan,
    cte: MaterializedCTE,
    branches: Seq<LogicalPlan>,
    counts: Seq<usize>,
    base: int,
    reader: LogicalPlan,
    k: nat,
) -> bool
    decreases branches.len() - k,
{
    if k >= branches.len() {
        plan == reader
    } else {
        &&& plan.stats.is_unknown()
        &&& is_branch_owner(plan.operator, cte, branches[k as int], k, base, counts[k as int])
        &&& plan.children@.len() == 2
        &&& plan.children@[0] == branches[k as int]
        &&& is_owner_chain(plan.children@[1], cte, branches, counts, base, reader, k + 1)
    }
}

/// `owners` is `plan` with its definition split into its branches.
pub open spec fn is_split(
    plan: LogicalPlan,
    partition: PartitionView,
    base: int,
    reader: LogicalPlan,
    owners: LogicalPlan,
) -> bool {
    plan.operator matches LogicalOperator::MaterializedCTE(cte) && {
        &&& is_redirected(plan.children@[1], cte.cte_index, partition, base, reader)
        &&& is_owner_chain(
            owners,
            cte,
            union_branches(plan.children@[0]),
            partition.counts,
            base,
            reader,
            0,
        )
    }
}

/// Whether the last owner with an index, in the order of the plan, keeps its
/// definition.
pub open spec fn last_owner(plan: LogicalPlan, cte_index: int) -> Option<bool>
    decreases plan, 0nat,
{
    match last_among(plan.children@, cte_index, plan.children@.len()) {
        Some(kept) => Some(kept),
        None => match plan.operator {
            LogicalOperator::MaterializedCTE(cte) => if cte.cte_index == cte_index {
                Some(cte.materialized is Materialized)
            } else {
                None
            },
            _ => None,
        },
    }
}

pub open spec fn last_among(plans: Seq<LogicalPlan>, cte_index: int, n: nat) -> Option<bool>
    decreases plans, n,
{
    if n == 0 || n > plans.len() {
        None
    } else {
        match last_owner(plans[n - 1], cte_index) {
            Some(kept) => Some(kept),
            None => last_among(plans, cte_index, (n - 1) as nat),
        }
    }
}

/// Whether the definitions of all `n` branches are kept.
pub open spec fn branches_are_kept(plan: LogicalPlan, base: int, n: nat) -> bool {
    forall|k: int| 0 <= k < n ==> #[trigger] last_owner(plan, base + k) == Some(true)
}

fn find_last_owner(plan: &LogicalPlan, cte_index: usize) -> (r: Option<bool>)
    ensures
        r == last_owner(*plan, cte_index as int),
    decreases plan,
{
    let mut found: Option<bool> = None;
    let mut i: usize = 0;
    while i < plan.children.len()
        invariant
            i <= plan.children@.len(),
            found == last_among(plan.children@, cte_index as int, i as nat),
        decreases plan.children@.len() - i,
    {
        if let Some(kept) = find_last_owner(&plan.children[i], cte_index) {
            found = Some(kept);
        }
        i = i + 1;
    }
    if found.is_some() {
        return found;
    }
    match &plan.operator {
        LogicalOperator::MaterializedCTE(cte) => if cte.cte_index == cte_index {
            match cte.materialized {
                CTEMaterialize::Materialized => Some(true),
                _ => Some(false),
            }
        } else {
            None
        },
        _ => None,
    }
}

fn partition_owners_are_materialized(plan: &LogicalPlan, base: usize, n: usize) -> (r: bool)
    requires
        base + n <= usize::MAX,
    ensures
        r == branches_are_kept(*plan, base as int, n as nat),
{
    let mut k: usize = 0;
    while k < n
        invariant
            k <= n,
            base + n <= usize::MAX,
            forall|j: int| 0 <= j < k ==> #[trigger] last_owner(*plan, base + j) == Some(true),
        decreases n - k,
    {
        let kept = match find_last_owner(plan, base + k) {
            Some(kept) => kept,
            None => false,
        };
        if !kept {
            assert(last_owner(*plan, base + k as int) != Some(true));
            return false;
        }
        k = k + 1;
    }
    true
}

fn find_branch(assigned: &Vec<(usize, usize)>, reader: usize) -> (r: Option<usize>)
    ensures
        r == assigned_branch(assigned@, reader, 0),
{
    let mut i: usize = 0;
    while i < assigned.len()
        invariant
            i <= assigned@.len(),
            assigned_branch(assigned@, reader, 0) == assigned_branch(
                assigned@,
                reader,
                i as nat,
            ),
        decreases assigned@.len() - i,
    {
        if assigned[i].0 == reader {
            return Some(assigned[i].1);
        }
        i = i + 1;
    }
    None
}

/// Whether the assignments of a partitioning refer to its branches.
pub open spec fn is_consistent(partition: PartitionView) -> bool {
    forall|i: int|
        0 <= i < partition.assigned.len() ==> (#[trigger] partition.assigned[i]).1
            < partition.values.len()
}

pub open spec fn assigned_readers(partition: PartitionView) -> Seq<usize> {
    partition.assigned.map_values(|p: (usize, usize)| p.0)
}

fn literals_for(partitioning: &Partitioning) -> (r: ColumnReplacement)
    requires
        is_consistent(partitioning@),
    ensures
        r@ == branch_literals(partitioning@),
{
    let ghost wanted = branch_literals(partitioning@)->Literals_0;
    let mut pairs: Vec<(ColumnBinding, Value)> = Vec::new();
    let mut i: usize = 0;
    while i < partitioning.reference_partitions.len()
        invariant
            i <= partitioning.reference_partitions@.len(),
            is_consistent(partitioning@),
            wanted == branch_literals(partitioning@)->Literals_0,
            literal_pairs(pairs@) == wanted.take(i as int),
        decreases partitioning.reference_partitions@.len() - i,
    {
        let (reader, branch) = partitioning.reference_partitions[i];
        assert(partitioning@.assigned[i as int].1 < partitioning@.values.len());
        assert(partitioning@.values.len() == partitioning.branch_values@.len());
        let ghost before = literal_pairs(pairs@);
        let value = partitioning.branch_values[branch].copy();
        let ghost denoted = value@;
        assert(partitioning@.values[branch as int] == denoted);
        pairs.push((ColumnBinding::new(reader, partitioning.discriminator_ordinal), value));
        let ghost binding = ColumnBinding {
            table_index: reader,
            column_index: partitioning.discriminator_ordinal,
        };
        assert(partitioning@.assigned[i as int] == (reader, branch));
        assert(partitioning@.ordinal as usize == partitioning.discriminator_ordinal);
        assert(literal_pairs(pairs@) =~= before.push((binding, denoted)));
        assert(wanted[i as int] == (binding, denoted));
        assert(literal_pairs(pairs@) =~= wanted.take(i + 1));
        i = i + 1;
    }
    assert(literal_pairs(pairs@) =~= wanted);
    ColumnReplacement::Literals(pairs)
}

proof fn lemma_assigned_branch(assigned: Seq<(usize, usize)>, reader: usize, from: nat)
    requires
        exists|i: int| from <= i < assigned.len() && (#[trigger] assigned[i]).0 == reader,
    ensures
        assigned_branch(assigned, reader, from) matches Some(branch) && exists|i: int|
            from <= i < assigned.len() && #[trigger] assigned[i] == (reader, branch),
    decreases assigned.len() - from,
{
    if assigned[from as int].0 == reader {
        assert(assigned[from as int] == (reader, assigned[from as int].1));
    } else {
        let i = choose|i: int| from <= i < assigned.len() && (#[trigger] assigned[i]).0 == reader;
        assert(from + 1 <= i);
        assert(assigned[i].0 == reader);
        lemma_assigned_branch(assigned, reader, from + 1);
        let branch = assigned_branch(assigned, reader, from + 1)->0;
        let j = choose|j: int|
            from + 1 <= j < assigned.len() && #[trigger] assigned[j] == (reader, branch);
        assert(assigned[j] == (reader, branch));
    }
}

/// Turns each reader to its branch.
fn redirect(
    plan: LogicalPlan,
    cte_index: usize,
    partitioning: &Partitioning,
    replacement: &ColumnReplacement,
    base: usize,
) -> (r: LogicalPlan)
    requires
        is_consistent(partitioning@),
        base + partitioning@.values.len() <= usize::MAX,
        replacement@ == branch_literals(partitioning@),
        readers_within(plan, cte_index, assigned_readers(partitioning@)),
    ensures
        is_redirected(plan, cte_index, partitioning@, base as int, r),
    decreases plan,
{
    let ghost whole = plan;
    let LogicalPlan { stats, operator, children } = plan;
    let ghost all = children@;
    if let LogicalOperator::CTERef(reference) = operator {
        let mut reference = reference;
        if reference.cte_index == cte_index {
            proof {
                let readers = assigned_readers(partitioning@);
                let k = choose|k: int|
                    0 <= k < readers.len() && readers[k] == reference.table_index;
                assert(partitioning@.assigned[k].0 == reference.table_index);
                lemma_assigned_branch(partitioning@.assigned, reference.table_index, 0);
            }
            if let Some(branch) = find_branch(
                &partitioning.reference_partitions,
                reference.table_index,
            ) {
                reference.cte_index = base + branch;
            }
        }
        return LogicalPlan { stats, operator: LogicalOperator::CTERef(reference), children };
    }
    let mut rest = reversed(children);
    let mut inputs: Vec<LogicalPlan> = Vec::new();
    while rest.len() > 0
        invariant
            whole == plan,
            all == whole.children@,
            is_consistent(partitioning@),
            base + partitioning@.values.len() <= usize::MAX,
            replacement@ == branch_literals(partitioning@),
            forall|k: int|
                #![trigger all[k]]
                0 <= k < all.len() ==> readers_within(
                    all[k],
                    cte_index,
                    assigned_readers(partitioning@),
                ),
            rest@.len() <= all.len(),
            rest@ == all.reverse().take(rest@.len() as int),
            inputs@.len() + rest@.len() == all.len(),
            forall|k: int|
                0 <= k < inputs@.len() ==> is_redirected(
                    all[k],
                    cte_index,
                    partitioning@,
                    base as int,
                    #[trigger] inputs@[k],
                ),
        decreases rest@.len(),
    {
        let ghost n = rest@.len();
        if let Some(child) = rest.pop() {
            proof {
                assert(child == all[all.len() - n]);
                assert(rest@ =~= all.reverse().take(n - 1));
            }
            inputs.push(redirect(child, cte_index, partitioning, replacement, base));
        }
    }
    LogicalPlan { stats, operator: replace_columns(operator, replacement), children: inputs }
}

fn columns_of_owner(columns: &Vec<CteOutputColumn>, branch: &Vec<OutputColumn>) -> (r: Vec<
    CteOutputColumn,
>)
    ensures
        r@ == owner_columns(columns@, branch@),
{
    let ghost wanted = owner_columns(columns@, branch@);
    let mut r: Vec<CteOutputColumn> = Vec::new();
    let mut i: usize = 0;
    while i < columns.len() && i < branch.len()
        invariant
            i <= columns@.len(),
            i <= branch@.len(),
            wanted == owner_columns(columns@, branch@),
            r@ == wanted.take(i as int),
        decreases columns@.len() - i,
    {
        r.push(
            CteOutputColumn { definition: columns[i].definition, binding: branch[i].binding },
        );
        assert(r@ =~= wanted.take(i + 1));
        i = i + 1;
    }
    assert(r@ =~= wanted);
    r
}

/// Makes each branch a definition of its own, above the reader.
fn own_branches(
    cte: &MaterializedCTE,
    branches: Vec<LogicalPlan>,
    counts: &Vec<usize>,
    base: usize,
    reader: LogicalPlan,
) -> (r: LogicalPlan)
    requires
        branches@.len() == counts@.len(),
        base + branches@.len() <= usize::MAX,
    ensures
        is_owner_chain(r, *cte, branches@, counts@, base as int, reader, 0),
{
    let ghost all = branches@;
    let ghost bottom = reader;
    let mut rest = branches;
    let mut plan = reader;
    while rest.len() > 0
        invariant
            rest@.len() <= all.len(),
            rest@ == all.take(rest@.len() as int),
            all.len() == counts@.len(),
            base + all.len() <= usize::MAX,
            is_owner_chain(plan, *cte, all, counts@, base as int, bottom, rest@.len()),
        decreases rest@.len(),
    {
        let ghost n = rest@.len();
        if let Some(branch) = rest.pop() {
            let k: usize = rest.len();
            proof {
                assert(branch == all[n - 1]);
                assert(rest@ =~= all.take(n - 1));
            }
            let output_columns = columns_of_owner(
                &cte.output_columns,
                &branch.output_layout().columns,
            );
            let mut children: Vec<LogicalPlan> = Vec::new();
            children.push(branch);
            children.push(plan);
            plan = LogicalPlan::synthetic(
                LogicalOperator::MaterializedCTE(
                    MaterializedCTE {
                        cte_index: base + k,
                        cte_name: name_of_partition(&cte.cte_name, k),
                        column_types: copy_types(&cte.column_types),
                        materialized: CTEMaterialize::Default,
                        output_columns,
                        ref_count: counts[k],
                    },
                ),
                children,
            );
        }
    }
    plan
}

proof fn lemma_assignment(
    readers: Seq<usize>,
    pairs: Seq<(ColumnBinding, ValueView)>,
    values: Seq<ValueView>,
    ordinal: nat,
    n: nat,
)
    requires
        n <= readers.len(),
        values.len() <= usize::MAX,
        assignment(readers, pairs, values, ordinal, n) is Some,
    ensures
        (assignment(readers, pairs, values, ordinal, n)->0).len() == n,
        forall|i: int|
            0 <= i < n ==> (#[trigger] (assignment(readers, pairs, values, ordinal, n)->0)[i]).0
                == readers[i] && (assignment(readers, pairs, values, ordinal, n)->0)[i].1
                < values.len(),
    decreases n,
{
    if n > 0 {
        lemma_assignment(readers, pairs, values, ordinal, (n - 1) as nat);
        let value = crate::cte::partition_recognition::fixed_to(
            pairs,
            ColumnBinding { table_index: readers[n - 1], column_index: ordinal as usize },
        )->0;
        lemma_literal_position(values, value, 0);
    }
}

proof fn lemma_literal_position(values: Seq<ValueView>, value: ValueView, from: nat)
    ensures
        literal_position(values, value, from) matches Some(at) ==> at < values.len(),
    decreases values.len() - from,
{
    if from < values.len() {
        lemma_literal_position(values, value, from + 1);
    }
}

proof fn lemma_literals_len(branches: Seq<LogicalPlan>, ordinal: nat, n: nat)
    requires
        literals_at(branches, ordinal, n) is Some,
    ensures
        (literals_at(branches, ordinal, n)->0).len() == n,
    decreases n,
{
    if n > 0 {
        lemma_literals_len(branches, ordinal, (n - 1) as nat);
    }
}

proof fn lemma_first_partition(
    branches: Seq<LogicalPlan>,
    readers: Seq<usize>,
    pairs: Seq<(ColumnBinding, ValueView)>,
    width: nat,
    from: nat,
)
    requires
        branches.len() <= usize::MAX,
        first_partition(branches, readers, pairs, width, from) is Some,
    ensures
        ({
            let found = first_partition(branches, readers, pairs, width, from)->0;
            &&& found.values.len() == branches.len()
            &&& found.counts.len() == branches.len()
            &&& is_consistent(found)
            &&& assigned_readers(found) == readers
        }),
    decreases width - from,
{
    match partition_at(branches, readers, pairs, from) {
        Some(found) => {
            lemma_literals_len(branches, from, branches.len());
            lemma_assignment(readers, pairs, found.values, from, readers.len());
            assert(assigned_readers(found) =~= readers);
        },
        None => {
            lemma_first_partition(branches, readers, pairs, width, from + 1);
        },
    }
}

proof fn lemma_readers_within(
    plan: LogicalPlan,
    cte_index: usize,
    below_nulls: bool,
    readers: Seq<usize>,
)
    requires
        safe_readers(plan, cte_index, below_nulls) is Some,
        forall|x: usize| #[trigger]
            (safe_readers(plan, cte_index, below_nulls)->0).contains(x) ==> readers.contains(x),
    ensures
        readers_within(plan, cte_index, readers),
    decreases plan, 0nat,
{
    match plan.operator {
        LogicalOperator::CTERef(reference) => {
            if reference.cte_index == cte_index {
                let one = safe_readers(plan, cte_index, below_nulls)->0;
                assert(one[0] == reference.table_index);
                assert(one.contains(reference.table_index));
            }
        },
        _ => {
            lemma_readers_within_among(
                plan.operator,
                plan.children@,
                cte_index,
                below_nulls,
                readers,
                plan.children@.len(),
            );
        },
    }
}

proof fn lemma_readers_within_among(
    operator: LogicalOperator,
    plans: Seq<LogicalPlan>,
    cte_index: usize,
    below_nulls: bool,
    readers: Seq<usize>,
    n: nat,
)
    requires
        n <= plans.len(),
        safe_among(operator, plans, cte_index, below_nulls, n) is Some,
        forall|x: usize| #[trigger]
            (safe_among(operator, plans, cte_index, below_nulls, n)->0).contains(x)
                ==> readers.contains(x),
    ensures
        forall|i: int|
            #![trigger plans[i]]
            0 <= i < n ==> readers_within(plans[i], cte_index, readers),
    decreases plans, n,
{
    if n > 0 {
        let below = below_nulls || crate::cte::partition_recognition::input_supplies_null(
            operator,
            n - 1,
        );
        let all = safe_among(operator, plans, cte_index, below_nulls, n)->0;
        let before = safe_among(operator, plans, cte_index, below_nulls, (n - 1) as nat)->0;
        let more = safe_readers(plans[n - 1], cte_index, below)->0;
        assert(all == before + more);
        assert forall|x: usize| #[trigger] before.contains(x) implies readers.contains(x) by {
            let k = choose|k: int| 0 <= k < before.len() && before[k] == x;
            assert(all[k] == x);
            assert(all.contains(x));
        }
        assert forall|x: usize| #[trigger] more.contains(x) implies readers.contains(x) by {
            let k = choose|k: int| 0 <= k < more.len() && more[k] == x;
            assert(all[before.len() + k] == x);
            assert(all.contains(x));
        }
        lemma_readers_within_among(
            operator,
            plans,
            cte_index,
            below_nulls,
            readers,
            (n - 1) as nat,
        );
        lemma_readers_within(plans[n - 1], cte_index, below, readers);
    }
}

/// How many branches the definition at the root of a plan has.
pub open spec fn branch_count(plan: LogicalPlan) -> nat {
    if plan.children@.len() > 0 {
        union_branches(plan.children@[0]).len()
    } else {
        0
    }
}

/// Splits shared `UNION ALL`s.
#[derive(Clone, Copy, Debug, PartialEq, Eq, Structural)]
pub struct CTEPartitioner;

impl CTEPartitioner {
    pub fn new() -> (r: CTEPartitioner)
        ensures
            r == CTEPartitioner,
    {
        CTEPartitioner
    }

    /// Splits the definition at the root of a plan and filters each branch by
    /// what its readers keep; none where it cannot be split, or where not every
    /// branch can be filtered.
    pub fn optimize_default_root(&self, plan: LogicalPlan, indexes: &mut TableIndexes) -> (r: Option<
        LogicalPlan,
    >)
        requires
            old(indexes).next + branch_count(plan) <= usize::MAX,
        ensures
            match recognized(plan) {
                None => r is None && *final(indexes) == *old(indexes),
                Some(partition) => {
                    &&& final(indexes).next == old(indexes).next + branch_count(plan)
                    &&& exists|reader: LogicalPlan, owners: LogicalPlan, filtered: LogicalPlan| {
                        &&& #[trigger] is_split(
                            plan,
                            partition,
                            old(indexes).next as int,
                            reader,
                            owners,
                        )
                        &&& #[trigger] is_pushed(owners, owners, filtered)
                        &&& r == if gets_predicates(owners, owners) && branches_are_kept(
                            filtered,
                            old(indexes).next as int,
                            branch_count(plan),
                        ) {
                            Some(filtered)
                        } else {
                            None
                        }
                    }
                },
            },
    {
        let Some(partitioning) = recognize(&plan) else {
            return None;
        };
        let ghost whole = plan;
        let ghost partition = partitioning@;
        let LogicalPlan { stats: _, operator, children } = plan;
        let LogicalOperator::MaterializedCTE(cte) = operator else {
            return None;
        };
        let mut children = children;
        let reader = children.pop();
        let definition = children.pop();
        let (Some(definition), Some(reader)) = (definition, reader) else {
            return None;
        };
        let mut branches: Vec<LogicalPlan> = Vec::new();
        consume_union_all(definition, &mut branches);
        assert(branches@ =~= union_branches(whole.children@[0]));
        let n: usize = branches.len();
        let base: usize = indexes.next;
        proof {
            let readers = safe_readers(reader, cte.cte_index, false)->0;
            let listed = listing(readers.to_set());
            lemma_first_partition(
                branches@,
                listed,
                filtered_columns(reader),
                cte.column_types@.len(),
                0,
            );
            lemma_listing_is_complete(readers);
            assert forall|x: usize| #[trigger] readers.contains(x) implies assigned_readers(
                partition,
            ).contains(x) by {
                assert(readers.to_set().contains(x));
                assert(listed.to_set().contains(x));
            }
            lemma_readers_within(reader, cte.cte_index, false, assigned_readers(partition));
        }
        indexes.next = indexes.next + n;
        let replacement = literals_for(&partitioning);
        let redirected = redirect(reader, cte.cte_index, &partitioning, &replacement, base);
        let ghost turned = redirected;
        let owners = own_branches(
            &cte,
            branches,
            &partitioning.reference_counts,
            base,
            redirected,
        );
        let ghost split = owners;
        assert(is_split(whole, partition, base as int, turned, split));
        let (filtered, pushed) = CTEFilterPusher::new().optimize_plan_with_change(owners);
        assert(is_pushed(split, split, filtered));
        if !pushed || !partition_owners_are_materialized(&filtered, base, n) {
            return None;
        }
        Some(filtered)
    }
}

proof fn lemma_listing_is_complete(readers: Seq<usize>)
    ensures
        listing(readers.to_set()).to_set() == readers.to_set(),
{
    let s = increasing_list_exists(readers);
    assert(increasing(s) && s.to_set() == readers.to_set());
}

/// Turning readers to their branches leaves the columns of every plan as they
/// are.
pub proof fn redirecting_keeps_columns(
    before: LogicalPlan,
    cte_index: usize,
    partition: PartitionView,
    base: int,
    after: LogicalPlan,
)
    requires
        is_redirected(before, cte_index, partition, base, after),
    ensures
        plan_columns(after) == plan_columns(before),
    decreases before,
{
    let old_inputs = Seq::new(
        before.children@.len(),
        |i: int|
            if 0 <= i < before.children@.len() {
                plan_columns(before.children@[i])
            } else {
                arbitrary()
            },
    );
    let new_inputs = Seq::new(
        after.children@.len(),
        |i: int|
            if 0 <= i < after.children@.len() {
                plan_columns(after.children@[i])
            } else {
                arbitrary()
            },
    );
    assert(plan_columns(before) == operator_columns(before.operator, old_inputs));
    assert(plan_columns(after) == operator_columns(after.operator, new_inputs));
    if !(before.operator is CTERef) {
        assert forall|i: int| 0 <= i < old_inputs.len() implies old_inputs[i]
            == new_inputs[i] by {
            redirecting_keeps_columns(
                before.children@[i],
                cte_index,
                partition,
                base,
                after.children@[i],
            );
        }
        assert(old_inputs =~= new_inputs);
        replacing_keeps_columns(
            before.operator,
            branch_literals(partition),
            after.operator,
            old_inputs,
        );
    }
}

proof fn lemma_owners_pass_columns(
    plan: LogicalPlan,
    cte: MaterializedCTE,
    branches: Seq<LogicalPlan>,
    counts: Seq<usize>,
    base: int,
    reader: LogicalPlan,
    k: nat,
)
    requires
        is_owner_chain(plan, cte, branches, counts, base, reader, k),
    ensures
        plan_columns(plan) == plan_columns(reader),
    decreases branches.len() - k,
{
    if k < branches.len() {
        let inputs = Seq::new(
            plan.children@.len(),
            |i: int|
                if 0 <= i < plan.children@.len() {
                    plan_columns(plan.children@[i])
                } else {
                    arbitrary()
                },
        );
        assert(plan_columns(plan) == operator_columns(plan.operator, inputs));
        lemma_owners_pass_columns(
            plan.children@[1],
            cte,
            branches,
            counts,
            base,
            reader,
            k + 1,
        );
        assert(inputs[1] == plan_columns(plan.children@[1]));
    }
}

/// Splitting a definition into its branches and filtering those leaves the
/// columns of the plan as they are.
pub proof fn partitioning_keeps_columns(
    before: LogicalPlan,
    partition: PartitionView,
    base: int,
    reader: LogicalPlan,
    owners: LogicalPlan,
    after: LogicalPlan,
)
    requires
        before.children@.len() == 2,
        is_split(before, partition, base, reader, owners),
        is_pushed(owners, owners, after),
    ensures
        plan_columns(after) == plan_columns(before),
{
    if let LogicalOperator::MaterializedCTE(cte) = before.operator {
        let inputs = Seq::new(
            before.children@.len(),
            |i: int|
                if 0 <= i < before.children@.len() {
                    plan_columns(before.children@[i])
                } else {
                    arbitrary()
                },
        );
        assert(plan_columns(before) == operator_columns(before.operator, inputs));
        assert(inputs[1] == plan_columns(before.children@[1]));
        pushing_keeps_columns(owners, owners, after);
        lemma_owners_pass_columns(
            owners,
            cte,
            union_branches(before.children@[0]),
            partition.counts,
            base,
            reader,
            0,
        );
        redirecting_keeps_columns(before.children@[1], cte.cte_index, partition, base, reader);
    }
}

spec fn is_union(plan: LogicalPlan) -> bool {
    plan.operator matches LogicalOperator::SetOperation(set) && set.setop_type is Union
        && set.setop_all && plan.children@.len() == 2
}

proof fn lemma_branches_are_no_unions(plan: LogicalPlan, i: int)
    requires
        0 <= i < union_branches(plan).len(),
    ensures
        !is_union(union_branches(plan)[i]),
    decreases plan,
{
    if is_union(plan) {
        let left = union_branches(plan.children@[0]);
        if i < left.len() {
            lemma_branches_are_no_unions(plan.children@[0], i);
        } else {
            lemma_branches_are_no_unions(plan.children@[1], i - left.len());
        }
    }
}

/// A definition is split at most once.
pub proof fn definition_is_split_once(
    before: LogicalPlan,
    partition: PartitionView,
    base: int,
    reader: LogicalPlan,
    owners: LogicalPlan,
    after: LogicalPlan,
)
    requires
        recognized(before) == Some(partition),
        is_split(before, partition, base, reader, owners),
        is_pushed(owners, owners, after),
    ensures
        recognized(after) is None,
{
    let branches = union_branches(before.children@[0]);
    assert(branches.len() >= 2);
    lemma_branches_are_no_unions(before.children@[0], 0);
    let definition = branches[0];
    assert(owners.children@[0] == definition);
    assert(!is_union(after.children@[0])) by {
        if pushed_predicates(owners, owners) is None {
            assert(is_pushed(definition, owners, after.children@[0]));
        }
    }
    assert(union_branches(after.children@[0]).len() == 1);
}

/// The number that a text of decimal digits writes.
pub open spec fn written_number(text: Seq<char>) -> int
    decreases text.len(),
{
    if text.len() == 0 {
        0
    } else {
        written_number(text.drop_last()) * 10 + (text.last() as int - '0' as int)
    }
}

/// The decimal digits of a number write that number, without a leading zero.
pub proof fn digits_write_the_number(n: nat)
    ensures
        written_number(decimal(n)) == n,
        decimal(n).len() > 0,
        n > 0 ==> decimal(n)[0] != '0',
    decreases n,
{
    if n < 10 {
        assert(decimal(n).drop_last() =~= Seq::empty());
        assert(written_number(Seq::<char>::empty()) == 0);
    } else {
        digits_write_the_number(n / 10);
        assert(decimal(n).drop_last() =~= decimal(n / 10));
        assert(decimal(n)[0] == decimal(n / 10)[0]);
    }
}

/// The definitions of different branches have different names.
pub proof fn branches_have_different_names(name: Seq<char>, a: nat, b: nat)
    requires
        partition_name(name, a) == partition_name(name, b),
    ensures
        a == b,
{
    let start = name + "$partition"@;
    digits_write_the_number(a + 1);
    digits_write_the_number(b + 1);
    assert(partition_name(name, a).skip(start.len() as int) =~= decimal(a + 1));
    assert(partition_name(name, b).skip(start.len() as int) =~= decimal(b + 1));
}

proof fn lemma_assigned(assigned: Seq<(usize, usize)>, reader: usize, from: nat)
    ensures
        assigned_branch(assigned, reader, from) matches Some(branch) ==> exists|i: int|
            from <= i < assigned.len() && #[trigger] assigned[i] == (reader, branch),
    decreases assigned.len() - from,
{
    if from < assigned.len() {
        if assigned[from as int].0 == reader {
            assert(assigned[from as int] == (reader, assigned[from as int].1));
        } else {
            lemma_assigned(assigned, reader, from + 1);
        }
    }
}

/// Turning the readers of a definition to its branches leaves no read of the whole,
/// and leaves the reads of other definitions as many as they were.
pub proof fn redirected_plan_reads_no_whole_definition(
    before: LogicalPlan,
    cte_index: usize,
    partition: PartitionView,
    base: int,
    after: LogicalPlan,
    other: usize,
)
    requires
        is_redirected(before, cte_index, partition, base, after),
        has_sound_arity(before),
        is_consistent(partition),
        cte_index < base,
        base + partition.values.len() <= usize::MAX,
        other < base,
        other != cte_index,
    ensures
        count_parts(after, read_of(cte_index)) == 0,
        count_parts(after, read_of(other)) == count_parts(before, read_of(other)),
    decreases before, 0nat,
{
    match before.operator {
        LogicalOperator::CTERef(reference) => {
            assert(count_among(after.children@, read_of(cte_index), 0) == 0);
            assert(count_among(after.children@, read_of(other), 0) == 0);
            assert(count_among(before.children@, read_of(other), 0) == 0);
            if reference.cte_index == cte_index {
                lemma_assigned(partition.assigned, reference.table_index, 0);
            }
        },
        _ => {
            assert(!(after.operator is CTERef));
            lemma_redirected_among(
                before.children@,
                cte_index,
                partition,
                base,
                after.children@,
                other,
                before.children@.len(),
            );
        },
    }
}

proof fn lemma_redirected_among(
    before: Seq<LogicalPlan>,
    cte_index: usize,
    partition: PartitionView,
    base: int,
    after: Seq<LogicalPlan>,
    other: usize,
    n: nat,
)
    requires
        n <= before.len() == after.len(),
        forall|i: int|
            #![trigger before[i]]
            #![trigger after[i]]
            0 <= i < before.len() ==> is_redirected(
                before[i],
                cte_index,
                partition,
                base,
                after[i],
            ) && has_sound_arity(before[i]),
        is_consistent(partition),
        cte_index < base,
        base + partition.values.len() <= usize::MAX,
        other < base,
        other != cte_index,
    ensures
        count_among(after, read_of(cte_index), n) == 0,
        count_among(after, read_of(other), n) == count_among(before, read_of(other), n),
    decreases before, n,
{
    if n > 0 {
        lemma_redirected_among(
            before,
            cte_index,
            partition,
            base,
            after,
            other,
            (n - 1) as nat,
        );
        redirected_plan_reads_no_whole_definition(
            before[n - 1],
            cte_index,
            partition,
            base,
            after[n - 1],
            other,
        );
    }
}

/// Every branch of a split definition has an owner of its own, that shares this branch
/// under the index that its readers use.
pub proof fn every_branch_has_an_owner(
    plan: LogicalPlan,
    cte: MaterializedCTE,
    branches: Seq<LogicalPlan>,
    counts: Seq<usize>,
    base: int,
    reader: LogicalPlan,
    k: nat,
    b: int,
) -> (owner: LogicalPlan)
    requires
        is_owner_chain(plan, cte, branches, counts, base, reader, k),
        k <= b < branches.len(),
    ensures
        is_part(owner, plan),
        owner.children@.len() == 2,
        owner.children@[0] == branches[b],
        owner.operator matches LogicalOperator::MaterializedCTE(own) && own.cte_index == base + b
            && own.ref_count == counts[b] && own.materialized is Default,
        is_part(reader, plan),
    decreases branches.len() - k,
{
    lemma_chain_ends_in_reader(plan, cte, branches, counts, base, reader, k);
    if k == b {
        plan
    } else {
        let owner = every_branch_has_an_owner(
            plan.children@[1],
            cte,
            branches,
            counts,
            base,
            reader,
            k + 1,
            b,
        );
        lemma_input_is_part(plan, 1);
        lemma_part_of_part(owner, plan.children@[1], plan);
        owner
    }
}

proof fn lemma_chain_ends_in_reader(
    plan: LogicalPlan,
    cte: MaterializedCTE,
    branches: Seq<LogicalPlan>,
    counts: Seq<usize>,
    base: int,
    reader: LogicalPlan,
    k: nat,
)
    requires
        is_owner_chain(plan, cte, branches, counts, base, reader, k),
    ensures
        is_part(reader, plan),
    decreases branches.len() - k,
{
    if k < branches.len() {
        lemma_chain_ends_in_reader(plan.children@[1], cte, branches, counts, base, reader, k + 1);
        lemma_input_is_part(plan, 1);
        lemma_part_of_part(reader, plan.children@[1], plan);
    }
}

} // verus!
