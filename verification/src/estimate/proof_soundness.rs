//! Why keys and domains of an operator's rows are ones.

use vstd::prelude::*;

use crate::cte::predicate_domain::respects_connectives;
use crate::domain::{
    all_domain_values, denotes_domain, domain_value, lemma_domain_of, DomainValue, DomainValueView,
};
use crate::estimate::relation_proofs::{
    branch_domains, differ, expression_domain, gives_union_key, in_union_key, is_constant,
    key_covers, operator_domains, produced_definition, reading_column, reduced_key,
    reference_column, refined_domains, refined_domains_by, retained,
    separated_branches_keep_their_keys, separators, shorter, union_domains, union_key,
    union_key_columns, unique_on, varying_columns, DomainMap, KeyView, ProofInput, PublishedProofs,
};
use crate::expression::equality::equality_domain;
use crate::expression::meaning::{
    reads_columns, reads_comparisons, reads_literals, restricted_column_has_a_listed_value,
};
use crate::expression::ExpressionView;
use crate::layout::bindings_of;
use crate::operator::{
    Aggregate, ComparisonJoin, CteColumnId, CteOutputColumn, Join, LogicalOperator, OutputColumn,
};
use crate::plan::UniqueKeyColumn;
use crate::types::ColumnBinding;
use crate::value::ValueView;

verus! {

/// The positions of a key's columns.
pub open spec fn key_positions(key: KeyView) -> Set<int> {
    Set::new(|p: int| key_covers(key, p))
}

proof fn lemma_union_key_columns(
    output: Seq<OutputColumn>,
    left: KeyView,
    right: KeyView,
    separator: usize,
    k: nat,
    p: int,
)
    requires
        k <= output.len() <= usize::MAX,
    ensures
        (exists|i: int|
            0 <= i < union_key_columns(output, left, right, separator, k).len() && (
            #[trigger] union_key_columns(output, left, right, separator, k)[i]).output_index == p)
            <==> 0 <= p < k && in_union_key(left, right, separator, p),
    decreases k,
{
    if k > 0 {
        lemma_union_key_columns(output, left, right, separator, (k - 1) as nat, p);
        let before = union_key_columns(output, left, right, separator, (k - 1) as nat);
        let now = union_key_columns(output, left, right, separator, k);
        if exists|i: int| 0 <= i < before.len() && (#[trigger] before[i]).output_index == p {
            let i = choose|i: int| 0 <= i < before.len() && (#[trigger] before[i]).output_index == p;
            assert(now[i] == before[i]);
        }
        if exists|i: int| 0 <= i < now.len() && (#[trigger] now[i]).output_index == p {
            let i = choose|i: int| 0 <= i < now.len() && (#[trigger] now[i]).output_index == p;
            if i < before.len() {
                assert(before[i] == now[i]);
            }
        }
        if p == k - 1 && in_union_key(left, right, separator, p) {
            assert(now[before.len() as int].output_index == p);
        }
    }
}

proof fn lemma_separator(
    output: Seq<OutputColumn>,
    left: Seq<OutputColumn>,
    right: Seq<OutputColumn>,
    left_domains: DomainMap,
    right_domains: DomainMap,
    k: nat,
    separator: usize,
)
    requires
        k <= output.len() <= usize::MAX,
        separators(output, left, right, left_domains, right_domains, k).contains(separator),
    ensures
        separator < k,
        branch_domains(
            output,
            left,
            right,
            left_domains,
            right_domains,
            separator as int,
        ) matches Some((l, r)) && l.disjoint(r),
    decreases k,
{
    if k > 0 {
        let before = separators(output, left, right, left_domains, right_domains, (k - 1) as nat);
        let now = separators(output, left, right, left_domains, right_domains, k);
        let i = choose|i: int| 0 <= i < now.len() && now[i] == separator;
        if i < before.len() {
            assert(before[i] == separator);
            lemma_separator(
                output,
                left,
                right,
                left_domains,
                right_domains,
                (k - 1) as nat,
                separator,
            );
        }
    }
}

/// The key of a union is one: no two rows of the branches together agree on it, where
/// no two rows of either branch agree on its key and the branches keep to the domains
/// that tell them apart. Rows are given by their domain values, column by column.
pub proof fn union_key_is_a_key(
    output: Seq<OutputColumn>,
    left_columns: Seq<OutputColumn>,
    right_columns: Seq<OutputColumn>,
    left_domains: DomainMap,
    right_domains: DomainMap,
    left: KeyView,
    right: KeyView,
    separator: usize,
    left_rows: Seq<Seq<DomainValueView>>,
    right_rows: Seq<Seq<DomainValueView>>,
)
    requires
        output.len() <= usize::MAX,
        gives_union_key(output, left_columns, right_columns, left, right),
        separators(
            output,
            left_columns,
            right_columns,
            left_domains,
            right_domains,
            output.len(),
        ).contains(separator),
        unique_on(left_rows, key_positions(left)),
        unique_on(right_rows, key_positions(right)),
        forall|i: int|
            0 <= i < left_rows.len() ==> left_domains[left_columns[separator as int].binding].contains(
                (#[trigger] left_rows[i])[separator as int],
            ),
        forall|i: int|
            0 <= i < right_rows.len()
                ==> right_domains[right_columns[separator as int].binding].contains(
                (#[trigger] right_rows[i])[separator as int],
            ),
    ensures
        unique_on(left_rows + right_rows, key_positions(union_key(output, left, right, separator))),
{
    lemma_separator(
        output,
        left_columns,
        right_columns,
        left_domains,
        right_domains,
        output.len(),
        separator,
    );
    separated_branches_keep_their_keys(
        left_rows,
        right_rows,
        key_positions(left),
        key_positions(right),
        separator as int,
        left_domains[left_columns[separator as int].binding],
        right_domains[right_columns[separator as int].binding],
    );
    let key = union_key(output, left, right, separator);
    let together = key_positions(left).union(key_positions(right)).insert(separator as int);
    assert forall|p: int| together.contains(p) implies key_positions(key).contains(p) by {
        lemma_union_key_columns(output, left, right, separator, output.len(), p);
        assert(0 <= p < output.len()) by {
            if key_covers(left, p) {
                let i = choose|i: int|
                    0 <= i < left.columns.len() && (#[trigger] left.columns[i]).output_index == p;
                assert(left.columns[i].output_index < output.len());
            }
            if key_covers(right, p) {
                let i = choose|i: int|
                    0 <= i < right.columns.len() && (#[trigger] right.columns[i]).output_index == p;
                assert(right.columns[i].output_index < output.len());
            }
        }
        assert(in_union_key(left, right, separator, p));
        let columns = union_key_columns(output, left, right, separator, output.len());
        assert(key.columns == columns);
        let i = choose|i: int| 0 <= i < columns.len() && (#[trigger] columns[i]).output_index == p;
        assert(key.columns[i].output_index == p);
        assert(key_covers(key, p));
    }
    lemma_wider_key(left_rows + right_rows, together, key_positions(key));
}

proof fn lemma_wider_key<T>(rows: Seq<Seq<T>>, narrow: Set<int>, wide: Set<int>)
    requires
        unique_on(rows, narrow),
        narrow.subset_of(wide),
    ensures
        unique_on(rows, wide),
{
    assert forall|i: int, j: int| 0 <= i < j < rows.len() implies #[trigger] differ(
        rows[i],
        rows[j],
        wide,
    ) by {
        assert(differ(rows[i], rows[j], narrow));
        let c = choose|c: int| #[trigger] narrow.contains(c) && rows[i][c] != rows[j][c];
        assert(wide.contains(c));
    }
}

proof fn lemma_varying(columns: Seq<UniqueKeyColumn>, domains: DomainMap, k: nat, j: int)
    requires
        0 <= j < k <= columns.len(),
        !is_constant(domains, columns[j].binding),
    ensures
        varying_columns(columns, domains, k).contains(columns[j]),
    decreases k,
{
    let before = varying_columns(columns, domains, (k - 1) as nat);
    let now = varying_columns(columns, domains, k);
    if j < k - 1 {
        lemma_varying(columns, domains, (k - 1) as nat, j);
        let i = choose|i: int| 0 <= i < before.len() && before[i] == columns[j];
        assert(now[i] == columns[j]);
    } else {
        assert(now[before.len() as int] == columns[j]);
    }
}

/// A key without its constant columns still is one: no two rows agree on what is left
/// of it, where all rows keep to the domains.
pub proof fn reduced_key_is_a_key(
    key: KeyView,
    domains: DomainMap,
    rows: Seq<Seq<DomainValueView>>,
)
    requires
        unique_on(rows, key_positions(key)),
        forall|c: int, i: int|
            #![trigger key.columns[c], rows[i]]
            0 <= c < key.columns.len() && 0 <= i < rows.len() && domains.contains_key(
                key.columns[c].binding,
            ) ==> domains[key.columns[c].binding].finite()
                && domains[key.columns[c].binding].contains(
                rows[i][key.columns[c].output_index as int],
            ),
    ensures
        unique_on(rows, key_positions(reduced_key(key, domains))),
{
    let less = reduced_key(key, domains);
    assert forall|i: int, j: int| 0 <= i < j < rows.len() implies #[trigger] differ(
        rows[i],
        rows[j],
        key_positions(less),
    ) by {
        assert(differ(rows[i], rows[j], key_positions(key)));
        let p = choose|p: int| #[trigger]
            key_positions(key).contains(p) && rows[i][p] != rows[j][p];
        let c = choose|c: int|
            0 <= c < key.columns.len() && (#[trigger] key.columns[c]).output_index == p;
        let binding = key.columns[c].binding;
        if is_constant(domains, binding) {
            let held = domains[binding];
            assert(held.contains(rows[i][p]) && held.contains(rows[j][p]));
            assert(held.remove(rows[i][p]).len() == 0);
            assert(held.remove(rows[i][p]).contains(rows[j][p]));
            vstd::set_lib::lemma_set_empty_equivalency_len(held.remove(rows[i][p]));
        } else {
            lemma_varying(key.columns, domains, key.columns.len(), c);
            let k = choose|k: int|
                0 <= k < less.columns.len() && less.columns[k] == key.columns[c];
            assert(less.columns[k].output_index == p);
            assert(key_positions(less).contains(p));
        }
    }
}

/// Only a column that holds one value, and that not NULL, is dropped from a key.
pub proof fn nullable_columns_stay_in_keys(domains: DomainMap, binding: ColumnBinding)
    requires
        !domains.contains_key(binding) || domains[binding].contains(
            DomainValueView::Plain(DomainValue::Null),
        ) || domains[binding].len() != 1,
    ensures
        !is_constant(domains, binding),
{
}

/// Whether all columns of a row that have a domain keep to it.
pub open spec fn keeps_to(
    domains: DomainMap,
    row: spec_fn(ColumnBinding) -> Option<int>,
    domain: spec_fn(int) -> DomainValueView,
) -> bool {
    forall|b: ColumnBinding| #[trigger]
        domains.contains_key(b) ==> domains[b].contains(
            match row(b) {
                Some(x) => domain(x),
                None => DomainValueView::Plain(DomainValue::Null),
            },
        )
}

/// What an expression computes from a row that keeps to its domains lies in the
/// expression's own domain.
pub proof fn computed_values_keep_to_their_domain(
    e: ExpressionView,
    domains: DomainMap,
    value: spec_fn(ExpressionView) -> Option<int>,
    row: spec_fn(ColumnBinding) -> Option<int>,
    literal: spec_fn(ValueView) -> Option<int>,
    domain: spec_fn(int) -> DomainValueView,
)
    requires
        reads_columns(value, row),
        reads_literals(value, literal),
        denotes_domain(literal, domain),
        keeps_to(domains, row, domain),
        expression_domain(e, domains) is Some,
    ensures
        (expression_domain(e, domains)->0).contains(
            match value(e) {
                Some(x) => domain(x),
                None => DomainValueView::Plain(DomainValue::Null),
            },
        ),
{
    match e {
        ExpressionView::Constant(v, ty) => {
            assert(value(ExpressionView::Constant(v, ty)) == literal(v));
        },
        ExpressionView::ColumnRef(c) => {
            assert(value(ExpressionView::ColumnRef(c)) == row(c.binding));
            assert(domains.contains_key(c.binding));
        },
        _ => {},
    }
}

/// A row that keeps to its domains and passes a condition keeps to the domains that
/// the condition leaves.
pub proof fn passing_rows_keep_to_refined_domains(
    domains: DomainMap,
    condition: ExpressionView,
    holds: spec_fn(ExpressionView) -> bool,
    value: spec_fn(ExpressionView) -> Option<int>,
    row: spec_fn(ColumnBinding) -> Option<int>,
    literal: spec_fn(ValueView) -> Option<int>,
    domain: spec_fn(int) -> DomainValueView,
)
    requires
        respects_connectives(holds),
        reads_comparisons(holds, value),
        reads_columns(value, row),
        reads_literals(value, literal),
        denotes_domain(literal, domain),
        keeps_to(domains, row, domain),
        holds(condition),
    ensures
        keeps_to(refined_domains_by(domains, condition), row, domain),
{
    let after = refined_domains_by(domains, condition);
    if let Some((binding, values)) = equality_domain(condition) {
        let k = restricted_column_has_a_listed_value(condition, holds, value, row, literal);
        assert(literal(values[k]) is Some);
        if all_domain_values(values) {
            lemma_domain_of(values, values.len(), k);
            assert(domain_value(values[k]) is Some);
        }
    }
    assert forall|b: ColumnBinding| #[trigger] after.contains_key(b) implies after[b].contains(
        match row(b) {
            Some(x) => domain(x),
            None => DomainValueView::Plain(DomainValue::Null),
        },
    ) by {
        if domains.contains_key(b) {
            assert(domains.contains_key(b));
        }
    }
}

/// The same for all conditions of a filter together.
pub proof fn filtered_rows_keep_to_refined_domains(
    domains: DomainMap,
    conditions: Seq<ExpressionView>,
    k: nat,
    holds: spec_fn(ExpressionView) -> bool,
    value: spec_fn(ExpressionView) -> Option<int>,
    row: spec_fn(ColumnBinding) -> Option<int>,
    literal: spec_fn(ValueView) -> Option<int>,
    domain: spec_fn(int) -> DomainValueView,
)
    requires
        k <= conditions.len(),
        respects_connectives(holds),
        reads_comparisons(holds, value),
        reads_columns(value, row),
        reads_literals(value, literal),
        denotes_domain(literal, domain),
        keeps_to(domains, row, domain),
        forall|i: int| 0 <= i < conditions.len() ==> holds(#[trigger] conditions[i]),
    ensures
        keeps_to(refined_domains(domains, conditions, k), row, domain),
    decreases k,
{
    if k > 0 {
        filtered_rows_keep_to_refined_domains(
            domains,
            conditions,
            (k - 1) as nat,
            holds,
            value,
            row,
            literal,
            domain,
        );
        assert(holds(conditions[k - 1]));
        passing_rows_keep_to_refined_domains(
            refined_domains(domains, conditions, (k - 1) as nat),
            conditions[k - 1],
            holds,
            value,
            row,
            literal,
            domain,
        );
    }
}

/// The domain of a column of a union holds the values of both branches.
pub proof fn union_domain_holds_both_branches(
    output: Seq<OutputColumn>,
    left: Seq<OutputColumn>,
    right: Seq<OutputColumn>,
    left_domains: DomainMap,
    right_domains: DomainMap,
    k: nat,
    i: int,
)
    requires
        0 <= i < k <= output.len(),
        forall|a: int, b: int|
            #![trigger output[a], output[b]]
            0 <= a < b < output.len() ==> output[a].binding != output[b].binding,
        union_domains(output, left, right, left_domains, right_domains, k).contains_key(
            output[i].binding,
        ),
    ensures
        i < left.len() && i < right.len(),
        output[i].logical_type.spec_collation() is None,
        left_domains[left[i].binding].subset_of(
            union_domains(output, left, right, left_domains, right_domains, k)[output[i].binding],
        ),
        right_domains[right[i].binding].subset_of(
            union_domains(output, left, right, left_domains, right_domains, k)[output[i].binding],
        ),
        left_domains.contains_key(left[i].binding) && right_domains.contains_key(right[i].binding),
    decreases k,
{
    if i < k - 1 {
        assert(output[i].binding != output[k - 1].binding);
        union_domain_holds_both_branches(
            output,
            left,
            right,
            left_domains,
            right_domains,
            (k - 1) as nat,
            i,
        );
    } else {
        lemma_union_domains_before(
            output,
            left,
            right,
            left_domains,
            right_domains,
            (k - 1) as nat,
            k - 1,
        );
    }
}

proof fn lemma_union_domains_before(
    output: Seq<OutputColumn>,
    left: Seq<OutputColumn>,
    right: Seq<OutputColumn>,
    left_domains: DomainMap,
    right_domains: DomainMap,
    k: nat,
    i: int,
)
    requires
        k <= i < output.len(),
        forall|a: int, b: int|
            #![trigger output[a], output[b]]
            0 <= a < b < output.len() ==> output[a].binding != output[b].binding,
    ensures
        !union_domains(output, left, right, left_domains, right_domains, k).contains_key(
            output[i].binding,
        ),
    decreases k,
{
    if k > 0 {
        lemma_union_domains_before(
            output,
            left,
            right,
            left_domains,
            right_domains,
            (k - 1) as nat,
            i,
        );
        assert(output[k - 1].binding != output[i].binding);
    }
}

/// A join that may put NULLs in place of rows proves no domain, and neither does a
/// grouping that may leave groups out of a key.
pub proof fn padded_rows_have_no_domains(
    output: Seq<OutputColumn>,
    layouts: Seq<Seq<OutputColumn>>,
    inputs: Seq<ProofInput>,
    ctes: Map<usize, PublishedProofs>,
    current: DomainMap,
    join: ComparisonJoin,
    aggregate: Aggregate,
)
    requires
        join.join_type is Left || join.join_type is Right || join.join_type is Outer
            || join.join_type is Single,
        aggregate.grouping_sets@.len() > 0,
    ensures
        operator_domains(
            LogicalOperator::Join(Join::Comparison(join)),
            output,
            layouts,
            inputs,
            ctes,
            current,
        ) == Map::<ColumnBinding, Set<DomainValueView>>::empty(),
        operator_domains(
            LogicalOperator::Aggregate(aggregate),
            output,
            layouts,
            inputs,
            ctes,
            current,
        ) == Map::<ColumnBinding, Set<DomainValueView>>::empty(),
{
}

/// Only output columns that compare byte by byte keep a domain, and they keep it as
/// it was.
pub proof fn retained_domains_compare_bytewise(
    domains: DomainMap,
    output: Seq<OutputColumn>,
    binding: ColumnBinding,
)
    ensures
        retained(domains, output).contains_key(binding) ==> domains.contains_key(binding)
            && retained(domains, output)[binding] == domains[binding] && bindings_of(
            output,
        ).contains(binding),
        (forall|i: int|
            0 <= i < output.len() && (#[trigger] output[i]).binding == binding
                ==> output[i].logical_type.spec_collation() is Some) ==> !retained(
            domains,
            output,
        ).contains_key(binding),
{
    let bindings = bindings_of(output);
    bindings.index_of_first_ensures(binding);
    if let Some(i) = bindings.index_of_first(binding) {
        assert(bindings[i] == output[i].binding);
    }
}

proof fn lemma_produced(columns: Seq<CteOutputColumn>, binding: ColumnBinding, k: nat)
    requires
        k <= columns.len(),
    ensures
        produced_definition(columns, binding, k) matches Some(definition) ==> exists|i: int|
            0 <= i < k && (#[trigger] columns[i]).binding == binding && columns[i].definition
                == definition,
    decreases k,
{
    if k > 0 && columns[k - 1].binding != binding {
        lemma_produced(columns, binding, (k - 1) as nat);
    }
}

proof fn lemma_reading(
    definitions: Seq<CteColumnId>,
    output: Seq<OutputColumn>,
    definition: CteColumnId,
    k: nat,
)
    requires
        k <= definitions.len(),
        k <= output.len(),
    ensures
        reading_column(definitions, output, definition, k) matches Some(binding) ==> exists|j: int|
            0 <= j < k && #[trigger] definitions[j] == definition && output[j].binding == binding,
    decreases k,
{
    if k > 0 && definitions[k - 1] != definition {
        lemma_reading(definitions, output, definition, (k - 1) as nat);
    }
}

/// A read takes over a fact about a column of the definition for the column that reads
/// it: both have the same identity.
pub proof fn references_read_the_same_column(
    columns: Seq<CteOutputColumn>,
    definitions: Seq<CteColumnId>,
    output: Seq<OutputColumn>,
    binding: ColumnBinding,
) -> (r: (int, int))
    requires
        reference_column(columns, definitions, output, binding) is Some,
    ensures
        0 <= r.0 < columns.len(),
        0 <= r.1 < definitions.len(),
        r.1 < output.len(),
        columns[r.0].binding == binding,
        columns[r.0].definition == definitions[r.1],
        output[r.1].binding == reference_column(columns, definitions, output, binding)->0,
{
    lemma_produced(columns, binding, columns.len());
    let definition = produced_definition(columns, binding, columns.len())->0;
    let k = shorter(definitions.len(), output.len());
    lemma_reading(definitions, output, definition, k);
    let i = choose|i: int|
        0 <= i < columns.len() && (#[trigger] columns[i]).binding == binding
            && columns[i].definition == definition;
    let found = reading_column(definitions, output, definition, k)->0;
    let j = choose|j: int|
        0 <= j < k && #[trigger] definitions[j] == definition && output[j].binding == found;
    (i, j)
}

/// A column keeps its domain exactly where an operator puts it out and it is no text
/// under a collation.
pub proof fn put_out_columns_keep_their_domains(
    domains: DomainMap,
    output: Seq<OutputColumn>,
    i: int,
)
    requires
        0 <= i < output.len(),
        domains.contains_key(output[i].binding),
        forall|j: int|
            0 <= j < output.len() && j != i ==> (#[trigger] output[j]).binding != output[i].binding,
    ensures
        retained(domains, output).contains_key(output[i].binding) <==> !(
        output[i].logical_type is CollatedVarchar),
        retained(domains, output).contains_key(output[i].binding) ==> retained(
            domains,
            output,
        )[output[i].binding] == domains[output[i].binding],
{
    let bindings = bindings_of(output);
    let binding = output[i].binding;
    bindings.index_of_first_ensures(binding);
    assert(bindings[i] == binding);
    assert(bindings.contains(binding));
    let found = bindings.index_of_first(binding)->0;
    assert(bindings[found] == output[found].binding);
}

} // verus!
