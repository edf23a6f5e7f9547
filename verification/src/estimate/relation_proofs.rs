//! Keys and finite domains that follow from the shape of a plan. Estimates
//! never enter here.

use std::collections::HashMap;
use vstd::prelude::*;

use crate::domain::{
    all_domain_values, domain_from_values, domain_of, domain_value, Domain, DomainValue,
    DomainValueView, FiniteDomains, MAX_DOMAIN_VALUES,
};
use crate::estimate::finite_filter::{all_conditions, collect_all_conditions};
use crate::estimate::output::first_position;
use crate::expression::analysis::views;
use crate::expression::equality::{equality_domain, finite_equality_domain};
use crate::expression::{Expression, ExpressionView};
use crate::layout::{bindings_of, layouts_of, LogicalOutputLayout};
use crate::operator::{CteColumnId, CteOutputColumn, Join, LogicalOperator, OutputColumn};
use crate::plan::{
    LogicalPlan, NodeStats, UniqueKey, UniqueKeyColumn, UniqueKeyNullSemantics, UniqueKeyProvenance,
};
use crate::types::{ColumnBinding, JoinType, SetOpType};

verus! {

/// Domains by column.
pub type DomainMap = Map<ColumnBinding, Set<DomainValueView>>;

/// What a key claims.
#[verifier::ext_equal]
pub struct KeyView {
    pub columns: Seq<UniqueKeyColumn>,
    pub provenance: UniqueKeyProvenance,
    pub null_semantics: UniqueKeyNullSemantics,
}

impl View for UniqueKey {
    type V = KeyView;

    open spec fn view(&self) -> KeyView {
        KeyView {
            columns: self.columns@,
            provenance: self.provenance,
            null_semantics: self.null_semantics,
        }
    }
}

pub open spec fn key_views(keys: Seq<UniqueKey>) -> Seq<KeyView> {
    keys.map_values(|key: UniqueKey| key@)
}

/// Facts of one input.
pub struct ProofInput<'a> {
    pub keys: &'a Vec<UniqueKey>,
    pub domains: &'a FiniteDomains,
}

/// Facts of the inputs of a node.
pub open spec fn child_inputs<'a>(children: Seq<LogicalPlan>) -> Seq<ProofInput<'a>> {
    children.map_values(
        |child: LogicalPlan|
            ProofInput { keys: &child.stats.unique_keys, domains: &child.stats.finite_domains },
    )
}

pub(crate) fn inputs_of<'a>(children: &'a Vec<LogicalPlan>) -> (r: Vec<ProofInput<'a>>)
    ensures
        r@ == child_inputs(children@),
{
    let mut r: Vec<ProofInput<'a>> = Vec::new();
    let mut i: usize = 0;
    while i < children.len()
        invariant
            i <= children@.len(),
            r@ == child_inputs(children@).take(i as int),
        decreases children@.len() - i,
    {
        r.push(
            ProofInput {
                keys: &children[i].stats.unique_keys,
                domains: &children[i].stats.finite_domains,
            },
        );
        assert(r@ =~= child_inputs(children@).take(i + 1));
        i = i + 1;
    }
    assert(r@ =~= child_inputs(children@));
    r
}

/// The domains of input `i`; none where there is no such input.
pub open spec fn input_domains(inputs: Seq<ProofInput>, i: int) -> DomainMap {
    if 0 <= i < inputs.len() {
        inputs[i].domains@
    } else {
        Map::empty()
    }
}

fn domains_of_input(inputs: &[ProofInput], i: usize) -> (r: FiniteDomains)
    ensures
        r@ == input_domains(inputs@, i as int),
{
    if i < inputs.len() {
        inputs[i].domains.copy()
    } else {
        FiniteDomains::new()
    }
}

/// The domain of what an expression computes from an input.
pub open spec fn expression_domain(e: ExpressionView, domains: DomainMap) -> Option<
    Set<DomainValueView>,
> {
    match e {
        ExpressionView::Constant(value, _) => match domain_value(value) {
            Some(value) => Some(set![value]),
            None => None,
        },
        ExpressionView::ColumnRef(column) => if column.depth == 0 && domains.contains_key(
            column.binding,
        ) {
            Some(domains[column.binding])
        } else {
            None
        },
        _ => None,
    }
}

fn domain_of_expression(e: &Expression, domains: &FiniteDomains) -> (r: Option<Domain>)
    ensures
        match r {
            Some(domain) => expression_domain(e@, domains@) == Some(domain@),
            None => expression_domain(e@, domains@) is None,
        },
{
    match e {
        Expression::Constant(constant) => match DomainValue::from_value(&constant.value) {
            Some(value) => Some(Domain::singleton(value)),
            None => None,
        },
        Expression::ColumnRef(column) => if column.depth == 0 {
            match domains.get(&column.binding) {
                Some(domain) => Some(domain.copy()),
                None => None,
            }
        } else {
            None
        },
        _ => None,
    }
}

/// The domains of the first `k` computed columns.
pub open spec fn computed_domains(
    output: Seq<OutputColumn>,
    expressions: Seq<ExpressionView>,
    domains: DomainMap,
    k: nat,
) -> DomainMap
    decreases k,
{
    if k == 0 {
        Map::empty()
    } else {
        let before = computed_domains(output, expressions, domains, (k - 1) as nat);
        match expression_domain(expressions[k - 1], domains) {
            Some(domain) => before.insert(output[k - 1].binding, domain),
            None => before,
        }
    }
}

pub open spec fn shorter(a: nat, b: nat) -> nat {
    if a <= b {
        a
    } else {
        b
    }
}

fn compute_domains(
    output: &LogicalOutputLayout,
    expressions: &Vec<Expression>,
    domains: &FiniteDomains,
) -> (r: FiniteDomains)
    ensures
        r@ == computed_domains(
            output.columns@,
            views(expressions@),
            domains@,
            shorter(output.columns@.len(), expressions@.len()),
        ),
{
    let mut r = FiniteDomains::new();
    let mut i: usize = 0;
    while i < output.columns.len() && i < expressions.len()
        invariant
            i <= output.columns@.len(),
            i <= expressions@.len(),
            r@ == computed_domains(output.columns@, views(expressions@), domains@, i as nat),
        decreases expressions@.len() - i,
    {
        assert(views(expressions@)[i as int] == expressions@[i as int]@);
        if let Some(domain) = domain_of_expression(&expressions[i], domains) {
            r.insert(output.columns[i].binding, domain);
        }
        i = i + 1;
    }
    r
}

/// Domains after one condition: an equality restricts its column to the values
/// that it names.
pub open spec fn refined_domains_by(domains: DomainMap, condition: ExpressionView) -> DomainMap {
    match equality_domain(condition) {
        Some((binding, values)) => {
            let named = domain_of(values, values.len());
            if !all_domain_values(values) || named.len() > MAX_DOMAIN_VALUES {
                domains
            } else if domains.contains_key(binding) {
                domains.insert(binding, domains[binding].intersect(named))
            } else {
                domains.insert(binding, named)
            }
        },
        None => domains,
    }
}

/// Domains after the first `k` conditions.
pub open spec fn refined_domains(
    domains: DomainMap,
    conditions: Seq<ExpressionView>,
    k: nat,
) -> DomainMap
    decreases k,
{
    if k == 0 {
        domains
    } else {
        refined_domains_by(refined_domains(domains, conditions, (k - 1) as nat), conditions[k - 1])
    }
}

/// Restricts domains by the equalities of a filter.
pub fn refine(expressions: &Vec<Expression>, domains: &mut FiniteDomains)
    ensures
        ({
            let conditions = all_conditions(views(expressions@), expressions@.len());
            final(domains)@ == refined_domains(old(domains)@, conditions, conditions.len())
        }),
{
    let ghost start = domains@;
    let mut conditions: Vec<Expression> = Vec::new();
    collect_all_conditions(expressions, &mut conditions);
    let ghost found = all_conditions(views(expressions@), expressions@.len());
    assert(views(Seq::<Expression>::empty()) + found =~= found);
    let mut i: usize = 0;
    while i < conditions.len()
        invariant
            i <= conditions@.len(),
            views(conditions@) == found,
            domains@ == refined_domains(start, found, i as nat),
        decreases conditions@.len() - i,
    {
        assert(found[i as int] == conditions@[i as int]@);
        if let Some((binding, values)) = finite_equality_domain(&conditions[i]) {
            if let Some(named) = domain_from_values(&values) {
                if named.len() <= MAX_DOMAIN_VALUES {
                    let restricted = match domains.get(&binding) {
                        Some(held) => held.intersection(&named),
                        None => named,
                    };
                    domains.insert(binding, restricted);
                }
            }
        }
        i = i + 1;
    }
}

/// The domains of the first `k` inputs together.
pub open spec fn joined_domains(inputs: Seq<ProofInput>, k: nat) -> DomainMap
    decreases k,
{
    if k == 0 {
        Map::empty()
    } else {
        joined_domains(inputs, (k - 1) as nat).union_prefer_right(inputs[k - 1].domains@)
    }
}

fn join_domains(inputs: &[ProofInput]) -> (r: FiniteDomains)
    ensures
        r@ == joined_domains(inputs@, inputs@.len()),
{
    let mut r = FiniteDomains::new();
    let mut i: usize = 0;
    while i < inputs.len()
        invariant
            i <= inputs@.len(),
            r@ == joined_domains(inputs@, i as nat),
        decreases inputs@.len() - i,
    {
        r.extend(inputs[i].domains);
        i = i + 1;
    }
    r
}

/// The domains of column `i` in both branches of a union, where both are known
/// and compared byte by byte.
pub open spec fn branch_domains(
    output: Seq<OutputColumn>,
    left: Seq<OutputColumn>,
    right: Seq<OutputColumn>,
    left_domains: DomainMap,
    right_domains: DomainMap,
    i: int,
) -> Option<(Set<DomainValueView>, Set<DomainValueView>)> {
    if output[i].logical_type.spec_collation() is None && i < left.len() && i < right.len()
        && left_domains.contains_key(left[i].binding) && right_domains.contains_key(
        right[i].binding,
    ) {
        Some((left_domains[left[i].binding], right_domains[right[i].binding]))
    } else {
        None
    }
}

/// The domains of the first `k` columns of a union.
pub open spec fn union_domains(
    output: Seq<OutputColumn>,
    left: Seq<OutputColumn>,
    right: Seq<OutputColumn>,
    left_domains: DomainMap,
    right_domains: DomainMap,
    k: nat,
) -> DomainMap
    decreases k,
{
    if k == 0 {
        Map::empty()
    } else {
        let before = union_domains(
            output,
            left,
            right,
            left_domains,
            right_domains,
            (k - 1) as nat,
        );
        match branch_domains(output, left, right, left_domains, right_domains, k - 1) {
            Some((l, r)) => if l.union(r).len() <= MAX_DOMAIN_VALUES {
                before.insert(output[k - 1].binding, l.union(r))
            } else {
                before
            },
            None => before,
        }
    }
}

/// Columns among the first `k` that tell the branches of a union apart.
pub open spec fn separators(
    output: Seq<OutputColumn>,
    left: Seq<OutputColumn>,
    right: Seq<OutputColumn>,
    left_domains: DomainMap,
    right_domains: DomainMap,
    k: nat,
) -> Seq<usize>
    decreases k,
{
    if k == 0 {
        Seq::empty()
    } else {
        let before = separators(
            output,
            left,
            right,
            left_domains,
            right_domains,
            (k - 1) as nat,
        );
        match branch_domains(output, left, right, left_domains, right_domains, k - 1) {
            Some((l, r)) => if l.disjoint(r) {
                before.push((k - 1) as usize)
            } else {
                before
            },
            None => before,
        }
    }
}

fn combine_branches(
    output: &LogicalOutputLayout,
    left: &LogicalOutputLayout,
    right: &LogicalOutputLayout,
    left_domains: &FiniteDomains,
    right_domains: &FiniteDomains,
) -> (r: (FiniteDomains, Vec<usize>))
    ensures
        r.0@ == union_domains(
            output.columns@,
            left.columns@,
            right.columns@,
            left_domains@,
            right_domains@,
            output.columns@.len(),
        ),
        r.1@ == separators(
            output.columns@,
            left.columns@,
            right.columns@,
            left_domains@,
            right_domains@,
            output.columns@.len(),
        ),
        forall|i: int| 0 <= i < r.1@.len() ==> (#[trigger] r.1@[i]) < output.columns@.len(),
{
    let mut domains = FiniteDomains::new();
    let mut found: Vec<usize> = Vec::new();
    let mut i: usize = 0;
    while i < output.columns.len()
        invariant
            i <= output.columns@.len(),
            domains@ == union_domains(
                output.columns@,
                left.columns@,
                right.columns@,
                left_domains@,
                right_domains@,
                i as nat,
            ),
            found@ == separators(
                output.columns@,
                left.columns@,
                right.columns@,
                left_domains@,
                right_domains@,
                i as nat,
            ),
            forall|k: int| 0 <= k < found@.len() ==> (#[trigger] found@[k]) < i,
        decreases output.columns@.len() - i,
    {
        if output.columns[i].logical_type.collation().is_none() && i < left.columns.len() && i
            < right.columns.len() {
            if let (Some(l), Some(r)) = (
                left_domains.get(&left.columns[i].binding),
                right_domains.get(&right.columns[i].binding),
            ) {
                if l.is_disjoint(r) {
                    found.push(i);
                }
                let both = l.union(r);
                if both.len() <= MAX_DOMAIN_VALUES {
                    domains.insert(output.columns[i].binding, both);
                }
            }
        }
        i = i + 1;
    }
    (domains, found)
}

/// Whether the key's columns are where the key says.
pub open spec fn key_in_place(key: KeyView, columns: Seq<OutputColumn>) -> bool {
    forall|i: int|
        0 <= i < key.columns.len() ==> (#[trigger] key.columns[i]).output_index < columns.len()
            && columns[key.columns[i].output_index as int].binding == key.columns[i].binding
}

fn is_key_in_place(key: &UniqueKey, layout: &LogicalOutputLayout) -> (r: bool)
    ensures
        r == key_in_place(key@, layout.columns@),
{
    let mut i: usize = 0;
    while i < key.columns.len()
        invariant
            i <= key.columns@.len(),
            forall|k: int|
                0 <= k < i ==> (#[trigger] key.columns@[k]).output_index < layout.columns@.len()
                    && layout.columns@[key.columns@[k].output_index as int].binding
                    == key.columns@[k].binding,
        decreases key.columns@.len() - i,
    {
        let column = key.columns[i];
        if column.output_index >= layout.columns.len()
            || layout.columns[column.output_index].binding != column.binding {
            assert(key@.columns[i as int] == column);
            return false;
        }
        i = i + 1;
    }
    true
}

/// Whether a key has a column at a position.
pub open spec fn key_covers(key: KeyView, position: int) -> bool {
    exists|i: int| 0 <= i < key.columns.len() && (#[trigger] key.columns[i]).output_index == position
}

/// Whether a position is in the key of a union with this separator.
pub open spec fn in_union_key(left: KeyView, right: KeyView, separator: usize, position: int) -> bool {
    key_covers(left, position) || key_covers(right, position) || position == separator
}

/// The columns of a union's key among the first `k` output columns.
pub open spec fn union_key_columns(
    output: Seq<OutputColumn>,
    left: KeyView,
    right: KeyView,
    separator: usize,
    k: nat,
) -> Seq<UniqueKeyColumn>
    decreases k,
{
    if k == 0 {
        Seq::empty()
    } else {
        let before = union_key_columns(output, left, right, separator, (k - 1) as nat);
        if in_union_key(left, right, separator, k - 1) {
            before.push(
                UniqueKeyColumn {
                    output_index: (k - 1) as usize,
                    binding: output[k - 1].binding,
                },
            )
        } else {
            before
        }
    }
}

/// Whether all positions of both keys are output columns.
pub open spec fn keys_fit(left: KeyView, right: KeyView, columns: nat) -> bool {
    &&& forall|i: int|
        0 <= i < left.columns.len() ==> (#[trigger] left.columns[i]).output_index < columns
    &&& forall|i: int|
        0 <= i < right.columns.len() ==> (#[trigger] right.columns[i]).output_index < columns
}

/// The key of a union of branches that a column tells apart. The separator
/// alone is no key: the keys of both branches have to be covered as well.
pub open spec fn union_key(
    output: Seq<OutputColumn>,
    left: KeyView,
    right: KeyView,
    separator: usize,
) -> KeyView {
    KeyView {
        columns: union_key_columns(output, left, right, separator, output.len()),
        provenance: UniqueKeyProvenance::Derived,
        null_semantics: left.null_semantics.spec_weaker(right.null_semantics),
    }
}

pub open spec fn gives_union_key(
    output: Seq<OutputColumn>,
    left_columns: Seq<OutputColumn>,
    right_columns: Seq<OutputColumn>,
    left: KeyView,
    right: KeyView,
) -> bool {
    key_in_place(left, left_columns) && key_in_place(right, right_columns) && keys_fit(
        left,
        right,
        output.len(),
    )
}

/// The keys from one left key and the first `k` right keys.
pub open spec fn union_keys_right(
    output: Seq<OutputColumn>,
    left_columns: Seq<OutputColumn>,
    right_columns: Seq<OutputColumn>,
    left: KeyView,
    right_keys: Seq<KeyView>,
    separator: usize,
    k: nat,
) -> Seq<KeyView>
    decreases k,
{
    if k == 0 {
        Seq::empty()
    } else {
        let before = union_keys_right(
            output,
            left_columns,
            right_columns,
            left,
            right_keys,
            separator,
            (k - 1) as nat,
        );
        if gives_union_key(output, left_columns, right_columns, left, right_keys[k - 1]) {
            before.push(union_key(output, left, right_keys[k - 1], separator))
        } else {
            before
        }
    }
}

/// The keys from the first `k` left keys.
pub open spec fn union_keys_left(
    output: Seq<OutputColumn>,
    left_columns: Seq<OutputColumn>,
    right_columns: Seq<OutputColumn>,
    left_keys: Seq<KeyView>,
    right_keys: Seq<KeyView>,
    separator: usize,
    k: nat,
) -> Seq<KeyView>
    decreases k,
{
    if k == 0 {
        Seq::empty()
    } else {
        union_keys_left(
            output,
            left_columns,
            right_columns,
            left_keys,
            right_keys,
            separator,
            (k - 1) as nat,
        ) + union_keys_right(
            output,
            left_columns,
            right_columns,
            left_keys[k - 1],
            right_keys,
            separator,
            right_keys.len(),
        )
    }
}

/// The keys of a union, from the first `k` separators.
pub open spec fn union_keys(
    output: Seq<OutputColumn>,
    left_columns: Seq<OutputColumn>,
    right_columns: Seq<OutputColumn>,
    left_keys: Seq<KeyView>,
    right_keys: Seq<KeyView>,
    separating: Seq<usize>,
    k: nat,
) -> Seq<KeyView>
    decreases k,
{
    if k == 0 {
        Seq::empty()
    } else {
        union_keys(
            output,
            left_columns,
            right_columns,
            left_keys,
            right_keys,
            separating,
            (k - 1) as nat,
        ) + union_keys_left(
            output,
            left_columns,
            right_columns,
            left_keys,
            right_keys,
            separating[k - 1],
            left_keys.len(),
        )
    }
}

fn covers(key: &UniqueKey, position: usize) -> (r: bool)
    ensures
        r == key_covers(key@, position as int),
{
    let mut i: usize = 0;
    while i < key.columns.len()
        invariant
            i <= key.columns@.len(),
            forall|k: int| 0 <= k < i ==> (#[trigger] key.columns@[k]).output_index != position,
        decreases key.columns@.len() - i,
    {
        if key.columns[i].output_index == position {
            assert(key@.columns[i as int].output_index == position);
            return true;
        }
        i = i + 1;
    }
    false
}

fn fits(key: &UniqueKey, columns: usize) -> (r: bool)
    ensures
        r == (forall|i: int|
            0 <= i < key@.columns.len() ==> (#[trigger] key@.columns[i]).output_index < columns),
{
    let mut i: usize = 0;
    while i < key.columns.len()
        invariant
            i <= key.columns@.len(),
            forall|k: int| 0 <= k < i ==> (#[trigger] key.columns@[k]).output_index < columns,
        decreases key.columns@.len() - i,
    {
        if key.columns[i].output_index >= columns {
            assert(key@.columns[i as int].output_index >= columns);
            return false;
        }
        i = i + 1;
    }
    true
}

fn build_union_key(
    output: &LogicalOutputLayout,
    left: &UniqueKey,
    right: &UniqueKey,
    separator: usize,
) -> (r: UniqueKey)
    ensures
        r@ == union_key(output.columns@, left@, right@, separator),
{
    let mut columns: Vec<UniqueKeyColumn> = Vec::new();
    let mut i: usize = 0;
    while i < output.columns.len()
        invariant
            i <= output.columns@.len(),
            columns@ == union_key_columns(output.columns@, left@, right@, separator, i as nat),
        decreases output.columns@.len() - i,
    {
        if covers(left, i) || covers(right, i) || i == separator {
            columns.push(
                UniqueKeyColumn { output_index: i, binding: output.columns[i].binding },
            );
        }
        i = i + 1;
    }
    UniqueKey {
        columns,
        provenance: UniqueKeyProvenance::Derived,
        null_semantics: left.null_semantics.weaker(right.null_semantics),
    }
}

/// Appends the keys of a union.
fn push_union_keys(
    output: &LogicalOutputLayout,
    left: &LogicalOutputLayout,
    right: &LogicalOutputLayout,
    left_keys: &Vec<UniqueKey>,
    right_keys: &Vec<UniqueKey>,
    separating: &Vec<usize>,
    keys: &mut Vec<UniqueKey>,
)
    ensures
        key_views(final(keys)@) == key_views(old(keys)@) + union_keys(
            output.columns@,
            left.columns@,
            right.columns@,
            key_views(left_keys@),
            key_views(right_keys@),
            separating@,
            separating@.len(),
        ),
{
    let ghost start = key_views(keys@);
    let ghost lefts = key_views(left_keys@);
    let ghost rights = key_views(right_keys@);
    let mut s: usize = 0;
    assert(start + Seq::<KeyView>::empty() =~= start);
    while s < separating.len()
        invariant
            s <= separating@.len(),
            lefts == key_views(left_keys@),
            rights == key_views(right_keys@),
            key_views(keys@) == start + union_keys(
                output.columns@,
                left.columns@,
                right.columns@,
                lefts,
                rights,
                separating@,
                s as nat,
            ),
        decreases separating@.len() - s,
    {
        let separator: usize = separating[s];
        let ghost outer = key_views(keys@);
        let mut a: usize = 0;
        assert(outer + Seq::<KeyView>::empty() =~= outer);
        while a < left_keys.len()
            invariant
                a <= left_keys@.len(),
                lefts == key_views(left_keys@),
                rights == key_views(right_keys@),
                key_views(keys@) == outer + union_keys_left(
                    output.columns@,
                    left.columns@,
                    right.columns@,
                    lefts,
                    rights,
                    separator,
                    a as nat,
                ),
            decreases left_keys@.len() - a,
        {
            let ghost inner = key_views(keys@);
            let mut b: usize = 0;
            assert(inner + Seq::<KeyView>::empty() =~= inner);
            assert(lefts[a as int] == left_keys@[a as int]@);
            while b < right_keys.len()
                invariant
                    a < left_keys@.len(),
                    b <= right_keys@.len(),
                    rights == key_views(right_keys@),
                    lefts[a as int] == left_keys@[a as int]@,
                    key_views(keys@) == inner + union_keys_right(
                        output.columns@,
                        left.columns@,
                        right.columns@,
                        lefts[a as int],
                        rights,
                        separator,
                        b as nat,
                    ),
                decreases right_keys@.len() - b,
            {
                let left_key = &left_keys[a];
                let right_key = &right_keys[b];
                assert(rights[b as int] == right_keys@[b as int]@);
                if is_key_in_place(left_key, left) && is_key_in_place(right_key, right) && fits(
                    left_key,
                    output.columns.len(),
                ) && fits(right_key, output.columns.len()) {
                    let ghost before = keys@;
                    let key = build_union_key(output, left_key, right_key, separator);
                    keys.push(key);
                    assert(key_views(keys@) =~= key_views(before).push(key@));
                }
                proof {
                    assert(key_views(keys@) =~= inner + union_keys_right(
                        output.columns@,
                        left.columns@,
                        right.columns@,
                        lefts[a as int],
                        rights,
                        separator,
                        (b + 1) as nat,
                    ));
                }
                b = b + 1;
            }
            assert(key_views(keys@) =~= outer + union_keys_left(
                output.columns@,
                left.columns@,
                right.columns@,
                lefts,
                rights,
                separator,
                (a + 1) as nat,
            ));
            a = a + 1;
        }
        assert(key_views(keys@) =~= start + union_keys(
            output.columns@,
            left.columns@,
            right.columns@,
            lefts,
            rights,
            separating@,
            (s + 1) as nat,
        ));
        s = s + 1;
    }
}


/// What a shared definition proves of its columns.
pub struct PublishedProofs {
    pub columns: Vec<CteOutputColumn>,
    pub keys: Vec<UniqueKey>,
    pub domains: FiniteDomains,
}

/// The definition column that a binding produces, by the last of the first `k`
/// entries.
pub open spec fn produced_definition(
    columns: Seq<CteOutputColumn>,
    binding: ColumnBinding,
    k: nat,
) -> Option<CteColumnId>
    decreases k,
{
    if k == 0 {
        None
    } else if columns[k - 1].binding == binding {
        Some(columns[k - 1].definition)
    } else {
        produced_definition(columns, binding, (k - 1) as nat)
    }
}

/// The output column that reads a definition column, by the last of the first
/// `k` entries.
pub open spec fn reading_column(
    definitions: Seq<CteColumnId>,
    output: Seq<OutputColumn>,
    definition: CteColumnId,
    k: nat,
) -> Option<ColumnBinding>
    decreases k,
{
    if k == 0 {
        None
    } else if definitions[k - 1] == definition {
        Some(output[k - 1].binding)
    } else {
        reading_column(definitions, output, definition, (k - 1) as nat)
    }
}

/// The output column of a reference that reads what a binding produces.
pub open spec fn reference_column(
    columns: Seq<CteOutputColumn>,
    definitions: Seq<CteColumnId>,
    output: Seq<OutputColumn>,
    binding: ColumnBinding,
) -> Option<ColumnBinding> {
    match produced_definition(columns, binding, columns.len()) {
        Some(definition) => reading_column(
            definitions,
            output,
            definition,
            shorter(definitions.len(), output.len()),
        ),
        None => None,
    }
}

fn column_of_reference(
    columns: &Vec<CteOutputColumn>,
    definitions: &Vec<CteColumnId>,
    output: &LogicalOutputLayout,
    binding: ColumnBinding,
) -> (r: Option<ColumnBinding>)
    ensures
        r == reference_column(columns@, definitions@, output.columns@, binding),
{
    let mut found: Option<CteColumnId> = None;
    let mut i: usize = 0;
    while i < columns.len()
        invariant
            i <= columns@.len(),
            found == produced_definition(columns@, binding, i as nat),
        decreases columns@.len() - i,
    {
        if columns[i].binding == binding {
            found = Some(columns[i].definition);
        }
        i = i + 1;
    }
    let Some(definition) = found else {
        return None;
    };
    let mut reader: Option<ColumnBinding> = None;
    let mut k: usize = 0;
    while k < definitions.len() && k < output.columns.len()
        invariant
            k <= definitions@.len(),
            k <= output.columns@.len(),
            reader == reading_column(definitions@, output.columns@, definition, k as nat),
        decreases definitions@.len() - k,
    {
        if definitions[k] == definition {
            reader = Some(output.columns[k].binding);
        }
        k = k + 1;
    }
    reader
}

/// The first `k` columns of a key as a reference reads them; none where one of
/// them is not read.
pub open spec fn reference_key_columns(
    key: KeyView,
    columns: Seq<CteOutputColumn>,
    definitions: Seq<CteColumnId>,
    output: Seq<OutputColumn>,
    k: nat,
) -> Option<Seq<UniqueKeyColumn>>
    decreases k,
{
    if k == 0 {
        Some(Seq::empty())
    } else {
        match (
            reference_key_columns(key, columns, definitions, output, (k - 1) as nat),
            reference_column(columns, definitions, output, key.columns[k - 1].binding),
        ) {
            (Some(before), Some(binding)) => match bindings_of(output).index_of_first(binding) {
                Some(i) => Some(
                    before.push(UniqueKeyColumn { output_index: i as usize, binding }),
                ),
                None => None,
            },
            _ => None,
        }
    }
}

/// The keys of a reference: those of the first `k` keys of the definition of
/// which every column is read.
pub open spec fn reference_keys(
    keys: Seq<KeyView>,
    columns: Seq<CteOutputColumn>,
    definitions: Seq<CteColumnId>,
    output: Seq<OutputColumn>,
    k: nat,
) -> Seq<KeyView>
    decreases k,
{
    if k == 0 {
        Seq::empty()
    } else {
        let before = reference_keys(keys, columns, definitions, output, (k - 1) as nat);
        let key = keys[k - 1];
        match reference_key_columns(key, columns, definitions, output, key.columns.len()) {
            Some(read) => before.push(
                KeyView {
                    columns: read,
                    provenance: UniqueKeyProvenance::Derived,
                    null_semantics: key.null_semantics,
                },
            ),
            None => before,
        }
    }
}

/// The domains of a reference, from the first `k` domains of the definition.
pub open spec fn reference_domains(
    domains: Seq<(ColumnBinding, Domain)>,
    columns: Seq<CteOutputColumn>,
    definitions: Seq<CteColumnId>,
    output: Seq<OutputColumn>,
    k: nat,
) -> DomainMap
    decreases k,
{
    if k == 0 {
        Map::empty()
    } else {
        let before = reference_domains(domains, columns, definitions, output, (k - 1) as nat);
        match reference_column(columns, definitions, output, domains[k - 1].0) {
            Some(binding) => before.insert(binding, domains[k - 1].1@),
            None => before,
        }
    }
}

proof fn lemma_key_lost(
    key: KeyView,
    columns: Seq<CteOutputColumn>,
    definitions: Seq<CteColumnId>,
    output: Seq<OutputColumn>,
    k: nat,
    m: nat,
)
    requires
        k <= m,
        reference_key_columns(key, columns, definitions, output, k) is None,
    ensures
        reference_key_columns(key, columns, definitions, output, m) is None,
    decreases m,
{
    if k < m {
        lemma_key_lost(key, columns, definitions, output, k, (m - 1) as nat);
    }
}

fn read_key(
    key: &UniqueKey,
    columns: &Vec<CteOutputColumn>,
    definitions: &Vec<CteColumnId>,
    output: &LogicalOutputLayout,
) -> (r: Option<Vec<UniqueKeyColumn>>)
    ensures
        match reference_key_columns(
            key@,
            columns@,
            definitions@,
            output.columns@,
            key.columns@.len(),
        ) {
            Some(read) => r matches Some(list) && list@ == read,
            None => r is None,
        },
{
    let bindings = output.bindings();
    let mut read: Vec<UniqueKeyColumn> = Vec::new();
    let mut i: usize = 0;
    while i < key.columns.len()
        invariant
            i <= key.columns@.len(),
            bindings@ == bindings_of(output.columns@),
            reference_key_columns(key@, columns@, definitions@, output.columns@, i as nat) == Some(
                read@,
            ),
        decreases key.columns@.len() - i,
    {
        let position: Option<(usize, ColumnBinding)> = match column_of_reference(
            columns,
            definitions,
            output,
            key.columns[i].binding,
        ) {
            Some(binding) => match first_position(&bindings, binding) {
                Some(position) => Some((position, binding)),
                None => None,
            },
            None => None,
        };
        match position {
            Some((output_index, binding)) => {
                read.push(UniqueKeyColumn { output_index, binding });
            },
            None => {
                proof {
                    lemma_key_lost(
                        key@,
                        columns@,
                        definitions@,
                        output.columns@,
                        (i + 1) as nat,
                        key.columns@.len(),
                    );
                }
                return None;
            },
        }
        i = i + 1;
    }
    Some(read)
}

impl PublishedProofs {
    /// The keys of a reference.
    fn read_keys(&self, definitions: &Vec<CteColumnId>, output: &LogicalOutputLayout) -> (r: Vec<
        UniqueKey,
    >)
        ensures
            key_views(r@) == reference_keys(
                key_views(self.keys@),
                self.columns@,
                definitions@,
                output.columns@,
                self.keys@.len(),
            ),
    {
        let ghost found = key_views(self.keys@);
        let mut r: Vec<UniqueKey> = Vec::new();
        let mut i: usize = 0;
        assert(key_views(r@) =~= Seq::<KeyView>::empty());
        while i < self.keys.len()
            invariant
                i <= self.keys@.len(),
                found == key_views(self.keys@),
                key_views(r@) == reference_keys(
                    found,
                    self.columns@,
                    definitions@,
                    output.columns@,
                    i as nat,
                ),
            decreases self.keys@.len() - i,
        {
            let key = &self.keys[i];
            assert(found[i as int] == key@);
            let ghost before = r@;
            if let Some(columns) = read_key(key, &self.columns, definitions, output) {
                let read = UniqueKey {
                    columns,
                    provenance: UniqueKeyProvenance::Derived,
                    null_semantics: key.null_semantics,
                };
                r.push(read);
                assert(key_views(r@) =~= key_views(before).push(read@));
            }
            i = i + 1;
        }
        r
    }

    /// The domains of a reference.
    fn read_domains(&self, definitions: &Vec<CteColumnId>, output: &LogicalOutputLayout) -> (r:
        FiniteDomains)
        ensures
            r@ == reference_domains(
                self.domains.columns.sequence(),
                self.columns@,
                definitions@,
                output.columns@,
                self.domains.columns.sequence().len(),
            ),
    {
        let mut r = FiniteDomains::new();
        let entries: usize = self.domains.columns.len();
        let mut i: usize = 0;
        while i < entries
            invariant
                i <= entries,
                entries == self.domains.columns.sequence().len(),
                r@ == reference_domains(
                    self.domains.columns.sequence(),
                    self.columns@,
                    definitions@,
                    output.columns@,
                    i as nat,
                ),
            decreases entries - i,
        {
            let (binding, domain) = self.domains.columns.entry(i);
            if let Some(reader) = column_of_reference(
                &self.columns,
                definitions,
                output,
                binding,
            ) {
                r.insert(reader, domain.copy());
            }
            i = i + 1;
        }
        r
    }
}

/// Whether an output column can keep a domain: text under a collation cannot,
/// as different bytes may be equal.
pub open spec fn keeps_domain(output: Seq<OutputColumn>, binding: ColumnBinding) -> bool {
    match bindings_of(output).index_of_first(binding) {
        Some(i) => output[i].logical_type.spec_collation() is None,
        None => false,
    }
}

/// The domains of output columns that can keep them.
pub open spec fn retained(domains: DomainMap, output: Seq<OutputColumn>) -> DomainMap {
    domains.restrict(Set::new(|binding: ColumnBinding| keeps_domain(output, binding)))
}

fn retain_output(domains: &FiniteDomains, output: &LogicalOutputLayout) -> (r: FiniteDomains)
    ensures
        r@ == retained(domains@, output.columns@),
{
    let bindings = output.bindings();
    let mut r = FiniteDomains::new();
    let entries: usize = domains.columns.len();
    let ghost held = domains.columns.sequence();
    let ghost wanted = retained(domains@, output.columns@);
    let mut i: usize = 0;
    while i < entries
        invariant
            i <= entries,
            held == domains.columns.sequence(),
            entries == held.len(),
            bindings@ == bindings_of(output.columns@),
            forall|k: int|
                0 <= k < entries ==> domains.columns@.contains_key((#[trigger] held[k]).0)
                    && domains.columns@[held[k].0] == held[k].1,
            forall|b: ColumnBinding| #[trigger]
                r@.contains_key(b) <==> (keeps_domain(output.columns@, b) && exists|k: int|
                    0 <= k < i && (#[trigger] held[k]).0 == b),
            forall|b: ColumnBinding| #[trigger]
                r@.contains_key(b) ==> domains@.contains_key(b) && r@[b] == domains@[b],
        decreases entries - i,
    {
        let ghost before = r@;
        let (binding, domain) = domains.columns.entry(i);
        assert(held[i as int].0 == binding);
        if let Some(position) = first_position(&bindings, binding) {
            if output.columns[position].logical_type.collation().is_none() {
                r.insert(binding, domain.copy());
            }
        }
        proof {
            assert forall|b: ColumnBinding| #[trigger] r@.contains_key(b) <==> (keeps_domain(
                output.columns@,
                b,
            ) && exists|k: int| 0 <= k < i + 1 && (#[trigger] held[k]).0 == b) by {
                assert(before.contains_key(b) <==> (keeps_domain(output.columns@, b) && exists|
                    k: int,
                |
                    0 <= k < i && (#[trigger] held[k]).0 == b));
                if b == binding {
                    assert(held[i as int].0 == b);
                }
            }
        }
        i = i + 1;
    }
    proof {
        assert forall|b: ColumnBinding| r@.contains_key(b) == wanted.contains_key(b) by {
            if wanted.contains_key(b) {
                let k = domains.columns.lemma_position(b);
                assert(held[k].0 == b);
            }
        }
        assert(r@ =~= wanted);
    }
    r
}

/// Whether a column holds one value, and that is not null.
pub open spec fn is_constant(domains: DomainMap, binding: ColumnBinding) -> bool {
    domains.contains_key(binding) && domains[binding].len() == 1 && !domains[binding].contains(
        DomainValueView::Plain(DomainValue::Null),
    )
}

fn column_is_constant(domains: &FiniteDomains, binding: ColumnBinding) -> (r: bool)
    ensures
        r == is_constant(domains@, binding),
{
    match domains.get(&binding) {
        Some(domain) => domain.len() == 1 && !domain.contains(&DomainValue::Null),
        None => false,
    }
}

/// The first `k` key columns that are no constants.
pub open spec fn varying_columns(
    columns: Seq<UniqueKeyColumn>,
    domains: DomainMap,
    k: nat,
) -> Seq<UniqueKeyColumn>
    decreases k,
{
    if k == 0 {
        Seq::empty()
    } else {
        let before = varying_columns(columns, domains, (k - 1) as nat);
        if is_constant(domains, columns[k - 1].binding) {
            before
        } else {
            before.push(columns[k - 1])
        }
    }
}

/// A key without its constant columns. Only a proven constant is dropped, and
/// no dependence between other columns is inferred.
pub open spec fn reduced_key(key: KeyView, domains: DomainMap) -> KeyView {
    KeyView { columns: varying_columns(key.columns, domains, key.columns.len()), ..key }
}

pub open spec fn reduced_keys(keys: Seq<KeyView>, domains: DomainMap) -> Seq<KeyView> {
    keys.map_values(|key: KeyView| reduced_key(key, domains))
}

fn reduce_keys(keys: &Vec<UniqueKey>, domains: &FiniteDomains) -> (r: Vec<UniqueKey>)
    ensures
        key_views(r@) == reduced_keys(key_views(keys@), domains@),
{
    let mut r: Vec<UniqueKey> = Vec::new();
    let mut i: usize = 0;
    while i < keys.len()
        invariant
            i <= keys@.len(),
            r@.len() == i,
            forall|k: int|
                0 <= k < i ==> (#[trigger] r@[k])@ == reduced_key(keys@[k]@, domains@),
        decreases keys@.len() - i,
    {
        let key = &keys[i];
        let mut columns: Vec<UniqueKeyColumn> = Vec::new();
        let mut c: usize = 0;
        while c < key.columns.len()
            invariant
                c <= key.columns@.len(),
                columns@ == varying_columns(key.columns@, domains@, c as nat),
            decreases key.columns@.len() - c,
        {
            if !column_is_constant(domains, key.columns[c].binding) {
                columns.push(key.columns[c]);
            }
            c = c + 1;
        }
        r.push(
            UniqueKey {
                columns,
                provenance: key.provenance,
                null_semantics: key.null_semantics,
            },
        );
        i = i + 1;
    }
    assert(key_views(r@) =~= reduced_keys(key_views(keys@), domains@));
    r
}

/// The domains that an operator's rows have, before they are restricted to its
/// output.
pub open spec fn operator_domains(
    operator: LogicalOperator,
    output: Seq<OutputColumn>,
    layouts: Seq<Seq<OutputColumn>>,
    inputs: Seq<ProofInput>,
    ctes: Map<usize, PublishedProofs>,
    current: DomainMap,
) -> DomainMap {
    match operator {
        LogicalOperator::SubplanRef(_) => current,
        LogicalOperator::Projection(projection) => computed_domains(
            output,
            views(projection.expressions@),
            input_domains(inputs, 0),
            shorter(output.len(), projection.expressions@.len()),
        ),
        LogicalOperator::Aggregate(aggregate) => if aggregate.grouping_sets@.len() == 0 {
            computed_domains(
                output,
                views(aggregate.groups@),
                input_domains(inputs, 0),
                shorter(output.len(), aggregate.groups@.len()),
            )
        } else {
            Map::empty()
        },
        LogicalOperator::Filter(filter) => {
            let conditions = all_conditions(views(filter.expressions@), filter.expressions@.len());
            refined_domains(input_domains(inputs, 0), conditions, conditions.len())
        },
        LogicalOperator::Order => input_domains(inputs, 0),
        LogicalOperator::TopN(_) => input_domains(inputs, 0),
        LogicalOperator::Limit(_) => input_domains(inputs, 0),
        LogicalOperator::Distinct => input_domains(inputs, 0),
        LogicalOperator::Window(_) => input_domains(inputs, 0),
        LogicalOperator::RowFetch => input_domains(inputs, 0),
        LogicalOperator::ExternalProject(_) => input_domains(inputs, 0),
        LogicalOperator::MaterializedCTE(_) => input_domains(inputs, 1),
        LogicalOperator::Join(Join::Comparison(join)) => if join.join_type == JoinType::Inner {
            joined_domains(inputs, inputs.len())
        } else {
            Map::empty()
        },
        LogicalOperator::SetOperation(set) => if set.setop_type == SetOpType::Union
            && inputs.len() >= 2 && layouts.len() >= 2 {
            union_domains(
                output,
                layouts[0],
                layouts[1],
                inputs[0].domains@,
                inputs[1].domains@,
                output.len(),
            )
        } else {
            Map::empty()
        },
        LogicalOperator::CTERef(reference) => if ctes.contains_key(reference.cte_index) {
            let published = ctes[reference.cte_index];
            reference_domains(
                published.domains.columns.sequence(),
                published.columns@,
                reference.definition_columns@,
                output,
                published.domains.columns.sequence().len(),
            )
        } else {
            Map::empty()
        },
        _ => Map::empty(),
    }
}

/// The keys of an operator's rows, before constant columns are dropped. The
/// base keys are those that its inputs and constraints give.
pub open spec fn operator_keys(
    operator: LogicalOperator,
    output: Seq<OutputColumn>,
    layouts: Seq<Seq<OutputColumn>>,
    inputs: Seq<ProofInput>,
    ctes: Map<usize, PublishedProofs>,
    base: Seq<KeyView>,
) -> Seq<KeyView> {
    match operator {
        LogicalOperator::SetOperation(set) => if set.setop_type == SetOpType::Union
            && inputs.len() >= 2 && layouts.len() >= 2 {
            let separating = separators(
                output,
                layouts[0],
                layouts[1],
                inputs[0].domains@,
                inputs[1].domains@,
                output.len(),
            );
            base + union_keys(
                output,
                layouts[0],
                layouts[1],
                key_views(inputs[0].keys@),
                key_views(inputs[1].keys@),
                separating,
                separating.len(),
            )
        } else {
            base
        },
        LogicalOperator::CTERef(reference) => if ctes.contains_key(reference.cte_index) {
            let published = ctes[reference.cte_index];
            reference_keys(
                key_views(published.keys@),
                published.columns@,
                reference.definition_columns@,
                output,
                published.keys@.len(),
            )
        } else {
            base
        },
        _ => base,
    }
}

/// Proofs of shared definitions.
pub struct RelationProofs {
    pub ctes: HashMap<usize, PublishedProofs>,
}

fn copy_keys(keys: &Vec<UniqueKey>) -> (r: Vec<UniqueKey>)
    ensures
        key_views(r@) == key_views(keys@),
{
    let mut r: Vec<UniqueKey> = Vec::new();
    let mut i: usize = 0;
    while i < keys.len()
        invariant
            i <= keys@.len(),
            r@.len() == i,
            forall|k: int| 0 <= k < i ==> (#[trigger] r@[k])@ == keys@[k]@,
        decreases keys@.len() - i,
    {
        let mut columns: Vec<UniqueKeyColumn> = Vec::new();
        let mut c: usize = 0;
        while c < keys[i].columns.len()
            invariant
                i < keys@.len(),
                c <= keys@[i as int].columns@.len(),
                columns@ == keys@[i as int].columns@.take(c as int),
            decreases keys@[i as int].columns@.len() - c,
        {
            columns.push(keys[i].columns[c]);
            assert(columns@ =~= keys@[i as int].columns@.take(c + 1));
            c = c + 1;
        }
        assert(columns@ =~= keys@[i as int].columns@);
        r.push(
            UniqueKey {
                columns,
                provenance: keys[i].provenance,
                null_semantics: keys[i].null_semantics,
            },
        );
        i = i + 1;
    }
    assert(key_views(r@) =~= key_views(keys@));
    r
}

fn copy_columns(columns: &Vec<CteOutputColumn>) -> (r: Vec<CteOutputColumn>)
    ensures
        r@ == columns@,
{
    let mut r: Vec<CteOutputColumn> = Vec::new();
    let mut i: usize = 0;
    while i < columns.len()
        invariant
            i <= columns@.len(),
            r@ == columns@.take(i as int),
        decreases columns@.len() - i,
    {
        r.push(columns[i]);
        assert(r@ =~= columns@.take(i + 1));
        i = i + 1;
    }
    assert(r@ =~= columns@);
    r
}

/// Whether the entry holds what a definition's node proves.
pub open spec fn publishes(
    entry: PublishedProofs,
    columns: Seq<CteOutputColumn>,
    stats: NodeStats,
) -> bool {
    &&& entry.columns@ == columns
    &&& key_views(entry.keys@) == key_views(stats.unique_keys@)
    &&& entry.domains@ == stats.finite_domains@
}

impl RelationProofs {
    pub fn new() -> (r: RelationProofs)
        ensures
            r.ctes@ == Map::<usize, PublishedProofs>::empty(),
    {
        RelationProofs { ctes: HashMap::new() }
    }

    /// Keeps what is proven of a shared definition, for its references.
    pub fn publish(&mut self, index: usize, columns: &Vec<CteOutputColumn>, stats: &NodeStats)
        ensures
            final(self).ctes@.contains_key(index),
            final(self).ctes@.remove(index) == old(self).ctes@.remove(index),
            publishes(final(self).ctes@[index], columns@, *stats),
    {
        broadcast use vstd::std_specs::hash::group_hash_axioms;

        let entry = PublishedProofs {
            columns: copy_columns(columns),
            keys: copy_keys(&stats.unique_keys),
            domains: stats.finite_domains.copy(),
        };
        self.ctes.insert(index, entry);
        assert(self.ctes@.remove(index) =~= old(self).ctes@.remove(index));
    }

    /// Derives keys and domains of one operator from those of its inputs.
    /// `base` holds the keys that its inputs and constraints give.
    pub fn derive(
        &self,
        operator: &LogicalOperator,
        output: &LogicalOutputLayout,
        layouts: &[LogicalOutputLayout],
        inputs: &[ProofInput],
        base: Vec<UniqueKey>,
        stats: &mut NodeStats,
    )
        ensures
            final(stats).estimated_cardinality == old(stats).estimated_cardinality,
            final(stats).cardinality_provenance == old(stats).cardinality_provenance,
            final(stats).finite_domains@ == retained(
                operator_domains(
                    *operator,
                    output.columns@,
                    layouts_of(layouts@),
                    inputs@,
                    self.ctes@,
                    old(stats).finite_domains@,
                ),
                output.columns@,
            ),
            key_views(final(stats).unique_keys@) == reduced_keys(
                operator_keys(
                    *operator,
                    output.columns@,
                    layouts_of(layouts@),
                    inputs@,
                    self.ctes@,
                    key_views(base@),
                ),
                final(stats).finite_domains@,
            ),
    {
        broadcast use vstd::std_specs::hash::group_hash_axioms;

        let ghost columns = layouts_of(layouts@);
        let mut keys = base;
        let domains: FiniteDomains = match operator {
            LogicalOperator::SubplanRef(_) => stats.finite_domains.copy(),
            LogicalOperator::Projection(projection) => compute_domains(
                output,
                &projection.expressions,
                &domains_of_input(inputs, 0),
            ),
            LogicalOperator::Aggregate(aggregate) => if aggregate.grouping_sets.len() == 0 {
                compute_domains(output, &aggregate.groups, &domains_of_input(inputs, 0))
            } else {
                FiniteDomains::new()
            },
            LogicalOperator::Filter(filter) => {
                let mut restricted = domains_of_input(inputs, 0);
                refine(&filter.expressions, &mut restricted);
                restricted
            },
            LogicalOperator::Order => domains_of_input(inputs, 0),
            LogicalOperator::TopN(_) => domains_of_input(inputs, 0),
            LogicalOperator::Limit(_) => domains_of_input(inputs, 0),
            LogicalOperator::Distinct => domains_of_input(inputs, 0),
            LogicalOperator::Window(_) => domains_of_input(inputs, 0),
            LogicalOperator::RowFetch => domains_of_input(inputs, 0),
            LogicalOperator::ExternalProject(_) => domains_of_input(inputs, 0),
            LogicalOperator::MaterializedCTE(_) => domains_of_input(inputs, 1),
            LogicalOperator::Join(Join::Comparison(join)) => match join.join_type {
                JoinType::Inner => join_domains(inputs),
                _ => FiniteDomains::new(),
            },
            LogicalOperator::SetOperation(set) => {
                let is_union: bool = matches!(set.setop_type, SetOpType::Union);
                if is_union && inputs.len() >= 2 && layouts.len() >= 2 {
                    assert(columns[0] == layouts@[0].columns@);
                    assert(columns[1] == layouts@[1].columns@);
                    let (combined, separating) = combine_branches(
                        output,
                        &layouts[0],
                        &layouts[1],
                        inputs[0].domains,
                        inputs[1].domains,
                    );
                    push_union_keys(
                        output,
                        &layouts[0],
                        &layouts[1],
                        inputs[0].keys,
                        inputs[1].keys,
                        &separating,
                        &mut keys,
                    );
                    combined
                } else {
                    FiniteDomains::new()
                }
            },
            LogicalOperator::CTERef(reference) => match self.ctes.get(&reference.cte_index) {
                Some(published) => {
                    keys = published.read_keys(&reference.definition_columns, output);
                    published.read_domains(&reference.definition_columns, output)
                },
                None => FiniteDomains::new(),
            },
            _ => FiniteDomains::new(),
        };
        let kept = retain_output(&domains, output);
        stats.unique_keys = reduce_keys(&keys, &kept);
        stats.finite_domains = kept;
    }
}

/// Whether two rows differ in one of the columns.
pub open spec fn differ<T>(a: Seq<T>, b: Seq<T>, columns: Set<int>) -> bool {
    exists|c: int| #[trigger] columns.contains(c) && a[c] != b[c]
}

/// Whether no two rows agree on all of the columns.
pub open spec fn unique_on<T>(rows: Seq<Seq<T>>, columns: Set<int>) -> bool {
    forall|i: int, j: int|
        0 <= i < j < rows.len() ==> #[trigger] differ(rows[i], rows[j], columns)
}

/// Rows of two branches that a column tells apart are unique on that column and
/// the keys of both branches together.
pub proof fn separated_branches_keep_their_keys<T>(
    left: Seq<Seq<T>>,
    right: Seq<Seq<T>>,
    left_key: Set<int>,
    right_key: Set<int>,
    separator: int,
    left_values: Set<T>,
    right_values: Set<T>,
)
    requires
        unique_on(left, left_key),
        unique_on(right, right_key),
        left_values.disjoint(right_values),
        forall|i: int| 0 <= i < left.len() ==> left_values.contains((#[trigger] left[i])[separator]),
        forall|i: int|
            0 <= i < right.len() ==> right_values.contains((#[trigger] right[i])[separator]),
    ensures
        unique_on(left + right, left_key.union(right_key).insert(separator)),
{
    let rows = left + right;
    let key = left_key.union(right_key).insert(separator);
    assert forall|i: int, j: int| 0 <= i < j < rows.len() implies #[trigger] differ(
        rows[i],
        rows[j],
        key,
    ) by {
        if j < left.len() {
            assert(differ(left[i], left[j], left_key));
            let c = choose|c: int| #[trigger] left_key.contains(c) && left[i][c] != left[j][c];
            assert(key.contains(c));
        } else if i >= left.len() {
            let a = i - left.len();
            let b = j - left.len();
            assert(rows[i] == right[a] && rows[j] == right[b]);
            assert(differ(right[a], right[b], right_key));
            let c = choose|c: int| #[trigger] right_key.contains(c) && right[a][c] != right[b][c];
            assert(key.contains(c));
        } else {
            let b = j - left.len();
            assert(rows[i] == left[i] && rows[j] == right[b]);
            assert(left_values.contains(left[i][separator]));
            assert(right_values.contains(right[b][separator]));
            assert(key.contains(separator));
        }
    }
}

/// A column that holds one value adds nothing to a key.
pub proof fn constant_columns_are_redundant<T>(rows: Seq<Seq<T>>, key: Set<int>, constants: Set<int>)
    requires
        unique_on(rows, key),
        forall|c: int, i: int, j: int|
            #![trigger constants.contains(c), rows[i], rows[j]]
            constants.contains(c) && 0 <= i < rows.len() && 0 <= j < rows.len() ==> rows[i][c]
                == rows[j][c],
    ensures
        unique_on(rows, key.difference(constants)),
{
    let rest = key.difference(constants);
    assert forall|i: int, j: int| 0 <= i < j < rows.len() implies #[trigger] differ(
        rows[i],
        rows[j],
        rest,
    ) by {
        assert(differ(rows[i], rows[j], key));
        let c = choose|c: int| #[trigger] key.contains(c) && rows[i][c] != rows[j][c];
        if constants.contains(c) {
            assert(rows[i][c] == rows[j][c]);
        }
        assert(rest.contains(c));
    }
}

} // verus!
