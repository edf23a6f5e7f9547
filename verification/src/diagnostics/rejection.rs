//! Bounded evidence of why transformations are rejected. Counts are rejected
//! bindings that a guard turned away, not disjoint outcomes: one binding can
//! fail several guards, but counts at most once for each.

use vstd::prelude::*;

use crate::estimate::cardinality::{capped, saturating_add_u64};

verus! {

/// Number of guards.
pub const GUARDS: usize = 48;

#[derive(Clone, Copy, Debug, PartialEq, Eq, Structural)]
pub enum TransformationRejectionGuard {
    ApplicationError,
    NoOutput,
    OutputContract,
    PublicationError,
    BoundaryUnavailable,
    SelectiveShape,
    SelectiveUnsafeOutput,
    SelectiveMissingCardinality,
    SelectiveInvalidColumn,
    SelectiveNoBaseSource,
    SelectiveRowIdPath,
    SelectiveJoinLocality,
    SelectiveMissingSourceRows,
    SelectiveNoReduction,
    SelectiveNoBenefit,
    AggregateShape,
    AggregateZeroLimit,
    AggregateProjectionShape,
    AggregateUnsafeOutput,
    AggregateOutputExpression,
    AggregateInputShape,
    AggregateGroupingDomain,
    AggregateOutputBinding,
    AggregateOrderBinding,
    AggregateNoDependency,
    AggregateDependencyInvalid,
    AggregateDependentColumn,
    AggregateRowIdPath,
    AggregateSource,
    AggregateStorage,
    AggregateMissingCardinality,
    AggregateNoBenefit,
    AggregateOrderUsesPayload,
    TopNShape,
    TopNZeroLimit,
    TopNProjectionShape,
    TopNUnsafeOutput,
    TopNOutputExpression,
    TopNOrderBinding,
    TopNProjectionMap,
    TopNSource,
    TopNColumnType,
    TopNMissingCardinality,
    TopNRowIdPath,
    TopNMissingSourceRows,
    TopNNoBenefit,
    TopNNoPayload,
    PrefixNoWitness,
}

impl TransformationRejectionGuard {
    /// Position of a guard in the order of their declaration.
    pub open spec fn spec_ordinal(self) -> usize {
        match self {
            TransformationRejectionGuard::ApplicationError => 0,
            TransformationRejectionGuard::NoOutput => 1,
            TransformationRejectionGuard::OutputContract => 2,
            TransformationRejectionGuard::PublicationError => 3,
            TransformationRejectionGuard::BoundaryUnavailable => 4,
            TransformationRejectionGuard::SelectiveShape => 5,
            TransformationRejectionGuard::SelectiveUnsafeOutput => 6,
            TransformationRejectionGuard::SelectiveMissingCardinality => 7,
            TransformationRejectionGuard::SelectiveInvalidColumn => 8,
            TransformationRejectionGuard::SelectiveNoBaseSource => 9,
            TransformationRejectionGuard::SelectiveRowIdPath => 10,
            TransformationRejectionGuard::SelectiveJoinLocality => 11,
            TransformationRejectionGuard::SelectiveMissingSourceRows => 12,
            TransformationRejectionGuard::SelectiveNoReduction => 13,
            TransformationRejectionGuard::SelectiveNoBenefit => 14,
            TransformationRejectionGuard::AggregateShape => 15,
            TransformationRejectionGuard::AggregateZeroLimit => 16,
            TransformationRejectionGuard::AggregateProjectionShape => 17,
            TransformationRejectionGuard::AggregateUnsafeOutput => 18,
            TransformationRejectionGuard::AggregateOutputExpression => 19,
            TransformationRejectionGuard::AggregateInputShape => 20,
            TransformationRejectionGuard::AggregateGroupingDomain => 21,
            TransformationRejectionGuard::AggregateOutputBinding => 22,
            TransformationRejectionGuard::AggregateOrderBinding => 23,
            TransformationRejectionGuard::AggregateNoDependency => 24,
            TransformationRejectionGuard::AggregateDependencyInvalid => 25,
            TransformationRejectionGuard::AggregateDependentColumn => 26,
            TransformationRejectionGuard::AggregateRowIdPath => 27,
            TransformationRejectionGuard::AggregateSource => 28,
            TransformationRejectionGuard::AggregateStorage => 29,
            TransformationRejectionGuard::AggregateMissingCardinality => 30,
            TransformationRejectionGuard::AggregateNoBenefit => 31,
            TransformationRejectionGuard::AggregateOrderUsesPayload => 32,
            TransformationRejectionGuard::TopNShape => 33,
            TransformationRejectionGuard::TopNZeroLimit => 34,
            TransformationRejectionGuard::TopNProjectionShape => 35,
            TransformationRejectionGuard::TopNUnsafeOutput => 36,
            TransformationRejectionGuard::TopNOutputExpression => 37,
            TransformationRejectionGuard::TopNOrderBinding => 38,
            TransformationRejectionGuard::TopNProjectionMap => 39,
            TransformationRejectionGuard::TopNSource => 40,
            TransformationRejectionGuard::TopNColumnType => 41,
            TransformationRejectionGuard::TopNMissingCardinality => 42,
            TransformationRejectionGuard::TopNRowIdPath => 43,
            TransformationRejectionGuard::TopNMissingSourceRows => 44,
            TransformationRejectionGuard::TopNNoBenefit => 45,
            TransformationRejectionGuard::TopNNoPayload => 46,
            TransformationRejectionGuard::PrefixNoWitness => 47,
        }
    }

    pub fn ordinal(self) -> (r: usize)
        ensures
            r == self.spec_ordinal(),
            r < GUARDS,
    {
        match self {
            TransformationRejectionGuard::ApplicationError => 0,
            TransformationRejectionGuard::NoOutput => 1,
            TransformationRejectionGuard::OutputContract => 2,
            TransformationRejectionGuard::PublicationError => 3,
            TransformationRejectionGuard::BoundaryUnavailable => 4,
            TransformationRejectionGuard::SelectiveShape => 5,
            TransformationRejectionGuard::SelectiveUnsafeOutput => 6,
            TransformationRejectionGuard::SelectiveMissingCardinality => 7,
            TransformationRejectionGuard::SelectiveInvalidColumn => 8,
            TransformationRejectionGuard::SelectiveNoBaseSource => 9,
            TransformationRejectionGuard::SelectiveRowIdPath => 10,
            TransformationRejectionGuard::SelectiveJoinLocality => 11,
            TransformationRejectionGuard::SelectiveMissingSourceRows => 12,
            TransformationRejectionGuard::SelectiveNoReduction => 13,
            TransformationRejectionGuard::SelectiveNoBenefit => 14,
            TransformationRejectionGuard::AggregateShape => 15,
            TransformationRejectionGuard::AggregateZeroLimit => 16,
            TransformationRejectionGuard::AggregateProjectionShape => 17,
            TransformationRejectionGuard::AggregateUnsafeOutput => 18,
            TransformationRejectionGuard::AggregateOutputExpression => 19,
            TransformationRejectionGuard::AggregateInputShape => 20,
            TransformationRejectionGuard::AggregateGroupingDomain => 21,
            TransformationRejectionGuard::AggregateOutputBinding => 22,
            TransformationRejectionGuard::AggregateOrderBinding => 23,
            TransformationRejectionGuard::AggregateNoDependency => 24,
            TransformationRejectionGuard::AggregateDependencyInvalid => 25,
            TransformationRejectionGuard::AggregateDependentColumn => 26,
            TransformationRejectionGuard::AggregateRowIdPath => 27,
            TransformationRejectionGuard::AggregateSource => 28,
            TransformationRejectionGuard::AggregateStorage => 29,
            TransformationRejectionGuard::AggregateMissingCardinality => 30,
            TransformationRejectionGuard::AggregateNoBenefit => 31,
            TransformationRejectionGuard::AggregateOrderUsesPayload => 32,
            TransformationRejectionGuard::TopNShape => 33,
            TransformationRejectionGuard::TopNZeroLimit => 34,
            TransformationRejectionGuard::TopNProjectionShape => 35,
            TransformationRejectionGuard::TopNUnsafeOutput => 36,
            TransformationRejectionGuard::TopNOutputExpression => 37,
            TransformationRejectionGuard::TopNOrderBinding => 38,
            TransformationRejectionGuard::TopNProjectionMap => 39,
            TransformationRejectionGuard::TopNSource => 40,
            TransformationRejectionGuard::TopNColumnType => 41,
            TransformationRejectionGuard::TopNMissingCardinality => 42,
            TransformationRejectionGuard::TopNRowIdPath => 43,
            TransformationRejectionGuard::TopNMissingSourceRows => 44,
            TransformationRejectionGuard::TopNNoBenefit => 45,
            TransformationRejectionGuard::TopNNoPayload => 46,
            TransformationRejectionGuard::PrefixNoWitness => 47,
        }
    }

    pub open spec fn spec_name(self) -> Seq<char> {
        match self {
            TransformationRejectionGuard::ApplicationError => "application_error"@,
            TransformationRejectionGuard::NoOutput => "no_output"@,
            TransformationRejectionGuard::OutputContract => "output_contract"@,
            TransformationRejectionGuard::PublicationError => "publication_error"@,
            TransformationRejectionGuard::BoundaryUnavailable => "boundary_unavailable"@,
            TransformationRejectionGuard::SelectiveShape => "selective_shape"@,
            TransformationRejectionGuard::SelectiveUnsafeOutput => "selective_unsafe_output"@,
            TransformationRejectionGuard::SelectiveMissingCardinality => "selective_missing_cardinality"@,
            TransformationRejectionGuard::SelectiveInvalidColumn => "selective_invalid_column"@,
            TransformationRejectionGuard::SelectiveNoBaseSource => "selective_no_base_source"@,
            TransformationRejectionGuard::SelectiveRowIdPath => "selective_row_id_path"@,
            TransformationRejectionGuard::SelectiveJoinLocality => "selective_join_locality"@,
            TransformationRejectionGuard::SelectiveMissingSourceRows => "selective_missing_source_rows"@,
            TransformationRejectionGuard::SelectiveNoReduction => "selective_no_reduction"@,
            TransformationRejectionGuard::SelectiveNoBenefit => "selective_no_benefit"@,
            TransformationRejectionGuard::AggregateShape => "aggregate_shape"@,
            TransformationRejectionGuard::AggregateZeroLimit => "aggregate_zero_limit"@,
            TransformationRejectionGuard::AggregateProjectionShape => "aggregate_projection_shape"@,
            TransformationRejectionGuard::AggregateUnsafeOutput => "aggregate_unsafe_output"@,
            TransformationRejectionGuard::AggregateOutputExpression => "aggregate_output_expression"@,
            TransformationRejectionGuard::AggregateInputShape => "aggregate_input_shape"@,
            TransformationRejectionGuard::AggregateGroupingDomain => "aggregate_grouping_domain"@,
            TransformationRejectionGuard::AggregateOutputBinding => "aggregate_output_binding"@,
            TransformationRejectionGuard::AggregateOrderBinding => "aggregate_order_binding"@,
            TransformationRejectionGuard::AggregateNoDependency => "aggregate_no_dependency"@,
            TransformationRejectionGuard::AggregateDependencyInvalid => "aggregate_dependency_invalid"@,
            TransformationRejectionGuard::AggregateDependentColumn => "aggregate_dependent_column"@,
            TransformationRejectionGuard::AggregateRowIdPath => "aggregate_row_id_path"@,
            TransformationRejectionGuard::AggregateSource => "aggregate_source"@,
            TransformationRejectionGuard::AggregateStorage => "aggregate_storage"@,
            TransformationRejectionGuard::AggregateMissingCardinality => "aggregate_missing_cardinality"@,
            TransformationRejectionGuard::AggregateNoBenefit => "aggregate_no_benefit"@,
            TransformationRejectionGuard::AggregateOrderUsesPayload => "aggregate_order_uses_payload"@,
            TransformationRejectionGuard::TopNShape => "top_n_shape"@,
            TransformationRejectionGuard::TopNZeroLimit => "top_n_zero_limit"@,
            TransformationRejectionGuard::TopNProjectionShape => "top_n_projection_shape"@,
            TransformationRejectionGuard::TopNUnsafeOutput => "top_n_unsafe_output"@,
            TransformationRejectionGuard::TopNOutputExpression => "top_n_output_expression"@,
            TransformationRejectionGuard::TopNOrderBinding => "top_n_order_binding"@,
            TransformationRejectionGuard::TopNProjectionMap => "top_n_projection_map"@,
            TransformationRejectionGuard::TopNSource => "top_n_source"@,
            TransformationRejectionGuard::TopNColumnType => "top_n_column_type"@,
            TransformationRejectionGuard::TopNMissingCardinality => "top_n_missing_cardinality"@,
            TransformationRejectionGuard::TopNRowIdPath => "top_n_row_id_path"@,
            TransformationRejectionGuard::TopNMissingSourceRows => "top_n_missing_source_rows"@,
            TransformationRejectionGuard::TopNNoBenefit => "top_n_no_benefit"@,
            TransformationRejectionGuard::TopNNoPayload => "top_n_no_payload"@,
            TransformationRejectionGuard::PrefixNoWitness => "prefix_no_witness"@,
        }
    }

    /// Stable name in diagnostics.
    pub fn name(self) -> (r: &'static str)
        ensures
            r@ == self.spec_name(),
    {
        match self {
            TransformationRejectionGuard::ApplicationError => "application_error",
            TransformationRejectionGuard::NoOutput => "no_output",
            TransformationRejectionGuard::OutputContract => "output_contract",
            TransformationRejectionGuard::PublicationError => "publication_error",
            TransformationRejectionGuard::BoundaryUnavailable => "boundary_unavailable",
            TransformationRejectionGuard::SelectiveShape => "selective_shape",
            TransformationRejectionGuard::SelectiveUnsafeOutput => "selective_unsafe_output",
            TransformationRejectionGuard::SelectiveMissingCardinality => "selective_missing_cardinality",
            TransformationRejectionGuard::SelectiveInvalidColumn => "selective_invalid_column",
            TransformationRejectionGuard::SelectiveNoBaseSource => "selective_no_base_source",
            TransformationRejectionGuard::SelectiveRowIdPath => "selective_row_id_path",
            TransformationRejectionGuard::SelectiveJoinLocality => "selective_join_locality",
            TransformationRejectionGuard::SelectiveMissingSourceRows => "selective_missing_source_rows",
            TransformationRejectionGuard::SelectiveNoReduction => "selective_no_reduction",
            TransformationRejectionGuard::SelectiveNoBenefit => "selective_no_benefit",
            TransformationRejectionGuard::AggregateShape => "aggregate_shape",
            TransformationRejectionGuard::AggregateZeroLimit => "aggregate_zero_limit",
            TransformationRejectionGuard::AggregateProjectionShape => "aggregate_projection_shape",
            TransformationRejectionGuard::AggregateUnsafeOutput => "aggregate_unsafe_output",
            TransformationRejectionGuard::AggregateOutputExpression => "aggregate_output_expression",
            TransformationRejectionGuard::AggregateInputShape => "aggregate_input_shape",
            TransformationRejectionGuard::AggregateGroupingDomain => "aggregate_grouping_domain",
            TransformationRejectionGuard::AggregateOutputBinding => "aggregate_output_binding",
            TransformationRejectionGuard::AggregateOrderBinding => "aggregate_order_binding",
            TransformationRejectionGuard::AggregateNoDependency => "aggregate_no_dependency",
            TransformationRejectionGuard::AggregateDependencyInvalid => "aggregate_dependency_invalid",
            TransformationRejectionGuard::AggregateDependentColumn => "aggregate_dependent_column",
            TransformationRejectionGuard::AggregateRowIdPath => "aggregate_row_id_path",
            TransformationRejectionGuard::AggregateSource => "aggregate_source",
            TransformationRejectionGuard::AggregateStorage => "aggregate_storage",
            TransformationRejectionGuard::AggregateMissingCardinality => "aggregate_missing_cardinality",
            TransformationRejectionGuard::AggregateNoBenefit => "aggregate_no_benefit",
            TransformationRejectionGuard::AggregateOrderUsesPayload => "aggregate_order_uses_payload",
            TransformationRejectionGuard::TopNShape => "top_n_shape",
            TransformationRejectionGuard::TopNZeroLimit => "top_n_zero_limit",
            TransformationRejectionGuard::TopNProjectionShape => "top_n_projection_shape",
            TransformationRejectionGuard::TopNUnsafeOutput => "top_n_unsafe_output",
            TransformationRejectionGuard::TopNOutputExpression => "top_n_output_expression",
            TransformationRejectionGuard::TopNOrderBinding => "top_n_order_binding",
            TransformationRejectionGuard::TopNProjectionMap => "top_n_projection_map",
            TransformationRejectionGuard::TopNSource => "top_n_source",
            TransformationRejectionGuard::TopNColumnType => "top_n_column_type",
            TransformationRejectionGuard::TopNMissingCardinality => "top_n_missing_cardinality",
            TransformationRejectionGuard::TopNRowIdPath => "top_n_row_id_path",
            TransformationRejectionGuard::TopNMissingSourceRows => "top_n_missing_source_rows",
            TransformationRejectionGuard::TopNNoBenefit => "top_n_no_benefit",
            TransformationRejectionGuard::TopNNoPayload => "top_n_no_payload",
            TransformationRejectionGuard::PrefixNoWitness => "prefix_no_witness",
        }
    }

    /// All guards in order.
    pub fn all() -> (r: [TransformationRejectionGuard; 48])
        ensures
            forall|i: int| 0 <= i < GUARDS ==> (#[trigger] r@[i]).spec_ordinal() == i,
    {
        [
            TransformationRejectionGuard::ApplicationError,
            TransformationRejectionGuard::NoOutput,
            TransformationRejectionGuard::OutputContract,
            TransformationRejectionGuard::PublicationError,
            TransformationRejectionGuard::BoundaryUnavailable,
            TransformationRejectionGuard::SelectiveShape,
            TransformationRejectionGuard::SelectiveUnsafeOutput,
            TransformationRejectionGuard::SelectiveMissingCardinality,
            TransformationRejectionGuard::SelectiveInvalidColumn,
            TransformationRejectionGuard::SelectiveNoBaseSource,
            TransformationRejectionGuard::SelectiveRowIdPath,
            TransformationRejectionGuard::SelectiveJoinLocality,
            TransformationRejectionGuard::SelectiveMissingSourceRows,
            TransformationRejectionGuard::SelectiveNoReduction,
            TransformationRejectionGuard::SelectiveNoBenefit,
            TransformationRejectionGuard::AggregateShape,
            TransformationRejectionGuard::AggregateZeroLimit,
            TransformationRejectionGuard::AggregateProjectionShape,
            TransformationRejectionGuard::AggregateUnsafeOutput,
            TransformationRejectionGuard::AggregateOutputExpression,
            TransformationRejectionGuard::AggregateInputShape,
            TransformationRejectionGuard::AggregateGroupingDomain,
            TransformationRejectionGuard::AggregateOutputBinding,
            TransformationRejectionGuard::AggregateOrderBinding,
            TransformationRejectionGuard::AggregateNoDependency,
            TransformationRejectionGuard::AggregateDependencyInvalid,
            TransformationRejectionGuard::AggregateDependentColumn,
            TransformationRejectionGuard::AggregateRowIdPath,
            TransformationRejectionGuard::AggregateSource,
            TransformationRejectionGuard::AggregateStorage,
            TransformationRejectionGuard::AggregateMissingCardinality,
            TransformationRejectionGuard::AggregateNoBenefit,
            TransformationRejectionGuard::AggregateOrderUsesPayload,
            TransformationRejectionGuard::TopNShape,
            TransformationRejectionGuard::TopNZeroLimit,
            TransformationRejectionGuard::TopNProjectionShape,
            TransformationRejectionGuard::TopNUnsafeOutput,
            TransformationRejectionGuard::TopNOutputExpression,
            TransformationRejectionGuard::TopNOrderBinding,
            TransformationRejectionGuard::TopNProjectionMap,
            TransformationRejectionGuard::TopNSource,
            TransformationRejectionGuard::TopNColumnType,
            TransformationRejectionGuard::TopNMissingCardinality,
            TransformationRejectionGuard::TopNRowIdPath,
            TransformationRejectionGuard::TopNMissingSourceRows,
            TransformationRejectionGuard::TopNNoBenefit,
            TransformationRejectionGuard::TopNNoPayload,
            TransformationRejectionGuard::PrefixNoWitness,
        ]
    }
}

/// Different guards have different positions.
pub proof fn ordinals_are_distinct(
    a: TransformationRejectionGuard,
    b: TransformationRejectionGuard,
)
    requires
        a.spec_ordinal() == b.spec_ordinal(),
    ensures
        a == b,
{
}

/// Length, first character and sixth character from the end of a name.
spec fn name_signature(guard: TransformationRejectionGuard) -> (nat, char, char) {
    match guard {
        TransformationRejectionGuard::ApplicationError => (17, 'a', '_'),
        TransformationRejectionGuard::NoOutput => (9, 'n', 'o'),
        TransformationRejectionGuard::OutputContract => (15, 'o', 'n'),
        TransformationRejectionGuard::PublicationError => (17, 'p', '_'),
        TransformationRejectionGuard::BoundaryUnavailable => (20, 'b', 'i'),
        TransformationRejectionGuard::SelectiveShape => (15, 's', '_'),
        TransformationRejectionGuard::SelectiveUnsafeOutput => (23, 's', 'o'),
        TransformationRejectionGuard::SelectiveMissingCardinality => (29, 's', 'n'),
        TransformationRejectionGuard::SelectiveInvalidColumn => (24, 's', 'c'),
        TransformationRejectionGuard::SelectiveNoBaseSource => (24, 's', 's'),
        TransformationRejectionGuard::SelectiveRowIdPath => (21, 's', 'd'),
        TransformationRejectionGuard::SelectiveJoinLocality => (23, 's', 'c'),
        TransformationRejectionGuard::SelectiveMissingSourceRows => (29, 's', 'e'),
        TransformationRejectionGuard::SelectiveNoReduction => (22, 's', 'u'),
        TransformationRejectionGuard::SelectiveNoBenefit => (20, 's', 'e'),
        TransformationRejectionGuard::AggregateShape => (15, 'a', '_'),
        TransformationRejectionGuard::AggregateZeroLimit => (20, 'a', '_'),
        TransformationRejectionGuard::AggregateProjectionShape => (26, 'a', '_'),
        TransformationRejectionGuard::AggregateUnsafeOutput => (23, 'a', 'o'),
        TransformationRejectionGuard::AggregateOutputExpression => (27, 'a', 'e'),
        TransformationRejectionGuard::AggregateInputShape => (21, 'a', '_'),
        TransformationRejectionGuard::AggregateGroupingDomain => (25, 'a', 'd'),
        TransformationRejectionGuard::AggregateOutputBinding => (24, 'a', 'i'),
        TransformationRejectionGuard::AggregateOrderBinding => (23, 'a', 'i'),
        TransformationRejectionGuard::AggregateNoDependency => (23, 'a', 'n'),
        TransformationRejectionGuard::AggregateDependencyInvalid => (28, 'a', 'n'),
        TransformationRejectionGuard::AggregateDependentColumn => (26, 'a', 'c'),
        TransformationRejectionGuard::AggregateRowIdPath => (21, 'a', 'd'),
        TransformationRejectionGuard::AggregateSource => (16, 'a', 's'),
        TransformationRejectionGuard::AggregateStorage => (17, 'a', 't'),
        TransformationRejectionGuard::AggregateMissingCardinality => (29, 'a', 'n'),
        TransformationRejectionGuard::AggregateNoBenefit => (20, 'a', 'e'),
        TransformationRejectionGuard::AggregateOrderUsesPayload => (28, 'a', 'a'),
        TransformationRejectionGuard::TopNShape => (11, 't', '_'),
        TransformationRejectionGuard::TopNZeroLimit => (16, 't', '_'),
        TransformationRejectionGuard::TopNProjectionShape => (22, 't', '_'),
        TransformationRejectionGuard::TopNUnsafeOutput => (19, 't', 'o'),
        TransformationRejectionGuard::TopNOutputExpression => (23, 't', 'e'),
        TransformationRejectionGuard::TopNOrderBinding => (19, 't', 'i'),
        TransformationRejectionGuard::TopNProjectionMap => (20, 't', 'o'),
        TransformationRejectionGuard::TopNSource => (12, 't', 's'),
        TransformationRejectionGuard::TopNColumnType => (17, 't', 'n'),
        TransformationRejectionGuard::TopNMissingCardinality => (25, 't', 'n'),
        TransformationRejectionGuard::TopNRowIdPath => (17, 't', 'd'),
        TransformationRejectionGuard::TopNMissingSourceRows => (25, 't', 'e'),
        TransformationRejectionGuard::TopNNoBenefit => (16, 't', 'e'),
        TransformationRejectionGuard::TopNNoPayload => (16, 't', 'a'),
        TransformationRejectionGuard::PrefixNoWitness => (17, 'p', 'i'),
    }
}

/// Whether the first `n` characters are lowercase letters or underscores.
pub open spec fn is_lowercase(name: Seq<char>, n: nat) -> bool
    decreases n,
{
    n == 0 || n <= name.len() && is_lowercase(name, (n - 1) as nat) && ('a' <= name[n - 1] <= 'z'
        || name[n - 1] == '_')
}

#[verifier::rlimit(60)]
proof fn lemma_name(guard: TransformationRejectionGuard)
    ensures
        guard.spec_name().len() == name_signature(guard).0,
        guard.spec_name().len() > 6,
        guard.spec_name()[0] == name_signature(guard).1,
        guard.spec_name()[guard.spec_name().len() - 6] == name_signature(guard).2,
        is_lowercase(guard.spec_name(), guard.spec_name().len()),
{
    reveal_with_fuel(is_lowercase, 30);
    match guard {
        TransformationRejectionGuard::ApplicationError => {
            reveal_strlit("application_error");
        },
        TransformationRejectionGuard::NoOutput => {
            reveal_strlit("no_output");
        },
        TransformationRejectionGuard::OutputContract => {
            reveal_strlit("output_contract");
        },
        TransformationRejectionGuard::PublicationError => {
            reveal_strlit("publication_error");
        },
        TransformationRejectionGuard::BoundaryUnavailable => {
            reveal_strlit("boundary_unavailable");
        },
        TransformationRejectionGuard::SelectiveShape => {
            reveal_strlit("selective_shape");
        },
        TransformationRejectionGuard::SelectiveUnsafeOutput => {
            reveal_strlit("selective_unsafe_output");
        },
        TransformationRejectionGuard::SelectiveMissingCardinality => {
            reveal_strlit("selective_missing_cardinality");
        },
        TransformationRejectionGuard::SelectiveInvalidColumn => {
            reveal_strlit("selective_invalid_column");
        },
        TransformationRejectionGuard::SelectiveNoBaseSource => {
            reveal_strlit("selective_no_base_source");
        },
        TransformationRejectionGuard::SelectiveRowIdPath => {
            reveal_strlit("selective_row_id_path");
        },
        TransformationRejectionGuard::SelectiveJoinLocality => {
            reveal_strlit("selective_join_locality");
        },
        TransformationRejectionGuard::SelectiveMissingSourceRows => {
            reveal_strlit("selective_missing_source_rows");
        },
        TransformationRejectionGuard::SelectiveNoReduction => {
            reveal_strlit("selective_no_reduction");
        },
        TransformationRejectionGuard::SelectiveNoBenefit => {
            reveal_strlit("selective_no_benefit");
        },
        TransformationRejectionGuard::AggregateShape => {
            reveal_strlit("aggregate_shape");
        },
        TransformationRejectionGuard::AggregateZeroLimit => {
            reveal_strlit("aggregate_zero_limit");
        },
        TransformationRejectionGuard::AggregateProjectionShape => {
            reveal_strlit("aggregate_projection_shape");
        },
        TransformationRejectionGuard::AggregateUnsafeOutput => {
            reveal_strlit("aggregate_unsafe_output");
        },
        TransformationRejectionGuard::AggregateOutputExpression => {
            reveal_strlit("aggregate_output_expression");
        },
        TransformationRejectionGuard::AggregateInputShape => {
            reveal_strlit("aggregate_input_shape");
        },
        TransformationRejectionGuard::AggregateGroupingDomain => {
            reveal_strlit("aggregate_grouping_domain");
        },
        TransformationRejectionGuard::AggregateOutputBinding => {
            reveal_strlit("aggregate_output_binding");
        },
        TransformationRejectionGuard::AggregateOrderBinding => {
            reveal_strlit("aggregate_order_binding");
        },
        TransformationRejectionGuard::AggregateNoDependency => {
            reveal_strlit("aggregate_no_dependency");
        },
        TransformationRejectionGuard::AggregateDependencyInvalid => {
            reveal_strlit("aggregate_dependency_invalid");
        },
        TransformationRejectionGuard::AggregateDependentColumn => {
            reveal_strlit("aggregate_dependent_column");
        },
        TransformationRejectionGuard::AggregateRowIdPath => {
            reveal_strlit("aggregate_row_id_path");
        },
        TransformationRejectionGuard::AggregateSource => {
            reveal_strlit("aggregate_source");
        },
        TransformationRejectionGuard::AggregateStorage => {
            reveal_strlit("aggregate_storage");
        },
        TransformationRejectionGuard::AggregateMissingCardinality => {
            reveal_strlit("aggregate_missing_cardinality");
        },
        TransformationRejectionGuard::AggregateNoBenefit => {
            reveal_strlit("aggregate_no_benefit");
        },
        TransformationRejectionGuard::AggregateOrderUsesPayload => {
            reveal_strlit("aggregate_order_uses_payload");
        },
        TransformationRejectionGuard::TopNShape => {
            reveal_strlit("top_n_shape");
        },
        TransformationRejectionGuard::TopNZeroLimit => {
            reveal_strlit("top_n_zero_limit");
        },
        TransformationRejectionGuard::TopNProjectionShape => {
            reveal_strlit("top_n_projection_shape");
        },
        TransformationRejectionGuard::TopNUnsafeOutput => {
            reveal_strlit("top_n_unsafe_output");
        },
        TransformationRejectionGuard::TopNOutputExpression => {
            reveal_strlit("top_n_output_expression");
        },
        TransformationRejectionGuard::TopNOrderBinding => {
            reveal_strlit("top_n_order_binding");
        },
        TransformationRejectionGuard::TopNProjectionMap => {
            reveal_strlit("top_n_projection_map");
        },
        TransformationRejectionGuard::TopNSource => {
            reveal_strlit("top_n_source");
        },
        TransformationRejectionGuard::TopNColumnType => {
            reveal_strlit("top_n_column_type");
        },
        TransformationRejectionGuard::TopNMissingCardinality => {
            reveal_strlit("top_n_missing_cardinality");
        },
        TransformationRejectionGuard::TopNRowIdPath => {
            reveal_strlit("top_n_row_id_path");
        },
        TransformationRejectionGuard::TopNMissingSourceRows => {
            reveal_strlit("top_n_missing_source_rows");
        },
        TransformationRejectionGuard::TopNNoBenefit => {
            reveal_strlit("top_n_no_benefit");
        },
        TransformationRejectionGuard::TopNNoPayload => {
            reveal_strlit("top_n_no_payload");
        },
        TransformationRejectionGuard::PrefixNoWitness => {
            reveal_strlit("prefix_no_witness");
        },
    }
}

/// Different guards have different names.
pub proof fn names_are_distinct(
    a: TransformationRejectionGuard,
    b: TransformationRejectionGuard,
)
    requires
        a.spec_name() == b.spec_name(),
    ensures
        a == b,
{
    lemma_name(a);
    lemma_name(b);
}

proof fn lemma_lowercase_at(name: Seq<char>, n: nat, i: int)
    requires
        is_lowercase(name, n),
        0 <= i < n,
    ensures
        'a' <= name[i] <= 'z' || name[i] == '_',
    decreases n,
{
    if i < n - 1 {
        lemma_lowercase_at(name, (n - 1) as nat, i);
    }
}

/// Every name is some lowercase letters and underscores.
pub proof fn names_are_lowercase(guard: TransformationRejectionGuard)
    ensures
        guard.spec_name().len() > 0,
        forall|i: int|
            0 <= i < guard.spec_name().len() ==> 'a' <= #[trigger] guard.spec_name()[i] <= 'z'
                || guard.spec_name()[i] == '_',
{
    lemma_name(guard);
    assert forall|i: int| 0 <= i < guard.spec_name().len() implies 'a' <= #[trigger] guard.spec_name()[i] <= 'z'
        || guard.spec_name()[i] == '_' by {
        lemma_lowercase_at(guard.spec_name(), guard.spec_name().len(), i);
    }
}

/// The guards that one binding failed, one bit for each.
#[derive(Clone, Copy, Debug, PartialEq, Eq, Structural)]
pub struct RejectionReasons {
    pub bits: u64,
}

/// Whether bit `k` is set.
pub open spec fn bit_is_set(bits: u64, k: usize) -> bool {
    (bits >> (k as u64)) & 1 == 1
}

/// The bits with that of a guard set.
pub open spec fn with_bit(bits: u64, guard: TransformationRejectionGuard) -> u64 {
    bits | (1u64 << (guard.spec_ordinal() as u64))
}

impl RejectionReasons {
    /// Whether a guard is among the reasons.
    pub open spec fn holds(self, guard: TransformationRejectionGuard) -> bool {
        bit_is_set(self.bits, guard.spec_ordinal())
    }

    /// Adds a guard; a guard that is there already changes nothing.
    pub fn record(&mut self, guard: TransformationRejectionGuard)
        ensures
            final(self).bits == with_bit(old(self).bits, guard),
            forall|other: TransformationRejectionGuard| #[trigger]
                final(self).holds(other) <==> (old(self).holds(other) || other == guard),
    {
        let before: u64 = self.bits;
        let k: u64 = guard.ordinal() as u64;
        self.bits = before | (1u64 << k);
        let after: u64 = self.bits;
        assert forall|other: TransformationRejectionGuard| #[trigger] self.holds(other) <==> (old(
            self,
        ).holds(other) || other == guard) by {
            let m = other.spec_ordinal() as u64;
            assert(k < 48 && m < 48 && after == before | (1u64 << k) ==> (((after >> m) & 1 == 1)
                <==> ((before >> m) & 1 == 1 || m == k))) by (bit_vector);
            if m == k {
                ordinals_are_distinct(other, guard);
            }
        }
    }

    /// Whether a guard is among the reasons.
    pub fn has(&self, guard: TransformationRejectionGuard) -> (r: bool)
        ensures
            r == self.holds(guard),
    {
        let k: u64 = guard.ordinal() as u64;
        (self.bits >> k) & 1 == 1
    }
}

impl Default for RejectionReasons {
    /// No reasons.
    fn default() -> (r: RejectionReasons)
        ensures
            r.bits == 0,
            forall|guard: TransformationRejectionGuard| !#[trigger] r.holds(guard),
    {
        let r = RejectionReasons { bits: 0 };
        assert forall|guard: TransformationRejectionGuard| !#[trigger] r.holds(guard) by {
            let k = guard.spec_ordinal() as u64;
            assert(k < 48 ==> (0u64 >> k) & 1 == 0) by (bit_vector);
        }
        r
    }
}

/// Rejects a binding: records the guard where reasons are kept, and gives
/// nothing.
pub fn reject<T>(reasons: &mut Option<RejectionReasons>, guard: TransformationRejectionGuard) -> (r:
    Option<T>)
    ensures
        r is None,
        match *old(reasons) {
            Some(before) => *final(reasons) matches Some(after) && after.bits == with_bit(
                before.bits,
                guard,
            ) && forall|other: TransformationRejectionGuard| #[trigger]
                after.holds(other) <==> (before.holds(other) || other == guard),
            None => *final(reasons) is None,
        },
{
    match *reasons {
        Some(before) => {
            let mut after = before;
            after.record(guard);
            *reasons = Some(after);
        },
        None => {},
    }
    None
}

/// Rejected bindings by guard.
#[derive(Clone, Debug)]
pub struct TransformationRejectionCounts(pub [u64; 48]);

impl Default for TransformationRejectionCounts {
    /// Nothing rejected.
    fn default() -> (r: TransformationRejectionCounts)
        ensures
            forall|guard: TransformationRejectionGuard| #[trigger] r.count(guard) == 0,
    {
        TransformationRejectionCounts([0; 48])
    }
}

impl TransformationRejectionCounts {
    /// Bindings that a guard rejected.
    pub open spec fn count(self, guard: TransformationRejectionGuard) -> u64 {
        self.0@[guard.spec_ordinal() as int]
    }

    /// Counts one binding for each of its reasons.
    pub fn record(&mut self, reasons: RejectionReasons)
        ensures
            forall|guard: TransformationRejectionGuard| #[trigger]
                final(self).count(guard) == if reasons.holds(guard) {
                    capped(old(self).count(guard) + 1)
                } else {
                    old(self).count(guard)
                },
    {
        let all = TransformationRejectionGuard::all();
        let mut i: usize = 0;
        while i < GUARDS
            invariant
                i <= GUARDS,
                forall|k: int| 0 <= k < GUARDS ==> (#[trigger] all@[k]).spec_ordinal() == k,
                forall|k: int|
                    0 <= k < GUARDS ==> #[trigger] self.0@[k] == if k < i && reasons.holds(
                        all@[k],
                    ) {
                        capped(old(self).0@[k] + 1)
                    } else {
                        old(self).0@[k]
                    },
            decreases GUARDS - i,
        {
            assert(all@[i as int].spec_ordinal() == i);
            if reasons.has(all[i]) {
                let count: u64 = self.0[i];
                self.0[i] = saturating_add_u64(count, 1);
            }
            i = i + 1;
        }
        assert forall|guard: TransformationRejectionGuard| #[trigger] self.count(guard)
            == if reasons.holds(guard) {
            capped(old(self).count(guard) + 1)
        } else {
            old(self).count(guard)
        } by {
            let k = guard.spec_ordinal() as int;
            ordinals_are_distinct(all@[k], guard);
        }
    }

    /// Every guard with its count, in order.
    pub fn iter(&self) -> (r: Vec<(TransformationRejectionGuard, u64)>)
        ensures
            r@.len() == GUARDS,
            forall|i: int|
                0 <= i < GUARDS ==> (#[trigger] r@[i]).0.spec_ordinal() == i && r@[i].1
                    == self.count(r@[i].0),
    {
        let all = TransformationRejectionGuard::all();
        let mut r: Vec<(TransformationRejectionGuard, u64)> = Vec::new();
        let mut i: usize = 0;
        while i < GUARDS
            invariant
                i <= GUARDS,
                r@.len() == i,
                forall|k: int| 0 <= k < GUARDS ==> (#[trigger] all@[k]).spec_ordinal() == k,
                forall|k: int|
                    0 <= k < i ==> (#[trigger] r@[k]).0.spec_ordinal() == k && r@[k].1
                        == self.count(r@[k].0),
            decreases GUARDS - i,
        {
            assert(all@[i as int].spec_ordinal() == i);
            r.push((all[i], self.0[i]));
            i = i + 1;
        }
        r
    }
}

} // verus!
