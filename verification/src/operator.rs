//! Logical operators. An operator holds what it does, not its inputs: a plan
//! node pairs it with its input plans in order.

use vstd::prelude::*;

use crate::expression::{Expression, ExpressionView};
use crate::types::{
    CTEMaterialize, ColumnBinding, JoinBuildSideConstraint, JoinComparisonType, JoinType,
    LogicalType, SetOpType,
};

pub mod substitution;

verus! {

/// Columns of an input that an operator passes on, in output order.
#[derive(Debug)]
pub enum ProjectionMap {
    All,
    Columns(Vec<usize>),
}

/// Identity of a column of a shared definition, independent of readers.
#[derive(Clone, Copy, Debug, PartialEq, Eq, Structural)]
pub struct CteColumnId(pub usize);

/// Column of a shared definition and the binding that produces it.
#[derive(Clone, Copy, Debug, PartialEq, Eq, Structural)]
pub struct CteOutputColumn {
    pub definition: CteColumnId,
    pub binding: ColumnBinding,
}

/// One column that an operator puts out.
#[derive(Clone, Copy, Debug, PartialEq, Eq, Structural)]
pub struct OutputColumn {
    pub binding: ColumnBinding,
    pub logical_type: LogicalType,
}

/// Placeholder for a plan that is kept elsewhere. What is known of that plan
/// stands in the statistics of the placeholder's own node.
#[derive(Debug)]
pub struct SubplanRef {
    pub columns: Vec<OutputColumn>,
}

#[derive(Debug)]
pub struct JoinCondition {
    pub left: Expression,
    pub right: Expression,
    pub comparison: JoinComparisonType,
}

impl JoinCondition {
    /// Whether a condition is true of a pair of rows, given what each operand
    /// comes to there.
    pub open spec fn is_true_in(self, value: spec_fn(ExpressionView) -> Option<int>) -> bool {
        self.comparison.is_true_of(value(self.left@), value(self.right@))
    }
}

/// Stored table scan.
#[derive(Debug)]
pub struct Get {
    pub table_index: usize,
    pub returned_types: Vec<LogicalType>,
    /// Whether the scan reads a catalog table.
    pub has_table: bool,
    /// Whether that table has storage behind it.
    pub has_storage: bool,
    /// Rows that the storage reports, where it has a count.
    pub storage_rows: Option<usize>,
    /// Stored column behind each output, where there is one.
    pub stored_columns: Vec<Option<usize>>,
    pub runtime_filter_expressions: Vec<Expression>,
}

/// Literal rows.
#[derive(Debug)]
pub struct ExpressionGet {
    pub table_index: usize,
    pub rows: Vec<Vec<Expression>>,
    pub types: Vec<LogicalType>,
}

/// Scan of the distinct outer keys of a dependent join.
#[derive(Debug)]
pub struct DelimGet {
    pub table_index: usize,
    pub chunk_types: Vec<LogicalType>,
}

#[derive(Debug)]
pub struct TableFunctionGet {
    pub table_index: usize,
    pub returned_types: Vec<LogicalType>,
}

#[derive(Debug)]
pub struct Projection {
    pub table_index: usize,
    pub expressions: Vec<Expression>,
}

/// Appends externally computed columns to its input.
#[derive(Debug)]
pub struct ExternalProject {
    pub table_index: usize,
    pub expressions: Vec<Expression>,
}

/// Table routine, invoked once per input row.
#[derive(Debug)]
pub struct ExternalTable {
    pub table_index: usize,
    pub returned_types: Vec<LogicalType>,
    /// Rows per invocation that the routine declares.
    pub rows_hint: Option<u64>,
}

#[derive(Debug)]
pub struct Filter {
    pub expressions: Vec<Expression>,
    pub projection_map: ProjectionMap,
}

#[derive(Debug)]
pub struct Limit {
    pub limit: Option<Expression>,
    pub offset: Option<Expression>,
}

#[derive(Clone, Copy, Debug, PartialEq, Eq, Structural)]
pub struct TopN {
    pub limit: usize,
    pub offset: usize,
}

#[derive(Debug)]
pub struct Window {
    pub window_index: usize,
    pub types: Vec<LogicalType>,
}

#[derive(Debug)]
pub struct Aggregate {
    pub group_index: usize,
    pub aggregate_index: usize,
    pub groupings_index: usize,
    pub groups: Vec<Expression>,
    /// Group ordinals of each explicit grouping set.
    pub grouping_sets: Vec<Vec<usize>>,
    pub aggregates: Vec<Expression>,
    /// Number of GROUPING(..) outputs.
    pub grouping_functions: usize,
    /// Predicate that the aggregation applies to its own result.
    pub post_reduction: Option<Expression>,
}

#[derive(Debug)]
pub struct ComparisonJoin {
    pub join_type: JoinType,
    pub conditions: Vec<JoinCondition>,
    pub left_projection_map: ProjectionMap,
    pub right_projection_map: ProjectionMap,
    pub duplicate_eliminated_columns: Vec<Expression>,
    /// Relation of the marker column, where the join type has one.
    pub mark_index: usize,
    pub build_side_constraint: JoinBuildSideConstraint,
}

#[derive(Debug)]
pub struct AnyJoin {
    pub join_type: JoinType,
    pub condition: Expression,
    pub mark_index: usize,
    pub left_projection_map: ProjectionMap,
    pub right_projection_map: ProjectionMap,
    pub build_side_constraint: JoinBuildSideConstraint,
}

#[derive(Clone, Copy, Debug, PartialEq, Eq, Structural)]
pub struct CrossProduct {
    pub build_side_constraint: JoinBuildSideConstraint,
}

#[derive(Debug)]
pub enum Join {
    Comparison(ComparisonJoin),
    Any(AnyJoin),
    Cross(CrossProduct),
}

#[derive(Clone, Copy, Debug, PartialEq, Eq, Structural)]
pub enum DependentJoinKind {
    Scalar,
    Mark,
    Lateral { join_type: JoinType },
}

#[derive(Debug)]
pub struct SetOperation {
    pub table_index: usize,
    pub setop_type: SetOpType,
    pub setop_all: bool,
    pub types: Vec<LogicalType>,
}

/// Owner of a shared definition: the first input defines it, the second
/// reads it.
#[derive(Debug)]
pub struct MaterializedCTE {
    pub cte_index: usize,
    pub cte_name: String,
    pub column_types: Vec<LogicalType>,
    pub materialized: CTEMaterialize,
    pub output_columns: Vec<CteOutputColumn>,
    pub ref_count: usize,
}

/// Fixpoint: the first input is the anchor, the second the recursive member.
#[derive(Debug)]
pub struct RecursiveCTE {
    pub cte_index: usize,
    pub cte_name: String,
    pub column_types: Vec<LogicalType>,
    pub union_all: bool,
}

#[derive(Debug)]
pub struct CTERef {
    pub cte_index: usize,
    pub table_index: usize,
    pub definition_columns: Vec<CteColumnId>,
    pub column_types: Vec<LogicalType>,
}

#[derive(Debug)]
pub struct SearchScan {
    pub get: Get,
    pub table_index: usize,
    pub absorbed_predicates: Vec<Expression>,
    pub residual_predicates: Vec<Expression>,
    pub projections: Vec<Expression>,
    pub limit: usize,
}

#[derive(Debug)]
pub struct FullTextFilterScan {
    pub get: Get,
    pub match_expression: Expression,
    pub other_predicates: Vec<Expression>,
    pub residual_predicates: Vec<Expression>,
    pub projection_map: ProjectionMap,
}

/// Repetition of one path step.
#[derive(Clone, Copy, Debug, PartialEq, Eq, Structural)]
pub enum PathQuantifier {
    Plus,
    Star,
    Bounded { lower: u64, upper: Option<u64> },
}

#[derive(Clone, Copy, Debug, PartialEq, Eq, Structural)]
pub enum ExpandDirection {
    Forward,
    Backward,
    Both,
}

#[derive(Debug)]
pub struct GraphScan {
    pub table_index: usize,
    pub graph_name: String,
    pub label: String,
    pub filter: Option<Expression>,
    pub types: Vec<LogicalType>,
}

#[derive(Debug)]
pub struct GraphExpand {
    pub table_index: usize,
    pub source_label: String,
    pub edge_label: String,
    pub target_label: String,
    pub direction: ExpandDirection,
    pub quantifier: Option<PathQuantifier>,
    pub types: Vec<LogicalType>,
}

/// Statements that move or define data; none of them feeds another operator.
#[derive(Clone, Copy, Debug, PartialEq, Eq, Structural)]
pub enum Statement {
    Insert,
    Delete,
    Update,
    CopyTo,
    Alter,
    CreateTable,
    CreateRoutine,
    CreateSequence,
    CreateSchema,
    CreateIndex,
    CreateView,
    CreatePropertyGraph,
    DropPropertyGraph,
    RefreshPropertyGraph,
    Drop,
}

#[derive(Debug)]
pub enum LogicalOperator {
    /// One row without columns.
    DummyScan,
    SubplanRef(SubplanRef),
    Get(Get),
    ExpressionGet(ExpressionGet),
    DelimGet(DelimGet),
    TableFunctionGet(TableFunctionGet),
    Projection(Projection),
    RowFetch,
    ExternalProject(ExternalProject),
    ExternalTable(ExternalTable),
    Order,
    Window(Window),
    Distinct,
    Filter(Filter),
    Limit(Limit),
    TopN(TopN),
    Aggregate(Aggregate),
    Join(Join),
    DependentJoin(DependentJoinKind),
    SetOperation(SetOperation),
    EmptyResult,
    MaterializedCTE(MaterializedCTE),
    RecursiveCTE(RecursiveCTE),
    CTERef(CTERef),
    SearchScan(SearchScan),
    FullTextFilterScan(FullTextFilterScan),
    GraphMatch,
    GraphScan(GraphScan),
    GraphExpand(GraphExpand),
    Explain,
    Statement(Statement),
}

} // verus!
