//! Work of a join, in bytes moved. Products of rows and widths are left to the
//! caller, and so is the choice of the build side between two candidates.

use vstd::prelude::*;

use crate::cost::join_conditions::{add_widths, width_sum, JoinConditionProfile};
use crate::cost::number::Number;
use crate::cost::region::{
    cursor_bytes, estimate_hash_probe_row_width, hash_match_row_bytes, match_row_bytes,
    nested_loop_cursor_bytes, probe_runtime_bytes, JoinBuildSide, CROSS_PRODUCT_SELECTION_BYTES,
};

verus! {

/// Bytes of one row.
#[derive(Clone, Copy, Debug, PartialEq, Eq, Structural)]
pub enum RowWidth {
    Bytes(usize),
    /// A materialized row with the given payload.
    Row { payload: usize },
    /// A row of a hash table with its payload and key values.
    HashBuild { payload: usize, condition: usize },
    /// The payload alone.
    Payload(usize),
}

/// Rows and widths that a calibrated price for a whole region takes.
#[derive(Clone, Copy, Debug, PartialEq, Eq, Structural)]
pub struct HashJoinWork {
    pub build_rows: Number,
    pub probe_rows: Number,
    pub output_rows: Number,
    pub build_width: usize,
    pub probe_width: usize,
    pub output_width: usize,
    pub key_width: usize,
}

/// An amount of work.
#[derive(Clone, Copy, Debug, PartialEq, Eq, Structural)]
pub enum JoinWork {
    Nothing,
    /// Rows times their width.
    Rows { rows: Number, width: RowWidth },
    /// Rows times their width, and one cache line for each row.
    HashBuildRows { rows: Number, payload: usize, condition: usize },
    /// All pairs of rows times the bytes of a pair.
    Pairs { left: Number, right: Number, pair_bytes: usize },
    /// The calibrated price of a hash join.
    Priced(HashJoinWork),
    /// The calibrated price of a join without a hash table.
    PricedPairs { work: HashJoinWork, has_conditions: bool },
}

/// One input of a join.
#[derive(Clone, Copy, Debug, PartialEq, Eq, Structural)]
pub struct JoinSide {
    pub cardinality: Number,
    pub risk_rows: Number,
    pub materialization_rows: Number,
    pub output_payload_width: usize,
    pub contains_control_region: bool,
    pub cost: Number,
}

#[derive(Clone, Copy, Debug, PartialEq, Eq, Structural)]
pub struct JoinCostInputs {
    pub left: JoinSide,
    pub right: JoinSide,
    pub conditions: JoinConditionProfile,
    pub filtering_side: Option<JoinBuildSide>,
    pub join_rows: Number,
    pub output_payload_width: usize,
    /// Whether calibrated prices for a whole region are there.
    pub priced: bool,
}

/// An input as a build side.
#[derive(Clone, Copy, Debug, PartialEq, Eq, Structural)]
pub struct JoinBuildCandidate {
    pub serialized_work: JoinWork,
    pub contains_control_region: bool,
}

/// Work of a join by its parts. The last is the cost of both inputs.
#[derive(Clone, Copy, Debug, PartialEq, Eq, Structural)]
pub struct JoinCostBreakdown {
    pub build: JoinWork,
    pub probe: JoinWork,
    pub match_output: JoinWork,
    pub left_cost: Number,
    pub right_cost: Number,
}

impl JoinCostInputs {
    pub open spec fn side(self, side: JoinBuildSide) -> JoinSide {
        match side {
            JoinBuildSide::Left => self.left,
            JoinBuildSide::Right => self.right,
        }
    }

    pub open spec fn opposite(self, side: JoinBuildSide) -> JoinSide {
        match side {
            JoinBuildSide::Left => self.right,
            JoinBuildSide::Right => self.left,
        }
    }

    /// Bytes of the condition values on a side.
    pub open spec fn condition_width(self, side: JoinBuildSide) -> usize {
        match side {
            JoinBuildSide::Left => self.conditions.left_payload_width,
            JoinBuildSide::Right => self.conditions.right_payload_width,
        }
    }

    pub open spec fn condition_width_opposite(self, side: JoinBuildSide) -> usize {
        match side {
            JoinBuildSide::Left => self.conditions.right_payload_width,
            JoinBuildSide::Right => self.conditions.left_payload_width,
        }
    }

    /// What a hash join costs that builds on the given side.
    pub open spec fn hash_work(self, side: JoinBuildSide) -> HashJoinWork {
        HashJoinWork {
            build_rows: self.side(side).cardinality,
            probe_rows: self.opposite(side).cardinality,
            output_rows: self.join_rows,
            build_width: self.side(side).output_payload_width,
            probe_width: self.opposite(side).output_payload_width,
            output_width: self.output_payload_width,
            key_width: self.conditions.hash_key_width,
        }
    }

    /// An input as a build side. With calibrated prices the whole join is
    /// compared; otherwise only what has to be serialized, and a control region
    /// counts only where it filters.
    pub open spec fn candidate(self, side: JoinBuildSide) -> JoinBuildCandidate {
        let input = self.side(side);
        if self.priced {
            JoinBuildCandidate {
                serialized_work: if self.conditions.has_hash_key {
                    JoinWork::Priced(self.hash_work(side))
                } else {
                    JoinWork::Rows {
                        rows: input.cardinality,
                        width: RowWidth::Payload(input.output_payload_width),
                    }
                },
                contains_control_region: input.contains_control_region,
            }
        } else {
            JoinBuildCandidate {
                serialized_work: JoinWork::Rows {
                    rows: input.materialization_rows,
                    width: if self.conditions.has_hash_key {
                        RowWidth::HashBuild {
                            payload: input.output_payload_width,
                            condition: self.condition_width(side),
                        }
                    } else {
                        RowWidth::Row { payload: input.output_payload_width }
                    },
                },
                contains_control_region: self.filtering_side == Some(side)
                    && input.contains_control_region,
            }
        }
    }

    /// The work of the join when the given side is built.
    pub open spec fn breakdown(self, side: JoinBuildSide) -> JoinCostBreakdown {
        let build_side = self.side(side);
        let (build, probe, match_output) = if self.priced {
            (
                if self.conditions.has_hash_key {
                    JoinWork::Priced(self.hash_work(side))
                } else {
                    JoinWork::PricedPairs {
                        work: HashJoinWork { key_width: 0, ..self.hash_work(JoinBuildSide::Right) },
                        has_conditions: self.conditions.has_join_conditions,
                    }
                },
                JoinWork::Nothing,
                JoinWork::Nothing,
            )
        } else if !self.conditions.has_hash_key {
            let build = JoinWork::Rows {
                rows: build_side.risk_rows,
                width: RowWidth::Row { payload: build_side.output_payload_width },
            };
            if !self.conditions.has_join_conditions {
                (
                    build,
                    JoinWork::Pairs {
                        left: self.left.risk_rows,
                        right: self.right.risk_rows,
                        pair_bytes: CROSS_PRODUCT_SELECTION_BYTES,
                    },
                    JoinWork::Nothing,
                )
            } else {
                (
                    build,
                    JoinWork::Pairs {
                        left: self.left.risk_rows,
                        right: self.right.risk_rows,
                        pair_bytes: width_sum(
                            width_sum(
                                self.conditions.left_payload_width,
                                self.conditions.right_payload_width,
                            ),
                            cursor_bytes() as usize,
                        ),
                    },
                    JoinWork::Rows {
                        rows: self.join_rows,
                        width: RowWidth::Row { payload: self.output_payload_width },
                    },
                )
            }
        } else {
            (
                JoinWork::HashBuildRows {
                    rows: build_side.risk_rows,
                    payload: build_side.output_payload_width,
                    condition: self.condition_width(side),
                },
                JoinWork::Rows {
                    rows: self.opposite(side).risk_rows,
                    width: RowWidth::Bytes(
                        width_sum(self.condition_width_opposite(side), probe_runtime_bytes() as usize),
                    ),
                },
                JoinWork::Rows {
                    rows: self.join_rows,
                    width: RowWidth::Bytes(match_row_bytes() as usize),
                },
            )
        };
        JoinCostBreakdown {
            build,
            probe,
            match_output,
            left_cost: self.left.cost,
            right_cost: self.right.cost,
        }
    }
}

fn priced_hash_work(inputs: &JoinCostInputs, side: JoinBuildSide) -> (r: HashJoinWork)
    ensures
        r == inputs.hash_work(side),
{
    let (build, probe) = match side {
        JoinBuildSide::Left => (inputs.left, inputs.right),
        JoinBuildSide::Right => (inputs.right, inputs.left),
    };
    HashJoinWork {
        build_rows: build.cardinality,
        probe_rows: probe.cardinality,
        output_rows: inputs.join_rows,
        build_width: build.output_payload_width,
        probe_width: probe.output_payload_width,
        output_width: inputs.output_payload_width,
        key_width: inputs.conditions.hash_key_width,
    }
}

/// An input as a build side, for the choice between the two.
pub fn build_candidate(inputs: &JoinCostInputs, side: JoinBuildSide) -> (r: JoinBuildCandidate)
    ensures
        r == inputs.candidate(side),
{
    let (input, condition) = match side {
        JoinBuildSide::Left => (inputs.left, inputs.conditions.left_payload_width),
        JoinBuildSide::Right => (inputs.right, inputs.conditions.right_payload_width),
    };
    if inputs.priced {
        let serialized_work = if inputs.conditions.has_hash_key {
            JoinWork::Priced(priced_hash_work(inputs, side))
        } else {
            JoinWork::Rows {
                rows: input.cardinality,
                width: RowWidth::Payload(input.output_payload_width),
            }
        };
        return JoinBuildCandidate {
            serialized_work,
            contains_control_region: input.contains_control_region,
        };
    }
    let width = if inputs.conditions.has_hash_key {
        RowWidth::HashBuild { payload: input.output_payload_width, condition }
    } else {
        RowWidth::Row { payload: input.output_payload_width }
    };
    let filters = match inputs.filtering_side {
        Some(filtering) => filtering == side,
        None => false,
    };
    JoinBuildCandidate {
        serialized_work: JoinWork::Rows { rows: input.materialization_rows, width },
        contains_control_region: filters && input.contains_control_region,
    }
}

/// The work of a join, given the side that it builds. Fused probes are not
/// charged as materialized rows; a subtree's payload is charged where it
/// becomes a build input.
pub fn cost_breakdown_for_cardinality(inputs: &JoinCostInputs, build_side: JoinBuildSide) -> (r:
    JoinCostBreakdown)
    ensures
        r == inputs.breakdown(build_side),
{
    let left_cost = inputs.left.cost;
    let right_cost = inputs.right.cost;
    let (build, probe, build_condition, probe_condition) = match build_side {
        JoinBuildSide::Left => (
            inputs.left,
            inputs.right,
            inputs.conditions.left_payload_width,
            inputs.conditions.right_payload_width,
        ),
        JoinBuildSide::Right => (
            inputs.right,
            inputs.left,
            inputs.conditions.right_payload_width,
            inputs.conditions.left_payload_width,
        ),
    };
    if inputs.priced {
        let work = if inputs.conditions.has_hash_key {
            JoinWork::Priced(priced_hash_work(inputs, build_side))
        } else {
            JoinWork::PricedPairs {
                work: HashJoinWork {
                    key_width: 0,
                    ..priced_hash_work(inputs, JoinBuildSide::Right)
                },
                has_conditions: inputs.conditions.has_join_conditions,
            }
        };
        return JoinCostBreakdown {
            build: work,
            probe: JoinWork::Nothing,
            match_output: JoinWork::Nothing,
            left_cost,
            right_cost,
        };
    }
    if !inputs.conditions.has_hash_key {
        let built = JoinWork::Rows {
            rows: build.risk_rows,
            width: RowWidth::Row { payload: build.output_payload_width },
        };
        if !inputs.conditions.has_join_conditions {
            return JoinCostBreakdown {
                build: built,
                probe: JoinWork::Pairs {
                    left: inputs.left.risk_rows,
                    right: inputs.right.risk_rows,
                    pair_bytes: CROSS_PRODUCT_SELECTION_BYTES,
                },
                match_output: JoinWork::Nothing,
                left_cost,
                right_cost,
            };
        }
        let pair_bytes: usize = add_widths(
            add_widths(
                inputs.conditions.left_payload_width,
                inputs.conditions.right_payload_width,
            ),
            nested_loop_cursor_bytes(),
        );
        return JoinCostBreakdown {
            build: built,
            probe: JoinWork::Pairs {
                left: inputs.left.risk_rows,
                right: inputs.right.risk_rows,
                pair_bytes,
            },
            match_output: JoinWork::Rows {
                rows: inputs.join_rows,
                width: RowWidth::Row { payload: inputs.output_payload_width },
            },
            left_cost,
            right_cost,
        };
    }
    JoinCostBreakdown {
        build: JoinWork::HashBuildRows {
            rows: build.risk_rows,
            payload: build.output_payload_width,
            condition: build_condition,
        },
        probe: JoinWork::Rows {
            rows: probe.risk_rows,
            width: RowWidth::Bytes(estimate_hash_probe_row_width(probe_condition)),
        },
        match_output: JoinWork::Rows {
            rows: inputs.join_rows,
            width: RowWidth::Bytes(hash_match_row_bytes()),
        },
        left_cost,
        right_cost,
    }
}

/// Rows that may have to be materialized decide which side is built, but not
/// what the join costs once that is decided.
pub proof fn materialization_risk_is_not_priced(
    inputs: JoinCostInputs,
    left_rows: Number,
    right_rows: Number,
    build_side: JoinBuildSide,
)
    ensures
        inputs.breakdown(build_side) == (JoinCostInputs {
            left: JoinSide { materialization_rows: left_rows, ..inputs.left },
            right: JoinSide { materialization_rows: right_rows, ..inputs.right },
            ..inputs
        }).breakdown(build_side),
{
}

/// The same join with its inputs exchanged.
pub open spec fn exchanged_inputs(inputs: JoinCostInputs) -> JoinCostInputs {
    JoinCostInputs {
        left: inputs.right,
        right: inputs.left,
        conditions: JoinConditionProfile {
            left_payload_width: inputs.conditions.right_payload_width,
            right_payload_width: inputs.conditions.left_payload_width,
            ..inputs.conditions
        },
        filtering_side: match inputs.filtering_side {
            Some(JoinBuildSide::Left) => Some(JoinBuildSide::Right),
            Some(JoinBuildSide::Right) => Some(JoinBuildSide::Left),
            None => None,
        },
        ..inputs
    }
}

/// Building on the left costs what building on the right costs with the inputs
/// exchanged.
pub proof fn exchanging_inputs_exchanges_the_work(inputs: JoinCostInputs)
    ensures
        inputs.hash_work(JoinBuildSide::Left) == exchanged_inputs(inputs).hash_work(
            JoinBuildSide::Right,
        ),
        inputs.candidate(JoinBuildSide::Left) == exchanged_inputs(inputs).candidate(
            JoinBuildSide::Right,
        ),
        inputs.candidate(JoinBuildSide::Right) == exchanged_inputs(inputs).candidate(
            JoinBuildSide::Left,
        ),
        !inputs.priced || inputs.conditions.has_hash_key ==> {
            let here = inputs.breakdown(JoinBuildSide::Left);
            let there = exchanged_inputs(inputs).breakdown(JoinBuildSide::Right);
            &&& here.build == there.build
            &&& here.match_output == there.match_output
            &&& here.left_cost == there.right_cost && here.right_cost == there.left_cost
            &&& inputs.conditions.has_hash_key ==> here.probe == there.probe
        },
{
}

/// A hash join builds the rows of the side that it builds on and probes with those
/// of the other one.
pub proof fn built_side_is_built(inputs: JoinCostInputs)
    ensures
        ({
            let work = inputs.hash_work(JoinBuildSide::Left);
            &&& work.build_rows == inputs.left.cardinality
            &&& work.build_width == inputs.left.output_payload_width
            &&& work.probe_rows == inputs.right.cardinality
            &&& work.probe_width == inputs.right.output_payload_width
        }),
        ({
            let work = inputs.hash_work(JoinBuildSide::Right);
            &&& work.build_rows == inputs.right.cardinality
            &&& work.build_width == inputs.right.output_payload_width
            &&& work.probe_rows == inputs.left.cardinality
            &&& work.probe_width == inputs.left.output_payload_width
        }),
        !inputs.priced && inputs.conditions.has_hash_key ==> {
            &&& inputs.breakdown(JoinBuildSide::Left).build == (JoinWork::HashBuildRows {
                rows: inputs.left.risk_rows,
                payload: inputs.left.output_payload_width,
                condition: inputs.conditions.left_payload_width,
            })
            &&& inputs.breakdown(JoinBuildSide::Left).probe matches JoinWork::Rows { rows, .. }
                && rows == inputs.right.risk_rows
            &&& inputs.breakdown(JoinBuildSide::Left).match_output matches JoinWork::Rows {
                rows,
                ..
            } && rows == inputs.join_rows
        },
{
}

/// A join without conditions has no matches to put out, and one without a hash
/// table compares all pairs of rows.
pub proof fn pairs_are_compared_without_a_hash_table(inputs: JoinCostInputs, side: JoinBuildSide)
    requires
        !inputs.priced,
        !inputs.conditions.has_hash_key,
    ensures
        inputs.breakdown(side).probe matches JoinWork::Pairs { left, right, .. } && left
            == inputs.left.risk_rows && right == inputs.right.risk_rows,
        inputs.breakdown(side).match_output is Nothing <==> !inputs.conditions.has_join_conditions,
{
}

} // verus!
