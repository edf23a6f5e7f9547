//! Operator work by class, and what a unit of each class costs.

use std::collections::BTreeMap;
use vstd::prelude::*;

use crate::cost::number::Number;

verus! {

/// A class of operator work.
#[derive(Clone, Copy, Debug, PartialEq, Eq, Structural)]
pub struct OpClassId(pub u32);

/// Most classes that one operator's work has.
pub const MAX_LOCAL_OP_CLASSES: usize = 16;

/// Classes of the property-enforcement model. They stand among the calibrated
/// classes, so that a published bundle can replace their coefficients.
pub const OP_ENFORCER_STREAM_ROW: u32 = 20_001;

pub const OP_ENFORCER_SORT_COMPARE: u32 = 20_002;

pub const OP_ENFORCER_RANDOM_FETCH: u32 = 20_003;

pub const OP_ENFORCER_SPILL_PAGE: u32 = 20_004;

pub const OP_RUNTIME_FILTER_BUILD_ROW: u32 = 11;

pub const OP_RUNTIME_FILTER_APPLY_ROW: u32 = 12;

/// One block of 32 bytes that is read or written.
pub const OP_TUPLE_BYTE_BLOCK: u32 = 16;

/// One block of 32 bytes that is hashed beyond an integral key.
pub const OP_HASH_KEY_BYTE_BLOCK: u32 = 17;

/// An amount with its bounds.
#[derive(Clone, Copy, Debug, PartialEq, Eq, Structural)]
pub struct CompactRange {
    pub lower: Number,
    pub expected: Number,
    pub upper: Number,
}

impl CompactRange {
    /// The same amount for certain.
    pub fn point(value: Number) -> (r: CompactRange)
        ensures
            r == (CompactRange { lower: value, expected: value, upper: value }),
    {
        CompactRange { lower: value, expected: value, upper: value }
    }
}

/// Work of one class.
#[derive(Clone, Copy, Debug, PartialEq, Eq, Structural)]
pub struct WorkUnit {
    pub class: OpClassId,
    pub units: CompactRange,
}

/// Work of one operator, at most one entry for each class.
#[derive(Debug)]
pub struct LocalOperatorWork {
    units: Vec<WorkUnit>,
}

/// What adding work of a class asks for.
#[derive(Clone, Copy, Debug, PartialEq, Eq, Structural)]
pub enum WorkAddition {
    /// The work stands in an entry of its own.
    Stored,
    /// There is work of the class already: the entry is to hold the sum.
    Merge { entry: usize, existing: CompactRange },
}

/// Work has more classes than an operator may have.
#[derive(Clone, Copy, Debug, PartialEq, Eq, Structural)]
pub struct WorkBoundExceeded;

impl View for LocalOperatorWork {
    type V = Seq<WorkUnit>;

    closed spec fn view(&self) -> Seq<WorkUnit> {
        self.units@
    }
}

/// Whether there is work of a class.
pub open spec fn has_class(units: Seq<WorkUnit>, class: OpClassId) -> bool {
    exists|i: int| 0 <= i < units.len() && (#[trigger] units[i]).class == class
}

impl Default for LocalOperatorWork {
    fn default() -> (r: LocalOperatorWork)
        ensures
            r@ == Seq::<WorkUnit>::empty(),
    {
        LocalOperatorWork { units: Vec::new() }
    }
}

impl LocalOperatorWork {
    #[verifier::type_invariant]
    spec fn bounded(self) -> bool {
        &&& self.units@.len() <= MAX_LOCAL_OP_CLASSES
        &&& forall|i: int, j: int|
            #![trigger self.units@[i], self.units@[j]]
            0 <= i < j < self.units@.len() ==> self.units@[i].class != self.units@[j].class
    }

    /// Adds work of a class. Work of a class that is there already is not
    /// stored: the caller puts the sum into its entry.
    pub fn add(&mut self, class: OpClassId, units: CompactRange) -> (r: Result<
        WorkAddition,
        WorkBoundExceeded,
    >)
        ensures
            match r {
                Ok(WorkAddition::Stored) => !has_class(old(self)@, class) && old(self)@.len()
                    < MAX_LOCAL_OP_CLASSES && final(self)@ == old(self)@.push(
                    WorkUnit { class, units },
                ),
                Ok(WorkAddition::Merge { entry, existing }) => final(self)@ == old(self)@ && entry
                    < old(self)@.len() && old(self)@[entry as int] == (WorkUnit {
                    class,
                    units: existing,
                }),
                Err(_) => !has_class(old(self)@, class) && old(self)@.len()
                    == MAX_LOCAL_OP_CLASSES && final(self)@ == old(self)@,
            },
    {
        proof {
            use_type_invariant(&*self);
        }
        let mut i: usize = 0;
        while i < self.units.len()
            invariant
                i <= self.units@.len(),
                *self == *old(self),
                forall|k: int| 0 <= k < i ==> (#[trigger] self.units@[k]).class != class,
            decreases self.units@.len() - i,
        {
            if self.units[i].class == class {
                return Ok(WorkAddition::Merge { entry: i, existing: self.units[i].units });
            }
            i = i + 1;
        }
        assert(!has_class(self@, class));
        if self.units.len() == MAX_LOCAL_OP_CLASSES {
            return Err(WorkBoundExceeded);
        }
        let mut work = LocalOperatorWork { units: Vec::new() };
        std::mem::swap(self, &mut work);
        proof {
            use_type_invariant(&work);
        }
        let LocalOperatorWork { units: mut list } = work;
        list.push(WorkUnit { class, units });
        *self = LocalOperatorWork { units: list };
        Ok(WorkAddition::Stored)
    }

    /// Puts the sum of merged work into its entry.
    pub fn merge(&mut self, entry: usize, units: CompactRange)
        requires
            entry < old(self)@.len(),
        ensures
            final(self)@ == old(self)@.update(
                entry as int,
                WorkUnit { class: old(self)@[entry as int].class, units },
            ),
    {
        proof {
            use_type_invariant(&*self);
        }
        let class = self.units[entry].class;
        let mut work = LocalOperatorWork { units: Vec::new() };
        std::mem::swap(self, &mut work);
        proof {
            use_type_invariant(&work);
        }
        let LocalOperatorWork { units: mut list } = work;
        list.set(entry, WorkUnit { class, units });
        *self = LocalOperatorWork { units: list };
    }

    /// All work in the order in which the classes were added, at most one entry
    /// for each.
    pub fn iter(&self) -> (r: Vec<WorkUnit>)
        ensures
            r@ == self@,
            r@.len() <= MAX_LOCAL_OP_CLASSES,
            forall|i: int, j: int|
                #![trigger r@[i], r@[j]]
                0 <= i < j < r@.len() ==> r@[i].class != r@[j].class,
    {
        proof {
            use_type_invariant(self);
        }
        let mut r: Vec<WorkUnit> = Vec::new();
        let mut i: usize = 0;
        while i < self.units.len()
            invariant
                i <= self.units@.len(),
                r@ == self.units@.take(i as int),
            decreases self.units@.len() - i,
        {
            r.push(self.units[i]);
            assert(r@ =~= self.units@.take(i + 1));
            i = i + 1;
        }
        assert(r@ =~= self.units@);
        r
    }
}

/// Machine resources that work draws on.
#[derive(Clone, Copy, Debug, PartialEq, Eq, Structural)]
pub enum ResourceDimension {
    Cpu,
    MemoryRead,
    SequentialIo,
    RandomIo,
}

pub const RESOURCE_DIMS: usize = 4;

impl ResourceDimension {
    pub open spec fn spec_index(self) -> int {
        match self {
            ResourceDimension::Cpu => 0,
            ResourceDimension::MemoryRead => 1,
            ResourceDimension::SequentialIo => 2,
            ResourceDimension::RandomIo => 3,
        }
    }

    pub fn index(self) -> (r: usize)
        ensures
            r == self.spec_index(),
            r < RESOURCE_DIMS,
    {
        match self {
            ResourceDimension::Cpu => 0,
            ResourceDimension::MemoryRead => 1,
            ResourceDimension::SequentialIo => 2,
            ResourceDimension::RandomIo => 3,
        }
    }
}

/// What a unit of work costs: resources, and latency.
#[derive(Clone, Copy, Debug)]
pub struct CalibratedOpCost {
    pub expected_resources_per_unit: [Number; RESOURCE_DIMS],
    pub risk_resources_per_unit: [Number; RESOURCE_DIMS],
    pub latency_per_unit: CompactRange,
}

pub open spec fn all_amounts(values: Seq<Number>) -> bool {
    forall|i: int| 0 <= i < values.len() ==> (#[trigger] values[i]).is_amount()
}

/// Whether all coefficients are amounts.
pub open spec fn is_valid_cost(cost: CalibratedOpCost) -> bool {
    &&& all_amounts(cost.expected_resources_per_unit@)
    &&& all_amounts(cost.risk_resources_per_unit@)
    &&& cost.latency_per_unit.lower.is_amount()
    &&& cost.latency_per_unit.expected.is_amount()
    &&& cost.latency_per_unit.upper.is_amount()
}

/// A coefficient is negative or no finite number.
#[derive(Clone, Copy, Debug, PartialEq, Eq, Structural)]
pub struct InvalidCoefficient;

fn are_amounts(values: &[Number; RESOURCE_DIMS]) -> (r: bool)
    ensures
        r == all_amounts(values@),
{
    let mut i: usize = 0;
    while i < RESOURCE_DIMS
        invariant
            i <= RESOURCE_DIMS,
            values@.len() == RESOURCE_DIMS,
            forall|k: int| 0 <= k < i ==> (#[trigger] values@[k]).is_amount(),
        decreases RESOURCE_DIMS - i,
    {
        if !values[i].amount() {
            assert(!values@[i as int].is_amount());
            return false;
        }
        i = i + 1;
    }
    true
}

pub fn validate_calibrated_cost(cost: CalibratedOpCost) -> (r: Result<(), InvalidCoefficient>)
    ensures
        r is Ok <==> is_valid_cost(cost),
{
    if are_amounts(&cost.expected_resources_per_unit) && are_amounts(&cost.risk_resources_per_unit)
        && cost.latency_per_unit.lower.amount() && cost.latency_per_unit.expected.amount()
        && cost.latency_per_unit.upper.amount() {
        Ok(())
    } else {
        Err(InvalidCoefficient)
    }
}

/// No amount but in one place.
pub open spec fn single(dimension: ResourceDimension, amount: Number) -> Seq<Number> {
    Seq::new(
        RESOURCE_DIMS as nat,
        |i: int|
            if i == dimension.spec_index() {
                amount
            } else {
                Number { bits: 0 }
            },
    )
}

/// Coefficients on one resource.
pub fn calibrated_dimension(
    dimension: ResourceDimension,
    expected: Number,
    risk: Number,
    latency_per_unit: CompactRange,
) -> (r: CalibratedOpCost)
    ensures
        r.expected_resources_per_unit@ == single(dimension, expected),
        r.risk_resources_per_unit@ == single(dimension, risk),
        r.latency_per_unit == latency_per_unit,
{
    let mut expected_resources_per_unit: [Number; RESOURCE_DIMS] = [Number::zero(); RESOURCE_DIMS];
    let mut risk_resources_per_unit: [Number; RESOURCE_DIMS] = [Number::zero(); RESOURCE_DIMS];
    expected_resources_per_unit[dimension.index()] = expected;
    risk_resources_per_unit[dimension.index()] = risk;
    assert(expected_resources_per_unit@ =~= single(dimension, expected));
    assert(risk_resources_per_unit@ =~= single(dimension, risk));
    CalibratedOpCost { expected_resources_per_unit, risk_resources_per_unit, latency_per_unit }
}

/// A coefficient of the conservative model, in thousandths. The lower latency
/// is half the expected one.
#[derive(Clone, Copy, Debug, PartialEq, Eq, Structural)]
pub struct BuiltinCoefficient {
    pub class: OpClassId,
    pub dimension: ResourceDimension,
    pub expected: u32,
    pub risk: u32,
    pub latency_expected: u32,
    pub latency_upper: u32,
}

pub open spec fn builtin(
    class: u32,
    dimension: ResourceDimension,
    expected: u32,
    risk: u32,
    latency_expected: u32,
    latency_upper: u32,
) -> BuiltinCoefficient {
    BuiltinCoefficient {
        class: OpClassId(class),
        dimension,
        expected,
        risk,
        latency_expected,
        latency_upper,
    }
}

fn builtin_coefficient(
    class: u32,
    dimension: ResourceDimension,
    expected: u32,
    risk: u32,
    latency_expected: u32,
    latency_upper: u32,
) -> (r: BuiltinCoefficient)
    ensures
        r == builtin(class, dimension, expected, risk, latency_expected, latency_upper),
{
    BuiltinCoefficient {
        class: OpClassId(class),
        dimension,
        expected,
        risk,
        latency_expected,
        latency_upper,
    }
}

/// The conservative coefficients that hold until a machine is calibrated.
pub open spec fn conservative_model() -> Seq<BuiltinCoefficient> {
    seq![
        builtin(OP_ENFORCER_STREAM_ROW, ResourceDimension::Cpu, 250, 1000, 250, 1000),
        builtin(OP_ENFORCER_SORT_COMPARE, ResourceDimension::Cpu, 1000, 4000, 1000, 6000),
        builtin(OP_ENFORCER_RANDOM_FETCH, ResourceDimension::RandomIo, 1000, 6000, 2000, 12000),
        builtin(OP_ENFORCER_SPILL_PAGE, ResourceDimension::SequentialIo, 2000, 8000, 2000, 10000),
        builtin(OP_RUNTIME_FILTER_BUILD_ROW, ResourceDimension::Cpu, 150, 600, 150, 800),
        builtin(OP_RUNTIME_FILTER_APPLY_ROW, ResourceDimension::Cpu, 100, 400, 100, 600),
        builtin(OP_TUPLE_BYTE_BLOCK, ResourceDimension::MemoryRead, 250, 1000, 100, 500),
        builtin(OP_HASH_KEY_BYTE_BLOCK, ResourceDimension::Cpu, 450, 1200, 450, 1600),
    ]
}

pub fn conservative_coefficients() -> (r: Vec<BuiltinCoefficient>)
    ensures
        r@ == conservative_model(),
{
    let mut r: Vec<BuiltinCoefficient> = Vec::new();
    let cpu = ResourceDimension::Cpu;
    r.push(builtin_coefficient(OP_ENFORCER_STREAM_ROW, cpu, 250, 1000, 250, 1000));
    r.push(builtin_coefficient(OP_ENFORCER_SORT_COMPARE, cpu, 1000, 4000, 1000, 6000));
    r.push(
        builtin_coefficient(
            OP_ENFORCER_RANDOM_FETCH,
            ResourceDimension::RandomIo,
            1000,
            6000,
            2000,
            12000,
        ),
    );
    r.push(
        builtin_coefficient(
            OP_ENFORCER_SPILL_PAGE,
            ResourceDimension::SequentialIo,
            2000,
            8000,
            2000,
            10000,
        ),
    );
    r.push(builtin_coefficient(OP_RUNTIME_FILTER_BUILD_ROW, cpu, 150, 600, 150, 800));
    r.push(builtin_coefficient(OP_RUNTIME_FILTER_APPLY_ROW, cpu, 100, 400, 100, 600));
    r.push(
        builtin_coefficient(
            OP_TUPLE_BYTE_BLOCK,
            ResourceDimension::MemoryRead,
            250,
            1000,
            100,
            500,
        ),
    );
    r.push(builtin_coefficient(OP_HASH_KEY_BYTE_BLOCK, cpu, 450, 1200, 450, 1600));
    assert(r@ =~= conservative_model());
    r
}

/// Coefficients by class.
#[derive(Debug)]
pub struct CoefficientTable {
    coefficients: BTreeMap<u32, CalibratedOpCost>,
    fallback: CalibratedOpCost,
}

impl CoefficientTable {
    /// The coefficients of a class; conservative ones where it has none.
    pub closed spec fn cost_of(self, class: OpClassId) -> CalibratedOpCost {
        if self.coefficients@.contains_key(class.0) {
            self.coefficients@[class.0]
        } else {
            self.fallback
        }
    }

    /// Whether a class has coefficients of its own.
    pub closed spec fn calibrates(self, class: OpClassId) -> bool {
        self.coefficients@.contains_key(class.0)
    }

    /// What classes without coefficients cost.
    pub closed spec fn conservative(self) -> CalibratedOpCost {
        self.fallback
    }

    pub fn new(fallback: CalibratedOpCost) -> (r: CoefficientTable)
        ensures
            r.conservative() == fallback,
            forall|class: OpClassId| !#[trigger] r.calibrates(class),
            forall|class: OpClassId| #[trigger] r.cost_of(class) == fallback,
    {
        CoefficientTable { coefficients: BTreeMap::new(), fallback }
    }

    /// Sets the coefficients of a class, if they are valid.
    pub fn set(&mut self, class: OpClassId, cost: CalibratedOpCost) -> (r: Result<
        (),
        InvalidCoefficient,
    >)
        ensures
            r is Ok <==> is_valid_cost(cost),
            r is Err ==> *final(self) == *old(self),
            final(self).conservative() == old(self).conservative(),
            r is Ok ==> forall|other: OpClassId| #[trigger]
                final(self).cost_of(other) == if other == class {
                    cost
                } else {
                    old(self).cost_of(other)
                },
            r is Ok ==> forall|other: OpClassId| #[trigger]
                final(self).calibrates(other) == (other == class || old(self).calibrates(other)),
    {
        broadcast use {vstd::std_specs::btree::group_btree_axioms, vstd::laws_cmp::group_laws_cmp};

        validate_calibrated_cost(cost)?;
        self.coefficients.insert(class.0, cost);
        Ok(())
    }

    /// The coefficients of a class; conservative ones where it has none.
    pub fn get(&self, class: OpClassId) -> (r: CalibratedOpCost)
        ensures
            r == self.cost_of(class),
    {
        broadcast use {vstd::std_specs::btree::group_btree_axioms, vstd::laws_cmp::group_laws_cmp};

        match self.coefficients.get(&class.0) {
            Some(cost) => *cost,
            None => self.fallback,
        }
    }
}

/// Each piece of work with the coefficients that price it.
pub fn priced_work(table: &CoefficientTable, work: &LocalOperatorWork) -> (r: Vec<
    (WorkUnit, CalibratedOpCost),
>)
    ensures
        r@ == work@.map_values(|unit: WorkUnit| (unit, table.cost_of(unit.class))),
{
    let units = work.iter();
    let mut r: Vec<(WorkUnit, CalibratedOpCost)> = Vec::new();
    let mut i: usize = 0;
    while i < units.len()
        invariant
            i <= units@.len(),
            r@ == units@.take(i as int).map_values(
                |unit: WorkUnit| (unit, table.cost_of(unit.class)),
            ),
        decreases units@.len() - i,
    {
        r.push((units[i], table.get(units[i].class)));
        proof {
            let next = units@.take(i + 1);
            assert(next =~= units@.take(i as int).push(units@[i as int]));
            assert(r@ =~= next.map_values(|unit: WorkUnit| (unit, table.cost_of(unit.class))));
        }
        i = i + 1;
    }
    assert(units@.take(i as int) =~= units@);
    r
}

/// How a phase can be spread over workers. Total work does not depend on it.
#[derive(Clone, Copy, Debug, PartialEq, Eq, Structural)]
pub enum ParallelWorkProfile {
    /// The scheduler sees one piece.
    Serial,
    /// Workers take packets and only meet at the end of the phase.
    Pipeline,
    /// Workers produce parts that have to be merged.
    BlockingMerge,
}

/// The serial fraction that shortens a critical path.
#[derive(Clone, Copy, Debug, PartialEq, Eq, Structural)]
pub enum SpanModel {
    /// The critical path is the work itself.
    Unscaled,
    PipelineFraction,
    MergeFraction,
}

pub open spec fn span_model(profile: ParallelWorkProfile, tasks: u16) -> SpanModel {
    if tasks <= 1 {
        SpanModel::Unscaled
    } else {
        match profile {
            ParallelWorkProfile::Serial => SpanModel::Unscaled,
            ParallelWorkProfile::Pipeline => SpanModel::PipelineFraction,
            ParallelWorkProfile::BlockingMerge => SpanModel::MergeFraction,
        }
    }
}

/// Workers of a phase and how they shorten its critical path. There is always
/// one worker.
pub fn apply_parallelism(profile: ParallelWorkProfile, max_parallel_tasks: u16) -> (r: (
    u16,
    SpanModel,
))
    ensures
        r.0 == if max_parallel_tasks == 0 {
            1
        } else {
            max_parallel_tasks
        },
        r.1 == span_model(profile, max_parallel_tasks),
{
    let tasks: u16 = if max_parallel_tasks == 0 {
        1
    } else {
        max_parallel_tasks
    };
    if tasks == 1 {
        return (tasks, SpanModel::Unscaled);
    }
    let model = match profile {
        ParallelWorkProfile::Serial => SpanModel::Unscaled,
        ParallelWorkProfile::Pipeline => SpanModel::PipelineFraction,
        ParallelWorkProfile::BlockingMerge => SpanModel::MergeFraction,
    };
    (tasks, model)
}

/// The price of some work, and how long its longest chain takes.
#[derive(Debug)]
pub struct FoldedCost<N, R, L> {
    pub score: N,
    pub resources_expected: R,
    pub resources_risk_upper: R,
    pub work_latency: L,
    pub critical_path: L,
    pub max_parallel_tasks: u16,
}

/// A price at an operating point, where `scaled` is the critical path as the
/// workers shorten it. Only the critical path depends on the workers; the work
/// is never divided by their number.
pub open spec fn at_tasks<N, R, L>(
    folded: FoldedCost<N, R, L>,
    profile: ParallelWorkProfile,
    max_parallel_tasks: u16,
    scaled: L,
) -> FoldedCost<N, R, L> {
    FoldedCost {
        critical_path: if span_model(profile, max_parallel_tasks) is Unscaled {
            folded.critical_path
        } else {
            scaled
        },
        max_parallel_tasks: if max_parallel_tasks == 0 {
            1
        } else {
            max_parallel_tasks
        },
        ..folded
    }
}

/// Puts a price at an operating point.
pub fn fold_for_tasks<N, R, L>(
    folded: FoldedCost<N, R, L>,
    profile: ParallelWorkProfile,
    max_parallel_tasks: u16,
    scaled: L,
) -> (r: FoldedCost<N, R, L>)
    ensures
        r == at_tasks(folded, profile, max_parallel_tasks, scaled),
{
    let (tasks, span) = apply_parallelism(profile, max_parallel_tasks);
    let critical_path = match span {
        SpanModel::Unscaled => folded.critical_path,
        _ => scaled,
    };
    FoldedCost {
        score: folded.score,
        resources_expected: folded.resources_expected,
        resources_risk_upper: folded.resources_risk_upper,
        work_latency: folded.work_latency,
        critical_path,
        max_parallel_tasks: tasks,
    }
}

/// The number of workers changes neither the score nor the resources nor the
/// latency of the work; serial work and a single worker keep the critical path
/// as well.
pub proof fn workers_divide_no_work<N, R, L>(
    folded: FoldedCost<N, R, L>,
    profile: ParallelWorkProfile,
    max_parallel_tasks: u16,
    scaled: L,
)
    ensures
        ({
            let r = at_tasks(folded, profile, max_parallel_tasks, scaled);
            &&& r.score == folded.score
            &&& r.resources_expected == folded.resources_expected
            &&& r.resources_risk_upper == folded.resources_risk_upper
            &&& r.work_latency == folded.work_latency
            &&& r.max_parallel_tasks >= 1
            &&& max_parallel_tasks >= 1 ==> r.max_parallel_tasks == max_parallel_tasks
            &&& max_parallel_tasks <= 1 || profile is Serial ==> r.critical_path
                == folded.critical_path
        }),
{
}

/// The conservative coefficients risk no less than they expect, in resources and in
/// latency, and each class has one of them.
pub proof fn conservative_model_risks_more(i: int, j: int)
    requires
        0 <= i < j < conservative_model().len(),
    ensures
        conservative_model()[i].expected <= conservative_model()[i].risk,
        conservative_model()[i].latency_expected <= conservative_model()[i].latency_upper,
        conservative_model()[j].expected <= conservative_model()[j].risk,
        conservative_model()[j].latency_expected <= conservative_model()[j].latency_upper,
        conservative_model()[i].class != conservative_model()[j].class,
{
}

/// Work in one dimension is the only amount there is.
pub proof fn single_amount_has_one_place(
    dimension: ResourceDimension,
    other: ResourceDimension,
    amount: Number,
)
    ensures
        single(dimension, amount)[dimension.spec_index()] == amount,
        other != dimension ==> single(dimension, amount)[other.spec_index()] == (Number { bits: 0 }),
        single(dimension, amount).len() == RESOURCE_DIMS,
        dimension.spec_index() == other.spec_index() <==> dimension == other,
        0 <= dimension.spec_index() < RESOURCE_DIMS,
{
}

/// A cost is valid exactly where every dimension of its resources and every latency is
/// an amount.
pub proof fn valid_costs_hold_only_amounts(cost: CalibratedOpCost)
    ensures
        is_valid_cost(cost) <==> {
            &&& forall|dimension: ResourceDimension|
                cost.expected_resources_per_unit@[#[trigger] dimension.spec_index()].is_amount()
                    && cost.risk_resources_per_unit@[dimension.spec_index()].is_amount()
            &&& cost.latency_per_unit.lower.is_amount()
            &&& cost.latency_per_unit.expected.is_amount()
            &&& cost.latency_per_unit.upper.is_amount()
        },
{
    assert(ResourceDimension::Cpu.spec_index() == 0);
    assert(ResourceDimension::MemoryRead.spec_index() == 1);
    assert(ResourceDimension::SequentialIo.spec_index() == 2);
    assert(ResourceDimension::RandomIo.spec_index() == 3);
    let expected = cost.expected_resources_per_unit@;
    let risk = cost.risk_resources_per_unit@;
    assert(expected.len() == 4 && risk.len() == 4);
    if is_valid_cost(cost) {
        assert forall|dimension: ResourceDimension| expected[#[trigger] dimension.spec_index()]
            .is_amount() && risk[dimension.spec_index()].is_amount() by {}
    } else if forall|dimension: ResourceDimension|
        expected[#[trigger] dimension.spec_index()].is_amount()
            && risk[dimension.spec_index()].is_amount() {
        assert(expected[0].is_amount() && expected[1].is_amount() && expected[2].is_amount()
            && expected[3].is_amount());
        assert(all_amounts(expected));
        assert(all_amounts(risk));
    }
}

} // verus!
