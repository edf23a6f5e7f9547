//! Finite value domains: complete lists of the values that a column can take.

use vstd::prelude::*;

use crate::binding_map::{ordered, BindingMap};
use crate::expression::equality::value_views;
use crate::types::ColumnBinding;
use crate::value::{Value, ValueView};

verus! {

/// Largest number of values that a domain proof keeps.
pub const MAX_DOMAIN_VALUES: usize = 64;

/// A value compared across integer widths. Only types whose equality is the
/// equality of these values have one.
#[derive(Debug)]
pub enum DomainValue {
    Null,
    Boolean(bool),
    Integer(i128),
    String(String),
}

pub enum DomainValueView {
    Text(Seq<char>),
    Plain(DomainValue),
}

impl View for DomainValue {
    type V = DomainValueView;

    open spec fn view(&self) -> DomainValueView {
        match *self {
            DomainValue::String(text) => DomainValueView::Text(text@),
            other => DomainValueView::Plain(other),
        }
    }
}

/// The domain value of a literal, where its type has them.
pub open spec fn domain_value(value: ValueView) -> Option<DomainValueView> {
    match value {
        ValueView::Text(text) => Some(DomainValueView::Text(text)),
        ValueView::Plain(value) => match value {
            Value::Null => Some(DomainValueView::Plain(DomainValue::Null)),
            Value::Boolean(v) => Some(DomainValueView::Plain(DomainValue::Boolean(v))),
            Value::TinyInt(v) => Some(DomainValueView::Plain(DomainValue::Integer(v as i128))),
            Value::SmallInt(v) => Some(DomainValueView::Plain(DomainValue::Integer(v as i128))),
            Value::Integer(v) => Some(DomainValueView::Plain(DomainValue::Integer(v as i128))),
            Value::BigInt(v) => Some(DomainValueView::Plain(DomainValue::Integer(v as i128))),
            Value::HugeInt(v) => Some(DomainValueView::Plain(DomainValue::Integer(v))),
            Value::UTinyInt(v) => Some(DomainValueView::Plain(DomainValue::Integer(v as i128))),
            Value::USmallInt(v) => Some(DomainValueView::Plain(DomainValue::Integer(v as i128))),
            Value::UInteger(v) => Some(DomainValueView::Plain(DomainValue::Integer(v as i128))),
            Value::UBigInt(v) => Some(DomainValueView::Plain(DomainValue::Integer(v as i128))),
            _ => None,
        },
    }
}

impl DomainValue {
    pub fn from_value(value: &Value) -> (r: Option<DomainValue>)
        ensures
            match r {
                Some(v) => domain_value(value@) == Some(v@),
                None => domain_value(value@) is None,
            },
    {
        match value {
            Value::Null => Some(DomainValue::Null),
            Value::Boolean(v) => Some(DomainValue::Boolean(*v)),
            Value::TinyInt(v) => Some(DomainValue::Integer(*v as i128)),
            Value::SmallInt(v) => Some(DomainValue::Integer(*v as i128)),
            Value::Integer(v) => Some(DomainValue::Integer(*v as i128)),
            Value::BigInt(v) => Some(DomainValue::Integer(*v as i128)),
            Value::HugeInt(v) => Some(DomainValue::Integer(*v)),
            Value::UTinyInt(v) => Some(DomainValue::Integer(*v as i128)),
            Value::USmallInt(v) => Some(DomainValue::Integer(*v as i128)),
            Value::UInteger(v) => Some(DomainValue::Integer(*v as i128)),
            Value::UBigInt(v) => Some(DomainValue::Integer(*v as i128)),
            Value::Varchar(text) => Some(DomainValue::String(text.clone())),
            _ => None,
        }
    }

    pub fn copy(&self) -> (r: DomainValue)
        ensures
            r == *self,
    {
        match self {
            DomainValue::Null => DomainValue::Null,
            DomainValue::Boolean(v) => DomainValue::Boolean(*v),
            DomainValue::Integer(v) => DomainValue::Integer(*v),
            DomainValue::String(text) => DomainValue::String(text.clone()),
        }
    }

    pub fn same(&self, other: &DomainValue) -> (r: bool)
        ensures
            r == (self@ == other@),
    {
        match (self, other) {
            (DomainValue::Null, DomainValue::Null) => true,
            (DomainValue::Boolean(a), DomainValue::Boolean(b)) => *a == *b,
            (DomainValue::Integer(a), DomainValue::Integer(b)) => *a == *b,
            (DomainValue::String(a), DomainValue::String(b)) => *a == *b,
            _ => false,
        }
    }
}

/// A finite set of domain values.
#[derive(Debug)]
pub struct Domain {
    values: Vec<DomainValue>,
}

/// What each value of a sequence denotes.
pub open spec fn denoted(values: Seq<DomainValue>) -> Seq<DomainValueView> {
    values.map_values(|v: DomainValue| v@)
}

impl View for Domain {
    type V = Set<DomainValueView>;

    closed spec fn view(&self) -> Set<DomainValueView> {
        denoted(self.values@).to_set()
    }
}

impl Domain {
    #[verifier::type_invariant]
    spec fn inv(self) -> bool {
        denoted(self.values@).no_duplicates()
    }

    pub fn new() -> (r: Domain)
        ensures
            r@ == Set::<DomainValueView>::empty(),
    {
        let r = Domain { values: Vec::new() };
        assert(r@ =~= Set::<DomainValueView>::empty());
        r
    }

    pub fn len(&self) -> (r: usize)
        ensures
            r == self@.len(),
            self@.finite(),
    {
        proof {
            use_type_invariant(self);
            denoted(self.values@).unique_seq_to_set();
        }
        self.values.len()
    }

    pub fn is_empty(&self) -> (r: bool)
        ensures
            r == (self@ =~= Set::<DomainValueView>::empty()),
    {
        let r = self.values.len() == 0;
        proof {
            if !r {
                assert(self@.contains(denoted(self.values@)[0]));
            }
        }
        r
    }

    pub fn contains(&self, value: &DomainValue) -> (r: bool)
        ensures
            r == self@.contains(value@),
    {
        let mut i: usize = 0;
        while i < self.values.len()
            invariant
                i <= self.values@.len(),
                forall|k: int| 0 <= k < i ==> denoted(self.values@)[k] != value@,
            decreases self.values@.len() - i,
        {
            if self.values[i].same(value) {
                assert(denoted(self.values@)[i as int] == value@);
                return true;
            }
            i = i + 1;
        }
        false
    }

    pub fn insert(&mut self, value: DomainValue)
        ensures
            final(self)@ == old(self)@.insert(value@),
    {
        proof {
            use_type_invariant(&*self);
        }
        let ghost before = self.values@;
        if !self.contains(&value) {
            let mut values: Vec<DomainValue> = Vec::new();
            std::mem::swap(&mut values, &mut self.values);
            values.push(value);
            proof {
                assert(denoted(values@) =~= denoted(before).push(value@));
                assert forall|v: DomainValueView|
                    denoted(values@).to_set().contains(v) == denoted(before).to_set().insert(
                        value@,
                    ).contains(v) by {
                    if denoted(before).contains(v) {
                        let k = choose|k: int| 0 <= k < before.len() && denoted(before)[k] == v;
                        assert(denoted(values@)[k] == v);
                    }
                    if v == value@ {
                        assert(denoted(values@)[before.len() as int] == v);
                    }
                }
                assert(denoted(values@).to_set() =~= denoted(before).to_set().insert(value@));
            }
            self.values = values;
        } else {
            assert(self@ =~= self@.insert(value@));
        }
    }

    pub fn singleton(value: DomainValue) -> (r: Domain)
        ensures
            r@ == set![value@],
    {
        let mut r = Domain::new();
        r.insert(value);
        r
    }

    pub fn copy(&self) -> (r: Domain)
        ensures
            r@ == self@,
    {
        let mut r = Domain::new();
        let mut i: usize = 0;
        while i < self.values.len()
            invariant
                i <= self.values@.len(),
                r@ == denoted(self.values@).take(i as int).to_set(),
            decreases self.values@.len() - i,
        {
            r.insert(self.values[i].copy());
            proof {
                lemma_take_set(denoted(self.values@), i as int);
            }
            i = i + 1;
        }
        assert(denoted(self.values@).take(i as int) =~= denoted(self.values@));
        r
    }

    /// The values that both domains hold.
    pub fn intersection(&self, other: &Domain) -> (r: Domain)
        ensures
            r@ == self@.intersect(other@),
    {
        let mut r = Domain::new();
        let mut i: usize = 0;
        while i < self.values.len()
            invariant
                i <= self.values@.len(),
                r@ =~= denoted(self.values@).take(i as int).to_set().intersect(other@),
            decreases self.values@.len() - i,
        {
            proof {
                lemma_take_set(denoted(self.values@), i as int);
            }
            if other.contains(&self.values[i]) {
                r.insert(self.values[i].copy());
            }
            i = i + 1;
        }
        assert(denoted(self.values@).take(i as int) =~= denoted(self.values@));
        r
    }

    /// The values that either domain holds.
    pub fn union(&self, other: &Domain) -> (r: Domain)
        ensures
            r@ == self@.union(other@),
    {
        let mut r = self.copy();
        let mut i: usize = 0;
        while i < other.values.len()
            invariant
                i <= other.values@.len(),
                r@ =~= self@.union(denoted(other.values@).take(i as int).to_set()),
            decreases other.values@.len() - i,
        {
            r.insert(other.values[i].copy());
            proof {
                lemma_take_set(denoted(other.values@), i as int);
            }
            i = i + 1;
        }
        assert(denoted(other.values@).take(i as int) =~= denoted(other.values@));
        r
    }

    pub fn is_disjoint(&self, other: &Domain) -> (r: bool)
        ensures
            r == self@.disjoint(other@),
    {
        let shared = self.intersection(other);
        let r = shared.is_empty();
        proof {
            if r {
                assert forall|v: DomainValueView| self@.contains(v) implies !other@.contains(v) by {
                    assert(!shared@.contains(v));
                }
            } else {
                assert(exists|v: DomainValueView| shared@.contains(v)) by {
                    if forall|v: DomainValueView| !shared@.contains(v) {
                        assert(shared@ =~= Set::<DomainValueView>::empty());
                    }
                }
                let v = choose|v: DomainValueView| shared@.contains(v);
                assert(self@.contains(v) && other@.contains(v));
            }
        }
        r
    }
}

proof fn lemma_take_set(s: Seq<DomainValueView>, i: int)
    requires
        0 <= i < s.len(),
    ensures
        s.take(i + 1).to_set() == s.take(i).to_set().insert(s[i]),
{
    assert forall|v: DomainValueView|
        s.take(i + 1).to_set().contains(v) == s.take(i).to_set().insert(s[i]).contains(v) by {
        if s.take(i + 1).contains(v) {
            let t = s.take(i + 1);
            let k = choose|k: int| 0 <= k < t.len() && t[k] == v;
            if k < i {
                assert(s.take(i)[k] == v);
            }
        }
        if s.take(i).contains(v) {
            let t = s.take(i);
            let k = choose|k: int| 0 <= k < t.len() && t[k] == v;
            assert(s.take(i + 1)[k] == v);
        }
        assert(s.take(i + 1)[i] == s[i]);
    }
    assert(s.take(i + 1).to_set() =~= s.take(i).to_set().insert(s[i]));
}

/// Whether every literal has a domain value.
pub open spec fn all_domain_values(values: Seq<ValueView>) -> bool {
    forall|i: int| 0 <= i < values.len() ==> domain_value(#[trigger] values[i]) is Some
}

/// The domain values of the first `n` literals.
pub open spec fn domain_of(values: Seq<ValueView>, n: nat) -> Set<DomainValueView>
    decreases n,
{
    if n == 0 || n > values.len() {
        Set::empty()
    } else {
        domain_of(values, (n - 1) as nat).insert(domain_value(values[n - 1])->0)
    }
}

/// The domain value of a listed literal is in the domain.
pub proof fn lemma_domain_of(values: Seq<ValueView>, n: nat, k: int)
    requires
        0 <= k < n <= values.len(),
    ensures
        domain_of(values, n).contains(domain_value(values[k])->0),
    decreases n,
{
    if k < n - 1 {
        lemma_domain_of(values, (n - 1) as nat, k);
    }
}

/// Whether `domain` gives each value the domain value of the literals that denote
/// it: literals of different types that denote the same compare as the same.
pub open spec fn denotes_domain(
    literal: spec_fn(ValueView) -> Option<int>,
    domain: spec_fn(int) -> DomainValueView,
) -> bool {
    forall|v: ValueView|
        (#[trigger] literal(v)) is Some && domain_value(v) is Some ==> domain_value(v) == Some(
            domain(literal(v)->0),
        )
}

/// The number that an integer literal of any width stands for.
pub open spec fn whole_number(value: Value) -> Option<int> {
    match value {
        Value::TinyInt(v) => Some(v as int),
        Value::SmallInt(v) => Some(v as int),
        Value::Integer(v) => Some(v as int),
        Value::BigInt(v) => Some(v as int),
        Value::HugeInt(v) => Some(v as int),
        Value::UTinyInt(v) => Some(v as int),
        Value::USmallInt(v) => Some(v as int),
        Value::UInteger(v) => Some(v as int),
        Value::UBigInt(v) => Some(v as int),
        _ => None,
    }
}

/// Integers of any two widths have the same domain value exactly where they are
/// the same number, and no other literal shares a domain value with them.
pub proof fn integers_compare_across_widths(a: Value, b: Value)
    requires
        whole_number(a) is Some,
    ensures
        domain_value(a@) is Some,
        domain_value(a@) == domain_value(b@) <==> whole_number(b) == whole_number(a),
{
}

/// Numbers that may have fractions, times and the widest unsigned numbers have no
/// domain value: their equality is not that of whole numbers.
pub proof fn other_numbers_have_no_domain_value(value: Value)
    requires
        value is Float || value is Double || value is Decimal || value is UHugeInt || value is Date
            || value is Time || value is Timestamp || value is TimestampTz,
    ensures
        domain_value(value@) is None,
{
}

/// The domain that a list of literals spans, where each has a domain value.
pub fn domain_from_values(values: &Vec<Value>) -> (r: Option<Domain>)
    ensures
        match r {
            Some(domain) => all_domain_values(value_views(values@)) && domain@ == domain_of(
                value_views(values@),
                values@.len(),
            ),
            None => !all_domain_values(value_views(values@)),
        },
{
    let mut domain = Domain::new();
    let mut i: usize = 0;
    while i < values.len()
        invariant
            i <= values@.len(),
            forall|k: int|
                0 <= k < i ==> domain_value(#[trigger] value_views(values@)[k]) is Some,
            domain@ == domain_of(value_views(values@), i as nat),
        decreases values@.len() - i,
    {
        assert(value_views(values@)[i as int] == values@[i as int]@);
        match DomainValue::from_value(&values[i]) {
            Some(value) => {
                domain.insert(value);
            },
            None => {
                return None;
            },
        }
        i = i + 1;
    }
    Some(domain)
}

/// Domains proven of the columns of one relation.
#[derive(Debug)]
pub struct FiniteDomains {
    pub columns: BindingMap<Domain>,
}

impl View for FiniteDomains {
    type V = Map<ColumnBinding, Set<DomainValueView>>;

    open spec fn view(&self) -> Map<ColumnBinding, Set<DomainValueView>> {
        self.columns@.map_values(|d: Domain| d@)
    }
}

impl FiniteDomains {
    pub fn new() -> (r: FiniteDomains)
        ensures
            r@ == Map::<ColumnBinding, Set<DomainValueView>>::empty(),
    {
        let r = FiniteDomains { columns: BindingMap::new() };
        assert(r@ =~= Map::<ColumnBinding, Set<DomainValueView>>::empty());
        r
    }

    pub fn is_empty(&self) -> (r: bool)
        ensures
            r == (self@.dom() =~= Set::<ColumnBinding>::empty()),
    {
        assert(self@.dom() =~= self.columns@.dom());
        self.columns.is_empty()
    }

    pub fn get(&self, binding: &ColumnBinding) -> (r: Option<&Domain>)
        ensures
            match r {
                Some(d) => self@.contains_key(*binding) && self@[*binding] == d@,
                None => !self@.contains_key(*binding),
            },
    {
        self.columns.get(binding)
    }

    pub fn insert(&mut self, binding: ColumnBinding, domain: Domain)
        ensures
            final(self)@ == old(self)@.insert(binding, domain@),
    {
        self.columns.insert(binding, domain);
        assert(self@ =~= old(self)@.insert(binding, domain@));
    }

    /// Adds the domains of another relation; they replace those of the same
    /// columns.
    pub fn extend(&mut self, other: &FiniteDomains)
        ensures
            final(self)@ == old(self)@.union_prefer_right(other@),
    {
        let ghost before = self@;
        let entries: usize = other.columns.len();
        let mut i: usize = 0;
        while i < entries
            invariant
                i <= entries,
                entries == other.columns.sequence().len(),
                ordered(other.columns.sequence()),
                forall|k: int|
                    0 <= k < entries ==> other.columns@.contains_key(
                        (#[trigger] other.columns.sequence()[k]).0,
                    ) && other.columns@[other.columns.sequence()[k].0]
                        == other.columns.sequence()[k].1,
                forall|b: ColumnBinding| #[trigger]
                    self@.contains_key(b) <==> (before.contains_key(b) || exists|k: int|
                        0 <= k < i && (#[trigger] other.columns.sequence()[k]).0 == b),
                forall|k: int|
                    0 <= k < i ==> self@[(#[trigger] other.columns.sequence()[k]).0]
                        == other.columns.sequence()[k].1@,
                forall|b: ColumnBinding|
                    before.contains_key(b) && (forall|k: int|
                        0 <= k < i ==> (#[trigger] other.columns.sequence()[k]).0 != b)
                        ==> #[trigger] self@[b] == before[b],
            decreases entries - i,
        {
            let ghost held = self@;
            let (binding, domain) = other.columns.entry(i);
            self.insert(binding, domain.copy());
            proof {
                assert forall|k: int| 0 <= k < i + 1 implies self@[(
                #[trigger] other.columns.sequence()[k]).0] == other.columns.sequence()[k].1@ by {
                    if k < i {
                        assert(other.columns.sequence()[k].0.spec_before(
                            other.columns.sequence()[i as int].0,
                        ));
                        assert(held[other.columns.sequence()[k].0]
                            == other.columns.sequence()[k].1@);
                    }
                }
                assert forall|b: ColumnBinding| #[trigger] self@.contains_key(b) <==> (
                before.contains_key(b) || exists|k: int|
                    0 <= k < i + 1 && (#[trigger] other.columns.sequence()[k]).0 == b) by {
                    assert(held.contains_key(b) <==> (before.contains_key(b) || exists|k: int|
                        0 <= k < i && (#[trigger] other.columns.sequence()[k]).0 == b));
                    if b == binding {
                        assert(other.columns.sequence()[i as int].0 == b);
                    }
                }
                assert forall|b: ColumnBinding|
                    before.contains_key(b) && (forall|k: int|
                        0 <= k < i + 1 ==> (#[trigger] other.columns.sequence()[k]).0
                            != b) implies #[trigger] self@[b] == before[b] by {
                    assert(other.columns.sequence()[i as int].0 != b);
                    assert(held[b] == before[b]);
                }
            }
            i = i + 1;
        }
        proof {
            let wanted = before.union_prefer_right(other@);
            assert forall|b: ColumnBinding| self@.contains_key(b) == wanted.contains_key(b) by {
                if other@.contains_key(b) {
                    let k = other.columns.lemma_position(b);
                    assert(other.columns.sequence()[k].0 == b);
                }
            }
            assert forall|b: ColumnBinding| self@.contains_key(b) implies self@[b] == wanted[b] by {
                if other@.contains_key(b) {
                    let k = other.columns.lemma_position(b);
                    assert(other.columns.sequence()[k].0 == b);
                }
            }
            assert(self@ =~= wanted);
        }
    }

    pub fn copy(&self) -> (r: FiniteDomains)
        ensures
            r@ == self@,
    {
        let mut r = FiniteDomains::new();
        r.extend(self);
        assert(r@ =~= self@);
        r
    }
}

/// Texts have the same domain value exactly where they are the same text, and never
/// that of another literal.
pub proof fn texts_have_their_own_values(a: Seq<char>, b: Seq<char>, other: Value)
    ensures
        domain_value(ValueView::Text(a)) is Some,
        domain_value(ValueView::Text(a)) == domain_value(ValueView::Text(b)) <==> a == b,
        domain_value(ValueView::Plain(other)) != domain_value(ValueView::Text(a)),
{
}

} // verus!
