//! Records: nested maps from field names to values.
//!
//! A [`Record`] keeps its fields in a vector whose names are pairwise
//! distinct; its view is the mathematical map from names to value models,
//! so the order in which fields are stored never shows in a contract.

use vstd::prelude::*;
use vstd::std_specs::cmp::PartialEqSpecImpl;

verus! {

/// The mathematical content of a [`Value`].
pub enum ValueModel {
    S(Seq<char>),
    N(Seq<char>),
    B(Seq<u8>),
    Bool(bool),
    Null(bool),
    Ss(Seq<Seq<char>>),
    Ns(Seq<Seq<char>>),
    Bs(Seq<Seq<u8>>),
    L(Seq<ValueModel>),
    M(Map<Seq<char>, ValueModel>),
    Unknown,
}

/// The mathematical content of a [`Record`].
pub type RecordModel = Map<Seq<char>, ValueModel>;

/// One stored value: a scalar, a set, a list, or a nested record.
#[derive(Debug)]
pub enum Value {
    /// A string.
    S(String),
    /// A number, in its decimal notation.
    N(String),
    /// Binary data.
    B(Vec<u8>),
    /// A boolean.
    Bool(bool),
    /// The null value.
    Null(bool),
    /// A set of strings.
    Ss(Vec<String>),
    /// A set of numbers.
    Ns(Vec<String>),
    /// A set of binary values.
    Bs(Vec<Vec<u8>>),
    /// A list of values.
    L(Vec<Value>),
    /// A nested record.
    M(Record),
    /// A value of a kind that this library does not know.
    Unknown,
}

/// A named value inside a record.
#[derive(Debug)]
struct Field {
    name: String,
    value: Value,
}

/// A mapping from field names to values.
#[derive(Debug)]
pub struct Record {
    fields: Vec<Field>,
}

/// The views of a sequence of strings.
pub open spec fn strings_model(v: Seq<String>) -> Seq<Seq<char>> {
    Seq::new(v.len(), |i: int| v[i]@)
}

/// The views of a sequence of byte strings.
pub open spec fn blobs_model(v: Seq<Vec<u8>>) -> Seq<Seq<u8>> {
    Seq::new(v.len(), |i: int| v[i]@)
}

/// The models of a sequence of values.
pub open spec fn values_model(v: Seq<Value>) -> Seq<ValueModel>
    decreases v,
{
    Seq::new(v.len(), |i: int| if 0 <= i < v.len() { v[i]@ } else { ValueModel::Unknown })
}

/// The map that a sequence of fields stands for; of two fields with one
/// name the later one counts.
spec fn fields_model(fields: Seq<Field>) -> RecordModel
    decreases fields,
{
    if fields.len() == 0 {
        Map::empty()
    } else {
        fields_model(fields.drop_last()).insert(fields.last().name@, fields.last().value@)
    }
}

/// No two fields of the sequence have the same name.
spec fn distinct_names(fields: Seq<Field>) -> bool {
    forall|i: int, j: int|
        0 <= i < j < fields.len() ==> (#[trigger] fields[i]).name@ != (#[trigger] fields[j]).name@
}

impl View for Value {
    type V = ValueModel;

    open spec fn view(&self) -> ValueModel
        decreases self,
    {
        match self {
            Value::S(s) => ValueModel::S(s@),
            Value::N(s) => ValueModel::N(s@),
            Value::B(b) => ValueModel::B(b@),
            Value::Bool(b) => ValueModel::Bool(*b),
            Value::Null(b) => ValueModel::Null(*b),
            Value::Ss(v) => ValueModel::Ss(strings_model(v@)),
            Value::Ns(v) => ValueModel::Ns(strings_model(v@)),
            Value::Bs(v) => ValueModel::Bs(blobs_model(v@)),
            Value::L(v) => ValueModel::L(values_model(v@)),
            Value::M(r) => ValueModel::M(r@),
            Value::Unknown => ValueModel::Unknown,
        }
    }
}

impl View for Record {
    type V = RecordModel;

    closed spec fn view(&self) -> RecordModel
        decreases self,
    {
        fields_model(self.fields@)
    }
}

/// The map has finitely many keys, and so has every map nested in it as the
/// value of a key, at any depth.
pub open spec fn deeply_finite(m: RecordModel) -> bool
    decreases m,
{
    m.dom().finite() && forall|k: Seq<char>|
        m.dom().contains(k) ==> ((#[trigger] m[k]) matches ValueModel::M(inner)
            ==> deeply_finite(inner))
}

/// `==` on string slices compares their characters.
pub assume_specification[ <str as PartialEq>::eq ](a: &str, b: &str) -> (r: bool)
    ensures
        r == (a@ == b@),
;

/// The names of a sequence of fields are exactly the keys of its map.
proof fn lemma_model_dom(fields: Seq<Field>)
    ensures
        fields_model(fields).dom().finite(),
        forall|k: Seq<char>|
            (#[trigger] fields_model(fields).dom().contains(k)) <==> exists|i: int|
                0 <= i < fields.len() && (#[trigger] fields[i]).name@ == k,
    decreases fields.len(),
{
    reveal_with_fuel(fields_model, 2);
    if fields.len() > 0 {
        let init = fields.drop_last();
        lemma_model_dom(init);
        assert forall|k: Seq<char>| (#[trigger] fields_model(fields).dom().contains(k)) implies exists|i: int|
            0 <= i < fields.len() && (#[trigger] fields[i]).name@ == k by {
            if k == fields.last().name@ {
                assert(fields[fields.len() - 1].name@ == k);
            } else {
                let i = choose|i: int| 0 <= i < init.len() && (#[trigger] init[i]).name@ == k;
                assert(fields[i].name@ == k);
            }
        }
        assert forall|k: Seq<char>|
            (exists|i: int|
                0 <= i < fields.len() && (#[trigger] fields[i]).name@
                    == k) implies (#[trigger] fields_model(fields).dom().contains(k)) by {
            let i = choose|i: int| 0 <= i < fields.len() && (#[trigger] fields[i]).name@ == k;
            if i < fields.len() - 1 {
                assert(init[i].name@ == k);
            }
        }
    }
}

/// Where names are distinct, each field's name is mapped to its value.
proof fn lemma_model_at(fields: Seq<Field>, i: int)
    requires
        distinct_names(fields),
        0 <= i < fields.len(),
    ensures
        fields_model(fields).dom().contains(fields[i].name@),
        fields_model(fields)[fields[i].name@] == fields[i].value@,
    decreases fields.len(),
{
    reveal_with_fuel(fields_model, 2);
    let init = fields.drop_last();
    if i < fields.len() - 1 {
        assert(distinct_names(init)) by {
            assert forall|a: int, b: int| 0 <= a < b < init.len() implies (#[trigger] init[a]).name@
                != (#[trigger] init[b]).name@ by {
                assert(fields[a].name@ != fields[b].name@);
            }
        }
        lemma_model_at(init, i);
        assert(init[i] == fields[i]);
        assert(fields[i].name@ != fields[fields.len() - 1].name@);
    }
}

/// A name that no field has is no key of the map.
proof fn lemma_model_absent(fields: Seq<Field>, name: Seq<char>)
    requires
        forall|i: int| 0 <= i < fields.len() ==> (#[trigger] fields[i]).name@ != name,
    ensures
        !fields_model(fields).dom().contains(name),
{
    lemma_model_dom(fields);
}

/// Taking one field out of a sequence with distinct names removes its key.
proof fn lemma_model_remove(fields: Seq<Field>, i: int)
    requires
        distinct_names(fields),
        0 <= i < fields.len(),
    ensures
        distinct_names(fields.remove(i)),
        fields_model(fields.remove(i)) == fields_model(fields).remove(fields[i].name@),
{
    let rest = fields.remove(i);
    let name = fields[i].name@;
    assert forall|a: int, b: int| 0 <= a < b < rest.len() implies (#[trigger] rest[a]).name@ != (
    #[trigger] rest[b]).name@ by {
        let a0 = if a < i { a } else { a + 1 };
        let b0 = if b < i { b } else { b + 1 };
        assert(fields[a0].name@ != fields[b0].name@);
    }
    lemma_model_dom(fields);
    lemma_model_dom(rest);
    let lhs = fields_model(rest);
    let rhs = fields_model(fields).remove(name);
    assert forall|k: Seq<char>| lhs.dom().contains(k) <==> rhs.dom().contains(k) by {
        if lhs.dom().contains(k) {
            let a = choose|a: int| 0 <= a < rest.len() && (#[trigger] rest[a]).name@ == k;
            let a0 = if a < i { a } else { a + 1 };
            assert(fields[a0].name@ == k);
            assert(fields[a0].name@ != fields[i].name@) by {
                if a0 < i {
                    assert(fields[a0].name@ != fields[i].name@);
                } else {
                    assert(fields[i].name@ != fields[a0].name@);
                }
            }
        }
        if rhs.dom().contains(k) {
            let a0 = choose|a0: int| 0 <= a0 < fields.len() && (#[trigger] fields[a0]).name@ == k;
            let a = if a0 < i { a0 } else { a0 - 1 };
            assert(rest[a].name@ == k);
        }
    }
    assert forall|k: Seq<char>| lhs.dom().contains(k) implies lhs[k] == rhs[k] by {
        let a = choose|a: int| 0 <= a < rest.len() && (#[trigger] rest[a]).name@ == k;
        let a0 = if a < i { a } else { a + 1 };
        lemma_model_at(rest, a);
        lemma_model_at(fields, a0);
    }
    assert(lhs =~= rhs);
}

/// Sequences that agree field by field in the models stand for the same map.
proof fn lemma_model_same(a: Seq<Field>, b: Seq<Field>)
    requires
        a.len() == b.len(),
        forall|j: int|
            0 <= j < a.len() ==> (#[trigger] a[j]).name@ == b[j].name@ && a[j].value@
                == b[j].value@,
    ensures
        fields_model(a) == fields_model(b),
    decreases a.len(),
{
    reveal_with_fuel(fields_model, 2);
    if a.len() > 0 {
        lemma_model_same(a.drop_last(), b.drop_last());
        assert(a[a.len() - 1].name@ == b[a.len() - 1].name@);
    }
}

/// The map of a sequence of fields is finite at every depth.
proof fn lemma_fields_deeply_finite(fields: Seq<Field>)
    ensures
        deeply_finite(fields_model(fields)),
    decreases fields,
{
    reveal_with_fuel(fields_model, 2);
    lemma_model_dom(fields);
    let m = fields_model(fields);
    if fields.len() > 0 {
        let init = fields.drop_last();
        let last = fields.last();
        lemma_fields_deeply_finite(init);
        assert forall|k: Seq<char>| m.dom().contains(k) implies ((#[trigger] m[k]) matches ValueModel::M(
            inner,
        ) ==> deeply_finite(inner)) by {
            if k == last.name@ {
                assert(m[k] == last.value@);
                match last.value {
                    Value::M(r) => {
                        lemma_fields_deeply_finite(r.fields@);
                        assert(last.value@ == ValueModel::M(r@));
                    },
                    _ => {
                        assert(!(last.value@ is M));
                    },
                }
            } else {
                assert(fields_model(init).dom().contains(k));
                assert(m[k] == fields_model(init)[k]);
            }
        }
    }
}

/// A sequence with distinct names has as many keys as fields.
proof fn lemma_model_len(fields: Seq<Field>)
    requires
        distinct_names(fields),
    ensures
        fields_model(fields).dom().finite(),
        fields_model(fields).dom().len() == fields.len(),
    decreases fields.len(),
{
    reveal_with_fuel(fields_model, 2);
    lemma_model_dom(fields);
    if fields.len() > 0 {
        let init = fields.drop_last();
        assert(distinct_names(init)) by {
            assert forall|a: int, b: int| 0 <= a < b < init.len() implies (#[trigger] init[a]).name@
                != (#[trigger] init[b]).name@ by {
                assert(fields[a].name@ != fields[b].name@);
            }
        }
        lemma_model_len(init);
        lemma_model_dom(init);
        assert(!fields_model(init).dom().contains(fields.last().name@)) by {
            if fields_model(init).dom().contains(fields.last().name@) {
                let i = choose|i: int|
                    0 <= i < init.len() && (#[trigger] init[i]).name@ == fields.last().name@;
                assert(fields[i].name@ != fields[fields.len() - 1].name@);
            }
        }
    }
}

/// A key that the map lacks is the name of no field.
proof fn lemma_model_absent_names(fields: Seq<Field>, name: Seq<char>)
    requires
        !fields_model(fields).dom().contains(name),
    ensures
        forall|i: int| 0 <= i < fields.len() ==> (#[trigger] fields[i]).name@ != name,
{
    lemma_model_dom(fields);
}

impl Record {
    #[verifier::type_invariant]
    spec fn names_are_distinct(self) -> bool {
        distinct_names(self.fields@)
    }

    /// The record without fields.
    pub fn new() -> (r: Record)
        ensures
            r@ == Map::<Seq<char>, ValueModel>::empty(),
    {
        Record { fields: Vec::new() }
    }

    /// The view of a record is finite at every depth.
    pub proof fn lemma_deeply_finite(self)
        ensures
            deeply_finite(self@),
    {
        lemma_fields_deeply_finite(self.fields@);
    }

    /// The number of fields.
    pub fn len(&self) -> (n: usize)
        ensures
            n == self@.dom().len(),
    {
        proof {
            use_type_invariant(self);
            lemma_model_len(self.fields@);
        }
        self.fields.len()
    }

    /// Moves the fields out and leaves the record empty.
    fn take_fields(&mut self) -> (fields: Vec<Field>)
        ensures
            fields == old(self).fields,
            final(self).fields@.len() == 0,
    {
        let mut taken = Record { fields: Vec::new() };
        core::mem::swap(self, &mut taken);
        taken.fields
    }

    /// Where the field of that name is stored, if there is one.
    fn position(&self, name: &str) -> (r: Option<usize>)
        ensures
            match r {
                Some(i) => i < self.fields.len() && self.fields[i as int].name@ == name@,
                None => forall|j: int|
                    0 <= j < self.fields.len() ==> (#[trigger] self.fields[j]).name@ != name@,
            },
    {
        let mut i: usize = 0;
        while i < self.fields.len()
            invariant
                i <= self.fields.len(),
                forall|j: int| 0 <= j < i ==> (#[trigger] self.fields[j]).name@ != name@,
            decreases self.fields.len() - i,
        {
            if *self.fields[i].name.as_str() == *name {
                return Some(i);
            }
            i += 1;
        }
        None
    }

    /// Whether the record has a field of that name.
    pub fn contains_key(&self, name: &str) -> (r: bool)
        ensures
            r == self@.dom().contains(name@),
    {
        let found = self.position(name);
        proof {
            use_type_invariant(self);
            match found {
                Some(i) => lemma_model_at(self.fields@, i as int),
                None => lemma_model_absent(self.fields@, name@),
            }
        }
        found.is_some()
    }

    /// The value of the field of that name.
    pub fn get(&self, name: &str) -> (r: Option<&Value>)
        ensures
            r is Some == self@.dom().contains(name@),
            r matches Some(v) ==> v@ == self@[name@],
    {
        let found = self.position(name);
        proof {
            use_type_invariant(self);
            match found {
                Some(i) => lemma_model_at(self.fields@, i as int),
                None => lemma_model_absent(self.fields@, name@),
            }
        }
        match found {
            Some(i) => Some(&self.fields[i].value),
            None => None,
        }
    }

    /// Takes the field of that name out of the record and returns its value.
    pub fn remove(&mut self, name: &str) -> (r: Option<Value>)
        ensures
            final(self)@ == old(self)@.remove(name@),
            r is Some == old(self)@.dom().contains(name@),
            r matches Some(v) ==> v@ == old(self)@[name@],
    {
        let found = self.position(name);
        proof {
            use_type_invariant(&*self);
            match found {
                Some(i) => {
                    lemma_model_at(self.fields@, i as int);
                    lemma_model_remove(self.fields@, i as int);
                },
                None => {
                    lemma_model_absent(self.fields@, name@);
                    assert(self@.remove(name@) =~= self@);
                },
            }
        }
        match found {
            Some(i) => {
                let mut fields = self.take_fields();
                let field = fields.remove(i);
                *self = Record { fields };
                Some(field.value)
            },
            None => None,
        }
    }

    /// Stores the value under the name and returns the value that the name
    /// had before, if it had one.
    pub fn insert(&mut self, name: String, value: Value) -> (r: Option<Value>)
        ensures
            final(self)@ == old(self)@.insert(name@, value@),
            r is Some == old(self)@.dom().contains(name@),
            r matches Some(v) ==> v@ == old(self)@[name@],
    {
        let before = self.remove(name.as_str());
        proof {
            use_type_invariant(&*self);
            reveal_with_fuel(fields_model, 2);
            lemma_model_absent_names(self.fields@, name@);
            assert(self.fields@.push(Field { name, value }).drop_last() =~= self.fields@);
            assert(old(self)@.remove(name@).insert(name@, value@) =~= old(self)@.insert(
                name@,
                value@,
            ));
        }
        let mut fields = self.take_fields();
        fields.push(Field { name, value });
        *self = Record { fields };
        before
    }
}

/// Whether two byte strings hold the same bytes.
fn same_bytes(a: &Vec<u8>, b: &Vec<u8>) -> (r: bool)
    ensures
        r == (a@ == b@),
{
    if a.len() != b.len() {
        return false;
    }
    let mut i: usize = 0;
    while i < a.len()
        invariant
            i <= a.len(),
            a.len() == b.len(),
            forall|j: int| 0 <= j < i ==> a[j] == b[j],
        decreases a.len() - i,
    {
        if a[i] != b[i] {
            return false;
        }
        i += 1;
    }
    assert(a@ =~= b@);
    true
}

/// Whether two lists hold the same strings in the same order.
fn same_strings(a: &Vec<String>, b: &Vec<String>) -> (r: bool)
    ensures
        r == (strings_model(a@) == strings_model(b@)),
{
    if a.len() != b.len() {
        assert(strings_model(a@).len() != strings_model(b@).len());
        return false;
    }
    let mut i: usize = 0;
    while i < a.len()
        invariant
            i <= a.len(),
            a.len() == b.len(),
            forall|j: int| 0 <= j < i ==> a[j]@ == b[j]@,
        decreases a.len() - i,
    {
        if a[i] != b[i] {
            assert(strings_model(a@)[i as int] != strings_model(b@)[i as int]);
            return false;
        }
        i += 1;
    }
    assert(strings_model(a@) =~= strings_model(b@));
    true
}

/// Whether two lists hold the same byte strings in the same order.
fn same_blobs(a: &Vec<Vec<u8>>, b: &Vec<Vec<u8>>) -> (r: bool)
    ensures
        r == (blobs_model(a@) == blobs_model(b@)),
{
    if a.len() != b.len() {
        assert(blobs_model(a@).len() != blobs_model(b@).len());
        return false;
    }
    let mut i: usize = 0;
    while i < a.len()
        invariant
            i <= a.len(),
            a.len() == b.len(),
            forall|j: int| 0 <= j < i ==> a[j]@ == b[j]@,
        decreases a.len() - i,
    {
        if !same_bytes(&a[i], &b[i]) {
            assert(blobs_model(a@)[i as int] != blobs_model(b@)[i as int]);
            return false;
        }
        i += 1;
    }
    assert(blobs_model(a@) =~= blobs_model(b@));
    true
}

/// Whether two lists hold equal values in the same order.
fn same_values(a: &Vec<Value>, b: &Vec<Value>) -> (r: bool)
    ensures
        r == (values_model(a@) == values_model(b@)),
    decreases a, 0nat,
{
    if a.len() != b.len() {
        assert(values_model(a@).len() != values_model(b@).len());
        return false;
    }
    let mut i: usize = 0;
    while i < a.len()
        invariant
            i <= a.len(),
            a.len() == b.len(),
            forall|j: int| 0 <= j < i ==> a[j]@ == b[j]@,
        decreases a.len() - i,
    {
        if !a[i].equals(&b[i]) {
            assert(values_model(a@)[i as int] != values_model(b@)[i as int]);
            return false;
        }
        i += 1;
    }
    assert(values_model(a@) =~= values_model(b@));
    true
}

impl Value {
    /// Whether the two values are equal; nested records are compared as
    /// maps, whatever the order of their fields.
    pub fn equals(&self, other: &Value) -> (r: bool)
        ensures
            r == (self@ == other@),
        decreases self, 0nat,
    {
        match (self, other) {
            (Value::S(a), Value::S(b)) => *a == *b,
            (Value::N(a), Value::N(b)) => *a == *b,
            (Value::B(a), Value::B(b)) => same_bytes(a, b),
            (Value::Bool(a), Value::Bool(b)) => *a == *b,
            (Value::Null(a), Value::Null(b)) => *a == *b,
            (Value::Ss(a), Value::Ss(b)) => same_strings(a, b),
            (Value::Ns(a), Value::Ns(b)) => same_strings(a, b),
            (Value::Bs(a), Value::Bs(b)) => same_blobs(a, b),
            (Value::L(a), Value::L(b)) => same_values(a, b),
            (Value::M(a), Value::M(b)) => a.equals(b),
            (Value::Unknown, Value::Unknown) => true,
            _ => false,
        }
    }
}

impl Record {
    /// Whether each field of `self` is a field of `other` with an equal value.
    fn included_in(&self, other: &Record) -> (r: bool)
        ensures
            r == (forall|k: Seq<char>|
                (#[trigger] self@.dom().contains(k)) ==> other@.dom().contains(k) && self@[k]
                    == other@[k]),
        decreases self, 0nat,
    {
        proof {
            use_type_invariant(self);
            lemma_model_dom(self.fields@);
        }
        let mut i: usize = 0;
        while i < self.fields.len()
            invariant
                i <= self.fields.len(),
                distinct_names(self.fields@),
                forall|j: int|
                    0 <= j < i ==> other@.dom().contains((#[trigger] self.fields[j]).name@)
                        && other@[self.fields[j].name@] == self.fields[j].value@,
            decreases self.fields.len() - i,
        {
            proof {
                lemma_model_at(self.fields@, i as int);
            }
            match other.get(self.fields[i].name.as_str()) {
                Some(v) => {
                    if !self.fields[i].value.equals(v) {
                        assert(self@.dom().contains(self.fields[i as int].name@));
                        return false;
                    }
                },
                None => {
                    assert(self@.dom().contains(self.fields[i as int].name@));
                    return false;
                },
            }
            i += 1;
        }
        proof {
            assert forall|k: Seq<char>| (#[trigger] self@.dom().contains(k)) implies other@.dom().contains(
                k,
            ) && self@[k] == other@[k] by {
                let j = choose|j: int|
                    0 <= j < self.fields.len() && (#[trigger] self.fields[j]).name@ == k;
                lemma_model_at(self.fields@, j);
            }
        }
        true
    }

    /// Whether the two records are the same map.
    pub fn equals(&self, other: &Record) -> (r: bool)
        ensures
            r == (self@ == other@),
        decreases self, 1nat,
    {
        let r = self.len() == other.len() && self.included_in(other);
        proof {
            use_type_invariant(self);
            use_type_invariant(other);
            lemma_model_dom(self.fields@);
            lemma_model_dom(other.fields@);
            if r {
                assert(self@.dom().subset_of(other@.dom()));
                vstd::set_lib::lemma_subset_equality(self@.dom(), other@.dom());
                assert(self@ =~= other@);
            }
        }
        r
    }
}

/// A copy of a byte string.
fn copy_bytes(a: &Vec<u8>) -> (r: Vec<u8>)
    ensures
        r@ == a@,
{
    let mut r: Vec<u8> = Vec::new();
    let mut i: usize = 0;
    while i < a.len()
        invariant
            i <= a.len(),
            r@ == a@.take(i as int),
        decreases a.len() - i,
    {
        r.push(a[i]);
        assert(a@.take(i + 1) =~= a@.take(i as int).push(a[i as int]));
        i += 1;
    }
    assert(a@.take(a.len() as int) =~= a@);
    r
}

/// A copy of a list of strings.
fn copy_strings(a: &Vec<String>) -> (r: Vec<String>)
    ensures
        strings_model(r@) == strings_model(a@),
{
    let mut r: Vec<String> = Vec::new();
    let mut i: usize = 0;
    while i < a.len()
        invariant
            i <= a.len(),
            r.len() == i,
            forall|j: int| 0 <= j < i ==> r[j]@ == a[j]@,
        decreases a.len() - i,
    {
        r.push(a[i].clone());
        i += 1;
    }
    assert(strings_model(r@) =~= strings_model(a@));
    r
}

/// A copy of a list of byte strings.
fn copy_blobs(a: &Vec<Vec<u8>>) -> (r: Vec<Vec<u8>>)
    ensures
        blobs_model(r@) == blobs_model(a@),
{
    let mut r: Vec<Vec<u8>> = Vec::new();
    let mut i: usize = 0;
    while i < a.len()
        invariant
            i <= a.len(),
            r.len() == i,
            forall|j: int| 0 <= j < i ==> r[j]@ == a[j]@,
        decreases a.len() - i,
    {
        r.push(copy_bytes(&a[i]));
        i += 1;
    }
    assert(blobs_model(r@) =~= blobs_model(a@));
    r
}

/// A copy of a list of values.
fn copy_values(a: &Vec<Value>) -> (r: Vec<Value>)
    ensures
        values_model(r@) == values_model(a@),
    decreases a, 0nat,
{
    let mut r: Vec<Value> = Vec::new();
    let mut i: usize = 0;
    while i < a.len()
        invariant
            i <= a.len(),
            r.len() == i,
            forall|j: int| 0 <= j < i ==> r[j]@ == a[j]@,
        decreases a.len() - i,
    {
        r.push(a[i].clone());
        i += 1;
    }
    assert(values_model(r@) =~= values_model(a@));
    r
}

impl Clone for Value {
    /// A copy with the same model.
    fn clone(&self) -> (r: Value)
        ensures
            r@ == self@,
        decreases self, 0nat,
    {
        match self {
            Value::S(a) => Value::S(a.clone()),
            Value::N(a) => Value::N(a.clone()),
            Value::B(a) => Value::B(copy_bytes(a)),
            Value::Bool(a) => Value::Bool(*a),
            Value::Null(a) => Value::Null(*a),
            Value::Ss(a) => Value::Ss(copy_strings(a)),
            Value::Ns(a) => Value::Ns(copy_strings(a)),
            Value::Bs(a) => Value::Bs(copy_blobs(a)),
            Value::L(a) => Value::L(copy_values(a)),
            Value::M(a) => Value::M(a.clone()),
            Value::Unknown => Value::Unknown,
        }
    }
}

impl Clone for Record {
    /// A copy with the same model.
    fn clone(&self) -> (r: Record)
        ensures
            r@ == self@,
        decreases self, 0nat,
    {
        proof {
            use_type_invariant(self);
        }
        let mut fields: Vec<Field> = Vec::new();
        let mut i: usize = 0;
        while i < self.fields.len()
            invariant
                i <= self.fields.len(),
                fields.len() == i,
                distinct_names(self.fields@),
                forall|j: int|
                    0 <= j < i ==> (#[trigger] fields[j]).name@ == self.fields[j].name@
                        && fields[j].value@ == self.fields[j].value@,
            decreases self.fields.len() - i,
        {
            let name = self.fields[i].name.clone();
            let value = self.fields[i].value.clone();
            fields.push(Field { name, value });
            i += 1;
        }
        proof {
            assert forall|a: int, b: int| 0 <= a < b < fields.len() implies (#[trigger] fields[a]).name@
                != (#[trigger] fields[b]).name@ by {
                assert(self.fields[a].name@ != self.fields[b].name@);
            }
            lemma_model_same(fields@, self.fields@);
        }
        Record { fields }
    }
}

impl Record {
    /// The names of the fields, each once.
    pub fn keys(&self) -> (names: Vec<String>)
        ensures
            names.len() == self@.dom().len(),
            forall|i: int| 0 <= i < names.len() ==> self@.dom().contains(#[trigger] names[i]@),
            forall|k: Seq<char>|
                self@.dom().contains(k) ==> exists|i: int|
                    0 <= i < names.len() && #[trigger] names[i]@ == k,
            forall|i: int, j: int| 0 <= i < j < names.len() ==> names[i]@ != names[j]@,
    {
        proof {
            use_type_invariant(self);
            lemma_model_dom(self.fields@);
            lemma_model_len(self.fields@);
        }
        let mut names: Vec<String> = Vec::new();
        let mut i: usize = 0;
        while i < self.fields.len()
            invariant
                i <= self.fields.len(),
                names.len() == i,
                forall|j: int| 0 <= j < i ==> (#[trigger] names[j])@ == self.fields[j].name@,
            decreases self.fields.len() - i,
        {
            names.push(self.fields[i].name.clone());
            i += 1;
        }
        proof {
            assert forall|k: Seq<char>| self@.dom().contains(k) implies exists|i: int|
                0 <= i < names.len() && #[trigger] names[i]@ == k by {
                let j = choose|j: int|
                    0 <= j < self.fields.len() && (#[trigger] self.fields[j]).name@ == k;
                assert(names[j]@ == k);
            }
            assert forall|a: int, b: int| 0 <= a < b < names.len() implies names[a]@
                != names[b]@ by {
                assert(self.fields[a].name@ != self.fields[b].name@);
            }
            assert forall|a: int| 0 <= a < names.len() implies self@.dom().contains(
                #[trigger] names[a]@,
            ) by {
                assert(self.fields[a].name@ == names[a]@);
            }
        }
        names
    }
}

impl PartialEq for Value {
    fn eq(&self, other: &Value) -> (r: bool) {
        self.equals(other)
    }
}

impl PartialEqSpecImpl for Value {
    open spec fn obeys_eq_spec() -> bool {
        true
    }

    open spec fn eq_spec(&self, other: &Value) -> bool {
        self@ == other@
    }
}

impl PartialEq for Record {
    fn eq(&self, other: &Record) -> (r: bool) {
        self.equals(other)
    }
}

impl PartialEqSpecImpl for Record {
    open spec fn obeys_eq_spec() -> bool {
        true
    }

    open spec fn eq_spec(&self, other: &Record) -> bool {
        self@ == other@
    }
}

} // verus!
