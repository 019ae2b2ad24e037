//! The value model: a closed set of value variants and the record built
//! from them.

use crate::vector::Vector;
use vstd::prelude::*;

verus! {

/// One value of the protocol.
#[derive(Debug)]
pub enum Value {
    Null,
    Bool(bool),
    /// A 64-bit signed integer.
    Integer(i64),
    /// A double-precision float, held as its IEEE-754 bit pattern.
    Float(u64),
    /// UTF-8 text.
    String(String),
    /// A raw octet sequence.
    Bytes(Vec<u8>),
    /// An embedding vector.
    Embedding(Vector),
    /// An encoded position, carried untouched.
    Spatial(Vec<u8>),
    /// An ordered sequence of values of any variants.
    Array(Vec<Value>),
    /// A nested record.
    Record(Record),
}

/// A named value inside a record.
#[derive(Debug)]
pub struct Field {
    pub name: String,
    pub value: Value,
}

/// An ordered mapping from field names to values: names are non-empty and
/// unique, and insertion order is kept.
#[derive(Debug)]
pub struct Record {
    fields: Vec<Field>,
}

/// The mathematical content of a [`Value`].
pub enum ValueModel {
    Null,
    Bool(bool),
    Integer(i64),
    Float(u64),
    Text(Seq<char>),
    Bytes(Seq<u8>),
    Embedding(Seq<u32>),
    Spatial(Seq<u8>),
    Array(Seq<ValueModel>),
    Record(Seq<FieldModel>),
}

/// The mathematical content of a [`Field`].
pub struct FieldModel {
    pub name: Seq<char>,
    pub value: ValueModel,
}

/// Why a field could not be added to a record.
#[derive(Clone, Copy, Debug, PartialEq, Eq, Structural)]
pub enum RecordError {
    /// The field name is the empty string.
    EmptyName,
    /// The record already has a field of that name.
    DuplicateField,
}

/// The content of a value: arrays and records item by item.
pub open spec fn value_model(v: Value) -> ValueModel
    decreases v,
{
    match v {
        Value::Null => ValueModel::Null,
        Value::Bool(b) => ValueModel::Bool(b),
        Value::Integer(i) => ValueModel::Integer(i),
        Value::Float(bits) => ValueModel::Float(bits),
        Value::String(s) => ValueModel::Text(s@),
        Value::Bytes(b) => ValueModel::Bytes(b@),
        Value::Embedding(e) => ValueModel::Embedding(e@),
        Value::Spatial(b) => ValueModel::Spatial(b@),
        Value::Array(items) => ValueModel::Array(
            Seq::new(
                items@.len(),
                |i: int|
                    if 0 <= i < items@.len() {
                        value_model(items@[i])
                    } else {
                        ValueModel::Null
                    },
            ),
        ),
        Value::Record(r) => ValueModel::Record(record_model(r)),
    }
}

/// The content of a record: its fields in insertion order.
pub closed spec fn record_model(r: Record) -> Seq<FieldModel>
    decreases r,
{
    Seq::new(
        r.fields@.len(),
        |i: int|
            if 0 <= i < r.fields@.len() {
                FieldModel { name: r.fields@[i].name@, value: value_model(r.fields@[i].value) }
            } else {
                FieldModel { name: Seq::empty(), value: ValueModel::Null }
            },
    )
}

impl View for Value {
    type V = ValueModel;

    open spec fn view(&self) -> ValueModel {
        value_model(*self)
    }
}

impl View for Field {
    type V = FieldModel;

    open spec fn view(&self) -> FieldModel {
        FieldModel { name: self.name@, value: self.value@ }
    }
}

impl View for Record {
    type V = Seq<FieldModel>;

    open spec fn view(&self) -> Seq<FieldModel> {
        record_model(*self)
    }
}

/// No two fields share a name.
pub open spec fn names_distinct(fields: Seq<FieldModel>) -> bool {
    forall|i: int, j: int|
        0 <= i < j < fields.len() ==> (#[trigger] fields[i]).name != (#[trigger] fields[j]).name
}

/// Whether some field of `fields` is called `name`.
pub open spec fn has_name(fields: Seq<FieldModel>, name: Seq<char>) -> bool {
    exists|i: int| 0 <= i < fields.len() && (#[trigger] fields[i]).name == name
}

/// Every record inside the value, at any depth, has non-empty, unique names.
pub open spec fn value_wf(v: ValueModel) -> bool
    decreases v,
{
    match v {
        ValueModel::Array(items) => forall|i: int|
            0 <= i < items.len() ==> value_wf(#[trigger] items[i]),
        ValueModel::Record(fields) => record_wf(fields),
        _ => true,
    }
}

/// Names are non-empty and unique, here and in every nested record.
pub open spec fn record_wf(fields: Seq<FieldModel>) -> bool
    decreases fields,
{
    &&& names_distinct(fields)
    &&& forall|i: int|
        0 <= i < fields.len() ==> (#[trigger] fields[i]).name.len() > 0 && value_wf(
            fields[i].value,
        )
}

/// Every length inside the value is below 2^64, as the codecs write
/// lengths in 64 bits. This holds of every value in memory.
pub open spec fn value_fits(v: ValueModel) -> bool
    decreases v,
{
    match v {
        ValueModel::Text(t) => vstd::utf8::encode_utf8(t).len() <= u64::MAX,
        ValueModel::Bytes(b) => b.len() <= u64::MAX,
        ValueModel::Spatial(b) => b.len() <= u64::MAX,
        ValueModel::Embedding(w) => w.len() <= u64::MAX,
        ValueModel::Array(items) => items.len() <= u64::MAX && forall|i: int|
            0 <= i < items.len() ==> value_fits(#[trigger] items[i]),
        ValueModel::Record(fields) => fields_fit(fields),
        _ => true,
    }
}

/// Every length inside the record is below 2^64.
pub open spec fn fields_fit(fields: Seq<FieldModel>) -> bool
    decreases fields,
{
    &&& fields.len() <= u64::MAX
    &&& forall|i: int|
        0 <= i < fields.len() ==> vstd::utf8::encode_utf8((#[trigger] fields[i]).name).len() <= u64::MAX
            && value_fits(fields[i].value)
}
impl Value {
    /// Every record inside has non-empty, unique names.
    pub open spec fn wf(&self) -> bool {
        value_wf(self@)
    }

    /// A copy with the same content.
    pub fn duplicate(&self) -> (out: Value)
        ensures
            out@ == self@,
        decreases self@,
    {
        match self {
            Value::Null => Value::Null,
            Value::Bool(b) => Value::Bool(*b),
            Value::Integer(i) => Value::Integer(*i),
            Value::Float(bits) => Value::Float(*bits),
            Value::String(s) => Value::String(s.clone()),
            Value::Bytes(b) => Value::Bytes(vstd::slice::slice_to_vec(b.as_slice())),
            Value::Embedding(e) => Value::Embedding(Vector::from_f32_bits(e.as_f32_bits())),
            Value::Spatial(b) => Value::Spatial(vstd::slice::slice_to_vec(b.as_slice())),
            Value::Array(items) => {
                let mut copies: Vec<Value> = Vec::new();
                let ghost models = self@->Array_0;
                let mut i: usize = 0;
                while i < items.len()
                    invariant
                        i <= items@.len(),
                        self@ == ValueModel::Array(models),
                        models.len() == items@.len(),
                        forall|k: int|
                            0 <= k < items@.len() ==> models[k] == (#[trigger] items@[k])@,
                        copies@.len() == i,
                        forall|k: int| 0 <= k < i ==> (#[trigger] copies@[k])@ == models[k],
                    decreases items@.len() - i,
                {
                    proof {
                        assert(models[i as int] == items@[i as int]@);
                        assert(decreases_to!(self@ => self@->Array_0));
                        assert(decreases_to!(models => models[i as int]));
                    }
                    copies.push(items[i].duplicate());
                    i = i + 1;
                }
                let out = Value::Array(copies);
                proof {
                    assert(out@->Array_0 =~= models);
                }
                out
            },
            Value::Record(r) => {
                let mut fields: Vec<Field> = Vec::new();
                let ghost models = r@;
                let mut i: usize = 0;
                while i < r.fields.len()
                    invariant
                        i <= r.fields@.len(),
                        self@ == ValueModel::Record(models),
                        models == r@,
                        models.len() == r.fields@.len(),
                        fields@.len() == i,
                        forall|k: int| 0 <= k < i ==> (#[trigger] fields@[k])@ == models[k],
                    decreases r.fields@.len() - i,
                {
                    let f = &r.fields[i];
                    proof {
                        assert(f@ == models[i as int]);
                        assert(decreases_to!(self@ => self@->Record_0));
                        assert(decreases_to!(models => models[i as int]));
                        assert(decreases_to!(models[i as int] => models[i as int].value));
                    }
                    fields.push(Field { name: f.name.clone(), value: f.value.duplicate() });
                    i = i + 1;
                }
                let copy = Record { fields };
                proof {
                    assert(copy@ =~= models);
                }
                Value::Record(copy)
            },
        }
    }
}

impl Record {
    /// Names are non-empty and unique, here and in every nested record.
    pub open spec fn wf(&self) -> bool {
        record_wf(self@)
    }

    /// The record with no fields.
    pub fn new() -> (r: Record)
        ensures
            r@ == Seq::<FieldModel>::empty(),
            r.wf(),
    {
        let r = Record { fields: Vec::new() };
        proof {
            assert(r@ =~= Seq::<FieldModel>::empty());
        }
        r
    }

    /// A copy with the same fields in the same order.
    pub fn duplicate(&self) -> (out: Record)
        ensures
            out@ == self@,
    {
        let mut fields: Vec<Field> = Vec::new();
        let mut i: usize = 0;
        while i < self.fields.len()
            invariant
                i <= self.fields@.len(),
                fields@.len() == i,
                forall|k: int| 0 <= k < i ==> (#[trigger] fields@[k])@ == self@[k],
            decreases self.fields@.len() - i,
        {
            let f = &self.fields[i];
            proof {
                assert(f@ == self@[i as int]);
            }
            fields.push(Field { name: f.name.clone(), value: f.value.duplicate() });
            i = i + 1;
        }
        let out = Record { fields };
        proof {
            assert(out@ =~= self@);
        }
        out
    }

    /// The number of fields.
    pub fn len(&self) -> (n: usize)
        ensures
            n == self@.len(),
    {
        self.fields.len()
    }

    /// The `i`-th field in insertion order.
    pub fn field(&self, i: usize) -> (f: &Field)
        requires
            i < self@.len(),
        ensures
            f@ == self@[i as int],
    {
        &self.fields[i]
    }

    /// The position of the field called `name`, if there is one.
    pub fn position(&self, name: &str) -> (res: Option<usize>)
        ensures
            match res {
                Some(i) => i < self@.len() && self@[i as int].name == name@,
                None => !has_name(self@, name@),
            },
    {
        let mut i: usize = 0;
        while i < self.fields.len()
            invariant
                i <= self.fields@.len(),
                forall|j: int| 0 <= j < i ==> (#[trigger] self@[j]).name != name@,
            decreases self.fields@.len() - i,
        {
            if str_eq(self.fields[i].name.as_str(), name) {
                return Some(i);
            }
            i = i + 1;
        }
        None
    }

    /// The value of the field called `name`, if there is one.
    pub fn get(&self, name: &str) -> (res: Option<&Value>)
        ensures
            match res {
                Some(v) => exists|i: int|
                    0 <= i < self@.len() && (#[trigger] self@[i]).name == name@ && self@[i].value
                        == v@,
                None => !has_name(self@, name@),
            },
    {
        match self.position(name) {
            Some(i) => Some(&self.fields[i].value),
            None => None,
        }
    }

    /// Adds a field whose name is known to be non-empty and new.
    pub(crate) fn push_field(&mut self, name: String, value: Value)
        requires
            old(self).wf(),
            value.wf(),
            name@.len() > 0,
            !has_name(old(self)@, name@),
        ensures
            final(self).wf(),
            final(self)@ == old(self)@.push(FieldModel { name: name@, value: value@ }),
    {
        let ghost before = self@;
        let ghost added = FieldModel { name: name@, value: value@ };
        self.fields.push(Field { name, value });
        proof {
            assert(self@ =~= before.push(added));
            assert forall|i: int, j: int| 0 <= i < j < self@.len() implies (#[trigger] self@[i]).name
                != (#[trigger] self@[j]).name by {
                if j == before.len() {
                    assert(before[i].name != name@);
                }
            }
        }
    }

    /// Adds a field after the existing ones. An empty name and a name
    /// already present are refused, and the record is then left as it was.
    pub fn insert(&mut self, name: String, value: Value) -> (res: Result<(), RecordError>)
        requires
            old(self).wf(),
            value.wf(),
        ensures
            final(self).wf(),
            name@.len() == 0 ==> res == Err::<(), RecordError>(RecordError::EmptyName),
            name@.len() > 0 && has_name(old(self)@, name@) ==> res == Err::<(), RecordError>(
                RecordError::DuplicateField,
            ),
            name@.len() > 0 && !has_name(old(self)@, name@) ==> res is Ok,
            res is Ok ==> final(self)@ == old(self)@.push(
                FieldModel { name: name@, value: value@ },
            ),
            res is Err ==> final(self)@ == old(self)@,
    {
        if name.as_str().is_empty() {
            return Err(RecordError::EmptyName);
        }
        if self.position(name.as_str()).is_some() {
            return Err(RecordError::DuplicateField);
        }
        self.push_field(name, value);
        Ok(())
    }
}

/// Whether two strings hold the same characters.
pub fn str_eq(a: &str, b: &str) -> (same: bool)
    ensures
        same == (a@ == b@),
{
    let x = a.as_bytes();
    let y = b.as_bytes();
    proof {
        vstd::utf8::encode_utf8_decode_utf8(a@);
        vstd::utf8::encode_utf8_decode_utf8(b@);
    }
    if x.len() != y.len() {
        return false;
    }
    let mut i: usize = 0;
    while i < x.len()
        invariant
            i <= x@.len(),
            x@.len() == y@.len(),
            x@ == vstd::utf8::encode_utf8(a@),
            y@ == vstd::utf8::encode_utf8(b@),
            x@.subrange(0, i as int) == y@.subrange(0, i as int),
        decreases x@.len() - i,
    {
        if x[i] != y[i] {
            proof {
                assert(x@[i as int] != y@[i as int]);
            }
            return false;
        }
        proof {
            assert(x@.subrange(0, i + 1) =~= x@.subrange(0, i as int).push(x@[i as int]));
            assert(y@.subrange(0, i + 1) =~= y@.subrange(0, i as int).push(y@[i as int]));
        }
        i = i + 1;
    }
    proof {
        assert(x@ =~= x@.subrange(0, i as int));
        assert(y@ =~= y@.subrange(0, i as int));
    }
    true
}

/// Whether two byte strings hold the same bytes.
pub fn bytes_eq(a: &[u8], b: &[u8]) -> (same: bool)
    ensures
        same == (a@ == b@),
{
    if a.len() != b.len() {
        return false;
    }
    let mut i: usize = 0;
    while i < a.len()
        invariant
            i <= a@.len(),
            a@.len() == b@.len(),
            forall|j: int| 0 <= j < i ==> a@[j] == b@[j],
        decreases a@.len() - i,
    {
        if a[i] != b[i] {
            return false;
        }
        i = i + 1;
    }
    proof {
        assert(a@ =~= b@);
    }
    true
}

/// Whether two vectors hold the same bit patterns.
pub fn vector_eq(a: &Vector, b: &Vector) -> (same: bool)
    ensures
        same == (a@ == b@),
{
    let n = a.len();
    if n != b.len() {
        return false;
    }
    let mut i: usize = 0;
    while i < n
        invariant
            i <= n,
            n == a@.len(),
            n == b@.len(),
            forall|j: int| 0 <= j < i ==> a@[j] == b@[j],
        decreases n - i,
    {
        if a.get(i) != b.get(i) {
            return false;
        }
        i = i + 1;
    }
    proof {
        assert(a@ =~= b@);
    }
    true
}

fn fields_same(a: &Record, b: &Record) -> (same: bool)
    ensures
        same == (a@ == b@),
    decreases a@, 1nat,
{
    proof {
        assert(a@.len() == a.fields@.len());
        assert(b@.len() == b.fields@.len());
    }
    if a.fields.len() != b.fields.len() {
        return false;
    }
    let mut i: usize = 0;
    while i < a.fields.len()
        invariant
            i <= a.fields@.len(),
            a.fields@.len() == b.fields@.len(),
            a@.len() == a.fields@.len(),
            b@.len() == b.fields@.len(),
            forall|j: int| 0 <= j < i ==> a@[j] == b@[j],
        decreases a.fields@.len() - i,
    {
        let x = &a.fields[i];
        let y = &b.fields[i];
        proof {
            assert(x@ == a@[i as int]);
            assert(y@ == b@[i as int]);
            assert(decreases_to!(a@ => a@[i as int]));
            assert(decreases_to!(a@[i as int] => a@[i as int].value));
        }
        if !str_eq(x.name.as_str(), y.name.as_str()) {
            return false;
        }
        if !x.value.same(&y.value) {
            return false;
        }
        i = i + 1;
    }
    proof {
        assert(a@ =~= b@);
    }
    true
}

impl Value {
    /// Structural equality: the same variant with the same content, the
    /// items of an array and the fields of a record in the same order.
    pub fn same(&self, other: &Value) -> (b: bool)
        ensures
            b == (self@ == other@),
        decreases self@, 0nat,
    {
        match self {
            Value::Null => match other {
                Value::Null => true,
                _ => false,
            },
            Value::Bool(x) => match other {
                Value::Bool(y) => *x == *y,
                _ => false,
            },
            Value::Integer(x) => match other {
                Value::Integer(y) => *x == *y,
                _ => false,
            },
            Value::Float(x) => match other {
                Value::Float(y) => *x == *y,
                _ => false,
            },
            Value::String(x) => match other {
                Value::String(y) => str_eq(x.as_str(), y.as_str()),
                _ => false,
            },
            Value::Bytes(x) => match other {
                Value::Bytes(y) => bytes_eq(x.as_slice(), y.as_slice()),
                _ => false,
            },
            Value::Embedding(x) => match other {
                Value::Embedding(y) => vector_eq(x, y),
                _ => false,
            },
            Value::Spatial(x) => match other {
                Value::Spatial(y) => bytes_eq(x.as_slice(), y.as_slice()),
                _ => false,
            },
            Value::Array(xs) => match other {
                Value::Array(ys) => {
                    proof {
                        assert(self@->Array_0.len() == xs@.len());
                        assert(other@->Array_0.len() == ys@.len());
                    }
                    if xs.len() != ys.len() {
                        return false;
                    }
                    let ghost ma = self@->Array_0;
                    let ghost mb = other@->Array_0;
                    let mut i: usize = 0;
                    while i < xs.len()
                        invariant
                            i <= xs@.len(),
                            xs@.len() == ys@.len(),
                            self@ == ValueModel::Array(ma),
                            other@ == ValueModel::Array(mb),
                            ma.len() == xs@.len(),
                            mb.len() == ys@.len(),
                            forall|k: int| 0 <= k < xs@.len() ==> ma[k] == (#[trigger] xs@[k])@,
                            forall|k: int| 0 <= k < ys@.len() ==> mb[k] == (#[trigger] ys@[k])@,
                            forall|j: int| 0 <= j < i ==> ma[j] == mb[j],
                        decreases xs@.len() - i,
                    {
                        proof {
                            assert(ma[i as int] == xs@[i as int]@);
                            assert(mb[i as int] == ys@[i as int]@);
                            assert(decreases_to!(self@ => self@->Array_0));
                            assert(decreases_to!(ma => ma[i as int]));
                        }
                        if !xs[i].same(&ys[i]) {
                            return false;
                        }
                        i = i + 1;
                    }
                    proof {
                        assert(ma =~= mb);
                    }
                    true
                },
                _ => false,
            },
            Value::Record(r) => match other {
                Value::Record(s) => {
                    proof {
                        assert(decreases_to!(self@ => self@->Record_0));
                    }
                    fields_same(r, s)
                },
                _ => false,
            },
        }
    }
}

impl Record {
    /// Structural equality: the same fields with the same values in the
    /// same order.
    pub fn same(&self, other: &Record) -> (b: bool)
        ensures
            b == (self@ == other@),
    {
        fields_same(self, other)
    }
}

} // verus!
