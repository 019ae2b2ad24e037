//! The binary codec: a compact byte layout for records.
//!
//! A record on the wire is the four magic bytes `LNMP`, one version byte,
//! the number of fields, and then each field as its name followed by its
//! value. A value is one tag byte and a payload that depends on the tag.
//! Every count and length takes eight bytes, little-endian; text is UTF-8.

use crate::value::{
    fields_fit, has_name, record_wf, value_fits, value_wf, FieldModel, Record, Value, ValueModel,
};
use crate::vector::Vector;
use crate::wire::{
    bits_i64, bits_to_i64, get_le, i64_bits, i64_to_bits, le_decode, le_encode, lemma_le_decode_bound, lemma_le_decode_encode,
    lemma_le_encode_len, lemma_pow256_values, put_le,
};
use crate::strings::string_from_utf8;
use vstd::prelude::*;
use vstd::slice::{slice_subrange, slice_to_vec};
use vstd::utf8::{decode_utf8, encode_utf8, valid_utf8};

verus! {

/// The tag byte of null.
pub const TAG_NULL: u8 = 0;

/// The tag byte of a boolean.
pub const TAG_BOOL: u8 = 1;

/// The tag byte of an integer.
pub const TAG_INTEGER: u8 = 2;

/// The tag byte of a float.
pub const TAG_FLOAT: u8 = 3;

/// The tag byte of a string.
pub const TAG_STRING: u8 = 4;

/// The tag byte of a byte string.
pub const TAG_BYTES: u8 = 5;

/// The tag byte of an embedding.
pub const TAG_EMBEDDING: u8 = 6;

/// The tag byte of an encoded position.
pub const TAG_SPATIAL: u8 = 7;

/// The tag byte of an array.
pub const TAG_ARRAY: u8 = 8;

/// The tag byte of a nested record.
pub const TAG_RECORD: u8 = 9;

/// The format version that this codec writes and reads.
pub const VERSION: u8 = 1;

/// The magic bytes and the version.
pub open spec fn header_bytes() -> Seq<u8> {
    seq![0x4Cu8, 0x4Eu8, 0x4Du8, 0x50u8, VERSION]
}

/// A length in eight bytes, then the bytes themselves.
pub open spec fn blob_bytes(b: Seq<u8>) -> Seq<u8> {
    le_encode(b.len(), 8) + b
}

/// Each 32-bit word in four bytes, little-endian.
pub open spec fn words_bytes(words: Seq<u32>) -> Seq<u8>
    decreases words.len(),
{
    if words.len() == 0 {
        Seq::empty()
    } else {
        words_bytes(words.drop_last()) + le_encode(words.last() as nat, 4)
    }
}

/// The tag byte of a value and its payload.
pub open spec fn value_bytes(v: ValueModel) -> Seq<u8>
    decreases v,
{
    match v {
        ValueModel::Null => seq![TAG_NULL],
        ValueModel::Bool(b) => seq![
            TAG_BOOL,
            if b {
                1u8
            } else {
                0u8
            },
        ],
        ValueModel::Integer(i) => seq![TAG_INTEGER] + le_encode(i64_bits(i) as nat, 8),
        ValueModel::Float(bits) => seq![TAG_FLOAT] + le_encode(bits as nat, 8),
        ValueModel::Text(t) => seq![TAG_STRING] + blob_bytes(encode_utf8(t)),
        ValueModel::Bytes(b) => seq![TAG_BYTES] + blob_bytes(b),
        ValueModel::Embedding(w) => seq![TAG_EMBEDDING] + le_encode(w.len(), 8) + words_bytes(w),
        ValueModel::Spatial(b) => seq![TAG_SPATIAL] + blob_bytes(b),
        ValueModel::Array(items) => seq![TAG_ARRAY] + le_encode(items.len(), 8) + items_bytes(
            items,
        ),
        ValueModel::Record(fields) => seq![TAG_RECORD] + le_encode(fields.len(), 8) + fields_bytes(
            fields,
        ),
    }
}

/// The values one after another.
pub open spec fn items_bytes(items: Seq<ValueModel>) -> Seq<u8>
    decreases items,
{
    if items.len() == 0 {
        Seq::empty()
    } else {
        value_bytes(items[0]) + items_bytes(items.subrange(1, items.len() as int))
    }
}

/// A field: its name as a length-prefixed blob, then its value.
pub open spec fn field_bytes(f: FieldModel) -> Seq<u8>
    decreases f,
{
    blob_bytes(encode_utf8(f.name)) + value_bytes(f.value)
}

/// The fields one after another.
pub open spec fn fields_bytes(fields: Seq<FieldModel>) -> Seq<u8>
    decreases fields,
{
    if fields.len() == 0 {
        Seq::empty()
    } else {
        field_bytes(fields[0]) + fields_bytes(fields.subrange(1, fields.len() as int))
    }
}

/// The whole wire form of a record.
pub open spec fn record_bytes(fields: Seq<FieldModel>) -> Seq<u8> {
    header_bytes() + le_encode(fields.len(), 8) + fields_bytes(fields)
}

/// The bytes of a sequence of values with one more value at its end.
pub proof fn lemma_items_bytes_push(items: Seq<ValueModel>, v: ValueModel)
    ensures
        items_bytes(items.push(v)) == items_bytes(items) + value_bytes(v),
    decreases items.len(),
{
    let all = items.push(v);
    if items.len() == 0 {
        assert(all.subrange(1, all.len() as int) =~= Seq::<ValueModel>::empty());
        assert(items_bytes(Seq::<ValueModel>::empty()) =~= Seq::<u8>::empty());
        assert(items_bytes(all) =~= value_bytes(v));
        assert(items_bytes(items) + value_bytes(v) =~= value_bytes(v));
    } else {
        let rest = items.subrange(1, items.len() as int);
        lemma_items_bytes_push(rest, v);
        assert(all.subrange(1, all.len() as int) =~= rest.push(v));
        assert(items_bytes(all) =~= items_bytes(items) + value_bytes(v));
    }
}

/// The bytes of a sequence of fields with one more field at its end.
pub proof fn lemma_fields_bytes_push(fields: Seq<FieldModel>, f: FieldModel)
    ensures
        fields_bytes(fields.push(f)) == fields_bytes(fields) + field_bytes(f),
    decreases fields.len(),
{
    let all = fields.push(f);
    if fields.len() == 0 {
        assert(all.subrange(1, all.len() as int) =~= Seq::<FieldModel>::empty());
        assert(fields_bytes(Seq::<FieldModel>::empty()) =~= Seq::<u8>::empty());
        assert(fields_bytes(all) =~= field_bytes(f));
        assert(fields_bytes(fields) + field_bytes(f) =~= field_bytes(f));
    } else {
        let rest = fields.subrange(1, fields.len() as int);
        lemma_fields_bytes_push(rest, f);
        assert(all.subrange(1, all.len() as int) =~= rest.push(f));
        assert(fields_bytes(all) =~= fields_bytes(fields) + field_bytes(f));
    }
}

/// Appends a copy of `src`.
pub fn append_bytes(out: &mut Vec<u8>, src: &[u8])
    ensures
        final(out)@ == old(out)@ + src@,
{
    let mut i: usize = 0;
    while i < src.len()
        invariant
            i <= src@.len(),
            out@ == old(out)@ + src@.subrange(0, i as int),
        decreases src@.len() - i,
    {
        out.push(src[i]);
        proof {
            assert(out@ =~= old(out)@ + src@.subrange(0, i + 1));
        }
        i = i + 1;
    }
    proof {
        assert(src@.subrange(0, i as int) =~= src@);
    }
}

fn put_blob(out: &mut Vec<u8>, src: &[u8])
    ensures
        final(out)@ == old(out)@ + blob_bytes(src@),
{
    put_le(out, src.len() as u64, 8);
    append_bytes(out, src);
    proof {
        assert(out@ =~= old(out)@ + blob_bytes(src@));
    }
}

fn put_words(out: &mut Vec<u8>, v: &Vector)
    ensures
        final(out)@ == old(out)@ + words_bytes(v@),
{
    let n = v.len();
    let mut i: usize = 0;
    while i < n
        invariant
            i <= n,
            n == v@.len(),
            out@ == old(out)@ + words_bytes(v@.subrange(0, i as int)),
        decreases n - i,
    {
        put_le(out, v.get(i) as u64, 4);
        proof {
            let next = v@.subrange(0, i + 1);
            assert(next.drop_last() =~= v@.subrange(0, i as int));
            assert(out@ =~= old(out)@ + words_bytes(next));
        }
        i = i + 1;
    }
    proof {
        assert(v@.subrange(0, i as int) =~= v@);
    }
}

fn put_value(out: &mut Vec<u8>, v: &Value)
    ensures
        final(out)@ == old(out)@ + value_bytes(v@),
    decreases v@,
{
    match v {
        Value::Null => {
            out.push(TAG_NULL);
            proof {
                assert(out@ =~= old(out)@ + value_bytes(v@));
            }
        },
        Value::Bool(b) => {
            out.push(TAG_BOOL);
            out.push(
                if *b {
                    1u8
                } else {
                    0u8
                },
            );
            proof {
                assert(out@ =~= old(out)@ + value_bytes(v@));
            }
        },
        Value::Integer(i) => {
            out.push(TAG_INTEGER);
            put_le(out, i64_to_bits(*i), 8);
            proof {
                assert(out@ =~= old(out)@ + value_bytes(v@));
            }
        },
        Value::Float(bits) => {
            out.push(TAG_FLOAT);
            put_le(out, *bits, 8);
            proof {
                assert(out@ =~= old(out)@ + value_bytes(v@));
            }
        },
        Value::String(s) => {
            out.push(TAG_STRING);
            put_blob(out, s.as_str().as_bytes());
            proof {
                assert(out@ =~= old(out)@ + value_bytes(v@));
            }
        },
        Value::Bytes(b) => {
            out.push(TAG_BYTES);
            put_blob(out, b.as_slice());
            proof {
                assert(out@ =~= old(out)@ + value_bytes(v@));
            }
        },
        Value::Embedding(e) => {
            out.push(TAG_EMBEDDING);
            put_le(out, e.len() as u64, 8);
            put_words(out, e);
            proof {
                assert(out@ =~= old(out)@ + value_bytes(v@));
            }
        },
        Value::Spatial(b) => {
            out.push(TAG_SPATIAL);
            put_blob(out, b.as_slice());
            proof {
                assert(out@ =~= old(out)@ + value_bytes(v@));
            }
        },
        Value::Array(items) => {
            out.push(TAG_ARRAY);
            put_le(out, items.len() as u64, 8);
            let ghost start = out@;
            let ghost models = v@->Array_0;
            let mut i: usize = 0;
            while i < items.len()
                invariant
                    i <= items@.len(),
                    v@ == ValueModel::Array(models),
                    models.len() == items@.len(),
                    forall|k: int| 0 <= k < items@.len() ==> models[k] == (#[trigger] items@[k])@,
                    out@ == start + items_bytes(models.subrange(0, i as int)),
                decreases items@.len() - i,
            {
                proof {
                    assert(models[i as int] == items@[i as int]@);
                    assert(decreases_to!(v@ => v@->Array_0));
                    assert(decreases_to!(models => models[i as int]));
                }
                put_value(out, &items[i]);
                proof {
                    lemma_items_bytes_push(models.subrange(0, i as int), models[i as int]);
                    assert(models.subrange(0, i + 1) =~= models.subrange(0, i as int).push(
                        models[i as int],
                    ));
                }
                i = i + 1;
            }
            proof {
                assert(models.subrange(0, i as int) =~= models);
                assert(out@ =~= old(out)@ + value_bytes(v@));
            }
        },
        Value::Record(r) => {
            out.push(TAG_RECORD);
            put_le(out, r.len() as u64, 8);
            let ghost start = out@;
            let ghost models = r@;
            let mut i: usize = 0;
            while i < r.len()
                invariant
                    i <= r@.len(),
                    v@ == ValueModel::Record(models),
                    models == r@,
                    out@ == start + fields_bytes(models.subrange(0, i as int)),
                decreases r@.len() - i,
            {
                let f = r.field(i);
                proof {
                    assert(decreases_to!(v@ => v@->Record_0));
                    assert(decreases_to!(models => models[i as int]));
                    assert(decreases_to!(models[i as int] => models[i as int].value));
                }
                put_blob(out, f.name.as_str().as_bytes());
                put_value(out, &f.value);
                proof {
                    lemma_fields_bytes_push(models.subrange(0, i as int), models[i as int]);
                    assert(models.subrange(0, i + 1) =~= models.subrange(0, i as int).push(
                        models[i as int],
                    ));
                    assert(out@ =~= start + fields_bytes(models.subrange(0, i + 1)));
                }
                i = i + 1;
            }
            proof {
                assert(models.subrange(0, i as int) =~= models);
                assert(out@ =~= old(out)@ + value_bytes(v@));
            }
        },
    }
}

/// Writes records in the binary form.
pub struct BinaryEncoder {}

impl BinaryEncoder {
    /// An encoder; it has no settings.
    pub fn new() -> (e: BinaryEncoder) {
        BinaryEncoder {  }
    }

    /// The wire form of `record`. The bytes depend on nothing but the
    /// record's content, so equal records give equal bytes.
    pub fn encode(&self, record: &Record) -> (bytes: Vec<u8>)
        ensures
            bytes@ == record_bytes(record@),
    {
        let mut out: Vec<u8> = Vec::new();
        out.push(0x4Cu8);
        out.push(0x4Eu8);
        out.push(0x4Du8);
        out.push(0x50u8);
        out.push(VERSION);
        put_le(&mut out, record.len() as u64, 8);
        let ghost start = out@;
        let ghost models = record@;
        let mut i: usize = 0;
        while i < record.len()
            invariant
                i <= record@.len(),
                models == record@,
                out@ == start + fields_bytes(models.subrange(0, i as int)),
            decreases record@.len() - i,
        {
            let f = record.field(i);
            put_blob(&mut out, f.name.as_str().as_bytes());
            put_value(&mut out, &f.value);
            proof {
                lemma_fields_bytes_push(models.subrange(0, i as int), models[i as int]);
                assert(models.subrange(0, i + 1) =~= models.subrange(0, i as int).push(
                    models[i as int],
                ));
                assert(out@ =~= start + fields_bytes(models.subrange(0, i + 1)));
            }
            i = i + 1;
        }
        proof {
            assert(models.subrange(0, i as int) =~= models);
            assert(start =~= header_bytes() + le_encode(record@.len(), 8));
        }
        out
    }
}

/// Why bytes could not be decoded.
#[derive(Debug, PartialEq, Eq)]
pub enum BinaryError {
    /// The bytes end before a value, a length or a payload is complete, or a
    /// count announces more items than bytes remain.
    TruncatedInput,
    /// The first four bytes are not the magic.
    BadMagic,
    /// The version byte is not one that this codec reads.
    UnsupportedVersion,
    /// A tag byte names no variant, or a boolean payload is neither 0 nor 1.
    CorruptTag,
    /// A name or a string is not valid UTF-8.
    InvalidText,
    /// A field name is empty.
    EmptyFieldName,
    /// Two fields of one record share this name.
    DuplicateField { name: String },
    /// Bytes remain after the last field.
    TrailingBytes,
}

/// The mathematical content of a [`BinaryError`].
pub enum BinaryErrorModel {
    TruncatedInput,
    BadMagic,
    UnsupportedVersion,
    CorruptTag,
    InvalidText,
    EmptyFieldName,
    DuplicateField { name: Seq<char> },
    TrailingBytes,
}

impl View for BinaryError {
    type V = BinaryErrorModel;

    open spec fn view(&self) -> BinaryErrorModel {
        match self {
            BinaryError::TruncatedInput => BinaryErrorModel::TruncatedInput,
            BinaryError::BadMagic => BinaryErrorModel::BadMagic,
            BinaryError::UnsupportedVersion => BinaryErrorModel::UnsupportedVersion,
            BinaryError::CorruptTag => BinaryErrorModel::CorruptTag,
            BinaryError::InvalidText => BinaryErrorModel::InvalidText,
            BinaryError::EmptyFieldName => BinaryErrorModel::EmptyFieldName,
            BinaryError::DuplicateField { name } => BinaryErrorModel::DuplicateField { name: name@ },
            BinaryError::TrailingBytes => BinaryErrorModel::TrailingBytes,
        }
    }
}

/// What is left of `s` after its first `n` bytes.
pub open spec fn rest_of(s: Seq<u8>, n: int) -> Seq<u8> {
    s.subrange(n, s.len() as int)
}

/// An eight-byte number at the front of `s`, and what follows it.
pub open spec fn take_len(s: Seq<u8>) -> Option<(nat, Seq<u8>)> {
    if s.len() < 8 {
        None
    } else {
        Some((le_decode(s.subrange(0, 8)), rest_of(s, 8)))
    }
}

/// A length-prefixed blob at the front of `s`, and what follows it.
pub open spec fn take_blob(s: Seq<u8>) -> Option<(Seq<u8>, Seq<u8>)> {
    match take_len(s) {
        None => None,
        Some((n, r)) => if n > r.len() {
            None
        } else {
            Some((r.subrange(0, n as int), rest_of(r, n as int)))
        },
    }
}

/// The first `n` four-byte words of `b`.
pub open spec fn words_of(b: Seq<u8>, n: nat) -> Seq<u32> {
    Seq::new(n, |k: int| le_decode(b.subrange(4 * k, 4 * k + 4)) as u32)
}

/// The value at the front of `s` and the bytes after it, or the first
/// fault met while reading it.
pub open spec fn decode_value_spec(s: Seq<u8>) -> Result<(ValueModel, Seq<u8>), BinaryErrorModel>
    decreases s.len(), 0nat,
{
    if s.len() == 0 {
        Err(BinaryErrorModel::TruncatedInput)
    } else {
        let tag = s[0];
        let r = rest_of(s, 1);
        if tag == TAG_NULL {
            Ok((ValueModel::Null, r))
        } else if tag == TAG_BOOL {
            if r.len() == 0 {
                Err(BinaryErrorModel::TruncatedInput)
            } else if r[0] == 0 {
                Ok((ValueModel::Bool(false), rest_of(r, 1)))
            } else if r[0] == 1 {
                Ok((ValueModel::Bool(true), rest_of(r, 1)))
            } else {
                Err(BinaryErrorModel::CorruptTag)
            }
        } else if tag == TAG_INTEGER {
            match take_len(r) {
                None => Err(BinaryErrorModel::TruncatedInput),
                Some((n, r2)) => Ok((ValueModel::Integer(bits_i64(n as u64)), r2)),
            }
        } else if tag == TAG_FLOAT {
            match take_len(r) {
                None => Err(BinaryErrorModel::TruncatedInput),
                Some((n, r2)) => Ok((ValueModel::Float(n as u64), r2)),
            }
        } else if tag == TAG_STRING {
            match take_blob(r) {
                None => Err(BinaryErrorModel::TruncatedInput),
                Some((b, r2)) => if valid_utf8(b) {
                    Ok((ValueModel::Text(decode_utf8(b)), r2))
                } else {
                    Err(BinaryErrorModel::InvalidText)
                },
            }
        } else if tag == TAG_BYTES {
            match take_blob(r) {
                None => Err(BinaryErrorModel::TruncatedInput),
                Some((b, r2)) => Ok((ValueModel::Bytes(b), r2)),
            }
        } else if tag == TAG_EMBEDDING {
            match take_len(r) {
                None => Err(BinaryErrorModel::TruncatedInput),
                Some((n, r2)) => if 4 * n > r2.len() {
                    Err(BinaryErrorModel::TruncatedInput)
                } else {
                    Ok((ValueModel::Embedding(words_of(r2, n)), rest_of(r2, (4 * n) as int)))
                },
            }
        } else if tag == TAG_SPATIAL {
            match take_blob(r) {
                None => Err(BinaryErrorModel::TruncatedInput),
                Some((b, r2)) => Ok((ValueModel::Spatial(b), r2)),
            }
        } else if tag == TAG_ARRAY {
            match take_len(r) {
                None => Err(BinaryErrorModel::TruncatedInput),
                Some((n, r2)) => if n > r2.len() {
                    Err(BinaryErrorModel::TruncatedInput)
                } else {
                    match decode_items_spec(r2, n, Seq::empty()) {
                        Err(e) => Err(e),
                        Ok((items, r3)) => Ok((ValueModel::Array(items), r3)),
                    }
                },
            }
        } else if tag == TAG_RECORD {
            match take_len(r) {
                None => Err(BinaryErrorModel::TruncatedInput),
                Some((n, r2)) => if n > r2.len() {
                    Err(BinaryErrorModel::TruncatedInput)
                } else {
                    match decode_fields_spec(r2, n, Seq::empty()) {
                        Err(e) => Err(e),
                        Ok((fields, r3)) => Ok((ValueModel::Record(fields), r3)),
                    }
                },
            }
        } else {
            Err(BinaryErrorModel::CorruptTag)
        }
    }
}

/// `n` values from the front of `s`, added to `done`. The test that the
/// bytes got shorter never fails: a value takes at least its tag byte.
pub open spec fn decode_items_spec(s: Seq<u8>, n: nat, done: Seq<ValueModel>) -> Result<
    (Seq<ValueModel>, Seq<u8>),
    BinaryErrorModel,
>
    decreases s.len(), n + 1,
{
    if n == 0 {
        Ok((done, s))
    } else {
        match decode_value_spec(s) {
            Err(e) => Err(e),
            Ok((v, r)) => if r.len() >= s.len() {
                Err(BinaryErrorModel::TruncatedInput)
            } else {
                decode_items_spec(r, (n - 1) as nat, done.push(v))
            },
        }
    }
}

/// `n` fields from the front of `s`, added to `done`. A field is its name,
/// which must be valid UTF-8, non-empty and not yet in `done`, and then its
/// value.
pub open spec fn decode_fields_spec(s: Seq<u8>, n: nat, done: Seq<FieldModel>) -> Result<
    (Seq<FieldModel>, Seq<u8>),
    BinaryErrorModel,
>
    decreases s.len(), n + 1,
{
    if n == 0 {
        Ok((done, s))
    } else {
        match take_blob(s) {
            None => Err(BinaryErrorModel::TruncatedInput),
            Some((b, r)) => if !valid_utf8(b) {
                Err(BinaryErrorModel::InvalidText)
            } else if decode_utf8(b).len() == 0 {
                Err(BinaryErrorModel::EmptyFieldName)
            } else if has_name(done, decode_utf8(b)) {
                Err(BinaryErrorModel::DuplicateField { name: decode_utf8(b) })
            } else {
                match decode_value_spec(r) {
                    Err(e) => Err(e),
                    Ok((v, r2)) => if r2.len() >= s.len() {
                        Err(BinaryErrorModel::TruncatedInput)
                    } else {
                        decode_fields_spec(
                            r2,
                            (n - 1) as nat,
                            done.push(FieldModel { name: decode_utf8(b), value: v }),
                        )
                    },
                }
            },
        }
    }
}

/// The record that `bytes` encodes, or the first fault met while reading.
pub open spec fn decode_record_spec(bytes: Seq<u8>) -> Result<Seq<FieldModel>, BinaryErrorModel> {
    if bytes.len() < 5 {
        Err(BinaryErrorModel::TruncatedInput)
    } else if bytes.subrange(0, 4) != seq![0x4Cu8, 0x4Eu8, 0x4Du8, 0x50u8] {
        Err(BinaryErrorModel::BadMagic)
    } else if bytes[4] != VERSION {
        Err(BinaryErrorModel::UnsupportedVersion)
    } else {
        match take_len(rest_of(bytes, 5)) {
            None => Err(BinaryErrorModel::TruncatedInput),
            Some((n, r)) => if n > r.len() {
                Err(BinaryErrorModel::TruncatedInput)
            } else {
                match decode_fields_spec(r, n, Seq::empty()) {
                    Err(e) => Err(e),
                    Ok((fields, r2)) => if r2.len() > 0 {
                        Err(BinaryErrorModel::TrailingBytes)
                    } else {
                        Ok(fields)
                    },
                }
            },
        }
    }
}

fn read_len(bytes: &[u8], pos: usize) -> (res: Option<(u64, usize)>)
    requires
        pos <= bytes@.len(),
    ensures
        match take_len(rest_of(bytes@, pos as int)) {
            None => res is None,
            Some((n, r)) => res == Some((n as u64, (pos + 8) as usize)) && n <= u64::MAX && pos + 8
                <= bytes@.len() && r == rest_of(bytes@, pos + 8),
        },
{
    if bytes.len() - pos < 8 {
        return None;
    }
    let n = get_le(bytes, pos, 8);
    proof {
        let s = rest_of(bytes@, pos as int);
        assert(s.subrange(0, 8) =~= bytes@.subrange(pos as int, pos + 8));
        assert(rest_of(s, 8) =~= rest_of(bytes@, pos + 8));
        lemma_le_decode_bound(s.subrange(0, 8));
        lemma_pow256_values();
    }
    Some((n, pos + 8))
}

fn read_blob(bytes: &[u8], pos: usize) -> (res: Option<(usize, usize)>)
    requires
        pos <= bytes@.len(),
    ensures
        match take_blob(rest_of(bytes@, pos as int)) {
            None => res is None,
            Some((b, r)) => res is Some && pos + 8 == res.unwrap().0 <= res.unwrap().1
                <= bytes@.len() && b == bytes@.subrange(
                res.unwrap().0 as int,
                res.unwrap().1 as int,
            ) && r == rest_of(bytes@, res.unwrap().1 as int),
        },
{
    match read_len(bytes, pos) {
        None => None,
        Some((n, start)) => {
            if n > (bytes.len() - start) as u64 {
                None
            } else {
                let end = start + n as usize;
                proof {
                    let r = rest_of(bytes@, start as int);
                    assert(r.subrange(0, n as int) =~= bytes@.subrange(start as int, end as int));
                    assert(rest_of(r, n as int) =~= rest_of(bytes@, end as int));
                }
                Some((start, end))
            }
        },
    }
}

fn read_words(bytes: &[u8], pos: usize, n: usize) -> (v: Vector)
    requires
        pos + 4 * n <= bytes@.len(),
    ensures
        v@ == words_of(rest_of(bytes@, pos as int), n as nat),
{
    let len = bytes.len();
    let mut words: Vec<u32> = Vec::new();
    let mut k: usize = 0;
    let ghost all = words_of(rest_of(bytes@, pos as int), n as nat);
    while k < n
        invariant
            k <= n,
            len == bytes@.len(),
            pos + 4 * n <= len,
            all == words_of(rest_of(bytes@, pos as int), n as nat),
            words@ == all.subrange(0, k as int),
        decreases n - k,
    {
        let w = get_le(bytes, pos + 4 * k, 4);
        proof {
            let r = rest_of(bytes@, pos as int);
            assert(r.subrange(4 * k, 4 * k + 4) =~= bytes@.subrange(pos + 4 * k, pos + 4 * k + 4));
            lemma_le_decode_bound(r.subrange(4 * k, 4 * k + 4));
            lemma_pow256_values();
        }
        words.push(w as u32);
        proof {
            assert(words@ =~= all.subrange(0, k + 1));
        }
        k = k + 1;
    }
    proof {
        assert(all.subrange(0, k as int) =~= all);
    }
    Vector::from_f32_bits(words)
}

fn read_value(bytes: &[u8], pos: usize) -> (res: Result<(Value, usize), BinaryError>)
    requires
        pos <= bytes@.len(),
    ensures
        match decode_value_spec(rest_of(bytes@, pos as int)) {
            Ok((m, r)) => res is Ok && res.unwrap().0@ == m && res.unwrap().0.wf() && pos
                < res.unwrap().1 <= bytes@.len() && r == rest_of(bytes@, res.unwrap().1 as int),
            Err(e) => res is Err && res.unwrap_err()@ == e,
        },
    decreases bytes@.len() - pos, 0nat,
{
    let len = bytes.len();
    if pos >= len {
        return Err(BinaryError::TruncatedInput);
    }
    let tag = bytes[pos];
    let ghost s = rest_of(bytes@, pos as int);
    proof {
        assert(s[0] == tag);
        assert(rest_of(s, 1) =~= rest_of(bytes@, pos + 1));
    }
    let p = pos + 1;
    if tag == TAG_NULL {
        Ok((Value::Null, p))
    } else if tag == TAG_BOOL {
        if p >= len {
            return Err(BinaryError::TruncatedInput);
        }
        let b = bytes[p];
        proof {
            let r = rest_of(bytes@, p as int);
            assert(r[0] == b);
            assert(rest_of(r, 1) =~= rest_of(bytes@, p + 1));
        }
        if b == 0 {
            Ok((Value::Bool(false), p + 1))
        } else if b == 1 {
            Ok((Value::Bool(true), p + 1))
        } else {
            Err(BinaryError::CorruptTag)
        }
    } else if tag == TAG_INTEGER {
        match read_len(bytes, p) {
            None => Err(BinaryError::TruncatedInput),
            Some((n, q)) => Ok((Value::Integer(bits_to_i64(n)), q)),
        }
    } else if tag == TAG_FLOAT {
        match read_len(bytes, p) {
            None => Err(BinaryError::TruncatedInput),
            Some((n, q)) => Ok((Value::Float(n), q)),
        }
    } else if tag == TAG_STRING {
        match read_blob(bytes, p) {
            None => Err(BinaryError::TruncatedInput),
            Some((start, end)) => {
                match string_from_utf8(slice_to_vec(slice_subrange(bytes, start, end))) {
                    None => Err(BinaryError::InvalidText),
                    Some(text) => Ok((Value::String(text), end)),
                }
            },
        }
    } else if tag == TAG_BYTES {
        match read_blob(bytes, p) {
            None => Err(BinaryError::TruncatedInput),
            Some((start, end)) => Ok(
                (Value::Bytes(slice_to_vec(slice_subrange(bytes, start, end))), end),
            ),
        }
    } else if tag == TAG_EMBEDDING {
        match read_len(bytes, p) {
            None => Err(BinaryError::TruncatedInput),
            Some((n, q)) => {
                if n > ((len - q) / 4) as u64 {
                    return Err(BinaryError::TruncatedInput);
                }
                let count = n as usize;
                let v = read_words(bytes, q, count);
                proof {
                    let r2 = rest_of(bytes@, q as int);
                    assert(rest_of(r2, 4 * count) =~= rest_of(bytes@, q + 4 * count));
                }
                Ok((Value::Embedding(v), q + 4 * count))
            },
        }
    } else if tag == TAG_SPATIAL {
        match read_blob(bytes, p) {
            None => Err(BinaryError::TruncatedInput),
            Some((start, end)) => Ok(
                (Value::Spatial(slice_to_vec(slice_subrange(bytes, start, end))), end),
            ),
        }
    } else if tag == TAG_ARRAY {
        match read_len(bytes, p) {
            None => Err(BinaryError::TruncatedInput),
            Some((n, q)) => {
                if n > (len - q) as u64 {
                    return Err(BinaryError::TruncatedInput);
                }
                let count = n as usize;
                let mut items: Vec<Value> = Vec::new();
                let mut at: usize = q;
                let mut k: usize = 0;
                let ghost goal = decode_items_spec(
                    rest_of(bytes@, q as int),
                    count as nat,
                    Seq::empty(),
                );
                let ghost mut done: Seq<ValueModel> = Seq::empty();
                while k < count
                    invariant
                        k <= count,
                        pos < q <= at <= bytes@.len(),
                        len == bytes@.len(),
                        done.len() == k,
                        items@.len() == k,
                        forall|j: int| 0 <= j < k ==> (#[trigger] items@[j])@ == done[j],
                        forall|j: int| 0 <= j < k ==> value_wf(#[trigger] done[j]),
                        decode_value_spec(s) == match goal {
                            Err(e) => Err::<(ValueModel, Seq<u8>), BinaryErrorModel>(e),
                            Ok((found, r3)) => Ok((ValueModel::Array(found), r3)),
                        },
                        s == rest_of(bytes@, pos as int),
                        goal == decode_items_spec(
                            rest_of(bytes@, at as int),
                            (count - k) as nat,
                            done,
                        ),
                    decreases count - k,
                {
                    match read_value(bytes, at) {
                        Err(e) => {
                            return Err(e);
                        },
                        Ok((v, next)) => {
                            proof {
                                done = done.push(v@);
                            }
                            items.push(v);
                            at = next;
                        },
                    }
                    k = k + 1;
                }
                let value = Value::Array(items);
                proof {
                    assert(value@->Array_0 =~= done);
                }
                Ok((value, at))
            },
        }
    } else if tag == TAG_RECORD {
        match read_len(bytes, p) {
            None => Err(BinaryError::TruncatedInput),
            Some((n, q)) => {
                if n > (len - q) as u64 {
                    return Err(BinaryError::TruncatedInput);
                }
                match read_fields(bytes, q, n as usize) {
                    Err(e) => Err(e),
                    Ok((record, at)) => Ok((Value::Record(record), at)),
                }
            },
        }
    } else {
        Err(BinaryError::CorruptTag)
    }
}

fn read_fields(bytes: &[u8], pos: usize, count: usize) -> (res: Result<
    (Record, usize),
    BinaryError,
>)
    requires
        pos <= bytes@.len(),
    ensures
        match decode_fields_spec(rest_of(bytes@, pos as int), count as nat, Seq::empty()) {
            Ok((m, r)) => res is Ok && res.unwrap().0@ == m && res.unwrap().0.wf() && pos
                <= res.unwrap().1 <= bytes@.len() && r == rest_of(bytes@, res.unwrap().1 as int),
            Err(e) => res is Err && res.unwrap_err()@ == e,
        },
    decreases bytes@.len() - pos, 1nat,
{
    let mut record = Record::new();
    let mut at: usize = pos;
    let mut k: usize = 0;
    let ghost goal = decode_fields_spec(rest_of(bytes@, pos as int), count as nat, Seq::empty());
    while k < count
        invariant
            k <= count,
            pos <= at <= bytes@.len(),
            record.wf(),
            goal == decode_fields_spec(rest_of(bytes@, pos as int), count as nat, Seq::empty()),
            goal == decode_fields_spec(rest_of(bytes@, at as int), (count - k) as nat, record@),
        decreases count - k,
    {
        match read_blob(bytes, at) {
            None => {
                return Err(BinaryError::TruncatedInput);
            },
            Some((start, end)) => {
                match string_from_utf8(slice_to_vec(slice_subrange(bytes, start, end))) {
                    None => {
                        return Err(BinaryError::InvalidText);
                    },
                    Some(name) => {
                        if name.as_str().is_empty() {
                            return Err(BinaryError::EmptyFieldName);
                        }
                        if record.position(name.as_str()).is_some() {
                            return Err(BinaryError::DuplicateField { name });
                        }
                        match read_value(bytes, end) {
                            Err(e) => {
                                return Err(e);
                            },
                            Ok((v, next)) => {
                                record.push_field(name, v);
                                at = next;
                            },
                        }
                    },
                }
            },
        }
        k = k + 1;
    }
    Ok((record, at))
}

/// Reads records from the binary form.
pub struct BinaryDecoder {}

impl BinaryDecoder {
    /// A decoder; it has no settings.
    pub fn new() -> (d: BinaryDecoder) {
        BinaryDecoder {  }
    }

    /// The record that `bytes` encodes, with its fields in the order in
    /// which they were written.
    pub fn decode(&self, bytes: &[u8]) -> (res: Result<Record, BinaryError>)
        ensures
            match decode_record_spec(bytes@) {
                Ok(fields) => res is Ok && res.unwrap()@ == fields && res.unwrap().wf(),
                Err(e) => res is Err && res.unwrap_err()@ == e,
            },
    {
        let len = bytes.len();
        if len < 5 {
            return Err(BinaryError::TruncatedInput);
        }
        if bytes[0] != 0x4Cu8 || bytes[1] != 0x4Eu8 || bytes[2] != 0x4Du8 || bytes[3] != 0x50u8 {
            proof {
                let m = bytes@.subrange(0, 4);
                assert(m[0] == bytes@[0] && m[1] == bytes@[1] && m[2] == bytes@[2] && m[3]
                    == bytes@[3]);
            }
            return Err(BinaryError::BadMagic);
        }
        proof {
            assert(bytes@.subrange(0, 4) =~= seq![0x4Cu8, 0x4Eu8, 0x4Du8, 0x50u8]);
        }
        if bytes[4] != VERSION {
            return Err(BinaryError::UnsupportedVersion);
        }
        match read_len(bytes, 5) {
            None => Err(BinaryError::TruncatedInput),
            Some((n, q)) => {
                if n > (len - q) as u64 {
                    return Err(BinaryError::TruncatedInput);
                }
                match read_fields(bytes, q, n as usize) {
                    Err(e) => Err(e),
                    Ok((record, at)) => {
                        if at < len {
                            Err(BinaryError::TrailingBytes)
                        } else {
                            Ok(record)
                        }
                    },
                }
            },
        }
    }
}

proof fn lemma_take_len(n: nat, suf: Seq<u8>)
    requires
        n <= u64::MAX,
    ensures
        take_len(le_encode(n, 8) + suf) == Some((n, suf)),
{
    let s = le_encode(n, 8) + suf;
    lemma_le_encode_len(n, 8);
    lemma_pow256_values();
    lemma_le_decode_encode(n, 8);
    assert(s.subrange(0, 8) =~= le_encode(n, 8));
    assert(rest_of(s, 8) =~= suf);
}

proof fn lemma_take_blob(b: Seq<u8>, suf: Seq<u8>)
    requires
        b.len() <= u64::MAX,
    ensures
        take_blob(blob_bytes(b) + suf) == Some((b, suf)),
{
    lemma_take_len(b.len(), b + suf);
    assert(blob_bytes(b) + suf =~= le_encode(b.len(), 8) + (b + suf));
    assert((b + suf).subrange(0, b.len() as int) =~= b);
    assert(rest_of(b + suf, b.len() as int) =~= suf);
}

proof fn lemma_words_bytes_slot(words: Seq<u32>, k: int)
    requires
        0 <= k < words.len(),
    ensures
        words_bytes(words).len() == 4 * words.len(),
        words_bytes(words).subrange(4 * k, 4 * k + 4) == le_encode(words[k] as nat, 4),
    decreases words.len(),
{
    let all = words_bytes(words);
    let front = words_bytes(words.drop_last());
    lemma_words_bytes_len(words);
    lemma_words_bytes_len(words.drop_last());
    lemma_le_encode_len(words.last() as nat, 4);
    if k == words.len() - 1 {
        assert(all.subrange(4 * k, 4 * k + 4) =~= le_encode(words.last() as nat, 4));
    } else {
        lemma_words_bytes_slot(words.drop_last(), k);
        assert(all.subrange(4 * k, 4 * k + 4) =~= front.subrange(4 * k, 4 * k + 4));
    }
}

proof fn lemma_words_bytes_len(words: Seq<u32>)
    ensures
        words_bytes(words).len() == 4 * words.len(),
    decreases words.len(),
{
    if words.len() > 0 {
        lemma_words_bytes_len(words.drop_last());
        lemma_le_encode_len(words.last() as nat, 4);
    }
}

proof fn lemma_words_round_trip(words: Seq<u32>, suf: Seq<u8>)
    ensures
        words_bytes(words).len() == 4 * words.len(),
        words_of(words_bytes(words) + suf, words.len()) == words,
        rest_of(words_bytes(words) + suf, (4 * words.len()) as int) == suf,
{
    let s = words_bytes(words) + suf;
    lemma_words_bytes_len(words);
    lemma_pow256_values();
    assert forall|k: int| 0 <= k < words.len() implies words_of(s, words.len())[k] == words[k] by {
        lemma_words_bytes_slot(words, k);
        assert(s.subrange(4 * k, 4 * k + 4) =~= words_bytes(words).subrange(4 * k, 4 * k + 4));
        lemma_le_decode_encode(words[k] as nat, 4);
    }
    assert(words_of(s, words.len()) =~= words);
    assert(rest_of(s, (4 * words.len()) as int) =~= suf);
}

/// A value takes at least its tag byte.
pub proof fn lemma_value_bytes_nonempty(v: ValueModel)
    ensures
        value_bytes(v).len() >= 1,
{
}

/// A sequence of values takes at least one byte for each.
pub proof fn lemma_items_bytes_len(items: Seq<ValueModel>)
    ensures
        items_bytes(items).len() >= items.len(),
    decreases items.len(),
{
    if items.len() > 0 {
        lemma_value_bytes_nonempty(items[0]);
        lemma_items_bytes_len(items.subrange(1, items.len() as int));
    }
}

/// A sequence of fields takes at least one byte for each.
pub proof fn lemma_fields_bytes_len(fields: Seq<FieldModel>)
    ensures
        fields_bytes(fields).len() >= fields.len(),
    decreases fields.len(),
{
    if fields.len() > 0 {
        lemma_value_bytes_nonempty(fields[0].value);
        lemma_fields_bytes_len(fields.subrange(1, fields.len() as int));
        assert(field_bytes(fields[0]) == blob_bytes(encode_utf8(fields[0].name)) + value_bytes(
            fields[0].value,
        ));
    }
}

/// Reading the bytes of a value gives back the value and leaves exactly
/// what followed it.
#[verifier::rlimit(60)]
pub proof fn lemma_value_round_trip(v: ValueModel, suf: Seq<u8>)
    requires
        value_wf(v),
        value_fits(v),
    ensures
        decode_value_spec(value_bytes(v) + suf) == Ok::<(ValueModel, Seq<u8>), BinaryErrorModel>(
            (v, suf),
        ),
    decreases v, 0nat,
{
    let s = value_bytes(v) + suf;
    let r = rest_of(s, 1);
    match v {
        ValueModel::Null => {
            assert(r =~= suf);
        },
        ValueModel::Bool(b) => {
            assert(rest_of(r, 1) =~= suf);
        },
        ValueModel::Integer(i) => {
            lemma_take_len(i64_bits(i) as nat, suf);
            assert(r =~= le_encode(i64_bits(i) as nat, 8) + suf);
        },
        ValueModel::Float(bits) => {
            lemma_take_len(bits as nat, suf);
            assert(r =~= le_encode(bits as nat, 8) + suf);
        },
        ValueModel::Text(t) => {
            lemma_take_blob(encode_utf8(t), suf);
            assert(r =~= blob_bytes(encode_utf8(t)) + suf);
            vstd::utf8::encode_utf8_valid_utf8(t);
            vstd::utf8::encode_utf8_decode_utf8(t);
        },
        ValueModel::Bytes(b) => {
            lemma_take_blob(b, suf);
            assert(r =~= blob_bytes(b) + suf);
        },
        ValueModel::Embedding(w) => {
            lemma_take_len(w.len(), words_bytes(w) + suf);
            assert(r =~= le_encode(w.len(), 8) + (words_bytes(w) + suf));
            lemma_words_round_trip(w, suf);
        },
        ValueModel::Spatial(b) => {
            lemma_take_blob(b, suf);
            assert(r =~= blob_bytes(b) + suf);
        },
        ValueModel::Array(items) => {
            lemma_take_len(items.len(), items_bytes(items) + suf);
            assert(r =~= le_encode(items.len(), 8) + (items_bytes(items) + suf));
            lemma_items_bytes_len(items);
            lemma_items_round_trip(items, Seq::empty(), suf);
            assert(Seq::<ValueModel>::empty() + items =~= items);
        },
        ValueModel::Record(fields) => {
            assert(fields_fit(fields));
            assert(record_wf(fields));
            lemma_take_len(fields.len(), fields_bytes(fields) + suf);
            assert(r =~= le_encode(fields.len(), 8) + (fields_bytes(fields) + suf));
            lemma_fields_bytes_len(fields);
            assert(Seq::<FieldModel>::empty() + fields =~= fields);
            lemma_fields_round_trip(fields, Seq::empty(), suf);
        },
    }
}

/// Reading the bytes of a sequence of values gives the values back, after
/// those already read.
pub proof fn lemma_items_round_trip(items: Seq<ValueModel>, done: Seq<ValueModel>, suf: Seq<u8>)
    requires
        forall|i: int| 0 <= i < items.len() ==> value_wf(#[trigger] items[i]),
        forall|i: int| 0 <= i < items.len() ==> value_fits(#[trigger] items[i]),
    ensures
        decode_items_spec(items_bytes(items) + suf, items.len(), done) == Ok::<
            (Seq<ValueModel>, Seq<u8>),
            BinaryErrorModel,
        >((done + items, suf)),
    decreases items, 1nat,
{
    if items.len() == 0 {
        assert(items_bytes(items) + suf =~= suf);
        assert(done + items =~= done);
    } else {
        let first = items[0];
        let rest = items.subrange(1, items.len() as int);
        let after = items_bytes(rest) + suf;
        assert(items_bytes(items) + suf =~= value_bytes(first) + after);
        lemma_value_round_trip(first, after);
        lemma_value_bytes_nonempty(first);
        lemma_items_round_trip(rest, done.push(first), suf);
        assert(done.push(first) + rest =~= done + items);
    }
}

/// Reading the bytes of a sequence of fields gives the fields back, after
/// those already read.
#[verifier::rlimit(60)]
pub proof fn lemma_fields_round_trip(fields: Seq<FieldModel>, done: Seq<FieldModel>, suf: Seq<u8>)
    requires
        record_wf(done + fields),
        fields_fit(fields),
    ensures
        decode_fields_spec(fields_bytes(fields) + suf, fields.len(), done) == Ok::<
            (Seq<FieldModel>, Seq<u8>),
            BinaryErrorModel,
        >((done + fields, suf)),
    decreases fields, 1nat,
{
    let all = done + fields;
    if fields.len() == 0 {
        assert(fields_bytes(fields) + suf =~= suf);
        assert(all =~= done);
    } else {
        let first = fields[0];
        let rest = fields.subrange(1, fields.len() as int);
        let name_bytes = encode_utf8(first.name);
        let after = fields_bytes(rest) + suf;
        let s = fields_bytes(fields) + suf;
        assert(field_bytes(first) == blob_bytes(name_bytes) + value_bytes(first.value));
        assert(fields_bytes(fields) == field_bytes(first) + fields_bytes(rest));
        assert(s =~= blob_bytes(name_bytes) + (value_bytes(first.value) + after));
        lemma_take_blob(name_bytes, value_bytes(first.value) + after);
        vstd::utf8::encode_utf8_valid_utf8(first.name);
        vstd::utf8::encode_utf8_decode_utf8(first.name);
        assert(all[done.len() as int] == first);
        assert(first.name.len() > 0);
        assert(!has_name(done, first.name)) by {
            if has_name(done, first.name) {
                let i = choose|i: int| 0 <= i < done.len() && (#[trigger] done[i]).name == first.name;
                assert(all[i] == done[i]);
                assert(all[i].name != all[done.len() as int].name);
            }
        }
        assert(value_wf(first.value));
        lemma_value_round_trip(first.value, after);
        lemma_value_bytes_nonempty(first.value);
        lemma_le_encode_len(name_bytes.len(), 8);
        assert(done.push(first) + rest =~= all);
        assert forall|i: int| 0 <= i < rest.len() implies encode_utf8(
            (#[trigger] rest[i]).name,
        ).len() <= u64::MAX && value_fits(rest[i].value) by {
            assert(rest[i] == fields[i + 1]);
        }
        lemma_fields_round_trip(rest, done.push(first), suf);
    }
}

/// Decoding the encoding of a record gives back the same fields in the same
/// order.
pub proof fn lemma_record_round_trip(fields: Seq<FieldModel>)
    requires
        record_wf(fields),
        fields_fit(fields),
    ensures
        decode_record_spec(record_bytes(fields)) == Ok::<Seq<FieldModel>, BinaryErrorModel>(fields),
{
    let bytes = record_bytes(fields);
    let body = le_encode(fields.len(), 8) + fields_bytes(fields);
    assert(bytes =~= header_bytes() + body);
    assert(bytes.subrange(0, 4) =~= seq![0x4Cu8, 0x4Eu8, 0x4Du8, 0x50u8]);
    assert(rest_of(bytes, 5) =~= le_encode(fields.len(), 8) + (fields_bytes(fields) + Seq::empty()));
    lemma_take_len(fields.len(), fields_bytes(fields) + Seq::empty());
    lemma_fields_bytes_len(fields);
    assert(Seq::<FieldModel>::empty() + fields =~= fields);
    lemma_fields_round_trip(fields, Seq::empty(), Seq::empty());
}

/// Records with the same content have the same wire form.
pub proof fn lemma_encoding_deterministic(a: Seq<FieldModel>, b: Seq<FieldModel>)
    requires
        a == b,
    ensures
        record_bytes(a) == record_bytes(b),
{
}

/// Records with the same wire form have the same content.
pub proof fn lemma_encoding_injective(a: Seq<FieldModel>, b: Seq<FieldModel>)
    requires
        record_wf(a),
        fields_fit(a),
        record_wf(b),
        fields_fit(b),
        record_bytes(a) == record_bytes(b),
    ensures
        a == b,
{
    lemma_record_round_trip(a);
    lemma_record_round_trip(b);
}

/// The record without fields decodes to itself.
pub proof fn lemma_empty_record_round_trip()
    ensures
        decode_record_spec(record_bytes(Seq::empty())) == Ok::<Seq<FieldModel>, BinaryErrorModel>(
            Seq::empty(),
        ),
{
    lemma_record_round_trip(Seq::empty());
}

} // verus!
