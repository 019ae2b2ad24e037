//! The text codec: a readable form of records.
//!
//! A record is written as `{"1:a":1,"1:b":"1:x"}`: fields in insertion
//! order between braces, separated by commas, each a name, a colon and a
//! value. There is no optional white space, so a record has exactly one text.
//!
//! | value     | text                                                     |
//! |-----------|----------------------------------------------------------|
//! | null      | `null`                                                   |
//! | boolean   | `true`, `false`                                          |
//! | integer   | decimal digits, `-` in front of a negative one           |
//! | float     | `#` and the sixteen hex digits of its bit pattern        |
//! | string    | `"`, its length in bytes, `:`, the text itself, `"`      |
//! | bytes     | `x"`, two hex digits for each byte, `"`                  |
//! | spatial   | `p"`, two hex digits for each byte, `"`                  |
//! | embedding | `v[`, eight hex digits for each component, commas, `]`   |
//! | array     | `[`, the values, commas, `]`                             |
//! | record    | `{`, the fields, commas, `}`                             |
//!
//! Names are written as strings are. Hex digits are lower-case. The codec
//! works on the UTF-8 bytes of the text.

use crate::binary::{append_bytes, rest_of};
use crate::strings::{lemma_ascii_valid, string_from_utf8};
use crate::value::{
    fields_fit, has_name, record_wf, value_fits, value_wf, FieldModel, Record, Value, ValueModel,
};
use crate::vector::Vector;
use vstd::prelude::*;
use vstd::slice::{slice_subrange, slice_to_vec};
use vstd::string::StringExecFns;
use vstd::utf8::{decode_utf8, encode_utf8, valid_utf8};

verus! {

/// The byte of `"`.
pub const QUOTE: u8 = 34;

/// The byte of `#`.
pub const HASH: u8 = 35;

/// The byte of `,`.
pub const COMMA: u8 = 44;

/// The byte of `-`.
pub const MINUS: u8 = 45;

/// The byte of `0`.
pub const ZERO: u8 = 48;

/// The byte of `:`.
pub const COLON: u8 = 58;

/// The byte of `[`.
pub const OPEN_BRACKET: u8 = 91;

/// The byte of `]`.
pub const CLOSE_BRACKET: u8 = 93;

/// The byte of `f`.
pub const LETTER_F: u8 = 102;

/// The byte of `n`.
pub const LETTER_N: u8 = 110;

/// The byte of `p`.
pub const LETTER_P: u8 = 112;

/// The byte of `t`.
pub const LETTER_T: u8 = 116;

/// The byte of `v`.
pub const LETTER_V: u8 = 118;

/// The byte of `x`.
pub const LETTER_X: u8 = 120;

/// The byte of `{`.
pub const OPEN_BRACE: u8 = 123;

/// The byte of `}`.
pub const CLOSE_BRACE: u8 = 125;

/// Whether the byte is a decimal digit.
pub open spec fn is_digit(b: u8) -> bool {
    48 <= b <= 57
}

/// The decimal digits of `n`, without leading zeros.
pub open spec fn decimal(n: nat) -> Seq<u8>
    decreases n,
{
    if n < 10 {
        seq![(48 + n) as u8]
    } else {
        decimal(n / 10).push((48 + n % 10) as u8)
    }
}

/// The lower-case hex digit for a number below sixteen.
pub open spec fn hex_digit(n: nat) -> u8 {
    if n < 10 {
        (48 + n) as u8
    } else {
        (87 + n) as u8
    }
}

/// The `width` low-order hex digits of `x`, most significant first.
pub open spec fn hex_fixed(x: nat, width: nat) -> Seq<u8>
    decreases width,
{
    if width == 0 {
        Seq::empty()
    } else {
        hex_fixed(x / 16, (width - 1) as nat).push(hex_digit(x % 16))
    }
}

/// Two hex digits for each byte.
pub open spec fn hex_bytes(b: Seq<u8>) -> Seq<u8>
    decreases b.len(),
{
    if b.len() == 0 {
        Seq::empty()
    } else {
        hex_fixed(b[0] as nat, 2) + hex_bytes(b.subrange(1, b.len() as int))
    }
}

/// Eight hex digits for each word, with commas between the words.
pub open spec fn hex_words(w: Seq<u32>) -> Seq<u8>
    decreases w.len(),
{
    if w.len() == 0 {
        Seq::empty()
    } else if w.len() == 1 {
        hex_fixed(w[0] as nat, 8)
    } else {
        hex_fixed(w[0] as nat, 8) + seq![COMMA] + hex_words(w.subrange(1, w.len() as int))
    }
}

/// A quote, the length, a colon, the bytes, a quote.
pub open spec fn quoted(b: Seq<u8>) -> Seq<u8> {
    seq![QUOTE] + decimal(b.len()) + seq![COLON] + b + seq![QUOTE]
}

/// The decimal text of an integer, with `-` in front of a negative one.
pub open spec fn integer_text(i: i64) -> Seq<u8> {
    if i >= 0 {
        decimal(i as nat)
    } else {
        seq![MINUS] + decimal((-i) as nat)
    }
}

/// The bytes of `null`.
pub open spec fn null_text() -> Seq<u8> {
    seq![110u8, 117u8, 108u8, 108u8]
}

/// The bytes of `true`.
pub open spec fn true_text() -> Seq<u8> {
    seq![116u8, 114u8, 117u8, 101u8]
}

/// The bytes of `false`.
pub open spec fn false_text() -> Seq<u8> {
    seq![102u8, 97u8, 108u8, 115u8, 101u8]
}

/// The text of a value.
pub open spec fn value_text(v: ValueModel) -> Seq<u8>
    decreases v,
{
    match v {
        ValueModel::Null => null_text(),
        ValueModel::Bool(b) => if b {
            true_text()
        } else {
            false_text()
        },
        ValueModel::Integer(i) => integer_text(i),
        ValueModel::Float(bits) => seq![HASH] + hex_fixed(bits as nat, 16),
        ValueModel::Text(t) => quoted(encode_utf8(t)),
        ValueModel::Bytes(b) => seq![LETTER_X, QUOTE] + hex_bytes(b) + seq![QUOTE],
        ValueModel::Spatial(b) => seq![LETTER_P, QUOTE] + hex_bytes(b) + seq![QUOTE],
        ValueModel::Embedding(w) => seq![LETTER_V, OPEN_BRACKET] + hex_words(w) + seq![
            CLOSE_BRACKET,
        ],
        ValueModel::Array(items) => seq![OPEN_BRACKET] + items_text(items) + seq![CLOSE_BRACKET],
        ValueModel::Record(fields) => seq![OPEN_BRACE] + fields_text(fields) + seq![CLOSE_BRACE],
    }
}

/// The texts of the values, with commas between them.
pub open spec fn items_text(items: Seq<ValueModel>) -> Seq<u8>
    decreases items,
{
    if items.len() == 0 {
        Seq::empty()
    } else if items.len() == 1 {
        value_text(items[0])
    } else {
        value_text(items[0]) + seq![COMMA] + items_text(items.subrange(1, items.len() as int))
    }
}

/// The name, a colon, the value.
pub open spec fn field_text(f: FieldModel) -> Seq<u8>
    decreases f,
{
    quoted(encode_utf8(f.name)) + seq![COLON] + value_text(f.value)
}

/// The texts of the fields, with commas between them.
pub open spec fn fields_text(fields: Seq<FieldModel>) -> Seq<u8>
    decreases fields,
{
    if fields.len() == 0 {
        Seq::empty()
    } else if fields.len() == 1 {
        field_text(fields[0])
    } else {
        field_text(fields[0]) + seq![COMMA] + fields_text(fields.subrange(1, fields.len() as int))
    }
}

/// The text of a record, as UTF-8 bytes.
pub open spec fn record_text(fields: Seq<FieldModel>) -> Seq<u8> {
    seq![OPEN_BRACE] + fields_text(fields) + seq![CLOSE_BRACE]
}

/// The hex text of a byte string with one more byte at its end.
pub proof fn lemma_hex_bytes_push(b: Seq<u8>, x: u8)
    ensures
        hex_bytes(b.push(x)) == hex_bytes(b) + hex_fixed(x as nat, 2),
    decreases b.len(),
{
    let all = b.push(x);
    if b.len() == 0 {
        assert(all.subrange(1, all.len() as int) =~= Seq::<u8>::empty());
        assert(hex_bytes(Seq::<u8>::empty()) =~= Seq::<u8>::empty());
        assert(hex_bytes(all) =~= hex_fixed(x as nat, 2));
        assert(hex_bytes(b) + hex_fixed(x as nat, 2) =~= hex_fixed(x as nat, 2));
    } else {
        let rest = b.subrange(1, b.len() as int);
        lemma_hex_bytes_push(rest, x);
        assert(all.subrange(1, all.len() as int) =~= rest.push(x));
        assert(hex_bytes(all) =~= hex_bytes(b) + hex_fixed(x as nat, 2));
    }
}

/// The hex text of some words with one more word at their end.
pub proof fn lemma_hex_words_push(w: Seq<u32>, x: u32)
    ensures
        hex_words(w.push(x)) == if w.len() == 0 {
            hex_fixed(x as nat, 8)
        } else {
            hex_words(w) + seq![COMMA] + hex_fixed(x as nat, 8)
        },
    decreases w.len(),
{
    let all = w.push(x);
    if w.len() == 0 {
    } else {
        let rest = w.subrange(1, w.len() as int);
        lemma_hex_words_push(rest, x);
        assert(all.subrange(1, all.len() as int) =~= rest.push(x));
        if rest.len() == 0 {
            assert(hex_words(all) =~= hex_words(w) + seq![COMMA] + hex_fixed(x as nat, 8));
        } else {
            assert(hex_words(all) =~= hex_words(w) + seq![COMMA] + hex_fixed(x as nat, 8));
        }
    }
}

/// The text of some values with one more value at their end.
pub proof fn lemma_items_text_push(items: Seq<ValueModel>, v: ValueModel)
    ensures
        items_text(items.push(v)) == if items.len() == 0 {
            value_text(v)
        } else {
            items_text(items) + seq![COMMA] + value_text(v)
        },
    decreases items.len(),
{
    let all = items.push(v);
    if items.len() == 0 {
    } else {
        let rest = items.subrange(1, items.len() as int);
        lemma_items_text_push(rest, v);
        assert(all.subrange(1, all.len() as int) =~= rest.push(v));
        assert(items_text(all) =~= items_text(items) + seq![COMMA] + value_text(v));
    }
}

/// The text of some fields with one more field at their end.
pub proof fn lemma_fields_text_push(fields: Seq<FieldModel>, f: FieldModel)
    ensures
        fields_text(fields.push(f)) == if fields.len() == 0 {
            field_text(f)
        } else {
            fields_text(fields) + seq![COMMA] + field_text(f)
        },
    decreases fields.len(),
{
    let all = fields.push(f);
    if fields.len() == 0 {
    } else {
        let rest = fields.subrange(1, fields.len() as int);
        lemma_fields_text_push(rest, f);
        assert(all.subrange(1, all.len() as int) =~= rest.push(f));
        assert(fields_text(all) =~= fields_text(fields) + seq![COMMA] + field_text(f));
    }
}

fn put_decimal(out: &mut Vec<u8>, n: u64)
    ensures
        final(out)@ == old(out)@ + decimal(n as nat),
    decreases n,
{
    if n >= 10 {
        put_decimal(out, n / 10);
    }
    out.push(48 + (n % 10) as u8);
    proof {
        assert(out@ =~= old(out)@ + decimal(n as nat));
    }
}

fn put_hex(out: &mut Vec<u8>, x: u64, width: usize)
    requires
        width <= 16,
    ensures
        final(out)@ == old(out)@ + hex_fixed(x as nat, width as nat),
    decreases width,
{
    if width > 0 {
        put_hex(out, x / 16, width - 1);
        let d = (x % 16) as u8;
        out.push(
            if d < 10 {
                48 + d
            } else {
                87 + d
            },
        );
        proof {
            assert(out@ =~= old(out)@ + hex_fixed(x as nat, width as nat));
        }
    } else {
        proof {
            assert(out@ =~= old(out)@ + hex_fixed(x as nat, width as nat));
        }
    }
}

fn put_hex_bytes(out: &mut Vec<u8>, src: &[u8])
    ensures
        final(out)@ == old(out)@ + hex_bytes(src@),
{
    let mut i: usize = 0;
    proof {
        assert(out@ =~= old(out)@ + hex_bytes(src@.subrange(0, 0)));
    }
    while i < src.len()
        invariant
            i <= src@.len(),
            out@ == old(out)@ + hex_bytes(src@.subrange(0, i as int)),
        decreases src@.len() - i,
    {
        put_hex(out, src[i] as u64, 2);
        proof {
            lemma_hex_bytes_push(src@.subrange(0, i as int), src@[i as int]);
            assert(src@.subrange(0, i + 1) =~= src@.subrange(0, i as int).push(src@[i as int]));
            assert(out@ =~= old(out)@ + hex_bytes(src@.subrange(0, i + 1)));
        }
        i = i + 1;
    }
    proof {
        assert(src@.subrange(0, i as int) =~= src@);
    }
}

fn put_hex_words(out: &mut Vec<u8>, v: &Vector)
    ensures
        final(out)@ == old(out)@ + hex_words(v@),
{
    let n = v.len();
    let mut i: usize = 0;
    proof {
        assert(out@ =~= old(out)@ + hex_words(v@.subrange(0, 0)));
    }
    while i < n
        invariant
            i <= n,
            n == v@.len(),
            out@ == old(out)@ + hex_words(v@.subrange(0, i as int)),
        decreases n - i,
    {
        if i > 0 {
            out.push(COMMA);
        }
        put_hex(out, v.get(i) as u64, 8);
        proof {
            lemma_hex_words_push(v@.subrange(0, i as int), v@[i as int]);
            assert(v@.subrange(0, i + 1) =~= v@.subrange(0, i as int).push(v@[i as int]));
            assert(out@ =~= old(out)@ + hex_words(v@.subrange(0, i + 1)));
        }
        i = i + 1;
    }
    proof {
        assert(v@.subrange(0, i as int) =~= v@);
    }
}

fn put_quoted(out: &mut Vec<u8>, src: &[u8])
    ensures
        final(out)@ == old(out)@ + quoted(src@),
{
    out.push(QUOTE);
    put_decimal(out, src.len() as u64);
    out.push(COLON);
    append_bytes(out, src);
    out.push(QUOTE);
    proof {
        assert(out@ =~= old(out)@ + quoted(src@));
    }
}

fn put_integer(out: &mut Vec<u8>, i: i64)
    ensures
        final(out)@ == old(out)@ + integer_text(i),
{
    if i >= 0 {
        put_decimal(out, i as u64);
    } else {
        out.push(MINUS);
        put_decimal(out, (-(i + 1)) as u64 + 1);
        proof {
            assert(out@ =~= old(out)@ + integer_text(i));
        }
    }
}

fn put_value_text(out: &mut Vec<u8>, v: &Value)
    ensures
        final(out)@ == old(out)@ + value_text(v@),
    decreases v@,
{
    match v {
        Value::Null => {
            out.push(110u8);
            out.push(117u8);
            out.push(108u8);
            out.push(108u8);
            proof {
                assert(out@ =~= old(out)@ + value_text(v@));
            }
        },
        Value::Bool(b) => {
            if *b {
                out.push(116u8);
                out.push(114u8);
                out.push(117u8);
                out.push(101u8);
            } else {
                out.push(102u8);
                out.push(97u8);
                out.push(108u8);
                out.push(115u8);
                out.push(101u8);
            }
            proof {
                assert(out@ =~= old(out)@ + value_text(v@));
            }
        },
        Value::Integer(i) => {
            put_integer(out, *i);
        },
        Value::Float(bits) => {
            out.push(HASH);
            put_hex(out, *bits, 16);
            proof {
                assert(out@ =~= old(out)@ + value_text(v@));
            }
        },
        Value::String(s) => {
            put_quoted(out, s.as_str().as_bytes());
        },
        Value::Bytes(b) => {
            out.push(LETTER_X);
            out.push(QUOTE);
            put_hex_bytes(out, b.as_slice());
            out.push(QUOTE);
            proof {
                assert(out@ =~= old(out)@ + value_text(v@));
            }
        },
        Value::Spatial(b) => {
            out.push(LETTER_P);
            out.push(QUOTE);
            put_hex_bytes(out, b.as_slice());
            out.push(QUOTE);
            proof {
                assert(out@ =~= old(out)@ + value_text(v@));
            }
        },
        Value::Embedding(e) => {
            out.push(LETTER_V);
            out.push(OPEN_BRACKET);
            put_hex_words(out, e);
            out.push(CLOSE_BRACKET);
            proof {
                assert(out@ =~= old(out)@ + value_text(v@));
            }
        },
        Value::Array(items) => {
            out.push(OPEN_BRACKET);
            let ghost start = out@;
            let ghost models = v@->Array_0;
            let mut i: usize = 0;
            proof {
                assert(out@ =~= start + items_text(models.subrange(0, 0)));
            }
            while i < items.len()
                invariant
                    i <= items@.len(),
                    v@ == ValueModel::Array(models),
                    models.len() == items@.len(),
                    forall|k: int| 0 <= k < items@.len() ==> models[k] == (#[trigger] items@[k])@,
                    out@ == start + items_text(models.subrange(0, i as int)),
                decreases items@.len() - i,
            {
                if i > 0 {
                    out.push(COMMA);
                }
                proof {
                    assert(models[i as int] == items@[i as int]@);
                    assert(decreases_to!(v@ => v@->Array_0));
                    assert(decreases_to!(models => models[i as int]));
                }
                put_value_text(out, &items[i]);
                proof {
                    lemma_items_text_push(models.subrange(0, i as int), models[i as int]);
                    assert(models.subrange(0, i + 1) =~= models.subrange(0, i as int).push(
                        models[i as int],
                    ));
                    assert(out@ =~= start + items_text(models.subrange(0, i + 1)));
                }
                i = i + 1;
            }
            out.push(CLOSE_BRACKET);
            proof {
                assert(models.subrange(0, i as int) =~= models);
                assert(out@ =~= old(out)@ + value_text(v@));
            }
        },
        Value::Record(r) => {
            out.push(OPEN_BRACE);
            let ghost start = out@;
            let ghost models = r@;
            let mut i: usize = 0;
            proof {
                assert(out@ =~= start + fields_text(models.subrange(0, 0)));
            }
            while i < r.len()
                invariant
                    i <= r@.len(),
                    v@ == ValueModel::Record(models),
                    models == r@,
                    out@ == start + fields_text(models.subrange(0, i as int)),
                decreases r@.len() - i,
            {
                if i > 0 {
                    out.push(COMMA);
                }
                let f = r.field(i);
                proof {
                    assert(decreases_to!(v@ => v@->Record_0));
                    assert(decreases_to!(models => models[i as int]));
                    assert(decreases_to!(models[i as int] => models[i as int].value));
                }
                put_quoted(out, f.name.as_str().as_bytes());
                out.push(COLON);
                put_value_text(out, &f.value);
                proof {
                    lemma_fields_text_push(models.subrange(0, i as int), models[i as int]);
                    assert(models.subrange(0, i + 1) =~= models.subrange(0, i as int).push(
                        models[i as int],
                    ));
                    assert(field_text(models[i as int]) == quoted(
                        encode_utf8(models[i as int].name),
                    ) + seq![COLON] + value_text(models[i as int].value));
                    assert(out@ =~= start + fields_text(models.subrange(0, i + 1)));
                }
                i = i + 1;
            }
            out.push(CLOSE_BRACE);
            proof {
                assert(models.subrange(0, i as int) =~= models);
                assert(out@ =~= old(out)@ + value_text(v@));
            }
        },
    }
}

/// What a syntax error found.
#[derive(Clone, Copy, Debug, PartialEq, Eq, Structural)]
pub enum SyntaxKind {
    /// The text does not open with `{`.
    ExpectedRecord,
    /// No value starts with this character.
    ExpectedValue,
    /// A word that starts like `null`, `true` or `false` is none of them.
    ExpectedKeyword,
    /// An integer has no digits, a leading zero or a minus before zero, or
    /// does not fit 64 bits.
    InvalidInteger,
    /// The length of a string is not a plain decimal number.
    InvalidLength,
    /// A hex digit is missing.
    ExpectedHexDigit,
    /// A quote is missing.
    ExpectedQuote,
    /// A colon is missing.
    ExpectedColon,
    /// Neither a comma nor the closing bracket follows an item.
    ExpectedSeparator,
    /// A string or a name is not valid UTF-8 at its announced length.
    InvalidText,
    /// A field name is empty.
    EmptyFieldName,
    /// Characters follow the closing brace of the record.
    TrailingCharacters,
}

/// A fault met while reading, placed by how many bytes were still unread.
pub enum Fault {
    Syntax { remaining: nat, kind: SyntaxKind },
    DuplicateField { name: Seq<char> },
    Unterminated,
}

/// How many bytes at the front of `s` are decimal digits.
pub open spec fn digit_run(s: Seq<u8>) -> nat
    decreases s.len(),
{
    if s.len() > 0 && is_digit(s[0]) {
        1 + digit_run(rest_of(s, 1))
    } else {
        0
    }
}

/// The number that a sequence of decimal digits stands for.
pub open spec fn digits_value(ds: Seq<u8>) -> nat
    decreases ds.len(),
{
    if ds.len() == 0 {
        0
    } else {
        10 * digits_value(ds.drop_last()) + (ds.last() - 48) as nat
    }
}

/// A decimal number of at most `limit` at the front of `s`, written without
/// leading zeros, and what follows it.
pub open spec fn parse_nat_spec(s: Seq<u8>, limit: nat) -> Option<(nat, Seq<u8>)> {
    let k = digit_run(s);
    if k == 0 || (k > 1 && s[0] == 48) || digits_value(s.subrange(0, k as int)) > limit {
        None
    } else {
        Some((digits_value(s.subrange(0, k as int)), rest_of(s, k as int)))
    }
}

/// The value of a lower-case hex digit.
pub open spec fn hex_value(b: u8) -> Option<nat> {
    if 48 <= b <= 57 {
        Some((b - 48) as nat)
    } else if 97 <= b <= 102 {
        Some((b - 87) as nat)
    } else {
        None
    }
}

/// `width` hex digits at the front of `s`, read onto `acc`.
pub open spec fn parse_hex_spec(s: Seq<u8>, width: nat, acc: nat) -> Result<(nat, Seq<u8>), Fault>
    decreases width,
{
    if width == 0 {
        Ok((acc, s))
    } else if s.len() == 0 {
        Err(Fault::Unterminated)
    } else {
        match hex_value(s[0]) {
            None => Err(Fault::Syntax { remaining: s.len(), kind: SyntaxKind::ExpectedHexDigit }),
            Some(h) => parse_hex_spec(rest_of(s, 1), (width - 1) as nat, 16 * acc + h),
        }
    }
}

/// Where `s` stops agreeing with `word` from position `k` on, if it does.
pub open spec fn keyword_fault(s: Seq<u8>, word: Seq<u8>, k: nat) -> Option<Fault>
    decreases word.len() - k,
{
    if k >= word.len() {
        None
    } else if k >= s.len() {
        Some(Fault::Unterminated)
    } else if s[k as int] != word[k as int] {
        Some(Fault::Syntax { remaining: (s.len() - k) as nat, kind: SyntaxKind::ExpectedKeyword })
    } else {
        keyword_fault(s, word, k + 1)
    }
}

/// A quoted run of bytes at the front of `s`: the bytes and what follows.
pub open spec fn parse_quoted_spec(s: Seq<u8>) -> Result<(Seq<u8>, Seq<u8>), Fault> {
    if s.len() == 0 {
        Err(Fault::Unterminated)
    } else if s[0] != QUOTE {
        Err(Fault::Syntax { remaining: s.len(), kind: SyntaxKind::ExpectedQuote })
    } else {
        let r = rest_of(s, 1);
        if r.len() == 0 {
            Err(Fault::Unterminated)
        } else {
            match parse_nat_spec(r, u64::MAX as nat) {
                None => Err(Fault::Syntax { remaining: r.len(), kind: SyntaxKind::InvalidLength }),
                Some((n, r2)) => if r2.len() == 0 {
                    Err(Fault::Unterminated)
                } else if r2[0] != COLON {
                    Err(Fault::Syntax { remaining: r2.len(), kind: SyntaxKind::ExpectedColon })
                } else {
                    let r3 = rest_of(r2, 1);
                    if n >= r3.len() {
                        Err(Fault::Unterminated)
                    } else {
                        let r4 = rest_of(r3, n as int);
                        if r4[0] != QUOTE {
                            Err(
                                Fault::Syntax {
                                    remaining: r4.len(),
                                    kind: SyntaxKind::ExpectedQuote,
                                },
                            )
                        } else {
                            Ok((r3.subrange(0, n as int), rest_of(r4, 1)))
                        }
                    }
                },
            }
        }
    }
}

/// A string or a name at the front of `s`.
pub open spec fn parse_text_spec(s: Seq<u8>) -> Result<(Seq<char>, Seq<u8>), Fault> {
    match parse_quoted_spec(s) {
        Err(e) => Err(e),
        Ok((b, r)) => if valid_utf8(b) {
            Ok((decode_utf8(b), r))
        } else {
            Err(Fault::Syntax { remaining: s.len(), kind: SyntaxKind::InvalidText })
        },
    }
}

/// Pairs of hex digits up to a closing quote, added to `done`.
pub open spec fn parse_hex_blob_spec(s: Seq<u8>, done: Seq<u8>) -> Result<(Seq<u8>, Seq<u8>), Fault>
    decreases s.len(),
{
    if s.len() == 0 {
        Err(Fault::Unterminated)
    } else if s[0] == QUOTE {
        Ok((done, rest_of(s, 1)))
    } else {
        match hex_value(s[0]) {
            None => Err(Fault::Syntax { remaining: s.len(), kind: SyntaxKind::ExpectedHexDigit }),
            Some(h) => if s.len() < 2 {
                Err(Fault::Unterminated)
            } else {
                match hex_value(s[1]) {
                    None => Err(
                        Fault::Syntax {
                            remaining: (s.len() - 1) as nat,
                            kind: SyntaxKind::ExpectedHexDigit,
                        },
                    ),
                    Some(l) => parse_hex_blob_spec(rest_of(s, 2), done.push((16 * h + l) as u8)),
                }
            },
        }
    }
}

/// Words of eight hex digits, separated by commas, up to a closing
/// bracket, added to `done`. The test that the bytes got shorter never
/// fails.
pub open spec fn parse_words_spec(s: Seq<u8>, done: Seq<u32>) -> Result<(Seq<u32>, Seq<u8>), Fault>
    decreases s.len(),
{
    match parse_hex_spec(s, 8, 0) {
        Err(e) => Err(e),
        Ok((x, r)) => if r.len() == 0 {
            Err(Fault::Unterminated)
        } else if r[0] == COMMA {
            if r.len() > s.len() {
                Err(Fault::Unterminated)
            } else {
                parse_words_spec(rest_of(r, 1), done.push(x as u32))
            }
        } else if r[0] == CLOSE_BRACKET {
            Ok((done.push(x as u32), rest_of(r, 1)))
        } else {
            Err(Fault::Syntax { remaining: r.len(), kind: SyntaxKind::ExpectedSeparator })
        },
    }
}

/// The value at the front of `s` and the bytes after it, or the first
/// fault met while reading it.
pub open spec fn parse_value_spec(s: Seq<u8>) -> Result<(ValueModel, Seq<u8>), Fault>
    decreases s.len(), 0nat,
{
    if s.len() == 0 {
        Err(Fault::Unterminated)
    } else {
        let c = s[0];
        let r = rest_of(s, 1);
        if c == LETTER_N {
            match keyword_fault(s, null_text(), 0) {
                Some(e) => Err(e),
                None => Ok((ValueModel::Null, rest_of(s, 4))),
            }
        } else if c == LETTER_T {
            match keyword_fault(s, true_text(), 0) {
                Some(e) => Err(e),
                None => Ok((ValueModel::Bool(true), rest_of(s, 4))),
            }
        } else if c == LETTER_F {
            match keyword_fault(s, false_text(), 0) {
                Some(e) => Err(e),
                None => Ok((ValueModel::Bool(false), rest_of(s, 5))),
            }
        } else if c == MINUS {
            match parse_nat_spec(r, 0x8000_0000_0000_0000) {
                None => Err(Fault::Syntax { remaining: s.len(), kind: SyntaxKind::InvalidInteger }),
                Some((n, r2)) => if n == 0 {
                    Err(Fault::Syntax { remaining: s.len(), kind: SyntaxKind::InvalidInteger })
                } else {
                    Ok((ValueModel::Integer((0 - n) as i64), r2))
                },
            }
        } else if is_digit(c) {
            match parse_nat_spec(s, 0x7FFF_FFFF_FFFF_FFFF) {
                None => Err(Fault::Syntax { remaining: s.len(), kind: SyntaxKind::InvalidInteger }),
                Some((n, r2)) => Ok((ValueModel::Integer(n as i64), r2)),
            }
        } else if c == HASH {
            match parse_hex_spec(r, 16, 0) {
                Err(e) => Err(e),
                Ok((x, r2)) => Ok((ValueModel::Float(x as u64), r2)),
            }
        } else if c == QUOTE {
            match parse_text_spec(s) {
                Err(e) => Err(e),
                Ok((t, r2)) => Ok((ValueModel::Text(t), r2)),
            }
        } else if c == LETTER_X || c == LETTER_P {
            if r.len() == 0 {
                Err(Fault::Unterminated)
            } else if r[0] != QUOTE {
                Err(Fault::Syntax { remaining: r.len(), kind: SyntaxKind::ExpectedQuote })
            } else {
                match parse_hex_blob_spec(rest_of(r, 1), Seq::empty()) {
                    Err(e) => Err(e),
                    Ok((b, r2)) => if c == LETTER_X {
                        Ok((ValueModel::Bytes(b), r2))
                    } else {
                        Ok((ValueModel::Spatial(b), r2))
                    },
                }
            }
        } else if c == LETTER_V {
            if r.len() == 0 {
                Err(Fault::Unterminated)
            } else if r[0] != OPEN_BRACKET {
                Err(Fault::Syntax { remaining: r.len(), kind: SyntaxKind::ExpectedValue })
            } else {
                let r1 = rest_of(r, 1);
                if r1.len() == 0 {
                    Err(Fault::Unterminated)
                } else if r1[0] == CLOSE_BRACKET {
                    Ok((ValueModel::Embedding(Seq::empty()), rest_of(r1, 1)))
                } else {
                    match parse_words_spec(r1, Seq::empty()) {
                        Err(e) => Err(e),
                        Ok((w, r2)) => Ok((ValueModel::Embedding(w), r2)),
                    }
                }
            }
        } else if c == OPEN_BRACKET {
            if r.len() == 0 {
                Err(Fault::Unterminated)
            } else if r[0] == CLOSE_BRACKET {
                Ok((ValueModel::Array(Seq::empty()), rest_of(r, 1)))
            } else {
                match parse_items_spec(r, Seq::empty()) {
                    Err(e) => Err(e),
                    Ok((items, r2)) => Ok((ValueModel::Array(items), r2)),
                }
            }
        } else if c == OPEN_BRACE {
            match parse_body_spec(r) {
                Err(e) => Err(e),
                Ok((fields, r2)) => Ok((ValueModel::Record(fields), r2)),
            }
        } else {
            Err(Fault::Syntax { remaining: s.len(), kind: SyntaxKind::ExpectedValue })
        }
    }
}

/// Values separated by commas up to a closing bracket, added to `done`.
/// The test that the bytes got shorter never fails.
pub open spec fn parse_items_spec(s: Seq<u8>, done: Seq<ValueModel>) -> Result<
    (Seq<ValueModel>, Seq<u8>),
    Fault,
>
    decreases s.len(), 1nat,
{
    match parse_value_spec(s) {
        Err(e) => Err(e),
        Ok((v, r)) => if r.len() == 0 {
            Err(Fault::Unterminated)
        } else if r[0] == COMMA {
            if r.len() > s.len() {
                Err(Fault::Unterminated)
            } else {
                parse_items_spec(rest_of(r, 1), done.push(v))
            }
        } else if r[0] == CLOSE_BRACKET {
            Ok((done.push(v), rest_of(r, 1)))
        } else {
            Err(Fault::Syntax { remaining: r.len(), kind: SyntaxKind::ExpectedSeparator })
        },
    }
}

/// What follows the opening brace of a record: the closing brace, or
/// fields up to it.
pub open spec fn parse_body_spec(s: Seq<u8>) -> Result<(Seq<FieldModel>, Seq<u8>), Fault>
    decreases s.len(), 2nat,
{
    if s.len() == 0 {
        Err(Fault::Unterminated)
    } else if s[0] == CLOSE_BRACE {
        Ok((Seq::empty(), rest_of(s, 1)))
    } else {
        parse_fields_spec(s, Seq::empty())
    }
}

/// Fields separated by commas up to a closing brace, added to `done`. A
/// name must be valid UTF-8, non-empty and not yet in `done`. The tests
/// that the bytes got shorter never fail.
pub open spec fn parse_fields_spec(s: Seq<u8>, done: Seq<FieldModel>) -> Result<
    (Seq<FieldModel>, Seq<u8>),
    Fault,
>
    decreases s.len(), 1nat,
{
    match parse_text_spec(s) {
        Err(e) => Err(e),
        Ok((name, r)) => if name.len() == 0 {
            Err(Fault::Syntax { remaining: s.len(), kind: SyntaxKind::EmptyFieldName })
        } else if has_name(done, name) {
            Err(Fault::DuplicateField { name })
        } else if r.len() == 0 {
            Err(Fault::Unterminated)
        } else if r[0] != COLON {
            Err(Fault::Syntax { remaining: r.len(), kind: SyntaxKind::ExpectedColon })
        } else if r.len() > s.len() {
            Err(Fault::Unterminated)
        } else {
            match parse_value_spec(rest_of(r, 1)) {
                Err(e) => Err(e),
                Ok((v, r2)) => if r2.len() == 0 {
                    Err(Fault::Unterminated)
                } else if r2[0] == COMMA {
                    if r2.len() > s.len() {
                        Err(Fault::Unterminated)
                    } else {
                        parse_fields_spec(rest_of(r2, 1), done.push(FieldModel { name, value: v }))
                    }
                } else if r2[0] == CLOSE_BRACE {
                    Ok((done.push(FieldModel { name, value: v }), rest_of(r2, 1)))
                } else {
                    Err(Fault::Syntax { remaining: r2.len(), kind: SyntaxKind::ExpectedSeparator })
                },
            }
        },
    }
}

/// A fault met while reading, placed by the index of the byte at fault.
#[derive(Debug)]
enum TextFault {
    Syntax { pos: usize, kind: SyntaxKind },
    DuplicateField { name: String },
    Unterminated,
}

spec fn fault_of(f: TextFault, len: nat) -> Fault {
    match f {
        TextFault::Syntax { pos, kind } => Fault::Syntax { remaining: (len - pos) as nat, kind },
        TextFault::DuplicateField { name } => Fault::DuplicateField { name: name@ },
        TextFault::Unterminated => Fault::Unterminated,
    }
}

/// `f` is the fault `e` in a text of `len` bytes, and lies inside the text.
spec fn faults(f: TextFault, len: nat, e: Fault) -> bool {
    fault_of(f, len) == e && (f is Syntax ==> f->pos < len)
}

/// 16 to the power `n`.
pub open spec fn pow16(n: nat) -> nat
    decreases n,
{
    if n == 0 {
        1
    } else {
        16 * pow16((n - 1) as nat)
    }
}

proof fn lemma_pow16_bound(n: nat)
    requires
        n <= 16,
    ensures
        pow16(n) <= 0x1_0000_0000_0000_0000,
        pow16(2) == 0x100,
        pow16(8) == 0x1_0000_0000,
        pow16(16) == 0x1_0000_0000_0000_0000,
    decreases 16 - n,
{
    reveal_with_fuel(pow16, 17);
    if n < 16 {
        lemma_pow16_bound(n + 1);
    }
}

proof fn lemma_digit_run(s: Seq<u8>, k: nat)
    requires
        k <= s.len(),
        forall|j: int| 0 <= j < k ==> is_digit(#[trigger] s[j]),
        k == s.len() || !is_digit(s[k as int]),
    ensures
        digit_run(s) == k,
    decreases k,
{
    if k > 0 {
        let r = rest_of(s, 1);
        assert forall|j: int| 0 <= j < k - 1 implies is_digit(#[trigger] r[j]) by {
            assert(r[j] == s[j + 1]);
        }
        if k - 1 < r.len() {
            assert(r[k - 1] == s[k as int]);
        }
        lemma_digit_run(r, (k - 1) as nat);
    }
}

fn hex_val(b: u8) -> (r: Option<u8>)
    ensures
        match hex_value(b) {
            None => r is None,
            Some(h) => r == Some(h as u8) && h < 16,
        },
{
    if 48 <= b && b <= 57 {
        Some(b - 48)
    } else if 97 <= b && b <= 102 {
        Some(b - 87)
    } else {
        None
    }
}

fn read_nat(bytes: &[u8], pos: usize, limit: u64) -> (res: Option<(u64, usize)>)
    requires
        pos <= bytes@.len(),
        limit >= 9,
    ensures
        match parse_nat_spec(rest_of(bytes@, pos as int), limit as nat) {
            None => res is None,
            Some((n, r)) => res is Some && res.unwrap().0 == n && pos < res.unwrap().1
                <= bytes@.len() && r == rest_of(bytes@, res.unwrap().1 as int),
        },
{
    let len = bytes.len();
    let mut i: usize = pos;
    let mut acc: u64 = 0;
    let mut over = false;
    let mut stopped = false;
    while !stopped
        invariant
            pos <= i <= len,
            len == bytes@.len(),
            limit >= 9,
            forall|j: int| pos <= j < i ==> is_digit(#[trigger] bytes@[j]),
            stopped ==> i == len || !is_digit(bytes@[i as int]),
            !over ==> acc == digits_value(bytes@.subrange(pos as int, i as int)) && acc <= limit,
            over ==> digits_value(bytes@.subrange(pos as int, i as int)) > limit,
        decreases (len - i) + (if stopped { 0int } else { 1int }),
    {
        if i < len && 48 <= bytes[i] && bytes[i] <= 57 {
            let d = (bytes[i] - 48) as u64;
            proof {
                let next = bytes@.subrange(pos as int, i + 1);
                assert(next.drop_last() =~= bytes@.subrange(pos as int, i as int));
                assert(next.last() == bytes@[i as int]);
            }
            if !over {
                if acc > (limit - d) / 10 {
                    over = true;
                } else {
                    acc = 10 * acc + d;
                }
            }
            i = i + 1;
        } else {
            stopped = true;
        }
    }
    proof {
        let s = rest_of(bytes@, pos as int);
        let k = (i - pos) as nat;
        assert forall|j: int| 0 <= j < k implies is_digit(#[trigger] s[j]) by {
            assert(s[j] == bytes@[pos + j]);
        }
        if k < s.len() {
            assert(s[k as int] == bytes@[i as int]);
        }
        lemma_digit_run(s, k);
        assert(s.subrange(0, k as int) =~= bytes@.subrange(pos as int, i as int));
        assert(rest_of(s, k as int) =~= rest_of(bytes@, i as int));
        if k > 0 {
            assert(s[0] == bytes@[pos as int]);
        }
    }
    if i == pos || over || (i - pos > 1 && bytes[pos] == 48) {
        None
    } else {
        Some((acc, i))
    }
}

fn read_hex(bytes: &[u8], pos: usize, width: usize) -> (res: Result<(u64, usize), TextFault>)
    requires
        pos <= bytes@.len(),
        width <= 16,
    ensures
        match parse_hex_spec(rest_of(bytes@, pos as int), width as nat, 0) {
            Ok((x, r)) => res is Ok && res.unwrap().0 == x && x < pow16(width as nat)
                && res.unwrap().1 == pos + width && pos + width <= bytes@.len() && r == rest_of(
                bytes@,
                pos + width,
            ),
            Err(e) => res is Err && faults(res.unwrap_err(), bytes@.len(), e),
        },
{
    let len = bytes.len();
    let mut acc: u64 = 0;
    let mut j: usize = 0;
    let ghost goal = parse_hex_spec(rest_of(bytes@, pos as int), width as nat, 0);
    while j < width
        invariant
            j <= width <= 16,
            pos + j <= len,
            len == bytes@.len(),
            acc < pow16(j as nat),
            goal == parse_hex_spec(rest_of(bytes@, pos as int), width as nat, 0),
            goal == parse_hex_spec(rest_of(bytes@, pos + j), (width - j) as nat, acc as nat),
        decreases width - j,
    {
        let at = pos + j;
        if at >= len {
            return Err(TextFault::Unterminated);
        }
        proof {
            let s = rest_of(bytes@, at as int);
            assert(s[0] == bytes@[at as int]);
            assert(rest_of(s, 1) =~= rest_of(bytes@, at + 1));
            lemma_pow16_bound((j + 1) as nat);
        }
        match hex_val(bytes[at]) {
            None => {
                return Err(TextFault::Syntax { pos: at, kind: SyntaxKind::ExpectedHexDigit });
            },
            Some(h) => {
                acc = 16 * acc + h as u64;
            },
        }
        j = j + 1;
    }
    Ok((acc, pos + width))
}

fn read_word(bytes: &[u8], pos: usize, word: &Vec<u8>) -> (res: Option<TextFault>)
    requires
        pos <= bytes@.len(),
    ensures
        match keyword_fault(rest_of(bytes@, pos as int), word@, 0) {
            None => res is None && pos + word@.len() <= bytes@.len(),
            Some(e) => res is Some && faults(res.unwrap(), bytes@.len(), e),
        },
{
    let len = bytes.len();
    let mut k: usize = 0;
    let ghost s = rest_of(bytes@, pos as int);
    while k < word.len()
        invariant
            k <= word@.len(),
            pos + k <= len,
            len == bytes@.len(),
            s == rest_of(bytes@, pos as int),
            keyword_fault(s, word@, 0) == keyword_fault(s, word@, k as nat),
        decreases word@.len() - k,
    {
        if k >= len - pos {
            return Some(TextFault::Unterminated);
        }
        proof {
            assert(s[k as int] == bytes@[pos + k]);
        }
        if bytes[pos + k] != word[k] {
            return Some(TextFault::Syntax { pos: pos + k, kind: SyntaxKind::ExpectedKeyword });
        }
        k = k + 1;
    }
    None
}

fn read_quoted(bytes: &[u8], pos: usize) -> (res: Result<(usize, usize, usize), TextFault>)
    requires
        pos <= bytes@.len(),
    ensures
        match parse_quoted_spec(rest_of(bytes@, pos as int)) {
            Ok((b, r)) => res is Ok && pos < res.unwrap().0 <= res.unwrap().1 < res.unwrap().2
                <= bytes@.len() && b == bytes@.subrange(
                res.unwrap().0 as int,
                res.unwrap().1 as int,
            ) && r == rest_of(bytes@, res.unwrap().2 as int),
            Err(e) => res is Err && faults(res.unwrap_err(), bytes@.len(), e),
        },
{
    let len = bytes.len();
    if pos >= len {
        return Err(TextFault::Unterminated);
    }
    let ghost s = rest_of(bytes@, pos as int);
    proof {
        assert(s[0] == bytes@[pos as int]);
        assert(rest_of(s, 1) =~= rest_of(bytes@, pos + 1));
    }
    if bytes[pos] != QUOTE {
        return Err(TextFault::Syntax { pos, kind: SyntaxKind::ExpectedQuote });
    }
    let p = pos + 1;
    if p >= len {
        return Err(TextFault::Unterminated);
    }
    match read_nat(bytes, p, u64::MAX) {
        None => Err(TextFault::Syntax { pos: p, kind: SyntaxKind::InvalidLength }),
        Some((n, q)) => {
            if q >= len {
                return Err(TextFault::Unterminated);
            }
            proof {
                let r2 = rest_of(bytes@, q as int);
                assert(r2[0] == bytes@[q as int]);
                assert(rest_of(r2, 1) =~= rest_of(bytes@, q + 1));
            }
            if bytes[q] != COLON {
                return Err(TextFault::Syntax { pos: q, kind: SyntaxKind::ExpectedColon });
            }
            let start = q + 1;
            if n >= (len - start) as u64 {
                return Err(TextFault::Unterminated);
            }
            let end = start + n as usize;
            proof {
                let r3 = rest_of(bytes@, start as int);
                let r4 = rest_of(r3, n as int);
                assert(r4 =~= rest_of(bytes@, end as int));
                assert(r4[0] == bytes@[end as int]);
                assert(r3.subrange(0, n as int) =~= bytes@.subrange(start as int, end as int));
                assert(rest_of(r4, 1) =~= rest_of(bytes@, end + 1));
            }
            if bytes[end] != QUOTE {
                return Err(TextFault::Syntax { pos: end, kind: SyntaxKind::ExpectedQuote });
            }
            Ok((start, end, end + 1))
        },
    }
}

fn read_text(bytes: &[u8], pos: usize) -> (res: Result<(String, usize), TextFault>)
    requires
        pos <= bytes@.len(),
    ensures
        match parse_text_spec(rest_of(bytes@, pos as int)) {
            Ok((t, r)) => res is Ok && res.unwrap().0@ == t && pos < res.unwrap().1 <= bytes@.len()
                && r == rest_of(bytes@, res.unwrap().1 as int),
            Err(e) => res is Err && faults(res.unwrap_err(), bytes@.len(), e),
        },
{
    match read_quoted(bytes, pos) {
        Err(f) => Err(f),
        Ok((start, end, next)) => {
            match string_from_utf8(slice_to_vec(slice_subrange(bytes, start, end))) {
                None => Err(TextFault::Syntax { pos, kind: SyntaxKind::InvalidText }),
                Some(t) => Ok((t, next)),
            }
        },
    }
}

fn read_hex_blob(bytes: &[u8], pos: usize) -> (res: Result<(Vec<u8>, usize), TextFault>)
    requires
        pos <= bytes@.len(),
    ensures
        match parse_hex_blob_spec(rest_of(bytes@, pos as int), Seq::empty()) {
            Ok((b, r)) => res is Ok && res.unwrap().0@ == b && pos < res.unwrap().1 <= bytes@.len()
                && r == rest_of(bytes@, res.unwrap().1 as int),
            Err(e) => res is Err && faults(res.unwrap_err(), bytes@.len(), e),
        },
{
    let len = bytes.len();
    let mut out: Vec<u8> = Vec::new();
    let mut i: usize = pos;
    let ghost goal = parse_hex_blob_spec(rest_of(bytes@, pos as int), Seq::empty());
    while i < len
        invariant
            pos <= i <= len,
            len == bytes@.len(),
            goal == parse_hex_blob_spec(rest_of(bytes@, pos as int), Seq::empty()),
            goal == parse_hex_blob_spec(rest_of(bytes@, i as int), out@),
        decreases len - i,
    {
        let ghost s = rest_of(bytes@, i as int);
        proof {
            assert(s[0] == bytes@[i as int]);
            assert(rest_of(s, 1) =~= rest_of(bytes@, i + 1));
        }
        if bytes[i] == QUOTE {
            return Ok((out, i + 1));
        }
        match hex_val(bytes[i]) {
            None => {
                return Err(TextFault::Syntax { pos: i, kind: SyntaxKind::ExpectedHexDigit });
            },
            Some(h) => {
                if len - i < 2 {
                    return Err(TextFault::Unterminated);
                }
                proof {
                    assert(s[1] == bytes@[i + 1]);
                    assert(rest_of(s, 2) =~= rest_of(bytes@, i + 2));
                }
                match hex_val(bytes[i + 1]) {
                    None => {
                        return Err(
                            TextFault::Syntax { pos: i + 1, kind: SyntaxKind::ExpectedHexDigit },
                        );
                    },
                    Some(l) => {
                        out.push(16 * h + l);
                        i = i + 2;
                    },
                }
            },
        }
    }
    Err(TextFault::Unterminated)
}

fn read_words(bytes: &[u8], pos: usize) -> (res: Result<(Vec<u32>, usize), TextFault>)
    requires
        pos <= bytes@.len(),
    ensures
        match parse_words_spec(rest_of(bytes@, pos as int), Seq::empty()) {
            Ok((w, r)) => res is Ok && res.unwrap().0@ == w && pos < res.unwrap().1 <= bytes@.len()
                && r == rest_of(bytes@, res.unwrap().1 as int),
            Err(e) => res is Err && faults(res.unwrap_err(), bytes@.len(), e),
        },
{
    let len = bytes.len();
    let mut out: Vec<u32> = Vec::new();
    let mut i: usize = pos;
    let ghost goal = parse_words_spec(rest_of(bytes@, pos as int), Seq::empty());
    loop
        invariant
            pos <= i <= len,
            len == bytes@.len(),
            goal == parse_words_spec(rest_of(bytes@, pos as int), Seq::empty()),
            goal == parse_words_spec(rest_of(bytes@, i as int), out@),
        decreases len - i,
    {
        match read_hex(bytes, i, 8) {
            Err(f) => {
                return Err(f);
            },
            Ok((x, q)) => {
                if q >= len {
                    return Err(TextFault::Unterminated);
                }
                proof {
                    let r = rest_of(bytes@, q as int);
                    assert(r[0] == bytes@[q as int]);
                    assert(rest_of(r, 1) =~= rest_of(bytes@, q + 1));
                    lemma_pow16_bound(8);
                }
                let c = bytes[q];
                if c == COMMA {
                    out.push(x as u32);
                    i = q + 1;
                } else if c == CLOSE_BRACKET {
                    out.push(x as u32);
                    return Ok((out, q + 1));
                } else {
                    return Err(TextFault::Syntax { pos: q, kind: SyntaxKind::ExpectedSeparator });
                }
            },
        }
    }
}

fn read_value(bytes: &[u8], pos: usize) -> (res: Result<(Value, usize), TextFault>)
    requires
        pos <= bytes@.len(),
    ensures
        match parse_value_spec(rest_of(bytes@, pos as int)) {
            Ok((m, r)) => res is Ok && res.unwrap().0@ == m && res.unwrap().0.wf() && pos
                < res.unwrap().1 <= bytes@.len() && r == rest_of(bytes@, res.unwrap().1 as int),
            Err(e) => res is Err && faults(res.unwrap_err(), bytes@.len(), e),
        },
    decreases bytes@.len() - pos, 0nat,
{
    let len = bytes.len();
    if pos >= len {
        return Err(TextFault::Unterminated);
    }
    let c = bytes[pos];
    let ghost s = rest_of(bytes@, pos as int);
    proof {
        assert(s[0] == c);
        assert(rest_of(s, 1) =~= rest_of(bytes@, pos + 1));
    }
    let p = pos + 1;
    if c == LETTER_N {
        match read_word(bytes, pos, &vec![110u8, 117u8, 108u8, 108u8]) {
            Some(f) => Err(f),
            None => {
                proof {
                    assert(rest_of(s, 4) =~= rest_of(bytes@, pos + 4));
                }
                Ok((Value::Null, pos + 4))
            },
        }
    } else if c == LETTER_T {
        match read_word(bytes, pos, &vec![116u8, 114u8, 117u8, 101u8]) {
            Some(f) => Err(f),
            None => {
                proof {
                    assert(rest_of(s, 4) =~= rest_of(bytes@, pos + 4));
                }
                Ok((Value::Bool(true), pos + 4))
            },
        }
    } else if c == LETTER_F {
        match read_word(bytes, pos, &vec![102u8, 97u8, 108u8, 115u8, 101u8]) {
            Some(f) => Err(f),
            None => {
                proof {
                    assert(rest_of(s, 5) =~= rest_of(bytes@, pos + 5));
                }
                Ok((Value::Bool(false), pos + 5))
            },
        }
    } else if c == MINUS {
        match read_nat(bytes, p, 0x8000_0000_0000_0000) {
            None => Err(TextFault::Syntax { pos, kind: SyntaxKind::InvalidInteger }),
            Some((n, q)) => {
                if n == 0 {
                    Err(TextFault::Syntax { pos, kind: SyntaxKind::InvalidInteger })
                } else if n == 0x8000_0000_0000_0000 {
                    Ok((Value::Integer(i64::MIN), q))
                } else {
                    Ok((Value::Integer(-(n as i64)), q))
                }
            },
        }
    } else if 48 <= c && c <= 57 {
        match read_nat(bytes, pos, 0x7FFF_FFFF_FFFF_FFFF) {
            None => Err(TextFault::Syntax { pos, kind: SyntaxKind::InvalidInteger }),
            Some((n, q)) => Ok((Value::Integer(n as i64), q)),
        }
    } else if c == HASH {
        match read_hex(bytes, p, 16) {
            Err(f) => Err(f),
            Ok((x, q)) => Ok((Value::Float(x), q)),
        }
    } else if c == QUOTE {
        match read_text(bytes, pos) {
            Err(f) => Err(f),
            Ok((t, q)) => Ok((Value::String(t), q)),
        }
    } else if c == LETTER_X || c == LETTER_P {
        if p >= len {
            return Err(TextFault::Unterminated);
        }
        proof {
            let r = rest_of(bytes@, p as int);
            assert(r[0] == bytes@[p as int]);
            assert(rest_of(r, 1) =~= rest_of(bytes@, p + 1));
        }
        if bytes[p] != QUOTE {
            return Err(TextFault::Syntax { pos: p, kind: SyntaxKind::ExpectedQuote });
        }
        match read_hex_blob(bytes, p + 1) {
            Err(f) => Err(f),
            Ok((b, q)) => if c == LETTER_X {
                Ok((Value::Bytes(b), q))
            } else {
                Ok((Value::Spatial(b), q))
            },
        }
    } else if c == LETTER_V {
        if p >= len {
            return Err(TextFault::Unterminated);
        }
        proof {
            let r = rest_of(bytes@, p as int);
            assert(r[0] == bytes@[p as int]);
            assert(rest_of(r, 1) =~= rest_of(bytes@, p + 1));
        }
        if bytes[p] != OPEN_BRACKET {
            return Err(TextFault::Syntax { pos: p, kind: SyntaxKind::ExpectedValue });
        }
        let inner = p + 1;
        if inner >= len {
            return Err(TextFault::Unterminated);
        }
        proof {
            let r1 = rest_of(bytes@, inner as int);
            assert(r1[0] == bytes@[inner as int]);
            assert(rest_of(r1, 1) =~= rest_of(bytes@, inner + 1));
        }
        if bytes[inner] == CLOSE_BRACKET {
            let empty: Vec<u32> = Vec::new();
            return Ok((Value::Embedding(Vector::from_f32_bits(empty)), inner + 1));
        }
        match read_words(bytes, inner) {
            Err(f) => Err(f),
            Ok((w, q)) => Ok((Value::Embedding(Vector::from_f32_bits(w)), q)),
        }
    } else if c == OPEN_BRACKET {
        if p >= len {
            return Err(TextFault::Unterminated);
        }
        proof {
            let r = rest_of(bytes@, p as int);
            assert(r[0] == bytes@[p as int]);
            assert(rest_of(r, 1) =~= rest_of(bytes@, p + 1));
        }
        let mut items: Vec<Value> = Vec::new();
        if bytes[p] == CLOSE_BRACKET {
            let value = Value::Array(items);
            proof {
                assert(value@->Array_0 =~= Seq::<ValueModel>::empty());
            }
            return Ok((value, p + 1));
        }
        let mut at: usize = p;
        let ghost goal = parse_items_spec(rest_of(bytes@, p as int), Seq::empty());
        let ghost mut done: Seq<ValueModel> = Seq::empty();
        loop
            invariant
                pos < p <= at <= len,
                len == bytes@.len(),
                done.len() == items@.len(),
                forall|j: int| 0 <= j < items@.len() ==> (#[trigger] items@[j])@ == done[j],
                forall|j: int| 0 <= j < done.len() ==> value_wf(#[trigger] done[j]),
                s == rest_of(bytes@, pos as int),
                parse_value_spec(s) == match goal {
                    Err(e) => Err::<(ValueModel, Seq<u8>), Fault>(e),
                    Ok((found, r2)) => Ok((ValueModel::Array(found), r2)),
                },
                goal == parse_items_spec(rest_of(bytes@, at as int), done),
            decreases len - at,
        {
            match read_value(bytes, at) {
                Err(f) => {
                    return Err(f);
                },
                Ok((v, q)) => {
                    if q >= len {
                        return Err(TextFault::Unterminated);
                    }
                    proof {
                        let r = rest_of(bytes@, q as int);
                        assert(r[0] == bytes@[q as int]);
                        assert(rest_of(r, 1) =~= rest_of(bytes@, q + 1));
                        done = done.push(v@);
                    }
                    let sep = bytes[q];
                    if sep == COMMA {
                        items.push(v);
                        at = q + 1;
                    } else if sep == CLOSE_BRACKET {
                        items.push(v);
                        let value = Value::Array(items);
                        proof {
                            assert(value@->Array_0 =~= done);
                        }
                        return Ok((value, q + 1));
                    } else {
                        return Err(
                            TextFault::Syntax { pos: q, kind: SyntaxKind::ExpectedSeparator },
                        );
                    }
                },
            }
        }
    } else if c == OPEN_BRACE {
        match read_body(bytes, p) {
            Err(f) => Err(f),
            Ok((record, q)) => Ok((Value::Record(record), q)),
        }
    } else {
        Err(TextFault::Syntax { pos, kind: SyntaxKind::ExpectedValue })
    }
}

fn read_body(bytes: &[u8], pos: usize) -> (res: Result<(Record, usize), TextFault>)
    requires
        pos <= bytes@.len(),
    ensures
        match parse_body_spec(rest_of(bytes@, pos as int)) {
            Ok((m, r)) => res is Ok && res.unwrap().0@ == m && res.unwrap().0.wf() && pos
                < res.unwrap().1 <= bytes@.len() && r == rest_of(bytes@, res.unwrap().1 as int),
            Err(e) => res is Err && faults(res.unwrap_err(), bytes@.len(), e),
        },
    decreases bytes@.len() - pos, 1nat,
{
    let len = bytes.len();
    if pos >= len {
        return Err(TextFault::Unterminated);
    }
    proof {
        let s = rest_of(bytes@, pos as int);
        assert(s[0] == bytes@[pos as int]);
        assert(rest_of(s, 1) =~= rest_of(bytes@, pos + 1));
    }
    let mut record = Record::new();
    if bytes[pos] == CLOSE_BRACE {
        return Ok((record, pos + 1));
    }
    let mut at: usize = pos;
    let ghost goal = parse_fields_spec(rest_of(bytes@, pos as int), Seq::empty());
    loop
        invariant
            pos <= at <= len,
            len == bytes@.len(),
            record.wf(),
            goal == parse_body_spec(rest_of(bytes@, pos as int)),
            goal == parse_fields_spec(rest_of(bytes@, at as int), record@),
        decreases len - at,
    {
        match read_text(bytes, at) {
            Err(f) => {
                return Err(f);
            },
            Ok((name, q)) => {
                if name.as_str().is_empty() {
                    return Err(TextFault::Syntax { pos: at, kind: SyntaxKind::EmptyFieldName });
                }
                if record.position(name.as_str()).is_some() {
                    return Err(TextFault::DuplicateField { name });
                }
                if q >= len {
                    return Err(TextFault::Unterminated);
                }
                proof {
                    let r = rest_of(bytes@, q as int);
                    assert(r[0] == bytes@[q as int]);
                    assert(rest_of(r, 1) =~= rest_of(bytes@, q + 1));
                }
                if bytes[q] != COLON {
                    return Err(TextFault::Syntax { pos: q, kind: SyntaxKind::ExpectedColon });
                }
                match read_value(bytes, q + 1) {
                    Err(f) => {
                        return Err(f);
                    },
                    Ok((v, q2)) => {
                        if q2 >= len {
                            return Err(TextFault::Unterminated);
                        }
                        proof {
                            let r2 = rest_of(bytes@, q2 as int);
                            assert(r2[0] == bytes@[q2 as int]);
                            assert(rest_of(r2, 1) =~= rest_of(bytes@, q2 + 1));
                        }
                        let sep = bytes[q2];
                        if sep == COMMA {
                            record.push_field(name, v);
                            at = q2 + 1;
                        } else if sep == CLOSE_BRACE {
                            record.push_field(name, v);
                            return Ok((record, q2 + 1));
                        } else {
                            return Err(
                                TextFault::Syntax { pos: q2, kind: SyntaxKind::ExpectedSeparator },
                            );
                        }
                    },
                }
            },
        }
    }
}

/// A place in a text and what is wrong there. Lines and columns start at
/// one; a column counts bytes.
#[derive(Clone, Copy, Debug, PartialEq, Eq, Structural)]
pub struct SyntaxError {
    pub line: usize,
    pub column: usize,
    pub kind: SyntaxKind,
}

/// What a syntax error says about its kind.
pub open spec fn message_of(kind: SyntaxKind) -> Seq<char> {
    match kind {
        SyntaxKind::ExpectedRecord => "the text must open a record with `{`"@,
        SyntaxKind::ExpectedValue => "no value starts with this character"@,
        SyntaxKind::ExpectedKeyword => "expected `null`, `true` or `false`"@,
        SyntaxKind::InvalidInteger => "not a 64-bit integer in plain decimal form"@,
        SyntaxKind::InvalidLength => "the length of a string must be a plain decimal number"@,
        SyntaxKind::ExpectedHexDigit => "expected a lower-case hex digit"@,
        SyntaxKind::ExpectedQuote => "expected `\"`"@,
        SyntaxKind::ExpectedColon => "expected `:`"@,
        SyntaxKind::ExpectedSeparator => "expected `,` or the closing bracket"@,
        SyntaxKind::InvalidText => "the bytes of this string are not UTF-8"@,
        SyntaxKind::EmptyFieldName => "a field name must not be empty"@,
        SyntaxKind::TrailingCharacters => "nothing may follow the closing `}`"@,
    }
}

impl SyntaxError {
    /// What is wrong at the place of the error.
    pub fn message(&self) -> (m: String)
        ensures
            m@ == message_of(self.kind),
    {
        match self.kind {
            SyntaxKind::ExpectedRecord => String::from_str("the text must open a record with `{`"),
            SyntaxKind::ExpectedValue => String::from_str("no value starts with this character"),
            SyntaxKind::ExpectedKeyword => String::from_str("expected `null`, `true` or `false`"),
            SyntaxKind::InvalidInteger => String::from_str(
                "not a 64-bit integer in plain decimal form",
            ),
            SyntaxKind::InvalidLength => String::from_str(
                "the length of a string must be a plain decimal number",
            ),
            SyntaxKind::ExpectedHexDigit => String::from_str("expected a lower-case hex digit"),
            SyntaxKind::ExpectedQuote => String::from_str("expected `\"`"),
            SyntaxKind::ExpectedColon => String::from_str("expected `:`"),
            SyntaxKind::ExpectedSeparator => String::from_str(
                "expected `,` or the closing bracket",
            ),
            SyntaxKind::InvalidText => String::from_str("the bytes of this string are not UTF-8"),
            SyntaxKind::EmptyFieldName => String::from_str("a field name must not be empty"),
            SyntaxKind::TrailingCharacters => String::from_str(
                "nothing may follow the closing `}`",
            ),
        }
    }
}

/// Why a text could not be read as a record.
#[derive(Debug, PartialEq, Eq)]
pub enum TextError {
    /// A character that the syntax does not allow at its place.
    Syntax(SyntaxError),
    /// Two fields of one record share this name.
    DuplicateField { name: String },
    /// The text ends inside a record, an array or another value.
    UnterminatedStructure,
}

/// The mathematical content of a [`TextError`].
pub enum TextErrorModel {
    Syntax { line: nat, column: nat, kind: SyntaxKind },
    DuplicateField { name: Seq<char> },
    UnterminatedStructure,
}

impl View for TextError {
    type V = TextErrorModel;

    open spec fn view(&self) -> TextErrorModel {
        match self {
            TextError::Syntax(e) => TextErrorModel::Syntax {
                line: e.line as nat,
                column: e.column as nat,
                kind: e.kind,
            },
            TextError::DuplicateField { name } => TextErrorModel::DuplicateField { name: name@ },
            TextError::UnterminatedStructure => TextErrorModel::UnterminatedStructure,
        }
    }
}

/// The line and the column of the byte at `offset`: a line ends with the
/// byte 10.
pub open spec fn position_of(bytes: Seq<u8>, offset: nat) -> (nat, nat)
    decreases offset,
{
    if offset == 0 {
        (1, 1)
    } else {
        let before = position_of(bytes, (offset - 1) as nat);
        if bytes[offset - 1] == 10 {
            (before.0 + 1, 1)
        } else {
            (before.0, before.1 + 1)
        }
    }
}

/// A fault as a caller sees it: a syntax fault gets its line and column.
pub open spec fn located(bytes: Seq<u8>, f: Fault) -> TextErrorModel {
    match f {
        Fault::Syntax { remaining, kind } => {
            let at = position_of(bytes, (bytes.len() - remaining) as nat);
            TextErrorModel::Syntax { line: at.0, column: at.1, kind }
        },
        Fault::DuplicateField { name } => TextErrorModel::DuplicateField { name },
        Fault::Unterminated => TextErrorModel::UnterminatedStructure,
    }
}

/// Whether the text opens a record.
pub open spec fn starts_record(bytes: Seq<u8>) -> bool {
    bytes.len() > 0 && bytes[0] == OPEN_BRACE
}

/// The record that the text `bytes` stands for, or the first fault met
/// while reading it.
pub open spec fn parse_record_spec(bytes: Seq<u8>) -> Result<Seq<FieldModel>, TextErrorModel> {
    if !starts_record(bytes) {
        Err(TextErrorModel::Syntax { line: 1, column: 1, kind: SyntaxKind::ExpectedRecord })
    } else {
        match parse_body_spec(rest_of(bytes, 1)) {
            Err(f) => Err(located(bytes, f)),
            Ok((fields, r)) => if r.len() > 0 {
                Err(
                    located(
                        bytes,
                        Fault::Syntax { remaining: r.len(), kind: SyntaxKind::TrailingCharacters },
                    ),
                )
            } else {
                Ok(fields)
            },
        }
    }
}

fn locate(bytes: &[u8], pos: usize, kind: SyntaxKind) -> (e: TextError)
    requires
        pos < bytes@.len(),
    ensures
        e@ == located(bytes@, Fault::Syntax { remaining: (bytes@.len() - pos) as nat, kind }),
{
    let mut line: usize = 1;
    let mut column: usize = 1;
    let mut i: usize = 0;
    while i < pos
        invariant
            i <= pos < bytes@.len(),
            (line as nat, column as nat) == position_of(bytes@, i as nat),
            line <= i + 1,
            column <= i + 1,
        decreases pos - i,
    {
        if bytes[i] == 10 {
            line = line + 1;
            column = 1;
        } else {
            column = column + 1;
        }
        i = i + 1;
    }
    TextError::Syntax(SyntaxError { line, column, kind })
}

fn surface(bytes: &[u8], f: TextFault) -> (e: TextError)
    requires
        f is Syntax ==> f->pos < bytes@.len(),
    ensures
        e@ == located(bytes@, fault_of(f, bytes@.len())),
{
    match f {
        TextFault::Syntax { pos, kind } => locate(bytes, pos, kind),
        TextFault::DuplicateField { name } => TextError::DuplicateField { name },
        TextFault::Unterminated => TextError::UnterminatedStructure,
    }
}

/// A reader of one text.
#[derive(Debug)]
pub struct Parser {
    bytes: Vec<u8>,
}

impl View for Parser {
    type V = Seq<u8>;

    closed spec fn view(&self) -> Seq<u8> {
        self.bytes@
    }
}

impl Parser {
    /// A parser for `text`, once the text is seen to open a record.
    pub fn new(text: &str) -> (res: Result<Parser, TextError>)
        ensures
            starts_record(encode_utf8(text@)) ==> res is Ok && res.unwrap()@ == encode_utf8(text@),
            !starts_record(encode_utf8(text@)) ==> res is Err && res.unwrap_err()@
                == (TextErrorModel::Syntax {
                line: 1,
                column: 1,
                kind: SyntaxKind::ExpectedRecord,
            }),
    {
        Parser::from_bytes(text.as_bytes())
    }

    /// A parser for a text given as its bytes, once they are seen to open a
    /// record. Bytes that are not UTF-8 are found when the string or the
    /// name that holds them is read.
    pub fn from_bytes(bytes: &[u8]) -> (res: Result<Parser, TextError>)
        ensures
            starts_record(bytes@) ==> res is Ok && res.unwrap()@ == bytes@,
            !starts_record(bytes@) ==> res is Err && res.unwrap_err()@ == (TextErrorModel::Syntax {
                line: 1,
                column: 1,
                kind: SyntaxKind::ExpectedRecord,
            }),
    {
        if bytes.len() == 0 || bytes[0] != OPEN_BRACE {
            return Err(
                TextError::Syntax(
                    SyntaxError { line: 1, column: 1, kind: SyntaxKind::ExpectedRecord },
                ),
            );
        }
        Ok(Parser { bytes: slice_to_vec(bytes) })
    }

    /// Reads the whole text as one record.
    pub fn parse_record(self) -> (res: Result<Record, TextError>)
        ensures
            match parse_record_spec(self@) {
                Ok(fields) => res is Ok && res.unwrap()@ == fields && res.unwrap().wf(),
                Err(e) => res is Err && res.unwrap_err()@ == e,
            },
    {
        let bytes = self.bytes.as_slice();
        if bytes.len() == 0 || bytes[0] != OPEN_BRACE {
            return Err(
                TextError::Syntax(
                    SyntaxError { line: 1, column: 1, kind: SyntaxKind::ExpectedRecord },
                ),
            );
        }
        match read_body(bytes, 1) {
            Err(f) => Err(surface(bytes, f)),
            Ok((record, next)) => {
                if next < bytes.len() {
                    Err(locate(bytes, next, SyntaxKind::TrailingCharacters))
                } else {
                    Ok(record)
                }
            },
        }
    }
}

proof fn lemma_decimal_digits(n: nat)
    ensures
        decimal(n).len() >= 1,
        forall|i: int| 0 <= i < decimal(n).len() ==> is_digit(#[trigger] decimal(n)[i]),
        decimal(n)[0] == 48 ==> n == 0,
        digits_value(decimal(n)) == n,
    decreases n,
{
    if n >= 10 {
        lemma_decimal_digits(n / 10);
        assert(decimal(n).drop_last() =~= decimal(n / 10));
        assert(decimal(n).last() == (48 + n % 10) as u8);
        assert(decimal(n)[0] == decimal(n / 10)[0]);
    } else {
        assert(decimal(n).drop_last() =~= Seq::<u8>::empty());
        assert(digits_value(Seq::<u8>::empty()) == 0);
        assert(decimal(n).last() == (48 + n) as u8);
    }
}

proof fn lemma_hex_fixed_digits(x: nat, width: nat)
    ensures
        hex_fixed(x, width).len() == width,
        forall|i: int|
            0 <= i < width ==> hex_value(#[trigger] hex_fixed(x, width)[i]) is Some && hex_fixed(
                x,
                width,
            )[i] < 128 && hex_fixed(x, width)[i] != QUOTE,
    decreases width,
{
    if width > 0 {
        lemma_hex_fixed_digits(x / 16, (width - 1) as nat);
    }
}

proof fn lemma_hex_bytes_ascii(b: Seq<u8>)
    ensures
        forall|i: int| 0 <= i < hex_bytes(b).len() ==> (#[trigger] hex_bytes(b)[i]) < 128,
    decreases b.len(),
{
    if b.len() > 0 {
        let head = hex_fixed(b[0] as nat, 2);
        let tail = hex_bytes(b.subrange(1, b.len() as int));
        lemma_hex_fixed_digits(b[0] as nat, 2);
        lemma_hex_bytes_ascii(b.subrange(1, b.len() as int));
        assert forall|i: int| 0 <= i < hex_bytes(b).len() implies (#[trigger] hex_bytes(b)[i])
            < 128 by {
            if i < 2 {
                assert(hex_bytes(b)[i] == head[i]);
            } else {
                assert(hex_bytes(b)[i] == tail[i - 2]);
            }
        }
    }
}

proof fn lemma_hex_words_ascii(w: Seq<u32>)
    ensures
        forall|i: int| 0 <= i < hex_words(w).len() ==> (#[trigger] hex_words(w)[i]) < 128,
    decreases w.len(),
{
    if w.len() > 0 {
        let head = hex_fixed(w[0] as nat, 8);
        let tail = hex_words(w.subrange(1, w.len() as int));
        lemma_hex_fixed_digits(w[0] as nat, 8);
        lemma_hex_words_ascii(w.subrange(1, w.len() as int));
        assert forall|i: int| 0 <= i < hex_words(w).len() implies (#[trigger] hex_words(w)[i])
            < 128 by {
            if i < 8 {
                assert(hex_words(w)[i] == head[i]);
            } else if w.len() > 1 {
                if i == 8 {
                    assert(hex_words(w)[i] == COMMA);
                } else {
                    assert(hex_words(w)[i] == tail[i - 9]);
                }
            }
        }
    }
}

proof fn lemma_quoted_valid(b: Seq<u8>)
    requires
        valid_utf8(b),
    ensures
        valid_utf8(quoted(b)),
{
    lemma_decimal_digits(b.len());
    let head = seq![QUOTE] + decimal(b.len()) + seq![COLON];
    lemma_ascii_valid(head);
    lemma_ascii_valid(seq![QUOTE]);
    vstd::utf8::valid_utf8_concat(head, b);
    vstd::utf8::valid_utf8_concat(head + b, seq![QUOTE]);
    assert(quoted(b) =~= head + b + seq![QUOTE]);
}

/// The text of a value is valid UTF-8.
pub proof fn lemma_value_text_valid(v: ValueModel)
    ensures
        valid_utf8(value_text(v)),
    decreases v, 0nat,
{
    match v {
        ValueModel::Null => {
            lemma_ascii_valid(value_text(v));
        },
        ValueModel::Bool(b) => {
            lemma_ascii_valid(value_text(v));
        },
        ValueModel::Integer(i) => {
            if i >= 0 {
                lemma_decimal_digits(i as nat);
            } else {
                lemma_decimal_digits((-i) as nat);
            }
            lemma_ascii_valid(value_text(v));
        },
        ValueModel::Float(bits) => {
            lemma_hex_fixed_digits(bits as nat, 16);
            lemma_ascii_valid(value_text(v));
        },
        ValueModel::Text(t) => {
            vstd::utf8::encode_utf8_valid_utf8(t);
            lemma_quoted_valid(encode_utf8(t));
        },
        ValueModel::Bytes(b) => {
            lemma_hex_bytes_ascii(b);
            lemma_ascii_valid(value_text(v));
        },
        ValueModel::Spatial(b) => {
            lemma_hex_bytes_ascii(b);
            lemma_ascii_valid(value_text(v));
        },
        ValueModel::Embedding(w) => {
            lemma_hex_words_ascii(w);
            lemma_ascii_valid(value_text(v));
        },
        ValueModel::Array(items) => {
            lemma_items_text_valid(items);
            lemma_ascii_valid(seq![OPEN_BRACKET]);
            lemma_ascii_valid(seq![CLOSE_BRACKET]);
            vstd::utf8::valid_utf8_concat(seq![OPEN_BRACKET], items_text(items));
            vstd::utf8::valid_utf8_concat(
                seq![OPEN_BRACKET] + items_text(items),
                seq![CLOSE_BRACKET],
            );
        },
        ValueModel::Record(fields) => {
            lemma_fields_text_valid(fields);
            lemma_ascii_valid(seq![OPEN_BRACE]);
            lemma_ascii_valid(seq![CLOSE_BRACE]);
            vstd::utf8::valid_utf8_concat(seq![OPEN_BRACE], fields_text(fields));
            vstd::utf8::valid_utf8_concat(seq![OPEN_BRACE] + fields_text(fields), seq![CLOSE_BRACE]);
        },
    }
}

proof fn lemma_items_text_valid(items: Seq<ValueModel>)
    ensures
        valid_utf8(items_text(items)),
    decreases items, 1nat,
{
    if items.len() == 0 {
    } else if items.len() == 1 {
        lemma_value_text_valid(items[0]);
    } else {
        let rest = items.subrange(1, items.len() as int);
        lemma_value_text_valid(items[0]);
        lemma_items_text_valid(rest);
        lemma_ascii_valid(seq![COMMA]);
        vstd::utf8::valid_utf8_concat(value_text(items[0]), seq![COMMA]);
        vstd::utf8::valid_utf8_concat(value_text(items[0]) + seq![COMMA], items_text(rest));
    }
}

proof fn lemma_field_text_valid(f: FieldModel)
    ensures
        valid_utf8(field_text(f)),
    decreases f, 0nat,
{
    vstd::utf8::encode_utf8_valid_utf8(f.name);
    lemma_quoted_valid(encode_utf8(f.name));
    lemma_value_text_valid(f.value);
    lemma_ascii_valid(seq![COLON]);
    vstd::utf8::valid_utf8_concat(quoted(encode_utf8(f.name)), seq![COLON]);
    vstd::utf8::valid_utf8_concat(quoted(encode_utf8(f.name)) + seq![COLON], value_text(f.value));
}

proof fn lemma_fields_text_valid(fields: Seq<FieldModel>)
    ensures
        valid_utf8(fields_text(fields)),
    decreases fields, 1nat,
{
    if fields.len() == 0 {
    } else if fields.len() == 1 {
        lemma_field_text_valid(fields[0]);
    } else {
        let rest = fields.subrange(1, fields.len() as int);
        lemma_field_text_valid(fields[0]);
        lemma_fields_text_valid(rest);
        lemma_ascii_valid(seq![COMMA]);
        vstd::utf8::valid_utf8_concat(field_text(fields[0]), seq![COMMA]);
        vstd::utf8::valid_utf8_concat(field_text(fields[0]) + seq![COMMA], fields_text(rest));
    }
}

/// The text of a record is valid UTF-8.
pub proof fn lemma_record_text_valid(fields: Seq<FieldModel>)
    ensures
        valid_utf8(record_text(fields)),
{
    lemma_value_text_valid(ValueModel::Record(fields));
}

/// Writes records as text.
pub struct Encoder {}

impl Encoder {
    /// An encoder; it has no settings.
    pub fn new() -> (e: Encoder) {
        Encoder {  }
    }

    /// The text of `record`: its fields in insertion order, nested values
    /// written in place.
    pub fn encode(&self, record: &Record) -> (text: String)
        ensures
            encode_utf8(text@) == record_text(record@),
    {
        let mut out: Vec<u8> = Vec::new();
        out.push(OPEN_BRACE);
        let ghost start = out@;
        let ghost models = record@;
        let mut i: usize = 0;
        proof {
            assert(out@ =~= start + fields_text(models.subrange(0, 0)));
        }
        while i < record.len()
            invariant
                i <= record@.len(),
                models == record@,
                start == seq![OPEN_BRACE],
                out@ == start + fields_text(models.subrange(0, i as int)),
            decreases record@.len() - i,
        {
            if i > 0 {
                out.push(COMMA);
            }
            let f = record.field(i);
            put_quoted(&mut out, f.name.as_str().as_bytes());
            out.push(COLON);
            put_value_text(&mut out, &f.value);
            proof {
                lemma_fields_text_push(models.subrange(0, i as int), models[i as int]);
                assert(models.subrange(0, i + 1) =~= models.subrange(0, i as int).push(
                    models[i as int],
                ));
                assert(field_text(models[i as int]) == quoted(encode_utf8(models[i as int].name))
                    + seq![COLON] + value_text(models[i as int].value));
                assert(out@ =~= start + fields_text(models.subrange(0, i + 1)));
            }
            i = i + 1;
        }
        out.push(CLOSE_BRACE);
        proof {
            assert(models.subrange(0, i as int) =~= models);
            assert(out@ =~= record_text(record@));
            lemma_record_text_valid(record@);
            vstd::utf8::decode_utf8_encode_utf8(out@);
        }
        match string_from_utf8(out) {
            Some(text) => text,
            None => String::new(),
        }
    }
}

/// No digit follows: what comes next is nothing or some other byte.
pub open spec fn no_digit_ahead(suf: Seq<u8>) -> bool {
    suf.len() == 0 || !is_digit(suf[0])
}

proof fn lemma_parse_decimal(n: nat, limit: nat, suf: Seq<u8>)
    requires
        n <= limit,
        no_digit_ahead(suf),
    ensures
        parse_nat_spec(decimal(n) + suf, limit) == Some((n, suf)),
        decimal(n).len() >= 1,
        is_digit((decimal(n) + suf)[0]),
{
    let d = decimal(n);
    let s = d + suf;
    lemma_decimal_digits(n);
    assert forall|j: int| 0 <= j < d.len() implies is_digit(#[trigger] s[j]) by {
        assert(s[j] == d[j]);
    }
    if d.len() < s.len() {
        assert(s[d.len() as int] == suf[0]);
    }
    lemma_digit_run(s, d.len());
    assert(s.subrange(0, d.len() as int) =~= d);
    assert(rest_of(s, d.len() as int) =~= suf);
    assert(s[0] == d[0]);
    if d[0] == 48 {
        assert(decimal(0).len() == 1);
    }
}

proof fn lemma_parse_hex_compose(s: Seq<u8>, width: nat, acc: nat)
    ensures
        parse_hex_spec(s, width + 1, acc) == match parse_hex_spec(s, width, acc) {
            Err(e) => Err::<(nat, Seq<u8>), Fault>(e),
            Ok((a, r)) => parse_hex_spec(r, 1, a),
        },
    decreases width,
{
    if width > 0 && s.len() > 0 {
        match hex_value(s[0]) {
            None => {},
            Some(h) => {
                lemma_parse_hex_compose(rest_of(s, 1), (width - 1) as nat, 16 * acc + h);
            },
        }
    }
}

proof fn lemma_parse_hex_fixed(x: nat, width: nat, acc: nat, suf: Seq<u8>)
    requires
        x < pow16(width),
    ensures
        parse_hex_spec(hex_fixed(x, width) + suf, width, acc) == Ok::<(nat, Seq<u8>), Fault>(
            (acc * pow16(width) + x, suf),
        ),
    decreases width,
{
    if width == 0 {
        assert(hex_fixed(x, width) + suf =~= suf);
        assert(acc * 1 + 0 == acc) by (nonlinear_arith);
    } else {
        let w = (width - 1) as nat;
        let front = hex_fixed(x / 16, w);
        let digit = hex_digit(x % 16);
        let tail = seq![digit] + suf;
        assert(hex_fixed(x, width) + suf =~= front + tail);
        lemma_parse_hex_fixed(x / 16, w, acc, tail);
        lemma_parse_hex_compose(front + tail, w, acc);
        let a = acc * pow16(w) + x / 16;
        assert(tail[0] == digit);
        assert(hex_value(digit) == Some(x % 16));
        assert(rest_of(tail, 1) =~= suf);
        assert(parse_hex_spec(rest_of(tail, 1), 0, 16 * a + x % 16) == Ok::<
            (nat, Seq<u8>),
            Fault,
        >((16 * a + x % 16, suf)));
        assert(16 * a + x % 16 == acc * pow16(width) + x) by (nonlinear_arith)
            requires
                a == acc * pow16(w) + x / 16,
                pow16(width) == 16 * pow16(w),
        ;
    }
}

proof fn lemma_parse_hex_blob(b: Seq<u8>, done: Seq<u8>, suf: Seq<u8>)
    ensures
        parse_hex_blob_spec(hex_bytes(b) + seq![QUOTE] + suf, done) == Ok::<
            (Seq<u8>, Seq<u8>),
            Fault,
        >((done + b, suf)),
    decreases b.len(),
{
    let s = hex_bytes(b) + seq![QUOTE] + suf;
    if b.len() == 0 {
        assert(s =~= seq![QUOTE] + suf);
        assert(rest_of(s, 1) =~= suf);
        assert(done + b =~= done);
    } else {
        let x = b[0];
        let rest = b.subrange(1, b.len() as int);
        let pair = hex_fixed(x as nat, 2);
        reveal_with_fuel(hex_fixed, 3);
        assert(pair =~= seq![hex_digit((x / 16) as nat), hex_digit((x % 16) as nat)]);
        assert(s =~= pair + (hex_bytes(rest) + seq![QUOTE] + suf));
        assert(s[0] == hex_digit((x / 16) as nat));
        assert(s[1] == hex_digit((x % 16) as nat));
        assert(rest_of(s, 2) =~= hex_bytes(rest) + seq![QUOTE] + suf);
        lemma_parse_hex_blob(rest, done.push(x), suf);
        assert(done.push(x) + rest =~= done + b);
    }
}

proof fn lemma_parse_words(w: Seq<u32>, done: Seq<u32>, suf: Seq<u8>)
    requires
        w.len() >= 1,
    ensures
        parse_words_spec(hex_words(w) + seq![CLOSE_BRACKET] + suf, done) == Ok::<
            (Seq<u32>, Seq<u8>),
            Fault,
        >((done + w, suf)),
        (hex_words(w) + seq![CLOSE_BRACKET] + suf)[0] != CLOSE_BRACKET,
    decreases w.len(),
{
    let s = hex_words(w) + seq![CLOSE_BRACKET] + suf;
    let first = w[0];
    lemma_pow16_bound(8);
    lemma_hex_fixed_digits(first as nat, 8);
    assert(0 * pow16(8) + first as nat == first as nat) by (nonlinear_arith);
    if w.len() == 1 {
        let after = seq![CLOSE_BRACKET] + suf;
        assert(s =~= hex_fixed(first as nat, 8) + after);
        lemma_parse_hex_fixed(first as nat, 8, 0, after);
        assert(rest_of(after, 1) =~= suf);
        assert(done.push(first) =~= done + w);
        assert(s[0] == hex_fixed(first as nat, 8)[0]);
    } else {
        let rest = w.subrange(1, w.len() as int);
        let after = seq![COMMA] + (hex_words(rest) + seq![CLOSE_BRACKET] + suf);
        assert(s =~= hex_fixed(first as nat, 8) + after);
        lemma_parse_hex_fixed(first as nat, 8, 0, after);
        assert(rest_of(after, 1) =~= hex_words(rest) + seq![CLOSE_BRACKET] + suf);
        lemma_parse_words(rest, done.push(first), suf);
        assert(done.push(first) + rest =~= done + w);
        assert(s[0] == hex_fixed(first as nat, 8)[0]);
    }
}

proof fn lemma_parse_quoted(b: Seq<u8>, suf: Seq<u8>)
    requires
        b.len() <= u64::MAX,
    ensures
        parse_quoted_spec(quoted(b) + suf) == Ok::<(Seq<u8>, Seq<u8>), Fault>((b, suf)),
        (quoted(b) + suf)[0] == QUOTE,
{
    let s = quoted(b) + suf;
    let after_len = seq![COLON] + (b + (seq![QUOTE] + suf));
    let r = rest_of(s, 1);
    assert(r =~= decimal(b.len()) + after_len);
    lemma_parse_decimal(b.len(), u64::MAX as nat, after_len);
    let r3 = rest_of(after_len, 1);
    assert(r3 =~= b + (seq![QUOTE] + suf));
    let r4 = rest_of(r3, b.len() as int);
    assert(r4 =~= seq![QUOTE] + suf);
    assert(r3.subrange(0, b.len() as int) =~= b);
    assert(rest_of(r4, 1) =~= suf);
}

proof fn lemma_parse_text(t: Seq<char>, suf: Seq<u8>)
    requires
        encode_utf8(t).len() <= u64::MAX,
    ensures
        parse_text_spec(quoted(encode_utf8(t)) + suf) == Ok::<(Seq<char>, Seq<u8>), Fault>(
            (t, suf),
        ),
        (quoted(encode_utf8(t)) + suf)[0] == QUOTE,
{
    lemma_parse_quoted(encode_utf8(t), suf);
    vstd::utf8::encode_utf8_valid_utf8(t);
    vstd::utf8::encode_utf8_decode_utf8(t);
}

/// The text of a value is not empty and does not begin with a closing
/// bracket.
proof fn lemma_value_text_first(v: ValueModel)
    ensures
        value_text(v).len() >= 1,
        value_text(v)[0] != CLOSE_BRACKET,
{
    match v {
        ValueModel::Integer(i) => {
            if i >= 0 {
                lemma_decimal_digits(i as nat);
            }
        },
        _ => {},
    }
}

/// Reading the text of a value gives back the value and leaves exactly
/// what followed it, provided that no digit follows: a digit would run on
/// into an integer.
#[verifier::rlimit(80)]
pub proof fn lemma_value_text_round_trip(v: ValueModel, suf: Seq<u8>)
    requires
        value_wf(v),
        value_fits(v),
        no_digit_ahead(suf),
    ensures
        parse_value_spec(value_text(v) + suf) == Ok::<(ValueModel, Seq<u8>), Fault>((v, suf)),
    decreases v, 0nat,
{
    let s = value_text(v) + suf;
    let r = rest_of(s, 1);
    match v {
        ValueModel::Null => {
            reveal_with_fuel(keyword_fault, 6);
            assert(rest_of(s, 4) =~= suf);
        },
        ValueModel::Bool(b) => {
            reveal_with_fuel(keyword_fault, 6);
            if b {
                assert(rest_of(s, 4) =~= suf);
            } else {
                assert(rest_of(s, 5) =~= suf);
            }
        },
        ValueModel::Integer(i) => {
            if i >= 0 {
                lemma_parse_decimal(i as nat, 0x7FFF_FFFF_FFFF_FFFF, suf);
            } else {
                let n = (-i) as nat;
                lemma_parse_decimal(n, 0x8000_0000_0000_0000, suf);
                assert(r =~= decimal(n) + suf);
            }
        },
        ValueModel::Float(bits) => {
            lemma_pow16_bound(16);
            assert(0 * pow16(16) + bits as nat == bits as nat) by (nonlinear_arith);
            lemma_parse_hex_fixed(bits as nat, 16, 0, suf);
            assert(r =~= hex_fixed(bits as nat, 16) + suf);
        },
        ValueModel::Text(t) => {
            lemma_parse_text(t, suf);
        },
        ValueModel::Bytes(b) => {
            lemma_parse_hex_blob(b, Seq::empty(), suf);
            assert(rest_of(r, 1) =~= hex_bytes(b) + seq![QUOTE] + suf);
            assert(Seq::<u8>::empty() + b =~= b);
        },
        ValueModel::Spatial(b) => {
            lemma_parse_hex_blob(b, Seq::empty(), suf);
            assert(rest_of(r, 1) =~= hex_bytes(b) + seq![QUOTE] + suf);
            assert(Seq::<u8>::empty() + b =~= b);
        },
        ValueModel::Embedding(w) => {
            let r1 = rest_of(r, 1);
            assert(r1 =~= hex_words(w) + seq![CLOSE_BRACKET] + suf);
            if w.len() == 0 {
                assert(rest_of(r1, 1) =~= suf);
                assert(w =~= Seq::<u32>::empty());
            } else {
                lemma_parse_words(w, Seq::empty(), suf);
                assert(Seq::<u32>::empty() + w =~= w);
            }
        },
        ValueModel::Array(items) => {
            assert(r =~= items_text(items) + seq![CLOSE_BRACKET] + suf);
            if items.len() == 0 {
                assert(rest_of(r, 1) =~= suf);
                assert(items =~= Seq::<ValueModel>::empty());
            } else {
                lemma_value_text_first(items[0]);
                assert(r[0] == value_text(items[0])[0]);
                lemma_items_text_round_trip(items, Seq::empty(), suf);
                assert(Seq::<ValueModel>::empty() + items =~= items);
            }
        },
        ValueModel::Record(fields) => {
            assert(record_wf(fields));
            assert(fields_fit(fields));
            lemma_body_round_trip(fields, suf);
            assert(r =~= fields_text(fields) + seq![CLOSE_BRACE] + suf);
        },
    }
}

/// Reading the text of some values up to the closing bracket gives the
/// values back, after those already read.
#[verifier::rlimit(80)]
pub proof fn lemma_items_text_round_trip(
    items: Seq<ValueModel>,
    done: Seq<ValueModel>,
    suf: Seq<u8>,
)
    requires
        items.len() >= 1,
        forall|i: int| 0 <= i < items.len() ==> value_wf(#[trigger] items[i]),
        forall|i: int| 0 <= i < items.len() ==> value_fits(#[trigger] items[i]),
    ensures
        parse_items_spec(items_text(items) + seq![CLOSE_BRACKET] + suf, done) == Ok::<
            (Seq<ValueModel>, Seq<u8>),
            Fault,
        >((done + items, suf)),
    decreases items, 1nat,
{
    let s = items_text(items) + seq![CLOSE_BRACKET] + suf;
    let first = items[0];
    if items.len() == 1 {
        let after = seq![CLOSE_BRACKET] + suf;
        assert(s =~= value_text(first) + after);
        lemma_value_text_round_trip(first, after);
        assert(rest_of(after, 1) =~= suf);
        assert(done.push(first) =~= done + items);
    } else {
        let rest = items.subrange(1, items.len() as int);
        let after = seq![COMMA] + (items_text(rest) + seq![CLOSE_BRACKET] + suf);
        assert(s =~= value_text(first) + after);
        lemma_value_text_round_trip(first, after);
        assert(rest_of(after, 1) =~= items_text(rest) + seq![CLOSE_BRACKET] + suf);
        lemma_items_text_round_trip(rest, done.push(first), suf);
        assert(done.push(first) + rest =~= done + items);
    }
}

/// Reading the text of some fields up to the closing brace gives the
/// fields back, after those already read.
#[verifier::rlimit(80)]
pub proof fn lemma_fields_text_round_trip(
    fields: Seq<FieldModel>,
    done: Seq<FieldModel>,
    suf: Seq<u8>,
)
    requires
        fields.len() >= 1,
        record_wf(done + fields),
        fields_fit(fields),
    ensures
        parse_fields_spec(fields_text(fields) + seq![CLOSE_BRACE] + suf, done) == Ok::<
            (Seq<FieldModel>, Seq<u8>),
            Fault,
        >((done + fields, suf)),
        (fields_text(fields) + seq![CLOSE_BRACE] + suf)[0] == QUOTE,
    decreases fields, 1nat,
{
    let all = done + fields;
    let s = fields_text(fields) + seq![CLOSE_BRACE] + suf;
    let first = fields[0];
    let name_text = quoted(encode_utf8(first.name));
    assert(field_text(first) == name_text + seq![COLON] + value_text(first.value));
    assert(all[done.len() as int] == first);
    assert(first.name.len() > 0);
    assert(value_wf(first.value));
    assert(!has_name(done, first.name)) by {
        if has_name(done, first.name) {
            let i = choose|i: int| 0 <= i < done.len() && (#[trigger] done[i]).name == first.name;
            assert(all[i] == done[i]);
            assert(all[i].name != all[done.len() as int].name);
        }
    }
    if fields.len() == 1 {
        let after = seq![CLOSE_BRACE] + suf;
        let after_name = seq![COLON] + (value_text(first.value) + after);
        assert(s =~= name_text + after_name);
        lemma_parse_text(first.name, after_name);
        assert(rest_of(after_name, 1) =~= value_text(first.value) + after);
        lemma_value_text_round_trip(first.value, after);
        assert(rest_of(after, 1) =~= suf);
        assert(done.push(first) =~= all);
    } else {
        let rest = fields.subrange(1, fields.len() as int);
        let after = seq![COMMA] + (fields_text(rest) + seq![CLOSE_BRACE] + suf);
        let after_name = seq![COLON] + (value_text(first.value) + after);
        assert(s =~= name_text + after_name);
        lemma_parse_text(first.name, after_name);
        assert(rest_of(after_name, 1) =~= value_text(first.value) + after);
        lemma_value_text_round_trip(first.value, after);
        assert(rest_of(after, 1) =~= fields_text(rest) + seq![CLOSE_BRACE] + suf);
        assert(done.push(first) + rest =~= all);
        assert forall|i: int| 0 <= i < rest.len() implies encode_utf8(
            (#[trigger] rest[i]).name,
        ).len() <= u64::MAX && value_fits(rest[i].value) by {
            assert(rest[i] == fields[i + 1]);
        }
        lemma_fields_text_round_trip(rest, done.push(first), suf);
    }
}

/// Reading what follows the opening brace of a record's text gives the
/// fields back.
pub proof fn lemma_body_round_trip(fields: Seq<FieldModel>, suf: Seq<u8>)
    requires
        record_wf(fields),
        fields_fit(fields),
    ensures
        parse_body_spec(fields_text(fields) + seq![CLOSE_BRACE] + suf) == Ok::<
            (Seq<FieldModel>, Seq<u8>),
            Fault,
        >((fields, suf)),
    decreases fields, 2nat,
{
    let s = fields_text(fields) + seq![CLOSE_BRACE] + suf;
    if fields.len() == 0 {
        assert(s =~= seq![CLOSE_BRACE] + suf);
        assert(rest_of(s, 1) =~= suf);
        assert(fields =~= Seq::<FieldModel>::empty());
    } else {
        assert(Seq::<FieldModel>::empty() + fields =~= fields);
        lemma_fields_text_round_trip(fields, Seq::empty(), suf);
    }
}

/// Parsing the text of a record gives back a record with the same fields
/// in the same order.
pub proof fn lemma_record_text_round_trip(fields: Seq<FieldModel>)
    requires
        record_wf(fields),
        fields_fit(fields),
    ensures
        parse_record_spec(record_text(fields)) == Ok::<Seq<FieldModel>, TextErrorModel>(fields),
{
    let bytes = record_text(fields);
    lemma_body_round_trip(fields, Seq::empty());
    assert(rest_of(bytes, 1) =~= fields_text(fields) + seq![CLOSE_BRACE] + Seq::<u8>::empty());
}

/// The record without fields is written as `{}` and parses to itself.
pub proof fn lemma_empty_record_text_round_trip()
    ensures
        record_text(Seq::empty()) == seq![OPEN_BRACE, CLOSE_BRACE],
        parse_record_spec(record_text(Seq::empty())) == Ok::<Seq<FieldModel>, TextErrorModel>(
            Seq::empty(),
        ),
{
    lemma_record_text_round_trip(Seq::empty());
    assert(record_text(Seq::empty()) =~= seq![OPEN_BRACE, CLOSE_BRACE]);
}

} // verus!
