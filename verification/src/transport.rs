//! Envelope metadata as HTTP headers, and back.
//!
//! The mapping itself is that of the `lnmp` transport layer; what is
//! decided here is which entries pass: on the way out those whose value is
//! visible text, on the way in those that a header map accepts.

use crate::envelope::{Envelope, EnvelopeModel, Metadata};
use crate::outside::{
    entries_view, header_name_ok, header_value_ok, pairs_view, valid_header_name,
    valid_header_value,
};
use crate::strings::{lemma_ascii_valid, string_from_utf8};
use crate::value::{FieldModel, Record};
use vstd::prelude::*;
use vstd::slice::slice_to_vec;
use vstd::utf8::decode_utf8;

verus! {

/// A byte of visible text: a printable ASCII character or a tab.
pub open spec fn is_visible(b: u8) -> bool {
    (b >= 32 && b < 127) || b == 9
}

/// Whether every byte is one of visible text.
pub open spec fn all_visible(bytes: Seq<u8>) -> bool {
    forall|i: int| 0 <= i < bytes.len() ==> is_visible(#[trigger] bytes[i])
}

/// The entries whose value is visible text, in order, each value as text.
pub open spec fn visible_entries(entries: Seq<(Seq<char>, Seq<u8>)>) -> Seq<
    (Seq<char>, Seq<char>),
>
    decreases entries.len(),
{
    if entries.len() == 0 {
        Seq::empty()
    } else {
        let front = visible_entries(entries.drop_last());
        let e = entries.last();
        if all_visible(e.1) {
            front.push((e.0, decode_utf8(e.1)))
        } else {
            front
        }
    }
}

/// The entries that a header map accepts, in order: those with a valid
/// name and a valid value.
pub open spec fn accepted_entries(pairs: Seq<(Seq<char>, Seq<char>)>) -> Seq<
    (Seq<char>, Seq<char>),
>
    decreases pairs.len(),
{
    if pairs.len() == 0 {
        Seq::empty()
    } else {
        let front = accepted_entries(pairs.drop_last());
        let p = pairs.last();
        if valid_header_name(p.0) && valid_header_value(p.1) {
            front.push(p)
        } else {
            front
        }
    }
}

/// The bytes as text, if all of them are visible.
pub fn visible_text(bytes: &Vec<u8>) -> (res: Option<String>)
    ensures
        all_visible(bytes@) ==> res is Some && res.unwrap()@ == decode_utf8(bytes@),
        !all_visible(bytes@) ==> res is None,
{
    let mut i: usize = 0;
    while i < bytes.len()
        invariant
            i <= bytes@.len(),
            forall|j: int| 0 <= j < i ==> is_visible(#[trigger] bytes@[j]),
        decreases bytes@.len() - i,
    {
        let b = bytes[i];
        if !((b >= 32 && b < 127) || b == 9) {
            return None;
        }
        i = i + 1;
    }
    proof {
        lemma_ascii_valid(bytes@);
    }
    string_from_utf8(slice_to_vec(bytes.as_slice()))
}

/// Keeps the entries whose value is visible text.
pub fn visible_headers(entries: &Vec<(String, Vec<u8>)>) -> (out: Vec<(String, String)>)
    ensures
        pairs_view(out@) == visible_entries(entries_view(entries@)),
{
    let mut out: Vec<(String, String)> = Vec::new();
    let mut i: usize = 0;
    proof {
        assert(entries_view(entries@).subrange(0, 0) =~= Seq::empty());
        assert(pairs_view(out@) =~= Seq::empty());
    }
    while i < entries.len()
        invariant
            i <= entries@.len(),
            pairs_view(out@) == visible_entries(entries_view(entries@).subrange(0, i as int)),
        decreases entries@.len() - i,
    {
        let ghost before = pairs_view(out@);
        let ghost all = entries_view(entries@);
        proof {
            assert(all.subrange(0, i + 1).drop_last() =~= all.subrange(0, i as int));
            assert(all.subrange(0, i + 1).last() == (entries@[i as int].0@, entries@[i as int].1@));
        }
        match visible_text(&entries[i].1) {
            Some(value) => {
                let name = entries[i].0.clone();
                out.push((name, value));
                proof {
                    assert(pairs_view(out@) =~= before.push(
                        (entries@[i as int].0@, decode_utf8(entries@[i as int].1@)),
                    ));
                }
            },
            None => {},
        }
        i = i + 1;
    }
    proof {
        assert(entries_view(entries@).subrange(0, i as int) =~= entries_view(entries@));
    }
    out
}

/// Keeps the entries that a header map accepts.
pub fn accepted_headers(pairs: &Vec<(String, String)>) -> (out: Vec<(String, String)>)
    ensures
        pairs_view(out@) == accepted_entries(pairs_view(pairs@)),
{
    let mut out: Vec<(String, String)> = Vec::new();
    let mut i: usize = 0;
    proof {
        assert(pairs_view(pairs@).subrange(0, 0) =~= Seq::empty());
        assert(pairs_view(out@) =~= Seq::empty());
    }
    while i < pairs.len()
        invariant
            i <= pairs@.len(),
            pairs_view(out@) == accepted_entries(pairs_view(pairs@).subrange(0, i as int)),
        decreases pairs@.len() - i,
    {
        let ghost before = pairs_view(out@);
        let ghost all = pairs_view(pairs@);
        proof {
            assert(all.subrange(0, i + 1).drop_last() =~= all.subrange(0, i as int));
            assert(all.subrange(0, i + 1).last() == (pairs@[i as int].0@, pairs@[i as int].1@));
        }
        if header_name_ok(pairs[i].0.as_str()) && header_value_ok(pairs[i].1.as_str()) {
            let name = pairs[i].0.clone();
            let value = pairs[i].1.clone();
            out.push((name, value));
            proof {
                assert(pairs_view(out@) =~= before.push((pairs@[i as int].0@, pairs@[i as int].1@)));
            }
        }
        i = i + 1;
    }
    proof {
        assert(pairs_view(pairs@).subrange(0, i as int) =~= pairs_view(pairs@));
    }
    out
}

/// An envelope that carries this metadata and a record without fields.
pub fn envelope_of_metadata(
    timestamp: Option<u64>,
    source: Option<String>,
    trace_id: Option<String>,
) -> (e: Envelope)
    ensures
        e@ == (EnvelopeModel {
            record: Seq::<FieldModel>::empty(),
            metadata: (Metadata { source, trace_id, timestamp })@,
        }),
{
    Envelope::from_parts(Record::new(), Metadata { source, trace_id, timestamp })
}

} // verus!
