//! Calls into the `lnmp` and `http` crates. The contracts here are taken
//! from the sources of those crates; nothing in this file is proved.

use crate::envelope::text_of;
use crate::routing::RoutingDecision;
use vstd::prelude::*;
use vstd::utf8::encode_utf8;

verus! {

/// The characters of a text result.
pub open spec fn text_result(res: Result<String, String>) -> Result<Seq<char>, Seq<char>> {
    match res {
        Ok(t) => Ok(t@),
        Err(e) => Err(e@),
    }
}

/// Header entries as plain values: a name and the bytes of a value.
pub open spec fn entries_view(entries: Seq<(String, Vec<u8>)>) -> Seq<(Seq<char>, Seq<u8>)> {
    Seq::new(entries.len(), |i: int| (entries[i].0@, entries[i].1@))
}

/// Header entries as plain values: a name and a value.
pub open spec fn pairs_view(pairs: Seq<(String, String)>) -> Seq<(Seq<char>, Seq<char>)> {
    Seq::new(pairs.len(), |i: int| (pairs[i].0@, pairs[i].1@))
}

/// Header entries, or a message, as plain values.
pub open spec fn entries_result(res: Result<Vec<(String, Vec<u8>)>, String>) -> Result<
    Seq<(Seq<char>, Seq<u8>)>,
    Seq<char>,
> {
    match res {
        Ok(entries) => Ok(entries_view(entries@)),
        Err(e) => Err(e@),
    }
}

/// A timestamp, a source and a trace id, or a message, as plain values.
pub open spec fn metadata_result(
    res: Result<(Option<u64>, Option<String>, Option<String>), String>,
) -> Result<(Option<u64>, Option<Seq<char>>, Option<Seq<char>>), Seq<char>> {
    match res {
        Ok(m) => Ok((m.0, text_of(m.1), text_of(m.2))),
        Err(e) => Err(e@),
    }
}

/// What `lnmp::sanitize::sanitize_lnmp_text` makes of a text under the
/// default configuration.
pub uninterp spec fn sanitized_text(text: Seq<char>) -> Seq<char>;

/// `lnmp::sanitize::sanitize_lnmp_text` with
/// `SanitizationConfig::default()`: a lenient repair of LNMP-like text. The
/// result depends on the text alone.
#[verifier::external_body]
pub(crate) fn lnmp_sanitize(text: &str) -> (out: String)
    ensures
        out@ == sanitized_text(text@),
{
    let config = lnmp::sanitize::SanitizationConfig::default();
    lnmp::sanitize::sanitize_lnmp_text(text, &config).into_owned()
}

/// How many bytes of a text open a structure: `{` or `[`.
pub open spec fn openers(bytes: Seq<u8>) -> nat
    decreases bytes.len(),
{
    if bytes.len() == 0 {
        0
    } else if bytes.last() == 123 || bytes.last() == 91 {
        openers(bytes.drop_last()) + 1
    } else {
        openers(bytes.drop_last())
    }
}

/// The most structures that a text may open and still be explained: the
/// `lnmp` parser calls itself once for each structure that is open, and has
/// no limit of its own.
pub const MAX_OPENERS: usize = 128;

/// What `lnmp::llb::ExplainEncoder::encode_with_explanation`, with an empty
/// dictionary, writes for the record that `lnmp::codec::Parser` reads from a
/// text; the parser's message where the text is not a record.
pub uninterp spec fn explained_text(text: Seq<char>) -> Result<Seq<char>, Seq<char>>;

/// `lnmp::codec::Parser::new` and its `parse_record` on the text, then
/// `lnmp::llb::ExplainEncoder::encode_with_explanation` with an empty
/// `SemanticDictionary` on the record. Either parser error comes back as
/// its message. The result depends on the text alone. The text may open
/// at most `MAX_OPENERS` structures, which bounds how deep the parser and
/// the encoder call themselves.
#[verifier::external_body]
pub(crate) fn lnmp_explain(text: &str) -> (res: Result<String, String>)
    requires
        openers(encode_utf8(text@)) <= MAX_OPENERS,
    ensures
        text_result(res) == explained_text(text@),
{
    let mut parser = match lnmp::codec::Parser::new(text) {
        Ok(p) => p,
        Err(e) => return Err(e.to_string()),
    };
    let encoder = lnmp::llb::ExplainEncoder::new(lnmp::llb::SemanticDictionary::new());
    match parser.parse_record() {
        Ok(record) => Ok(encoder.encode_with_explanation(&record)),
        Err(e) => Err(e.to_string()),
    }
}

/// `lnmp::net::RoutingPolicy::decide` of the default policy on an event
/// message whose envelope has this metadata. The policy reads the metadata
/// only. Without a timestamp it fails; an event older than its time to
/// live of 5000 ms is dropped; any other event is sent on or kept, which of
/// the two depending on floating-point scores of which nothing is claimed.
#[verifier::external_body]
pub(crate) fn lnmp_route_event(
    timestamp: Option<u64>,
    source: Option<String>,
    trace_id: Option<String>,
    now_ms: u64,
) -> (res: Result<RoutingDecision, String>)
    ensures
        timestamp is None ==> res is Err,
        timestamp is Some ==> res is Ok,
        timestamp is Some && now_ms - timestamp.unwrap() > 5000 ==> res is Ok && res.unwrap()
            == RoutingDecision::Drop,
        timestamp is Some && now_ms - timestamp.unwrap() <= 5000 ==> res is Ok && res.unwrap()
            != RoutingDecision::Drop,
{
    let mut metadata = lnmp::envelope::EnvelopeMetadata::default();
    metadata.timestamp = timestamp;
    metadata.source = source;
    metadata.trace_id = trace_id;
    let record = lnmp::core::LnmpRecord::default();
    let envelope = lnmp::envelope::LnmpEnvelope::with_metadata(record, metadata);
    let message = lnmp::net::NetMessage::new(envelope, lnmp::net::MessageKind::Event);
    match lnmp::net::RoutingPolicy::default().decide(&message, now_ms) {
        Ok(lnmp::net::RoutingDecision::SendToLLM) => Ok(RoutingDecision::SendToLlm),
        Ok(lnmp::net::RoutingDecision::ProcessLocally) => Ok(RoutingDecision::ProcessLocally),
        Ok(lnmp::net::RoutingDecision::Drop) => Ok(RoutingDecision::Drop),
        Err(e) => Err(e.to_string()),
    }
}

/// The header entries that `lnmp::transport::http::envelope_to_headers`
/// gives for this metadata, in the order in which the header map hands
/// them out; its message where it fails.
pub uninterp spec fn headers_of_metadata(
    timestamp: Option<u64>,
    source: Option<Seq<char>>,
    trace_id: Option<Seq<char>>,
) -> Result<Seq<(Seq<char>, Seq<u8>)>, Seq<char>>;

/// `lnmp::transport::http::envelope_to_headers` on an envelope with this
/// metadata, which is all that it reads. Each entry of the header map comes
/// back as its name and the bytes of its value. The result depends on the
/// metadata alone.
#[verifier::external_body]
pub(crate) fn lnmp_envelope_to_headers(
    timestamp: Option<u64>,
    source: Option<String>,
    trace_id: Option<String>,
) -> (res: Result<Vec<(String, Vec<u8>)>, String>)
    ensures
        entries_result(res) == headers_of_metadata(timestamp, text_of(source), text_of(trace_id)),
{
    let mut metadata = lnmp::envelope::EnvelopeMetadata::default();
    metadata.timestamp = timestamp;
    metadata.source = source;
    metadata.trace_id = trace_id;
    let record = lnmp::core::LnmpRecord::default();
    let envelope = lnmp::envelope::LnmpEnvelope::with_metadata(record, metadata);
    let map = match lnmp::transport::http::envelope_to_headers(&envelope) {
        Ok(map) => map,
        Err(e) => return Err(e.to_string()),
    };
    let mut entries = Vec::new();
    for (name, value) in map.iter() {
        entries.push((name.as_str().to_string(), value.as_bytes().to_vec()));
    }
    Ok(entries)
}

/// Whether `http::HeaderName::from_bytes` accepts the name.
pub uninterp spec fn valid_header_name(name: Seq<char>) -> bool;

/// `http::HeaderName::from_bytes` on the bytes of the name: whether it
/// succeeds.
#[verifier::external_body]
pub(crate) fn header_name_ok(name: &str) -> (ok: bool)
    ensures
        ok == valid_header_name(name@),
{
    http::HeaderName::from_bytes(name.as_bytes()).is_ok()
}

/// A byte that a header value may hold: a tab, or anything from a space
/// upwards but the delete character.
pub open spec fn is_value_byte(b: u8) -> bool {
    (b >= 32 && b != 127) || b == 9
}

/// Whether every byte of the text may stand in a header value.
pub open spec fn valid_header_value(value: Seq<char>) -> bool {
    forall|i: int| 0 <= i < encode_utf8(value).len() ==> is_value_byte(#[trigger] encode_utf8(value)[i])
}

/// `http::HeaderValue::from_str`: it succeeds exactly when every byte of
/// the text may stand in a header value.
#[verifier::external_body]
pub(crate) fn header_value_ok(value: &str) -> (ok: bool)
    ensures
        ok == valid_header_value(value@),
{
    http::HeaderValue::from_str(value).is_ok()
}

/// The timestamp, the source and the trace id that
/// `lnmp::transport::http::headers_to_envelope_metadata` reads from a header
/// map into which these entries were inserted in this order; a message where
/// an entry cannot be inserted.
pub uninterp spec fn metadata_of_headers(headers: Seq<(Seq<char>, Seq<char>)>) -> Result<
    (Option<u64>, Option<Seq<char>>, Option<Seq<char>>),
    Seq<char>,
>;

/// `lnmp::transport::http::headers_to_envelope_metadata` on an
/// `http::HeaderMap` filled by `try_insert` with the entries in order, a
/// later entry replacing an earlier one of the same name. The result
/// depends on the entries alone.
#[verifier::external_body]
pub(crate) fn lnmp_headers_to_metadata(headers: &Vec<(String, String)>) -> (res: Result<
    (Option<u64>, Option<String>, Option<String>),
    String,
>)
    ensures
        metadata_result(res) == metadata_of_headers(pairs_view(headers@)),
{
    let mut map = http::HeaderMap::new();
    for (k, v) in headers.iter() {
        match (http::HeaderName::from_bytes(k.as_bytes()), http::HeaderValue::from_str(v)) {
            (Ok(name), Ok(value)) => match map.try_insert(name, value) {
                Ok(_) => {},
                Err(e) => return Err(e.to_string()),
            },
            (Err(e), _) => return Err(e.to_string()),
            (_, Err(e)) => return Err(e.to_string()),
        }
    }
    match lnmp::transport::http::headers_to_envelope_metadata(&map) {
        Ok(m) => Ok((m.timestamp, m.source, m.trace_id)),
        Err(e) => Err(e.to_string()),
    }
}

} // verus!
