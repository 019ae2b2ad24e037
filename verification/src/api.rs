//! The operations of the protocol on plain values: texts, byte strings,
//! and vectors given as the bit patterns of their components.

use crate::binary::{
    decode_record_spec, record_bytes, BinaryDecoder, BinaryEncoder, BinaryError,
};
use crate::delta::{
    apply_changes, decode_spec, diff_changes, diff_model, encode_spec, DeltaError, VectorDelta,
};
use crate::envelope::{text_of, Envelope, EnvelopeBuilder, EnvelopeModel, MetadataModel};
use crate::outside::{
    explained_text, headers_of_metadata, lnmp_envelope_to_headers, lnmp_explain,
    lnmp_headers_to_metadata, lnmp_route_event, lnmp_sanitize, metadata_of_headers, openers,
    pairs_view, sanitized_text, text_result, MAX_OPENERS,
};
use crate::quant::{
    all_finite, payload_bytes, quantize_embedding, quantized_model, QuantError, QuantScheme,
};
use crate::routing::{decision_name, decision_name_spec, RoutingDecision};
use crate::text::{parse_record_spec, record_text, Encoder, Parser, TextError};
use crate::transport::{
    accepted_entries, accepted_headers, envelope_of_metadata, visible_entries, visible_headers,
};
use crate::value::{str_eq, FieldModel, Record};
use crate::vector::Vector;
use vstd::prelude::*;
use vstd::string::StringExecFns;
use vstd::utf8::encode_utf8;

verus! {

/// Reads a record from its text.
pub fn parse(text: &str) -> (res: Result<Record, TextError>)
    ensures
        match parse_record_spec(encode_utf8(text@)) {
            Ok(fields) => res is Ok && res.unwrap()@ == fields && res.unwrap().wf(),
            Err(e) => res is Err && res.unwrap_err()@ == e,
        },
{
    match Parser::new(text) {
        Err(e) => Err(e),
        Ok(parser) => parser.parse_record(),
    }
}

/// Writes a record as text.
pub fn encode(record: &Record) -> (text: String)
    ensures
        encode_utf8(text@) == record_text(record@),
{
    Encoder::new().encode(record)
}

/// Writes a record in the binary form.
pub fn encode_binary(record: &Record) -> (bytes: Vec<u8>)
    ensures
        bytes@ == record_bytes(record@),
{
    BinaryEncoder::new().encode(record)
}

/// Reads a record from the binary form.
pub fn decode_binary(data: &[u8]) -> (res: Result<Record, BinaryError>)
    ensures
        match decode_record_spec(data@) {
            Ok(fields) => res is Ok && res.unwrap()@ == fields && res.unwrap().wf(),
            Err(e) => res is Err && res.unwrap_err()@ == e,
        },
{
    BinaryDecoder::new().decode(data)
}

/// Puts a copy of `record` into an envelope. Where no timestamp is given
/// the envelope gets `now_ms`, the current time as the caller read it.
pub fn envelope_wrap(
    record: &Record,
    source: String,
    timestamp_ms: Option<u64>,
    trace_id: Option<String>,
    now_ms: u64,
) -> (e: Envelope)
    ensures
        e@ == (EnvelopeModel {
            record: record@,
            metadata: MetadataModel {
                source: Some(source@),
                trace_id: text_of(trace_id),
                timestamp: Some(
                    match timestamp_ms {
                        Some(t) => t,
                        None => now_ms,
                    },
                ),
            },
        }),
{
    let mut builder = EnvelopeBuilder::new(record.duplicate()).source(source);
    match timestamp_ms {
        Some(t) => {
            builder = builder.timestamp(t);
        },
        None => {
            builder = builder.timestamp(now_ms);
        },
    }
    match trace_id {
        Some(t) => {
            builder = builder.trace_id(t);
        },
        None => {},
    }
    builder.build(now_ms)
}

/// The delta, of generation 0, that turns `base` into `updated`: how many
/// components changed, and the wire form of the delta.
pub fn embedding_delta(base: Vec<u32>, updated: Vec<u32>) -> (res: Result<
    (usize, Vec<u8>),
    DeltaError,
>)
    ensures
        base@.len() != updated@.len() ==> res is Err && res.unwrap_err()
            == DeltaError::DimensionMismatch,
        base@.len() == updated@.len() ==> res is Ok && res.unwrap().0 == diff_changes(
            base@,
            updated@,
            base@.len(),
        ).len() && res.unwrap().1@ == encode_spec(diff_model(base@, updated@, 0)),
{
    let base_vector = Vector::from_f32_bits(base);
    let updated_vector = Vector::from_f32_bits(updated);
    match VectorDelta::from_vectors(&base_vector, &updated_vector, 0) {
        Err(e) => Err(e),
        Ok(delta) => Ok((delta.change_count(), delta.encode())),
    }
}

/// Reads a delta from its wire form and applies it to `base`.
pub fn embedding_apply_delta(base: Vec<u32>, delta_bytes: &[u8]) -> (res: Result<
    Vec<u32>,
    DeltaError,
>)
    ensures
        match decode_spec(delta_bytes@) {
            None => res is Err && res.unwrap_err() == DeltaError::CorruptDelta,
            Some(d) => if base@.len() != d.dimension {
                res is Err && res.unwrap_err() == DeltaError::DimensionMismatch
            } else {
                res is Ok && res.unwrap()@ == apply_changes(base@, d.changes)
            },
        },
{
    let base_vector = Vector::from_f32_bits(base);
    match VectorDelta::decode(delta_bytes) {
        Err(e) => Err(e),
        Ok(delta) => match delta.apply(&base_vector) {
            Err(e) => Err(e),
            Ok(updated) => Ok(updated.as_f32_bits()),
        },
    }
}

/// Why `quantize` gave nothing.
#[derive(Clone, Copy, Debug, PartialEq, Eq, Structural)]
pub enum QuantizeError {
    /// The scheme is none of `QInt8`, `QInt4` and `Binary`.
    InvalidScheme,
    /// The vector has no components.
    EmptyVector,
    /// A component is NaN or infinite.
    NonFiniteValue,
}

/// The scheme that a name stands for.
pub open spec fn scheme_of_name(name: Seq<char>) -> Option<QuantScheme> {
    if name == "QInt8"@ {
        Some(QuantScheme::Int8)
    } else if name == "QInt4"@ {
        Some(QuantScheme::Int4)
    } else if name == "Binary"@ {
        Some(QuantScheme::Binary)
    } else {
        None
    }
}

/// The scheme that a name stands for.
pub fn scheme_from_name(name: &str) -> (res: Option<QuantScheme>)
    ensures
        res == scheme_of_name(name@),
{
    if str_eq(name, "QInt8") {
        Some(QuantScheme::Int8)
    } else if str_eq(name, "QInt4") {
        Some(QuantScheme::Int4)
    } else if str_eq(name, "Binary") {
        Some(QuantScheme::Binary)
    } else {
        None
    }
}

/// Quantizes a vector under the scheme of that name and gives the payload:
/// the scale, where the scheme has one, and the packed components.
pub fn quantize(vector: Vec<u32>, scheme: &str) -> (res: Result<Vec<u8>, QuantizeError>)
    ensures
        match scheme_of_name(scheme@) {
            None => res is Err && res.unwrap_err() == QuantizeError::InvalidScheme,
            Some(s) => if vector@.len() == 0 {
                res is Err && res.unwrap_err() == QuantizeError::EmptyVector
            } else if !all_finite(vector@) {
                res is Err && res.unwrap_err() == QuantizeError::NonFiniteValue
            } else {
                res is Ok && res.unwrap()@ == payload_bytes(quantized_model(vector@, s))
            },
        },
{
    let embedding = Vector::from_f32_bits(vector);
    match scheme_from_name(scheme) {
        None => Err(QuantizeError::InvalidScheme),
        Some(s) => match quantize_embedding(&embedding, s) {
            Err(QuantError::EmptyVector) => Err(QuantizeError::EmptyVector),
            Err(QuantError::NonFiniteValue) => Err(QuantizeError::NonFiniteValue),
            Ok(q) => Ok(q.payload()),
        },
    }
}

/// Repairs LNMP-like text leniently, as the `lnmp` sanitizer does under
/// its default configuration.
pub fn sanitize(text: &str) -> (out: String)
    ensures
        out@ == sanitized_text(text@),
{
    lnmp_sanitize(text)
}

/// Counts the bytes that open a structure, `{` or `[`, up to one more than
/// the limit.
pub fn count_openers(bytes: &[u8]) -> (n: usize)
    ensures
        n <= MAX_OPENERS + 1,
        openers(bytes@) <= MAX_OPENERS ==> n == openers(bytes@),
        openers(bytes@) > MAX_OPENERS ==> n == MAX_OPENERS + 1,
{
    let mut n: usize = 0;
    let mut i: usize = 0;
    while i < bytes.len()
        invariant
            i <= bytes@.len(),
            n <= MAX_OPENERS + 1,
            openers(bytes@.subrange(0, i as int)) <= MAX_OPENERS ==> n == openers(
                bytes@.subrange(0, i as int),
            ),
            openers(bytes@.subrange(0, i as int)) > MAX_OPENERS ==> n == MAX_OPENERS + 1,
        decreases bytes@.len() - i,
    {
        proof {
            let next = bytes@.subrange(0, i + 1);
            assert(next.drop_last() =~= bytes@.subrange(0, i as int));
            assert(next.last() == bytes@[i as int]);
        }
        if (bytes[i] == 123 || bytes[i] == 91) && n <= MAX_OPENERS {
            n = n + 1;
        }
        i = i + 1;
    }
    proof {
        assert(bytes@.subrange(0, i as int) =~= bytes@);
    }
    n
}

/// What `debug_explain` answers to a text that opens too many structures.
pub open spec fn too_deep_message() -> Seq<char> {
    "the text opens too many structures to be explained"@
}

/// Explains, field by field, the record that the `lnmp` parser reads from
/// a text; the parser's message where the text is not a record. A text
/// that opens more than `MAX_OPENERS` structures is refused.
pub fn debug_explain(text: &str) -> (res: Result<String, String>)
    ensures
        openers(encode_utf8(text@)) <= MAX_OPENERS ==> text_result(res) == explained_text(text@),
        openers(encode_utf8(text@)) > MAX_OPENERS ==> res is Err && res.unwrap_err()@
            == too_deep_message(),
{
    if count_openers(text.as_bytes()) > MAX_OPENERS {
        Err(String::from_str("the text opens too many structures to be explained"))
    } else {
        lnmp_explain(text)
    }
}

/// What is reported for the outcome of a routing decision.
pub fn routing_report(outcome: Result<RoutingDecision, String>) -> (res: Result<String, String>)
    ensures
        match outcome {
            Ok(d) => res is Ok && res.unwrap()@ == decision_name_spec(d),
            Err(e) => res is Err && res.unwrap_err()@ == e@,
        },
{
    match outcome {
        Ok(d) => Ok(decision_name(d)),
        Err(e) => Err(e),
    }
}

/// Asks the default routing policy of `lnmp` about the envelope, taken as
/// an event at the time `now_ms`. Without a timestamp there is no
/// decision. An event older than 5000 ms is dropped. For any other event
/// the policy weighs scores of its own, and the answer is one of
/// `SendToLLM` and `ProcessLocally`.
pub fn routing_decide(envelope: &Envelope, now_ms: u64) -> (res: Result<String, String>)
    ensures
        envelope@.metadata.timestamp is None ==> res is Err,
        envelope@.metadata.timestamp is Some && now_ms - envelope@.metadata.timestamp.unwrap()
            > 5000 ==> res is Ok && res.unwrap()@ == "Drop"@,
        envelope@.metadata.timestamp is Some && now_ms - envelope@.metadata.timestamp.unwrap()
            <= 5000 ==> res is Ok && (res.unwrap()@ == "SendToLLM"@ || res.unwrap()@
            == "ProcessLocally"@),
{
    let outcome = lnmp_route_event(
        envelope.timestamp(),
        envelope.source(),
        envelope.trace_id(),
        now_ms,
    );
    routing_report(outcome)
}

/// The HTTP headers for the metadata of an envelope, as the `lnmp`
/// transport layer sets them, without those whose value is not visible
/// text.
pub fn transport_to_http_headers(envelope: &Envelope) -> (res: Result<
    Vec<(String, String)>,
    String,
>)
    ensures
        match headers_of_metadata(
            envelope@.metadata.timestamp,
            envelope@.metadata.source,
            envelope@.metadata.trace_id,
        ) {
            Ok(entries) => res is Ok && pairs_view(res.unwrap()@) == visible_entries(entries),
            Err(e) => res is Err && res.unwrap_err()@ == e,
        },
{
    match lnmp_envelope_to_headers(envelope.timestamp(), envelope.source(), envelope.trace_id()) {
        Ok(entries) => Ok(visible_headers(&entries)),
        Err(e) => Err(e),
    }
}

/// An envelope with the metadata that the `lnmp` transport layer reads from
/// HTTP headers, around a record without fields. Headers that a header map
/// does not accept are passed over; of two accepted headers with one name
/// the later one counts.
pub fn transport_from_http_headers(headers: &Vec<(String, String)>) -> (res: Result<
    Envelope,
    String,
>)
    ensures
        match metadata_of_headers(accepted_entries(pairs_view(headers@))) {
            Ok(m) => res is Ok && res.unwrap()@ == (EnvelopeModel {
                record: Seq::<FieldModel>::empty(),
                metadata: MetadataModel { source: m.1, trace_id: m.2, timestamp: m.0 },
            }),
            Err(e) => res is Err && res.unwrap_err()@ == e,
        },
{
    let accepted = accepted_headers(headers);
    match lnmp_headers_to_metadata(&accepted) {
        Ok((timestamp, source, trace_id)) => Ok(envelope_of_metadata(timestamp, source, trace_id)),
        Err(e) => Err(e),
    }
}

/// A one-line description of the schema.
pub fn schema_describe() -> (out: String)
    ensures
        out@ == "LNMP Schema Description"@,
{
    String::from_str("LNMP Schema Description")
}

} // verus!
