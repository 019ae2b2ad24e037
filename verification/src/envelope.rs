//! A record together with its transport metadata.

use crate::value::{FieldModel, Record};
use vstd::prelude::*;

verus! {

/// Where a record came from, under which trace, and when.
#[derive(Clone, Debug)]
pub struct Metadata {
    pub source: Option<String>,
    pub trace_id: Option<String>,
    /// Milliseconds since the Unix epoch.
    pub timestamp: Option<u64>,
}

/// The mathematical content of a [`Metadata`].
pub struct MetadataModel {
    pub source: Option<Seq<char>>,
    pub trace_id: Option<Seq<char>>,
    pub timestamp: Option<u64>,
}

/// The characters of an optional string.
pub open spec fn text_of(s: Option<String>) -> Option<Seq<char>> {
    match s {
        Some(t) => Some(t@),
        None => None,
    }
}

impl View for Metadata {
    type V = MetadataModel;

    open spec fn view(&self) -> MetadataModel {
        MetadataModel {
            source: text_of(self.source),
            trace_id: text_of(self.trace_id),
            timestamp: self.timestamp,
        }
    }
}

/// Exactly one record and its metadata; nothing changes after the build.
#[derive(Debug)]
pub struct Envelope {
    record: Record,
    metadata: Metadata,
}

/// The mathematical content of an [`Envelope`].
pub struct EnvelopeModel {
    pub record: Seq<FieldModel>,
    pub metadata: MetadataModel,
}

impl View for Envelope {
    type V = EnvelopeModel;

    closed spec fn view(&self) -> EnvelopeModel {
        EnvelopeModel { record: self.record@, metadata: self.metadata@ }
    }
}

fn copy_text(s: &Option<String>) -> (out: Option<String>)
    ensures
        text_of(out) == text_of(*s),
{
    match s {
        Some(t) => Some(t.clone()),
        None => None,
    }
}

impl Envelope {
    /// An envelope from its parts, as a transport hands them over.
    pub fn from_parts(record: Record, metadata: Metadata) -> (e: Envelope)
        ensures
            e@ == (EnvelopeModel { record: record@, metadata: metadata@ }),
    {
        Envelope { record, metadata }
    }

    /// The record inside.
    pub fn record(&self) -> (r: &Record)
        ensures
            r@ == self@.record,
    {
        &self.record
    }

    /// The metadata.
    pub fn metadata(&self) -> (m: &Metadata)
        ensures
            m@ == self@.metadata,
    {
        &self.metadata
    }

    /// Who sent the record, if that is known.
    pub fn source(&self) -> (s: Option<String>)
        ensures
            text_of(s) == self@.metadata.source,
    {
        copy_text(&self.metadata.source)
    }

    /// The trace that the record belongs to, if any.
    pub fn trace_id(&self) -> (t: Option<String>)
        ensures
            text_of(t) == self@.metadata.trace_id,
    {
        copy_text(&self.metadata.trace_id)
    }

    /// When the record was made, in milliseconds since the Unix epoch.
    pub fn timestamp(&self) -> (t: Option<u64>)
        ensures
            t == self@.metadata.timestamp,
    {
        self.metadata.timestamp
    }
}

/// Collects the parts of an envelope.
#[derive(Debug)]
pub struct EnvelopeBuilder {
    record: Record,
    metadata: Metadata,
}

impl View for EnvelopeBuilder {
    type V = EnvelopeModel;

    closed spec fn view(&self) -> EnvelopeModel {
        EnvelopeModel { record: self.record@, metadata: self.metadata@ }
    }
}

impl EnvelopeBuilder {
    /// A builder around `record`, with no metadata yet.
    pub fn new(record: Record) -> (b: EnvelopeBuilder)
        ensures
            b@ == (EnvelopeModel {
                record: record@,
                metadata: MetadataModel { source: None, trace_id: None, timestamp: None },
            }),
    {
        EnvelopeBuilder {
            record,
            metadata: Metadata { source: None, trace_id: None, timestamp: None },
        }
    }

    /// Sets the source.
    pub fn source(self, source: String) -> (b: EnvelopeBuilder)
        ensures
            b@ == (EnvelopeModel {
                record: self@.record,
                metadata: MetadataModel { source: Some(source@), ..self@.metadata },
            }),
    {
        EnvelopeBuilder {
            record: self.record,
            metadata: Metadata {
                source: Some(source),
                trace_id: self.metadata.trace_id,
                timestamp: self.metadata.timestamp,
            },
        }
    }

    /// Sets the trace id.
    pub fn trace_id(self, trace_id: String) -> (b: EnvelopeBuilder)
        ensures
            b@ == (EnvelopeModel {
                record: self@.record,
                metadata: MetadataModel { trace_id: Some(trace_id@), ..self@.metadata },
            }),
    {
        EnvelopeBuilder {
            record: self.record,
            metadata: Metadata {
                source: self.metadata.source,
                trace_id: Some(trace_id),
                timestamp: self.metadata.timestamp,
            },
        }
    }

    /// Sets the timestamp, in milliseconds since the Unix epoch.
    pub fn timestamp(self, timestamp_ms: u64) -> (b: EnvelopeBuilder)
        ensures
            b@ == (EnvelopeModel {
                record: self@.record,
                metadata: MetadataModel { timestamp: Some(timestamp_ms), ..self@.metadata },
            }),
    {
        EnvelopeBuilder {
            record: self.record,
            metadata: Metadata {
                source: self.metadata.source,
                trace_id: self.metadata.trace_id,
                timestamp: Some(timestamp_ms),
            },
        }
    }

    /// The envelope. Where no timestamp was set it gets `now_ms`, the
    /// current time as the caller read it.
    pub fn build(self, now_ms: u64) -> (e: Envelope)
        ensures
            e@.record == self@.record,
            e@.metadata.source == self@.metadata.source,
            e@.metadata.trace_id == self@.metadata.trace_id,
            e@.metadata.timestamp == Some(
                match self@.metadata.timestamp {
                    Some(t) => t,
                    None => now_ms,
                },
            ),
    {
        let timestamp = match self.metadata.timestamp {
            Some(t) => t,
            None => now_ms,
        };
        Envelope {
            record: self.record,
            metadata: Metadata {
                source: self.metadata.source,
                trace_id: self.metadata.trace_id,
                timestamp: Some(timestamp),
            },
        }
    }
}

} // verus!
