//! The Jaeger structural model: typed records with a fixed field-number
//! assignment, and their serialization under both wire protocols.
//!
//! Field numbers must never change: they are the wire contract.
//!
//! | record    | fields in order                                              |
//! |-----------|--------------------------------------------------------------|
//! | Span      | 1 trace_id_low, 2 trace_id_high, 3 span_id, 4 parent_span_id,
//! |           | 5 operation_name, 6 references (omitted when empty), 7 flags,
//! |           | 8 start_time, 9 duration, 10 tags (omitted when empty),
//! |           | 11 logs (omitted when empty)                                 |
//! | SpanRef   | 1 kind, 2 trace_id_low, 3 trace_id_high, 4 span_id           |
//! | Tag       | 1 key, 2 kind, then exactly one of 3 string / 4 double /
//! |           | 5 bool / 6 long / 7 binary                                   |
//! | Log       | 1 timestamp, 2 fields                                        |
//! | Process   | 1 service_name, 2 tags (omitted when empty)                  |
//! | Batch     | 1 process, 2 spans                                           |

use vstd::prelude::*;
use vstd::utf8::encode_utf8;

use crate::wire::{
    lemma_add_assoc, lemma_regroup3, lemma_regroup6, lemma_regroup10,
    Protocol, MAX_WIRE_LEN, CK_BOOL_TRUE, CK_BOOL_FALSE, CK_I32, CK_I64, CK_DOUBLE, CK_BINARY,
    CK_LIST, CK_STRUCT, BK_BOOL, BK_DOUBLE, BK_I32, BK_I64, BK_BINARY, BK_STRUCT, BK_LIST,
    spec_enc_i32, spec_enc_i64, spec_enc_double, spec_enc_bytes, spec_field_hdr, spec_list_hdr,
    spec_stop, spec_enc_seq, lemma_enc_seq_push, emit_i32, emit_i64, emit_double, emit_bytes,
    emit_field_hdr, emit_list_hdr, emit_stop,
};

verus! {

/// The kind of a causal reference between two spans.
#[derive(Debug, Clone, Copy, PartialEq, Eq, PartialOrd, Ord, Hash, Structural)]
pub enum SpanRefKind {
    ChildOf,
    FollowsFrom,
}

impl SpanRefKind {
    /// The wire value of this kind.
    pub open spec fn spec_value(self) -> i32 {
        match self {
            SpanRefKind::ChildOf => 0,
            SpanRefKind::FollowsFrom => 1,
        }
    }

    pub fn value(&self) -> (r: i32)
        ensures
            r == self.spec_value(),
    {
        match self {
            SpanRefKind::ChildOf => 0,
            SpanRefKind::FollowsFrom => 1,
        }
    }
}

/// The discriminant of a `Tag`'s payload.
#[derive(Debug, Clone, Copy, PartialEq, Eq, PartialOrd, Ord, Hash, Structural)]
pub enum TagKind {
    String,
    Double,
    Bool,
    Long,
    Binary,
}

impl TagKind {
    /// The wire value of this discriminant.
    pub open spec fn spec_value(self) -> i32 {
        match self {
            TagKind::String => 0,
            TagKind::Double => 1,
            TagKind::Bool => 2,
            TagKind::Long => 3,
            TagKind::Binary => 4,
        }
    }

    pub fn value(&self) -> (r: i32)
        ensures
            r == self.spec_value(),
    {
        match self {
            TagKind::String => 0,
            TagKind::Double => 1,
            TagKind::Bool => 2,
            TagKind::Long => 3,
            TagKind::Binary => 4,
        }
    }
}

/// A causal reference to another span.  Every non-root span carries exactly
/// one `ChildOf` reference to its parent.
#[derive(Debug, Clone, Copy, PartialEq, Eq, Structural)]
pub struct SpanRef {
    pub kind: SpanRefKind,
    pub trace_id_low: i64,
    pub trace_id_high: i64,
    pub span_id: i64,
}

/// A key-tagged union over five payload kinds.  The wire discriminant is
/// derived from the variant at encode time, never stored redundantly.
/// The `Double` payload carries the IEEE-754 bit pattern of the value, so
/// that the model stays within integer arithmetic; it is written to the
/// wire exactly as a double is.
#[derive(Debug, Clone, PartialEq)]
pub enum Tag {
    String { key: String, value: String },
    Double { key: String, value: u64 },
    Bool { key: String, value: bool },
    Long { key: String, value: i64 },
    Binary { key: String, value: Vec<u8> },
}

/// The mathematical model of a `Tag`: its strings as the byte sequences
/// they put on the wire.
pub enum TagV {
    String { key: Seq<u8>, value: Seq<u8> },
    Double { key: Seq<u8>, value: u64 },
    Bool { key: Seq<u8>, value: bool },
    Long { key: Seq<u8>, value: i64 },
    Binary { key: Seq<u8>, value: Seq<u8> },
}

impl TagV {
    pub open spec fn kind(self) -> TagKind {
        match self {
            TagV::String { .. } => TagKind::String,
            TagV::Double { .. } => TagKind::Double,
            TagV::Bool { .. } => TagKind::Bool,
            TagV::Long { .. } => TagKind::Long,
            TagV::Binary { .. } => TagKind::Binary,
        }
    }

    pub open spec fn key(self) -> Seq<u8> {
        match self {
            TagV::String { key, .. } => key,
            TagV::Double { key, .. } => key,
            TagV::Bool { key, .. } => key,
            TagV::Long { key, .. } => key,
            TagV::Binary { key, .. } => key,
        }
    }
}

impl View for Tag {
    type V = TagV;

    open spec fn view(&self) -> TagV {
        match self {
            Tag::String { key, value } => TagV::String {
                key: encode_utf8(key@),
                value: encode_utf8(value@),
            },
            Tag::Double { key, value } => TagV::Double { key: encode_utf8(key@), value: *value },
            Tag::Bool { key, value } => TagV::Bool { key: encode_utf8(key@), value: *value },
            Tag::Long { key, value } => TagV::Long { key: encode_utf8(key@), value: *value },
            Tag::Binary { key, value } => TagV::Binary { key: encode_utf8(key@), value: value@ },
        }
    }
}

/// The wire's length fields are 31-bit: every byte string must fit them.
pub open spec fn wf_tag(t: TagV) -> bool {
    &&& t.key().len() <= MAX_WIRE_LEN
    &&& match t {
        TagV::String { value, .. } => value.len() <= MAX_WIRE_LEN,
        TagV::Binary { value, .. } => value.len() <= MAX_WIRE_LEN,
        _ => true,
    }
}

// ---------------------------------------------------------------------------
// Serialization of SpanRef and Tag.

/// Field list of a span reference: 1 kind, 2 trace_id_low, 3 trace_id_high,
/// 4 span_id, stop.
pub open spec fn spec_enc_span_ref(p: Protocol, r: SpanRef) -> Seq<u8> {
    spec_field_hdr(p, 0, 1, CK_I32, BK_I32) + spec_enc_i32(p, r.kind.spec_value())
        + spec_field_hdr(p, 1, 2, CK_I64, BK_I64) + spec_enc_i64(p, r.trace_id_low)
        + spec_field_hdr(p, 2, 3, CK_I64, BK_I64) + spec_enc_i64(p, r.trace_id_high)
        + spec_field_hdr(p, 3, 4, CK_I64, BK_I64) + spec_enc_i64(p, r.span_id) + spec_stop()
}

/// Field list of a tag: 1 key, 2 discriminant, then exactly the one payload
/// field selected by the variant (3 string, 4 double, 5 bool, 6 long,
/// 7 binary), stop.  A compact bool payload lives in the field header's
/// kind code and adds no payload bytes.
pub open spec fn spec_enc_tag(p: Protocol, t: TagV) -> Seq<u8> {
    let head = spec_field_hdr(p, 0, 1, CK_BINARY, BK_BINARY) + spec_enc_bytes(p, t.key())
        + spec_field_hdr(p, 1, 2, CK_I32, BK_I32) + spec_enc_i32(p, t.kind().spec_value());
    let payload = match t {
        TagV::String { value, .. } => spec_field_hdr(p, 2, 3, CK_BINARY, BK_BINARY)
            + spec_enc_bytes(p, value),
        TagV::Double { value, .. } => spec_field_hdr(p, 2, 4, CK_DOUBLE, BK_DOUBLE)
            + spec_enc_double(p, value),
        TagV::Bool { value, .. } => spec_field_hdr(
            p,
            2,
            5,
            if value {
                CK_BOOL_TRUE
            } else {
                CK_BOOL_FALSE
            },
            BK_BOOL,
        ) + (match p {
            Protocol::Compact => Seq::<u8>::empty(),
            Protocol::Binary => seq![
                if value {
                    1u8
                } else {
                    0u8
                },
            ],
        }),
        TagV::Long { value, .. } => spec_field_hdr(p, 2, 6, CK_I64, BK_I64)
            + spec_enc_i64(p, value),
        TagV::Binary { value, .. } => spec_field_hdr(p, 2, 7, CK_BINARY, BK_BINARY)
            + spec_enc_bytes(p, value),
    };
    head + payload + spec_stop()
}

/// Encoding a tag puts the discriminant matching its variant on the wire
/// (0 string, 1 double, 2 bool, 3 long, 4 binary) in field 2, and then
/// populates exactly the one payload field selected by the variant
/// (3 string, 4 double, 5 bool, 6 long, 7 binary); no other payload field
/// appears.
pub proof fn lemma_tag_discriminant_selection(p: Protocol, t: TagV)
    ensures
        t.kind().spec_value() == match t {
            TagV::String { .. } => 0i32,
            TagV::Double { .. } => 1i32,
            TagV::Bool { .. } => 2i32,
            TagV::Long { .. } => 3i32,
            TagV::Binary { .. } => 4i32,
        },
        spec_enc_tag(p, t) == (spec_field_hdr(p, 0, 1, CK_BINARY, BK_BINARY) + spec_enc_bytes(
            p,
            t.key(),
        ) + spec_field_hdr(p, 1, 2, CK_I32, BK_I32) + spec_enc_i32(p, t.kind().spec_value()))
            + (match t {
            TagV::String { value, .. } => spec_field_hdr(p, 2, 3, CK_BINARY, BK_BINARY)
                + spec_enc_bytes(p, value),
            TagV::Double { value, .. } => spec_field_hdr(p, 2, 4, CK_DOUBLE, BK_DOUBLE)
                + spec_enc_double(p, value),
            TagV::Bool { value, .. } => spec_field_hdr(
                p,
                2,
                5,
                if value {
                    CK_BOOL_TRUE
                } else {
                    CK_BOOL_FALSE
                },
                BK_BOOL,
            ) + (match p {
                Protocol::Compact => Seq::<u8>::empty(),
                Protocol::Binary => seq![
                    if value {
                        1u8
                    } else {
                        0u8
                    },
                ],
            }),
            TagV::Long { value, .. } => spec_field_hdr(p, 2, 6, CK_I64, BK_I64) + spec_enc_i64(
                p,
                value,
            ),
            TagV::Binary { value, .. } => spec_field_hdr(p, 2, 7, CK_BINARY, BK_BINARY)
                + spec_enc_bytes(p, value),
        }) + spec_stop(),
{
}

pub fn encode_span_ref(out: &mut Vec<u8>, p: Protocol, r: &SpanRef)
    ensures
        final(out)@ == old(out)@ + spec_enc_span_ref(p, *r),
{
    emit_field_hdr(out, p, 0, 1, CK_I32, BK_I32);
    emit_i32(out, p, r.kind.value());
    emit_field_hdr(out, p, 1, 2, CK_I64, BK_I64);
    emit_i64(out, p, r.trace_id_low);
    emit_field_hdr(out, p, 2, 3, CK_I64, BK_I64);
    emit_i64(out, p, r.trace_id_high);
    emit_field_hdr(out, p, 3, 4, CK_I64, BK_I64);
    emit_i64(out, p, r.span_id);
    emit_stop(out);
    assert(out@ =~= old(out)@ + spec_enc_span_ref(p, *r));
}

#[verifier::rlimit(100)]
#[verifier::spinoff_prover]
pub fn encode_tag(out: &mut Vec<u8>, p: Protocol, t: &Tag)
    requires
        wf_tag(t@),
    ensures
        final(out)@ == old(out)@ + spec_enc_tag(p, t@),
{
    match t {
        Tag::String { key, value } => {
            emit_field_hdr(out, p, 0, 1, CK_BINARY, BK_BINARY);
            emit_bytes(out, p, key.as_str().as_bytes());
            emit_field_hdr(out, p, 1, 2, CK_I32, BK_I32);
            emit_i32(out, p, 0);
            emit_field_hdr(out, p, 2, 3, CK_BINARY, BK_BINARY);
            emit_bytes(out, p, value.as_str().as_bytes());
            emit_stop(out);
            assert(out@ =~= old(out)@ + spec_enc_tag(p, t@));
        },
        Tag::Double { key, value } => {
            emit_field_hdr(out, p, 0, 1, CK_BINARY, BK_BINARY);
            emit_bytes(out, p, key.as_str().as_bytes());
            emit_field_hdr(out, p, 1, 2, CK_I32, BK_I32);
            emit_i32(out, p, 1);
            emit_field_hdr(out, p, 2, 4, CK_DOUBLE, BK_DOUBLE);
            emit_double(out, p, *value);
            emit_stop(out);
            assert(out@ =~= old(out)@ + spec_enc_tag(p, t@));
        },
        Tag::Bool { key, value } => {
            emit_field_hdr(out, p, 0, 1, CK_BINARY, BK_BINARY);
            emit_bytes(out, p, key.as_str().as_bytes());
            emit_field_hdr(out, p, 1, 2, CK_I32, BK_I32);
            emit_i32(out, p, 2);
            let ck: u8 = if *value {
                CK_BOOL_TRUE
            } else {
                CK_BOOL_FALSE
            };
            emit_field_hdr(out, p, 2, 5, ck, BK_BOOL);
            match p {
                Protocol::Compact => {},
                Protocol::Binary => {
                    let b: u8 = if *value {
                        1
                    } else {
                        0
                    };
                    out.push(b);
                },
            }
            emit_stop(out);
            assert(out@ =~= old(out)@ + spec_enc_tag(p, t@));
        },
        Tag::Long { key, value } => {
            emit_field_hdr(out, p, 0, 1, CK_BINARY, BK_BINARY);
            emit_bytes(out, p, key.as_str().as_bytes());
            emit_field_hdr(out, p, 1, 2, CK_I32, BK_I32);
            emit_i32(out, p, 3);
            emit_field_hdr(out, p, 2, 6, CK_I64, BK_I64);
            emit_i64(out, p, *value);
            emit_stop(out);
            assert(out@ =~= old(out)@ + spec_enc_tag(p, t@));
        },
        Tag::Binary { key, value } => {
            emit_field_hdr(out, p, 0, 1, CK_BINARY, BK_BINARY);
            emit_bytes(out, p, key.as_str().as_bytes());
            emit_field_hdr(out, p, 1, 2, CK_I32, BK_I32);
            emit_i32(out, p, 4);
            emit_field_hdr(out, p, 2, 7, CK_BINARY, BK_BINARY);
            emit_bytes(out, p, value.as_slice());
            emit_stop(out);
            assert(out@ =~= old(out)@ + spec_enc_tag(p, t@));
        },
    }
}

// ---------------------------------------------------------------------------
// Sequences of records, encoded front first.

pub open spec fn spec_enc_ref_seq(p: Protocol, xs: Seq<SpanRef>) -> Seq<u8> {
    spec_enc_seq(|r: SpanRef| spec_enc_span_ref(p, r), xs)
}

pub open spec fn spec_enc_tag_seq(p: Protocol, xs: Seq<TagV>) -> Seq<u8> {
    spec_enc_seq(|t: TagV| spec_enc_tag(p, t), xs)
}

pub proof fn lemma_ref_seq_push(p: Protocol, xs: Seq<SpanRef>, x: SpanRef)
    ensures
        spec_enc_ref_seq(p, xs.push(x)) == spec_enc_ref_seq(p, xs) + spec_enc_span_ref(p, x),
{
    lemma_enc_seq_push(|r: SpanRef| spec_enc_span_ref(p, r), xs, x);
}

pub proof fn lemma_tag_seq_push(p: Protocol, xs: Seq<TagV>, x: TagV)
    ensures
        spec_enc_tag_seq(p, xs.push(x)) == spec_enc_tag_seq(p, xs) + spec_enc_tag(p, x),
{
    lemma_enc_seq_push(|t: TagV| spec_enc_tag(p, t), xs, x);
}

pub open spec fn wf_tag_seq(ts: Seq<TagV>) -> bool {
    &&& ts.len() <= MAX_WIRE_LEN
    &&& forall|i: int| 0 <= i < ts.len() ==> wf_tag(#[trigger] ts[i])
}

/// The view of a vector of tags.
pub open spec fn tags_view(ts: Seq<Tag>) -> Seq<TagV> {
    Seq::new(ts.len(), |i: int| ts[i]@)
}

/// Emits a list header followed by every reference, in order.
pub fn encode_ref_list(out: &mut Vec<u8>, p: Protocol, xs: &Vec<SpanRef>)
    requires
        xs@.len() <= MAX_WIRE_LEN,
    ensures
        final(out)@ == old(out)@ + spec_list_hdr(p, xs@.len()) + spec_enc_ref_seq(p, xs@),
{
    emit_list_hdr(out, p, xs.len());
    let mut i: usize = 0;
    while i < xs.len()
        invariant
            i <= xs@.len(),
            out@ == old(out)@ + spec_list_hdr(p, xs@.len()) + spec_enc_ref_seq(
                p,
                xs@.take(i as int),
            ),
        decreases xs@.len() - i,
    {
        encode_span_ref(out, p, &xs[i]);
        proof {
            lemma_ref_seq_push(p, xs@.take(i as int), xs@[i as int]);
            assert(xs@.take(i + 1 as int) =~= xs@.take(i as int).push(xs@[i as int]));
            lemma_add_assoc(
                old(out)@ + spec_list_hdr(p, xs@.len()),
                spec_enc_ref_seq(p, xs@.take(i as int)),
                spec_enc_span_ref(p, xs@[i as int]),
            );
        }
        i = i + 1;
    }
    assert(xs@.take(xs@.len() as int) =~= xs@);
}

/// Emits a list header followed by every tag, in order.
pub fn encode_tag_list(out: &mut Vec<u8>, p: Protocol, xs: &Vec<Tag>)
    requires
        wf_tag_seq(tags_view(xs@)),
    ensures
        final(out)@ == old(out)@ + spec_list_hdr(p, xs@.len()) + spec_enc_tag_seq(
            p,
            tags_view(xs@),
        ),
{
    emit_list_hdr(out, p, xs.len());
    let mut i: usize = 0;
    while i < xs.len()
        invariant
            i <= xs@.len(),
            wf_tag_seq(tags_view(xs@)),
            out@ == old(out)@ + spec_list_hdr(p, xs@.len()) + spec_enc_tag_seq(
                p,
                tags_view(xs@).take(i as int),
            ),
        decreases xs@.len() - i,
    {
        proof {
            assert(tags_view(xs@)[i as int] == xs@[i as int]@);
        }
        encode_tag(out, p, &xs[i]);
        proof {
            lemma_tag_seq_push(p, tags_view(xs@).take(i as int), tags_view(xs@)[i as int]);
            assert(tags_view(xs@).take(i + 1 as int) =~= tags_view(xs@).take(i as int).push(
                tags_view(xs@)[i as int],
            ));
            lemma_add_assoc(
                old(out)@ + spec_list_hdr(p, xs@.len()),
                spec_enc_tag_seq(p, tags_view(xs@).take(i as int)),
                spec_enc_tag(p, tags_view(xs@)[i as int]),
            );
        }
        i = i + 1;
    }
    assert(tags_view(xs@).take(xs@.len() as int) =~= tags_view(xs@));
}

// ---------------------------------------------------------------------------
// Log and Process.

/// A timestamped list of tags attached to a span.
#[derive(Debug, Clone, PartialEq)]
pub struct Log {
    /// Microseconds since the epoch.
    pub timestamp: i64,
    pub fields: Vec<Tag>,
}

pub struct LogV {
    pub timestamp: i64,
    pub fields: Seq<TagV>,
}

impl View for Log {
    type V = LogV;

    open spec fn view(&self) -> LogV {
        LogV { timestamp: self.timestamp, fields: tags_view(self.fields@) }
    }
}

pub open spec fn wf_log(l: LogV) -> bool {
    wf_tag_seq(l.fields)
}

/// Field list of a log: 1 timestamp, 2 fields (always present), stop.
pub open spec fn spec_enc_log(p: Protocol, l: LogV) -> Seq<u8> {
    spec_field_hdr(p, 0, 1, CK_I64, BK_I64) + spec_enc_i64(p, l.timestamp)
        + spec_field_hdr(p, 1, 2, CK_LIST, BK_LIST) + spec_list_hdr(p, l.fields.len())
        + spec_enc_tag_seq(p, l.fields) + spec_stop()
}

pub fn encode_log(out: &mut Vec<u8>, p: Protocol, l: &Log)
    requires
        wf_log(l@),
    ensures
        final(out)@ == old(out)@ + spec_enc_log(p, l@),
{
    emit_field_hdr(out, p, 0, 1, CK_I64, BK_I64);
    emit_i64(out, p, l.timestamp);
    emit_field_hdr(out, p, 1, 2, CK_LIST, BK_LIST);
    encode_tag_list(out, p, &l.fields);
    emit_stop(out);
    assert(out@ =~= old(out)@ + spec_enc_log(p, l@));
}

/// The traced process that emits spans.
#[derive(Debug, Clone, PartialEq)]
pub struct Process {
    /// The name of the traced service.
    pub service_name: String,
    /// Process-level metadata; left off the wire when empty.
    pub tags: Vec<Tag>,
}

pub struct ProcessV {
    pub service_name: Seq<u8>,
    pub tags: Seq<TagV>,
}

impl View for Process {
    type V = ProcessV;

    open spec fn view(&self) -> ProcessV {
        ProcessV {
            service_name: encode_utf8(self.service_name@),
            tags: tags_view(self.tags@),
        }
    }
}

pub open spec fn wf_process(pr: ProcessV) -> bool {
    &&& pr.service_name.len() <= MAX_WIRE_LEN
    &&& wf_tag_seq(pr.tags)
}

/// Field list of a process: 1 service_name, 2 tags (omitted when empty),
/// stop.
pub open spec fn spec_enc_process(p: Protocol, pr: ProcessV) -> Seq<u8> {
    spec_field_hdr(p, 0, 1, CK_BINARY, BK_BINARY) + spec_enc_bytes(p, pr.service_name) + (
    if pr.tags.len() > 0 {
        spec_field_hdr(p, 1, 2, CK_LIST, BK_LIST) + spec_list_hdr(p, pr.tags.len())
            + spec_enc_tag_seq(p, pr.tags)
    } else {
        Seq::<u8>::empty()
    }) + spec_stop()
}

pub fn encode_process(out: &mut Vec<u8>, p: Protocol, pr: &Process)
    requires
        wf_process(pr@),
    ensures
        final(out)@ == old(out)@ + spec_enc_process(p, pr@),
{
    emit_field_hdr(out, p, 0, 1, CK_BINARY, BK_BINARY);
    emit_bytes(out, p, pr.service_name.as_str().as_bytes());
    if pr.tags.len() > 0 {
        emit_field_hdr(out, p, 1, 2, CK_LIST, BK_LIST);
        encode_tag_list(out, p, &pr.tags);
    }
    emit_stop(out);
    assert(out@ =~= old(out)@ + spec_enc_process(p, pr@));
}

// ---------------------------------------------------------------------------
// Span.

/// A named unit of work performed by a service.
#[derive(Debug, Clone, PartialEq)]
pub struct Span {
    /// The least significant 64 bits of the trace id.
    pub trace_id_low: i64,
    /// The most significant 64 bits of the trace id.
    pub trace_id_high: i64,
    /// Unique within one trace.
    pub span_id: i64,
    /// `0` when this span is the root.
    pub parent_span_id: i64,
    pub operation_name: String,
    /// Causal references; left off the wire when empty.
    pub references: Vec<SpanRef>,
    /// Sampling bit field; `1` marks a sampled span.
    pub flags: i32,
    /// Microseconds since the epoch.
    pub start_time: i64,
    /// Microseconds.
    pub duration: i64,
    /// Left off the wire when empty.
    pub tags: Vec<Tag>,
    /// Left off the wire when empty.
    pub logs: Vec<Log>,
}

pub struct SpanV {
    pub trace_id_low: i64,
    pub trace_id_high: i64,
    pub span_id: i64,
    pub parent_span_id: i64,
    pub operation_name: Seq<u8>,
    pub references: Seq<SpanRef>,
    pub flags: i32,
    pub start_time: i64,
    pub duration: i64,
    pub tags: Seq<TagV>,
    pub logs: Seq<LogV>,
}

/// The view of a vector of logs.
pub open spec fn logs_view(ls: Seq<Log>) -> Seq<LogV> {
    Seq::new(ls.len(), |i: int| ls[i]@)
}

impl View for Span {
    type V = SpanV;

    open spec fn view(&self) -> SpanV {
        SpanV {
            trace_id_low: self.trace_id_low,
            trace_id_high: self.trace_id_high,
            span_id: self.span_id,
            parent_span_id: self.parent_span_id,
            operation_name: encode_utf8(self.operation_name@),
            references: self.references@,
            flags: self.flags,
            start_time: self.start_time,
            duration: self.duration,
            tags: tags_view(self.tags@),
            logs: logs_view(self.logs@),
        }
    }
}

pub open spec fn wf_span(s: SpanV) -> bool {
    &&& s.operation_name.len() <= MAX_WIRE_LEN
    &&& s.references.len() <= MAX_WIRE_LEN
    &&& wf_tag_seq(s.tags)
    &&& s.logs.len() <= MAX_WIRE_LEN
    &&& forall|i: int| 0 <= i < s.logs.len() ==> wf_log(#[trigger] s.logs[i])
}

/// Fields 1 to 5: the identifiers and the operation name.
pub open spec fn spec_enc_span_head(p: Protocol, s: SpanV) -> Seq<u8> {
    spec_field_hdr(p, 0, 1, CK_I64, BK_I64) + spec_enc_i64(p, s.trace_id_low)
        + spec_field_hdr(p, 1, 2, CK_I64, BK_I64) + spec_enc_i64(p, s.trace_id_high)
        + spec_field_hdr(p, 2, 3, CK_I64, BK_I64) + spec_enc_i64(p, s.span_id)
        + spec_field_hdr(p, 3, 4, CK_I64, BK_I64) + spec_enc_i64(p, s.parent_span_id)
        + spec_field_hdr(p, 4, 5, CK_BINARY, BK_BINARY) + spec_enc_bytes(p, s.operation_name)
}

/// Field 6, omitted when the reference list is empty.
pub open spec fn spec_enc_span_refs(p: Protocol, s: SpanV) -> Seq<u8> {
    if s.references.len() > 0 {
        spec_field_hdr(p, 5, 6, CK_LIST, BK_LIST) + spec_list_hdr(p, s.references.len())
            + spec_enc_ref_seq(p, s.references)
    } else {
        Seq::<u8>::empty()
    }
}

/// Fields 7 to 9; field 7's compact header delta depends on whether field 6
/// was present.
pub open spec fn spec_enc_span_mid(p: Protocol, s: SpanV) -> Seq<u8> {
    let prev: u16 = if s.references.len() > 0 {
        6
    } else {
        5
    };
    spec_field_hdr(p, prev, 7, CK_I32, BK_I32) + spec_enc_i32(p, s.flags)
        + spec_field_hdr(p, 7, 8, CK_I64, BK_I64) + spec_enc_i64(p, s.start_time)
        + spec_field_hdr(p, 8, 9, CK_I64, BK_I64) + spec_enc_i64(p, s.duration)
}

/// Field 10, omitted when the tag list is empty.
pub open spec fn spec_enc_span_tags(p: Protocol, s: SpanV) -> Seq<u8> {
    if s.tags.len() > 0 {
        spec_field_hdr(p, 9, 10, CK_LIST, BK_LIST) + spec_list_hdr(p, s.tags.len())
            + spec_enc_tag_seq(p, s.tags)
    } else {
        Seq::<u8>::empty()
    }
}

pub open spec fn spec_enc_log_seq(p: Protocol, xs: Seq<LogV>) -> Seq<u8> {
    spec_enc_seq(|l: LogV| spec_enc_log(p, l), xs)
}

pub proof fn lemma_log_seq_push(p: Protocol, xs: Seq<LogV>, x: LogV)
    ensures
        spec_enc_log_seq(p, xs.push(x)) == spec_enc_log_seq(p, xs) + spec_enc_log(p, x),
{
    lemma_enc_seq_push(|l: LogV| spec_enc_log(p, l), xs, x);
}

/// Field 11, omitted when the log list is empty; its compact header delta
/// depends on whether field 10 was present.
pub open spec fn spec_enc_span_logs(p: Protocol, s: SpanV) -> Seq<u8> {
    let prev: u16 = if s.tags.len() > 0 {
        10
    } else {
        9
    };
    if s.logs.len() > 0 {
        spec_field_hdr(p, prev, 11, CK_LIST, BK_LIST) + spec_list_hdr(p, s.logs.len())
            + spec_enc_log_seq(p, s.logs)
    } else {
        Seq::<u8>::empty()
    }
}

/// The whole span record.
pub open spec fn spec_enc_span(p: Protocol, s: SpanV) -> Seq<u8> {
    spec_enc_span_head(p, s) + spec_enc_span_refs(p, s) + spec_enc_span_mid(p, s)
        + spec_enc_span_tags(p, s) + spec_enc_span_logs(p, s) + spec_stop()
}

/// Emits a list header followed by every log, in order.
pub fn encode_log_list(out: &mut Vec<u8>, p: Protocol, xs: &Vec<Log>)
    requires
        xs@.len() <= MAX_WIRE_LEN,
        forall|i: int| 0 <= i < xs@.len() ==> wf_log(#[trigger] logs_view(xs@)[i]),
    ensures
        final(out)@ == old(out)@ + spec_list_hdr(p, xs@.len()) + spec_enc_log_seq(
            p,
            logs_view(xs@),
        ),
{
    emit_list_hdr(out, p, xs.len());
    let mut i: usize = 0;
    while i < xs.len()
        invariant
            i <= xs@.len(),
            forall|j: int| 0 <= j < xs@.len() ==> wf_log(#[trigger] logs_view(xs@)[j]),
            out@ == old(out)@ + spec_list_hdr(p, xs@.len()) + spec_enc_log_seq(
                p,
                logs_view(xs@).take(i as int),
            ),
        decreases xs@.len() - i,
    {
        proof {
            assert(logs_view(xs@)[i as int] == xs@[i as int]@);
        }
        encode_log(out, p, &xs[i]);
        proof {
            lemma_log_seq_push(p, logs_view(xs@).take(i as int), logs_view(xs@)[i as int]);
            assert(logs_view(xs@).take(i + 1 as int) =~= logs_view(xs@).take(i as int).push(
                logs_view(xs@)[i as int],
            ));
            lemma_add_assoc(
                old(out)@ + spec_list_hdr(p, xs@.len()),
                spec_enc_log_seq(p, logs_view(xs@).take(i as int)),
                spec_enc_log(p, logs_view(xs@)[i as int]),
            );
        }
        i = i + 1;
    }
    assert(logs_view(xs@).take(xs@.len() as int) =~= logs_view(xs@));
}

fn encode_span_head(out: &mut Vec<u8>, p: Protocol, s: &Span)
    requires
        wf_span(s@),
    ensures
        final(out)@ == old(out)@ + spec_enc_span_head(p, s@),
{
    emit_field_hdr(out, p, 0, 1, CK_I64, BK_I64);
    emit_i64(out, p, s.trace_id_low);
    emit_field_hdr(out, p, 1, 2, CK_I64, BK_I64);
    emit_i64(out, p, s.trace_id_high);
    emit_field_hdr(out, p, 2, 3, CK_I64, BK_I64);
    emit_i64(out, p, s.span_id);
    emit_field_hdr(out, p, 3, 4, CK_I64, BK_I64);
    emit_i64(out, p, s.parent_span_id);
    emit_field_hdr(out, p, 4, 5, CK_BINARY, BK_BINARY);
    emit_bytes(out, p, s.operation_name.as_str().as_bytes());
    proof {
        lemma_regroup10(
            old(out)@,
            spec_field_hdr(p, 0, 1, CK_I64, BK_I64),
            spec_enc_i64(p, s@.trace_id_low),
            spec_field_hdr(p, 1, 2, CK_I64, BK_I64),
            spec_enc_i64(p, s@.trace_id_high),
            spec_field_hdr(p, 2, 3, CK_I64, BK_I64),
            spec_enc_i64(p, s@.span_id),
            spec_field_hdr(p, 3, 4, CK_I64, BK_I64),
            spec_enc_i64(p, s@.parent_span_id),
            spec_field_hdr(p, 4, 5, CK_BINARY, BK_BINARY),
            spec_enc_bytes(p, s@.operation_name),
        );
    }
}

fn encode_span_refs_mid(out: &mut Vec<u8>, p: Protocol, s: &Span)
    requires
        wf_span(s@),
    ensures
        final(out)@ == old(out)@ + spec_enc_span_refs(p, s@) + spec_enc_span_mid(p, s@),
{
    if s.references.len() > 0 {
        emit_field_hdr(out, p, 5, 6, CK_LIST, BK_LIST);
        encode_ref_list(out, p, &s.references);
        proof {
            lemma_regroup3(
                old(out)@,
                spec_field_hdr(p, 5, 6, CK_LIST, BK_LIST),
                spec_list_hdr(p, s@.references.len()),
                spec_enc_ref_seq(p, s@.references),
            );
            assert(out@ == old(out)@ + spec_enc_span_refs(p, s@));
        }
        emit_field_hdr(out, p, 6, 7, CK_I32, BK_I32);
    } else {
        assert(out@ =~= out@ + spec_enc_span_refs(p, s@));
        emit_field_hdr(out, p, 5, 7, CK_I32, BK_I32);
    }
    emit_i32(out, p, s.flags);
    emit_field_hdr(out, p, 7, 8, CK_I64, BK_I64);
    emit_i64(out, p, s.start_time);
    emit_field_hdr(out, p, 8, 9, CK_I64, BK_I64);
    emit_i64(out, p, s.duration);
    proof {
        let prev: u16 = if s@.references.len() > 0 {
            6
        } else {
            5
        };
        lemma_regroup6(
            old(out)@ + spec_enc_span_refs(p, s@),
            spec_field_hdr(p, prev, 7, CK_I32, BK_I32),
            spec_enc_i32(p, s@.flags),
            spec_field_hdr(p, 7, 8, CK_I64, BK_I64),
            spec_enc_i64(p, s@.start_time),
            spec_field_hdr(p, 8, 9, CK_I64, BK_I64),
            spec_enc_i64(p, s@.duration),
        );
    }
}

fn encode_span_tail(out: &mut Vec<u8>, p: Protocol, s: &Span)
    requires
        wf_span(s@),
    ensures
        final(out)@ == old(out)@ + spec_enc_span_tags(p, s@) + spec_enc_span_logs(p, s@)
            + spec_stop(),
{
    if s.tags.len() > 0 {
        emit_field_hdr(out, p, 9, 10, CK_LIST, BK_LIST);
        encode_tag_list(out, p, &s.tags);
        proof {
            lemma_regroup3(
                old(out)@,
                spec_field_hdr(p, 9, 10, CK_LIST, BK_LIST),
                spec_list_hdr(p, s@.tags.len()),
                spec_enc_tag_seq(p, s@.tags),
            );
        }
    } else {
        assert(out@ =~= out@ + spec_enc_span_tags(p, s@));
    }
    assert(out@ == old(out)@ + spec_enc_span_tags(p, s@));
    if s.logs.len() > 0 {
        let prev: u16 = if s.tags.len() > 0 {
            10
        } else {
            9
        };
        emit_field_hdr(out, p, prev, 11, CK_LIST, BK_LIST);
        encode_log_list(out, p, &s.logs);
        proof {
            lemma_regroup3(
                old(out)@ + spec_enc_span_tags(p, s@),
                spec_field_hdr(p, (if s@.tags.len() > 0 { 10u16 } else { 9u16 }), 11, CK_LIST, BK_LIST),
                spec_list_hdr(p, s@.logs.len()),
                spec_enc_log_seq(p, s@.logs),
            );
        }
    } else {
        assert(out@ =~= out@ + spec_enc_span_logs(p, s@));
    }
    assert(out@ == old(out)@ + spec_enc_span_tags(p, s@) + spec_enc_span_logs(p, s@));
    emit_stop(out);
}

pub fn encode_span(out: &mut Vec<u8>, p: Protocol, s: &Span)
    requires
        wf_span(s@),
    ensures
        final(out)@ == old(out)@ + spec_enc_span(p, s@),
{
    encode_span_head(out, p, s);
    encode_span_refs_mid(out, p, s);
    encode_span_tail(out, p, s);
    proof {
        lemma_regroup6(
            old(out)@,
            spec_enc_span_head(p, s@),
            spec_enc_span_refs(p, s@),
            spec_enc_span_mid(p, s@),
            spec_enc_span_tags(p, s@),
            spec_enc_span_logs(p, s@),
            spec_stop(),
        );
    }
}

// ---------------------------------------------------------------------------
// Batch.

/// One process's export unit: the process descriptor and its spans.
/// Built fresh for every report and discarded once sent.
#[derive(Debug, Clone, PartialEq)]
pub struct Batch {
    pub process: Process,
    pub spans: Vec<Span>,
}

pub struct BatchV {
    pub process: ProcessV,
    pub spans: Seq<SpanV>,
}

/// The view of a vector of spans.
pub open spec fn spans_view(ss: Seq<Span>) -> Seq<SpanV> {
    Seq::new(ss.len(), |i: int| ss[i]@)
}

impl View for Batch {
    type V = BatchV;

    open spec fn view(&self) -> BatchV {
        BatchV { process: self.process@, spans: spans_view(self.spans@) }
    }
}

pub open spec fn wf_batch(b: BatchV) -> bool {
    &&& wf_process(b.process)
    &&& b.spans.len() <= MAX_WIRE_LEN
    &&& forall|i: int| 0 <= i < b.spans.len() ==> wf_span(#[trigger] b.spans[i])
}

pub open spec fn spec_enc_span_seq(p: Protocol, xs: Seq<SpanV>) -> Seq<u8> {
    spec_enc_seq(|s: SpanV| spec_enc_span(p, s), xs)
}

pub proof fn lemma_span_seq_push(p: Protocol, xs: Seq<SpanV>, x: SpanV)
    ensures
        spec_enc_span_seq(p, xs.push(x)) == spec_enc_span_seq(p, xs) + spec_enc_span(p, x),
{
    lemma_enc_seq_push(|s: SpanV| spec_enc_span(p, s), xs, x);
}

/// Field list of a batch: 1 process, 2 spans, stop.
pub open spec fn spec_enc_batch(p: Protocol, b: BatchV) -> Seq<u8> {
    spec_field_hdr(p, 0, 1, CK_STRUCT, BK_STRUCT) + spec_enc_process(p, b.process)
        + spec_field_hdr(p, 1, 2, CK_LIST, BK_LIST) + spec_list_hdr(p, b.spans.len())
        + spec_enc_span_seq(p, b.spans) + spec_stop()
}

/// Emits a list header followed by every span, in order.
pub fn encode_span_list(out: &mut Vec<u8>, p: Protocol, xs: &Vec<Span>)
    requires
        xs@.len() <= MAX_WIRE_LEN,
        forall|i: int| 0 <= i < xs@.len() ==> wf_span(#[trigger] spans_view(xs@)[i]),
    ensures
        final(out)@ == old(out)@ + spec_list_hdr(p, xs@.len()) + spec_enc_span_seq(
            p,
            spans_view(xs@),
        ),
{
    emit_list_hdr(out, p, xs.len());
    let mut i: usize = 0;
    while i < xs.len()
        invariant
            i <= xs@.len(),
            forall|j: int| 0 <= j < xs@.len() ==> wf_span(#[trigger] spans_view(xs@)[j]),
            out@ == old(out)@ + spec_list_hdr(p, xs@.len()) + spec_enc_span_seq(
                p,
                spans_view(xs@).take(i as int),
            ),
        decreases xs@.len() - i,
    {
        proof {
            assert(spans_view(xs@)[i as int] == xs@[i as int]@);
        }
        encode_span(out, p, &xs[i]);
        proof {
            lemma_span_seq_push(p, spans_view(xs@).take(i as int), spans_view(xs@)[i as int]);
            assert(spans_view(xs@).take(i + 1 as int) =~= spans_view(xs@).take(i as int).push(
                spans_view(xs@)[i as int],
            ));
            lemma_add_assoc(
                old(out)@ + spec_list_hdr(p, xs@.len()),
                spec_enc_span_seq(p, spans_view(xs@).take(i as int)),
                spec_enc_span(p, spans_view(xs@)[i as int]),
            );
        }
        i = i + 1;
    }
    assert(spans_view(xs@).take(xs@.len() as int) =~= spans_view(xs@));
}

pub fn encode_batch(out: &mut Vec<u8>, p: Protocol, b: &Batch)
    requires
        wf_batch(b@),
    ensures
        final(out)@ == old(out)@ + spec_enc_batch(p, b@),
{
    emit_field_hdr(out, p, 0, 1, CK_STRUCT, BK_STRUCT);
    encode_process(out, p, &b.process);
    emit_field_hdr(out, p, 1, 2, CK_LIST, BK_LIST);
    encode_span_list(out, p, &b.spans);
    emit_stop(out);
    proof {
        lemma_regroup6(
            old(out)@,
            spec_field_hdr(p, 0, 1, CK_STRUCT, BK_STRUCT),
            spec_enc_process(p, b@.process),
            spec_field_hdr(p, 1, 2, CK_LIST, BK_LIST),
            spec_list_hdr(p, b@.spans.len()),
            spec_enc_span_seq(p, b@.spans),
            spec_stop(),
        );
    }
}

// ---------------------------------------------------------------------------
// Well-formedness checks: every byte string and list must fit the wire's
// 31-bit length fields before a record can be serialized.

pub fn tag_is_wf(t: &Tag) -> (r: bool)
    ensures
        r == wf_tag(t@),
{
    match t {
        Tag::String { key, value } => key.as_str().as_bytes().len() <= MAX_WIRE_LEN && value.as_str().as_bytes().len()
            <= MAX_WIRE_LEN,
        Tag::Double { key, .. } => key.as_str().as_bytes().len() <= MAX_WIRE_LEN,
        Tag::Bool { key, .. } => key.as_str().as_bytes().len() <= MAX_WIRE_LEN,
        Tag::Long { key, .. } => key.as_str().as_bytes().len() <= MAX_WIRE_LEN,
        Tag::Binary { key, value } => key.as_str().as_bytes().len() <= MAX_WIRE_LEN && value.len()
            <= MAX_WIRE_LEN,
    }
}

pub fn tags_are_wf(xs: &Vec<Tag>) -> (r: bool)
    ensures
        r == wf_tag_seq(tags_view(xs@)),
{
    if xs.len() > MAX_WIRE_LEN {
        return false;
    }
    let mut i: usize = 0;
    while i < xs.len()
        invariant
            i <= xs@.len(),
            xs@.len() <= MAX_WIRE_LEN,
            forall|j: int| 0 <= j < i ==> wf_tag(#[trigger] tags_view(xs@)[j]),
        decreases xs@.len() - i,
    {
        if !tag_is_wf(&xs[i]) {
            proof {
                assert(!wf_tag(tags_view(xs@)[i as int]));
            }
            return false;
        }
        proof {
            assert(wf_tag(tags_view(xs@)[i as int]));
        }
        i = i + 1;
    }
    true
}

pub fn log_is_wf(l: &Log) -> (r: bool)
    ensures
        r == wf_log(l@),
{
    tags_are_wf(&l.fields)
}

pub fn process_is_wf(pr: &Process) -> (r: bool)
    ensures
        r == wf_process(pr@),
{
    pr.service_name.as_str().as_bytes().len() <= MAX_WIRE_LEN && tags_are_wf(&pr.tags)
}

pub fn span_is_wf(s: &Span) -> (r: bool)
    ensures
        r == wf_span(s@),
{
    if s.operation_name.as_str().as_bytes().len() > MAX_WIRE_LEN || s.references.len() > MAX_WIRE_LEN
        || s.logs.len() > MAX_WIRE_LEN {
        return false;
    }
    if !tags_are_wf(&s.tags) {
        return false;
    }
    let mut i: usize = 0;
    while i < s.logs.len()
        invariant
            i <= s.logs@.len(),
            forall|j: int| 0 <= j < i ==> wf_log(#[trigger] logs_view(s.logs@)[j]),
        decreases s.logs@.len() - i,
    {
        proof {
            assert(logs_view(s.logs@)[i as int] == s.logs@[i as int]@);
        }
        if !log_is_wf(&s.logs[i]) {
            proof {
                assert(!wf_log(logs_view(s.logs@)[i as int]));
            }
            return false;
        }
        i = i + 1;
    }
    true
}

pub fn batch_is_wf(b: &Batch) -> (r: bool)
    ensures
        r == wf_batch(b@),
{
    if !process_is_wf(&b.process) || b.spans.len() > MAX_WIRE_LEN {
        return false;
    }
    let mut i: usize = 0;
    while i < b.spans.len()
        invariant
            i <= b.spans@.len(),
            forall|j: int| 0 <= j < i ==> wf_span(#[trigger] spans_view(b.spans@)[j]),
        decreases b.spans@.len() - i,
    {
        proof {
            assert(spans_view(b.spans@)[i as int] == b.spans@[i as int]@);
        }
        if !span_is_wf(&b.spans[i]) {
            proof {
                assert(!wf_span(spans_view(b.spans@)[i as int]));
            }
            return false;
        }
        i = i + 1;
    }
    true
}

} // verus!
