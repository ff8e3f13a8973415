//! Cross-checks of the serializers against an independent thrift codec:
//! byte-for-byte equality on the encode side, and structural round trips
//! through its decoder.

use minitrace_jaeger::agent::{try_encode_notification, EmitBatchNotification};
use minitrace_jaeger::errors::Error;
use minitrace_jaeger::jaeger::{Batch, Log, Process, Span, SpanRef, SpanRefKind, Tag};
use minitrace_jaeger::report::encode_report;
use minitrace_jaeger::translate::{SpanLink, TraceSpan};
use minitrace_jaeger::wire::Protocol;

use thrift_codec::data::{Data, Elements, Field, List, Struct};
use thrift_codec::message::{Message, MessageKind};
use thrift_codec::{BinaryDecode, BinaryEncode, CompactDecode, CompactEncode};

fn sample_tags() -> Vec<Tag> {
    vec![
        Tag::String { key: "s".to_owned(), value: "hello".to_owned() },
        Tag::Double { key: "d".to_owned(), value: 2.5f64.to_bits() },
        Tag::Bool { key: "b".to_owned(), value: true },
        Tag::Long { key: "l".to_owned(), value: -123456789 },
        Tag::Binary { key: "raw".to_owned(), value: vec![0, 1, 254, 255] },
    ]
}

fn sample_batch() -> Batch {
    let span1 = Span {
        trace_id_low: 42,
        trace_id_high: -7,
        span_id: 1,
        parent_span_id: 0,
        operation_name: "root-op".to_owned(),
        references: Vec::new(),
        flags: 1,
        start_time: 1_000_000,
        duration: 30_000,
        tags: Vec::new(),
        logs: Vec::new(),
    };
    let span2 = Span {
        trace_id_low: 42,
        trace_id_high: -7,
        span_id: 2,
        parent_span_id: 1,
        operation_name: "child-op".to_owned(),
        references: vec![SpanRef {
            kind: SpanRefKind::ChildOf,
            trace_id_low: 42,
            trace_id_high: -7,
            span_id: 1,
        }],
        flags: 1,
        start_time: 1_005_000,
        duration: 15_000,
        tags: sample_tags(),
        logs: vec![Log { timestamp: 77, fields: sample_tags() }],
    };
    Batch {
        process: Process { service_name: "demo-service".to_owned(), tags: sample_tags() },
        spans: vec![span1, span2],
    }
}

fn reference_tag_struct(t: &Tag) -> Struct {
    match t {
        Tag::String { key, value } => Struct::new(vec![
            Field::new(1, key.clone()),
            Field::new(2, 0i32),
            Field::new(3, value.clone()),
        ]),
        Tag::Double { key, value } => Struct::new(vec![
            Field::new(1, key.clone()),
            Field::new(2, 1i32),
            Field::new(4, f64::from_bits(*value)),
        ]),
        Tag::Bool { key, value } => Struct::new(vec![
            Field::new(1, key.clone()),
            Field::new(2, 2i32),
            Field::new(5, *value),
        ]),
        Tag::Long { key, value } => Struct::new(vec![
            Field::new(1, key.clone()),
            Field::new(2, 3i32),
            Field::new(6, *value),
        ]),
        Tag::Binary { key, value } => Struct::new(vec![
            Field::new(1, key.clone()),
            Field::new(2, 4i32),
            Field::new(7, value.clone()),
        ]),
    }
}

fn reference_span_struct(s: &Span) -> Struct {
    let mut fields = Vec::new();
    fields.push(Field::new(1, s.trace_id_low));
    fields.push(Field::new(2, s.trace_id_high));
    fields.push(Field::new(3, s.span_id));
    fields.push(Field::new(4, s.parent_span_id));
    fields.push(Field::new(5, s.operation_name.clone()));
    if !s.references.is_empty() {
        let refs: Vec<Struct> = s
            .references
            .iter()
            .map(|r| {
                let kind = match r.kind {
                    SpanRefKind::ChildOf => 0i32,
                    SpanRefKind::FollowsFrom => 1i32,
                };
                Struct::from((kind, r.trace_id_low, r.trace_id_high, r.span_id))
            })
            .collect();
        fields.push(Field::new(6, List::from(refs)));
    }
    fields.push(Field::new(7, s.flags));
    fields.push(Field::new(8, s.start_time));
    fields.push(Field::new(9, s.duration));
    if !s.tags.is_empty() {
        let tags: Vec<Struct> = s.tags.iter().map(reference_tag_struct).collect();
        fields.push(Field::new(10, List::from(tags)));
    }
    if !s.logs.is_empty() {
        let logs: Vec<Struct> = s
            .logs
            .iter()
            .map(|l| {
                let lt: Vec<Struct> = l.fields.iter().map(reference_tag_struct).collect();
                Struct::from((l.timestamp, List::from(lt)))
            })
            .collect();
        fields.push(Field::new(11, List::from(logs)));
    }
    Struct::new(fields)
}

fn reference_message(b: &Batch) -> Message {
    let process_tags: Vec<Struct> = b.process.tags.iter().map(reference_tag_struct).collect();
    let process = if process_tags.is_empty() {
        Struct::from((b.process.service_name.clone(),))
    } else {
        Struct::from((b.process.service_name.clone(), List::from(process_tags)))
    };
    let spans: Vec<Struct> = b.spans.iter().map(reference_span_struct).collect();
    let batch = Struct::from((process, List::from(spans)));
    Message::oneway("emitBatch", 0, Struct::from((batch,)))
}

#[test]
fn compact_bytes_match_reference_codec() {
    let batch = sample_batch();
    let message = reference_message(&batch);
    let mut expected = Vec::new();
    message.compact_encode(&mut expected).unwrap();

    let got =
        try_encode_notification(Protocol::Compact, &EmitBatchNotification { batch }).unwrap();
    assert_eq!(got, expected);
}

#[test]
fn binary_bytes_match_reference_codec() {
    let batch = sample_batch();
    let message = reference_message(&batch);
    let mut expected = Vec::new();
    message.binary_encode(&mut expected).unwrap();

    let got = try_encode_notification(Protocol::Binary, &EmitBatchNotification { batch }).unwrap();
    assert_eq!(got, expected);
}

#[test]
fn compact_round_trip_through_reference_decoder() {
    let batch = sample_batch();
    let message = reference_message(&batch);
    let bytes =
        try_encode_notification(Protocol::Compact, &EmitBatchNotification { batch }).unwrap();
    let decoded = Message::compact_decode(&mut &bytes[..]).unwrap();
    assert_eq!(decoded.method_name(), "emitBatch");
    assert_eq!(decoded.kind(), MessageKind::Oneway);
    assert_eq!(decoded.sequence_id(), 0);
    assert_eq!(decoded, message);
}

#[test]
fn binary_round_trip_through_reference_decoder() {
    let batch = sample_batch();
    let message = reference_message(&batch);
    let bytes =
        try_encode_notification(Protocol::Binary, &EmitBatchNotification { batch }).unwrap();
    let decoded = Message::binary_decode(&mut &bytes[..]).unwrap();
    assert_eq!(decoded, message);
}

#[test]
fn tag_kinds_select_discriminant_and_payload_field() {
    let batch = Batch {
        process: Process { service_name: "svc".to_owned(), tags: sample_tags() },
        spans: vec![Span {
            trace_id_low: 1,
            trace_id_high: 2,
            span_id: 3,
            parent_span_id: 0,
            operation_name: "op".to_owned(),
            references: Vec::new(),
            flags: 1,
            start_time: 0,
            duration: 0,
            tags: Vec::new(),
            logs: Vec::new(),
        }],
    };
    let bytes =
        try_encode_notification(Protocol::Compact, &EmitBatchNotification { batch }).unwrap();
    let decoded = Message::compact_decode(&mut &bytes[..]).unwrap();
    let body = decoded.body();
    let batch_struct = match body.fields()[0].data() {
        Data::Struct(s) => s.clone(),
        other => panic!("batch field holds {:?}", other),
    };
    let process_struct = match batch_struct.fields()[0].data() {
        Data::Struct(s) => s.clone(),
        other => panic!("process field holds {:?}", other),
    };
    let tag_structs = match process_struct.fields()[1].data() {
        Data::List(list) => match &**list {
            Elements::Struct(v) => v.clone(),
            other => panic!("tag list holds {:?}", other),
        },
        other => panic!("tags field holds {:?}", other),
    };
    assert_eq!(tag_structs.len(), 5);
    let expected: [(i32, i16); 5] = [(0, 3), (1, 4), (2, 5), (3, 6), (4, 7)];
    for (tag, (kind, payload_id)) in tag_structs.iter().zip(expected.iter()) {
        let fields = tag.fields();
        assert_eq!(fields.len(), 3, "exactly one payload field is present");
        assert_eq!(fields[0].id(), 1);
        assert_eq!(fields[1].id(), 2);
        match fields[1].data() {
            Data::I32(v) => assert_eq!(v, kind),
            other => panic!("discriminant holds {:?}", other),
        }
        assert_eq!(fields[2].id(), *payload_id);
    }
}

#[test]
fn empty_collections_are_left_off_the_wire() {
    let batch = Batch {
        process: Process { service_name: "svc".to_owned(), tags: Vec::new() },
        spans: vec![Span {
            trace_id_low: 0,
            trace_id_high: 0,
            span_id: 3,
            parent_span_id: 0,
            operation_name: "op".to_owned(),
            references: Vec::new(),
            flags: 1,
            start_time: 9,
            duration: 8,
            tags: Vec::new(),
            logs: Vec::new(),
        }],
    };
    let bytes =
        try_encode_notification(Protocol::Binary, &EmitBatchNotification { batch }).unwrap();
    let decoded = Message::binary_decode(&mut &bytes[..]).unwrap();
    let batch_struct = match decoded.body().fields()[0].data() {
        Data::Struct(s) => s.clone(),
        other => panic!("batch field holds {:?}", other),
    };
    let process_struct = match batch_struct.fields()[0].data() {
        Data::Struct(s) => s.clone(),
        other => panic!("process field holds {:?}", other),
    };
    assert_eq!(process_struct.fields().len(), 1, "empty process tag list is omitted");
    let span_structs = match batch_struct.fields()[1].data() {
        Data::List(list) => match &**list {
            Elements::Struct(v) => v.clone(),
            other => panic!("span list holds {:?}", other),
        },
        other => panic!("spans field holds {:?}", other),
    };
    let ids: Vec<i16> = span_structs[0].fields().iter().map(|f| f.id()).collect();
    assert_eq!(ids, vec![1, 2, 3, 4, 5, 7, 8, 9], "fields 6, 10 and 11 are omitted");
}

#[test]
fn scalar_zero_fields_are_still_emitted() {
    let batch = Batch {
        process: Process { service_name: "svc".to_owned(), tags: Vec::new() },
        spans: vec![Span {
            trace_id_low: 0,
            trace_id_high: 0,
            span_id: 0,
            parent_span_id: 0,
            operation_name: String::new(),
            references: Vec::new(),
            flags: 0,
            start_time: 0,
            duration: 0,
            tags: Vec::new(),
            logs: Vec::new(),
        }],
    };
    let bytes =
        try_encode_notification(Protocol::Compact, &EmitBatchNotification { batch }).unwrap();
    let decoded = Message::compact_decode(&mut &bytes[..]).unwrap();
    let batch_struct = match decoded.body().fields()[0].data() {
        Data::Struct(s) => s.clone(),
        other => panic!("batch field holds {:?}", other),
    };
    let span_structs = match batch_struct.fields()[1].data() {
        Data::List(list) => match &**list {
            Elements::Struct(v) => v.clone(),
            other => panic!("span list holds {:?}", other),
        },
        other => panic!("spans field holds {:?}", other),
    };
    assert_eq!(span_structs[0].fields().len(), 8);
}

#[test]
fn report_pipeline_produces_decodable_bytes() {
    let spans = vec![
        TraceSpan {
            id: 1,
            link: SpanLink::Root { start_time_ms: 1000 },
            tag: 0,
            elapsed_start: 0,
            elapsed_end: 30,
        },
        TraceSpan {
            id: 2,
            link: SpanLink::Parent { id: 1 },
            tag: 1,
            elapsed_start: 5,
            elapsed_end: 20,
        },
    ];
    let display = |tag: u32| format!("event-{}", tag);
    let bytes = encode_report("demo", &spans, &display, Protocol::Compact).unwrap();
    let decoded = Message::compact_decode(&mut &bytes[..]).unwrap();
    assert_eq!(decoded.method_name(), "emitBatch");

    let no_root: Vec<TraceSpan> = Vec::new();
    assert_eq!(
        encode_report("demo", &no_root, &display, Protocol::Compact),
        Err(Error::MissingRoot)
    );
}
