use minitrace_jaeger::errors::Error;
use minitrace_jaeger::jaeger::SpanRefKind;
use minitrace_jaeger::translate::{map_span, map_span_with_ids, SpanLink, TraceSpan};

fn root_span(id: u64, start_time_ms: u64, elapsed_start: u64, elapsed_end: u64) -> TraceSpan {
    TraceSpan {
        id,
        link: SpanLink::Root { start_time_ms },
        tag: 0,
        elapsed_start,
        elapsed_end,
    }
}

fn child_span(id: u64, parent: u64, elapsed_start: u64, elapsed_end: u64) -> TraceSpan {
    TraceSpan {
        id,
        link: SpanLink::Parent { id: parent },
        tag: 1,
        elapsed_start,
        elapsed_end,
    }
}

fn display(tag: u32) -> String {
    format!("event-{}", tag)
}

#[test]
fn scenario_root_and_child() {
    let spans = vec![root_span(1, 1000, 0, 30), child_span(2, 1, 5, 20)];
    let out = map_span_with_ids(&spans, &display, 42, -7).unwrap();
    assert_eq!(out.len(), 2);

    let s1 = &out[0];
    assert_eq!(s1.trace_id_low, 42);
    assert_eq!(s1.trace_id_high, -7);
    assert_eq!(s1.span_id, 1);
    assert_eq!(s1.parent_span_id, 0);
    assert!(s1.references.is_empty());
    assert_eq!(s1.operation_name, "event-0");
    assert_eq!(s1.flags, 1);
    assert_eq!(s1.start_time, 1_000_000);
    assert_eq!(s1.duration, 30_000);
    assert!(s1.tags.is_empty());
    assert!(s1.logs.is_empty());

    let s2 = &out[1];
    assert_eq!(s2.trace_id_low, 42);
    assert_eq!(s2.trace_id_high, -7);
    assert_eq!(s2.span_id, 2);
    assert_eq!(s2.parent_span_id, 1);
    assert_eq!(s2.references.len(), 1);
    assert_eq!(s2.references[0].kind, SpanRefKind::ChildOf);
    assert_eq!(s2.references[0].trace_id_low, 42);
    assert_eq!(s2.references[0].trace_id_high, -7);
    assert_eq!(s2.references[0].span_id, 1);
    assert_eq!(s2.operation_name, "event-1");
    assert_eq!(s2.start_time, 1_005_000);
    assert_eq!(s2.duration, 15_000);
}

#[test]
fn child_times_follow_root_base() {
    let base: u64 = 123_456;
    let spans = vec![root_span(9, base, 0, 40), child_span(10, 9, 10, 25)];
    let out = map_span_with_ids(&spans, &display, 1, 2).unwrap();
    assert_eq!(out[1].start_time, ((base + 10) * 1000) as i64);
    assert_eq!(out[1].duration, 15_000);
}

#[test]
fn missing_root_fails_on_empty_sequence() {
    let spans: Vec<TraceSpan> = Vec::new();
    assert_eq!(map_span_with_ids(&spans, &display, 0, 0), Err(Error::MissingRoot));
}

#[test]
fn missing_root_fails_whatever_the_length() {
    let spans = vec![child_span(2, 1, 0, 5), child_span(3, 1, 1, 4), child_span(4, 2, 2, 3)];
    assert_eq!(map_span_with_ids(&spans, &display, 0, 0), Err(Error::MissingRoot));
    let one = vec![child_span(2, 1, 0, 5)];
    assert_eq!(map_span_with_ids(&one, &display, 0, 0), Err(Error::MissingRoot));
}

#[test]
fn elapsed_end_before_start_is_surfaced() {
    let spans = vec![root_span(1, 1000, 0, 30), child_span(2, 1, 20, 5)];
    assert_eq!(map_span_with_ids(&spans, &display, 0, 0), Err(Error::InvalidElapsed));
}

#[test]
fn random_ids_are_shared_across_the_batch() {
    let spans = vec![
        root_span(1, 1000, 0, 30),
        child_span(2, 1, 5, 20),
        child_span(3, 2, 6, 9),
    ];
    let out = map_span(&spans, &display).unwrap();
    assert_eq!(out.len(), 3);
    for s in &out {
        assert_eq!(s.trace_id_low, out[0].trace_id_low);
        assert_eq!(s.trace_id_high, out[0].trace_id_high);
    }
    assert_eq!(out[1].references[0].trace_id_low, out[0].trace_id_low);
    assert_eq!(out[2].references[0].trace_id_high, out[0].trace_id_high);
}

#[test]
fn error_messages_name_the_failure() {
    assert_eq!(Error::MissingRoot.message(), "can not get root span");
    assert_ne!(Error::InvalidElapsed.message(), Error::Oversize.message());
}
