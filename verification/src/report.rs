//! The report pipeline: translate collected spans, wrap them with the
//! process descriptor into a batch, and serialize the notification.  The
//! socket that carries the bytes lives outside the library.

use vstd::prelude::*;
use vstd::utf8::encode_utf8;

use crate::agent::{
    spec_enc_notification, try_encode_notification, EmitBatchNotification, EmitBatchNotificationV,
};
use crate::errors::Error;
use crate::jaeger::{
    spans_view, tags_view, wf_batch, wf_process, wf_span, Batch, BatchV, Process, TagV,
};
use crate::translate::{
    find_root, fits_time, map_span, mapped_span_fields, root_start_ms, translated_spans,
    translation_ok, translation_ok_some_ids, SpanLink, TraceSpan,
};
use crate::wire::{Protocol, MAX_WIRE_LEN};

verus! {

/// What the bytes of a successful report hold: a serialized notification
/// around a batch whose process carries the service name and no tags, and
/// whose spans are the translation of the input under one shared pair of
/// trace id halves.
pub open spec fn report_bytes_ok<F: Fn(u32) -> String>(
    f: F,
    service_name: Seq<char>,
    spans: Seq<TraceSpan>,
    p: Protocol,
    bytes: Seq<u8>,
) -> bool {
    exists|b: BatchV|
        {
            &&& bytes == spec_enc_notification(p, EmitBatchNotificationV { batch: b })
            &&& b.process.service_name == encode_utf8(service_name)
            &&& b.process.tags == Seq::<TagV>::empty()
            &&& wf_batch(b)
            &&& translation_ok_some_ids(f, spans, b.spans)
        }
}

/// The inputs on which a report is owed: a root-linked span exists, every
/// span's elapsed bounds are ordered, and everything that reaches the
/// wire's 31-bit length fields fits them — the service name, the span
/// count, and every operation name the display function can return.
pub open spec fn report_feasible<F: Fn(u32) -> String>(
    f: F,
    service_name: Seq<char>,
    spans: Seq<TraceSpan>,
) -> bool {
    &&& find_root(spans) is Some
    &&& forall|i: int|
        0 <= i < spans.len() ==> (#[trigger] spans[i]).elapsed_end >= spans[i].elapsed_start
    &&& encode_utf8(service_name).len() <= MAX_WIRE_LEN
    &&& spans.len() <= MAX_WIRE_LEN
    &&& forall|t: u32, s: String|
        #[trigger] call_ensures(f, (t,), s) ==> encode_utf8(s@).len() <= MAX_WIRE_LEN
}

/// Translates `spans`, wraps them in a batch under `service_name`, and
/// serializes the `emitBatch` notification under protocol `p`.  Fails with
/// the missing-root error exactly when no span is root-linked, with the
/// invalid-elapsed error exactly when a span's elapsed end lies before its
/// elapsed start, and with the oversize error only when a translated value
/// does not fit the wire's length fields; on feasible inputs it succeeds.
#[verifier::rlimit(100)]
#[verifier::spinoff_prover]
pub fn encode_report<F: Fn(u32) -> String>(
    service_name: &str,
    spans: &Vec<TraceSpan>,
    tag_display: &F,
    p: Protocol,
) -> (r: Result<Vec<u8>, Error>)
    requires
        forall|t: u32| call_requires(*tag_display, (t,)),
        find_root(spans@) matches Some(ms) ==> forall|i: int|
            0 <= i < spans@.len() ==> fits_time(ms, #[trigger] spans@[i]),
    ensures
        r == Err::<Vec<u8>, Error>(Error::MissingRoot) <==> find_root(spans@) is None,
        r == Err::<Vec<u8>, Error>(Error::InvalidElapsed) <==> (find_root(spans@) is Some
            && exists|i: int|
            0 <= i < spans@.len() && (#[trigger] spans@[i]).elapsed_end < spans@[i].elapsed_start),
        report_feasible(*tag_display, service_name@, spans@) ==> r is Ok,
        r matches Ok(bytes) ==> report_bytes_ok(*tag_display, service_name@, spans@, p, bytes@),
{
    let mapped = match map_span(spans, tag_display) {
        Ok(v) => v,
        Err(e) => {
            return Err(e);
        },
    };
    let process = Process { service_name: service_name.to_owned(), tags: Vec::new() };
    let notification = EmitBatchNotification {
        batch: Batch { process, spans: mapped },
    };
    proof {
        let b = notification.batch@;
        assert(b.process.tags =~= tags_view(Seq::<crate::jaeger::Tag>::empty()));
        assert(b.process.tags =~= Seq::<TagV>::empty());
        if report_feasible(*tag_display, service_name@, spans@) {
            let sv = spans_view(notification.batch.spans@);
            assert(translation_ok_some_ids(*tag_display, spans@, sv));
            let (lo, hi): (i64, i64) = choose|lo: i64, hi: i64|
                translation_ok(*tag_display, spans@, lo, hi, sv);
            assert(translation_ok(*tag_display, spans@, lo, hi, sv));
            let names = choose|names: Seq<String>|
                translated_spans(*tag_display, spans@, root_start_ms(spans@), lo, hi, names, sv);
            assert(translated_spans(
                *tag_display,
                spans@,
                root_start_ms(spans@),
                lo,
                hi,
                names,
                sv,
            ));
            assert(sv.len() == spans@.len());
            assert forall|i: int| 0 <= i < sv.len() implies wf_span(#[trigger] sv[i]) by {
                assert(mapped_span_fields(spans@[i], root_start_ms(spans@), lo, hi, sv[i]));
                assert(call_ensures(*tag_display, (spans@[i].tag,), names[i]));
                assert(sv[i].operation_name == encode_utf8(names[i]@));
                assert(encode_utf8(names[i]@).len() <= MAX_WIRE_LEN);
                match spans@[i].link {
                    SpanLink::Root { .. } => {
                        assert(sv[i].references.len() == 0);
                    },
                    SpanLink::Parent { .. } => {
                        assert(sv[i].references.len() == 1);
                    },
                }
                assert(sv[i].tags.len() == 0);
                assert(sv[i].logs.len() == 0);
            }
            assert(b.process.service_name == encode_utf8(service_name@));
            assert(wf_process(b.process));
            assert(wf_batch(b));
        }
    }
    match try_encode_notification(p, &notification) {
        Ok(bytes) => {
            proof {
                assert(notification.batch@.spans == spans_view(notification.batch.spans@));
                assert(report_bytes_ok(*tag_display, service_name@, spans@, p, bytes@));
            }
            Ok(bytes)
        },
        Err(e) => Err(e),
    }
}

} // verus!
