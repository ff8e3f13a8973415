//! Translation of collected generic trace spans into Jaeger spans: root
//! resolution, identifier propagation and timestamp normalization.

use vstd::prelude::*;
use vstd::utf8::encode_utf8;

use crate::errors::Error;
use crate::jaeger::{spans_view, LogV, Span, SpanRef, SpanRefKind, SpanV, TagV};

use rand::Rng;

verus! {

/// One collected trace span, as the tracing collaborator hands it over:
/// an id, a link descriptor, a numeric tag and elapsed-time bounds in
/// milliseconds.
#[derive(Debug, Clone, Copy, PartialEq, Eq, Structural)]
pub struct TraceSpan {
    pub id: u64,
    pub link: SpanLink,
    pub tag: u32,
    pub elapsed_start: u64,
    pub elapsed_end: u64,
}

/// How a span is linked into its trace: the root carries the base
/// wall-clock start time in milliseconds, every other span names its
/// parent.
#[derive(Debug, Clone, Copy, PartialEq, Eq, Structural)]
pub enum SpanLink {
    Root { start_time_ms: u64 },
    Parent { id: u64 },
}

pub open spec fn is_root(s: TraceSpan) -> bool {
    s.link matches SpanLink::Root { .. }
}

/// The base start time of the first root-linked span at or after `i`,
/// if any.
pub open spec fn find_root_from(spans: Seq<TraceSpan>, i: int) -> Option<u64>
    recommends
        0 <= i,
    decreases spans.len() - i,
{
    if i >= spans.len() {
        None
    } else {
        match spans[i].link {
            SpanLink::Root { start_time_ms } => Some(start_time_ms),
            SpanLink::Parent { .. } => find_root_from(spans, i + 1),
        }
    }
}

/// The base start time of the first root-linked span, if any.
pub open spec fn find_root(spans: Seq<TraceSpan>) -> Option<u64> {
    find_root_from(spans, 0)
}

/// The base start time, on sequences known to hold a root.
pub open spec fn root_start_ms(spans: Seq<TraceSpan>) -> u64 {
    match find_root(spans) {
        Some(ms) => ms,
        None => 0,
    }
}

/// No root at or after `i` is exactly what makes the search fail.
pub proof fn lemma_find_root_from_none(spans: Seq<TraceSpan>, i: int)
    requires
        0 <= i,
    ensures
        find_root_from(spans, i) is None <==> forall|j: int|
            i <= j < spans.len() ==> !is_root(#[trigger] spans[j]),
    decreases spans.len() - i,
{
    if 0 <= i < spans.len() {
        lemma_find_root_from_none(spans, i + 1);
    }
}

/// Translation fails with the missing-root error exactly on sequences
/// with no root-linked span, whatever their length.
pub proof fn lemma_missing_root_iff_no_root(spans: Seq<TraceSpan>)
    ensures
        find_root(spans) is None <==> forall|j: int|
            0 <= j < spans.len() ==> !is_root(#[trigger] spans[j]),
{
    lemma_find_root_from_none(spans, 0);
}

/// The machine limit on timestamps: scaling the base time plus an offset
/// to microseconds must fit a signed 64-bit integer, and so must a span's
/// scaled duration.
pub open spec fn fits_time(ms: u64, s: TraceSpan) -> bool {
    &&& (ms + s.elapsed_start) * 1000 <= 0x7FFF_FFFF_FFFF_FFFF
    &&& (s.elapsed_end - s.elapsed_start) * 1000 <= 0x7FFF_FFFF_FFFF_FFFF
}

/// What one translated span holds, apart from its operation name: the
/// shared trace id halves, the id carried over, parent and references
/// resolved from the link descriptor, the sampled flag, and both times
/// scaled from milliseconds to microseconds.
pub open spec fn mapped_span_fields(src: TraceSpan, ms: u64, lo: i64, hi: i64, dst: SpanV) -> bool {
    &&& dst.trace_id_low == lo
    &&& dst.trace_id_high == hi
    &&& dst.span_id == src.id as i64
    &&& match src.link {
        SpanLink::Root { .. } => dst.parent_span_id == 0 && dst.references == Seq::<
            SpanRef,
        >::empty(),
        SpanLink::Parent { id } => dst.parent_span_id == id as i64 && dst.references == seq![
            SpanRef {
                kind: SpanRefKind::ChildOf,
                trace_id_low: lo,
                trace_id_high: hi,
                span_id: id as i64,
            },
        ],
    }
    &&& dst.flags == 1
    &&& dst.start_time == (ms + src.elapsed_start) * 1000
    &&& dst.duration == (src.elapsed_end - src.elapsed_start) * 1000
    &&& dst.tags == Seq::<TagV>::empty()
    &&& dst.logs == Seq::<LogV>::empty()
}

/// The whole translation result: one output span per input span, in input
/// order, each with the fields above and an operation name that is the
/// display of its tag.
pub open spec fn translated_spans<F: Fn(u32) -> String>(
    f: F,
    spans: Seq<TraceSpan>,
    ms: u64,
    lo: i64,
    hi: i64,
    names: Seq<String>,
    out: Seq<SpanV>,
) -> bool {
    &&& out.len() == spans.len()
    &&& names.len() == spans.len()
    &&& forall|i: int|
        0 <= i < spans.len() ==> mapped_span_fields(spans[i], ms, lo, hi, #[trigger] out[i])
    &&& forall|i: int|
        0 <= i < spans.len() ==> call_ensures(f, (spans[i].tag,), #[trigger] names[i])
    &&& forall|i: int|
        0 <= i < spans.len() ==> (#[trigger] out[i]).operation_name == encode_utf8(names[i]@)
}

/// The translation result under given trace id halves, with the display
/// strings abstracted away.
pub open spec fn translation_ok<F: Fn(u32) -> String>(
    f: F,
    spans: Seq<TraceSpan>,
    lo: i64,
    hi: i64,
    out: Seq<SpanV>,
) -> bool {
    exists|names: Seq<String>|
        translated_spans(f, spans, root_start_ms(spans), lo, hi, names, out)
}

/// The translation result under some shared pair of trace id halves.
pub open spec fn translation_ok_some_ids<F: Fn(u32) -> String>(
    f: F,
    spans: Seq<TraceSpan>,
    out: Seq<SpanV>,
) -> bool {
    exists|lo: i64, hi: i64| translation_ok(f, spans, lo, hi, out)
}

fn find_root_rec(spans: &Vec<TraceSpan>, i: usize) -> (r: Option<u64>)
    requires
        i <= spans@.len(),
    ensures
        r == find_root_from(spans@, i as int),
    decreases spans@.len() - i,
{
    if i == spans.len() {
        None
    } else {
        match spans[i].link {
            SpanLink::Root { start_time_ms } => Some(start_time_ms),
            SpanLink::Parent { .. } => find_root_rec(spans, i + 1),
        }
    }
}

/// Translates the spans with the given trace id halves.  Fails with the
/// missing-root error exactly when no span is root-linked, and with the
/// invalid-elapsed error exactly when some span's elapsed end lies before
/// its elapsed start: such a span would put a negative duration on the
/// wire, which is caller misuse to surface, never to clamp.
#[verifier::rlimit(100)]
#[verifier::spinoff_prover]
pub fn map_span_with_ids<F: Fn(u32) -> String>(
    spans: &Vec<TraceSpan>,
    tag_display: &F,
    trace_id_low: i64,
    trace_id_high: i64,
) -> (r: Result<Vec<Span>, Error>)
    requires
        forall|t: u32| call_requires(*tag_display, (t,)),
        find_root(spans@) matches Some(ms) ==> forall|i: int|
            0 <= i < spans@.len() ==> fits_time(ms, #[trigger] spans@[i]),
    ensures
        r == Err::<Vec<Span>, Error>(Error::MissingRoot) <==> find_root(spans@) is None,
        r == Err::<Vec<Span>, Error>(Error::InvalidElapsed) <==> (find_root(spans@) is Some
            && exists|i: int|
            0 <= i < spans@.len() && (#[trigger] spans@[i]).elapsed_end < spans@[i].elapsed_start),
        r is Ok <==> (find_root(spans@) is Some && forall|i: int|
            0 <= i < spans@.len() ==> (#[trigger] spans@[i]).elapsed_end
                >= spans@[i].elapsed_start),
        r matches Ok(out) ==> translation_ok(
            *tag_display,
            spans@,
            trace_id_low,
            trace_id_high,
            spans_view(out@),
        ),
{
    let ms: u64 = match find_root_rec(spans, 0) {
        Some(ms) => ms,
        None => {
            return Err(Error::MissingRoot);
        },
    };
    let mut out: Vec<Span> = Vec::new();
    let ghost mut names: Seq<String> = Seq::empty();
    let mut i: usize = 0;
    while i < spans.len()
        invariant
            i <= spans@.len(),
            find_root(spans@) == Some(ms),
            forall|t: u32| call_requires(*tag_display, (t,)),
            forall|j: int| 0 <= j < spans@.len() ==> fits_time(ms, #[trigger] spans@[j]),
            out@.len() == i,
            forall|j: int|
                0 <= j < i ==> mapped_span_fields(
                    spans@[j],
                    ms,
                    trace_id_low,
                    trace_id_high,
                    #[trigger] spans_view(out@)[j],
                ),
            names.len() == i,
            forall|j: int|
                0 <= j < i ==> call_ensures(*tag_display, (spans@[j].tag,), #[trigger] names[j]),
            forall|j: int|
                0 <= j < i ==> (#[trigger] spans_view(out@)[j]).operation_name == encode_utf8(
                    names[j]@,
                ),
            forall|j: int|
                0 <= j < i ==> (#[trigger] spans@[j]).elapsed_end >= spans@[j].elapsed_start,
        decreases spans@.len() - i,
    {
        let s: TraceSpan = spans[i];
        if s.elapsed_end < s.elapsed_start {
            return Err(Error::InvalidElapsed);
        }
        let name: String = tag_display(s.tag);
        let mut references: Vec<SpanRef> = Vec::new();
        let parent_span_id: i64 = match s.link {
            SpanLink::Root { .. } => 0,
            SpanLink::Parent { id } => {
                let pid: i64 = #[verifier::truncate] (id as i64);
                references.push(
                    SpanRef {
                        kind: SpanRefKind::ChildOf,
                        trace_id_low,
                        trace_id_high,
                        span_id: pid,
                    },
                );
                pid
            },
        };
        let start: u64 = (ms + s.elapsed_start) * 1000;
        let duration: u64 = (s.elapsed_end - s.elapsed_start) * 1000;
        let ghost prev = out@;
        out.push(
            Span {
                trace_id_low,
                trace_id_high,
                span_id: #[verifier::truncate] (s.id as i64),
                parent_span_id,
                operation_name: name,
                references,
                flags: 1,
                start_time: start as i64,
                duration: duration as i64,
                tags: Vec::new(),
                logs: Vec::new(),
            },
        );
        proof {
            assert(spans_view(out@)[i as int] == out@[i as int]@);
            assert(out@[i as int]@.tags =~= Seq::<TagV>::empty());
            assert(out@[i as int]@.logs =~= Seq::<LogV>::empty());
            if s.link matches SpanLink::Root { .. } {
                assert(out@[i as int]@.references =~= Seq::<SpanRef>::empty());
            }
            assert(mapped_span_fields(
                spans@[i as int],
                ms,
                trace_id_low,
                trace_id_high,
                spans_view(out@)[i as int],
            ));
            assert(call_ensures(*tag_display, (spans@[i as int].tag,), name));
            assert(spans_view(out@)[i as int].operation_name == encode_utf8(name@));
            let prev_names = names;
            names = names.push(name);
            assert(names.len() == i + 1);
            assert forall|j: int| 0 <= j < i + 1 implies mapped_span_fields(
                spans@[j],
                ms,
                trace_id_low,
                trace_id_high,
                #[trigger] spans_view(out@)[j],
            ) by {
                if j < i {
                    assert(out@[j] == prev[j]);
                    assert(spans_view(out@)[j] == spans_view(prev)[j]);
                }
            }
            assert forall|j: int| 0 <= j < i + 1 implies call_ensures(
                *tag_display,
                (spans@[j].tag,),
                #[trigger] names[j],
            ) by {
                if j < i {
                    assert(names[j] == prev_names[j]);
                } else {
                    assert(names[j] == name);
                }
            }
            assert forall|j: int| 0 <= j < i + 1 implies (#[trigger] spans_view(
                out@,
            )[j]).operation_name == encode_utf8(names[j]@) by {
                if j < i {
                    assert(out@[j] == prev[j]);
                    assert(spans_view(out@)[j] == spans_view(prev)[j]);
                    assert(names[j] == prev_names[j]);
                } else {
                    assert(names[j] == name);
                }
            }
        }
        i = i + 1;
    }
    proof {
        assert(root_start_ms(spans@) == ms);
        assert(translated_spans(
            *tag_display,
            spans@,
            root_start_ms(spans@),
            trace_id_low,
            trace_id_high,
            names,
            spans_view(out@),
        ));
        assert(translation_ok(
            *tag_display,
            spans@,
            trace_id_low,
            trace_id_high,
            spans_view(out@),
        ));
    }
    Ok(out)
}

/// Every two spans out of one translation share the same trace id halves,
/// whatever the input sequence and the display function.
pub proof fn lemma_translation_shares_trace_ids<F: Fn(u32) -> String>(
    f: F,
    spans: Seq<TraceSpan>,
    ms: u64,
    lo: i64,
    hi: i64,
    names: Seq<String>,
    out: Seq<SpanV>,
)
    requires
        translated_spans(f, spans, ms, lo, hi, names, out),
    ensures
        forall|i: int, j: int|
            0 <= i < out.len() && 0 <= j < out.len() ==> (#[trigger] out[i]).trace_id_low == (
            #[trigger] out[j]).trace_id_low && out[i].trace_id_high == out[j].trace_id_high,
{
    assert forall|i: int, j: int|
        0 <= i < out.len() && 0 <= j < out.len() implies (#[trigger] out[i]).trace_id_low == (
    #[trigger] out[j]).trace_id_low && out[i].trace_id_high == out[j].trace_id_high by {
        assert(mapped_span_fields(spans[i], ms, lo, hi, out[i]));
        assert(mapped_span_fields(spans[j], ms, lo, hi, out[j]));
    }
}

/// A span translated against root base time `ms` starts at
/// `(ms + elapsed_start) * 1000` microseconds and lasts
/// `(elapsed_end - elapsed_start) * 1000` microseconds; in particular a
/// child with elapsed bounds 10 and 25 starts at `(ms + 10) * 1000` and
/// lasts 15000.
pub proof fn lemma_child_times(src: TraceSpan, ms: u64, lo: i64, hi: i64, dst: SpanV)
    requires
        mapped_span_fields(src, ms, lo, hi, dst),
        src.elapsed_start == 10,
        src.elapsed_end == 25,
    ensures
        dst.start_time == (ms + 10) * 1000,
        dst.duration == 15000,
{
}

/// A translated span with a non-zero parent id carries exactly one
/// reference, of the child-of kind, naming that parent under the shared
/// trace id halves; a root-derived span carries parent id 0 and no
/// references.
pub proof fn lemma_parent_reference(src: TraceSpan, ms: u64, lo: i64, hi: i64, dst: SpanV)
    requires
        mapped_span_fields(src, ms, lo, hi, dst),
    ensures
        dst.parent_span_id != 0 ==> dst.references.len() == 1
            && dst.references[0].kind == SpanRefKind::ChildOf
            && dst.references[0].span_id == dst.parent_span_id
            && dst.references[0].trace_id_low == dst.trace_id_low
            && dst.references[0].trace_id_high == dst.trace_id_high,
        is_root(src) ==> dst.parent_span_id == 0 && dst.references.len() == 0,
{
    match src.link {
        SpanLink::Root { .. } => {
        },
        SpanLink::Parent { id } => {
            assert(dst.references.len() == 1);
        },
    }
}

/// Relies on rand::rngs::ThreadRng via rand::thread_rng and Rng::gen:
/// draws two 64-bit values; nothing is assumed about them.  The thread-rng
/// constructor can abort only if the operating system's randomness source
/// fails at a thread's first use — an environmental failure, like
/// allocation failure, that no input can trigger.
#[verifier::external_body]
fn random_i64_pair() -> (r: (i64, i64)) {
    let mut rng = rand::thread_rng();
    (rng.gen(), rng.gen())
}

/// Translates the spans under a freshly generated pair of trace id
/// halves, shared by every span and reference of this call.
pub fn map_span<F: Fn(u32) -> String>(spans: &Vec<TraceSpan>, tag_display: &F) -> (r: Result<
    Vec<Span>,
    Error,
>)
    requires
        forall|t: u32| call_requires(*tag_display, (t,)),
        find_root(spans@) matches Some(ms) ==> forall|i: int|
            0 <= i < spans@.len() ==> fits_time(ms, #[trigger] spans@[i]),
    ensures
        r == Err::<Vec<Span>, Error>(Error::MissingRoot) <==> find_root(spans@) is None,
        r == Err::<Vec<Span>, Error>(Error::InvalidElapsed) <==> (find_root(spans@) is Some
            && exists|i: int|
            0 <= i < spans@.len() && (#[trigger] spans@[i]).elapsed_end < spans@[i].elapsed_start),
        r is Ok <==> (find_root(spans@) is Some && forall|i: int|
            0 <= i < spans@.len() ==> (#[trigger] spans@[i]).elapsed_end
                >= spans@[i].elapsed_start),
        r matches Ok(out) ==> translation_ok_some_ids(*tag_display, spans@, spans_view(out@)),
{
    let (lo, hi): (i64, i64) = random_i64_pair();
    let r = map_span_with_ids(spans, tag_display, lo, hi);
    proof {
        if r is Ok {
            let o = r->Ok_0;
            assert(translation_ok(*tag_display, spans@, lo, hi, spans_view(o@)));
            assert(translation_ok_some_ids(*tag_display, spans@, spans_view(o@)));
        }
    }
    r
}

} // verus!
