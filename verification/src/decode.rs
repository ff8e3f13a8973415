//! The decoding side of the wire contract, at the specification level: a
//! strict reader for each primitive and record, and proofs that decoding
//! inverts encoding.  The reader consumes a prefix of the byte sequence
//! and says how many bytes it took.

use vstd::prelude::*;

use crate::agent::{spec_enc_message_hdr, spec_enc_notification, EmitBatchNotificationV};
use crate::jaeger::{
    spec_enc_batch, spec_enc_log, spec_enc_log_seq, spec_enc_process, spec_enc_ref_seq,
    spec_enc_span, spec_enc_span_head, spec_enc_span_logs, spec_enc_span_mid, spec_enc_span_ref,
    spec_enc_span_refs, spec_enc_span_seq, spec_enc_span_tags, spec_enc_tag, spec_enc_tag_seq,
    wf_batch, wf_log, wf_process, wf_span, wf_tag, BatchV, LogV, ProcessV, SpanRef, SpanRefKind,
    SpanV, TagV,
};
use crate::wire::{
    lemma_add_assoc, spec_be32, spec_be64, spec_enc_bytes, spec_enc_double,
    spec_enc_i32, spec_enc_i64, spec_field_hdr, spec_le64, spec_varint, u32_of_i32, u64_of_i64,
    zigzag32, zigzag64, spec_stop, spec_list_hdr, Protocol, BK_LIST, CK_LIST, BK_STRUCT, CK_STRUCT, BK_BINARY, BK_BOOL, BK_DOUBLE, BK_I32, BK_I64, CK_BINARY,
    CK_BOOL_FALSE, CK_BOOL_TRUE, CK_DOUBLE, CK_I32, CK_I64, MAX_WIRE_LEN,
};

verus! {

// ---------------------------------------------------------------------------
// Stripping an expected prefix: the structural bytes of the wire format
// (field headers, list headers, stop bytes) are functions of what was
// already read, so the reader knows them in advance.

pub open spec fn strip(s: Seq<u8>, p: Seq<u8>) -> Option<Seq<u8>> {
    if p.is_prefix_of(s) {
        Some(s.skip(p.len() as int))
    } else {
        None
    }
}

pub proof fn lemma_strip(p: Seq<u8>, rest: Seq<u8>)
    ensures
        strip(p + rest, p) == Some(rest),
{
    assert(p.is_prefix_of(p + rest)) by {
        assert((p + rest).take(p.len() as int) =~= p);
    }
    assert((p + rest).skip(p.len() as int) =~= rest);
}

// ---------------------------------------------------------------------------
// Unsigned primitives.

pub open spec fn dec_varint(s: Seq<u8>) -> Option<(u64, int)>
    decreases s.len(),
{
    if s.len() == 0 {
        None
    } else {
        let b = s[0];
        if b < 128 {
            Some((b as u64, 1))
        } else {
            match dec_varint(s.skip(1)) {
                None => None,
                Some((v, k)) => {
                    let val = (b - 128) + 128 * (v as int);
                    if val < 0x1_0000_0000_0000_0000 {
                        Some((val as u64, k + 1))
                    } else {
                        None
                    }
                },
            }
        }
    }
}

pub proof fn lemma_varint_rt(n: u64, rest: Seq<u8>)
    ensures
        dec_varint(spec_varint(n) + rest) == Some((n, spec_varint(n).len() as int)),
    decreases n,
{
    if n < 128 {
        assert((spec_varint(n) + rest)[0] == n as u8);
    } else {
        let b = (n % 128 + 128) as u8;
        assert((spec_varint(n) + rest)[0] == b);
        assert((seq![b] + spec_varint(n / 128) + rest).skip(1) =~= spec_varint(n / 128) + rest);
        lemma_varint_rt(n / 128, rest);
        assert(n % 128 + 128 * ((n / 128) as int) == n);
    }
}

pub open spec fn dec_be32(s: Seq<u8>) -> Option<(u32, int)> {
    if s.len() < 4 {
        None
    } else {
        Some(
            (
                ((s[0] as int) * 0x100_0000 + (s[1] as int) * 0x1_0000 + (s[2] as int) * 0x100 + (
                s[3] as int)) as u32,
                4,
            ),
        )
    }
}

pub proof fn lemma_be32_rt(n: u32, rest: Seq<u8>)
    ensures
        dec_be32(spec_be32(n) + rest) == Some((n, 4int)),
{
    let s = spec_be32(n) + rest;
    assert(s[0] == (n / 0x100_0000) as u8);
    assert(s[1] == (n / 0x1_0000 % 0x100) as u8);
    assert(s[2] == (n / 0x100 % 0x100) as u8);
    assert(s[3] == (n % 0x100) as u8);
    assert((n / 0x100_0000) * 0x100_0000 + (n / 0x1_0000 % 0x100) * 0x1_0000 + (n / 0x100 % 0x100)
        * 0x100 + n % 0x100 == n) by (bit_vector);
}

pub open spec fn dec_be64(s: Seq<u8>) -> Option<(u64, int)> {
    match dec_be32(s) {
        None => None,
        Some((hi, _)) => match dec_be32(s.skip(4)) {
            None => None,
            Some((lo, _)) => Some(((hi as int * 0x1_0000_0000 + lo as int) as u64, 8)),
        },
    }
}

pub proof fn lemma_be64_rt(n: u64, rest: Seq<u8>)
    ensures
        dec_be64(spec_be64(n) + rest) == Some((n, 8int)),
{
    let hi = (n / 0x1_0000_0000) as u32;
    let lo = (n % 0x1_0000_0000) as u32;
    lemma_add_assoc(spec_be32(hi), spec_be32(lo), rest);
    lemma_be32_rt(hi, spec_be32(lo) + rest);
    assert((spec_be32(hi) + (spec_be32(lo) + rest)).skip(4) =~= spec_be32(lo) + rest);
    lemma_be32_rt(lo, rest);
    assert(hi as int * 0x1_0000_0000 + lo as int == n);
}

pub open spec fn dec_le64(s: Seq<u8>) -> Option<(u64, int)> {
    if s.len() < 8 {
        None
    } else {
        Some(
            (
                ((s[0] as int) + (s[1] as int) * 0x100 + (s[2] as int) * 0x1_0000 + (s[3] as int)
                    * 0x100_0000 + (s[4] as int) * 0x1_0000_0000 + (s[5] as int) * 0x100_0000_0000
                    + (s[6] as int) * 0x1_0000_0000_0000 + (s[7] as int)
                    * 0x100_0000_0000_0000) as u64,
                8,
            ),
        )
    }
}

pub proof fn lemma_le64_rt(n: u64, rest: Seq<u8>)
    ensures
        dec_le64(spec_le64(n) + rest) == Some((n, 8int)),
{
    let s = spec_le64(n) + rest;
    assert(s[0] == (n % 0x100) as u8);
    assert(s[1] == (n / 0x100 % 0x100) as u8);
    assert(s[2] == (n / 0x1_0000 % 0x100) as u8);
    assert(s[3] == (n / 0x100_0000 % 0x100) as u8);
    assert(s[4] == (n / 0x1_0000_0000 % 0x100) as u8);
    assert(s[5] == (n / 0x100_0000_0000 % 0x100) as u8);
    assert(s[6] == (n / 0x1_0000_0000_0000 % 0x100) as u8);
    assert(s[7] == (n / 0x100_0000_0000_0000) as u8);
    assert(n % 0x100 + (n / 0x100 % 0x100) * 0x100 + (n / 0x1_0000 % 0x100) * 0x1_0000 + (n
        / 0x100_0000 % 0x100) * 0x100_0000 + (n / 0x1_0000_0000 % 0x100) * 0x1_0000_0000 + (n
        / 0x100_0000_0000 % 0x100) * 0x100_0000_0000 + (n / 0x1_0000_0000_0000 % 0x100)
        * 0x1_0000_0000_0000 + (n / 0x100_0000_0000_0000) * 0x100_0000_0000_0000 == n)
        by (bit_vector);
}

// ---------------------------------------------------------------------------
// Signed primitives and byte strings.

pub open spec fn unzigzag32(u: u32) -> i32 {
    if u % 2 == 0 {
        (u / 2) as i32
    } else {
        (-((u / 2) as int) - 1) as i32
    }
}

pub open spec fn unzigzag64(u: u64) -> i64 {
    if u % 2 == 0 {
        (u / 2) as i64
    } else {
        (-((u / 2) as int) - 1) as i64
    }
}

pub open spec fn i32_of_u32(u: u32) -> i32 {
    if u < 0x8000_0000 {
        u as i32
    } else {
        (u - 0x1_0000_0000) as i32
    }
}

pub open spec fn i64_of_u64(u: u64) -> i64 {
    if u < 0x8000_0000_0000_0000 {
        u as i64
    } else {
        (u - 0x1_0000_0000_0000_0000) as i64
    }
}

pub open spec fn dec_i32(p: Protocol, s: Seq<u8>) -> Option<(i32, int)> {
    match p {
        Protocol::Compact => match dec_varint(s) {
            None => None,
            Some((u, k)) => if u <= 0xFFFF_FFFF {
                Some((unzigzag32(u as u32), k))
            } else {
                None
            },
        },
        Protocol::Binary => match dec_be32(s) {
            None => None,
            Some((u, k)) => Some((i32_of_u32(u), k)),
        },
    }
}

pub open spec fn dec_i64(p: Protocol, s: Seq<u8>) -> Option<(i64, int)> {
    match p {
        Protocol::Compact => match dec_varint(s) {
            None => None,
            Some((u, k)) => Some((unzigzag64(u), k)),
        },
        Protocol::Binary => match dec_be64(s) {
            None => None,
            Some((u, k)) => Some((i64_of_u64(u), k)),
        },
    }
}

pub open spec fn dec_double(p: Protocol, s: Seq<u8>) -> Option<(u64, int)> {
    match p {
        Protocol::Compact => dec_le64(s),
        Protocol::Binary => dec_be64(s),
    }
}

pub proof fn lemma_i32_rt(p: Protocol, n: i32, rest: Seq<u8>)
    ensures
        dec_i32(p, spec_enc_i32(p, n) + rest) == Some((n, spec_enc_i32(p, n).len() as int)),
{
    match p {
        Protocol::Compact => {
            lemma_varint_rt(zigzag32(n) as u64, rest);
        },
        Protocol::Binary => {
            lemma_be32_rt(u32_of_i32(n), rest);
        },
    }
}

pub proof fn lemma_i64_rt(p: Protocol, n: i64, rest: Seq<u8>)
    ensures
        dec_i64(p, spec_enc_i64(p, n) + rest) == Some((n, spec_enc_i64(p, n).len() as int)),
{
    match p {
        Protocol::Compact => {
            lemma_varint_rt(zigzag64(n), rest);
        },
        Protocol::Binary => {
            lemma_be64_rt(u64_of_i64(n), rest);
        },
    }
}

#[verifier::rlimit(50)]
#[verifier::spinoff_prover]
pub proof fn lemma_double_rt(p: Protocol, bits: u64, rest: Seq<u8>)
    ensures
        dec_double(p, spec_enc_double(p, bits) + rest) == Some(
            (bits, spec_enc_double(p, bits).len() as int),
        ),
{
    match p {
        Protocol::Compact => {
            lemma_le64_rt(bits, rest);
        },
        Protocol::Binary => {
            lemma_be64_rt(bits, rest);
        },
    }
}

/// A length-prefixed byte string.
pub open spec fn dec_bytes(p: Protocol, s: Seq<u8>) -> Option<(Seq<u8>, int)> {
    let header = match p {
        Protocol::Compact => match dec_varint(s) {
            None => None,
            Some((u, k)) => Some((u as int, k)),
        },
        Protocol::Binary => match dec_be32(s) {
            None => None,
            Some((u, k)) => Some((u as int, k)),
        },
    };
    match header {
        None => None,
        Some((len, k)) => if len <= MAX_WIRE_LEN && s.skip(k).len() >= len {
            Some((s.skip(k).take(len), k + len))
        } else {
            None
        },
    }
}

pub proof fn lemma_bytes_rt(p: Protocol, b: Seq<u8>, rest: Seq<u8>)
    requires
        b.len() <= MAX_WIRE_LEN,
    ensures
        dec_bytes(p, spec_enc_bytes(p, b) + rest) == Some(
            (b, spec_enc_bytes(p, b).len() as int),
        ),
{
    let hdr = match p {
        Protocol::Compact => spec_varint(b.len() as u64),
        Protocol::Binary => spec_be32(b.len() as u32),
    };
    lemma_add_assoc(hdr, b, rest);
    let s = hdr + (b + rest);
    match p {
        Protocol::Compact => {
            lemma_varint_rt(b.len() as u64, b + rest);
        },
        Protocol::Binary => {
            lemma_be32_rt(b.len() as u32, b + rest);
        },
    }
    assert(s.skip(hdr.len() as int) =~= b + rest);
    assert((b + rest).take(b.len() as int) =~= b);
}

// ---------------------------------------------------------------------------
// Records.  A record reader strips each field header it expects (the
// headers are functions of the fixed field table), reads the payloads,
// and checks the stop byte.

pub proof fn lemma_skip_concat<A>(a: Seq<A>, b: Seq<A>)
    ensures
        (a + b).skip(a.len() as int) == b,
{
    assert((a + b).skip(a.len() as int) =~= b);
}

/// A span reference: 1 kind, 2 trace_id_low, 3 trace_id_high, 4 span_id,
/// stop.
#[verifier::opaque]
pub open spec fn dec_span_ref(p: Protocol, s: Seq<u8>) -> Option<(SpanRef, int)> {
    match strip(s, spec_field_hdr(p, 0, 1, CK_I32, BK_I32)) {
        None => None,
        Some(s1) => match dec_i32(p, s1) {
            None => None,
            Some((kv, k1)) => {
                let kind = if kv == 0 {
                    Some(SpanRefKind::ChildOf)
                } else if kv == 1 {
                    Some(SpanRefKind::FollowsFrom)
                } else {
                    None
                };
                match kind {
                    None => None,
                    Some(kind) => match strip(s1.skip(k1), spec_field_hdr(p, 1, 2, CK_I64, BK_I64)) {
                        None => None,
                        Some(s2) => match dec_i64(p, s2) {
                            None => None,
                            Some((lo, k2)) => match strip(
                                s2.skip(k2),
                                spec_field_hdr(p, 2, 3, CK_I64, BK_I64),
                            ) {
                                None => None,
                                Some(s3) => match dec_i64(p, s3) {
                                    None => None,
                                    Some((hi, k3)) => match strip(
                                        s3.skip(k3),
                                        spec_field_hdr(p, 3, 4, CK_I64, BK_I64),
                                    ) {
                                        None => None,
                                        Some(s4) => match dec_i64(p, s4) {
                                            None => None,
                                            Some((id, k4)) => match strip(s4.skip(k4), spec_stop()) {
                                                None => None,
                                                Some(_) => Some(
                                                    (
                                                        SpanRef {
                                                            kind,
                                                            trace_id_low: lo,
                                                            trace_id_high: hi,
                                                            span_id: id,
                                                        },
                                                        s.len() - s4.len() + k4 + 1,
                                                    ),
                                                ),
                                            },
                                        },
                                    },
                                },
                            },
                        },
                    },
                }
            },
        },
    }
}

/// Right-nesting a left-nested chain of chunks around its tail, stated
/// over abstract sequences so that no chunk is unfolded.
pub proof fn lemma_nest9<A>(
    a: Seq<A>,
    b: Seq<A>,
    c: Seq<A>,
    d: Seq<A>,
    e: Seq<A>,
    f: Seq<A>,
    g: Seq<A>,
    h: Seq<A>,
    i: Seq<A>,
    rest: Seq<A>,
)
    ensures
        ((((((((a + b) + c) + d) + e) + f) + g) + h) + i) + rest == a + (b + (c + (d + (e + (f + (
        g + (h + (i + rest)))))))),
{
    assert(((((((((a + b) + c) + d) + e) + f) + g) + h) + i) + rest =~= a + (b + (c + (d + (e + (f
        + (g + (h + (i + rest)))))))));
}

/// Decoding inverts encoding on span references: the reader returns the
/// record that was written and consumes exactly its bytes.
#[verifier::rlimit(100)]
#[verifier::spinoff_prover]
pub proof fn lemma_span_ref_rt(p: Protocol, r: SpanRef, rest: Seq<u8>)
    ensures
        dec_span_ref(p, spec_enc_span_ref(p, r) + rest) == Some(
            (r, spec_enc_span_ref(p, r).len() as int),
        ),
{
    reveal(dec_span_ref);
    let h1 = spec_field_hdr(p, 0, 1, CK_I32, BK_I32);
    let e1 = spec_enc_i32(p, r.kind.spec_value());
    let h2 = spec_field_hdr(p, 1, 2, CK_I64, BK_I64);
    let e2 = spec_enc_i64(p, r.trace_id_low);
    let h3 = spec_field_hdr(p, 2, 3, CK_I64, BK_I64);
    let e3 = spec_enc_i64(p, r.trace_id_high);
    let h4 = spec_field_hdr(p, 3, 4, CK_I64, BK_I64);
    let e4 = spec_enc_i64(p, r.span_id);
    let r8 = spec_stop() + rest;
    let r7 = e4 + r8;
    let r6 = h4 + r7;
    let r5 = e3 + r6;
    let r4 = h3 + r5;
    let r3 = e2 + r4;
    let r2 = h2 + r3;
    let r1 = e1 + r2;
    let s = spec_enc_span_ref(p, r) + rest;
    lemma_nest9(h1, e1, h2, e2, h3, e3, h4, e4, spec_stop(), rest);
    assert(s == h1 + r1);
    lemma_strip(h1, r1);
    lemma_i32_rt(p, r.kind.spec_value(), r2);
    lemma_skip_concat(e1, r2);
    lemma_strip(h2, r3);
    lemma_i64_rt(p, r.trace_id_low, r4);
    lemma_skip_concat(e2, r4);
    lemma_strip(h3, r5);
    lemma_i64_rt(p, r.trace_id_high, r6);
    lemma_skip_concat(e3, r6);
    lemma_strip(h4, r7);
    lemma_i64_rt(p, r.span_id, r8);
    lemma_skip_concat(e4, r8);
    lemma_strip(spec_stop(), rest);
}

/// The payload of a bool tag field: the compact protocol carries the value
/// in the header's kind code, the binary protocol in one payload byte.
pub open spec fn dec_bool_field(p: Protocol, s: Seq<u8>) -> Option<(bool, int)> {
    match p {
        Protocol::Compact => if strip(s, spec_field_hdr(p, 2, 5, CK_BOOL_TRUE, BK_BOOL)) is Some {
            Some((true, 1))
        } else if strip(s, spec_field_hdr(p, 2, 5, CK_BOOL_FALSE, BK_BOOL)) is Some {
            Some((false, 1))
        } else {
            None
        },
        Protocol::Binary => match strip(s, spec_field_hdr(p, 2, 5, CK_BOOL_TRUE, BK_BOOL)) {
            None => None,
            Some(s1) => if s1.len() >= 1 && s1[0] == 1 {
                Some((true, 4))
            } else if s1.len() >= 1 && s1[0] == 0 {
                Some((false, 4))
            } else {
                None
            },
        },
    }
}

/// The payload field of a tag, selected by the discriminant already read.
#[verifier::opaque]
pub open spec fn dec_tag_payload(p: Protocol, disc: i32, key: Seq<u8>, s3: Seq<u8>) -> Option<
    (TagV, int),
> {
    if disc == 0 {
        match strip(s3, spec_field_hdr(p, 2, 3, CK_BINARY, BK_BINARY)) {
            None => None,
            Some(s4) => match dec_bytes(p, s4) {
                None => None,
                Some((v, k3)) => Some(
                    (
                        TagV::String { key, value: v },
                        spec_field_hdr(p, 2, 3, CK_BINARY, BK_BINARY).len()
                            + k3,
                    ),
                ),
            },
        }
    } else if disc == 1 {
        match strip(s3, spec_field_hdr(p, 2, 4, CK_DOUBLE, BK_DOUBLE)) {
            None => None,
            Some(s4) => match dec_double(p, s4) {
                None => None,
                Some((v, k3)) => Some(
                    (
                        TagV::Double { key, value: v },
                        spec_field_hdr(p, 2, 4, CK_DOUBLE, BK_DOUBLE).len()
                            + k3,
                    ),
                ),
            },
        }
    } else if disc == 2 {
        match dec_bool_field(p, s3) {
            None => None,
            Some((v, k3)) => Some((TagV::Bool { key, value: v }, k3)),
        }
    } else if disc == 3 {
        match strip(s3, spec_field_hdr(p, 2, 6, CK_I64, BK_I64)) {
            None => None,
            Some(s4) => match dec_i64(p, s4) {
                None => None,
                Some((v, k3)) => Some(
                    (
                        TagV::Long { key, value: v },
                        spec_field_hdr(p, 2, 6, CK_I64, BK_I64).len() + k3,
                    ),
                ),
            },
        }
    } else if disc == 4 {
        match strip(s3, spec_field_hdr(p, 2, 7, CK_BINARY, BK_BINARY)) {
            None => None,
            Some(s4) => match dec_bytes(p, s4) {
                None => None,
                Some((v, k3)) => Some(
                    (
                        TagV::Binary { key, value: v },
                        spec_field_hdr(p, 2, 7, CK_BINARY, BK_BINARY).len()
                            + k3,
                    ),
                ),
            },
        }
    } else {
        None
    }
}

/// A tag: 1 key, 2 discriminant, then the payload field the discriminant
/// selects, stop.
#[verifier::opaque]
pub open spec fn dec_tag(p: Protocol, s: Seq<u8>) -> Option<(TagV, int)> {
    match strip(s, spec_field_hdr(p, 0, 1, CK_BINARY, BK_BINARY)) {
        None => None,
        Some(s1) => match dec_bytes(p, s1) {
            None => None,
            Some((key, k1)) => match strip(s1.skip(k1), spec_field_hdr(p, 1, 2, CK_I32, BK_I32)) {
                None => None,
                Some(s2) => match dec_i32(p, s2) {
                    None => None,
                    Some((disc, k2)) => {
                        let s3 = s2.skip(k2);
                        let payload = dec_tag_payload(p, disc, key, s3);
                        match payload {
                            None => None,
                            Some((t, k3)) => match strip(s3.skip(k3), spec_stop()) {
                                None => None,
                                Some(_) => Some((t, (s.len() - s3.len()) + k3 + 1)),
                            },
                        }
                    },
                },
            },
        },
    }
}

/// The shape of an encoded tag around its tail, over abstract chunks.
pub proof fn lemma_tag_shape<A>(
    hk: Seq<A>,
    ek: Seq<A>,
    hd: Seq<A>,
    ed: Seq<A>,
    hp: Seq<A>,
    ep: Seq<A>,
    st: Seq<A>,
    rest: Seq<A>,
)
    ensures
        ((((((hk + ek) + hd) + ed) + (hp + ep)) + st) + rest) == hk + (ek + (hd + (ed + (hp + (ep
            + (st + rest)))))),
{
    assert(((((((hk + ek) + hd) + ed) + (hp + ep)) + st) + rest) =~= hk + (ek + (hd + (ed + (hp + (
    ep + (st + rest)))))));
}

/// The header chunk of a tag's payload field.
pub open spec fn tag_payload_hdr(p: Protocol, t: TagV) -> Seq<u8> {
    match t {
        TagV::String { .. } => spec_field_hdr(p, 2, 3, CK_BINARY, BK_BINARY),
        TagV::Double { .. } => spec_field_hdr(p, 2, 4, CK_DOUBLE, BK_DOUBLE),
        TagV::Bool { value, .. } => spec_field_hdr(
            p,
            2,
            5,
            if value {
                CK_BOOL_TRUE
            } else {
                CK_BOOL_FALSE
            },
            BK_BOOL,
        ),
        TagV::Long { .. } => spec_field_hdr(p, 2, 6, CK_I64, BK_I64),
        TagV::Binary { .. } => spec_field_hdr(p, 2, 7, CK_BINARY, BK_BINARY),
    }
}

/// The payload bytes of a tag's payload field.
pub open spec fn tag_payload_bytes(p: Protocol, t: TagV) -> Seq<u8> {
    match t {
        TagV::String { value, .. } => spec_enc_bytes(p, value),
        TagV::Double { value, .. } => spec_enc_double(p, value),
        TagV::Bool { value, .. } => match p {
            Protocol::Compact => Seq::<u8>::empty(),
            Protocol::Binary => seq![
                if value {
                    1u8
                } else {
                    0u8
                },
            ],
        },
        TagV::Long { value, .. } => spec_enc_i64(p, value),
        TagV::Binary { value, .. } => spec_enc_bytes(p, value),
    }
}

/// Reading the payload of an encoded tag gives back the tag itself and
/// consumes exactly the payload field's bytes.
#[verifier::rlimit(100)]
#[verifier::spinoff_prover]
pub proof fn lemma_tag_payload_rt(p: Protocol, t: TagV, tail: Seq<u8>)
    requires
        wf_tag(t),
    ensures
        dec_tag_payload(
            p,
            t.kind().spec_value(),
            t.key(),
            tag_payload_hdr(p, t) + (tag_payload_bytes(p, t) + tail),
        ) == Some(
            (t, tag_payload_hdr(p, t).len() + tag_payload_bytes(p, t).len() as int),
        ),
{
    reveal(dec_tag_payload);
    let hp = tag_payload_hdr(p, t);
    let ep = tag_payload_bytes(p, t);
    let r5 = ep + tail;
    let r4 = hp + r5;
    match t {
        TagV::String { value, .. } => {
            lemma_strip(hp, r5);
            lemma_bytes_rt(p, value, tail);
        },
        TagV::Double { value, .. } => {
            lemma_strip(hp, r5);
            lemma_double_rt(p, value, tail);
        },
        TagV::Bool { value, .. } => {
            lemma_strip(hp, r5);
            match p {
                Protocol::Compact => {
                    if !value {
                        let ht = spec_field_hdr(p, 2, 5, CK_BOOL_TRUE, BK_BOOL);
                        assert(ht[0] == 49 && r4[0] == 50);
                        assert(strip(r4, ht) is None) by {
                            assert(!ht.is_prefix_of(r4)) by {
                                assert(r4.take(1) != ht) by {
                                    assert(r4.take(1)[0] == 50);
                                }
                            }
                        }
                    }
                },
                Protocol::Binary => {
                    assert(r5[0] == (if value {
                        1u8
                    } else {
                        0u8
                    }));
                },
            }
        },
        TagV::Long { value, .. } => {
            lemma_strip(hp, r5);
            lemma_i64_rt(p, value, tail);
        },
        TagV::Binary { value, .. } => {
            lemma_strip(hp, r5);
            lemma_bytes_rt(p, value, tail);
        },
    }
}

/// Decoding inverts encoding on tags: the reader returns the tag that was
/// written, with its one payload field, and consumes exactly its bytes.
#[verifier::rlimit(100)]
#[verifier::spinoff_prover]
pub proof fn lemma_tag_rt(p: Protocol, t: TagV, rest: Seq<u8>)
    requires
        wf_tag(t),
    ensures
        dec_tag(p, spec_enc_tag(p, t) + rest) == Some((t, spec_enc_tag(p, t).len() as int)),
{
    reveal(dec_tag);
    let hk = spec_field_hdr(p, 0, 1, CK_BINARY, BK_BINARY);
    let ek = spec_enc_bytes(p, t.key());
    let hd = spec_field_hdr(p, 1, 2, CK_I32, BK_I32);
    let ed = spec_enc_i32(p, t.kind().spec_value());
    let hp = tag_payload_hdr(p, t);
    let ep = tag_payload_bytes(p, t);
    let r6 = spec_stop() + rest;
    let r5 = ep + r6;
    let r4 = hp + r5;
    let r3 = ed + r4;
    let r2 = hd + r3;
    let r1 = ek + r2;
    let s = spec_enc_tag(p, t) + rest;
    lemma_tag_shape(hk, ek, hd, ed, hp, ep, spec_stop(), rest);
    assert(s == hk + r1);
    lemma_strip(hk, r1);
    assert(strip(s, hk) == Some(r1));
    lemma_bytes_rt(p, t.key(), r2);
    assert(dec_bytes(p, r1) == Some((t.key(), ek.len() as int)));
    lemma_skip_concat(ek, r2);
    assert(r1.skip(ek.len() as int) == r2);
    lemma_strip(hd, r3);
    assert(strip(r2, hd) == Some(r3));
    lemma_i32_rt(p, t.kind().spec_value(), r4);
    assert(dec_i32(p, r3) == Some((t.kind().spec_value(), ed.len() as int)));
    lemma_skip_concat(ed, r4);
    assert(r3.skip(ed.len() as int) == r4);
    lemma_tag_payload_rt(p, t, r6);
    assert(dec_tag_payload(p, t.kind().spec_value(), t.key(), r4) == Some(
        (t, hp.len() + ep.len() as int),
    ));
    lemma_add_assoc(hp, ep, r6);
    lemma_skip_concat(hp + ep, r6);
    assert(r4.skip(hp.len() + ep.len() as int) == r6);
    lemma_strip(spec_stop(), rest);
    assert(strip(r6, spec_stop()) == Some(rest));
}

// ---------------------------------------------------------------------------
// Lists of records and the process record, whose empty tag list is left
// off the wire.

/// The header of a list of structs, giving the element count.
pub open spec fn dec_list_hdr(p: Protocol, s: Seq<u8>) -> Option<(nat, int)> {
    match p {
        Protocol::Compact => if s.len() >= 1 && s[0] % 16 == CK_STRUCT as int {
            let size = s[0] / 16;
            if size < 15 {
                Some((size as nat, 1))
            } else {
                match dec_varint(s.skip(1)) {
                    None => None,
                    Some((n, k)) => if 15 <= n <= MAX_WIRE_LEN {
                        Some((n as nat, k + 1))
                    } else {
                        None
                    },
                }
            }
        } else {
            None
        },
        Protocol::Binary => if s.len() >= 1 && s[0] == BK_STRUCT {
            match dec_be32(s.skip(1)) {
                None => None,
                Some((n, k)) => if n <= MAX_WIRE_LEN as u32 {
                    Some((n as nat, k + 1))
                } else {
                    None
                },
            }
        } else {
            None
        },
    }
}

pub proof fn lemma_list_hdr_rt(p: Protocol, n: nat, rest: Seq<u8>)
    requires
        n <= MAX_WIRE_LEN,
    ensures
        dec_list_hdr(p, spec_list_hdr(p, n) + rest) == Some(
            (n, spec_list_hdr(p, n).len() as int),
        ),
{
    let s = spec_list_hdr(p, n) + rest;
    match p {
        Protocol::Compact => {
            if n < 15 {
                assert(s[0] == (16 * n + CK_STRUCT) as u8);
                assert((16 * n + 12) % 16 == 12 && (16 * n + 12) / 16 == n) by (nonlinear_arith);
            } else {
                assert(s[0] == 0xFCu8);
                assert((seq![0xFCu8] + spec_varint(n as u64) + rest).skip(1) =~= spec_varint(
                    n as u64,
                ) + rest);
                lemma_varint_rt(n as u64, rest);
            }
        },
        Protocol::Binary => {
            assert(s[0] == BK_STRUCT);
            assert((seq![BK_STRUCT] + spec_be32(n as u32) + rest).skip(1) =~= spec_be32(n as u32)
                + rest);
            lemma_be32_rt(n as u32, rest);
        },
    }
}

/// `n` tags, one after the other.
pub open spec fn dec_tag_seq(p: Protocol, s: Seq<u8>, n: nat) -> Option<(Seq<TagV>, int)>
    decreases n,
{
    if n == 0 {
        Some((Seq::empty(), 0))
    } else {
        match dec_tag(p, s) {
            None => None,
            Some((t, k)) => match dec_tag_seq(p, s.skip(k), (n - 1) as nat) {
                None => None,
                Some((ts, m)) => Some((seq![t] + ts, k + m)),
            },
        }
    }
}

pub proof fn lemma_tag_seq_rt(p: Protocol, ts: Seq<TagV>, rest: Seq<u8>)
    requires
        forall|i: int| 0 <= i < ts.len() ==> wf_tag(#[trigger] ts[i]),
    ensures
        dec_tag_seq(p, spec_enc_tag_seq(p, ts) + rest, ts.len()) == Some(
            (ts, spec_enc_tag_seq(p, ts).len() as int),
        ),
    decreases ts.len(),
{
    if ts.len() == 0 {
        assert(spec_enc_tag_seq(p, ts) + rest =~= rest);
        assert(dec_tag_seq(p, rest, 0) == Some((Seq::<TagV>::empty(), 0int)));
        assert(ts =~= Seq::<TagV>::empty());
    } else {
        let e0 = spec_enc_tag(p, ts[0]);
        let etail = spec_enc_tag_seq(p, ts.skip(1));
        assert(spec_enc_tag_seq(p, ts) == e0 + etail);
        lemma_add_assoc(e0, etail, rest);
        let s = spec_enc_tag_seq(p, ts) + rest;
        assert(s == e0 + (etail + rest));
        lemma_tag_rt(p, ts[0], etail + rest);
        lemma_skip_concat(e0, etail + rest);
        assert(forall|i: int| 0 <= i < ts.skip(1).len() ==> wf_tag(#[trigger] ts.skip(1)[i]));
        lemma_tag_seq_rt(p, ts.skip(1), rest);
        assert(seq![ts[0]] + ts.skip(1) =~= ts);
    }
}

/// A process: 1 service_name, then its tag list only when one was
/// written, stop.
#[verifier::opaque]
pub open spec fn dec_process(p: Protocol, s: Seq<u8>) -> Option<(ProcessV, int)> {
    match strip(s, spec_field_hdr(p, 0, 1, CK_BINARY, BK_BINARY)) {
        None => None,
        Some(s1) => match dec_bytes(p, s1) {
            None => None,
            Some((name, k1)) => {
                let s2 = s1.skip(k1);
                match strip(s2, spec_field_hdr(p, 1, 2, CK_LIST, BK_LIST)) {
                    Some(s3) => match dec_list_hdr(p, s3) {
                        None => None,
                        Some((n, k2)) => match dec_tag_seq(p, s3.skip(k2), n) {
                            None => None,
                            Some((tags, k3)) => match strip(s3.skip(k2 + k3), spec_stop()) {
                                None => None,
                                Some(_) => Some(
                                    (
                                        ProcessV { service_name: name, tags },
                                        (s.len() - s3.len()) + k2 + k3 + 1,
                                    ),
                                ),
                            },
                        },
                    },
                    None => match strip(s2, spec_stop()) {
                        None => None,
                        Some(_) => Some(
                            (
                                ProcessV { service_name: name, tags: Seq::empty() },
                                (s.len() - s2.len()) + 1,
                            ),
                        ),
                    },
                }
            },
        },
    }
}

/// Right-nesting small abstract chains.
pub proof fn lemma_nest4<A>(a: Seq<A>, b: Seq<A>, c: Seq<A>, d: Seq<A>, rest: Seq<A>)
    ensures
        (((a + b) + c) + d) + rest == a + (b + (c + (d + rest))),
{
    assert((((a + b) + c) + d) + rest =~= a + (b + (c + (d + rest))));
}

/// The shape of an encoded process with a tag list, over abstract chunks.
pub proof fn lemma_process_shape<A>(
    h1: Seq<A>,
    e1: Seq<A>,
    h2: Seq<A>,
    lh: Seq<A>,
    es: Seq<A>,
    st: Seq<A>,
    rest: Seq<A>,
)
    ensures
        (((h1 + e1 + (h2 + lh + es)) + st) + rest) == h1 + (e1 + (h2 + (lh + (es + (st
            + rest))))),
{
    assert((((h1 + e1 + (h2 + lh + es)) + st) + rest) =~= h1 + (e1 + (h2 + (lh + (es + (st
        + rest))))));
}

/// Decoding inverts encoding on processes, including the omission of an
/// empty tag list: what comes back is exactly what was written.
#[verifier::rlimit(100)]
#[verifier::spinoff_prover]
pub proof fn lemma_process_rt(p: Protocol, pr: ProcessV, rest: Seq<u8>)
    requires
        wf_process(pr),
    ensures
        dec_process(p, spec_enc_process(p, pr) + rest) == Some(
            (pr, spec_enc_process(p, pr).len() as int),
        ),
{
    reveal(dec_process);
    let h1 = spec_field_hdr(p, 0, 1, CK_BINARY, BK_BINARY);
    let e1 = spec_enc_bytes(p, pr.service_name);
    let s = spec_enc_process(p, pr) + rest;
    if pr.tags.len() > 0 {
        let h2 = spec_field_hdr(p, 1, 2, CK_LIST, BK_LIST);
        let lh = spec_list_hdr(p, pr.tags.len());
        let es = spec_enc_tag_seq(p, pr.tags);
        let r5 = spec_stop() + rest;
        let r4 = es + r5;
        let r3 = lh + r4;
        let r2 = h2 + r3;
        let r1 = e1 + r2;
        assert(spec_enc_process(p, pr) == (h1 + e1 + (h2 + lh + es)) + spec_stop());
        lemma_process_shape(h1, e1, h2, lh, es, spec_stop(), rest);
        assert(s == h1 + r1);
        lemma_strip(h1, r1);
        lemma_bytes_rt(p, pr.service_name, r2);
        lemma_skip_concat(e1, r2);
        lemma_strip(h2, r3);
        lemma_list_hdr_rt(p, pr.tags.len(), r4);
        lemma_skip_concat(lh, r4);
        lemma_tag_seq_rt(p, pr.tags, r5);
        lemma_skip_concat(es, r5);
        lemma_strip(spec_stop(), rest);
    } else {
        let r2 = spec_stop() + rest;
        let r1 = e1 + r2;
        assert(spec_enc_process(p, pr) == (h1 + e1 + Seq::<u8>::empty()) + spec_stop());
        lemma_nest4(h1, e1, Seq::<u8>::empty(), spec_stop(), rest);
        assert(Seq::<u8>::empty() + (spec_stop() + rest) =~= spec_stop() + rest);
        assert(s == h1 + r1);
        lemma_strip(h1, r1);
        lemma_bytes_rt(p, pr.service_name, r2);
        lemma_skip_concat(e1, r2);
        let h2 = spec_field_hdr(p, 1, 2, CK_LIST, BK_LIST);
        assert(strip(r2, h2) is None) by {
            assert(r2[0] == 0u8);
            match p {
                Protocol::Compact => {
                    assert(h2[0] == 25u8);
                },
                Protocol::Binary => {
                    assert(h2[0] == BK_LIST);
                },
            }
            assert(!h2.is_prefix_of(r2)) by {
                if h2.is_prefix_of(r2) {
                    assert(r2.take(h2.len() as int)[0] == h2[0]);
                }
            }
        }
        lemma_strip(spec_stop(), rest);
        assert(pr.tags =~= Seq::<TagV>::empty());
    }
}

// ---------------------------------------------------------------------------
// Log records and sequences of references and logs.

pub proof fn lemma_nest6<A>(a: Seq<A>, b: Seq<A>, c: Seq<A>, d: Seq<A>, e: Seq<A>, f: Seq<A>, rest: Seq<A>)
    ensures
        (((((a + b) + c) + d) + e) + f) + rest == a + (b + (c + (d + (e + (f + rest))))),
{
    assert((((((a + b) + c) + d) + e) + f) + rest =~= a + (b + (c + (d + (e + (f + rest))))));
}

/// A log: 1 timestamp, 2 fields (always present), stop.
#[verifier::opaque]
pub open spec fn dec_log(p: Protocol, s: Seq<u8>) -> Option<(LogV, int)> {
    match strip(s, spec_field_hdr(p, 0, 1, CK_I64, BK_I64)) {
        None => None,
        Some(s1) => match dec_i64(p, s1) {
            None => None,
            Some((ts, k1)) => match strip(s1.skip(k1), spec_field_hdr(p, 1, 2, CK_LIST, BK_LIST)) {
                None => None,
                Some(s2) => match dec_list_hdr(p, s2) {
                    None => None,
                    Some((n, k2)) => match dec_tag_seq(p, s2.skip(k2), n) {
                        None => None,
                        Some((fields, k3)) => match strip(s2.skip(k2 + k3), spec_stop()) {
                            None => None,
                            Some(_) => Some(
                                (
                                    LogV { timestamp: ts, fields },
                                    (s.len() - s2.len()) + k2 + k3 + 1,
                                ),
                            ),
                        },
                    },
                },
            },
        },
    }
}

/// Decoding inverts encoding on logs.
#[verifier::rlimit(100)]
#[verifier::spinoff_prover]
pub proof fn lemma_log_rt(p: Protocol, l: LogV, rest: Seq<u8>)
    requires
        wf_log(l),
    ensures
        dec_log(p, spec_enc_log(p, l) + rest) == Some((l, spec_enc_log(p, l).len() as int)),
{
    reveal(dec_log);
    let h1 = spec_field_hdr(p, 0, 1, CK_I64, BK_I64);
    let e1 = spec_enc_i64(p, l.timestamp);
    let h2 = spec_field_hdr(p, 1, 2, CK_LIST, BK_LIST);
    let lh = spec_list_hdr(p, l.fields.len());
    let es = spec_enc_tag_seq(p, l.fields);
    let r5 = spec_stop() + rest;
    let r4 = es + r5;
    let r3 = lh + r4;
    let r2 = h2 + r3;
    let r1 = e1 + r2;
    let s = spec_enc_log(p, l) + rest;
    lemma_nest6(h1, e1, h2, lh, es, spec_stop(), rest);
    assert(s == h1 + r1);
    lemma_strip(h1, r1);
    assert(strip(s, h1) == Some(r1));
    lemma_i64_rt(p, l.timestamp, r2);
    assert(dec_i64(p, r1) == Some((l.timestamp, e1.len() as int)));
    lemma_skip_concat(e1, r2);
    lemma_strip(h2, r3);
    assert(strip(r2, h2) == Some(r3));
    lemma_list_hdr_rt(p, l.fields.len(), r4);
    assert(dec_list_hdr(p, r3) == Some((l.fields.len(), lh.len() as int)));
    lemma_skip_concat(lh, r4);
    lemma_tag_seq_rt(p, l.fields, r5);
    assert(dec_tag_seq(p, r4, l.fields.len()) == Some((l.fields, es.len() as int)));
    lemma_skip_concat(es, r5);
    lemma_strip(spec_stop(), rest);
}

/// `n` span references, one after the other.
pub open spec fn dec_ref_seq(p: Protocol, s: Seq<u8>, n: nat) -> Option<(Seq<SpanRef>, int)>
    decreases n,
{
    if n == 0 {
        Some((Seq::empty(), 0))
    } else {
        match dec_span_ref(p, s) {
            None => None,
            Some((r, k)) => match dec_ref_seq(p, s.skip(k), (n - 1) as nat) {
                None => None,
                Some((rs, m)) => Some((seq![r] + rs, k + m)),
            },
        }
    }
}

pub proof fn lemma_ref_seq_rt(p: Protocol, rs: Seq<SpanRef>, rest: Seq<u8>)
    ensures
        dec_ref_seq(p, spec_enc_ref_seq(p, rs) + rest, rs.len()) == Some(
            (rs, spec_enc_ref_seq(p, rs).len() as int),
        ),
    decreases rs.len(),
{
    if rs.len() == 0 {
        assert(spec_enc_ref_seq(p, rs) + rest =~= rest);
        assert(rs =~= Seq::<SpanRef>::empty());
    } else {
        let e0 = spec_enc_span_ref(p, rs[0]);
        let etail = spec_enc_ref_seq(p, rs.skip(1));
        assert(spec_enc_ref_seq(p, rs) == e0 + etail);
        lemma_add_assoc(e0, etail, rest);
        let s = spec_enc_ref_seq(p, rs) + rest;
        assert(s == e0 + (etail + rest));
        lemma_span_ref_rt(p, rs[0], etail + rest);
        lemma_skip_concat(e0, etail + rest);
        lemma_ref_seq_rt(p, rs.skip(1), rest);
        assert(seq![rs[0]] + rs.skip(1) =~= rs);
    }
}

/// `n` logs, one after the other.
pub open spec fn dec_log_seq(p: Protocol, s: Seq<u8>, n: nat) -> Option<(Seq<LogV>, int)>
    decreases n,
{
    if n == 0 {
        Some((Seq::empty(), 0))
    } else {
        match dec_log(p, s) {
            None => None,
            Some((l, k)) => match dec_log_seq(p, s.skip(k), (n - 1) as nat) {
                None => None,
                Some((ls, m)) => Some((seq![l] + ls, k + m)),
            },
        }
    }
}

pub proof fn lemma_log_seq_rt(p: Protocol, ls: Seq<LogV>, rest: Seq<u8>)
    requires
        forall|i: int| 0 <= i < ls.len() ==> wf_log(#[trigger] ls[i]),
    ensures
        dec_log_seq(p, spec_enc_log_seq(p, ls) + rest, ls.len()) == Some(
            (ls, spec_enc_log_seq(p, ls).len() as int),
        ),
    decreases ls.len(),
{
    if ls.len() == 0 {
        assert(spec_enc_log_seq(p, ls) + rest =~= rest);
        assert(ls =~= Seq::<LogV>::empty());
    } else {
        let e0 = spec_enc_log(p, ls[0]);
        let etail = spec_enc_log_seq(p, ls.skip(1));
        assert(spec_enc_log_seq(p, ls) == e0 + etail);
        lemma_add_assoc(e0, etail, rest);
        let s = spec_enc_log_seq(p, ls) + rest;
        assert(s == e0 + (etail + rest));
        lemma_log_rt(p, ls[0], etail + rest);
        lemma_skip_concat(e0, etail + rest);
        assert(forall|i: int| 0 <= i < ls.skip(1).len() ==> wf_log(#[trigger] ls.skip(1)[i]));
        lemma_log_seq_rt(p, ls.skip(1), rest);
        assert(seq![ls[0]] + ls.skip(1) =~= ls);
    }
}

// ---------------------------------------------------------------------------
// Span records.

#[verifier::rlimit(30)]
pub proof fn lemma_nest10<A>(
    a: Seq<A>,
    b: Seq<A>,
    c: Seq<A>,
    d: Seq<A>,
    e: Seq<A>,
    f: Seq<A>,
    g: Seq<A>,
    h: Seq<A>,
    i: Seq<A>,
    j: Seq<A>,
    rest: Seq<A>,
)
    ensures
        (((((((((a + b) + c) + d) + e) + f) + g) + h) + i) + j) + rest == a + (b + (c + (d + (e + (
        f + (g + (h + (i + (j + rest))))))))),
{
    assert((((((((((a + b) + c) + d) + e) + f) + g) + h) + i) + j) + rest =~= a + (b + (c + (d + (
    e + (f + (g + (h + (i + (j + rest))))))))));
}

/// A header cannot be stripped where the first byte differs.
pub proof fn lemma_strip_none_first(t: Seq<u8>, h: Seq<u8>)
    requires
        h.len() > 0,
        t.len() == 0 || t[0] != h[0],
    ensures
        strip(t, h) is None,
{
    if h.is_prefix_of(t) {
        assert(t.take(h.len() as int)[0] == h[0]);
    }
}

/// A three-byte header cannot be stripped where the third byte differs.
pub proof fn lemma_strip_none_third(t: Seq<u8>, h: Seq<u8>)
    requires
        h.len() == 3,
        t.len() < 3 || t[2] != h[2],
    ensures
        strip(t, h) is None,
{
    if h.is_prefix_of(t) {
        assert(t.take(h.len() as int)[2] == h[2]);
    }
}

/// Fields 1 to 5 of a span: the four identifiers and the operation name.
/// One signed 64-bit field: its header, then its value.
#[verifier::opaque]
pub open spec fn dec_i64_field(p: Protocol, prev: u16, id: u16, s: Seq<u8>) -> Option<
    (i64, int),
> {
    match strip(s, spec_field_hdr(p, prev, id, CK_I64, BK_I64)) {
        None => None,
        Some(s1) => match dec_i64(p, s1) {
            None => None,
            Some((n, k)) => Some((n, spec_field_hdr(p, prev, id, CK_I64, BK_I64).len() + k)),
        },
    }
}

#[verifier::rlimit(100)]
#[verifier::spinoff_prover]
pub proof fn lemma_i64_field_rt(p: Protocol, prev: u16, id: u16, n: i64, tail: Seq<u8>)
    ensures
        dec_i64_field(
            p,
            prev,
            id,
            (spec_field_hdr(p, prev, id, CK_I64, BK_I64) + spec_enc_i64(p, n)) + tail,
        ) == Some(
            (n, (spec_field_hdr(p, prev, id, CK_I64, BK_I64) + spec_enc_i64(p, n)).len() as int),
        ),
{
    reveal(dec_i64_field);
    let h = spec_field_hdr(p, prev, id, CK_I64, BK_I64);
    let e = spec_enc_i64(p, n);
    lemma_add_assoc(h, e, tail);
    let s = (h + e) + tail;
    assert(s == h + (e + tail));
    lemma_strip(h, e + tail);
    assert(strip(s, h) == Some(e + tail));
    lemma_i64_rt(p, n, tail);
    assert(dec_i64(p, e + tail) == Some((n, e.len() as int)));
}

#[verifier::opaque]
pub open spec fn dec_span_ids(p: Protocol, s: Seq<u8>) -> Option<((i64, i64, i64, i64), int)> {
    match dec_i64_field(p, 0, 1, s) {
        None => None,
        Some((lo, k1)) => match dec_i64_field(p, 1, 2, s.skip(k1)) {
            None => None,
            Some((hi, k2)) => match dec_i64_field(p, 2, 3, s.skip(k1 + k2)) {
                None => None,
                Some((sid, k3)) => match dec_i64_field(p, 3, 4, s.skip(k1 + k2 + k3)) {
                    None => None,
                    Some((par, k4)) => Some(((lo, hi, sid, par), k1 + k2 + k3 + k4)),
                },
            },
        },
    }
}

#[verifier::opaque]
pub open spec fn dec_span_front(p: Protocol, s: Seq<u8>) -> Option<
    ((i64, i64, i64, i64, Seq<u8>), int),
> {
    match dec_span_ids(p, s) {
        None => None,
        Some((ids, k0)) => match strip(s.skip(k0), spec_field_hdr(p, 4, 5, CK_BINARY, BK_BINARY)) {
            None => None,
            Some(s5) => match dec_bytes(p, s5) {
                None => None,
                Some((name, k5)) => Some(
                    (
                        (ids.0, ids.1, ids.2, ids.3, name),
                        k0 + spec_field_hdr(p, 4, 5, CK_BINARY, BK_BINARY).len() + k5,
                    ),
                ),
            },
        },
    }
}

pub proof fn lemma_nest8<A>(
    a: Seq<A>,
    b: Seq<A>,
    c: Seq<A>,
    d: Seq<A>,
    e: Seq<A>,
    f: Seq<A>,
    g: Seq<A>,
    h: Seq<A>,
    rest: Seq<A>,
)
    ensures
        (((((((a + b) + c) + d) + e) + f) + g) + h) + rest == a + (b + (c + (d + (e + (f + (g + (h
            + rest))))))),
{
    assert((((((((a + b) + c) + d) + e) + f) + g) + h) + rest =~= a + (b + (c + (d + (e + (f + (g
        + (h + rest))))))));
}

/// The identifier fields of a span, read back.
#[verifier::rlimit(100)]
#[verifier::spinoff_prover]
pub proof fn lemma_span_ids_rt(p: Protocol, v: SpanV, tail: Seq<u8>)
    ensures
        ({
            let f1 = spec_field_hdr(p, 0, 1, CK_I64, BK_I64) + spec_enc_i64(p, v.trace_id_low);
            let f2 = spec_field_hdr(p, 1, 2, CK_I64, BK_I64) + spec_enc_i64(p, v.trace_id_high);
            let f3 = spec_field_hdr(p, 2, 3, CK_I64, BK_I64) + spec_enc_i64(p, v.span_id);
            let f4 = spec_field_hdr(p, 3, 4, CK_I64, BK_I64) + spec_enc_i64(p, v.parent_span_id);
            dec_span_ids(p, (((f1 + f2) + f3) + f4) + tail) == Some(
                (
                    (v.trace_id_low, v.trace_id_high, v.span_id, v.parent_span_id),
                    (((f1 + f2) + f3) + f4).len() as int,
                ),
            )
        }),
{
    reveal(dec_span_ids);
    let f1 = spec_field_hdr(p, 0, 1, CK_I64, BK_I64) + spec_enc_i64(p, v.trace_id_low);
    let f2 = spec_field_hdr(p, 1, 2, CK_I64, BK_I64) + spec_enc_i64(p, v.trace_id_high);
    let f3 = spec_field_hdr(p, 2, 3, CK_I64, BK_I64) + spec_enc_i64(p, v.span_id);
    let f4 = spec_field_hdr(p, 3, 4, CK_I64, BK_I64) + spec_enc_i64(p, v.parent_span_id);
    let r3 = f4 + tail;
    let r2 = f3 + r3;
    let r1 = f2 + r2;
    let s = (((f1 + f2) + f3) + f4) + tail;
    lemma_nest4(f1, f2, f3, f4, tail);
    assert(s == f1 + r1);
    lemma_i64_field_rt(p, 0, 1, v.trace_id_low, r1);
    assert(dec_i64_field(p, 0, 1, s) == Some((v.trace_id_low, f1.len() as int)));
    lemma_skip_concat(f1, r1);
    assert(s.skip(f1.len() as int) == r1);
    lemma_i64_field_rt(p, 1, 2, v.trace_id_high, r2);
    assert(dec_i64_field(p, 1, 2, r1) == Some((v.trace_id_high, f2.len() as int)));
    lemma_skip_concat(f2, r2);
    assert(s.skip(f1.len() + f2.len() as int) =~= r2);
    lemma_i64_field_rt(p, 2, 3, v.span_id, r3);
    assert(dec_i64_field(p, 2, 3, r2) == Some((v.span_id, f3.len() as int)));
    lemma_skip_concat(f3, r3);
    assert(s.skip(f1.len() + f2.len() + f3.len() as int) =~= r3);
    lemma_i64_field_rt(p, 3, 4, v.parent_span_id, tail);
    assert(dec_i64_field(p, 3, 4, r3) == Some((v.parent_span_id, f4.len() as int)));
}

#[verifier::rlimit(100)]
#[verifier::spinoff_prover]
pub proof fn lemma_span_front_rt(p: Protocol, v: SpanV, tail: Seq<u8>)
    requires
        wf_span(v),
    ensures
        dec_span_front(p, spec_enc_span_head(p, v) + tail) == Some(
            (
                (v.trace_id_low, v.trace_id_high, v.span_id, v.parent_span_id, v.operation_name),
                spec_enc_span_head(p, v).len() as int,
            ),
        ),
{
    reveal(dec_span_front);
    let f1 = spec_field_hdr(p, 0, 1, CK_I64, BK_I64) + spec_enc_i64(p, v.trace_id_low);
    let f2 = spec_field_hdr(p, 1, 2, CK_I64, BK_I64) + spec_enc_i64(p, v.trace_id_high);
    let f3 = spec_field_hdr(p, 2, 3, CK_I64, BK_I64) + spec_enc_i64(p, v.span_id);
    let f4 = spec_field_hdr(p, 3, 4, CK_I64, BK_I64) + spec_enc_i64(p, v.parent_span_id);
    let ids = ((f1 + f2) + f3) + f4;
    let h5 = spec_field_hdr(p, 4, 5, CK_BINARY, BK_BINARY);
    let e5 = spec_enc_bytes(p, v.operation_name);
    let r1 = h5 + (e5 + tail);
    let s = spec_enc_span_head(p, v) + tail;
    assert(spec_enc_span_head(p, v) =~= (ids + h5) + e5);
    lemma_nest3(ids, h5, e5, tail);
    assert(s == ids + r1);
    lemma_span_ids_rt(p, v, r1);
    assert(dec_span_ids(p, s) == Some(
        ((v.trace_id_low, v.trace_id_high, v.span_id, v.parent_span_id), ids.len() as int),
    ));
    lemma_skip_concat(ids, r1);
    assert(s.skip(ids.len() as int) == r1);
    lemma_strip(h5, e5 + tail);
    assert(strip(r1, h5) == Some(e5 + tail));
    lemma_bytes_rt(p, v.operation_name, tail);
    assert(dec_bytes(p, e5 + tail) == Some((v.operation_name, e5.len() as int)));
}

/// Field 6 of a span when present; nothing consumed when absent./// Field 6 of a span when present; nothing consumed when absent.
#[verifier::opaque]
pub open spec fn dec_span_refs_part(p: Protocol, s: Seq<u8>) -> Option<(Seq<SpanRef>, int)> {
    match strip(s, spec_field_hdr(p, 5, 6, CK_LIST, BK_LIST)) {
        Some(u) => match dec_list_hdr(p, u) {
            None => None,
            Some((n, k)) => match dec_ref_seq(p, u.skip(k), n) {
                None => None,
                Some((rs, m)) => Some(
                    (rs, spec_field_hdr(p, 5, 6, CK_LIST, BK_LIST).len() + k + m),
                ),
            },
        },
        None => Some((Seq::empty(), 0)),
    }
}

#[verifier::rlimit(100)]
#[verifier::spinoff_prover]
pub proof fn lemma_span_refs_part_rt(p: Protocol, v: SpanV, tail: Seq<u8>)
    requires
        wf_span(v),
        v.references.len() == 0 ==> strip(tail, spec_field_hdr(p, 5, 6, CK_LIST, BK_LIST))
            is None,
    ensures
        dec_span_refs_part(p, spec_enc_span_refs(p, v) + tail) == Some(
            (v.references, spec_enc_span_refs(p, v).len() as int),
        ),
{
    reveal(dec_span_refs_part);
    if v.references.len() > 0 {
        let h6 = spec_field_hdr(p, 5, 6, CK_LIST, BK_LIST);
        let lh = spec_list_hdr(p, v.references.len());
        let es = spec_enc_ref_seq(p, v.references);
        let r2 = es + tail;
        let r1 = lh + r2;
        let s = spec_enc_span_refs(p, v) + tail;
        assert(spec_enc_span_refs(p, v) == (h6 + lh) + es);
        lemma_nest3(h6, lh, es, tail);
        assert(s == h6 + r1);
        lemma_strip(h6, r1);
        assert(strip(s, h6) == Some(r1));
        lemma_list_hdr_rt(p, v.references.len(), r2);
        lemma_skip_concat(lh, r2);
        lemma_ref_seq_rt(p, v.references, tail);
    } else {
        assert(spec_enc_span_refs(p, v) + tail =~= tail);
        assert(v.references =~= Seq::<SpanRef>::empty());
    }
}

pub proof fn lemma_nest3<A>(a: Seq<A>, b: Seq<A>, c: Seq<A>, rest: Seq<A>)
    ensures
        ((a + b) + c) + rest == a + (b + (c + rest)),
{
    assert(((a + b) + c) + rest =~= a + (b + (c + rest)));
}

/// Fields 7 to 9 of a span.
#[verifier::opaque]
pub open spec fn dec_span_mid(p: Protocol, prev: u16, s: Seq<u8>) -> Option<
    ((i32, i64, i64), int),
> {
    match strip(s, spec_field_hdr(p, prev, 7, CK_I32, BK_I32)) {
        None => None,
        Some(s1) => match dec_i32(p, s1) {
            None => None,
            Some((flags, k1)) => match strip(s1.skip(k1), spec_field_hdr(p, 7, 8, CK_I64, BK_I64)) {
                None => None,
                Some(s2) => match dec_i64(p, s2) {
                    None => None,
                    Some((start, k2)) => match strip(
                        s2.skip(k2),
                        spec_field_hdr(p, 8, 9, CK_I64, BK_I64),
                    ) {
                        None => None,
                        Some(s3) => match dec_i64(p, s3) {
                            None => None,
                            Some((dur, k3)) => Some(
                                ((flags, start, dur), (s.len() - s3.len()) + k3),
                            ),
                        },
                    },
                },
            },
        },
    }
}

#[verifier::rlimit(100)]
#[verifier::spinoff_prover]
pub proof fn lemma_span_mid_rt(p: Protocol, v: SpanV, tail: Seq<u8>)
    ensures
        dec_span_mid(
            p,
            if v.references.len() > 0 {
                6u16
            } else {
                5u16
            },
            spec_enc_span_mid(p, v) + tail,
        ) == Some(
            ((v.flags, v.start_time, v.duration), spec_enc_span_mid(p, v).len() as int),
        ),
{
    reveal(dec_span_mid);
    let prev: u16 = if v.references.len() > 0 {
        6
    } else {
        5
    };
    let h7 = spec_field_hdr(p, prev, 7, CK_I32, BK_I32);
    let e7 = spec_enc_i32(p, v.flags);
    let h8 = spec_field_hdr(p, 7, 8, CK_I64, BK_I64);
    let e8 = spec_enc_i64(p, v.start_time);
    let h9 = spec_field_hdr(p, 8, 9, CK_I64, BK_I64);
    let e9 = spec_enc_i64(p, v.duration);
    let r5 = e9 + tail;
    let r4 = h9 + r5;
    let r3 = e8 + r4;
    let r2 = h8 + r3;
    let r1 = e7 + r2;
    let s = spec_enc_span_mid(p, v) + tail;
    lemma_nest6(h7, e7, h8, e8, h9, e9, tail);
    assert(s == h7 + r1);
    lemma_strip(h7, r1);
    assert(strip(s, h7) == Some(r1));
    lemma_i32_rt(p, v.flags, r2);
    lemma_skip_concat(e7, r2);
    lemma_strip(h8, r3);
    assert(strip(r2, h8) == Some(r3));
    lemma_i64_rt(p, v.start_time, r4);
    lemma_skip_concat(e8, r4);
    lemma_strip(h9, r5);
    assert(strip(r4, h9) == Some(r5));
    lemma_i64_rt(p, v.duration, tail);
}

/// Field 10 of a span when present; nothing consumed when absent.
#[verifier::opaque]
pub open spec fn dec_span_tags_part(p: Protocol, s: Seq<u8>) -> Option<(Seq<TagV>, int)> {
    match strip(s, spec_field_hdr(p, 9, 10, CK_LIST, BK_LIST)) {
        Some(u) => match dec_list_hdr(p, u) {
            None => None,
            Some((n, k)) => match dec_tag_seq(p, u.skip(k), n) {
                None => None,
                Some((ts, m)) => Some(
                    (ts, spec_field_hdr(p, 9, 10, CK_LIST, BK_LIST).len() + k + m),
                ),
            },
        },
        None => Some((Seq::empty(), 0)),
    }
}

#[verifier::rlimit(100)]
#[verifier::spinoff_prover]
pub proof fn lemma_span_tags_part_rt(p: Protocol, v: SpanV, tail: Seq<u8>)
    requires
        wf_span(v),
        v.tags.len() == 0 ==> strip(tail, spec_field_hdr(p, 9, 10, CK_LIST, BK_LIST)) is None,
    ensures
        dec_span_tags_part(p, spec_enc_span_tags(p, v) + tail) == Some(
            (v.tags, spec_enc_span_tags(p, v).len() as int),
        ),
{
    reveal(dec_span_tags_part);
    if v.tags.len() > 0 {
        let h10 = spec_field_hdr(p, 9, 10, CK_LIST, BK_LIST);
        let lh = spec_list_hdr(p, v.tags.len());
        let es = spec_enc_tag_seq(p, v.tags);
        let r2 = es + tail;
        let r1 = lh + r2;
        let s = spec_enc_span_tags(p, v) + tail;
        assert(spec_enc_span_tags(p, v) == (h10 + lh) + es);
        lemma_nest3(h10, lh, es, tail);
        assert(s == h10 + r1);
        lemma_strip(h10, r1);
        assert(strip(s, h10) == Some(r1));
        lemma_list_hdr_rt(p, v.tags.len(), r2);
        lemma_skip_concat(lh, r2);
        lemma_tag_seq_rt(p, v.tags, tail);
    } else {
        assert(spec_enc_span_tags(p, v) + tail =~= tail);
        assert(v.tags =~= Seq::<TagV>::empty());
    }
}

/// Field 11 of a span when present; nothing consumed when absent.
#[verifier::opaque]
pub open spec fn dec_span_logs_part(p: Protocol, prev: u16, s: Seq<u8>) -> Option<
    (Seq<LogV>, int),
> {
    match strip(s, spec_field_hdr(p, prev, 11, CK_LIST, BK_LIST)) {
        Some(u) => match dec_list_hdr(p, u) {
            None => None,
            Some((n, k)) => match dec_log_seq(p, u.skip(k), n) {
                None => None,
                Some((ls, m)) => Some(
                    (ls, spec_field_hdr(p, prev, 11, CK_LIST, BK_LIST).len() + k + m),
                ),
            },
        },
        None => Some((Seq::empty(), 0)),
    }
}

#[verifier::rlimit(100)]
#[verifier::spinoff_prover]
pub proof fn lemma_span_logs_part_rt(p: Protocol, v: SpanV, tail: Seq<u8>)
    requires
        wf_span(v),
        v.logs.len() == 0 ==> strip(
            tail,
            spec_field_hdr(
                p,
                if v.tags.len() > 0 {
                    10u16
                } else {
                    9u16
                },
                11,
                CK_LIST,
                BK_LIST,
            ),
        ) is None,
    ensures
        dec_span_logs_part(
            p,
            if v.tags.len() > 0 {
                10u16
            } else {
                9u16
            },
            spec_enc_span_logs(p, v) + tail,
        ) == Some((v.logs, spec_enc_span_logs(p, v).len() as int)),
{
    reveal(dec_span_logs_part);
    let prev: u16 = if v.tags.len() > 0 {
        10
    } else {
        9
    };
    if v.logs.len() > 0 {
        let h11 = spec_field_hdr(p, prev, 11, CK_LIST, BK_LIST);
        let lh = spec_list_hdr(p, v.logs.len());
        let es = spec_enc_log_seq(p, v.logs);
        let r2 = es + tail;
        let r1 = lh + r2;
        let s = spec_enc_span_logs(p, v) + tail;
        assert(spec_enc_span_logs(p, v) == (h11 + lh) + es);
        lemma_nest3(h11, lh, es, tail);
        assert(s == h11 + r1);
        lemma_strip(h11, r1);
        assert(strip(s, h11) == Some(r1));
        lemma_list_hdr_rt(p, v.logs.len(), r2);
        lemma_skip_concat(lh, r2);
        lemma_log_seq_rt(p, v.logs, tail);
    } else {
        assert(spec_enc_span_logs(p, v) + tail =~= tail);
        assert(v.logs =~= Seq::<LogV>::empty());
    }
}

/// The front half of a span: fields 1 to 9.
#[verifier::opaque]
pub open spec fn dec_span_a(p: Protocol, s: Seq<u8>) -> Option<
    ((i64, i64, i64, i64, Seq<u8>), Seq<SpanRef>, (i32, i64, i64), int),
> {
    match dec_span_front(p, s) {
        None => None,
        Some((ids, k0)) => match dec_span_refs_part(p, s.skip(k0)) {
            None => None,
            Some((references, kr)) => {
                let prev7: u16 = if kr > 0 {
                    6
                } else {
                    5
                };
                match dec_span_mid(p, prev7, s.skip(k0 + kr)) {
                    None => None,
                    Some((mid, km)) => Some((ids, references, mid, k0 + kr + km)),
                }
            },
        },
    }
}

/// The back half of a span: fields 10 and 11 and the stop byte.
#[verifier::opaque]
pub open spec fn dec_span_b(p: Protocol, s: Seq<u8>) -> Option<((Seq<TagV>, Seq<LogV>), int)> {
    match dec_span_tags_part(p, s) {
        None => None,
        Some((tags, kt)) => {
            let prev11: u16 = if kt > 0 {
                10
            } else {
                9
            };
            match dec_span_logs_part(p, prev11, s.skip(kt)) {
                None => None,
                Some((logs, kl)) => match strip(s.skip(kt + kl), spec_stop()) {
                    None => None,
                    Some(_) => Some(((tags, logs), kt + kl + 1)),
                },
            }
        },
    }
}

/// A whole span record.
#[verifier::opaque]
pub open spec fn dec_span(p: Protocol, s: Seq<u8>) -> Option<(SpanV, int)> {
    match dec_span_a(p, s) {
        None => None,
        Some((ids, references, mid, ka)) => match dec_span_b(p, s.skip(ka)) {
            None => None,
            Some(((tags, logs), kb)) => Some(
                (
                    SpanV {
                        trace_id_low: ids.0,
                        trace_id_high: ids.1,
                        span_id: ids.2,
                        parent_span_id: ids.3,
                        operation_name: ids.4,
                        references,
                        flags: mid.0,
                        start_time: mid.1,
                        duration: mid.2,
                        tags,
                        logs,
                    },
                    ka + kb,
                ),
            ),
        },
    }
}

/// The first byte of the encoded middle fields is field 7's header byte.
pub proof fn lemma_mid_first_byte(p: Protocol, v: SpanV)
    ensures
        spec_enc_span_mid(p, v).len() > 0,
        spec_enc_span_mid(p, v)[0] == spec_field_hdr(
            p,
            if v.references.len() > 0 {
                6u16
            } else {
                5u16
            },
            7,
            CK_I32,
            BK_I32,
        )[0],
{
}

#[verifier::rlimit(100)]
#[verifier::spinoff_prover]
pub proof fn lemma_span_a_rt(p: Protocol, v: SpanV, tail: Seq<u8>)
    requires
        wf_span(v),
    ensures
        ({
            let enc = spec_enc_span_head(p, v) + spec_enc_span_refs(p, v) + spec_enc_span_mid(
                p,
                v,
            );
            dec_span_a(p, enc + tail) == Some(
                (
                    (
                        v.trace_id_low,
                        v.trace_id_high,
                        v.span_id,
                        v.parent_span_id,
                        v.operation_name,
                    ),
                    v.references,
                    (v.flags, v.start_time, v.duration),
                    enc.len() as int,
                ),
            )
        }),
{
    reveal(dec_span_a);
    let hh = spec_enc_span_head(p, v);
    let rr = spec_enc_span_refs(p, v);
    let mm = spec_enc_span_mid(p, v);
    let t2 = mm + tail;
    let t1 = rr + t2;
    let enc = hh + rr + mm;
    let s = enc + tail;
    lemma_nest3(hh, rr, mm, tail);
    assert(s == hh + t1);
    lemma_span_front_rt(p, v, t1);
    assert(dec_span_front(p, s) == Some(
        (
            (v.trace_id_low, v.trace_id_high, v.span_id, v.parent_span_id, v.operation_name),
            hh.len() as int,
        ),
    ));
    lemma_skip_concat(hh, t1);
    assert(s.skip(hh.len() as int) == t1);
    if v.references.len() == 0 {
        let h6 = spec_field_hdr(p, 5, 6, CK_LIST, BK_LIST);
        lemma_mid_first_byte(p, v);
        assert(t1 == t2);
        assert(t2[0] == mm[0]);
        match p {
            Protocol::Compact => {
                assert(h6[0] == 25u8 && mm[0] == 37u8);
            },
            Protocol::Binary => {
                assert(h6[0] == BK_LIST && mm[0] == BK_I32);
            },
        }
        lemma_strip_none_first(t1, h6);
    }
    lemma_span_refs_part_rt(p, v, t2);
    assert(dec_span_refs_part(p, t1) == Some((v.references, rr.len() as int)));
    lemma_skip_concat(rr, t2);
    assert(t1.skip(rr.len() as int) == t2);
    assert(rr.len() > 0 <==> v.references.len() > 0) by {
        if v.references.len() > 0 {
            assert(rr == (spec_field_hdr(p, 5, 6, CK_LIST, BK_LIST) + spec_list_hdr(
                p,
                v.references.len(),
            )) + spec_enc_ref_seq(p, v.references));
        }
    }
    assert(s.skip(hh.len() + rr.len() as int) =~= t2);
    lemma_span_mid_rt(p, v, tail);
    assert(dec_span_mid(
        p,
        if v.references.len() > 0 {
            6u16
        } else {
            5u16
        },
        t2,
    ) == Some(((v.flags, v.start_time, v.duration), mm.len() as int)));
}

/// The first byte of an encoded log-list field is its header byte.
pub proof fn lemma_logs_first_byte(p: Protocol, v: SpanV)
    requires
        v.logs.len() > 0,
    ensures
        spec_enc_span_logs(p, v).len() >= spec_field_hdr(
            p,
            if v.tags.len() > 0 {
                10u16
            } else {
                9u16
            },
            11,
            CK_LIST,
            BK_LIST,
        ).len(),
        forall|i: int|
            0 <= i < spec_field_hdr(
                p,
                if v.tags.len() > 0 {
                    10u16
                } else {
                    9u16
                },
                11,
                CK_LIST,
                BK_LIST,
            ).len() ==> spec_enc_span_logs(p, v)[i] == spec_field_hdr(
                p,
                if v.tags.len() > 0 {
                    10u16
                } else {
                    9u16
                },
                11,
                CK_LIST,
                BK_LIST,
            )[i],
{
}

#[verifier::rlimit(100)]
#[verifier::spinoff_prover]
pub proof fn lemma_span_b_rt(p: Protocol, v: SpanV, rest: Seq<u8>)
    requires
        wf_span(v),
    ensures
        ({
            let enc = spec_enc_span_tags(p, v) + spec_enc_span_logs(p, v) + spec_stop();
            dec_span_b(p, enc + rest) == Some(((v.tags, v.logs), enc.len() as int))
        }),
{
    reveal(dec_span_b);
    let tt = spec_enc_span_tags(p, v);
    let ll = spec_enc_span_logs(p, v);
    let t5 = spec_stop() + rest;
    let t4 = ll + t5;
    let t3 = tt + t4;
    let enc = tt + ll + spec_stop();
    let s = enc + rest;
    lemma_nest3(tt, ll, spec_stop(), rest);
    assert(s == tt + t4);
    assert(s == t3);
    let h10 = spec_field_hdr(p, 9, 10, CK_LIST, BK_LIST);
    let h11 = spec_field_hdr(
        p,
        if v.tags.len() > 0 {
            10u16
        } else {
            9u16
        },
        11,
        CK_LIST,
        BK_LIST,
    );
    if v.tags.len() == 0 {
        assert(t3 == t4);
        if v.logs.len() > 0 {
            lemma_logs_first_byte(p, v);
            assert(t4[0] == ll[0]);
            match p {
                Protocol::Compact => {
                    assert(h10[0] == 25u8 && h11[0] == 41u8);
                    assert(t4[0] == 41u8);
                    lemma_strip_none_first(t3, h10);
                },
                Protocol::Binary => {
                    assert(h10.len() == 3 && h10[2] == 10u8);
                    assert(h11.len() == 3 && h11[2] == 11u8);
                    assert(t4[2] == ll[2]);
                    assert(ll[2] == 11u8);
                    lemma_strip_none_third(t3, h10);
                },
            }
        } else {
            assert(t4 == t5);
            assert(t5[0] == 0u8);
            match p {
                Protocol::Compact => {
                    assert(h10[0] == 25u8);
                },
                Protocol::Binary => {
                    assert(h10[0] == BK_LIST);
                },
            }
            lemma_strip_none_first(t3, h10);
        }
    }
    lemma_span_tags_part_rt(p, v, t4);
    assert(dec_span_tags_part(p, t3) == Some((v.tags, tt.len() as int)));
    lemma_skip_concat(tt, t4);
    assert(t3.skip(tt.len() as int) == t4);
    assert(tt.len() > 0 <==> v.tags.len() > 0) by {
        if v.tags.len() > 0 {
            assert(tt == (spec_field_hdr(p, 9, 10, CK_LIST, BK_LIST) + spec_list_hdr(
                p,
                v.tags.len(),
            )) + spec_enc_tag_seq(p, v.tags));
        }
    }
    if v.logs.len() == 0 {
        assert(t4 == t5);
        assert(t5[0] == 0u8);
        match p {
            Protocol::Compact => {
                assert(h11[0] == 25u8 || h11[0] == 41u8);
            },
            Protocol::Binary => {
                assert(h11[0] == BK_LIST);
            },
        }
        lemma_strip_none_first(t4, h11);
    }
    lemma_span_logs_part_rt(p, v, t5);
    assert(dec_span_logs_part(
        p,
        if v.tags.len() > 0 {
            10u16
        } else {
            9u16
        },
        t4,
    ) == Some((v.logs, ll.len() as int)));
    lemma_skip_concat(ll, t5);
    assert(t4.skip(ll.len() as int) == t5);
    lemma_strip(spec_stop(), rest);
    assert(strip(t5, spec_stop()) == Some(rest));
}

/// Splitting a six-chunk chain into its two halves.
pub proof fn lemma_split6<A>(a: Seq<A>, b: Seq<A>, c: Seq<A>, d: Seq<A>, e: Seq<A>, f: Seq<A>)
    ensures
        ((((a + b) + c) + d) + e) + f == ((a + b) + c) + (((d + e) + f)),
{
    assert(((((a + b) + c) + d) + e) + f =~= ((a + b) + c) + (((d + e) + f)));
}

/// Decoding inverts encoding on spans, including the omission of every
/// empty optional collection: what comes back is exactly what was
/// written.
#[verifier::rlimit(100)]
#[verifier::spinoff_prover]
pub proof fn lemma_span_rt(p: Protocol, v: SpanV, rest: Seq<u8>)
    requires
        wf_span(v),
    ensures
        dec_span(p, spec_enc_span(p, v) + rest) == Some((v, spec_enc_span(p, v).len() as int)),
{
    reveal(dec_span);
    let ea = spec_enc_span_head(p, v) + spec_enc_span_refs(p, v) + spec_enc_span_mid(p, v);
    let eb = spec_enc_span_tags(p, v) + spec_enc_span_logs(p, v) + spec_stop();
    lemma_split6(
        spec_enc_span_head(p, v),
        spec_enc_span_refs(p, v),
        spec_enc_span_mid(p, v),
        spec_enc_span_tags(p, v),
        spec_enc_span_logs(p, v),
        spec_stop(),
    );
    assert(spec_enc_span(p, v) == ea + eb);
    lemma_add_assoc(ea, eb, rest);
    let s = spec_enc_span(p, v) + rest;
    assert(s == ea + (eb + rest));
    lemma_span_a_rt(p, v, eb + rest);
    lemma_skip_concat(ea, eb + rest);
    assert(s.skip(ea.len() as int) == eb + rest);
    lemma_span_b_rt(p, v, rest);
}

// ---------------------------------------------------------------------------
// Batches and the notification envelope.

/// `n` spans, one after the other.
pub open spec fn dec_span_seq(p: Protocol, s: Seq<u8>, n: nat) -> Option<(Seq<SpanV>, int)>
    decreases n,
{
    if n == 0 {
        Some((Seq::empty(), 0))
    } else {
        match dec_span(p, s) {
            None => None,
            Some((v, k)) => match dec_span_seq(p, s.skip(k), (n - 1) as nat) {
                None => None,
                Some((vs, m)) => Some((seq![v] + vs, k + m)),
            },
        }
    }
}

pub proof fn lemma_span_seq_rt(p: Protocol, vs: Seq<SpanV>, rest: Seq<u8>)
    requires
        forall|i: int| 0 <= i < vs.len() ==> wf_span(#[trigger] vs[i]),
    ensures
        dec_span_seq(p, spec_enc_span_seq(p, vs) + rest, vs.len()) == Some(
            (vs, spec_enc_span_seq(p, vs).len() as int),
        ),
    decreases vs.len(),
{
    if vs.len() == 0 {
        assert(spec_enc_span_seq(p, vs) + rest =~= rest);
        assert(vs =~= Seq::<SpanV>::empty());
    } else {
        let e0 = spec_enc_span(p, vs[0]);
        let etail = spec_enc_span_seq(p, vs.skip(1));
        assert(spec_enc_span_seq(p, vs) == e0 + etail);
        lemma_add_assoc(e0, etail, rest);
        let s = spec_enc_span_seq(p, vs) + rest;
        assert(s == e0 + (etail + rest));
        lemma_span_rt(p, vs[0], etail + rest);
        lemma_skip_concat(e0, etail + rest);
        assert(forall|i: int| 0 <= i < vs.skip(1).len() ==> wf_span(#[trigger] vs.skip(1)[i]));
        lemma_span_seq_rt(p, vs.skip(1), rest);
        assert(seq![vs[0]] + vs.skip(1) =~= vs);
    }
}

/// A batch: 1 process, 2 spans, stop.
#[verifier::opaque]
pub open spec fn dec_batch(p: Protocol, s: Seq<u8>) -> Option<(BatchV, int)> {
    match strip(s, spec_field_hdr(p, 0, 1, CK_STRUCT, BK_STRUCT)) {
        None => None,
        Some(s1) => match dec_process(p, s1) {
            None => None,
            Some((process, k1)) => match strip(
                s1.skip(k1),
                spec_field_hdr(p, 1, 2, CK_LIST, BK_LIST),
            ) {
                None => None,
                Some(s2) => match dec_list_hdr(p, s2) {
                    None => None,
                    Some((n, k2)) => match dec_span_seq(p, s2.skip(k2), n) {
                        None => None,
                        Some((spans, k3)) => match strip(s2.skip(k2 + k3), spec_stop()) {
                            None => None,
                            Some(_) => Some(
                                (
                                    BatchV { process, spans },
                                    (s.len() - s2.len()) + k2 + k3 + 1,
                                ),
                            ),
                        },
                    },
                },
            },
        },
    }
}

/// Decoding inverts encoding on batches.
#[verifier::rlimit(100)]
#[verifier::spinoff_prover]
pub proof fn lemma_batch_rt(p: Protocol, b: BatchV, rest: Seq<u8>)
    requires
        wf_batch(b),
    ensures
        dec_batch(p, spec_enc_batch(p, b) + rest) == Some(
            (b, spec_enc_batch(p, b).len() as int),
        ),
{
    reveal(dec_batch);
    let h1 = spec_field_hdr(p, 0, 1, CK_STRUCT, BK_STRUCT);
    let e1 = spec_enc_process(p, b.process);
    let h2 = spec_field_hdr(p, 1, 2, CK_LIST, BK_LIST);
    let lh = spec_list_hdr(p, b.spans.len());
    let es = spec_enc_span_seq(p, b.spans);
    let r5 = spec_stop() + rest;
    let r4 = es + r5;
    let r3 = lh + r4;
    let r2 = h2 + r3;
    let r1 = e1 + r2;
    let s = spec_enc_batch(p, b) + rest;
    lemma_nest6(h1, e1, h2, lh, es, spec_stop(), rest);
    assert(s == h1 + r1);
    lemma_strip(h1, r1);
    assert(strip(s, h1) == Some(r1));
    lemma_process_rt(p, b.process, r2);
    assert(dec_process(p, r1) == Some((b.process, e1.len() as int)));
    lemma_skip_concat(e1, r2);
    assert(r1.skip(e1.len() as int) == r2);
    lemma_strip(h2, r3);
    assert(strip(r2, h2) == Some(r3));
    lemma_list_hdr_rt(p, b.spans.len(), r4);
    assert(dec_list_hdr(p, r3) == Some((b.spans.len(), lh.len() as int)));
    lemma_skip_concat(lh, r4);
    lemma_span_seq_rt(p, b.spans, r5);
    assert(dec_span_seq(p, r4, b.spans.len()) == Some((b.spans, es.len() as int)));
    lemma_skip_concat(es, r5);
    lemma_strip(spec_stop(), rest);
}

/// The whole notification: message envelope, body struct with the batch
/// as its single field, stop.
#[verifier::opaque]
pub open spec fn dec_notification(p: Protocol, s: Seq<u8>) -> Option<(BatchV, int)> {
    match strip(s, spec_enc_message_hdr(p)) {
        None => None,
        Some(s1) => match strip(s1, spec_field_hdr(p, 0, 1, CK_STRUCT, BK_STRUCT)) {
            None => None,
            Some(s2) => match dec_batch(p, s2) {
                None => None,
                Some((b, k)) => match strip(s2.skip(k), spec_stop()) {
                    None => None,
                    Some(_) => Some((b, (s.len() - s2.len()) + k + 1)),
                },
            },
        },
    }
}

/// Decoding inverts encoding on whole notifications: reading the bytes the
/// encoder produced for a batch, under the same protocol, gives back
/// exactly that batch and consumes every byte that was written.
#[verifier::rlimit(100)]
#[verifier::spinoff_prover]
pub proof fn lemma_notification_rt(p: Protocol, n: EmitBatchNotificationV, rest: Seq<u8>)
    requires
        wf_batch(n.batch),
    ensures
        dec_notification(p, spec_enc_notification(p, n) + rest) == Some(
            (n.batch, spec_enc_notification(p, n).len() as int),
        ),
{
    reveal(dec_notification);
    let mh = spec_enc_message_hdr(p);
    let h1 = spec_field_hdr(p, 0, 1, CK_STRUCT, BK_STRUCT);
    let eb = spec_enc_batch(p, n.batch);
    let r3 = spec_stop() + rest;
    let r2 = eb + r3;
    let r1 = h1 + r2;
    let s = spec_enc_notification(p, n) + rest;
    lemma_nest4(mh, h1, eb, spec_stop(), rest);
    assert(s == mh + r1);
    lemma_strip(mh, r1);
    assert(strip(s, mh) == Some(r1));
    lemma_strip(h1, r2);
    assert(strip(r1, h1) == Some(r2));
    lemma_batch_rt(p, n.batch, r3);
    assert(dec_batch(p, r2) == Some((n.batch, eb.len() as int)));
    lemma_skip_concat(eb, r3);
    assert(r2.skip(eb.len() as int) == r3);
    lemma_strip(spec_stop(), rest);
}

} // verus!
