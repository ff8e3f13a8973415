use vstd::prelude::*;

verus! {

/// The two wire encodings of the thrift protocol family.  Both serialize
/// the same ordered field lists; they differ only in how primitive values
/// are written and in the message envelope.
#[derive(Clone, Copy, PartialEq, Eq, Structural, Debug)]
pub enum Protocol {
    /// Variable-width integers (zig-zag varints) and delta-coded field headers.
    Compact,
    /// Fixed-width big-endian integers and plain field headers.
    Binary,
}

/// Largest byte/element count the wire's signed 31-bit length fields can carry.
pub const MAX_WIRE_LEN: usize = 0x7FFF_FFFF;

// Compact-protocol field/element kind codes.
pub const CK_BOOL_TRUE: u8 = 1;
pub const CK_BOOL_FALSE: u8 = 2;
pub const CK_I32: u8 = 5;
pub const CK_I64: u8 = 6;
pub const CK_DOUBLE: u8 = 7;
pub const CK_BINARY: u8 = 8;
pub const CK_LIST: u8 = 9;
pub const CK_STRUCT: u8 = 12;

// Binary-protocol field/element kind codes.
pub const BK_BOOL: u8 = 2;
pub const BK_DOUBLE: u8 = 4;
pub const BK_I32: u8 = 8;
pub const BK_I64: u8 = 10;
pub const BK_BINARY: u8 = 11;
pub const BK_STRUCT: u8 = 12;
pub const BK_LIST: u8 = 15;

// ---------------------------------------------------------------------------
// Two's-complement reinterpretation, stated arithmetically so that every
// cast below stays in range and no bit-level reasoning is needed.

pub open spec fn u32_of_i32(n: i32) -> u32 {
    if n >= 0 {
        n as u32
    } else {
        (n + 0x1_0000_0000) as u32
    }
}

pub open spec fn u64_of_i64(n: i64) -> u64 {
    if n >= 0 {
        n as u64
    } else {
        (n + 0x1_0000_0000_0000_0000) as u64
    }
}

pub fn u32_from_i32(n: i32) -> (r: u32)
    ensures
        r == u32_of_i32(n),
{
    if n >= 0 {
        n as u32
    } else {
        (((n as i64) + 0x1_0000_0000) as u32)
    }
}

pub fn u64_from_i64(n: i64) -> (r: u64)
    ensures
        r == u64_of_i64(n),
{
    if n >= 0 {
        n as u64
    } else {
        let k: i64 = (n + 0x4000_0000_0000_0000) + 0x4000_0000_0000_0000;
        (k as u64) + 0x8000_0000_0000_0000
    }
}

// ---------------------------------------------------------------------------
// Zig-zag mapping of signed integers onto unsigned ones, as the compact
// protocol uses before varint-encoding: 0, -1, 1, -2, 2, ... map to
// 0, 1, 2, 3, 4, ...

pub open spec fn zigzag32(n: i32) -> u32 {
    if n >= 0 {
        (2 * n) as u32
    } else {
        (-2 * n - 1) as u32
    }
}

pub open spec fn zigzag64(n: i64) -> u64 {
    if n >= 0 {
        (2 * n) as u64
    } else {
        (-2 * n - 1) as u64
    }
}

pub fn zigzag32_enc(n: i32) -> (r: u32)
    ensures
        r == zigzag32(n),
{
    if n >= 0 {
        (n as u32) * 2
    } else {
        ((-(n + 1)) as u32) * 2 + 1
    }
}

pub fn zigzag64_enc(n: i64) -> (r: u64)
    ensures
        r == zigzag64(n),
{
    if n >= 0 {
        (n as u64) * 2
    } else {
        ((-(n + 1)) as u64) * 2 + 1
    }
}

// ---------------------------------------------------------------------------
// Unsigned LEB128 varints, written arithmetically: seven value bits per
// byte, least significant group first, high bit set on every byte but the
// last.

pub open spec fn spec_varint(n: u64) -> Seq<u8>
    decreases n,
{
    if n < 128 {
        seq![n as u8]
    } else {
        seq![(n % 128 + 128) as u8] + spec_varint(n / 128)
    }
}

pub fn emit_varint(out: &mut Vec<u8>, n: u64)
    ensures
        final(out)@ == old(out)@ + spec_varint(n),
    decreases n,
{
    if n < 128 {
        out.push(n as u8);
    } else {
        out.push((n % 128 + 128) as u8);
        emit_varint(out, n / 128);
        assert(out@ =~= old(out)@ + spec_varint(n));
    }
}

// ---------------------------------------------------------------------------
// Fixed-width byte orders, most significant byte first (big-endian) and
// least significant byte first (little-endian; the compact protocol writes
// doubles this way).

pub open spec fn spec_be16(n: u16) -> Seq<u8> {
    seq![(n / 0x100) as u8, (n % 0x100) as u8]
}

pub open spec fn spec_be32(n: u32) -> Seq<u8> {
    seq![
        (n / 0x100_0000) as u8,
        (n / 0x1_0000 % 0x100) as u8,
        (n / 0x100 % 0x100) as u8,
        (n % 0x100) as u8,
    ]
}

pub open spec fn spec_be64(n: u64) -> Seq<u8> {
    spec_be32((n / 0x1_0000_0000) as u32) + spec_be32((n % 0x1_0000_0000) as u32)
}

pub open spec fn spec_le64(n: u64) -> Seq<u8> {
    seq![
        (n % 0x100) as u8,
        (n / 0x100 % 0x100) as u8,
        (n / 0x1_0000 % 0x100) as u8,
        (n / 0x100_0000 % 0x100) as u8,
        (n / 0x1_0000_0000 % 0x100) as u8,
        (n / 0x100_0000_0000 % 0x100) as u8,
        (n / 0x1_0000_0000_0000 % 0x100) as u8,
        (n / 0x100_0000_0000_0000) as u8,
    ]
}

pub fn emit_be16(out: &mut Vec<u8>, n: u16)
    ensures
        final(out)@ == old(out)@ + spec_be16(n),
{
    out.push((n / 0x100) as u8);
    out.push((n % 0x100) as u8);
    assert(out@ =~= old(out)@ + spec_be16(n));
}

pub fn emit_be32(out: &mut Vec<u8>, n: u32)
    ensures
        final(out)@ == old(out)@ + spec_be32(n),
{
    out.push((n / 0x100_0000) as u8);
    out.push((n / 0x1_0000 % 0x100) as u8);
    out.push((n / 0x100 % 0x100) as u8);
    out.push((n % 0x100) as u8);
    assert(out@ =~= old(out)@ + spec_be32(n));
}

pub fn emit_be64(out: &mut Vec<u8>, n: u64)
    ensures
        final(out)@ == old(out)@ + spec_be64(n),
{
    emit_be32(out, (n / 0x1_0000_0000) as u32);
    emit_be32(out, (n % 0x1_0000_0000) as u32);
    assert(out@ =~= old(out)@ + spec_be64(n));
}

pub fn emit_le64(out: &mut Vec<u8>, n: u64)
    ensures
        final(out)@ == old(out)@ + spec_le64(n),
{
    out.push((n % 0x100) as u8);
    out.push((n / 0x100 % 0x100) as u8);
    out.push((n / 0x1_0000 % 0x100) as u8);
    out.push((n / 0x100_0000 % 0x100) as u8);
    out.push((n / 0x1_0000_0000 % 0x100) as u8);
    out.push((n / 0x100_0000_0000 % 0x100) as u8);
    out.push((n / 0x1_0000_0000_0000 % 0x100) as u8);
    out.push((n / 0x100_0000_0000_0000) as u8);
    assert(out@ =~= old(out)@ + spec_le64(n));
}

// ---------------------------------------------------------------------------
// Protocol-dependent primitive encodings.

/// A 32-bit signed integer value.
pub open spec fn spec_enc_i32(p: Protocol, n: i32) -> Seq<u8> {
    match p {
        Protocol::Compact => spec_varint(zigzag32(n) as u64),
        Protocol::Binary => spec_be32(u32_of_i32(n)),
    }
}

/// A 64-bit signed integer value.
pub open spec fn spec_enc_i64(p: Protocol, n: i64) -> Seq<u8> {
    match p {
        Protocol::Compact => spec_varint(zigzag64(n)),
        Protocol::Binary => spec_be64(u64_of_i64(n)),
    }
}

/// A double value, carried as its 64-bit pattern.
pub open spec fn spec_enc_double(p: Protocol, bits: u64) -> Seq<u8> {
    match p {
        Protocol::Compact => spec_le64(bits),
        Protocol::Binary => spec_be64(bits),
    }
}

/// A length-prefixed byte string.
pub open spec fn spec_enc_bytes(p: Protocol, b: Seq<u8>) -> Seq<u8> {
    match p {
        Protocol::Compact => spec_varint(b.len() as u64) + b,
        Protocol::Binary => spec_be32(b.len() as u32) + b,
    }
}

/// The header of one struct field: the compact protocol packs the delta
/// from the previous field id with the kind code into one byte; the binary
/// protocol writes the kind code and the full id.  `ck` is overloaded for
/// bool fields, whose compact kind code carries the value itself.
pub open spec fn spec_field_hdr(p: Protocol, prev: u16, id: u16, ck: u8, bk: u8) -> Seq<u8>
    recommends
        prev < id <= prev + 15,
        ck < 16,
{
    match p {
        Protocol::Compact => seq![(16 * (id - prev) + ck) as u8],
        Protocol::Binary => seq![bk] + spec_be16(id),
    }
}

/// The header of a list whose elements are structs.
pub open spec fn spec_list_hdr(p: Protocol, len: nat) -> Seq<u8>
    recommends
        len <= MAX_WIRE_LEN,
{
    match p {
        Protocol::Compact => if len < 15 {
            seq![(16 * len + CK_STRUCT) as u8]
        } else {
            seq![(0xF0u8 + CK_STRUCT) as u8] + spec_varint(len as u64)
        },
        Protocol::Binary => seq![BK_STRUCT] + spec_be32(len as u32),
    }
}

/// The byte that ends every struct.
pub open spec fn spec_stop() -> Seq<u8> {
    seq![0u8]
}

pub fn emit_i32(out: &mut Vec<u8>, p: Protocol, n: i32)
    ensures
        final(out)@ == old(out)@ + spec_enc_i32(p, n),
{
    match p {
        Protocol::Compact => emit_varint(out, zigzag32_enc(n) as u64),
        Protocol::Binary => emit_be32(out, u32_from_i32(n)),
    }
}

pub fn emit_i64(out: &mut Vec<u8>, p: Protocol, n: i64)
    ensures
        final(out)@ == old(out)@ + spec_enc_i64(p, n),
{
    match p {
        Protocol::Compact => emit_varint(out, zigzag64_enc(n)),
        Protocol::Binary => emit_be64(out, u64_from_i64(n)),
    }
}

pub fn emit_double(out: &mut Vec<u8>, p: Protocol, bits: u64)
    ensures
        final(out)@ == old(out)@ + spec_enc_double(p, bits),
{
    match p {
        Protocol::Compact => emit_le64(out, bits),
        Protocol::Binary => emit_be64(out, bits),
    }
}

pub fn emit_bytes(out: &mut Vec<u8>, p: Protocol, b: &[u8])
    requires
        b@.len() <= MAX_WIRE_LEN,
    ensures
        final(out)@ == old(out)@ + spec_enc_bytes(p, b@),
{
    match p {
        Protocol::Compact => emit_varint(out, b.len() as u64),
        Protocol::Binary => emit_be32(out, b.len() as u32),
    }
    let mut i: usize = 0;
    while i < b.len()
        invariant
            i <= b@.len(),
            b@.len() <= MAX_WIRE_LEN,
            out@ == old(out)@ + spec_enc_bytes(p, b@).take(
                spec_enc_bytes(p, b@).len() - b@.len() + i,
            ),
        decreases b@.len() - i,
    {
        out.push(b[i]);
        i = i + 1;
        assert(out@ =~= old(out)@ + spec_enc_bytes(p, b@).take(
            spec_enc_bytes(p, b@).len() - b@.len() + i,
        ));
    }
    assert(out@ =~= old(out)@ + spec_enc_bytes(p, b@));
}

pub fn emit_field_hdr(out: &mut Vec<u8>, p: Protocol, prev: u16, id: u16, ck: u8, bk: u8)
    requires
        prev < id,
        id <= prev + 15,
        ck < 16,
    ensures
        final(out)@ == old(out)@ + spec_field_hdr(p, prev, id, ck, bk),
{
    match p {
        Protocol::Compact => {
            out.push(16 * ((id - prev) as u8) + ck);
        },
        Protocol::Binary => {
            out.push(bk);
            emit_be16(out, id);
            assert(out@ =~= old(out)@ + spec_field_hdr(p, prev, id, ck, bk));
        },
    }
}

pub fn emit_list_hdr(out: &mut Vec<u8>, p: Protocol, len: usize)
    requires
        len <= MAX_WIRE_LEN,
    ensures
        final(out)@ == old(out)@ + spec_list_hdr(p, len as nat),
{
    match p {
        Protocol::Compact => {
            if len < 15 {
                out.push(16 * (len as u8) + CK_STRUCT);
            } else {
                out.push(0xF0 + CK_STRUCT);
                emit_varint(out, len as u64);
                assert(out@ =~= old(out)@ + spec_list_hdr(p, len as nat));
            }
        },
        Protocol::Binary => {
            out.push(BK_STRUCT);
            emit_be32(out, len as u32);
            assert(out@ =~= old(out)@ + spec_list_hdr(p, len as nat));
        },
    }
}

pub fn emit_stop(out: &mut Vec<u8>)
    ensures
        final(out)@ == old(out)@ + spec_stop(),
{
    out.push(0u8);
    assert(out@ =~= old(out)@ + spec_stop());
}

// ---------------------------------------------------------------------------
// Concatenation regrouping.  Exec encoders append chunk after chunk onto a
// buffer, which nests concatenations to the left around the old contents;
// the specification functions concatenate the chunks first.  These lemmas
// bridge the two shapes without unfolding any chunk.

pub proof fn lemma_add_assoc<A>(a: Seq<A>, b: Seq<A>, c: Seq<A>)
    ensures
        (a + b) + c == a + (b + c),
{
    assert((a + b) + c =~= a + (b + c));
}

pub proof fn lemma_regroup3<A>(x: Seq<A>, a: Seq<A>, b: Seq<A>, c: Seq<A>)
    ensures
        ((x + a) + b) + c == x + ((a + b) + c),
{
    assert(((x + a) + b) + c =~= x + ((a + b) + c));
}

pub proof fn lemma_regroup4<A>(x: Seq<A>, a: Seq<A>, b: Seq<A>, c: Seq<A>, d: Seq<A>)
    ensures
        (((x + a) + b) + c) + d == x + (((a + b) + c) + d),
{
    assert((((x + a) + b) + c) + d =~= x + (((a + b) + c) + d));
}

pub proof fn lemma_regroup6<A>(x: Seq<A>, a: Seq<A>, b: Seq<A>, c: Seq<A>, d: Seq<A>, e: Seq<A>, f: Seq<A>)
    ensures
        (((((x + a) + b) + c) + d) + e) + f == x + (((((a + b) + c) + d) + e) + f),
{
    assert((((((x + a) + b) + c) + d) + e) + f =~= x + (((((a + b) + c) + d) + e) + f));
}

#[verifier::rlimit(30)]
pub proof fn lemma_regroup10<A>(
    x: Seq<A>,
    a: Seq<A>,
    b: Seq<A>,
    c: Seq<A>,
    d: Seq<A>,
    e: Seq<A>,
    f: Seq<A>,
    g: Seq<A>,
    h: Seq<A>,
    i: Seq<A>,
    j: Seq<A>,
)
    ensures
        (((((((((x + a) + b) + c) + d) + e) + f) + g) + h) + i) + j == x + (((((((((a + b) + c)
            + d) + e) + f) + g) + h) + i) + j),
{
    assert((((((((((x + a) + b) + c) + d) + e) + f) + g) + h) + i) + j =~= x + (((((((((a + b)
        + c) + d) + e) + f) + g) + h) + i) + j));
}

// ---------------------------------------------------------------------------
// Encoding a sequence of items, front first, given the per-item encoding.

pub open spec fn spec_enc_seq<A>(f: spec_fn(A) -> Seq<u8>, xs: Seq<A>) -> Seq<u8>
    decreases xs.len(),
{
    if xs.len() == 0 {
        Seq::empty()
    } else {
        f(xs[0]) + spec_enc_seq(f, xs.skip(1))
    }
}

pub proof fn lemma_enc_seq_push<A>(f: spec_fn(A) -> Seq<u8>, xs: Seq<A>, x: A)
    ensures
        spec_enc_seq(f, xs.push(x)) == spec_enc_seq(f, xs) + f(x),
    decreases xs.len(),
{
    if xs.len() == 0 {
        assert(xs.push(x)[0] == x);
        assert(xs.push(x).skip(1) =~= Seq::<A>::empty());
        assert(spec_enc_seq(f, xs.push(x)) == f(x) + spec_enc_seq(f, xs.push(x).skip(1)));
        assert(spec_enc_seq(f, xs.push(x).skip(1)) == Seq::<u8>::empty());
        assert(spec_enc_seq(f, xs) == Seq::<u8>::empty());
        assert(f(x) + Seq::<u8>::empty() =~= Seq::<u8>::empty() + f(x));
    } else {
        assert(xs.push(x)[0] == xs[0]);
        assert(xs.push(x).skip(1) =~= xs.skip(1).push(x));
        lemma_enc_seq_push(f, xs.skip(1), x);
        assert(spec_enc_seq(f, xs.push(x)) == f(xs[0]) + spec_enc_seq(f, xs.skip(1).push(x)));
        assert(spec_enc_seq(f, xs.skip(1).push(x)) == spec_enc_seq(f, xs.skip(1)) + f(x));
        assert(f(xs[0]) + (spec_enc_seq(f, xs.skip(1)) + f(x)) =~= (f(xs[0]) + spec_enc_seq(
            f,
            xs.skip(1),
        )) + f(x));
        assert(spec_enc_seq(f, xs) == f(xs[0]) + spec_enc_seq(f, xs.skip(1)));
    }
}

} // verus!
