//! Primitive wire encoders and decoders for the AgentX byte format: unsigned
//! integers in either byte order, length-prefixed padded octet strings, and
//! object identifiers with prefix compression on the wire.
//!
//! Every decoder's contract is its spec parser (`sp_*`): the exec function
//! returns exactly what the spec parser says, on every input. Encoders state
//! the bytes they emit; `lemma_*_rt` prove that parsing what was emitted
//! yields the original value.

use vstd::prelude::*;

verus! {

/// Why decoding failed.
#[derive(Clone, Copy, Debug, PartialEq, Eq, Structural)]
pub enum CodecError {
    /// The input ended before a required field was complete.
    ShortRead,
    /// A structural violation: a bad length, an oversized OID, an unknown
    /// type or PDU code.
    Malformed,
    /// The header's version byte is not 1.
    UnsupportedVersion,
}

/// How `r`, an exec parse result with a `usize` cursor, relates to a spec
/// parser's result.
pub open spec fn res_matches<T>(
    r: Result<(T, usize), CodecError>,
    s: Result<(T, int), CodecError>,
) -> bool {
    match r {
        Ok(a) => s matches Ok(b) && a.0 == b.0 && a.1 as int == b.1,
        Err(e) => s matches Err(e2) && e == e2,
    }
}

/// Big-endian bytes of a 16-bit integer.
pub open spec fn spec_u16(x: u16) -> Seq<u8> {
    seq![((x as int) / 256) as u8, ((x as int) % 256) as u8]
}

/// Big-endian bytes of a 32-bit integer.
pub open spec fn spec_u32(x: u32) -> Seq<u8> {
    seq![
        ((x as int) / 0x1000000) as u8,
        (((x as int) / 0x10000) % 256) as u8,
        (((x as int) / 256) % 256) as u8,
        ((x as int) % 256) as u8,
    ]
}

/// Big-endian bytes of a 64-bit integer.
pub open spec fn spec_u64(x: u64) -> Seq<u8> {
    seq![
        ((x as int) / 0x100000000000000) as u8,
        (((x as int) / 0x1000000000000) % 256) as u8,
        (((x as int) / 0x10000000000) % 256) as u8,
        (((x as int) / 0x100000000) % 256) as u8,
        (((x as int) / 0x1000000) % 256) as u8,
        (((x as int) / 0x10000) % 256) as u8,
        (((x as int) / 256) % 256) as u8,
        ((x as int) % 256) as u8,
    ]
}

/// The 16-bit integer with the given big-endian bytes.
pub open spec fn word16(b0: u8, b1: u8) -> u16 {
    ((b0 as int) * 256 + (b1 as int)) as u16
}

/// The 32-bit integer with the given big-endian bytes.
pub open spec fn word32(b0: u8, b1: u8, b2: u8, b3: u8) -> u32 {
    ((b0 as int) * 0x1000000 + (b1 as int) * 0x10000 + (b2 as int) * 256
        + (b3 as int)) as u32
}

/// The 64-bit integer with the given big-endian bytes.
pub open spec fn word64(b0: u8, b1: u8, b2: u8, b3: u8, b4: u8, b5: u8, b6: u8, b7: u8) -> u64 {
    ((b0 as int) * 0x100000000000000 + (b1 as int) * 0x1000000000000
        + (b2 as int) * 0x10000000000 + (b3 as int) * 0x100000000
        + (b4 as int) * 0x1000000 + (b5 as int) * 0x10000 + (b6 as int) * 256
        + (b7 as int)) as u64
}

/// Reads a 16-bit integer at `pos` in the byte order named by `be`.
pub open spec fn sp_u16(b: Seq<u8>, pos: int, be: bool) -> Result<(u16, int), CodecError> {
    if 0 <= pos && pos + 2 <= b.len() {
        if be {
            Ok((word16(b[pos], b[pos + 1]), pos + 2))
        } else {
            Ok((word16(b[pos + 1], b[pos]), pos + 2))
        }
    } else {
        Err(CodecError::ShortRead)
    }
}

/// Reads a 32-bit integer at `pos` in the byte order named by `be`.
pub open spec fn sp_u32(b: Seq<u8>, pos: int, be: bool) -> Result<(u32, int), CodecError> {
    if 0 <= pos && pos + 4 <= b.len() {
        if be {
            Ok((word32(b[pos], b[pos + 1], b[pos + 2], b[pos + 3]), pos + 4))
        } else {
            Ok((word32(b[pos + 3], b[pos + 2], b[pos + 1], b[pos]), pos + 4))
        }
    } else {
        Err(CodecError::ShortRead)
    }
}

/// Reads a 64-bit integer at `pos` in the byte order named by `be`.
pub open spec fn sp_u64(b: Seq<u8>, pos: int, be: bool) -> Result<(u64, int), CodecError> {
    if 0 <= pos && pos + 8 <= b.len() {
        if be {
            Ok((word64(b[pos], b[pos + 1], b[pos + 2], b[pos + 3], b[pos + 4], b[pos + 5],
                b[pos + 6], b[pos + 7]), pos + 8))
        } else {
            Ok((word64(b[pos + 7], b[pos + 6], b[pos + 5], b[pos + 4], b[pos + 3], b[pos + 2],
                b[pos + 1], b[pos]), pos + 8))
        }
    } else {
        Err(CodecError::ShortRead)
    }
}

/// Reading big-endian bytes of `x` gives `x` back.
pub proof fn lemma_u16_rt(x: u16)
    ensures
        word16(spec_u16(x)[0], spec_u16(x)[1]) == x,
{
    assert(word16(spec_u16(x)[0], spec_u16(x)[1]) == x) by {
        assert((x as int) / 256 < 256);
        assert((x as int) == ((x as int) / 256) * 256 + (x as int) % 256);
    }
}

/// Reading big-endian bytes of `x` gives `x` back.
pub proof fn lemma_u32_rt(x: u32)
    ensures
        word32(spec_u32(x)[0], spec_u32(x)[1], spec_u32(x)[2], spec_u32(x)[3]) == x,
{
    let n = x as int;
    assert(n / 0x1000000 < 256);
    assert(n == (n / 0x1000000) * 0x1000000 + ((n / 0x10000) % 256) * 0x10000
        + ((n / 256) % 256) * 256 + n % 256) by (nonlinear_arith)
        requires n == x as int && 0 <= n < 0x100000000
    {
    }
}

/// Reading big-endian bytes of `x` gives `x` back.
pub proof fn lemma_u64_rt(x: u64)
    ensures
        word64(spec_u64(x)[0], spec_u64(x)[1], spec_u64(x)[2], spec_u64(x)[3], spec_u64(x)[4],
            spec_u64(x)[5], spec_u64(x)[6], spec_u64(x)[7]) == x,
{
    let n = x as int;
    vstd::arithmetic::div_mod::lemma_div_denominator(n, 256, 256);
    vstd::arithmetic::div_mod::lemma_div_denominator(n, 0x10000, 256);
    vstd::arithmetic::div_mod::lemma_div_denominator(n, 0x1000000, 256);
    vstd::arithmetic::div_mod::lemma_div_denominator(n, 0x100000000, 256);
    vstd::arithmetic::div_mod::lemma_div_denominator(n, 0x10000000000, 256);
    vstd::arithmetic::div_mod::lemma_div_denominator(n, 0x1000000000000, 256);
    assert(n == (n / 256) * 256 + n % 256);
    assert(n / 256 == ((n / 256) / 256) * 256 + (n / 256) % 256);
    assert(n / 0x10000 == ((n / 0x10000) / 256) * 256 + (n / 0x10000) % 256);
    assert(n / 0x1000000 == ((n / 0x1000000) / 256) * 256 + (n / 0x1000000) % 256);
    assert(n / 0x100000000 == ((n / 0x100000000) / 256) * 256 + (n / 0x100000000) % 256);
    assert(n / 0x10000000000 == ((n / 0x10000000000) / 256) * 256
        + (n / 0x10000000000) % 256);
    assert(n / 0x1000000000000 == ((n / 0x1000000000000) / 256) * 256
        + (n / 0x1000000000000) % 256);
    assert(n / 0x100000000000000 < 256);
}

/// Appends the big-endian bytes of `x`.
pub fn put_u16(out: &mut Vec<u8>, x: u16)
    ensures
        final(out)@ == old(out)@ + spec_u16(x),
{
    out.push((x / 256) as u8);
    out.push((x % 256) as u8);
    proof {
        assert(final(out)@ =~= old(out)@ + spec_u16(x));
    }
}

/// Appends the big-endian bytes of `x`.
pub fn put_u32(out: &mut Vec<u8>, x: u32)
    ensures
        final(out)@ == old(out)@ + spec_u32(x),
{
    out.push((x / 0x1000000) as u8);
    out.push(((x / 0x10000) % 256) as u8);
    out.push(((x / 256) % 256) as u8);
    out.push((x % 256) as u8);
    proof {
        assert(final(out)@ =~= old(out)@ + spec_u32(x));
    }
}

/// Appends the big-endian bytes of `x`.
pub fn put_u64(out: &mut Vec<u8>, x: u64)
    ensures
        final(out)@ == old(out)@ + spec_u64(x),
{
    out.push((x / 0x100000000000000) as u8);
    out.push(((x / 0x1000000000000) % 256) as u8);
    out.push(((x / 0x10000000000) % 256) as u8);
    out.push(((x / 0x100000000) % 256) as u8);
    out.push(((x / 0x1000000) % 256) as u8);
    out.push(((x / 0x10000) % 256) as u8);
    out.push(((x / 256) % 256) as u8);
    out.push((x % 256) as u8);
    proof {
        assert(final(out)@ =~= old(out)@ + spec_u64(x));
    }
}

/// Reads a 16-bit integer; `be` names the byte order.
pub fn get_u16(buf: &[u8], pos: usize, be: bool) -> (r: Result<(u16, usize), CodecError>)
    ensures
        res_matches(r, sp_u16(buf@, pos as int, be)),
{
    if pos <= buf.len() && buf.len() - pos >= 2 {
        let b0 = buf[pos];
        let b1 = buf[pos + 1];
        if be {
            Ok(((b0 as u16) * 256 + (b1 as u16), pos + 2))
        } else {
            Ok(((b1 as u16) * 256 + (b0 as u16), pos + 2))
        }
    } else {
        Err(CodecError::ShortRead)
    }
}

/// Reads a 32-bit integer; `be` names the byte order.
pub fn get_u32(buf: &[u8], pos: usize, be: bool) -> (r: Result<(u32, usize), CodecError>)
    ensures
        res_matches(r, sp_u32(buf@, pos as int, be)),
{
    if pos <= buf.len() && buf.len() - pos >= 4 {
        let b0 = buf[pos];
        let b1 = buf[pos + 1];
        let b2 = buf[pos + 2];
        let b3 = buf[pos + 3];
        let w = if be {
            (b0 as u32) * 0x1000000 + (b1 as u32) * 0x10000 + (b2 as u32) * 256 + (b3 as u32)
        } else {
            (b3 as u32) * 0x1000000 + (b2 as u32) * 0x10000 + (b1 as u32) * 256 + (b0 as u32)
        };
        Ok((w, pos + 4))
    } else {
        Err(CodecError::ShortRead)
    }
}

/// Reads a 64-bit integer; `be` names the byte order.
pub fn get_u64(buf: &[u8], pos: usize, be: bool) -> (r: Result<(u64, usize), CodecError>)
    ensures
        res_matches(r, sp_u64(buf@, pos as int, be)),
{
    if pos <= buf.len() && buf.len() - pos >= 8 {
        let b0 = buf[pos];
        let b1 = buf[pos + 1];
        let b2 = buf[pos + 2];
        let b3 = buf[pos + 3];
        let b4 = buf[pos + 4];
        let b5 = buf[pos + 5];
        let b6 = buf[pos + 6];
        let b7 = buf[pos + 7];
        let w = if be {
            (b0 as u64) * 0x100000000000000 + (b1 as u64) * 0x1000000000000
                + (b2 as u64) * 0x10000000000 + (b3 as u64) * 0x100000000
                + (b4 as u64) * 0x1000000 + (b5 as u64) * 0x10000 + (b6 as u64) * 256
                + (b7 as u64)
        } else {
            (b7 as u64) * 0x100000000000000 + (b6 as u64) * 0x1000000000000
                + (b5 as u64) * 0x10000000000 + (b4 as u64) * 0x100000000
                + (b3 as u64) * 0x1000000 + (b2 as u64) * 0x10000 + (b1 as u64) * 256
                + (b0 as u64)
        };
        Ok((w, pos + 8))
    } else {
        Err(CodecError::ShortRead)
    }
}


/// Bytes of padding that bring `n` up to a multiple of four.
pub open spec fn pad_len(n: int) -> int {
    (4 - n % 4) % 4
}

/// `n` zero bytes.
pub open spec fn zeros(n: int) -> Seq<u8> {
    Seq::new(n as nat, |i: int| 0u8)
}

/// The wire form of an octet string: length, bytes, zero padding to a
/// four-byte boundary.
pub open spec fn spec_octets(b: Seq<u8>) -> Seq<u8> {
    spec_u32(b.len() as u32) + b + zeros(pad_len(b.len() as int))
}

/// Reads an octet string at `pos`: fails with `ShortRead` when the length
/// prefix is missing and with `Malformed` when the advertised length (with
/// its padding) overruns the input.
pub open spec fn sp_octets(b: Seq<u8>, pos: int, be: bool) -> Result<(Seq<u8>, int), CodecError> {
    match sp_u32(b, pos, be) {
        Err(e) => Err(e),
        Ok((n, p)) => if p + n + pad_len(n as int) <= b.len() {
            Ok((b.subrange(p, p + n), p + n + pad_len(n as int)))
        } else {
            Err(CodecError::Malformed)
        },
    }
}

/// The value of the four bytes at `pos` in the byte order named by `be`.
pub open spec fn read_u32_at(b: Seq<u8>, pos: int, be: bool) -> u32 {
    if be {
        word32(b[pos], b[pos + 1], b[pos + 2], b[pos + 3])
    } else {
        word32(b[pos + 3], b[pos + 2], b[pos + 1], b[pos])
    }
}

/// The concatenated big-endian encodings of a list of sub-identifiers.
pub open spec fn spec_subids(parts: Seq<u32>) -> Seq<u8>
    decreases parts.len(),
{
    if parts.len() == 0 {
        Seq::empty()
    } else {
        spec_u32(parts[0]) + spec_subids(parts.drop_first())
    }
}

/// `count` 32-bit integers starting at `pos`; the caller has bounds-checked.
pub open spec fn sp_subids(b: Seq<u8>, pos: int, count: int, be: bool) -> Seq<u32>
    decreases count,
{
    if count <= 0 {
        Seq::empty()
    } else {
        seq![read_u32_at(b, pos, be)] + sp_subids(b, pos + 4, count - 1, be)
    }
}

/// The wire form of an OID as this library emits it: a four-byte header with
/// no prefix compression, then one 32-bit word per sub-identifier.
pub open spec fn spec_oid_wire(parts: Seq<u32>, incl: bool) -> Seq<u8> {
    seq![parts.len() as u8, 0u8, (if incl { 1u8 } else { 0u8 }), 0u8] + spec_subids(parts)
}

/// Reads an OID at `pos`. A missing four-byte header is a `ShortRead`; more
/// than 128 sub-identifiers, a prefix expansion past 128, or a truncated
/// sub-identifier is `Malformed`. A non-zero `prefix` byte abbreviates the
/// leading `1.3.6.1.prefix`.
pub open spec fn sp_oid(b: Seq<u8>, pos: int, be: bool) -> Result<((Seq<u32>, bool), int),
    CodecError> {
    if !(0 <= pos && pos + 4 <= b.len()) {
        Err(CodecError::ShortRead)
    } else {
        let n_subid = b[pos] as int;
        let prefix = b[pos + 1];
        let incl = b[pos + 2] != 0;
        let total = if prefix != 0 { n_subid + 5 } else { n_subid };
        if n_subid > 128 || total > 128 {
            Err(CodecError::Malformed)
        } else if pos + 4 + 4 * n_subid > b.len() {
            Err(CodecError::Malformed)
        } else {
            let subids = sp_subids(b, pos + 4, n_subid, be);
            let parts = if prefix != 0 {
                seq![1u32, 3u32, 6u32, 1u32, prefix as u32] + subids
            } else {
                subids
            };
            Ok(((parts, incl), pos + 4 + 4 * n_subid))
        }
    }
}

/// A 16-bit word read from where `x`'s encoding was placed reads back as `x`.
pub proof fn lemma_u16_at(full: Seq<u8>, pos: int, x: u16)
    requires
        0 <= pos,
        pos + 2 <= full.len(),
        full.subrange(pos, pos + 2) == spec_u16(x),
    ensures
        sp_u16(full, pos, true) == Ok::<_, CodecError>((x, pos + 2)),
{
    assert(full[pos] == spec_u16(x)[0]);
    assert(full[pos + 1] == spec_u16(x)[1]);
    lemma_u16_rt(x);
}

/// A 32-bit word read from where `x`'s encoding was placed reads back as `x`.
pub proof fn lemma_u32_at(full: Seq<u8>, pos: int, x: u32)
    requires
        0 <= pos,
        pos + 4 <= full.len(),
        full.subrange(pos, pos + 4) == spec_u32(x),
    ensures
        sp_u32(full, pos, true) == Ok::<_, CodecError>((x, pos + 4)),
        read_u32_at(full, pos, true) == x,
{
    assert(full[pos] == spec_u32(x)[0]);
    assert(full[pos + 1] == spec_u32(x)[1]);
    assert(full[pos + 2] == spec_u32(x)[2]);
    assert(full[pos + 3] == spec_u32(x)[3]);
    lemma_u32_rt(x);
}

/// A 64-bit word read from where `x`'s encoding was placed reads back as `x`.
pub proof fn lemma_u64_at(full: Seq<u8>, pos: int, x: u64)
    requires
        0 <= pos,
        pos + 8 <= full.len(),
        full.subrange(pos, pos + 8) == spec_u64(x),
    ensures
        sp_u64(full, pos, true) == Ok::<_, CodecError>((x, pos + 8)),
{
    assert(full[pos] == spec_u64(x)[0]);
    assert(full[pos + 1] == spec_u64(x)[1]);
    assert(full[pos + 2] == spec_u64(x)[2]);
    assert(full[pos + 3] == spec_u64(x)[3]);
    assert(full[pos + 4] == spec_u64(x)[4]);
    assert(full[pos + 5] == spec_u64(x)[5]);
    assert(full[pos + 6] == spec_u64(x)[6]);
    assert(full[pos + 7] == spec_u64(x)[7]);
    lemma_u64_rt(x);
}

/// An octet string read from where `b`'s encoding was placed reads back as
/// `b`.
pub proof fn lemma_octets_at(full: Seq<u8>, pos: int, b: Seq<u8>)
    requires
        0 <= pos,
        b.len() <= 0xFFFF_FFFF,
        pos + spec_octets(b).len() <= full.len(),
        full.subrange(pos, pos + spec_octets(b).len()) == spec_octets(b),
    ensures
        sp_octets(full, pos, true) == Ok::<_, CodecError>((b, pos + spec_octets(b).len())),
{
    let w = spec_octets(b);
    let n = b.len() as int;
    assert(w.len() == 4 + n + pad_len(n));
    assert(full.subrange(pos, pos + 4) =~= spec_u32(b.len() as u32)) by {
        assert(full.subrange(pos, pos + 4)
            =~= full.subrange(pos, pos + w.len() as int).subrange(0, 4));
        assert(w.subrange(0, 4) =~= spec_u32(b.len() as u32));
    }
    lemma_u32_at(full, pos, b.len() as u32);
    assert(b.len() as u32 as int == n);
    assert(full.subrange(pos + 4, pos + 4 + n) =~= b) by {
        assert(full.subrange(pos + 4, pos + 4 + n)
            =~= full.subrange(pos, pos + w.len() as int).subrange(4, 4 + n));
        assert(w.subrange(4, 4 + n) =~= b);
    }
}

proof fn lemma_subids_at(full: Seq<u8>, pos: int, parts: Seq<u32>)
    requires
        0 <= pos,
        pos + 4 * parts.len() <= full.len(),
        full.subrange(pos, pos + 4 * parts.len()) == spec_subids(parts),
    ensures
        sp_subids(full, pos, parts.len() as int, true) == parts,
    decreases parts.len(),
{
    if parts.len() > 0 {
        let w = spec_subids(parts);
        assert(w == spec_u32(parts[0]) + spec_subids(parts.drop_first()));
        lemma_spec_subids_len(parts.drop_first());
        assert(w.len() == 4 * parts.len());
        assert(full.subrange(pos, pos + 4) =~= spec_u32(parts[0])) by {
            assert(full.subrange(pos, pos + 4)
                =~= full.subrange(pos, pos + w.len() as int).subrange(0, 4));
            assert(w.subrange(0, 4) =~= spec_u32(parts[0]));
        }
        lemma_u32_at(full, pos, parts[0]);
        assert(full.subrange(pos + 4, pos + 4 + 4 * (parts.len() - 1))
            =~= spec_subids(parts.drop_first())) by {
            assert(full.subrange(pos + 4, pos + 4 + 4 * (parts.len() - 1))
                =~= full.subrange(pos, pos + w.len() as int).subrange(4,
                    w.len() as int));
            assert(w.subrange(4, w.len() as int) =~= spec_subids(parts.drop_first()));
        }
        lemma_subids_at(full, pos + 4, parts.drop_first());
        assert(sp_subids(full, pos, parts.len() as int, true)
            =~= seq![read_u32_at(full, pos, true)] + sp_subids(full, pos + 4,
                parts.len() as int - 1, true));
        assert(seq![parts[0]] + parts.drop_first() =~= parts);
    }
}

/// The encoding of `count` sub-identifiers takes four bytes each.
pub proof fn lemma_spec_subids_len(parts: Seq<u32>)
    ensures
        spec_subids(parts).len() == 4 * parts.len(),
    decreases parts.len(),
{
    if parts.len() > 0 {
        lemma_spec_subids_len(parts.drop_first());
    }
}

/// An OID read from where its encoding was placed reads back unchanged.
pub proof fn lemma_oid_at(full: Seq<u8>, pos: int, parts: Seq<u32>, incl: bool)
    requires
        0 <= pos,
        parts.len() <= 128,
        pos + spec_oid_wire(parts, incl).len() <= full.len(),
        full.subrange(pos, pos + spec_oid_wire(parts, incl).len())
            == spec_oid_wire(parts, incl),
    ensures
        sp_oid(full, pos, true) == Ok::<_, CodecError>(((parts, incl),
            pos + spec_oid_wire(parts, incl).len())),
{
    let w = spec_oid_wire(parts, incl);
    lemma_spec_subids_len(parts);
    assert(w.len() == 4 + 4 * parts.len());
    assert(full[pos] == w[0] && full[pos + 1] == w[1] && full[pos + 2] == w[2]) by {
        assert(full.subrange(pos, pos + w.len() as int)[0] == w[0]);
        assert(full.subrange(pos, pos + w.len() as int)[1] == w[1]);
        assert(full.subrange(pos, pos + w.len() as int)[2] == w[2]);
    }
    assert(full[pos] == parts.len() as u8);
    assert(full[pos] as int == parts.len());
    assert(full[pos + 1] == 0u8);
    assert(full.subrange(pos + 4, pos + 4 + 4 * parts.len()) =~= spec_subids(parts)) by {
        assert(full.subrange(pos + 4, pos + 4 + 4 * parts.len())
            =~= full.subrange(pos, pos + w.len() as int).subrange(4, w.len() as int));
        assert(w.subrange(4, w.len() as int) =~= spec_subids(parts));
    }
    lemma_subids_at(full, pos + 4, parts);
    if incl {
        assert(full[pos + 2] == 1u8);
    } else {
        assert(full[pos + 2] == 0u8);
    }
}

/// Appends the octet-string wire form of `data`.
pub fn put_octets(out: &mut Vec<u8>, data: &[u8])
    requires
        data@.len() <= 0xFFFF_FFFF,
    ensures
        final(out)@ == old(out)@ + spec_octets(data@),
{
    put_u32(out, data.len() as u32);
    let ghost mid0 = out@;
    let mut i: usize = 0;
    while i < data.len()
        invariant
            0 <= i <= data@.len(),
            out@ == mid0 + data@.take(i as int),
        decreases data@.len() - i,
    {
        out.push(data[i]);
        assert(out@ =~= mid0 + data@.take(i + 1));
        i += 1;
    }
    assert(out@ =~= mid0 + data@);
    let ghost mid1 = out@;
    let pad = (4 - (data.len() % 4)) % 4;
    let mut j: usize = 0;
    while j < pad
        invariant
            0 <= j <= pad,
            pad == pad_len(data@.len() as int),
            out@ == mid1 + zeros(j as int),
        decreases pad - j,
    {
        out.push(0u8);
        assert(out@ =~= mid1 + zeros(j + 1));
        j += 1;
    }
    assert(out@ =~= old(out)@ + spec_octets(data@));
}

/// Reads an octet string; see [`sp_octets`] for the exact behaviour.
pub fn get_octets(buf: &[u8], pos: usize, be: bool) -> (r: Result<(Vec<u8>, usize), CodecError>)
    ensures
        match r {
            Ok(a) => sp_octets(buf@, pos as int, be) matches Ok(b) && a.0@ == b.0
                && a.1 as int == b.1,
            Err(e) => sp_octets(buf@, pos as int, be) matches Err(e2) && e == e2,
        },
{
    let (n, p) = match get_u32(buf, pos, be) {
        Ok(v) => v,
        Err(e) => {
            return Err(e);
        }
    };
    let n = n as usize;
    let pad = (4 - (n % 4)) % 4;
    if n > buf.len() || p > buf.len() - n || pad > buf.len() - n - p {
        return Err(CodecError::Malformed);
    }
    let mut data: Vec<u8> = Vec::new();
    let end = p + n;
    assert(end <= buf@.len());
    let mut k: usize = p;
    while k < end
        invariant
            p <= k <= end,
            end <= buf@.len(),
            data@ == buf@.subrange(p as int, k as int),
        decreases end - k,
    {
        data.push(buf[k]);
        assert(data@ =~= buf@.subrange(p as int, k as int + 1));
        k += 1;
    }
    Ok((data, p + n + pad))
}

/// Appends the OID wire form of `parts` (no prefix compression), with the
/// incl byte used inside search ranges.
pub fn put_oid(out: &mut Vec<u8>, parts: &[u32], incl: bool)
    requires
        parts@.len() <= 128,
    ensures
        final(out)@ == old(out)@ + spec_oid_wire(parts@, incl),
{
    out.push(parts.len() as u8);
    out.push(0u8);
    out.push(if incl { 1u8 } else { 0u8 });
    out.push(0u8);
    let ghost mid0 = out@;
    let mut i: usize = 0;
    while i < parts.len()
        invariant
            0 <= i <= parts@.len(),
            out@ == mid0 + spec_subids(parts@.take(i as int)),
        decreases parts@.len() - i,
    {
        let ghost pre = out@;
        put_u32(out, parts[i]);
        proof {
            lemma_subids_snoc(parts@, i as int);
            assert(out@ =~= mid0 + (spec_subids(parts@.take(i as int))
                + spec_u32(parts@[i as int])));
        }
        i += 1;
    }
    proof {
        assert(parts@.take(parts@.len() as int) =~= parts@);
        assert(out@ =~= old(out)@ + spec_oid_wire(parts@, incl));
    }
}

proof fn lemma_subids_snoc(parts: Seq<u32>, i: int)
    requires
        0 <= i < parts.len(),
    ensures
        spec_subids(parts.take(i + 1)) =~= spec_subids(parts.take(i)) + spec_u32(parts[i]),
    decreases i,
{
    if i == 0 {
        assert(parts.take(0) =~= Seq::<u32>::empty());
        assert(parts.take(1)[0] == parts[0]);
        assert(parts.take(1).drop_first() =~= Seq::<u32>::empty());
        assert(spec_subids(Seq::<u32>::empty()) == Seq::<u8>::empty());
    } else {
        lemma_subids_snoc(parts.drop_first(), i - 1);
        assert(parts.take(i + 1)[0] == parts[0]);
        assert(parts.take(i)[0] == parts[0]);
        assert(parts.take(i + 1).drop_first() =~= parts.drop_first().take(i));
        assert(parts.take(i).drop_first() =~= parts.drop_first().take(i - 1));
        assert(parts.drop_first()[i - 1] == parts[i]);
    }
}

/// Reads an OID; see [`sp_oid`] for the exact behaviour.
pub fn get_oid(buf: &[u8], pos: usize, be: bool) -> (r: Result<((Vec<u32>, bool), usize),
    CodecError>)
    ensures
        match r {
            Ok(a) => sp_oid(buf@, pos as int, be) matches Ok(b) && a.0.0@ == b.0.0
                && a.0.1 == b.0.1 && a.1 as int == b.1,
            Err(e) => sp_oid(buf@, pos as int, be) matches Err(e2) && e == e2,
        },
{
    if pos > buf.len() || buf.len() - pos < 4 {
        return Err(CodecError::ShortRead);
    }
    let n_subid = buf[pos] as usize;
    let prefix = buf[pos + 1];
    let incl = buf[pos + 2] != 0;
    let total = if prefix != 0 { n_subid + 5 } else { n_subid };
    if n_subid > 128 || total > 128 {
        return Err(CodecError::Malformed);
    }
    if 4 * n_subid > buf.len() - pos - 4 {
        return Err(CodecError::Malformed);
    }
    let mut parts: Vec<u32> = Vec::new();
    if prefix != 0 {
        parts.push(1);
        parts.push(3);
        parts.push(6);
        parts.push(1);
        parts.push(prefix as u32);
    }
    let ghost head = parts@;
    let mut i: usize = 0;
    let mut p = pos + 4;
    while i < n_subid
        invariant
            0 <= i <= n_subid,
            p == pos + 4 + 4 * i,
            pos + 4 + 4 * n_subid <= buf@.len(),
            parts@ == head + sp_subids(buf@, pos as int + 4, i as int, be),
        decreases n_subid - i,
    {
        let w = match get_u32(buf, p, be) {
            Ok(v) => v.0,
            Err(_) => {
                proof {
                    assert(false);
                }
                return Err(CodecError::Malformed);
            }
        };
        parts.push(w);
        proof {
            lemma_sp_subids_snoc(buf@, pos as int + 4, i as int, be);
            assert(parts@ =~= head + (sp_subids(buf@, pos as int + 4, i as int, be)
                + seq![read_u32_at(buf@, pos as int + 4 + 4 * i, be)]));
        }
        p = p + 4;
        i += 1;
    }
    proof {
        if prefix != 0 {
            assert(parts@ =~= seq![1u32, 3u32, 6u32, 1u32, prefix as u32]
                + sp_subids(buf@, pos as int + 4, n_subid as int, be));
        } else {
            assert(head =~= Seq::<u32>::empty());
            assert(parts@ =~= sp_subids(buf@, pos as int + 4, n_subid as int, be));
        }
    }
    Ok(((parts, incl), p))
}

proof fn lemma_sp_subids_snoc(b: Seq<u8>, pos: int, i: int, be: bool)
    requires
        0 <= i,
    ensures
        sp_subids(b, pos, i + 1, be) =~= sp_subids(b, pos, i, be)
            + seq![read_u32_at(b, pos + 4 * i, be)],
    decreases i,
{
    if i == 0 {
        assert(sp_subids(b, pos + 4, 0, be) == Seq::<u32>::empty());
        assert(sp_subids(b, pos, 0, be) == Seq::<u32>::empty());
    } else {
        lemma_sp_subids_snoc(b, pos + 4, i - 1, be);
    }
}


/// The two halves of a concatenation are its subranges.
pub proof fn lemma_concat_sub(a: Seq<u8>, b: Seq<u8>)
    ensures
        (a + b).subrange(0, a.len() as int) == a,
        (a + b).subrange(a.len() as int, (a + b).len() as int) == b,
{
    assert((a + b).subrange(0, a.len() as int) =~= a);
    assert((a + b).subrange(a.len() as int, (a + b).len() as int) =~= b);
}

} // verus!
