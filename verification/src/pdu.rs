//! Variable bindings, search ranges, and the typed-value codec.
//!
//! Decoded payloads are described by flat spec data: a parsed value is a
//! `WireVal` of (type code, numeric payload, byte payload, OID payload), and
//! `value_matches` says when an executable [`Value`] carries that data.

use vstd::prelude::*;

use crate::codec::{
    spec_u16, spec_u32, spec_u64, sp_u16, sp_u32, sp_u64, spec_octets, sp_octets,
    spec_oid_wire, sp_oid, CodecError, put_u16, put_u32, put_u64, put_octets, put_oid,
    get_u16, get_u32, get_u64, get_octets, get_oid, lemma_u16_at, lemma_u32_at, lemma_u64_at,
    lemma_octets_at, lemma_oid_at, lemma_spec_subids_len, pad_len,
};
use crate::oid::Oid;
use crate::types::Value;

verus! {

/// Flat spec data of one parsed value: type code, numeric payload, byte
/// payload, OID payload. Only the field the code calls for is meaningful.
pub type WireVal = (u16, u64, Seq<u8>, Seq<u32>);

/// The executable value `v` carries the parsed data `m`.
pub open spec fn value_matches(v: Value, m: WireVal) -> bool {
    match v {
        Value::Integer(x) => m.0 == 2 && m.1 == (x as u32) as u64,
        Value::OctetString(b) => m.0 == 4 && m.2 == b@,
        Value::Null => m.0 == 5,
        Value::ObjectIdentifier(o) => m.0 == 6 && m.3 == o@,
        Value::IpAddress(a) => m.0 == 64 && m.2 == a@,
        Value::Counter32(x) => m.0 == 65 && m.1 == x as u64,
        Value::Gauge32(x) => m.0 == 66 && m.1 == x as u64,
        Value::TimeTicks(x) => m.0 == 67 && m.1 == x as u64,
        Value::Opaque(b) => m.0 == 68 && m.2 == b@,
        Value::Counter64(x) => m.0 == 70 && m.1 == x,
        Value::NoSuchObject => m.0 == 128,
        Value::NoSuchInstance => m.0 == 129,
        Value::EndOfMibView => m.0 == 130,
    }
}

/// The value's payload bytes, as the encoder emits them (big-endian).
pub open spec fn spec_value_payload(v: Value) -> Seq<u8> {
    match v {
        Value::Integer(x) => spec_u32(x as u32),
        Value::OctetString(b) => spec_octets(b@),
        Value::Null => Seq::empty(),
        Value::ObjectIdentifier(o) => spec_oid_wire(o@, false),
        Value::IpAddress(a) => spec_octets(a@),
        Value::Counter32(x) => spec_u32(x),
        Value::Gauge32(x) => spec_u32(x),
        Value::TimeTicks(x) => spec_u32(x),
        Value::Opaque(b) => spec_octets(b@),
        Value::Counter64(x) => spec_u64(x),
        Value::NoSuchObject => Seq::empty(),
        Value::NoSuchInstance => Seq::empty(),
        Value::EndOfMibView => Seq::empty(),
    }
}

/// The value fits on the wire: byte payloads fit a 32-bit length and OIDs
/// hold 1 to 128 sub-identifiers.
pub open spec fn value_wire_ok(v: Value) -> bool {
    match v {
        Value::OctetString(b) => b@.len() <= 0xFFFF_FFFF,
        Value::Opaque(b) => b@.len() <= 0xFFFF_FFFF,
        Value::ObjectIdentifier(o) => 1 <= o@.len() <= 128,
        _ => true,
    }
}

/// Reads the payload of a value with type code `code` at `pos`. An unknown
/// code is `Malformed`; an IpAddress whose octet string is not 4 bytes, or
/// an empty OID, is `Malformed` too.
pub open spec fn sp_value(b: Seq<u8>, pos: int, be: bool, code: u16) -> Result<(WireVal, int),
    CodecError> {
    if code == 2 || code == 65 || code == 66 || code == 67 {
        match sp_u32(b, pos, be) {
            Ok((w, p)) => Ok(((code, w as u64, Seq::empty(), Seq::empty()), p)),
            Err(e) => Err(e),
        }
    } else if code == 4 || code == 68 {
        match sp_octets(b, pos, be) {
            Ok((d, p)) => Ok(((code, 0, d, Seq::empty()), p)),
            Err(e) => Err(e),
        }
    } else if code == 64 {
        match sp_octets(b, pos, be) {
            Ok((d, p)) => if d.len() == 4 {
                Ok(((64, 0, d, Seq::empty()), p))
            } else {
                Err(CodecError::Malformed)
            },
            Err(e) => Err(e),
        }
    } else if code == 5 || code == 128 || code == 129 || code == 130 {
        if 0 <= pos <= b.len() {
            Ok(((code, 0, Seq::empty(), Seq::empty()), pos))
        } else {
            Err(CodecError::ShortRead)
        }
    } else if code == 6 {
        match sp_oid(b, pos, be) {
            Ok(((parts, _), p)) => if parts.len() == 0 {
                Err(CodecError::Malformed)
            } else {
                Ok(((6, 0, Seq::empty(), parts), p))
            },
            Err(e) => Err(e),
        }
    } else if code == 70 {
        match sp_u64(b, pos, be) {
            Ok((w, p)) => Ok(((70, w, Seq::empty(), Seq::empty()), p)),
            Err(e) => Err(e),
        }
    } else {
        Err(CodecError::Malformed)
    }
}

/// A successful value parse stays inside the buffer.
pub proof fn lemma_sp_value_bounds(b: Seq<u8>, pos: int, be: bool, code: u16)
    ensures
        sp_value(b, pos, be, code) matches Ok(m) ==> pos <= m.1 <= b.len(),
{
}

/// A value's payload read from where its encoding was placed carries the
/// value's data.
pub proof fn lemma_value_at(full: Seq<u8>, pos: int, v: Value)
    requires
        0 <= pos,
        value_wire_ok(v),
        pos + spec_value_payload(v).len() <= full.len(),
        full.subrange(pos, pos + spec_value_payload(v).len()) == spec_value_payload(v),
    ensures
        sp_value(full, pos, true, v.spec_code()) matches Ok(m) && value_matches(v, m.0)
            && m.1 == pos + spec_value_payload(v).len(),
{
    match v {
        Value::Integer(x) => {
            lemma_u32_at(full, pos, x as u32);
        }
        Value::OctetString(b) => {
            lemma_octets_at(full, pos, b@);
        }
        Value::Null => {}
        Value::ObjectIdentifier(o) => {
            lemma_oid_at(full, pos, o@, false);
        }
        Value::IpAddress(a) => {
            lemma_octets_at(full, pos, a@);
        }
        Value::Counter32(x) => {
            lemma_u32_at(full, pos, x);
        }
        Value::Gauge32(x) => {
            lemma_u32_at(full, pos, x);
        }
        Value::TimeTicks(x) => {
            lemma_u32_at(full, pos, x);
        }
        Value::Opaque(b) => {
            lemma_octets_at(full, pos, b@);
        }
        Value::Counter64(x) => {
            lemma_u64_at(full, pos, x);
        }
        Value::NoSuchObject => {}
        Value::NoSuchInstance => {}
        Value::EndOfMibView => {}
    }
}

/// Appends the payload bytes of `v`.
pub fn put_value(out: &mut Vec<u8>, v: &Value)
    requires
        value_wire_ok(*v),
    ensures
        final(out)@ == old(out)@ + spec_value_payload(*v),
{
    match v {
        Value::Integer(x) => {
            put_u32(out, *x as u32);
        }
        Value::OctetString(b) => {
            put_octets(out, b.as_slice());
        }
        Value::Null => {
            proof {
                assert(final(out)@ =~= old(out)@ + spec_value_payload(*v));
            }
        }
        Value::ObjectIdentifier(o) => {
            put_oid(out, o.parts(), false);
        }
        Value::IpAddress(a) => {
            put_octets(out, a.as_slice());
        }
        Value::Counter32(x) => {
            put_u32(out, *x);
        }
        Value::Gauge32(x) => {
            put_u32(out, *x);
        }
        Value::TimeTicks(x) => {
            put_u32(out, *x);
        }
        Value::Opaque(b) => {
            put_octets(out, b.as_slice());
        }
        Value::Counter64(x) => {
            put_u64(out, *x);
        }
        Value::NoSuchObject => {
            proof {
                assert(final(out)@ =~= old(out)@ + spec_value_payload(*v));
            }
        }
        Value::NoSuchInstance => {
            proof {
                assert(final(out)@ =~= old(out)@ + spec_value_payload(*v));
            }
        }
        Value::EndOfMibView => {
            proof {
                assert(final(out)@ =~= old(out)@ + spec_value_payload(*v));
            }
        }
    }
}

/// Reads a value payload for type code `code`; see [`sp_value`].
pub fn get_value(buf: &[u8], pos: usize, be: bool, code: u16) -> (r: Result<(Value, usize),
    CodecError>)
    ensures
        match r {
            Ok(a) => sp_value(buf@, pos as int, be, code) matches Ok(m)
                && value_matches(a.0, m.0) && a.1 as int == m.1,
            Err(e) => sp_value(buf@, pos as int, be, code) matches Err(e2) && e == e2,
        },
{
    if code == 2 {
        match get_u32(buf, pos, be) {
            Ok((w, p)) => {
                proof {
                    let wi = w as i32;
                    assert((w as i32) as u32 == w) by (bit_vector);
                }
                Ok((Value::Integer(w as i32), p))
            }
            Err(e) => Err(e),
        }
    } else if code == 65 || code == 66 || code == 67 {
        match get_u32(buf, pos, be) {
            Ok((w, p)) => Ok((
                if code == 65 {
                    Value::Counter32(w)
                } else if code == 66 {
                    Value::Gauge32(w)
                } else {
                    Value::TimeTicks(w)
                },
                p,
            )),
            Err(e) => Err(e),
        }
    } else if code == 4 || code == 68 {
        match get_octets(buf, pos, be) {
            Ok((d, p)) => Ok((
                if code == 4 {
                    Value::OctetString(d)
                } else {
                    Value::Opaque(d)
                },
                p,
            )),
            Err(e) => Err(e),
        }
    } else if code == 64 {
        match get_octets(buf, pos, be) {
            Ok((d, p)) => {
                if d.len() == 4 {
                    let a: [u8; 4] = [d[0], d[1], d[2], d[3]];
                    proof {
                        assert(a@ =~= d@);
                    }
                    Ok((Value::IpAddress(a), p))
                } else {
                    Err(CodecError::Malformed)
                }
            }
            Err(e) => Err(e),
        }
    } else if code == 5 || code == 128 || code == 129 || code == 130 {
        if pos <= buf.len() {
            Ok((
                if code == 5 {
                    Value::Null
                } else if code == 128 {
                    Value::NoSuchObject
                } else if code == 129 {
                    Value::NoSuchInstance
                } else {
                    Value::EndOfMibView
                },
                pos,
            ))
        } else {
            Err(CodecError::ShortRead)
        }
    } else if code == 6 {
        match get_oid(buf, pos, be) {
            Ok(((parts, _), p)) => {
                match Oid::new(parts) {
                    Ok(o) => Ok((Value::ObjectIdentifier(o), p)),
                    Err(_) => Err(CodecError::Malformed),
                }
            }
            Err(e) => Err(e),
        }
    } else if code == 70 {
        match get_u64(buf, pos, be) {
            Ok((w, p)) => Ok((Value::Counter64(w), p)),
            Err(e) => Err(e),
        }
    } else {
        Err(CodecError::Malformed)
    }
}

/// One variable binding: a name and its typed value.
#[derive(Clone, Debug)]
pub struct VarBind {
    pub oid: Oid,
    pub value: Value,
}

impl VarBind {
    /// Builds a binding.
    pub fn new(oid: Oid, value: Value) -> (r: VarBind)
        ensures
            r.oid == oid,
            r.value == value,
    {
        VarBind { oid, value }
    }
}

/// The binding fits on the wire.
pub open spec fn vb_wire_ok(vb: VarBind) -> bool {
    1 <= vb.oid@.len() <= 128 && value_wire_ok(vb.value)
}

/// The wire bytes of one binding: type code, a reserved half-word, the name,
/// the payload.
pub open spec fn spec_varbind_bytes(vb: VarBind) -> Seq<u8> {
    spec_u16(vb.value.spec_code()) + spec_u16(0) + spec_oid_wire(vb.oid@, false)
        + spec_value_payload(vb.value)
}

/// Reads one binding at `pos`: the type code, a reserved half-word, a
/// non-empty name OID, then the payload the code calls for.
pub open spec fn sp_varbind(b: Seq<u8>, pos: int, be: bool) -> Result<((Seq<u32>, WireVal),
    int), CodecError> {
    match sp_u16(b, pos, be) {
        Err(e) => Err(e),
        Ok((code, p1)) => match sp_u16(b, p1, be) {
            Err(e) => Err(e),
            Ok((_, p2)) => match sp_oid(b, p2, be) {
                Err(e) => Err(e),
                Ok(((name, _), p3)) => if name.len() == 0 {
                    Err(CodecError::Malformed)
                } else {
                    match sp_value(b, p3, be, code) {
                        Err(e) => Err(e),
                        Ok((m, p4)) => Ok(((name, m), p4)),
                    }
                },
            },
        },
    }
}

/// A successful binding parse moves forward and stays inside the buffer.
pub proof fn lemma_sp_varbind_bounds(b: Seq<u8>, pos: int, be: bool)
    ensures
        sp_varbind(b, pos, be) matches Ok(m) ==> pos + 8 <= m.1 <= b.len(),
{
    if sp_varbind(b, pos, be) is Ok {
        let code = sp_u16(b, pos, be)->Ok_0.0;
        let p2 = sp_u16(b, pos + 2, be)->Ok_0.1;
        let p3 = sp_oid(b, p2, be)->Ok_0.1;
        lemma_sp_value_bounds(b, p3, be, code);
    }
}

/// The binding `vb` carries the parsed data `m`.
pub open spec fn varbind_matches(vb: VarBind, m: (Seq<u32>, WireVal)) -> bool {
    vb.oid@ == m.0 && value_matches(vb.value, m.1)
}

/// A binding read from where its encoding was placed carries the original
/// name and value.
pub proof fn lemma_varbind_at(full: Seq<u8>, pos: int, vb: VarBind)
    requires
        0 <= pos,
        vb_wire_ok(vb),
        pos + spec_varbind_bytes(vb).len() <= full.len(),
        full.subrange(pos, pos + spec_varbind_bytes(vb).len()) == spec_varbind_bytes(vb),
    ensures
        sp_varbind(full, pos, true) matches Ok(m) && varbind_matches(vb, m.0)
            && m.1 == pos + spec_varbind_bytes(vb).len(),
{
    let w = spec_varbind_bytes(vb);
    let ow = spec_oid_wire(vb.oid@, false);
    let pw = spec_value_payload(vb.value);
    lemma_spec_subids_len(vb.oid@);
    assert(w.len() == 4 + ow.len() + pw.len());
    assert(full.subrange(pos, pos + 2) =~= spec_u16(vb.value.spec_code())) by {
        assert(full.subrange(pos, pos + 2)
            =~= full.subrange(pos, pos + w.len() as int).subrange(0, 2));
        assert(w.subrange(0, 2) =~= spec_u16(vb.value.spec_code()));
    }
    lemma_u16_at(full, pos, vb.value.spec_code());
    assert(full.subrange(pos + 2, pos + 4) =~= spec_u16(0)) by {
        assert(full.subrange(pos + 2, pos + 4)
            =~= full.subrange(pos, pos + w.len() as int).subrange(2, 4));
        assert(w.subrange(2, 4) =~= spec_u16(0));
    }
    lemma_u16_at(full, pos + 2, 0);
    assert(full.subrange(pos + 4, pos + 4 + ow.len() as int) =~= ow) by {
        assert(full.subrange(pos + 4, pos + 4 + ow.len() as int)
            =~= full.subrange(pos, pos + w.len() as int).subrange(4, 4 + ow.len() as int));
        assert(w.subrange(4, 4 + ow.len() as int) =~= ow);
    }
    lemma_oid_at(full, pos + 4, vb.oid@, false);
    let p3 = pos + 4 + ow.len() as int;
    assert(full.subrange(p3, p3 + pw.len() as int) =~= pw) by {
        assert(full.subrange(p3, p3 + pw.len() as int)
            =~= full.subrange(pos, pos + w.len() as int).subrange(4 + ow.len() as int,
                w.len() as int));
        assert(w.subrange(4 + ow.len() as int, w.len() as int) =~= pw);
    }
    lemma_value_at(full, p3, vb.value);
}

/// Appends the wire bytes of one binding.
pub fn put_varbind(out: &mut Vec<u8>, vb: &VarBind)
    requires
        vb_wire_ok(*vb),
    ensures
        final(out)@ == old(out)@ + spec_varbind_bytes(*vb),
{
    put_u16(out, vb.value.code());
    put_u16(out, 0);
    put_oid(out, vb.oid.parts(), false);
    put_value(out, &vb.value);
    proof {
        assert(final(out)@ =~= old(out)@ + spec_varbind_bytes(*vb));
    }
}

/// Reads one binding; see [`sp_varbind`].
pub fn get_varbind(buf: &[u8], pos: usize, be: bool) -> (r: Result<(VarBind, usize),
    CodecError>)
    ensures
        match r {
            Ok(a) => sp_varbind(buf@, pos as int, be) matches Ok(m)
                && varbind_matches(a.0, m.0) && a.1 as int == m.1,
            Err(e) => sp_varbind(buf@, pos as int, be) matches Err(e2) && e == e2,
        },
{
    let (code, p1) = match get_u16(buf, pos, be) {
        Ok(v) => v,
        Err(e) => {
            return Err(e);
        }
    };
    let p2 = match get_u16(buf, p1, be) {
        Ok(v) => v.1,
        Err(e) => {
            return Err(e);
        }
    };
    let ((parts, _), p3) = match get_oid(buf, p2, be) {
        Ok(v) => v,
        Err(e) => {
            return Err(e);
        }
    };
    let name = match Oid::new(parts) {
        Ok(o) => o,
        Err(_) => {
            return Err(CodecError::Malformed);
        }
    };
    match get_value(buf, p3, be, code) {
        Ok((v, p4)) => Ok((VarBind { oid: name, value: v }, p4)),
        Err(e) => Err(e),
    }
}

/// One search range: where a walk starts, whether the start itself counts,
/// and an optional upper bound (`None` is unbounded, the wire's empty OID).
#[derive(Clone, Debug)]
pub struct SearchRange {
    pub start: Oid,
    pub incl: bool,
    pub end: Option<Oid>,
}

/// The range fits on the wire.
pub open spec fn sr_wire_ok(sr: SearchRange) -> bool {
    1 <= sr.start@.len() <= 128 && (sr.end matches Some(e) ==> 1 <= e@.len() <= 128)
}

/// The end bound as the wire carries it: empty when unbounded.
pub open spec fn sr_end_seq(sr: SearchRange) -> Seq<u32> {
    match sr.end {
        Some(e) => e@,
        None => Seq::empty(),
    }
}

/// The wire bytes of one range: the start OID carrying the include flag,
/// then the end OID with a zero include byte.
pub open spec fn spec_range_bytes(sr: SearchRange) -> Seq<u8> {
    spec_oid_wire(sr.start@, sr.incl) + spec_oid_wire(sr_end_seq(sr), false)
}

/// Reads one range at `pos`: two OIDs, the first carrying the include flag;
/// an empty start is `Malformed`, an empty end means unbounded.
pub open spec fn sp_range(b: Seq<u8>, pos: int, be: bool) -> Result<(((Seq<u32>, bool),
    Seq<u32>), int), CodecError> {
    match sp_oid(b, pos, be) {
        Err(e) => Err(e),
        Ok(((start, incl), p1)) => if start.len() == 0 {
            Err(CodecError::Malformed)
        } else {
            match sp_oid(b, p1, be) {
                Err(e) => Err(e),
                Ok(((end, _), p2)) => Ok((((start, incl), end), p2)),
            }
        },
    }
}

/// A successful range parse moves forward and stays inside the buffer.
pub proof fn lemma_sp_range_bounds(b: Seq<u8>, pos: int, be: bool)
    ensures
        sp_range(b, pos, be) matches Ok(m) ==> pos + 8 <= m.1 <= b.len(),
{
}

/// The range `sr` carries the parsed data `m`.
pub open spec fn range_matches(sr: SearchRange, m: ((Seq<u32>, bool), Seq<u32>)) -> bool {
    &&& sr.start@ == m.0.0
    &&& sr.incl == m.0.1
    &&& sr_end_seq(sr) == m.1
    &&& (sr.end matches Some(e) ==> e@.len() > 0)
}

/// A range read from where its encoding was placed carries the original
/// bounds.
pub proof fn lemma_range_at(full: Seq<u8>, pos: int, sr: SearchRange)
    requires
        0 <= pos,
        sr_wire_ok(sr),
        pos + spec_range_bytes(sr).len() <= full.len(),
        full.subrange(pos, pos + spec_range_bytes(sr).len()) == spec_range_bytes(sr),
    ensures
        sp_range(full, pos, true) matches Ok(m) && range_matches(sr, m.0)
            && m.1 == pos + spec_range_bytes(sr).len(),
{
    let w = spec_range_bytes(sr);
    let sw = spec_oid_wire(sr.start@, sr.incl);
    let ew = spec_oid_wire(sr_end_seq(sr), false);
    lemma_spec_subids_len(sr.start@);
    lemma_spec_subids_len(sr_end_seq(sr));
    assert(full.subrange(pos, pos + sw.len() as int) =~= sw) by {
        assert(full.subrange(pos, pos + sw.len() as int)
            =~= full.subrange(pos, pos + w.len() as int).subrange(0, sw.len() as int));
        assert(w.subrange(0, sw.len() as int) =~= sw);
    }
    lemma_oid_at(full, pos, sr.start@, sr.incl);
    let p1 = pos + sw.len() as int;
    assert(full.subrange(p1, p1 + ew.len() as int) =~= ew) by {
        assert(full.subrange(p1, p1 + ew.len() as int)
            =~= full.subrange(pos, pos + w.len() as int).subrange(sw.len() as int,
                w.len() as int));
        assert(w.subrange(sw.len() as int, w.len() as int) =~= ew);
    }
    lemma_oid_at(full, p1, sr_end_seq(sr), false);
}

/// Appends the wire bytes of one range.
pub fn put_range(out: &mut Vec<u8>, sr: &SearchRange)
    requires
        sr_wire_ok(*sr),
    ensures
        final(out)@ == old(out)@ + spec_range_bytes(*sr),
{
    put_oid(out, sr.start.parts(), sr.incl);
    match &sr.end {
        Some(e) => {
            put_oid(out, e.parts(), false);
        }
        None => {
            let empty: [u32; 0] = [];
            proof {
                assert(empty@ =~= sr_end_seq(*sr));
            }
            put_oid(out, empty.as_slice(), false);
        }
    }
    proof {
        assert(final(out)@ =~= old(out)@ + spec_range_bytes(*sr));
    }
}

/// Reads one range; see [`sp_range`].
pub fn get_range(buf: &[u8], pos: usize, be: bool) -> (r: Result<(SearchRange, usize),
    CodecError>)
    ensures
        match r {
            Ok(a) => sp_range(buf@, pos as int, be) matches Ok(m)
                && range_matches(a.0, m.0) && a.1 as int == m.1,
            Err(e) => sp_range(buf@, pos as int, be) matches Err(e2) && e == e2,
        },
{
    let ((sparts, incl), p1) = match get_oid(buf, pos, be) {
        Ok(v) => v,
        Err(e) => {
            return Err(e);
        }
    };
    let start = match Oid::new(sparts) {
        Ok(o) => o,
        Err(_) => {
            return Err(CodecError::Malformed);
        }
    };
    let ((eparts, _), p2) = match get_oid(buf, p1, be) {
        Ok(v) => v,
        Err(e) => {
            return Err(e);
        }
    };
    let end = if eparts.len() == 0 {
        None
    } else {
        match Oid::new(eparts) {
            Ok(o) => Some(o),
            Err(_) => vstd::pervasive::unreached(),
        }
    };
    Ok((SearchRange { start, incl, end }, p2))
}

} // verus!
