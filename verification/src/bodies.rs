//! Per-PDU bodies: builders for what a subagent sends and parsers for what
//! it receives, with round-trip proofs at the byte level.

use vstd::prelude::*;

use crate::codec::{
    lemma_concat_sub,
    spec_u16, spec_u32, sp_u16, sp_u32, spec_octets, sp_octets, spec_oid_wire, sp_oid,
    CodecError, put_u16, put_u32, put_octets, put_oid, get_u16, get_u32, get_octets, get_oid,
    lemma_u16_at, lemma_u32_at, lemma_octets_at, lemma_oid_at, lemma_spec_subids_len, pad_len,
};
use crate::header::{
    Header, PduType, spec_header, put_header, FLAG_NETWORK_BYTE_ORDER, FLAG_NON_DEFAULT_CONTEXT,
};
use crate::oid::Oid;
use crate::pdu::{
    VarBind, SearchRange, WireVal, value_matches, varbind_matches, range_matches, vb_wire_ok,
    sr_wire_ok, spec_varbind_bytes, spec_range_bytes, sp_varbind, sp_range, put_varbind,
    put_range, get_varbind, get_range, lemma_varbind_at, lemma_range_at,
    lemma_sp_varbind_bounds, lemma_sp_range_bounds, spec_value_payload, sr_end_seq,
};
use crate::types::Value;

verus! {

/// The concatenated wire bytes of a list of bindings.
pub open spec fn spec_varbinds_bytes(vbs: Seq<VarBind>) -> Seq<u8>
    decreases vbs.len(),
{
    if vbs.len() == 0 {
        Seq::empty()
    } else {
        spec_varbind_bytes(vbs[0]) + spec_varbinds_bytes(vbs.drop_first())
    }
}

/// Every binding in the list fits on the wire.
pub open spec fn vbs_wire_ok(vbs: Seq<VarBind>) -> bool {
    forall|i: int| 0 <= i < vbs.len() ==> vb_wire_ok(#[trigger] vbs[i])
}

/// Reads bindings from `pos` until the input is exactly exhausted.
pub open spec fn sp_varbinds(b: Seq<u8>, pos: int, be: bool) -> Result<(Seq<(Seq<u32>,
    WireVal)>, int), CodecError>
    decreases b.len() - pos,
{
    if pos == b.len() {
        Ok((Seq::empty(), pos))
    } else {
        match sp_varbind(b, pos, be) {
            Err(e) => Err(e),
            Ok((m, p)) => {
                proof {
                    lemma_sp_varbind_bounds(b, pos, be);
                }
                match sp_varbinds(b, p, be) {
                    Err(e) => Err(e),
                    Ok((ms, e2)) => Ok((seq![m] + ms, e2)),
                }
            }
        }
    }
}

/// The list `vbs` carries the parsed data `ms`, binding for binding.
pub open spec fn vbs_match(vbs: Seq<VarBind>, ms: Seq<(Seq<u32>, WireVal)>) -> bool {
    vbs.len() == ms.len() && forall|i: int| 0 <= i < vbs.len()
        ==> varbind_matches(#[trigger] vbs[i], ms[i])
}

/// A list of bindings that fills the rest of the buffer reads back binding
/// for binding.
#[verifier::rlimit(100)]
#[verifier::spinoff_prover]
pub proof fn lemma_varbinds_at(full: Seq<u8>, pos: int, vbs: Seq<VarBind>)
    requires
        0 <= pos,
        vbs_wire_ok(vbs),
        pos + spec_varbinds_bytes(vbs).len() == full.len(),
        full.subrange(pos, full.len() as int) == spec_varbinds_bytes(vbs),
    ensures
        sp_varbinds(full, pos, true) matches Ok(m) && vbs_match(vbs, m.0)
            && m.1 == full.len(),
    decreases vbs.len(),
{
    if vbs.len() == 0 {
        assert(pos == full.len());
    } else {
        let w = spec_varbinds_bytes(vbs);
        let w0 = spec_varbind_bytes(vbs[0]);
        let rest = spec_varbinds_bytes(vbs.drop_first());
        assert(w == w0 + rest);
        assert(full.subrange(pos, pos + w0.len() as int) =~= w0) by {
            assert(full.subrange(pos, pos + w0.len() as int)
                =~= full.subrange(pos, full.len() as int).subrange(0, w0.len() as int));
            assert(w.subrange(0, w0.len() as int) =~= w0);
        }
        lemma_varbind_at(full, pos, vbs[0]);
        let p1 = pos + w0.len() as int;
        assert(full.subrange(p1, full.len() as int) =~= rest) by {
            assert(full.subrange(p1, full.len() as int)
                =~= full.subrange(pos, full.len() as int).subrange(w0.len() as int,
                    w.len() as int));
            assert(w.subrange(w0.len() as int, w.len() as int) =~= rest);
        }
        assert(vbs_wire_ok(vbs.drop_first()));
        lemma_varbinds_at(full, p1, vbs.drop_first());
        assert(pos < full.len());
        let m0 = sp_varbind(full, pos, true)->Ok_0.0;
        let msr = sp_varbinds(full, p1, true)->Ok_0.0;
        assert(sp_varbinds(full, pos, true) matches Ok(m) && m.0 == seq![m0] + msr
            && m.1 == full.len());
        assert forall|i: int| 0 <= i < vbs.len() implies
            varbind_matches(#[trigger] vbs[i], (seq![m0] + msr)[i]) by {
            if i > 0 {
                assert(vbs.drop_first()[i - 1] == vbs[i]);
                assert((seq![m0] + msr)[i] == msr[i - 1]);
            }
        }
    }
}

/// Appends the wire bytes of every binding in order.
#[verifier::rlimit(100)]
#[verifier::spinoff_prover]
pub fn put_varbinds(out: &mut Vec<u8>, vbs: &Vec<VarBind>)
    requires
        vbs_wire_ok(vbs@),
    ensures
        final(out)@ == old(out)@ + spec_varbinds_bytes(vbs@),
{
    let mut i: usize = 0;
    proof {
        assert(vbs@.take(0) =~= Seq::<VarBind>::empty());
    }
    while i < vbs.len()
        invariant
            0 <= i <= vbs@.len(),
            vbs_wire_ok(vbs@),
            out@ == old(out)@ + spec_varbinds_bytes(vbs@.take(i as int)),
        decreases vbs@.len() - i,
    {
        put_varbind(out, &vbs[i]);
        proof {
            lemma_vbs_snoc(vbs@, i as int);
            assert(out@ =~= old(out)@ + (spec_varbinds_bytes(vbs@.take(i as int))
                + spec_varbind_bytes(vbs@[i as int])));
        }
        i += 1;
    }
    proof {
        assert(vbs@.take(vbs@.len() as int) =~= vbs@);
    }
}

proof fn lemma_vbs_snoc(vbs: Seq<VarBind>, i: int)
    requires
        0 <= i < vbs.len(),
    ensures
        spec_varbinds_bytes(vbs.take(i + 1)) =~= spec_varbinds_bytes(vbs.take(i))
            + spec_varbind_bytes(vbs[i]),
    decreases i,
{
    if i == 0 {
        assert(vbs.take(0) =~= Seq::<VarBind>::empty());
        assert(vbs.take(1)[0] == vbs[0]);
        assert(vbs.take(1).drop_first() =~= Seq::<VarBind>::empty());
        assert(spec_varbinds_bytes(Seq::<VarBind>::empty()) == Seq::<u8>::empty());
    } else {
        lemma_vbs_snoc(vbs.drop_first(), i - 1);
        assert(vbs.take(i + 1)[0] == vbs[0]);
        assert(vbs.take(i)[0] == vbs[0]);
        assert(vbs.take(i + 1).drop_first() =~= vbs.drop_first().take(i));
        assert(vbs.take(i).drop_first() =~= vbs.drop_first().take(i - 1));
        assert(vbs.drop_first()[i - 1] == vbs[i]);
    }
}

spec fn comb_vbs(p: Seq<(Seq<u32>, WireVal)>, r: Result<(Seq<(Seq<u32>, WireVal)>, int),
    CodecError>) -> Result<(Seq<(Seq<u32>, WireVal)>, int), CodecError> {
    match r {
        Ok((x, e)) => Ok((p + x, e)),
        Err(e) => Err(e),
    }
}

/// Reads bindings until the buffer is exactly exhausted; see
/// [`sp_varbinds`].
#[verifier::rlimit(50)]
#[verifier::spinoff_prover]
pub fn get_varbinds(buf: &[u8], pos: usize, be: bool) -> (r: Result<(Vec<VarBind>, usize),
    CodecError>)
    ensures
        match r {
            Ok(a) => sp_varbinds(buf@, pos as int, be) matches Ok(m)
                && vbs_match(a.0@, m.0) && a.1 as int == m.1,
            Err(e) => sp_varbinds(buf@, pos as int, be) matches Err(e2) && e == e2,
        },
{
    let mut out: Vec<VarBind> = Vec::new();
    let ghost mut ms: Seq<(Seq<u32>, WireVal)> = Seq::empty();
    let mut p = pos;
    loop
        invariant_except_break
            comb_vbs(ms, sp_varbinds(buf@, p as int, be)) == sp_varbinds(buf@, pos as int, be),
            out@.len() == ms.len(),
            forall|i: int| 0 <= i < out@.len()
                ==> varbind_matches(#[trigger] out@[i], ms[i]),
        ensures
            sp_varbinds(buf@, pos as int, be) matches Ok(m) && vbs_match(out@, m.0)
                && m.1 == p as int,
        decreases buf@.len() + 1 - p as int,
    {
        if p == buf.len() {
            proof {
                assert(sp_varbinds(buf@, p as int, be)
                    == Ok::<_, CodecError>((Seq::<(Seq<u32>, WireVal)>::empty(), p as int)));
                assert(ms + Seq::<(Seq<u32>, WireVal)>::empty() =~= ms);
            }
            break;
        }
        match get_varbind(buf, p, be) {
            Err(e) => {
                proof {
                    if (p as int) < buf@.len() {
                        assert(sp_varbinds(buf@, p as int, be) matches Err(e2) && e == e2);
                    } else {
                        assert(sp_varbind(buf@, p as int, be)
                            == Err::<((Seq<u32>, WireVal), int), CodecError>(
                            CodecError::ShortRead));
                    }
                }
                return Err(e);
            }
            Ok((vb, p2)) => {
                let ghost m0 = sp_varbind(buf@, p as int, be)->Ok_0.0;
                proof {
                    lemma_sp_varbind_bounds(buf@, p as int, be);
                    assert(sp_varbinds(buf@, p as int, be)
                        == comb_vbs(seq![m0], sp_varbinds(buf@, p2 as int, be)));
                    if sp_varbinds(buf@, p2 as int, be) is Ok {
                        let tail = sp_varbinds(buf@, p2 as int, be)->Ok_0.0;
                        assert(ms + (seq![m0] + tail) =~= (ms + seq![m0]) + tail);
                    }
                    assert(ms.push(m0) =~= ms + seq![m0]);
                }
                out.push(vb);
                proof {
                    ms = ms.push(m0);
                }
                p = p2;
            }
        }
    }
    Ok((out, p))
}

/// The concatenated wire bytes of a list of search ranges.
pub open spec fn spec_ranges_bytes(rs: Seq<SearchRange>) -> Seq<u8>
    decreases rs.len(),
{
    if rs.len() == 0 {
        Seq::empty()
    } else {
        spec_range_bytes(rs[0]) + spec_ranges_bytes(rs.drop_first())
    }
}

/// Every range in the list fits on the wire.
pub open spec fn rs_wire_ok(rs: Seq<SearchRange>) -> bool {
    forall|i: int| 0 <= i < rs.len() ==> sr_wire_ok(#[trigger] rs[i])
}

/// Reads ranges from `pos` until the input is exactly exhausted.
pub open spec fn sp_ranges(b: Seq<u8>, pos: int, be: bool) -> Result<(Seq<((Seq<u32>, bool),
    Seq<u32>)>, int), CodecError>
    decreases b.len() - pos,
{
    if pos == b.len() {
        Ok((Seq::empty(), pos))
    } else {
        match sp_range(b, pos, be) {
            Err(e) => Err(e),
            Ok((m, p)) => {
                proof {
                    lemma_sp_range_bounds(b, pos, be);
                }
                match sp_ranges(b, p, be) {
                    Err(e) => Err(e),
                    Ok((ms, e2)) => Ok((seq![m] + ms, e2)),
                }
            }
        }
    }
}

/// The list `rs` carries the parsed data `ms`, range for range.
pub open spec fn rs_match(rs: Seq<SearchRange>, ms: Seq<((Seq<u32>, bool), Seq<u32>)>) -> bool {
    rs.len() == ms.len() && forall|i: int| 0 <= i < rs.len()
        ==> range_matches(#[trigger] rs[i], ms[i])
}

/// A list of ranges that fills the rest of the buffer reads back range for
/// range.
#[verifier::rlimit(100)]
#[verifier::spinoff_prover]
pub proof fn lemma_ranges_at(full: Seq<u8>, pos: int, rs: Seq<SearchRange>)
    requires
        0 <= pos,
        rs_wire_ok(rs),
        pos + spec_ranges_bytes(rs).len() == full.len(),
        full.subrange(pos, full.len() as int) == spec_ranges_bytes(rs),
    ensures
        sp_ranges(full, pos, true) matches Ok(m) && rs_match(rs, m.0) && m.1 == full.len(),
    decreases rs.len(),
{
    if rs.len() == 0 {
        assert(pos == full.len());
    } else {
        let w = spec_ranges_bytes(rs);
        let w0 = spec_range_bytes(rs[0]);
        let rest = spec_ranges_bytes(rs.drop_first());
        assert(w == w0 + rest);
        assert(full.subrange(pos, pos + w0.len() as int) =~= w0) by {
            assert(full.subrange(pos, pos + w0.len() as int)
                =~= full.subrange(pos, full.len() as int).subrange(0, w0.len() as int));
            assert(w.subrange(0, w0.len() as int) =~= w0);
        }
        lemma_range_at(full, pos, rs[0]);
        let p1 = pos + w0.len() as int;
        assert(full.subrange(p1, full.len() as int) =~= rest) by {
            assert(full.subrange(p1, full.len() as int)
                =~= full.subrange(pos, full.len() as int).subrange(w0.len() as int,
                    w.len() as int));
            assert(w.subrange(w0.len() as int, w.len() as int) =~= rest);
        }
        assert(rs_wire_ok(rs.drop_first()));
        lemma_ranges_at(full, p1, rs.drop_first());
        assert(pos < full.len());
        let m0 = sp_range(full, pos, true)->Ok_0.0;
        let msr = sp_ranges(full, p1, true)->Ok_0.0;
        assert(sp_ranges(full, pos, true) matches Ok(m) && m.0 == seq![m0] + msr
            && m.1 == full.len());
        assert forall|i: int| 0 <= i < rs.len() implies
            range_matches(#[trigger] rs[i], (seq![m0] + msr)[i]) by {
            if i > 0 {
                assert(rs.drop_first()[i - 1] == rs[i]);
                assert((seq![m0] + msr)[i] == msr[i - 1]);
            }
        }
    }
}

/// Appends the wire bytes of every range in order.
#[verifier::rlimit(100)]
#[verifier::spinoff_prover]
pub fn put_ranges(out: &mut Vec<u8>, rs: &Vec<SearchRange>)
    requires
        rs_wire_ok(rs@),
    ensures
        final(out)@ == old(out)@ + spec_ranges_bytes(rs@),
{
    let mut i: usize = 0;
    proof {
        assert(rs@.take(0) =~= Seq::<SearchRange>::empty());
    }
    while i < rs.len()
        invariant
            0 <= i <= rs@.len(),
            rs_wire_ok(rs@),
            out@ == old(out)@ + spec_ranges_bytes(rs@.take(i as int)),
        decreases rs@.len() - i,
    {
        put_range(out, &rs[i]);
        proof {
            lemma_rs_snoc(rs@, i as int);
            assert(out@ =~= old(out)@ + (spec_ranges_bytes(rs@.take(i as int))
                + spec_range_bytes(rs@[i as int])));
        }
        i += 1;
    }
    proof {
        assert(rs@.take(rs@.len() as int) =~= rs@);
    }
}

proof fn lemma_rs_snoc(rs: Seq<SearchRange>, i: int)
    requires
        0 <= i < rs.len(),
    ensures
        spec_ranges_bytes(rs.take(i + 1)) =~= spec_ranges_bytes(rs.take(i))
            + spec_range_bytes(rs[i]),
    decreases i,
{
    if i == 0 {
        assert(rs.take(0) =~= Seq::<SearchRange>::empty());
        assert(rs.take(1)[0] == rs[0]);
        assert(rs.take(1).drop_first() =~= Seq::<SearchRange>::empty());
        assert(spec_ranges_bytes(Seq::<SearchRange>::empty()) == Seq::<u8>::empty());
    } else {
        lemma_rs_snoc(rs.drop_first(), i - 1);
        assert(rs.take(i + 1)[0] == rs[0]);
        assert(rs.take(i)[0] == rs[0]);
        assert(rs.take(i + 1).drop_first() =~= rs.drop_first().take(i));
        assert(rs.take(i).drop_first() =~= rs.drop_first().take(i - 1));
        assert(rs.drop_first()[i - 1] == rs[i]);
    }
}

spec fn comb_rs(p: Seq<((Seq<u32>, bool), Seq<u32>)>, r: Result<(Seq<((Seq<u32>, bool),
    Seq<u32>)>, int), CodecError>) -> Result<(Seq<((Seq<u32>, bool), Seq<u32>)>, int),
    CodecError> {
    match r {
        Ok((x, e)) => Ok((p + x, e)),
        Err(e) => Err(e),
    }
}

/// Reads ranges until the buffer is exactly exhausted; see [`sp_ranges`].
#[verifier::rlimit(50)]
#[verifier::spinoff_prover]
pub fn get_ranges(buf: &[u8], pos: usize, be: bool) -> (r: Result<(Vec<SearchRange>, usize),
    CodecError>)
    ensures
        match r {
            Ok(a) => sp_ranges(buf@, pos as int, be) matches Ok(m)
                && rs_match(a.0@, m.0) && a.1 as int == m.1,
            Err(e) => sp_ranges(buf@, pos as int, be) matches Err(e2) && e == e2,
        },
{
    let mut out: Vec<SearchRange> = Vec::new();
    let ghost mut ms: Seq<((Seq<u32>, bool), Seq<u32>)> = Seq::empty();
    let mut p = pos;
    loop
        invariant_except_break
            comb_rs(ms, sp_ranges(buf@, p as int, be)) == sp_ranges(buf@, pos as int, be),
            out@.len() == ms.len(),
            forall|i: int| 0 <= i < out@.len() ==> range_matches(#[trigger] out@[i], ms[i]),
        ensures
            sp_ranges(buf@, pos as int, be) matches Ok(m) && rs_match(out@, m.0)
                && m.1 == p as int,
        decreases buf@.len() + 1 - p as int,
    {
        if p == buf.len() {
            proof {
                assert(sp_ranges(buf@, p as int, be)
                    == Ok::<_, CodecError>((Seq::<((Seq<u32>, bool), Seq<u32>)>::empty(),
                    p as int)));
                assert(ms + Seq::<((Seq<u32>, bool), Seq<u32>)>::empty() =~= ms);
            }
            break;
        }
        match get_range(buf, p, be) {
            Err(e) => {
                proof {
                    if (p as int) < buf@.len() {
                        assert(sp_ranges(buf@, p as int, be) matches Err(e2) && e == e2);
                    } else {
                        assert(sp_range(buf@, p as int, be)
                            == Err::<(((Seq<u32>, bool), Seq<u32>), int), CodecError>(
                            CodecError::ShortRead));
                    }
                }
                return Err(e);
            }
            Ok((sr, p2)) => {
                let ghost m0 = sp_range(buf@, p as int, be)->Ok_0.0;
                proof {
                    lemma_sp_range_bounds(buf@, p as int, be);
                    assert(sp_ranges(buf@, p as int, be)
                        == comb_rs(seq![m0], sp_ranges(buf@, p2 as int, be)));
                    if sp_ranges(buf@, p2 as int, be) is Ok {
                        let tail = sp_ranges(buf@, p2 as int, be)->Ok_0.0;
                        assert(ms + (seq![m0] + tail) =~= (ms + seq![m0]) + tail);
                    }
                    assert(ms.push(m0) =~= ms + seq![m0]);
                }
                out.push(sr);
                proof {
                    ms = ms.push(m0);
                }
                p = p2;
            }
        }
    }
    Ok((out, p))
}

/// Padding closes every octet string to a four-byte boundary.
#[verifier::rlimit(100)]
#[verifier::spinoff_prover]
pub proof fn lemma_pad4(n: int)
    requires
        0 <= n,
    ensures
        0 <= pad_len(n) < 4,
        (n + pad_len(n)) % 4 == 0,
{
}

/// Every value payload is a whole number of four-byte words.
#[verifier::rlimit(100)]
#[verifier::spinoff_prover]
pub proof fn lemma_value_mod4(v: Value)
    ensures
        spec_value_payload(v).len() % 4 == 0,
{
    match v {
        Value::OctetString(b) => {
            lemma_pad4(b@.len() as int);
        }
        Value::Opaque(b) => {
            lemma_pad4(b@.len() as int);
        }
        Value::IpAddress(a) => {
            lemma_pad4(a@.len() as int);
        }
        Value::ObjectIdentifier(o) => {
            lemma_spec_subids_len(o@);
        }
        _ => {}
    }
}

/// Every binding is a whole number of four-byte words.
#[verifier::rlimit(100)]
#[verifier::spinoff_prover]
pub proof fn lemma_varbind_mod4(vb: VarBind)
    ensures
        spec_varbind_bytes(vb).len() % 4 == 0,
{
    lemma_spec_subids_len(vb.oid@);
    lemma_value_mod4(vb.value);
}

/// A list of bindings is a whole number of four-byte words.
#[verifier::rlimit(100)]
#[verifier::spinoff_prover]
pub proof fn lemma_varbinds_mod4(vbs: Seq<VarBind>)
    ensures
        spec_varbinds_bytes(vbs).len() % 4 == 0,
    decreases vbs.len(),
{
    if vbs.len() > 0 {
        lemma_varbind_mod4(vbs[0]);
        lemma_varbinds_mod4(vbs.drop_first());
    }
}

/// Every range is a whole number of four-byte words.
#[verifier::rlimit(100)]
#[verifier::spinoff_prover]
pub proof fn lemma_range_mod4(sr: SearchRange)
    ensures
        spec_range_bytes(sr).len() % 4 == 0,
{
    lemma_spec_subids_len(sr.start@);
    lemma_spec_subids_len(sr_end_seq(sr));
}

/// A list of ranges is a whole number of four-byte words.
#[verifier::rlimit(100)]
#[verifier::spinoff_prover]
pub proof fn lemma_ranges_mod4(rs: Seq<SearchRange>)
    ensures
        spec_ranges_bytes(rs).len() % 4 == 0,
    decreases rs.len(),
{
    if rs.len() > 0 {
        lemma_range_mod4(rs[0]);
        lemma_ranges_mod4(rs.drop_first());
    }
}


/// The body-opening context field: present only when the header carries
/// NON_DEFAULT_CONTEXT.
pub open spec fn spec_context(c: Option<Seq<u8>>) -> Seq<u8> {
    match c {
        Some(x) => spec_octets(x),
        None => Seq::empty(),
    }
}

/// The view of an optional borrowed context.
pub open spec fn opt_bytes(c: Option<&[u8]>) -> Option<Seq<u8>> {
    match c {
        Some(x) => Some(x@),
        None => None,
    }
}

/// The context fits on the wire beside the rest of the body.
pub open spec fn ctx_wire_ok(c: Option<Seq<u8>>) -> bool {
    match c {
        Some(x) => x.len() <= 0x7FFF_0000,
        None => true,
    }
}

/// Reads the context field when `ctx` says the flag was set.
pub open spec fn sp_context(b: Seq<u8>, pos: int, be: bool, ctx: bool) -> Result<(Option<
    Seq<u8>>, int), CodecError> {
    if ctx {
        match sp_octets(b, pos, be) {
            Ok((d, p)) => Ok((Some(d), p)),
            Err(e) => Err(e),
        }
    } else {
        Ok((None, pos))
    }
}

/// Reads the optional context; see [`sp_context`].
#[verifier::rlimit(100)]
#[verifier::spinoff_prover]
pub fn get_context(buf: &[u8], pos: usize, be: bool, ctx: bool) -> (r: Result<(Option<Vec<u8>>,
    usize), CodecError>)
    ensures
        match r {
            Ok(a) => sp_context(buf@, pos as int, be, ctx) matches Ok(m)
                && opt_vec_matches(a.0, m.0) && a.1 as int == m.1,
            Err(e) => sp_context(buf@, pos as int, be, ctx) matches Err(e2) && e == e2,
        },
{
    if ctx {
        match get_octets(buf, pos, be) {
            Ok((d, p)) => Ok((Some(d), p)),
            Err(e) => Err(e),
        }
    } else {
        Ok((None, pos))
    }
}

/// An optional byte vector carries optional spec bytes.
pub open spec fn opt_vec_matches(v: Option<Vec<u8>>, m: Option<Seq<u8>>) -> bool {
    match v {
        Some(x) => m matches Some(y) && x@ == y,
        None => m is None,
    }
}

/// A context read from where it was placed reads back unchanged.
#[verifier::rlimit(100)]
#[verifier::spinoff_prover]
pub proof fn lemma_context_at(full: Seq<u8>, pos: int, c: Option<Seq<u8>>)
    requires
        0 <= pos,
        ctx_wire_ok(c),
        pos + spec_context(c).len() <= full.len(),
        full.subrange(pos, pos + spec_context(c).len()) == spec_context(c),
    ensures
        sp_context(full, pos, true, c is Some) matches Ok(m) && m.0 == c
            && m.1 == pos + spec_context(c).len(),
{
    match c {
        Some(x) => {
            lemma_octets_at(full, pos, x);
        }
        None => {}
    }
}

/// Appends the optional context octet string.
#[verifier::rlimit(100)]
#[verifier::spinoff_prover]
fn put_context(out: &mut Vec<u8>, c: Option<&[u8]>)
    requires
        ctx_wire_ok(opt_bytes(c)),
    ensures
        final(out)@ == old(out)@ + spec_context(opt_bytes(c)),
{
    match c {
        Some(x) => {
            put_octets(out, x);
        }
        None => {
            proof {
                assert(final(out)@ =~= old(out)@ + spec_context(opt_bytes(c)));
            }
        }
    }
}

/// Builds the final byte string: the 20-byte header, with the body's length
/// filled in, followed by the body.
#[verifier::rlimit(100)]
#[verifier::spinoff_prover]
fn finish_pdu(t: PduType, flags: u8, session_id: u32, transaction_id: u32, packet_id: u32,
    body: Vec<u8>) -> (r: Vec<u8>)
    requires
        body@.len() <= 0xFFFF_FFFF,
    ensures
        ({
            let h = Header {
                pdu_type: t,
                flags: flags,
                session_id: session_id,
                transaction_id: transaction_id,
                packet_id: packet_id,
                payload_length: body@.len() as u32,
            };
            r@ == spec_header(h) + body@ && r@.len() == 20 + body@.len()
        }),
{
    let mut out: Vec<u8> = Vec::new();
    let h = Header {
        pdu_type: t,
        flags: flags,
        session_id: session_id,
        transaction_id: transaction_id,
        packet_id: packet_id,
        payload_length: body.len() as u32,
    };
    put_header(&mut out, &h);
    let mut b = body;
    out.append(&mut b);
    out
}

/// A decoded Open body.
#[derive(Clone, Debug)]
pub struct OpenPdu {
    pub timeout: u8,
    pub id: Oid,
    pub descr: Vec<u8>,
}

/// The Open body: a timeout byte, three reserved bytes, the subagent's
/// identifying OID, and a description octet string.
pub open spec fn spec_open_body(timeout: u8, id: Seq<u32>, descr: Seq<u8>) -> Seq<u8> {
    seq![timeout, 0u8, 0u8, 0u8] + spec_oid_wire(id, false) + spec_octets(descr)
}

/// Reads an Open body; an empty subagent OID is `Malformed`.
pub open spec fn sp_open(b: Seq<u8>, be: bool) -> Result<((u8, Seq<u32>, Seq<u8>), int),
    CodecError> {
    if b.len() < 4 {
        Err(CodecError::ShortRead)
    } else {
        match sp_oid(b, 4, be) {
            Err(e) => Err(e),
            Ok(((id, _), p1)) => if id.len() == 0 {
                Err(CodecError::Malformed)
            } else {
                match sp_octets(b, p1, be) {
                    Err(e) => Err(e),
                    Ok((d, p2)) => Ok(((b[0], id, d), p2)),
                }
            },
        }
    }
}

/// Encodes a complete Open PDU.
#[verifier::rlimit(100)]
#[verifier::spinoff_prover]
pub fn encode_open_pdu(session_id: u32, transaction_id: u32, packet_id: u32, timeout: u8,
    id: &Oid, descr: &[u8]) -> (r: Vec<u8>)
    requires
        1 <= id@.len() <= 128,
        descr@.len() <= 0xFFFF_0000,
    ensures
        ({
            let body = spec_open_body(timeout, id@, descr@);
            let h = Header {
                pdu_type: PduType::Open,
                flags: FLAG_NETWORK_BYTE_ORDER,
                session_id: session_id,
                transaction_id: transaction_id,
                packet_id: packet_id,
                payload_length: body.len() as u32,
            };
            r@ == spec_header(h) + body && r@.len() == 20 + body.len()
                && r@.len() % 4 == 0
        }),
{
    let mut body: Vec<u8> = Vec::new();
    body.push(timeout);
    body.push(0);
    body.push(0);
    body.push(0);
    put_oid(&mut body, id.parts(), false);
    put_octets(&mut body, descr);
    proof {
        lemma_spec_subids_len(id@);
        lemma_pad4(descr@.len() as int);
        assert(body@ =~= spec_open_body(timeout, id@, descr@));
    }
    finish_pdu(PduType::Open, FLAG_NETWORK_BYTE_ORDER, session_id, transaction_id, packet_id,
        body)
}

/// An Open body decodes back to what was encoded.
#[verifier::rlimit(100)]
#[verifier::spinoff_prover]
pub proof fn lemma_open_rt(timeout: u8, id: Seq<u32>, descr: Seq<u8>)
    requires
        1 <= id.len() <= 128,
        descr.len() <= 0xFFFF_FFFF,
    ensures
        ({
            let body = spec_open_body(timeout, id, descr);
            sp_open(body, true) matches Ok(m) && m.0 == (timeout, id, descr)
                && m.1 == body.len()
        }),
{
    let body = spec_open_body(timeout, id, descr);
    let ow = spec_oid_wire(id, false);
    let dw = spec_octets(descr);
    lemma_spec_subids_len(id);
    assert(body[0] == timeout);
    assert(body.subrange(4, 4 + ow.len() as int) =~= ow) by {
        assert(body.subrange(0, body.len() as int) =~= body);
        assert(body.subrange(4, 4 + ow.len() as int)
            =~= body.subrange(0, body.len() as int).subrange(4, 4 + ow.len() as int));
    }
    lemma_oid_at(body, 4, id, false);
    let p1 = 4 + ow.len() as int;
    assert(body.subrange(p1, p1 + dw.len() as int) =~= dw) by {
        assert(body.subrange(p1, p1 + dw.len() as int)
            =~= body.subrange(0, body.len() as int).subrange(p1, body.len() as int));
    }
    lemma_octets_at(body, p1, descr);
}

/// Reads an Open body from exactly the payload bytes; see [`sp_open`].
#[verifier::rlimit(100)]
#[verifier::spinoff_prover]
pub fn decode_open_pdu(data: &[u8], flags: u8) -> (r: Result<OpenPdu, CodecError>)
    ensures
        (r is Ok <==> sp_open(data@, flags & FLAG_NETWORK_BYTE_ORDER != 0) is Ok),
        r matches Ok(o) ==> (sp_open(data@, flags & FLAG_NETWORK_BYTE_ORDER != 0) matches
            Ok(m) && o.timeout == m.0.0 && o.id@ == m.0.1 && o.descr@ == m.0.2),
        r matches Err(e) ==> sp_open(data@, flags & FLAG_NETWORK_BYTE_ORDER != 0)
            matches Err(e2) && e == e2,
{
    let be = flags & FLAG_NETWORK_BYTE_ORDER != 0;
    if data.len() < 4 {
        return Err(CodecError::ShortRead);
    }
    let timeout = data[0];
    let ((parts, _), p1) = match get_oid(data, 4, be) {
        Ok(v) => v,
        Err(e) => {
            return Err(e);
        }
    };
    let id = match Oid::new(parts) {
        Ok(o) => o,
        Err(_) => {
            return Err(CodecError::Malformed);
        }
    };
    match get_octets(data, p1, be) {
        Ok((d, _)) => Ok(OpenPdu { timeout, id, descr: d }),
        Err(e) => Err(e),
    }
}

/// Why a session is being closed.
#[derive(Clone, Copy, Debug, PartialEq, Eq, Structural)]
pub enum CloseReason {
    Other,
    ParseError,
    ProtocolError,
    Timeouts,
    Shutdown,
    ByManager,
}

/// The wire code of each close reason.
pub open spec fn reason_code(rc: CloseReason) -> u8 {
    match rc {
        CloseReason::Other => 1,
        CloseReason::ParseError => 2,
        CloseReason::ProtocolError => 3,
        CloseReason::Timeouts => 4,
        CloseReason::Shutdown => 5,
        CloseReason::ByManager => 6,
    }
}

/// The close reason with the given code; unknown codes read as `Other`.
pub open spec fn reason_of(c: u8) -> CloseReason {
    if c == 2 { CloseReason::ParseError }
    else if c == 3 { CloseReason::ProtocolError }
    else if c == 4 { CloseReason::Timeouts }
    else if c == 5 { CloseReason::Shutdown }
    else if c == 6 { CloseReason::ByManager }
    else { CloseReason::Other }
}

impl CloseReason {
    /// The wire code of this reason.
    pub fn code(&self) -> (r: u8)
        ensures
            r == reason_code(*self),
    {
        match self {
            CloseReason::Other => 1,
            CloseReason::ParseError => 2,
            CloseReason::ProtocolError => 3,
            CloseReason::Timeouts => 4,
            CloseReason::Shutdown => 5,
            CloseReason::ByManager => 6,
        }
    }

    /// The reason with the given wire code; unknown codes give `Other`.
    pub fn from_code(c: u8) -> (r: CloseReason)
        ensures
            r == reason_of(c),
    {
        if c == 2 { CloseReason::ParseError }
        else if c == 3 { CloseReason::ProtocolError }
        else if c == 4 { CloseReason::Timeouts }
        else if c == 5 { CloseReason::Shutdown }
        else if c == 6 { CloseReason::ByManager }
        else { CloseReason::Other }
    }
}

/// A decoded Close body.
#[derive(Clone, Copy, Debug, PartialEq, Eq, Structural)]
pub struct ClosePdu {
    pub reason: CloseReason,
}

/// The Close body: the reason byte and three reserved bytes.
pub open spec fn spec_close_body(rc: CloseReason) -> Seq<u8> {
    seq![reason_code(rc), 0u8, 0u8, 0u8]
}

/// Reads a Close body; unknown reason codes read as `Other`.
pub open spec fn sp_close(b: Seq<u8>) -> Result<(CloseReason, int), CodecError> {
    if b.len() < 4 {
        Err(CodecError::ShortRead)
    } else {
        Ok((reason_of(b[0]), 4))
    }
}

/// Encodes a complete Close PDU; an unknown reason byte is sent as `Other`.
#[verifier::rlimit(100)]
#[verifier::spinoff_prover]
pub fn encode_close_pdu(session_id: u32, transaction_id: u32, packet_id: u32, reason: u8) -> (r:
    Vec<u8>)
    ensures
        ({
            let body = spec_close_body(reason_of(reason));
            let h = Header {
                pdu_type: PduType::Close,
                flags: FLAG_NETWORK_BYTE_ORDER,
                session_id: session_id,
                transaction_id: transaction_id,
                packet_id: packet_id,
                payload_length: body.len() as u32,
            };
            r@ == spec_header(h) + body && r@.len() == 24 && r@.len() % 4 == 0
        }),
{
    let rc = CloseReason::from_code(reason);
    let mut body: Vec<u8> = Vec::new();
    body.push(rc.code());
    body.push(0);
    body.push(0);
    body.push(0);
    proof {
        assert(body@ =~= spec_close_body(reason_of(reason)));
    }
    finish_pdu(PduType::Close, FLAG_NETWORK_BYTE_ORDER, session_id, transaction_id, packet_id,
        body)
}

/// A Close body decodes back to what was encoded.
#[verifier::rlimit(100)]
#[verifier::spinoff_prover]
pub proof fn lemma_close_rt(rc: CloseReason)
    ensures
        sp_close(spec_close_body(rc)) == Ok::<_, CodecError>((rc, 4int)),
{
    match rc {
        CloseReason::Other => {},
        CloseReason::ParseError => {},
        CloseReason::ProtocolError => {},
        CloseReason::Timeouts => {},
        CloseReason::Shutdown => {},
        CloseReason::ByManager => {},
    }
}

/// Reads a Close body from exactly the payload bytes; see [`sp_close`].
#[verifier::rlimit(100)]
#[verifier::spinoff_prover]
pub fn decode_close_pdu(data: &[u8]) -> (r: Result<ClosePdu, CodecError>)
    ensures
        (r is Ok <==> sp_close(data@) is Ok),
        r matches Ok(c) ==> (sp_close(data@) matches Ok(m) && c.reason == m.0),
        r matches Err(e) ==> sp_close(data@) matches Err(e2) && e == e2,
{
    if data.len() < 4 {
        return Err(CodecError::ShortRead);
    }
    Ok(ClosePdu { reason: CloseReason::from_code(data[0]) })
}

/// A decoded Register or Unregister body.
#[derive(Clone, Debug)]
pub struct RegisterPdu {
    pub context: Option<Vec<u8>>,
    pub timeout: u8,
    pub priority: u8,
    pub range_subid: u8,
    pub subtree: Oid,
    pub upper_bound: Option<u32>,
}

/// The Register body this library emits: optional context, the timeout,
/// priority and a zero range_subid, then the subtree OID.
pub open spec fn spec_register_body(c: Option<Seq<u8>>, timeout: u8, priority: u8,
    subtree: Seq<u32>) -> Seq<u8> {
    spec_context(c) + seq![timeout, priority, 0u8, 0u8] + spec_oid_wire(subtree, false)
}

/// The Unregister body: like Register with a reserved byte for the timeout.
pub open spec fn spec_unregister_body(c: Option<Seq<u8>>, priority: u8, subtree: Seq<u32>)
    -> Seq<u8> {
    spec_register_body(c, 0, priority, subtree)
}

/// Reads a Register or Unregister body: optional context, four fixed bytes,
/// the subtree OID (empty is `Malformed`), and an upper bound when
/// range_subid is non-zero.
pub open spec fn sp_register(b: Seq<u8>, be: bool, ctx: bool) -> Result<((Option<Seq<u8>>, u8,
    u8, u8, Seq<u32>, Option<u32>), int), CodecError> {
    match sp_context(b, 0, be, ctx) {
        Err(e) => Err(e),
        Ok((c, p0)) => if p0 + 4 > b.len() {
            Err(CodecError::ShortRead)
        } else {
            match sp_oid(b, p0 + 4, be) {
                Err(e) => Err(e),
                Ok(((st, _), p1)) => if st.len() == 0 {
                    Err(CodecError::Malformed)
                } else if b[p0 + 2] != 0 {
                    match sp_u32(b, p1, be) {
                        Err(e) => Err(e),
                        Ok((ub, p2)) => Ok(((c, b[p0], b[p0 + 1], b[p0 + 2], st, Some(ub)),
                            p2)),
                    }
                } else {
                    Ok(((c, b[p0], b[p0 + 1], 0, st, None), p1))
                },
            }
        },
    }
}

/// Appends four bytes.
fn put_fixed4(out: &mut Vec<u8>, a: u8, b: u8, c: u8, d: u8)
    ensures
        final(out)@ == old(out)@ + seq![a, b, c, d],
{
    out.push(a);
    out.push(b);
    out.push(c);
    out.push(d);
    proof {
        assert(final(out)@ =~= old(out)@ + seq![a, b, c, d]);
    }
}

/// Shared core of Register and Unregister: optional context, four fixed
/// bytes (the first is the timeout for Register, reserved for Unregister),
/// then the subtree.
#[verifier::rlimit(100)]
#[verifier::spinoff_prover]
fn encode_reg_like(t: PduType, session_id: u32, transaction_id: u32, packet_id: u32,
    subtree: &Oid, b0: u8, priority: u8, context: Option<&[u8]>) -> (r: Vec<u8>)
    requires
        1 <= subtree@.len() <= 128,
        ctx_wire_ok(opt_bytes(context)),
    ensures
        ({
            let body = spec_register_body(opt_bytes(context), b0, priority, subtree@);
            let fl = if context is Some {
                FLAG_NETWORK_BYTE_ORDER | FLAG_NON_DEFAULT_CONTEXT
            } else {
                FLAG_NETWORK_BYTE_ORDER
            };
            let h = Header {
                pdu_type: t,
                flags: fl,
                session_id: session_id,
                transaction_id: transaction_id,
                packet_id: packet_id,
                payload_length: body.len() as u32,
            };
            r@ == spec_header(h) + body && r@.len() == 20 + body.len()
                && r@.len() % 4 == 0
        }),
{
    let mut body: Vec<u8> = Vec::new();
    put_context(&mut body, context);
    proof {
        assert(Seq::<u8>::empty() + spec_context(opt_bytes(context))
            =~= spec_context(opt_bytes(context)));
    }
    let fl: u8 = if context.is_some() {
        FLAG_NETWORK_BYTE_ORDER | FLAG_NON_DEFAULT_CONTEXT
    } else {
        FLAG_NETWORK_BYTE_ORDER
    };
    put_fixed4(&mut body, b0, priority, 0, 0);
    put_oid(&mut body, subtree.parts(), false);
    proof {
        lemma_spec_subids_len(subtree@);
        if context is Some {
            lemma_pad4(context->0@.len() as int);
        }
        assert(body@ == spec_register_body(opt_bytes(context), b0, priority, subtree@));
    }
    finish_pdu(t, fl, session_id, transaction_id, packet_id, body)
}

/// Encodes a complete Register PDU (no instance registration, no range).
pub fn encode_register_pdu(session_id: u32, transaction_id: u32, packet_id: u32, subtree: &Oid,
    priority: u8, timeout: u8, context: Option<&[u8]>) -> (r: Vec<u8>)
    requires
        1 <= subtree@.len() <= 128,
        ctx_wire_ok(opt_bytes(context)),
    ensures
        ({
            let body = spec_register_body(opt_bytes(context), timeout, priority, subtree@);
            let fl = if context is Some {
                FLAG_NETWORK_BYTE_ORDER | FLAG_NON_DEFAULT_CONTEXT
            } else {
                FLAG_NETWORK_BYTE_ORDER
            };
            let h = Header {
                pdu_type: PduType::Register,
                flags: fl,
                session_id: session_id,
                transaction_id: transaction_id,
                packet_id: packet_id,
                payload_length: body.len() as u32,
            };
            r@ == spec_header(h) + body && r@.len() == 20 + body.len()
                && r@.len() % 4 == 0
        }),
{
    encode_reg_like(PduType::Register, session_id, transaction_id, packet_id, subtree, timeout,
        priority, context)
}

/// Encodes a complete Unregister PDU.
pub fn encode_unregister_pdu(session_id: u32, transaction_id: u32, packet_id: u32,
    subtree: &Oid, priority: u8, context: Option<&[u8]>) -> (r: Vec<u8>)
    requires
        1 <= subtree@.len() <= 128,
        ctx_wire_ok(opt_bytes(context)),
    ensures
        ({
            let body = spec_unregister_body(opt_bytes(context), priority, subtree@);
            let fl = if context is Some {
                FLAG_NETWORK_BYTE_ORDER | FLAG_NON_DEFAULT_CONTEXT
            } else {
                FLAG_NETWORK_BYTE_ORDER
            };
            let h = Header {
                pdu_type: PduType::Unregister,
                flags: fl,
                session_id: session_id,
                transaction_id: transaction_id,
                packet_id: packet_id,
                payload_length: body.len() as u32,
            };
            r@ == spec_header(h) + body && r@.len() == 20 + body.len()
                && r@.len() % 4 == 0
        }),
{
    encode_reg_like(PduType::Unregister, session_id, transaction_id, packet_id, subtree, 0,
        priority, context)
}

/// A Register (or Unregister) body decodes back to what was encoded.
#[verifier::rlimit(100)]
#[verifier::spinoff_prover]
pub proof fn lemma_register_rt(c: Option<Seq<u8>>, timeout: u8, priority: u8, subtree: Seq<u32>)
    requires
        1 <= subtree.len() <= 128,
        ctx_wire_ok(c),
    ensures
        ({
            let body = spec_register_body(c, timeout, priority, subtree);
            sp_register(body, true, c is Some) matches Ok(m)
                && m.0 == (c, timeout, priority, 0u8, subtree, None::<u32>)
                && m.1 == body.len()
        }),
{
    let body = spec_register_body(c, timeout, priority, subtree);
    let cw = spec_context(c);
    let ow = spec_oid_wire(subtree, false);
    lemma_spec_subids_len(subtree);
    assert(body.subrange(0, cw.len() as int) =~= cw) by {
        assert(body.subrange(0, body.len() as int) =~= body);
        assert(body.subrange(0, cw.len() as int)
            =~= body.subrange(0, body.len() as int).subrange(0, cw.len() as int));
    }
    lemma_context_at(body, 0, c);
    let p0 = cw.len() as int;
    assert(body[p0] == timeout && body[p0 + 1] == priority && body[p0 + 2] == 0);
    assert(body.subrange(p0 + 4, p0 + 4 + ow.len() as int) =~= ow) by {
        assert(body.subrange(p0 + 4, p0 + 4 + ow.len() as int)
            =~= body.subrange(0, body.len() as int).subrange(p0 + 4, body.len() as int));
    }
    lemma_oid_at(body, p0 + 4, subtree, false);
}

/// Reads a Register body from exactly the payload bytes; see
/// [`sp_register`].
#[verifier::rlimit(100)]
#[verifier::spinoff_prover]
pub fn decode_register_pdu(data: &[u8], flags: u8) -> (r: Result<RegisterPdu, CodecError>)
    ensures
        ({
            let sp = sp_register(data@, flags & FLAG_NETWORK_BYTE_ORDER != 0,
                flags & FLAG_NON_DEFAULT_CONTEXT != 0);
            &&& (r is Ok <==> sp is Ok)
            &&& (r matches Ok(o) ==> sp matches Ok(m) && opt_vec_matches(o.context, m.0.0)
                && o.timeout == m.0.1 && o.priority == m.0.2 && o.range_subid == m.0.3
                && o.subtree@ == m.0.4 && o.upper_bound == m.0.5)
            &&& (r matches Err(e) ==> sp matches Err(e2) && e == e2)
        }),
{
    let be = flags & FLAG_NETWORK_BYTE_ORDER != 0;
    let ctx = flags & FLAG_NON_DEFAULT_CONTEXT != 0;
    let (c, p0) = match get_context(data, 0, be, ctx) {
        Ok(v) => v,
        Err(e) => {
            return Err(e);
        }
    };
    if p0 > data.len() || data.len() - p0 < 4 {
        return Err(CodecError::ShortRead);
    }
    let timeout = data[p0];
    let priority = data[p0 + 1];
    let range_subid = data[p0 + 2];
    let ((parts, _), p1) = match get_oid(data, p0 + 4, be) {
        Ok(v) => v,
        Err(e) => {
            return Err(e);
        }
    };
    let subtree = match Oid::new(parts) {
        Ok(o) => o,
        Err(_) => {
            return Err(CodecError::Malformed);
        }
    };
    if range_subid != 0 {
        match get_u32(data, p1, be) {
            Ok((ub, _)) => Ok(RegisterPdu {
                context: c,
                timeout,
                priority,
                range_subid,
                subtree,
                upper_bound: Some(ub),
            }),
            Err(e) => Err(e),
        }
    } else {
        Ok(RegisterPdu {
            context: c,
            timeout,
            priority,
            range_subid,
            subtree,
            upper_bound: None,
        })
    }
}


/// The error carried by a Response.
#[derive(Clone, Copy, Debug, PartialEq, Eq, Structural)]
pub enum ResponseError {
    NoError,
    OpenFailed,
    NotOpen,
    IndexWrongType,
    IndexAlreadyAllocated,
    IndexNoneAvailable,
    IndexNotAllocated,
    UnsupportedContext,
    DuplicateRegistration,
    UnknownRegistration,
    UnknownAgentCaps,
    ParseError,
    RequestDenied,
    ProcessingError,
    /// Any other numeric code, preserved as it came.
    Other(u16),
}

/// The wire code of a response error.
pub open spec fn rsp_err_code(e: ResponseError) -> u16 {
    match e {
        ResponseError::NoError => 0,
        ResponseError::OpenFailed => 256,
        ResponseError::NotOpen => 257,
        ResponseError::IndexWrongType => 258,
        ResponseError::IndexAlreadyAllocated => 259,
        ResponseError::IndexNoneAvailable => 260,
        ResponseError::IndexNotAllocated => 261,
        ResponseError::UnsupportedContext => 262,
        ResponseError::DuplicateRegistration => 263,
        ResponseError::UnknownRegistration => 264,
        ResponseError::UnknownAgentCaps => 265,
        ResponseError::ParseError => 266,
        ResponseError::RequestDenied => 267,
        ResponseError::ProcessingError => 268,
        ResponseError::Other(c) => c,
    }
}

/// The response error with the given code; unnamed codes are preserved in
/// `Other`.
pub open spec fn rsp_err_of(c: u16) -> ResponseError {
    if c == 0 { ResponseError::NoError }
    else if c == 256 { ResponseError::OpenFailed }
    else if c == 257 { ResponseError::NotOpen }
    else if c == 258 { ResponseError::IndexWrongType }
    else if c == 259 { ResponseError::IndexAlreadyAllocated }
    else if c == 260 { ResponseError::IndexNoneAvailable }
    else if c == 261 { ResponseError::IndexNotAllocated }
    else if c == 262 { ResponseError::UnsupportedContext }
    else if c == 263 { ResponseError::DuplicateRegistration }
    else if c == 264 { ResponseError::UnknownRegistration }
    else if c == 265 { ResponseError::UnknownAgentCaps }
    else if c == 266 { ResponseError::ParseError }
    else if c == 267 { ResponseError::RequestDenied }
    else if c == 268 { ResponseError::ProcessingError }
    else { ResponseError::Other(c) }
}

impl ResponseError {
    /// The wire code of this error.
    pub fn code(&self) -> (r: u16)
        ensures
            r == rsp_err_code(*self),
    {
        match self {
            ResponseError::NoError => 0,
            ResponseError::OpenFailed => 256,
            ResponseError::NotOpen => 257,
            ResponseError::IndexWrongType => 258,
            ResponseError::IndexAlreadyAllocated => 259,
            ResponseError::IndexNoneAvailable => 260,
            ResponseError::IndexNotAllocated => 261,
            ResponseError::UnsupportedContext => 262,
            ResponseError::DuplicateRegistration => 263,
            ResponseError::UnknownRegistration => 264,
            ResponseError::UnknownAgentCaps => 265,
            ResponseError::ParseError => 266,
            ResponseError::RequestDenied => 267,
            ResponseError::ProcessingError => 268,
            ResponseError::Other(c) => *c,
        }
    }

    /// The error with the given wire code; the named codes map to their
    /// variants, every other code is preserved in `Other`.
    pub fn from_code(c: u16) -> (r: ResponseError)
        ensures
            r == rsp_err_of(c),
    {
        if c == 0 { ResponseError::NoError }
        else if c == 256 { ResponseError::OpenFailed }
        else if c == 257 { ResponseError::NotOpen }
        else if c == 258 { ResponseError::IndexWrongType }
        else if c == 259 { ResponseError::IndexAlreadyAllocated }
        else if c == 260 { ResponseError::IndexNoneAvailable }
        else if c == 261 { ResponseError::IndexNotAllocated }
        else if c == 262 { ResponseError::UnsupportedContext }
        else if c == 263 { ResponseError::DuplicateRegistration }
        else if c == 264 { ResponseError::UnknownRegistration }
        else if c == 265 { ResponseError::UnknownAgentCaps }
        else if c == 266 { ResponseError::ParseError }
        else if c == 267 { ResponseError::RequestDenied }
        else if c == 268 { ResponseError::ProcessingError }
        else { ResponseError::Other(c) }
    }
}

/// A numeric error code survives the trip through [`ResponseError`].
#[verifier::rlimit(100)]
#[verifier::spinoff_prover]
pub proof fn lemma_rsp_err_rt(c: u16)
    ensures
        rsp_err_code(rsp_err_of(c)) == c,
{
}

/// A decoded Response body.
#[derive(Clone, Debug)]
pub struct ResponsePdu {
    pub sys_uptime: u32,
    pub error: u16,
    pub index: u16,
    pub varbinds: Vec<VarBind>,
}

impl ResponsePdu {
    /// True when the response reports an error.
    pub fn is_error(&self) -> (r: bool)
        ensures
            r == (self.error != 0),
    {
        self.error != 0
    }
}

/// The Response body: system uptime, error, index, then the bindings.
pub open spec fn spec_response_body(uptime: u32, err: u16, idx: u16, vbs: Seq<VarBind>)
    -> Seq<u8> {
    spec_u32(uptime) + spec_u16(err) + spec_u16(idx) + spec_varbinds_bytes(vbs)
}

/// Reads a Response body: the three fixed fields, then bindings until the
/// payload is exactly exhausted.
pub open spec fn sp_response(b: Seq<u8>, be: bool) -> Result<((u32, u16, u16, Seq<(Seq<u32>,
    WireVal)>), int), CodecError> {
    match sp_u32(b, 0, be) {
        Err(e) => Err(e),
        Ok((up, p0)) => match sp_u16(b, p0, be) {
            Err(e) => Err(e),
            Ok((er, p1)) => match sp_u16(b, p1, be) {
                Err(e) => Err(e),
                Ok((ix, p2)) => match sp_varbinds(b, p2, be) {
                    Err(e) => Err(e),
                    Ok((ms, p3)) => Ok(((up, er, ix, ms), p3)),
                },
            },
        },
    }
}

/// Encodes a complete Response PDU: the caller's uptime, error, index, and
/// bindings are carried as given, whatever the error code.
#[verifier::rlimit(100)]
#[verifier::spinoff_prover]
pub fn encode_response_pdu(session_id: u32, transaction_id: u32, packet_id: u32,
    sys_uptime: u32, error: u16, index: u16, varbinds: &Vec<VarBind>) -> (r: Vec<u8>)
    requires
        vbs_wire_ok(varbinds@),
        spec_varbinds_bytes(varbinds@).len() <= 0x7FFF_0000,
    ensures
        ({
            let body = spec_response_body(sys_uptime, error, index, varbinds@);
            let h = Header {
                pdu_type: PduType::Response,
                flags: FLAG_NETWORK_BYTE_ORDER,
                session_id: session_id,
                transaction_id: transaction_id,
                packet_id: packet_id,
                payload_length: body.len() as u32,
            };
            r@ == spec_header(h) + body && r@.len() == 20 + body.len()
                && r@.len() % 4 == 0
        }),
{
    let mut body: Vec<u8> = Vec::new();
    put_u32(&mut body, sys_uptime);
    put_u16(&mut body, error);
    put_u16(&mut body, index);
    put_varbinds(&mut body, varbinds);
    proof {
        assert(body@ =~= spec_response_body(sys_uptime, error, index, varbinds@));
        lemma_varbinds_mod4(varbinds@);
    }
    finish_pdu(PduType::Response, FLAG_NETWORK_BYTE_ORDER, session_id, transaction_id,
        packet_id, body)
}

/// A Response body decodes back to what was encoded.
#[verifier::rlimit(100)]
#[verifier::spinoff_prover]
pub proof fn lemma_response_rt(uptime: u32, err: u16, idx: u16, vbs: Seq<VarBind>)
    requires
        vbs_wire_ok(vbs),
    ensures
        ({
            let body = spec_response_body(uptime, err, idx, vbs);
            sp_response(body, true) matches Ok(m) && m.0.0 == uptime && m.0.1 == err
                && m.0.2 == idx && vbs_match(vbs, m.0.3) && m.1 == body.len()
        }),
{
    let body = spec_response_body(uptime, err, idx, vbs);
    assert(body.subrange(0, 4) =~= spec_u32(uptime)) by {
        assert(body.subrange(0, body.len() as int) =~= body);
        assert(body.subrange(0, 4)
            =~= body.subrange(0, body.len() as int).subrange(0, 4));
    }
    lemma_u32_at(body, 0, uptime);
    assert(body.subrange(4, 6) =~= spec_u16(err)) by {
        assert(body.subrange(4, 6)
            =~= body.subrange(0, body.len() as int).subrange(4, 6));
    }
    lemma_u16_at(body, 4, err);
    assert(body.subrange(6, 8) =~= spec_u16(idx)) by {
        assert(body.subrange(6, 8)
            =~= body.subrange(0, body.len() as int).subrange(6, 8));
    }
    lemma_u16_at(body, 6, idx);
    assert(body.subrange(8, body.len() as int) =~= spec_varbinds_bytes(vbs)) by {
        assert(body.subrange(8, body.len() as int)
            =~= body.subrange(0, body.len() as int).subrange(8, body.len() as int));
    }
    lemma_varbinds_at(body, 8, vbs);
}

/// Reads a Response body from exactly the payload bytes; see
/// [`sp_response`].
#[verifier::rlimit(100)]
#[verifier::spinoff_prover]
pub fn decode_response_pdu(data: &[u8], flags: u8) -> (r: Result<ResponsePdu, CodecError>)
    ensures
        ({
            let sp = sp_response(data@, flags & FLAG_NETWORK_BYTE_ORDER != 0);
            &&& (r is Ok <==> sp is Ok)
            &&& (r matches Ok(o) ==> sp matches Ok(m) && o.sys_uptime == m.0.0
                && o.error == m.0.1 && o.index == m.0.2 && vbs_match(o.varbinds@, m.0.3))
            &&& (r matches Err(e) ==> sp matches Err(e2) && e == e2)
        }),
{
    let be = flags & FLAG_NETWORK_BYTE_ORDER != 0;
    let (up, p0) = match get_u32(data, 0, be) {
        Ok(v) => v,
        Err(e) => {
            return Err(e);
        }
    };
    let (er, p1) = match get_u16(data, p0, be) {
        Ok(v) => v,
        Err(e) => {
            return Err(e);
        }
    };
    let (ix, p2) = match get_u16(data, p1, be) {
        Ok(v) => v,
        Err(e) => {
            return Err(e);
        }
    };
    match get_varbinds(data, p2, be) {
        Ok((vbs, _)) => Ok(ResponsePdu { sys_uptime: up, error: er, index: ix, varbinds: vbs }),
        Err(e) => Err(e),
    }
}

/// A decoded Get, GetNext, or similar body: a context and search ranges.
#[derive(Clone, Debug)]
pub struct GetPdu {
    pub context: Option<Vec<u8>>,
    pub ranges: Vec<SearchRange>,
}

/// The Get and GetNext body: optional context, then search ranges filling
/// the payload.
pub open spec fn spec_get_body(c: Option<Seq<u8>>, rs: Seq<SearchRange>) -> Seq<u8> {
    spec_context(c) + spec_ranges_bytes(rs)
}

/// Reads a Get or GetNext body.
pub open spec fn sp_get(b: Seq<u8>, be: bool, ctx: bool) -> Result<((Option<Seq<u8>>,
    Seq<((Seq<u32>, bool), Seq<u32>)>), int), CodecError> {
    match sp_context(b, 0, be, ctx) {
        Err(e) => Err(e),
        Ok((c, p0)) => match sp_ranges(b, p0, be) {
            Err(e) => Err(e),
            Ok((ms, p1)) => Ok(((c, ms), p1)),
        },
    }
}

/// A Get body decodes back to what was encoded.
#[verifier::rlimit(100)]
#[verifier::spinoff_prover]
pub proof fn lemma_get_rt(c: Option<Seq<u8>>, rs: Seq<SearchRange>)
    requires
        ctx_wire_ok(c),
        rs_wire_ok(rs),
    ensures
        ({
            let body = spec_get_body(c, rs);
            sp_get(body, true, c is Some) matches Ok(m) && m.0.0 == c
                && rs_match(rs, m.0.1) && m.1 == body.len()
        }),
{
    let body = spec_get_body(c, rs);
    let cw = spec_context(c);
    assert(body.subrange(0, cw.len() as int) =~= cw) by {
        assert(body.subrange(0, body.len() as int) =~= body);
        assert(body.subrange(0, cw.len() as int)
            =~= body.subrange(0, body.len() as int).subrange(0, cw.len() as int));
    }
    lemma_context_at(body, 0, c);
    assert(body.subrange(cw.len() as int, body.len() as int) =~= spec_ranges_bytes(rs)) by {
        assert(body.subrange(cw.len() as int, body.len() as int)
            =~= body.subrange(0, body.len() as int).subrange(cw.len() as int,
                body.len() as int));
    }
    lemma_ranges_at(body, cw.len() as int, rs);
}

/// Reads a Get or GetNext body from exactly the payload bytes; see
/// [`sp_get`].
#[verifier::rlimit(100)]
#[verifier::spinoff_prover]
pub fn decode_get_pdu(data: &[u8], flags: u8) -> (r: Result<GetPdu, CodecError>)
    ensures
        ({
            let sp = sp_get(data@, flags & FLAG_NETWORK_BYTE_ORDER != 0,
                flags & FLAG_NON_DEFAULT_CONTEXT != 0);
            &&& (r is Ok <==> sp is Ok)
            &&& (r matches Ok(o) ==> sp matches Ok(m) && opt_vec_matches(o.context, m.0.0)
                && rs_match(o.ranges@, m.0.1))
            &&& (r matches Err(e) ==> sp matches Err(e2) && e == e2)
        }),
{
    let be = flags & FLAG_NETWORK_BYTE_ORDER != 0;
    let ctx = flags & FLAG_NON_DEFAULT_CONTEXT != 0;
    let (c, p0) = match get_context(data, 0, be, ctx) {
        Ok(v) => v,
        Err(e) => {
            return Err(e);
        }
    };
    match get_ranges(data, p0, be) {
        Ok((rs, _)) => Ok(GetPdu { context: c, ranges: rs }),
        Err(e) => Err(e),
    }
}

/// A decoded GetBulk body.
#[derive(Clone, Debug)]
pub struct GetBulkPdu {
    pub context: Option<Vec<u8>>,
    pub non_repeaters: u16,
    pub max_repetitions: u16,
    pub ranges: Vec<SearchRange>,
}

/// The GetBulk body: optional context, two counters, then search ranges.
pub open spec fn spec_getbulk_body(c: Option<Seq<u8>>, nr: u16, mr: u16,
    rs: Seq<SearchRange>) -> Seq<u8> {
    spec_context(c) + spec_u16(nr) + spec_u16(mr) + spec_ranges_bytes(rs)
}

/// Reads a GetBulk body.
pub open spec fn sp_getbulk(b: Seq<u8>, be: bool, ctx: bool) -> Result<((Option<Seq<u8>>, u16,
    u16, Seq<((Seq<u32>, bool), Seq<u32>)>), int), CodecError> {
    match sp_context(b, 0, be, ctx) {
        Err(e) => Err(e),
        Ok((c, p0)) => match sp_u16(b, p0, be) {
            Err(e) => Err(e),
            Ok((nr, p1)) => match sp_u16(b, p1, be) {
                Err(e) => Err(e),
                Ok((mr, p2)) => match sp_ranges(b, p2, be) {
                    Err(e) => Err(e),
                    Ok((ms, p3)) => Ok(((c, nr, mr, ms), p3)),
                },
            },
        },
    }
}

/// A GetBulk body decodes back to what was encoded.
#[verifier::rlimit(100)]
#[verifier::spinoff_prover]
pub proof fn lemma_getbulk_rt(c: Option<Seq<u8>>, nr: u16, mr: u16, rs: Seq<SearchRange>)
    requires
        ctx_wire_ok(c),
        rs_wire_ok(rs),
    ensures
        ({
            let body = spec_getbulk_body(c, nr, mr, rs);
            sp_getbulk(body, true, c is Some) matches Ok(m) && m.0.0 == c && m.0.1 == nr
                && m.0.2 == mr && rs_match(rs, m.0.3) && m.1 == body.len()
        }),
{
    let body = spec_getbulk_body(c, nr, mr, rs);
    let cw = spec_context(c);
    let p0 = cw.len() as int;
    assert(body.subrange(0, p0) =~= cw) by {
        assert(body.subrange(0, body.len() as int) =~= body);
        assert(body.subrange(0, p0)
            =~= body.subrange(0, body.len() as int).subrange(0, p0));
    }
    lemma_context_at(body, 0, c);
    assert(body.subrange(p0, p0 + 2) =~= spec_u16(nr)) by {
        assert(body.subrange(p0, p0 + 2)
            =~= body.subrange(0, body.len() as int).subrange(p0, p0 + 2));
    }
    lemma_u16_at(body, p0, nr);
    assert(body.subrange(p0 + 2, p0 + 4) =~= spec_u16(mr)) by {
        assert(body.subrange(p0 + 2, p0 + 4)
            =~= body.subrange(0, body.len() as int).subrange(p0 + 2, p0 + 4));
    }
    lemma_u16_at(body, p0 + 2, mr);
    assert(body.subrange(p0 + 4, body.len() as int) =~= spec_ranges_bytes(rs)) by {
        assert(body.subrange(p0 + 4, body.len() as int)
            =~= body.subrange(0, body.len() as int).subrange(p0 + 4, body.len() as int));
    }
    lemma_ranges_at(body, p0 + 4, rs);
}

/// Reads a GetBulk body from exactly the payload bytes; see [`sp_getbulk`].
#[verifier::rlimit(100)]
#[verifier::spinoff_prover]
pub fn decode_getbulk_pdu(data: &[u8], flags: u8) -> (r: Result<GetBulkPdu, CodecError>)
    ensures
        ({
            let sp = sp_getbulk(data@, flags & FLAG_NETWORK_BYTE_ORDER != 0,
                flags & FLAG_NON_DEFAULT_CONTEXT != 0);
            &&& (r is Ok <==> sp is Ok)
            &&& (r matches Ok(o) ==> sp matches Ok(m) && opt_vec_matches(o.context, m.0.0)
                && o.non_repeaters == m.0.1 && o.max_repetitions == m.0.2
                && rs_match(o.ranges@, m.0.3))
            &&& (r matches Err(e) ==> sp matches Err(e2) && e == e2)
        }),
{
    let be = flags & FLAG_NETWORK_BYTE_ORDER != 0;
    let ctx = flags & FLAG_NON_DEFAULT_CONTEXT != 0;
    let (c, p0) = match get_context(data, 0, be, ctx) {
        Ok(v) => v,
        Err(e) => {
            return Err(e);
        }
    };
    let (nr, p1) = match get_u16(data, p0, be) {
        Ok(v) => v,
        Err(e) => {
            return Err(e);
        }
    };
    let (mr, p2) = match get_u16(data, p1, be) {
        Ok(v) => v,
        Err(e) => {
            return Err(e);
        }
    };
    match get_ranges(data, p2, be) {
        Ok((rs, _)) => Ok(GetBulkPdu {
            context: c,
            non_repeaters: nr,
            max_repetitions: mr,
            ranges: rs,
        }),
        Err(e) => Err(e),
    }
}

/// A decoded TestSet or Notify body: a context and variable bindings.
#[derive(Clone, Debug)]
pub struct TestSetPdu {
    pub context: Option<Vec<u8>>,
    pub varbinds: Vec<VarBind>,
}

/// The TestSet and Notify body: optional context, then bindings filling the
/// payload.
pub open spec fn spec_testset_body(c: Option<Seq<u8>>, vbs: Seq<VarBind>) -> Seq<u8> {
    spec_context(c) + spec_varbinds_bytes(vbs)
}

/// Reads a TestSet or Notify body.
pub open spec fn sp_testset(b: Seq<u8>, be: bool, ctx: bool) -> Result<((Option<Seq<u8>>,
    Seq<(Seq<u32>, WireVal)>), int), CodecError> {
    match sp_context(b, 0, be, ctx) {
        Err(e) => Err(e),
        Ok((c, p0)) => match sp_varbinds(b, p0, be) {
            Err(e) => Err(e),
            Ok((ms, p1)) => Ok(((c, ms), p1)),
        },
    }
}

/// A TestSet or Notify body decodes back to what was encoded.
#[verifier::rlimit(100)]
#[verifier::spinoff_prover]
pub proof fn lemma_testset_rt(c: Option<Seq<u8>>, vbs: Seq<VarBind>)
    requires
        ctx_wire_ok(c),
        vbs_wire_ok(vbs),
    ensures
        ({
            let body = spec_testset_body(c, vbs);
            sp_testset(body, true, c is Some) matches Ok(m) && m.0.0 == c
                && vbs_match(vbs, m.0.1) && m.1 == body.len()
        }),
{
    let body = spec_testset_body(c, vbs);
    let cw = spec_context(c);
    lemma_concat_sub(cw, spec_varbinds_bytes(vbs));
    lemma_context_at(body, 0, c);
    lemma_varbinds_at(body, cw.len() as int, vbs);
}

/// Reads a TestSet body from exactly the payload bytes; see [`sp_testset`].
#[verifier::rlimit(100)]
#[verifier::spinoff_prover]
pub fn decode_testset_pdu(data: &[u8], flags: u8) -> (r: Result<TestSetPdu, CodecError>)
    ensures
        ({
            let sp = sp_testset(data@, flags & FLAG_NETWORK_BYTE_ORDER != 0,
                flags & FLAG_NON_DEFAULT_CONTEXT != 0);
            &&& (r is Ok <==> sp is Ok)
            &&& (r matches Ok(o) ==> sp matches Ok(m) && opt_vec_matches(o.context, m.0.0)
                && vbs_match(o.varbinds@, m.0.1))
            &&& (r matches Err(e) ==> sp matches Err(e2) && e == e2)
        }),
{
    let be = flags & FLAG_NETWORK_BYTE_ORDER != 0;
    let ctx = flags & FLAG_NON_DEFAULT_CONTEXT != 0;
    let (c, p0) = match get_context(data, 0, be, ctx) {
        Ok(v) => v,
        Err(e) => {
            return Err(e);
        }
    };
    match get_varbinds(data, p0, be) {
        Ok((vbs, _)) => Ok(TestSetPdu { context: c, varbinds: vbs }),
        Err(e) => Err(e),
    }
}

/// Encodes a complete Notify PDU.
#[verifier::rlimit(100)]
#[verifier::spinoff_prover]
pub fn encode_notify_pdu(session_id: u32, transaction_id: u32, packet_id: u32,
    varbinds: &Vec<VarBind>, context: Option<&[u8]>) -> (r: Vec<u8>)
    requires
        vbs_wire_ok(varbinds@),
        spec_varbinds_bytes(varbinds@).len() <= 0x7FFF_0000,
        ctx_wire_ok(opt_bytes(context)),
    ensures
        ({
            let body = spec_testset_body(opt_bytes(context), varbinds@);
            let fl = if context is Some {
                FLAG_NETWORK_BYTE_ORDER | FLAG_NON_DEFAULT_CONTEXT
            } else {
                FLAG_NETWORK_BYTE_ORDER
            };
            let h = Header {
                pdu_type: PduType::Notify,
                flags: fl,
                session_id: session_id,
                transaction_id: transaction_id,
                packet_id: packet_id,
                payload_length: body.len() as u32,
            };
            r@ == spec_header(h) + body && r@.len() == 20 + body.len()
                && r@.len() % 4 == 0
        }),
{
    let mut body: Vec<u8> = Vec::new();
    put_context(&mut body, context);
    let fl: u8 = if context.is_some() {
        FLAG_NETWORK_BYTE_ORDER | FLAG_NON_DEFAULT_CONTEXT
    } else {
        FLAG_NETWORK_BYTE_ORDER
    };
    put_varbinds(&mut body, varbinds);
    proof {
        if context is Some {
            lemma_pad4(context->0@.len() as int);
        }
        lemma_varbinds_mod4(varbinds@);
        assert(body@ =~= spec_testset_body(opt_bytes(context), varbinds@));
    }
    finish_pdu(PduType::Notify, fl, session_id, transaction_id, packet_id, body)
}

/// Encodes a complete Ping PDU: an empty body.
#[verifier::rlimit(100)]
#[verifier::spinoff_prover]
pub fn encode_ping_pdu(session_id: u32, transaction_id: u32, packet_id: u32) -> (r: Vec<u8>)
    ensures
        ({
            let h = Header {
                pdu_type: PduType::Ping,
                flags: FLAG_NETWORK_BYTE_ORDER,
                session_id: session_id,
                transaction_id: transaction_id,
                packet_id: packet_id,
                payload_length: 0,
            };
            r@ == spec_header(h) && r@.len() == 20 && r@.len() % 4 == 0
        }),
{
    let body: Vec<u8> = Vec::new();
    proof {
        assert(body@ =~= Seq::<u8>::empty());
    }
    let r = finish_pdu(PduType::Ping, FLAG_NETWORK_BYTE_ORDER, session_id, transaction_id,
        packet_id, body);
    proof {
        assert(r@ =~= spec_header(Header {
            pdu_type: PduType::Ping,
            flags: FLAG_NETWORK_BYTE_ORDER,
            session_id: session_id,
            transaction_id: transaction_id,
            packet_id: packet_id,
            payload_length: 0,
        }));
    }
    r
}


/// Framing round trip: for any PDU emitted as a header naming its body's
/// length followed by that body, reading the header back gives the header
/// (with NETWORK_BYTE_ORDER forced on), and the body sits in exactly the
/// advertised payload bytes after the fixed 20.
pub proof fn lemma_frame_rt(h: Header, body: Seq<u8>)
    requires
        body.len() == h.payload_length,
    ensures
        ({
            let full = spec_header(h) + body;
            &&& crate::header::sp_header(full) == Ok::<Header, CodecError>(Header {
                flags: h.flags | FLAG_NETWORK_BYTE_ORDER,
                ..h
            })
            &&& full.len() == 20 + h.payload_length
            &&& full.subrange(20, full.len() as int) == body
        }),
{
    let full = spec_header(h) + body;
    lemma_concat_sub(spec_header(h), body);
    crate::header::lemma_header_rt(full, h);
}

} // verus!
