//! The fixed 20-byte AgentX header and the PDU type tags.

use vstd::prelude::*;

use crate::codec::{
    spec_u32, sp_u32, CodecError, put_u32, get_u32, res_matches, lemma_u32_at,
};

verus! {

/// The AgentX protocol version this library speaks.
pub const AGENTX_VERSION: u8 = 1;

/// The byte length of the fixed header.
pub const HEADER_SIZE: usize = 20;

/// Header flag bit: the registration is for a single instance.
pub const FLAG_INSTANCE_REGISTRATION: u8 = 1;

/// Header flag bit: a new index value is requested.
pub const FLAG_NEW_INDEX: u8 = 2;

/// Header flag bit: any index value is acceptable.
pub const FLAG_ANY_INDEX: u8 = 4;

/// Header flag bit: a context octet string opens the body.
pub const FLAG_NON_DEFAULT_CONTEXT: u8 = 8;

/// Header flag bit: multi-byte fields are big-endian.
pub const FLAG_NETWORK_BYTE_ORDER: u8 = 16;

/// The kind of a PDU, the header's second byte.
#[derive(Clone, Copy, Debug, PartialEq, Eq, Structural)]
pub enum PduType {
    Open,
    Close,
    Register,
    Unregister,
    Get,
    GetNext,
    GetBulk,
    TestSet,
    CommitSet,
    UndoSet,
    CleanupSet,
    Notify,
    Ping,
    Response,
}

/// The wire code of each PDU type.
pub open spec fn pdu_type_code(t: PduType) -> u8 {
    match t {
        PduType::Open => 1,
        PduType::Close => 2,
        PduType::Register => 3,
        PduType::Unregister => 4,
        PduType::Get => 5,
        PduType::GetNext => 6,
        PduType::GetBulk => 7,
        PduType::TestSet => 8,
        PduType::CommitSet => 9,
        PduType::UndoSet => 10,
        PduType::CleanupSet => 11,
        PduType::Notify => 12,
        PduType::Ping => 13,
        PduType::Response => 18,
    }
}

/// The PDU type with the given wire code, if the code is known.
pub open spec fn spec_pdu_type_of(c: u8) -> Option<PduType> {
    if c == 1 { Some(PduType::Open) }
    else if c == 2 { Some(PduType::Close) }
    else if c == 3 { Some(PduType::Register) }
    else if c == 4 { Some(PduType::Unregister) }
    else if c == 5 { Some(PduType::Get) }
    else if c == 6 { Some(PduType::GetNext) }
    else if c == 7 { Some(PduType::GetBulk) }
    else if c == 8 { Some(PduType::TestSet) }
    else if c == 9 { Some(PduType::CommitSet) }
    else if c == 10 { Some(PduType::UndoSet) }
    else if c == 11 { Some(PduType::CleanupSet) }
    else if c == 12 { Some(PduType::Notify) }
    else if c == 13 { Some(PduType::Ping) }
    else if c == 18 { Some(PduType::Response) }
    else { None }
}

impl PduType {
    /// The wire code of this PDU type.
    pub fn code(&self) -> (r: u8)
        ensures
            r == pdu_type_code(*self),
    {
        match self {
            PduType::Open => 1,
            PduType::Close => 2,
            PduType::Register => 3,
            PduType::Unregister => 4,
            PduType::Get => 5,
            PduType::GetNext => 6,
            PduType::GetBulk => 7,
            PduType::TestSet => 8,
            PduType::CommitSet => 9,
            PduType::UndoSet => 10,
            PduType::CleanupSet => 11,
            PduType::Notify => 12,
            PduType::Ping => 13,
            PduType::Response => 18,
        }
    }

    /// The PDU type with the given wire code.
    pub fn from_code(c: u8) -> (r: Option<PduType>)
        ensures
            r == spec_pdu_type_of(c),
    {
        if c == 1 { Some(PduType::Open) }
        else if c == 2 { Some(PduType::Close) }
        else if c == 3 { Some(PduType::Register) }
        else if c == 4 { Some(PduType::Unregister) }
        else if c == 5 { Some(PduType::Get) }
        else if c == 6 { Some(PduType::GetNext) }
        else if c == 7 { Some(PduType::GetBulk) }
        else if c == 8 { Some(PduType::TestSet) }
        else if c == 9 { Some(PduType::CommitSet) }
        else if c == 10 { Some(PduType::UndoSet) }
        else if c == 11 { Some(PduType::CleanupSet) }
        else if c == 12 { Some(PduType::Notify) }
        else if c == 13 { Some(PduType::Ping) }
        else if c == 18 { Some(PduType::Response) }
        else { None }
    }
}

/// The fixed header of every PDU.
#[derive(Clone, Copy, Debug, PartialEq, Eq, Structural)]
pub struct Header {
    pub pdu_type: PduType,
    pub flags: u8,
    pub session_id: u32,
    pub transaction_id: u32,
    pub packet_id: u32,
    pub payload_length: u32,
}

impl Header {
    /// True when the body's multi-byte fields are big-endian.
    pub open spec fn spec_is_be(self) -> bool {
        self.flags & FLAG_NETWORK_BYTE_ORDER != 0
    }

    /// True when the body's multi-byte fields are big-endian.
    pub fn is_be(&self) -> (r: bool)
        ensures
            r == self.spec_is_be(),
    {
        self.flags & FLAG_NETWORK_BYTE_ORDER != 0
    }

    /// True when a context octet string opens the body.
    pub open spec fn spec_has_context(self) -> bool {
        self.flags & FLAG_NON_DEFAULT_CONTEXT != 0
    }

    /// True when a context octet string opens the body.
    pub fn has_context(&self) -> (r: bool)
        ensures
            r == self.spec_has_context(),
    {
        self.flags & FLAG_NON_DEFAULT_CONTEXT != 0
    }
}

/// The 20 header bytes: version 1, type code, flags, a zero byte, then four
/// big-endian 32-bit fields. Every emitted header has NETWORK_BYTE_ORDER set.
pub open spec fn spec_header(h: Header) -> Seq<u8> {
    seq![1u8, pdu_type_code(h.pdu_type), h.flags | FLAG_NETWORK_BYTE_ORDER, 0u8]
        + spec_u32(h.session_id) + spec_u32(h.transaction_id) + spec_u32(h.packet_id)
        + spec_u32(h.payload_length)
}

/// Reads a header at the start of `b`: `ShortRead` under 20 bytes,
/// `UnsupportedVersion` when the version byte is not 1, `Malformed` on an
/// unknown type code. The flags byte decides the byte order of the header's
/// own 32-bit fields.
pub open spec fn sp_header(b: Seq<u8>) -> Result<Header, CodecError> {
    if b.len() < 20 {
        Err(CodecError::ShortRead)
    } else if b[0] != 1 {
        Err(CodecError::UnsupportedVersion)
    } else {
        match spec_pdu_type_of(b[1]) {
            None => Err(CodecError::Malformed),
            Some(t) => {
                let flags = b[2];
                let be = flags & FLAG_NETWORK_BYTE_ORDER != 0;
                match (sp_u32(b, 4, be), sp_u32(b, 8, be), sp_u32(b, 12, be), sp_u32(b, 16,
                    be)) {
                    (Ok((sid, _)), Ok((tid, _)), Ok((pid, _)), Ok((plen, _))) => Ok(Header {
                        pdu_type: t,
                        flags: flags,
                        session_id: sid,
                        transaction_id: tid,
                        packet_id: pid,
                        payload_length: plen,
                    }),
                    _ => Err(CodecError::ShortRead),
                }
            }
        }
    }
}

/// Appends the 20 header bytes; NETWORK_BYTE_ORDER is forced on.
pub fn put_header(out: &mut Vec<u8>, h: &Header)
    ensures
        final(out)@ == old(out)@ + spec_header(*h),
{
    out.push(1u8);
    out.push(h.pdu_type.code());
    out.push(h.flags | FLAG_NETWORK_BYTE_ORDER);
    out.push(0u8);
    put_u32(out, h.session_id);
    put_u32(out, h.transaction_id);
    put_u32(out, h.packet_id);
    put_u32(out, h.payload_length);
    proof {
        assert(final(out)@ =~= old(out)@ + spec_header(*h));
    }
}

/// Reads the header at the start of `data`; see [`sp_header`].
pub fn decode_header(data: &[u8]) -> (r: Result<Header, CodecError>)
    ensures
        r == sp_header(data@),
{
    if data.len() < 20 {
        return Err(CodecError::ShortRead);
    }
    if data[0] != 1 {
        return Err(CodecError::UnsupportedVersion);
    }
    let t = match PduType::from_code(data[1]) {
        Some(t) => t,
        None => {
            return Err(CodecError::Malformed);
        }
    };
    let flags = data[2];
    let be = flags & FLAG_NETWORK_BYTE_ORDER != 0;
    let sid = match get_u32(data, 4, be) {
        Ok(v) => v.0,
        Err(e) => {
            return Err(e);
        }
    };
    let tid = match get_u32(data, 8, be) {
        Ok(v) => v.0,
        Err(e) => {
            return Err(e);
        }
    };
    let pid = match get_u32(data, 12, be) {
        Ok(v) => v.0,
        Err(e) => {
            return Err(e);
        }
    };
    let plen = match get_u32(data, 16, be) {
        Ok(v) => v.0,
        Err(e) => {
            return Err(e);
        }
    };
    Ok(Header {
        pdu_type: t,
        flags: flags,
        session_id: sid,
        transaction_id: tid,
        packet_id: pid,
        payload_length: plen,
    })
}

/// A header decodes back to itself (with NETWORK_BYTE_ORDER set), wherever
/// its bytes open the buffer.
pub proof fn lemma_header_rt(full: Seq<u8>, h: Header)
    requires
        full.len() >= 20,
        full.subrange(0, 20) == spec_header(h),
    ensures
        sp_header(full) == Ok::<Header, CodecError>(Header {
            flags: h.flags | FLAG_NETWORK_BYTE_ORDER,
            ..h
        }),
{
    let w = spec_header(h);
    assert(full[0] == w[0] && full[1] == w[1] && full[2] == w[2] && full[3] == w[3]);
    assert(full[0] == 1u8);
    assert(full[1] == pdu_type_code(h.pdu_type));
    assert(spec_pdu_type_of(pdu_type_code(h.pdu_type)) == Some(h.pdu_type)) by {
        match h.pdu_type {
            PduType::Open => {},
            PduType::Close => {},
            PduType::Register => {},
            PduType::Unregister => {},
            PduType::Get => {},
            PduType::GetNext => {},
            PduType::GetBulk => {},
            PduType::TestSet => {},
            PduType::CommitSet => {},
            PduType::UndoSet => {},
            PduType::CleanupSet => {},
            PduType::Notify => {},
            PduType::Ping => {},
            PduType::Response => {},
        }
    }
    let hf = h.flags;
    assert((hf | FLAG_NETWORK_BYTE_ORDER) & FLAG_NETWORK_BYTE_ORDER != 0) by (bit_vector);
    assert(full.subrange(4, 8) =~= spec_u32(h.session_id)) by {
        assert(full.subrange(4, 8) =~= full.subrange(0, 20).subrange(4, 8));
        assert(w.subrange(4, 8) =~= spec_u32(h.session_id));
    }
    assert(full.subrange(8, 12) =~= spec_u32(h.transaction_id)) by {
        assert(full.subrange(8, 12) =~= full.subrange(0, 20).subrange(8, 12));
        assert(w.subrange(8, 12) =~= spec_u32(h.transaction_id));
    }
    assert(full.subrange(12, 16) =~= spec_u32(h.packet_id)) by {
        assert(full.subrange(12, 16) =~= full.subrange(0, 20).subrange(12, 16));
        assert(w.subrange(12, 16) =~= spec_u32(h.packet_id));
    }
    assert(full.subrange(16, 20) =~= spec_u32(h.payload_length)) by {
        assert(full.subrange(16, 20) =~= full.subrange(0, 20).subrange(16, 20));
        assert(w.subrange(16, 20) =~= spec_u32(h.payload_length));
    }
    lemma_u32_at(full, 4, h.session_id);
    lemma_u32_at(full, 8, h.transaction_id);
    lemma_u32_at(full, 12, h.packet_id);
    lemma_u32_at(full, 16, h.payload_length);
}

} // verus!
