//! Core of an AgentX (RFC 2741) subagent toolkit: the wire codec for AgentX
//! protocol data units and the OID-keyed radix trie that backs subagent MIB
//! storage, with machine-checked contracts on both.

pub mod bodies;
pub mod codec;
pub mod header;
pub mod oid;
pub mod pdu;
pub mod trie;
pub mod types;

pub use oid::Oid;
pub use oid::OidError;
pub use trie::OidTrie;
pub use codec::CodecError;
pub use types::Value;
pub use header::Header;
pub use header::PduType;
pub use pdu::VarBind;
pub use pdu::SearchRange;
pub use bodies::{
    ClosePdu, CloseReason, GetBulkPdu, GetPdu, OpenPdu, RegisterPdu, ResponseError,
    ResponsePdu, TestSetPdu, decode_close_pdu, decode_get_pdu, decode_getbulk_pdu,
    decode_open_pdu, decode_register_pdu, decode_response_pdu, decode_testset_pdu,
    encode_close_pdu, encode_notify_pdu, encode_open_pdu, encode_ping_pdu,
    encode_register_pdu, encode_response_pdu, encode_unregister_pdu,
};
pub use header::decode_header;
