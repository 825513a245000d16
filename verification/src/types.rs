//! SMI values: the tagged payloads that variable bindings carry.

use vstd::prelude::*;
use vstd::string::StringSliceAdditionalSpecFns;

use crate::oid::{Oid, dec_str, oid_str, push_dec, push_dec64};

verus! {

/// The decimal bytes joined by comma-space, the inside of the bracketed
/// byte-list text.
pub open spec fn bytes_debug_inner(b: Seq<u8>) -> Seq<char>
    decreases b.len(),
{
    if b.len() == 0 {
        Seq::empty()
    } else if b.len() == 1 {
        dec_str(b[0] as nat)
    } else {
        dec_str(b[0] as nat) + seq![',', ' '] + bytes_debug_inner(b.drop_first())
    }
}

/// The bracketed byte-list text of raw bytes.
pub open spec fn bytes_debug_str(b: Seq<u8>) -> Seq<char> {
    seq!['['] + bytes_debug_inner(b) + seq![']']
}

/// The dotted-decimal text of the four address bytes.
pub open spec fn ip_text(b: Seq<u8>) -> Seq<char> {
    dec_str(b[0] as nat) + seq!['.'] + dec_str(b[1] as nat) + seq!['.']
        + dec_str(b[2] as nat) + seq!['.'] + dec_str(b[3] as nat)
}

proof fn lemma_bytes_debug_snoc(b: Seq<u8>, i: int)
    requires
        1 <= i < b.len(),
    ensures
        bytes_debug_inner(b.take(i + 1)) =~= bytes_debug_inner(b.take(i))
            + seq![',', ' '] + dec_str(b[i] as nat),
    decreases i,
{
    if i == 1 {
        assert(b.take(1)[0] == b[0]);
        assert(b.take(2)[0] == b[0] && b.take(2)[1] == b[1]);
        assert(b.take(2).drop_first() =~= seq![b[1]]);
        assert(bytes_debug_inner(seq![b[1]]) == dec_str(b[1] as nat));
    } else {
        lemma_bytes_debug_snoc(b.drop_first(), i - 1);
        assert(b.take(i + 1)[0] == b[0]);
        assert(b.take(i)[0] == b[0]);
        assert(b.take(i + 1).drop_first() =~= b.drop_first().take(i));
        assert(b.take(i).drop_first() =~= b.drop_first().take(i - 1));
        assert(b.drop_first()[i - 1] == b[i]);
    }
}

fn push_bytes_debug(out: &mut String, b: &[u8])
    ensures
        final(out)@ == old(out)@ + bytes_debug_str(b@),
{
    proof {
        reveal_strlit("[");
        reveal_strlit("]");
        reveal_strlit(", ");
    }
    out.append("[");
    let ghost mid0 = out@;
    let mut i: usize = 0;
    while i < b.len()
        invariant
            0 <= i <= b@.len(),
            out@ == mid0 + bytes_debug_inner(b@.take(i as int)),
            "["@ == seq!['['],
            "]"@ == seq![']'],
            ", "@ == seq![',', ' '],
        decreases b@.len() - i,
    {
        if i > 0 {
            out.append(", ");
        }
        push_dec(out, b[i] as u32);
        proof {
            if i == 0 {
                assert(b@.take(1)[0] == b@[0]);
                assert(b@.take(0) =~= Seq::<u8>::empty());
                assert(bytes_debug_inner(b@.take(0)) == Seq::<char>::empty());
                if b@.len() == 1 {
                    assert(b@.take(1) =~= b@);
                }
                assert(bytes_debug_inner(b@.take(1)) == dec_str(b@[0] as nat)) by {
                    assert(b@.take(1).drop_first() =~= Seq::<u8>::empty());
                    if b@.take(1).len() > 1 {
                        assert(false);
                    }
                }
                assert(out@ =~= mid0 + bytes_debug_inner(b@.take(1)));
            } else {
                lemma_bytes_debug_snoc(b@, i as int);
                assert(out@ =~= mid0 + (bytes_debug_inner(b@.take(i as int))
                    + seq![',', ' '] + dec_str(b@[i as int] as nat)));
            }
        }
        i += 1;
    }
    out.append("]");
    proof {
        assert(b@.take(b@.len() as int) =~= b@);
        assert(final(out)@ =~= old(out)@ + bytes_debug_str(b@));
    }
}

/// Relies on str::from_utf8: a success is text whose UTF-8 encoding is
/// exactly the input bytes.
#[verifier::external_body]
fn utf8_text<'a>(b: &'a [u8]) -> (r: Option<&'a str>)
    ensures
        r matches Some(t) ==> t.spec_bytes() == b@,
{
    std::str::from_utf8(b).ok()
}

/// A typed SMI value, tagged on the wire by a 16-bit type code.
#[derive(Clone, Debug)]
pub enum Value {
    /// Signed 32-bit integer, code 2.
    Integer(i32),
    /// Raw bytes with length prefix and padding, code 4.
    OctetString(Vec<u8>),
    /// No value, code 5.
    Null,
    /// An object identifier, code 6.
    ObjectIdentifier(Oid),
    /// Four IPv4 address bytes, carried in octet-string form, code 64.
    IpAddress([u8; 4]),
    /// Unsigned 32-bit counter, code 65.
    Counter32(u32),
    /// Unsigned 32-bit gauge, code 66.
    Gauge32(u32),
    /// Hundredths of a second, code 67.
    TimeTicks(u32),
    /// Opaque bytes, code 68.
    Opaque(Vec<u8>),
    /// Unsigned 64-bit counter, code 70.
    Counter64(u64),
    /// The requested object does not exist, code 128.
    NoSuchObject,
    /// The requested instance does not exist, code 129.
    NoSuchInstance,
    /// The walk has left the implemented region, code 130.
    EndOfMibView,
}

impl Value {
    /// The 16-bit AgentX type code of this value.
    pub open spec fn spec_code(self) -> u16 {
        match self {
            Value::Integer(_) => 2,
            Value::OctetString(_) => 4,
            Value::Null => 5,
            Value::ObjectIdentifier(_) => 6,
            Value::IpAddress(_) => 64,
            Value::Counter32(_) => 65,
            Value::Gauge32(_) => 66,
            Value::TimeTicks(_) => 67,
            Value::Opaque(_) => 68,
            Value::Counter64(_) => 70,
            Value::NoSuchObject => 128,
            Value::NoSuchInstance => 129,
            Value::EndOfMibView => 130,
        }
    }

    /// The 16-bit AgentX type code of this value.
    pub fn code(&self) -> (r: u16)
        ensures
            r == self.spec_code(),
    {
        match self {
            Value::Integer(_) => 2,
            Value::OctetString(_) => 4,
            Value::Null => 5,
            Value::ObjectIdentifier(_) => 6,
            Value::IpAddress(_) => 64,
            Value::Counter32(_) => 65,
            Value::Gauge32(_) => 66,
            Value::TimeTicks(_) => 67,
            Value::Opaque(_) => 68,
            Value::Counter64(_) => 70,
            Value::NoSuchObject => 128,
            Value::NoSuchInstance => 129,
            Value::EndOfMibView => 130,
        }
    }

    /// Builds an `Integer` value.
    pub fn integer(v: i32) -> (r: Self)
        ensures
            r == Value::Integer(v),
    {
        Value::Integer(v)
    }

    /// Builds an `OctetString` value from raw bytes.
    pub fn octet_string(v: Vec<u8>) -> (r: Self)
        ensures
            r == Value::OctetString(v),
    {
        Value::OctetString(v)
    }

    /// Builds an `OctetString` value from text.
    pub fn string(s: &str) -> (r: Self)
        ensures
            r matches Value::OctetString(b) && b@ == s.spec_bytes(),
    {
        let b = s.as_bytes_vec();
        Value::OctetString(b)
    }

    /// Builds an `ObjectIdentifier` value.
    pub fn oid(o: Oid) -> (r: Self)
        ensures
            r == Value::ObjectIdentifier(o),
    {
        Value::ObjectIdentifier(o)
    }

    /// Builds an `IpAddress` value from the four address bytes.
    pub fn ip_address(addr: [u8; 4]) -> (r: Self)
        ensures
            r == Value::IpAddress(addr),
    {
        Value::IpAddress(addr)
    }

    /// Builds a `Counter32` value.
    pub fn counter32(v: u32) -> (r: Self)
        ensures
            r == Value::Counter32(v),
    {
        Value::Counter32(v)
    }

    /// Builds a `Gauge32` value.
    pub fn gauge32(v: u32) -> (r: Self)
        ensures
            r == Value::Gauge32(v),
    {
        Value::Gauge32(v)
    }

    /// Builds a `TimeTicks` value.
    pub fn timeticks(v: u32) -> (r: Self)
        ensures
            r == Value::TimeTicks(v),
    {
        Value::TimeTicks(v)
    }

    /// Builds an `Opaque` value.
    pub fn opaque(v: Vec<u8>) -> (r: Self)
        ensures
            r == Value::Opaque(v),
    {
        Value::Opaque(v)
    }

    /// Builds a `Counter64` value.
    pub fn counter64(v: u64) -> (r: Self)
        ensures
            r == Value::Counter64(v),
    {
        Value::Counter64(v)
    }

    /// The variant's name, for diagnostics.
    pub fn kind_name(&self) -> (r: &'static str)
        ensures
            (self is Integer ==> r@ == "Integer"@),
            (self is OctetString ==> r@ == "OctetString"@),
            (self is Null ==> r@ == "Null"@),
            (self is ObjectIdentifier ==> r@ == "ObjectIdentifier"@),
            (self is IpAddress ==> r@ == "IpAddress"@),
            (self is Counter32 ==> r@ == "Counter32"@),
            (self is Gauge32 ==> r@ == "Gauge32"@),
            (self is TimeTicks ==> r@ == "TimeTicks"@),
            (self is Opaque ==> r@ == "Opaque"@),
            (self is Counter64 ==> r@ == "Counter64"@),
            (self is NoSuchObject ==> r@ == "NoSuchObject"@),
            (self is NoSuchInstance ==> r@ == "NoSuchInstance"@),
            (self is EndOfMibView ==> r@ == "EndOfMibView"@),
    {
        match self {
            Value::Integer(_) => "Integer",
            Value::OctetString(_) => "OctetString",
            Value::Null => "Null",
            Value::ObjectIdentifier(_) => "ObjectIdentifier",
            Value::IpAddress(_) => "IpAddress",
            Value::Counter32(_) => "Counter32",
            Value::Gauge32(_) => "Gauge32",
            Value::TimeTicks(_) => "TimeTicks",
            Value::Opaque(_) => "Opaque",
            Value::Counter64(_) => "Counter64",
            Value::NoSuchObject => "NoSuchObject",
            Value::NoSuchInstance => "NoSuchInstance",
            Value::EndOfMibView => "EndOfMibView",
        }
    }

    /// The payload of an `Integer`, if this is one.
    pub fn as_integer(&self) -> (r: Option<i32>)
        ensures
            r matches Some(v) ==> self == Value::Integer(v),
            r is None ==> !(self is Integer),
    {
        match self {
            Value::Integer(v) => Some(*v),
            _ => None,
        }
    }

    /// The payload of an `OctetString`, if this is one.
    pub fn as_octet_string<'a>(&'a self) -> (r: Option<&'a [u8]>)
        ensures
            r matches Some(v) ==> (self matches Value::OctetString(b) && v@ == b@),
            r is None ==> !(self is OctetString),
    {
        match self {
            Value::OctetString(v) => Some(v.as_slice()),
            _ => None,
        }
    }

    /// The payload of an `ObjectIdentifier`, if this is one.
    pub fn as_oid<'a>(&'a self) -> (r: Option<&'a Oid>)
        ensures
            r matches Some(o) ==> self == Value::ObjectIdentifier(*o),
            r is None ==> !(self is ObjectIdentifier),
    {
        match self {
            Value::ObjectIdentifier(o) => Some(o),
            _ => None,
        }
    }

    /// The payload of a `Counter32`, if this is one.
    pub fn as_counter32(&self) -> (r: Option<u32>)
        ensures
            r matches Some(v) ==> self == Value::Counter32(v),
            r is None ==> !(self is Counter32),
    {
        match self {
            Value::Counter32(v) => Some(*v),
            _ => None,
        }
    }

    /// The payload of a `Counter64`, if this is one.
    pub fn as_counter64(&self) -> (r: Option<u64>)
        ensures
            r matches Some(v) ==> self == Value::Counter64(v),
            r is None ==> !(self is Counter64),
    {
        match self {
            Value::Counter64(v) => Some(*v),
            _ => None,
        }
    }

    /// The payload of an `OctetString` as text, when the bytes are valid
    /// UTF-8.
    pub fn as_str<'a>(&'a self) -> (r: Option<&'a str>)
        ensures
            r matches Some(t) ==> (self matches Value::OctetString(b)
                && t.spec_bytes() == b@),
            !(self is OctetString) ==> r is None,
    {
        match self {
            Value::OctetString(v) => utf8_text(v.as_slice()),
            _ => None,
        }
    }

    /// The value's display text: numbers in decimal, OIDs dotted, octet
    /// strings as their text when they are valid UTF-8 and as a bracketed
    /// byte list otherwise, and the fixed names of the empty variants.
    pub fn display_text(&self) -> (r: String)
        requires
            self matches Value::ObjectIdentifier(o) ==> o.wf(),
        ensures
            self matches Value::Integer(x) ==> r@ == (if x < 0 {
                seq!['-'] + dec_str((0 - x as int) as nat)
            } else {
                dec_str(x as nat)
            }),
            self matches Value::OctetString(b) ==> (
                vstd::utf8::encode_utf8(r@) == b@ || r@ == bytes_debug_str(b@)),
            self is Null ==> r@ == "NULL"@,
            self matches Value::ObjectIdentifier(o) ==> r@ == oid_str(o@),
            self matches Value::IpAddress(a) ==> r@ == ip_text(a@),
            self matches Value::Counter32(x) ==> r@ == dec_str(x as nat),
            self matches Value::Gauge32(x) ==> r@ == dec_str(x as nat),
            self matches Value::TimeTicks(x) ==> r@ == dec_str(x as nat),
            self matches Value::Opaque(b) ==> r@ == bytes_debug_str(b@),
            self matches Value::Counter64(x) ==> r@ == dec_str(x as nat),
            self is NoSuchObject ==> r@ == "noSuchObject"@,
            self is NoSuchInstance ==> r@ == "noSuchInstance"@,
            self is EndOfMibView ==> r@ == "endOfMibView"@,
    {
        match self {
            Value::Integer(x) => {
                let mut out = String::new();
                if *x < 0 {
                    proof {
                        reveal_strlit("-");
                    }
                    out.append("-");
                    let m = (-(*x as i64)) as u64;
                    push_dec64(&mut out, m);
                    proof {
                        assert(out@ =~= seq!['-'] + dec_str((0 - *x as int) as nat));
                    }
                } else {
                    push_dec(&mut out, *x as u32);
                    proof {
                        assert(out@ =~= dec_str(*x as nat));
                    }
                }
                out
            }
            Value::OctetString(b) => {
                match utf8_text(b.as_slice()) {
                    Some(t) => t.to_owned(),
                    None => {
                        let mut out = String::new();
                        push_bytes_debug(&mut out, b.as_slice());
                        proof {
                            assert(out@ =~= bytes_debug_str(b@));
                        }
                        out
                    }
                }
            }
            Value::Null => "NULL".to_owned(),
            Value::ObjectIdentifier(o) => o.to_string(),
            Value::IpAddress(a) => {
                proof {
                    reveal_strlit(".");
                }
                let mut out = String::new();
                push_dec(&mut out, a[0] as u32);
                out.append(".");
                push_dec(&mut out, a[1] as u32);
                out.append(".");
                push_dec(&mut out, a[2] as u32);
                out.append(".");
                push_dec(&mut out, a[3] as u32);
                proof {
                    assert(out@ =~= ip_text(a@));
                }
                out
            }
            Value::Counter32(x) => {
                let mut out = String::new();
                push_dec(&mut out, *x);
                out
            }
            Value::Gauge32(x) => {
                let mut out = String::new();
                push_dec(&mut out, *x);
                out
            }
            Value::TimeTicks(x) => {
                let mut out = String::new();
                push_dec(&mut out, *x);
                out
            }
            Value::Opaque(b) => {
                let mut out = String::new();
                push_bytes_debug(&mut out, b.as_slice());
                proof {
                    assert(out@ =~= bytes_debug_str(b@));
                }
                out
            }
            Value::Counter64(x) => {
                let mut out = String::new();
                push_dec64(&mut out, *x);
                out
            }
            Value::NoSuchObject => "noSuchObject".to_owned(),
            Value::NoSuchInstance => "noSuchInstance".to_owned(),
            Value::EndOfMibView => "endOfMibView".to_owned(),
        }
    }
}

} // verus!
