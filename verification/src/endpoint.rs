//! A peer's UDP endpoint: an IPv4 address and a port, with a canonical
//! six-byte encoding that identities and wire messages use.

use vstd::prelude::*;
use vstd::bytes::{spec_u16_to_le_bytes, spec_u16_from_le_bytes, u16_to_le_bytes, u16_from_le_bytes,
    lemma_auto_spec_u16_to_from_le_bytes};
use vstd::slice::slice_subrange;
use crate::codec::push_bytes;

verus! {

/// An IPv4 endpoint.
#[derive(Debug, Clone, Copy, PartialEq, Eq, Hash, Structural)]
pub struct Endpoint {
    pub a: u8,
    pub b: u8,
    pub c: u8,
    pub d: u8,
    pub port: u16,
}

impl Endpoint {
    /// The canonical encoding: the four address octets, then the port in
    /// two little-endian bytes.
    pub open spec fn spec_bytes(self) -> Seq<u8> {
        seq![self.a, self.b, self.c, self.d] + spec_u16_to_le_bytes(self.port)
    }

    /// The endpoint six bytes decode to.
    pub open spec fn spec_from_bytes(s: Seq<u8>) -> Endpoint {
        Endpoint {
            a: s[0],
            b: s[1],
            c: s[2],
            d: s[3],
            port: spec_u16_from_le_bytes(s.subrange(4, 6)),
        }
    }

    /// The canonical encoding, executable.
    pub fn to_bytes(&self) -> (r: Vec<u8>)
        ensures
            r@ == self.spec_bytes(),
            r@.len() == 6,
    {
        proof {
            lemma_auto_spec_u16_to_from_le_bytes();
        }
        let mut out: Vec<u8> = Vec::new();
        out.push(self.a);
        out.push(self.b);
        out.push(self.c);
        out.push(self.d);
        let port_bytes = u16_to_le_bytes(self.port);
        push_bytes(&mut out, port_bytes.as_slice());
        proof {
            assert(out@ =~= self.spec_bytes());
        }
        out
    }

    /// Decode six bytes back into an endpoint.
    pub fn from_bytes(s: &[u8], off: usize) -> (r: Endpoint)
        requires
            off + 6 <= s@.len(),
        ensures
            r == Endpoint::spec_from_bytes(s@.subrange(off as int, off + 6)),
    {
        let _slice_len = s.len();
        let port_slice = slice_subrange(s, off + 4, off + 6);
        let r = Endpoint {
            a: *vstd::slice::slice_index_get(s, off),
            b: *vstd::slice::slice_index_get(s, off + 1),
            c: *vstd::slice::slice_index_get(s, off + 2),
            d: *vstd::slice::slice_index_get(s, off + 3),
            port: u16_from_le_bytes(port_slice),
        };
        proof {
            assert(s@.subrange(off as int, off + 6).subrange(4, 6) =~= s@.subrange(
                off + 4,
                off + 6,
            ));
        }
        r
    }
}

/// Encoding then decoding an endpoint gives it back.
pub proof fn lemma_endpoint_round_trip(ep: Endpoint)
    ensures
        Endpoint::spec_from_bytes(ep.spec_bytes()) == ep,
        ep.spec_bytes().len() == 6,
{
    lemma_auto_spec_u16_to_from_le_bytes();
    assert(ep.spec_bytes().subrange(4, 6) =~= spec_u16_to_le_bytes(ep.port));
}

} // verus!
