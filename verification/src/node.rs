//! Peers as the routing table sees them: a 64-byte identity (the SHA3-512
//! of the endpoint's canonical bytes), the endpoint itself, and when the
//! peer last answered. XOR-metric helpers live here too.

use vstd::prelude::*;
use crate::crypto::{sha3_512, sha3_512_of};
use crate::endpoint::Endpoint;

verus! {

/// Seconds a peer stays presumed alive after its last sign of life.
pub const NODE_ALIVE_SECONDS: u64 = 60;

/// The identity a peer derives from its endpoint.
pub open spec fn spec_node_id(ep: Endpoint) -> Seq<u8> {
    sha3_512_of(ep.spec_bytes())
}

/// What a routing-table entry persists.
#[derive(Debug, Clone, Copy, PartialEq, Eq, Structural)]
pub struct NodeInfo {
    pub endpoint: Endpoint,
}

/// A known peer.
#[derive(Debug)]
pub struct Node {
    pub id: Vec<u8>,
    pub endpoint: Endpoint,
    pub last_ping: u64,
}

/// Mathematical view of a [`Node`].
#[verifier::ext_equal]
pub struct NodeV {
    pub id: Seq<u8>,
    pub endpoint: Endpoint,
    pub last_ping: u64,
}

impl View for Node {
    type V = NodeV;

    open spec fn view(&self) -> NodeV {
        NodeV { id: self.id@, endpoint: self.endpoint, last_ping: self.last_ping }
    }
}

impl Clone for Node {
    fn clone(&self) -> (r: Self)
        ensures
            r@ == self@,
    {
        Node {
            id: vstd::slice::slice_to_vec(self.id.as_slice()),
            endpoint: self.endpoint,
            last_ping: self.last_ping,
        }
    }
}

impl NodeV {
    /// An entry whose identity matches its endpoint.
    pub open spec fn wf(self) -> bool {
        &&& self.id == spec_node_id(self.endpoint)
        &&& self.id.len() == 64
    }

    /// Alive iff the last sign of life is recent: strictly under the
    /// threshold.
    pub open spec fn spec_is_alive(self, now: u64) -> bool {
        now - self.last_ping < NODE_ALIVE_SECONDS
    }
}

impl Node {
    /// A fresh entry for a peer first heard from at `now`.
    pub fn new(sock_addr: &Endpoint, now: u64) -> (r: Node)
        ensures
            r@ == (NodeV { id: spec_node_id(*sock_addr), endpoint: *sock_addr, last_ping: now }),
            r@.wf(),
    {
        let node_id = endpoint_to_node_id(sock_addr);
        Node { id: node_id, endpoint: *sock_addr, last_ping: now }
    }

    /// Record a sign of life.
    pub fn update_alive(&mut self, now: u64)
        ensures
            final(self)@ == (NodeV { last_ping: now, ..old(self)@ }),
    {
        self.last_ping = now;
    }

    /// Is the peer presumed alive at `now`?
    pub fn is_alive(&self, now: u64) -> (r: bool)
        ensures
            r == self@.spec_is_alive(now),
    {
        if now <= self.last_ping {
            true
        } else {
            now - self.last_ping < NODE_ALIVE_SECONDS
        }
    }

    /// The record the table would persist for this peer.
    pub fn info(&self) -> (r: NodeInfo)
        ensures
            r.endpoint == self@.endpoint,
    {
        NodeInfo { endpoint: self.endpoint }
    }
}

/// The identity of the peer at `endpoint`.
pub fn endpoint_to_node_id(endpoint: &Endpoint) -> (r: Vec<u8>)
    ensures
        r@ == spec_node_id(*endpoint),
        r@.len() == 64,
{
    let ep_bytes = endpoint.to_bytes();
    sha3_512(ep_bytes.as_slice())
}

/// Big-endian-lexicographic order on equal-length ids.
pub open spec fn spec_id_lt(lhs: Seq<u8>, rhs: Seq<u8>) -> bool
    decreases lhs.len(),
{
    if lhs.len() == 0 {
        false
    } else if lhs[0] < rhs[0] {
        true
    } else if lhs[0] > rhs[0] {
        false
    } else {
        spec_id_lt(lhs.drop_first(), rhs.drop_first())
    }
}

/// True iff `lhs` orders strictly before `rhs`.
pub fn node_id_cmp(lhs: &[u8], rhs: &[u8]) -> (r: bool)
    requires
        lhs@.len() == rhs@.len(),
    ensures
        r == spec_id_lt(lhs@, rhs@),
{
    let mut i: usize = 0;
    proof {
        assert(lhs@.subrange(0, lhs@.len() as int) =~= lhs@);
        assert(rhs@.subrange(0, rhs@.len() as int) =~= rhs@);
    }
    while i < lhs.len()
        invariant
            i <= lhs@.len(),
            lhs@.len() == rhs@.len(),
            spec_id_lt(lhs@, rhs@) == spec_id_lt(
                lhs@.subrange(i as int, lhs@.len() as int),
                rhs@.subrange(i as int, rhs@.len() as int),
            ),
        decreases lhs@.len() - i,
    {
        let l = *vstd::slice::slice_index_get(lhs, i);
        let r = *vstd::slice::slice_index_get(rhs, i);
        proof {
            let lsub = lhs@.subrange(i as int, lhs@.len() as int);
            let rsub = rhs@.subrange(i as int, rhs@.len() as int);
            assert(lsub[0] == lhs@[i as int] && rsub[0] == rhs@[i as int]);
            assert(lsub.drop_first() =~= lhs@.subrange(i + 1, lhs@.len() as int));
            assert(rsub.drop_first() =~= rhs@.subrange(i + 1, rhs@.len() as int));
        }
        if l < r {
            return true;
        }
        if l > r {
            return false;
        }
        i = i + 1;
    }
    proof {
        assert(lhs@.subrange(lhs@.len() as int, lhs@.len() as int).len() == 0);
    }
    false
}

/// The byte-wise XOR distance between two ids.
pub open spec fn spec_distance(lhs: Seq<u8>, rhs: Seq<u8>) -> Seq<u8> {
    Seq::new(lhs.len(), |i: int| lhs[i] ^ rhs[i])
}

/// XOR distance, executable.
pub fn node_id_distance(lhs: &[u8], rhs: &[u8]) -> (r: Vec<u8>)
    requires
        lhs@.len() == rhs@.len(),
        lhs@.len() > 0,
    ensures
        r@ == spec_distance(lhs@, rhs@),
{
    let mut ret: Vec<u8> = Vec::new();
    let mut i: usize = 0;
    while i < lhs.len()
        invariant
            i <= lhs@.len(),
            lhs@.len() == rhs@.len(),
            ret@.len() == i,
            forall|k: int| 0 <= k < i ==> ret@[k] == (lhs@[k] ^ rhs@[k]),
        decreases lhs@.len() - i,
    {
        let l = *vstd::slice::slice_index_get(lhs, i);
        let r = *vstd::slice::slice_index_get(rhs, i);
        ret.push(l ^ r);
        i = i + 1;
    }
    proof {
        assert(ret@ =~= spec_distance(lhs@, rhs@));
    }
    ret
}

/// Leading zero bits of one byte.
pub open spec fn spec_u8_clz(b: u8) -> nat {
    if b >= 128 {
        0
    } else if b >= 64 {
        1
    } else if b >= 32 {
        2
    } else if b >= 16 {
        3
    } else if b >= 8 {
        4
    } else if b >= 4 {
        5
    } else if b >= 2 {
        6
    } else if b >= 1 {
        7
    } else {
        8
    }
}

/// Leading zero bits of a byte string, scanned from the front.
pub open spec fn spec_clz_bytes(s: Seq<u8>) -> nat
    decreases s.len(),
{
    if s.len() == 0 {
        0
    } else if s[0] == 0 {
        (8 + spec_clz_bytes(s.drop_first())) as nat
    } else {
        spec_u8_clz(s[0])
    }
}

/// Leading zero bits of one byte, executable.
fn u8_clz(b: u8) -> (r: u8)
    ensures
        r == spec_u8_clz(b),
{
    if b >= 128 {
        0
    } else if b >= 64 {
        1
    } else if b >= 32 {
        2
    } else if b >= 16 {
        3
    } else if b >= 8 {
        4
    } else if b >= 4 {
        5
    } else if b >= 2 {
        6
    } else if b >= 1 {
        7
    } else {
        8
    }
}

/// Count the leading zero bits of a byte string.
pub fn u8_slice_clz(v: &[u8]) -> (r: usize)
    requires
        8 * v@.len() <= usize::MAX,
    ensures
        r == spec_clz_bytes(v@),
{
    let mut i: usize = 0;
    proof {
        assert(v@.subrange(0, v@.len() as int) =~= v@);
    }
    while i < v.len()
        invariant
            i <= v@.len(),
            8 * v@.len() <= usize::MAX,
            spec_clz_bytes(v@) == 8 * i + spec_clz_bytes(v@.subrange(i as int, v@.len() as int)),
        decreases v@.len() - i,
    {
        let b = *vstd::slice::slice_index_get(v, i);
        proof {
            let sub = v@.subrange(i as int, v@.len() as int);
            assert(sub[0] == v@[i as int]);
            assert(sub.drop_first() =~= v@.subrange(i + 1, v@.len() as int));
        }
        if b != 0 {
            return i * 8 + u8_clz(b) as usize;
        }
        i = i + 1;
    }
    proof {
        assert(v@.subrange(v@.len() as int, v@.len() as int).len() == 0);
    }
    v.len() * 8
}

/// The number of leading shared bits of two ids names their bucket: ids
/// never differ before that bit, and buckets run from 0 (no shared prefix)
/// to eight bits per byte (identical ids).
pub fn calculate_bucket_index(lhs: &[u8], rhs: &[u8]) -> (r: usize)
    requires
        lhs@.len() == rhs@.len(),
        0 < lhs@.len() <= 64,
    ensures
        r == spec_clz_bytes(spec_distance(lhs@, rhs@)),
        r <= 8 * lhs@.len(),
{
    proof {
        lemma_clz_bytes_le(spec_distance(lhs@, rhs@));
    }
    let distance = node_id_distance(lhs, rhs);
    u8_slice_clz(distance.as_slice())
}

/// Leading zeros never exceed the bit width.
pub proof fn lemma_clz_bytes_le(s: Seq<u8>)
    ensures
        spec_clz_bytes(s) <= 8 * s.len(),
    decreases s.len(),
{
    if s.len() > 0 && s[0] == 0 {
        lemma_clz_bytes_le(s.drop_first());
    }
}

/// Distance is symmetric.
pub proof fn lemma_distance_symmetric(a: Seq<u8>, b: Seq<u8>)
    requires
        a.len() == b.len(),
    ensures
        spec_distance(a, b) == spec_distance(b, a),
{
    assert forall|i: int| 0 <= i < a.len() implies (#[trigger] spec_distance(a, b)[i])
        == spec_distance(b, a)[i] by {
        let x = a[i];
        let y = b[i];
        assert((x ^ y) == (y ^ x)) by (bit_vector);
    }
    assert(spec_distance(a, b) =~= spec_distance(b, a));
}

/// The distance of an id to itself is zero everywhere.
pub proof fn lemma_distance_self(a: Seq<u8>)
    ensures
        spec_distance(a, a) == Seq::new(a.len(), |i: int| 0u8),
{
    assert forall|i: int| 0 <= i < a.len() implies (#[trigger] spec_distance(a, a)[i]) == 0u8 by {
        let x = a[i];
        assert((x ^ x) == 0u8) by (bit_vector);
    }
    assert(spec_distance(a, a) =~= Seq::new(a.len(), |i: int| 0u8));
}

/// An id shares every bit with itself: its own bucket index is the full bit
/// width, 512 for 64-byte ids.
pub proof fn lemma_bucket_index_self(a: Seq<u8>)
    ensures
        spec_clz_bytes(spec_distance(a, a)) == 8 * a.len(),
{
    lemma_distance_self(a);
    lemma_clz_zero_seq(a.len());
}

/// A string of zero bytes has all its bits leading zeros.
pub proof fn lemma_clz_zero_seq(n: nat)
    ensures
        spec_clz_bytes(Seq::new(n, |i: int| 0u8)) == 8 * n,
    decreases n,
{
    let s = Seq::new(n, |i: int| 0u8);
    if n > 0 {
        lemma_clz_zero_seq((n - 1) as nat);
        assert(s.drop_first() =~= Seq::new((n - 1) as nat, |i: int| 0u8));
    }
}

} // verus!
