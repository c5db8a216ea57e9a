//! Virtual peers: full DHT peers wired together in memory. Datagrams are
//! handed from peer to peer directly, so a whole network runs inside one
//! process, deterministically.

use vstd::prelude::*;
use crate::crypto::random_bytes;
use crate::dht_manager::{DHTManager, Outgoing};
use crate::endpoint::Endpoint;

verus! {

/// Most datagrams one delivery round may process; traffic beyond it is
/// dropped, as a lossy network would.
pub const DELIVERY_BUDGET: usize = 10000;

/// Relies on rand::Rng::gen_range over 0..bound: the draw lies below the
/// bound; nothing more is assumed of it.
#[verifier::external_body]
fn random_below(bound: usize) -> (r: usize)
    requires
        bound > 0,
    ensures
        r < bound,
{
    rand::Rng::gen_range(&mut rand::thread_rng(), 0..bound)
}

/// One in-memory peer.
#[derive(Debug)]
pub struct VirtualPeer {
    pub dht_manager: DHTManager,
    pub name: Vec<u8>,
}

impl VirtualPeer {
    /// A fresh peer under `name`, listening at `endpoint`.
    pub fn new(name: &[u8], endpoint: &Endpoint, now: u64) -> (r: VirtualPeer)
        ensures
            r.dht_manager.inv(),
            r.dht_manager.local_ep_view() == *endpoint,
            r.dht_manager.route_table@.wf(),
            r.dht_manager.route_table@.k == crate::dht_manager::ROUTE_TABLE_K,
            r.dht_manager.route_table@.own.id == crate::node::spec_node_id(*endpoint),
            forall|b: int|
                0 <= b < r.dht_manager.route_table@.buckets.len() ==> (
                #[trigger] r.dht_manager.route_table@.buckets[b]).nodes.len() == 0,
            r.dht_manager.store_view() == Map::<Seq<u8>, Seq<u8>>::empty(),
            r.dht_manager.ping_view() == Seq::<Endpoint>::empty(),
            r.name@ == name@,
    {
        VirtualPeer {
            dht_manager: DHTManager::new(endpoint, now),
            name: vstd::slice::slice_to_vec(name),
        }
    }

    /// Store a pair directly in this peer's local store.
    pub fn force_store(&mut self, key: &[u8], data: &[u8])
        requires
            old(self).dht_manager.inv(),
        ensures
            final(self).dht_manager.inv(),
            final(self).dht_manager.store_view() == old(self).dht_manager.store_view().insert(
                key@,
                data@,
            ),
    {
        self.dht_manager.dev_store(key, data);
    }
}

/// What any amount of traffic preserves of every peer: its name, its
/// endpoint, its own identity, and everything its routing table already
/// contained.
pub open spec fn spec_peers_preserved(pre: Seq<VirtualPeer>, post: Seq<VirtualPeer>) -> bool {
    &&& post.len() == pre.len()
    &&& forall|q: int|
        0 <= q < pre.len() ==> (#[trigger] post[q]).name@ == pre[q].name@
            && post[q].dht_manager.local_ep_view() == pre[q].dht_manager.local_ep_view()
            && post[q].dht_manager.route_table@.own == pre[q].dht_manager.route_table@.own
    &&& forall|q: int, x: Endpoint|
        0 <= q < pre.len() && (#[trigger] pre[q].dht_manager.route_table@.spec_contains(x)) ==> (
        #[trigger] post[q].dht_manager.route_table@.spec_contains(x))
}

/// What a clean ping handshake needs: the two peers' identities differ,
/// and the bucket each would file the other under still has room.
pub open spec fn spec_handshake_cond(pi: DHTManager, pj: DHTManager) -> bool {
    &&& crate::node::spec_node_id(pi.local_ep_view()) != pj.route_table@.own.id
    &&& crate::node::spec_node_id(pj.local_ep_view()) != pi.route_table@.own.id
    &&& !pj.route_table@.buckets[pj.route_table@.bucket_index_of(
        crate::node::spec_node_id(pi.local_ep_view()),
    )].is_full()
    &&& !pi.route_table@.buckets[pi.route_table@.bucket_index_of(
        crate::node::spec_node_id(pj.local_ep_view()),
    )].is_full()
}

/// Preservation composes across successive rounds of traffic.
pub proof fn lemma_peers_preserved_trans(
    a: Seq<VirtualPeer>,
    b: Seq<VirtualPeer>,
    c: Seq<VirtualPeer>,
)
    requires
        spec_peers_preserved(a, b),
        spec_peers_preserved(b, c),
    ensures
        spec_peers_preserved(a, c),
{
    assert forall|q: int, x: Endpoint|
        0 <= q < a.len() && (#[trigger] a[q].dht_manager.route_table@.spec_contains(x)) implies (
    #[trigger] c[q].dht_manager.route_table@.spec_contains(x)) by {
        assert(b[q].dht_manager.route_table@.spec_contains(x));
    }
}

/// What holds of peer number `q` of a freshly built network: it answers on
/// loopback at its own port, its identity is the digest of that endpoint,
/// its routing table is well formed with every bucket empty and room for
/// `ROUTE_TABLE_K` entries, and its store and ping set are empty.
pub open spec fn spec_fresh_peer(m: DHTManager, q: int) -> bool {
    &&& m.local_ep_view() == (Endpoint { a: 127, b: 0, c: 0, d: 1, port: (40000 + q) as u16 })
    &&& m.route_table@.own.id == crate::node::spec_node_id(m.local_ep_view())
    &&& m.route_table@.wf()
    &&& m.route_table@.k == crate::dht_manager::ROUTE_TABLE_K
    &&& forall|b: int|
        0 <= b < m.route_table@.buckets.len() ==> (#[trigger] m.route_table@.buckets[b]).nodes.len()
            == 0
    &&& m.store_view() == Map::<Seq<u8>, Seq<u8>>::empty()
    &&& m.ping_view() == Seq::<Endpoint>::empty()
}

/// A set of virtual peers and the wiring between them.
#[derive(Debug)]
pub struct VirtualNetworkManager {
    pub virtual_peers: Vec<VirtualPeer>,
    pub last_stored_key: Vec<u8>,
}

impl VirtualNetworkManager {
    /// Every peer's internals are consistent.
    pub open spec fn wf(self) -> bool {
        forall|i: int|
            0 <= i < self.virtual_peers@.len() ==> (#[trigger] self.virtual_peers@[i]).dht_manager.inv()
    }

    /// A network of `peers` fresh peers on loopback, one port each.
    #[verifier::loop_isolation(false)]
    pub fn new(peers: u16, now: u64) -> (r: VirtualNetworkManager)
        requires
            peers <= 20000,
        ensures
            r.wf(),
            r.virtual_peers@.len() == peers,
            forall|q: int|
                0 <= q < peers ==> spec_fresh_peer(
                    (#[trigger] r.virtual_peers@[q]).dht_manager,
                    q,
                ),
            forall|q1: int, q2: int|
                0 <= q1 < peers && 0 <= q2 < peers && (#[trigger] r.virtual_peers@[q1]).dht_manager.route_table@.own.id
                    != (#[trigger] r.virtual_peers@[q2]).dht_manager.route_table@.own.id
                    ==> spec_handshake_cond(
                    r.virtual_peers@[q1].dht_manager,
                    r.virtual_peers@[q2].dht_manager,
                ),
    {
        let mut vpeers: Vec<VirtualPeer> = Vec::new();
        let mut i: u16 = 0;
        while i < peers
            invariant
                i <= peers,
                peers <= 20000,
                vpeers@.len() == i,
                forall|q: int|
                    0 <= q < i ==> (#[trigger] vpeers@[q]).dht_manager.inv(),
                forall|q: int|
                    0 <= q < i ==> spec_fresh_peer((#[trigger] vpeers@[q]).dht_manager, q),
            decreases peers - i,
        {
            let ep = Endpoint { a: 127, b: 0, c: 0, d: 1, port: 40000 + i };
            let name: Vec<u8> = Vec::new();
            let vp = VirtualPeer::new(name.as_slice(), &ep, now);
            vpeers.push(vp);
            i = i + 1;
        }
        let r = VirtualNetworkManager { virtual_peers: vpeers, last_stored_key: Vec::new() };
        proof {
            assert forall|q1: int, q2: int|
                0 <= q1 < peers && 0 <= q2 < peers && (#[trigger] r.virtual_peers@[q1]).dht_manager.route_table@.own.id
                    != (#[trigger] r.virtual_peers@[q2]).dht_manager.route_table@.own.id implies spec_handshake_cond(
                r.virtual_peers@[q1].dht_manager,
                r.virtual_peers@[q2].dht_manager,
            ) by {
                let pi = r.virtual_peers@[q1].dht_manager;
                let pj = r.virtual_peers@[q2].dht_manager;
                crate::node::lemma_clz_bytes_le(
                    crate::node::spec_distance(
                        pj.route_table@.own.id,
                        crate::node::spec_node_id(pi.local_ep_view()),
                    ),
                );
                crate::node::lemma_clz_bytes_le(
                    crate::node::spec_distance(
                        pi.route_table@.own.id,
                        crate::node::spec_node_id(pj.local_ep_view()),
                    ),
                );
            }
        }
        r
    }

    /// Hand pending datagrams from `from` to their addressees, and keep
    /// delivering the replies until the traffic dies down or the budget
    /// runs out.
    #[verifier::loop_isolation(false)]
    pub fn deliver(&mut self, from: &Endpoint, pending: Vec<Outgoing>, now: u64)
        requires
            old(self).wf(),
        ensures
            final(self).wf(),
            final(self).virtual_peers@.len() == old(self).virtual_peers@.len(),
            spec_peers_preserved(old(self).virtual_peers@, final(self).virtual_peers@),
            final(self).last_stored_key@ == old(self).last_stored_key@,
    {
        proof {
            assert(spec_peers_preserved(self.virtual_peers@, self.virtual_peers@));
        }
        let mut queue: Vec<(Endpoint, Outgoing)> = Vec::new();
        let mut p = pending;
        let mut t: usize = 0;
        let plen = p.len();
        while t < plen
            invariant
                t <= plen,
                plen == p@.len(),
            decreases plen - t,
        {
            let o = Outgoing {
                dest: p[t].dest,
                bytes: vstd::slice::slice_to_vec(p[t].bytes.as_slice()),
            };
            queue.push((*from, o));
            t = t + 1;
        }
        let mut budget: usize = DELIVERY_BUDGET;
        let mut head: usize = 0;
        while head < queue.len() && budget > 0
            invariant
                self.wf(),
                self.virtual_peers@.len() == old(self).virtual_peers@.len(),
                spec_peers_preserved(old(self).virtual_peers@, self.virtual_peers@),
                self.last_stored_key@ == old(self).last_stored_key@,
                head <= queue@.len(),
            decreases budget,
        {
            budget = budget - 1;
            let src = queue[head].0;
            let dest = queue[head].1.dest;
            let mut i: usize = 0;
            while i < self.virtual_peers.len()
                invariant
                    self.wf(),
                    self.virtual_peers@.len() == old(self).virtual_peers@.len(),
                    spec_peers_preserved(old(self).virtual_peers@, self.virtual_peers@),
                    self.last_stored_key@ == old(self).last_stored_key@,
                    head < queue@.len(),
                decreases self.virtual_peers@.len() - i,
            {
                let matches_dest = self.virtual_peers[i].dht_manager.local_endpoint() == dest;
                if matches_dest {
                    let ghost mid = self.virtual_peers@;
                    let replies = handle_at(
                        &mut self.virtual_peers,
                        i,
                        &src,
                        queue[head].1.bytes.as_slice(),
                        now,
                    );
                    proof {
                        lemma_peers_preserved_trans(
                            old(self).virtual_peers@,
                            mid,
                            self.virtual_peers@,
                        );
                    }
                    let mut k: usize = 0;
                    let replies_vec = replies;
                    while k < replies_vec.len()
                        invariant
                            k <= replies_vec@.len(),
                            head < queue@.len(),
                        decreases replies_vec@.len() - k,
                    {
                        let o = Outgoing {
                            dest: replies_vec[k].dest,
                            bytes: vstd::slice::slice_to_vec(replies_vec[k].bytes.as_slice()),
                        };
                        queue.push((dest, o));
                        k = k + 1;
                    }
                    break ;
                }
                i = i + 1;
            }
            head = head + 1;
        }
    }

    /// One full ping exchange from the peer at `i` to the peer at `j`: the
    /// request, then every reply, delivered as they arise. When the two
    /// identities are distinct and the target buckets on both sides have
    /// room, each peer ends up containing the other's endpoint.
    #[verifier::loop_isolation(false)]
    fn ping_handshake(&mut self, i: usize, j: usize, now: u64)
        requires
            old(self).wf(),
            i < old(self).virtual_peers@.len(),
            j < old(self).virtual_peers@.len(),
            i != j,
        ensures
            final(self).wf(),
            final(self).virtual_peers@.len() == old(self).virtual_peers@.len(),
            spec_peers_preserved(old(self).virtual_peers@, final(self).virtual_peers@),
            final(self).last_stored_key@ == old(self).last_stored_key@,
            spec_handshake_cond(
                old(self).virtual_peers@[i as int].dht_manager,
                old(self).virtual_peers@[j as int].dht_manager,
            ) ==> final(self).virtual_peers@[j as int].dht_manager.route_table@.spec_contains(
                old(self).virtual_peers@[i as int].dht_manager.local_ep_view(),
            ) && final(self).virtual_peers@[i as int].dht_manager.route_table@.spec_contains(
                old(self).virtual_peers@[j as int].dht_manager.local_ep_view(),
            ),
    {
        let ghost pi = old(self).virtual_peers@[i as int].dht_manager;
        let ghost pj = old(self).virtual_peers@[j as int].dht_manager;
        let ghost epi = pi.local_ep_view();
        let ghost epj = pj.local_ep_view();
        let ghost cond = spec_handshake_cond(pi, pj);
        let src = self.virtual_peers[i].dht_manager.local_endpoint();
        let target = self.virtual_peers[j].dht_manager.local_endpoint();
        let msgs = ping_at(&mut self.virtual_peers, i, &target);
        let ghost s1 = self.virtual_peers@;
        let replies = vstd::std_specs::vec::vec_index_mut(
            &mut self.virtual_peers,
            j,
        ).dht_manager.handle_datagram(&src, msgs[0].bytes.as_slice(), now);
        proof {
            vstd::bytes::lemma_auto_spec_u32_to_from_le_bytes();
            assert forall|q: int|
                0 <= q < self.virtual_peers@.len() implies (
            #[trigger] self.virtual_peers@[q]).dht_manager.inv() by {
                if q != j {
                    assert(self.virtual_peers@[q] == s1[q]);
                }
            }
            assert forall|q: int, x: Endpoint|
                0 <= q < s1.len() && (#[trigger] s1[q].dht_manager.route_table@.spec_contains(
                    x,
                )) implies (#[trigger] self.virtual_peers@[q].dht_manager.route_table@.spec_contains(
                x,
            )) by {
                if q != j {
                    assert(self.virtual_peers@[q] == s1[q]);
                }
            }
            assert forall|q: int|
                0 <= q < s1.len() implies (#[trigger] self.virtual_peers@[q]).name@ == s1[q].name@
                && self.virtual_peers@[q].dht_manager.local_ep_view()
                == s1[q].dht_manager.local_ep_view()
                && self.virtual_peers@[q].dht_manager.route_table@.own
                == s1[q].dht_manager.route_table@.own by {
                if q != j {
                    assert(self.virtual_peers@[q] == s1[q]);
                }
            }
            assert(spec_peers_preserved(s1, self.virtual_peers@));
            lemma_peers_preserved_trans(old(self).virtual_peers@, s1, self.virtual_peers@);
            assert(msgs@[0].bytes@.subrange(0, 4) =~= msgs@[0].bytes@);
            assert(cond ==> (s1[j as int] == old(self).virtual_peers@[j as int]
                && replies@.len() == 1 && replies@[0].dest == src && replies@[0].bytes@
                == crate::message::spec_serialize_empty(
                crate::message::MessageType::PingResponse.code(),
            ) && self.virtual_peers@[j as int].dht_manager.route_table@.spec_contains(epi)));
        }
        let mut t: usize = 0;
        while t < replies.len()
            invariant
                self.wf(),
                self.virtual_peers@.len() == old(self).virtual_peers@.len(),
                spec_peers_preserved(old(self).virtual_peers@, self.virtual_peers@),
                self.last_stored_key@ == old(self).last_stored_key@,
                t <= replies@.len(),
                cond ==> self.virtual_peers@[j as int].dht_manager.route_table@.spec_contains(
                    epi,
                ),
                cond ==> (t >= 1 ==> self.virtual_peers@[i as int].dht_manager.route_table@.spec_contains(
                    epj,
                )),
                cond ==> (t == 0 ==> self.virtual_peers@[i as int] == s1[i as int]),
            decreases replies@.len() - t,
        {
            let is_pong_back = replies[t].dest == src;
            if is_pong_back {
                let ghost m1 = self.virtual_peers@;
                let more = vstd::std_specs::vec::vec_index_mut(
                    &mut self.virtual_peers,
                    i,
                ).dht_manager.handle_datagram(&target, replies[t].bytes.as_slice(), now);
                proof {
                    vstd::bytes::lemma_auto_spec_u32_to_from_le_bytes();
                    assert forall|q: int|
                        0 <= q < self.virtual_peers@.len() implies (
                    #[trigger] self.virtual_peers@[q]).dht_manager.inv() by {
                        if q != i {
                            assert(self.virtual_peers@[q] == m1[q]);
                        }
                    }
                    assert forall|q: int, x: Endpoint|
                        0 <= q < m1.len() && (
                        #[trigger] m1[q].dht_manager.route_table@.spec_contains(x)) implies (
                    #[trigger] self.virtual_peers@[q].dht_manager.route_table@.spec_contains(
                        x,
                    )) by {
                        if q != i {
                            assert(self.virtual_peers@[q] == m1[q]);
                        }
                    }
                    assert forall|q: int|
                        0 <= q < m1.len() implies (#[trigger] self.virtual_peers@[q]).name@
                        == m1[q].name@ && self.virtual_peers@[q].dht_manager.local_ep_view()
                        == m1[q].dht_manager.local_ep_view()
                        && self.virtual_peers@[q].dht_manager.route_table@.own
                        == m1[q].dht_manager.route_table@.own by {
                        if q != i {
                            assert(self.virtual_peers@[q] == m1[q]);
                        }
                    }
                    assert(spec_peers_preserved(m1, self.virtual_peers@));
                    lemma_peers_preserved_trans(old(self).virtual_peers@, m1, self.virtual_peers@);
                    if cond {
                        assert(t == 0);
                        assert(m1[i as int] == s1[i as int]);
                        assert(replies@[0].bytes@.subrange(0, 4) =~= replies@[0].bytes@);
                        assert(s1[i as int].dht_manager.route_table@ == pi.route_table@);
                        assert(s1[i as int].dht_manager.ping_view().contains(epj));
                        assert(self.virtual_peers@[i as int].dht_manager.route_table@.spec_contains(
                            epj,
                        ));
                    }
                }
                let ghost m2 = self.virtual_peers@;
                self.deliver(&src, more, now);
                proof {
                    lemma_peers_preserved_trans(old(self).virtual_peers@, m2, self.virtual_peers@);
                }
            } else {
                let one_msg = Outgoing {
                    dest: replies[t].dest,
                    bytes: vstd::slice::slice_to_vec(replies[t].bytes.as_slice()),
                };
                let mut one: Vec<Outgoing> = Vec::new();
                one.push(one_msg);
                let ghost m2 = self.virtual_peers@;
                self.deliver(&target, one, now);
                proof {
                    lemma_peers_preserved_trans(old(self).virtual_peers@, m2, self.virtual_peers@);
                }
            }
            t = t + 1;
        }
    }

    /// Ping every pair of peers both ways and let the traffic settle. For a
    /// fresh two-peer network whose identities differ, both tables contain
    /// each other's endpoint afterwards.
    #[verifier::loop_isolation(false)]
    pub fn connect_all_each_other(&mut self, now: u64)
        requires
            old(self).wf(),
        ensures
            final(self).wf(),
            final(self).virtual_peers@.len() == old(self).virtual_peers@.len(),
            spec_peers_preserved(old(self).virtual_peers@, final(self).virtual_peers@),
            final(self).last_stored_key@ == old(self).last_stored_key@,
            (old(self).virtual_peers@.len() == 2 && spec_handshake_cond(
                old(self).virtual_peers@[0].dht_manager,
                old(self).virtual_peers@[1].dht_manager,
            )) ==> final(self).virtual_peers@[1].dht_manager.route_table@.spec_contains(
                old(self).virtual_peers@[0].dht_manager.local_ep_view(),
            ) && final(self).virtual_peers@[0].dht_manager.route_table@.spec_contains(
                old(self).virtual_peers@[1].dht_manager.local_ep_view(),
            ),
    {
        let ghost two = old(self).virtual_peers@.len() == 2 && spec_handshake_cond(
            old(self).virtual_peers@[0].dht_manager,
            old(self).virtual_peers@[1].dht_manager,
        );
        let n = self.virtual_peers.len();
        let mut i: usize = 0;
        while i < n
            invariant
                self.wf(),
                self.virtual_peers@.len() == n,
                spec_peers_preserved(old(self).virtual_peers@, self.virtual_peers@),
                self.last_stored_key@ == old(self).last_stored_key@,
                two ==> (i > 0 || self.virtual_peers@ == old(self).virtual_peers@),
                two ==> (i == 0 || (self.virtual_peers@[1].dht_manager.route_table@.spec_contains(
                    old(self).virtual_peers@[0].dht_manager.local_ep_view(),
                ) && self.virtual_peers@[0].dht_manager.route_table@.spec_contains(
                    old(self).virtual_peers@[1].dht_manager.local_ep_view(),
                ))),
            decreases n - i,
        {
            let mut j: usize = i + 1;
            while j < n
                invariant
                    self.wf(),
                    self.virtual_peers@.len() == n,
                    spec_peers_preserved(old(self).virtual_peers@, self.virtual_peers@),
                    self.last_stored_key@ == old(self).last_stored_key@,
                    i < n,
                    i < j,
                    two ==> (!(i == 0 && j <= 1) || self.virtual_peers@ == old(
                        self,
                    ).virtual_peers@),
                    two ==> ((i == 0 && j <= 1) || (self.virtual_peers@[1].dht_manager.route_table@.spec_contains(
                        old(self).virtual_peers@[0].dht_manager.local_ep_view(),
                    ) && self.virtual_peers@[0].dht_manager.route_table@.spec_contains(
                        old(self).virtual_peers@[1].dht_manager.local_ep_view(),
                    ))),
                decreases n - j,
            {
                let ghost mid = self.virtual_peers@;
                self.ping_handshake(i, j, now);
                proof {
                    lemma_peers_preserved_trans(old(self).virtual_peers@, mid, self.virtual_peers@);
                    if two && i == 0 && j == 1 {
                        assert(mid =~= old(self).virtual_peers@);
                    }
                }
                j = j + 1;
            }
            i = i + 1;
        }
    }

    /// Drive one random interaction between two random peers: a ping, a
    /// store of fresh random data, a lookup of the last stored key, or a
    /// peer search.
    #[verifier::loop_isolation(false)]
    pub fn random(&mut self, now: u64)
        requires
            old(self).wf(),
            old(self).virtual_peers@.len() >= 2,
        ensures
            final(self).wf(),
            final(self).virtual_peers@.len() == old(self).virtual_peers@.len(),
            spec_peers_preserved(old(self).virtual_peers@, final(self).virtual_peers@),
            final(self).last_stored_key@ == old(self).last_stored_key@
                || final(self).last_stored_key@.len() == 64,
    {
        proof {
            assert(spec_peers_preserved(self.virtual_peers@, self.virtual_peers@));
        }
        let n = self.virtual_peers.len();
        let chosen_index = random_below(n);
        let mut other_index = random_below(n);
        if other_index == chosen_index {
            other_index = (chosen_index + 1) % n;
        }
        let action = random_below(4);
        if action == 0 {
            let target = self.virtual_peers[other_index].dht_manager.local_endpoint();
            let source = self.virtual_peers[chosen_index].dht_manager.local_endpoint();
            let msgs = ping_at(&mut self.virtual_peers, chosen_index, &target);
            self.deliver(&source, msgs, now);
        } else if action == 1 {
            let rk = random_bytes(64);
            let rd = random_bytes(64);
            let source = self.virtual_peers[chosen_index].dht_manager.local_endpoint();
            let msgs = self.virtual_peers[chosen_index].dht_manager.do_store(
                rk.as_slice(),
                rd.as_slice(),
            );
            self.last_stored_key = rk;
            self.deliver(&source, msgs, now);
        } else if action == 2 {
            if self.last_stored_key.len() == 64 {
                let key = vstd::slice::slice_to_vec(self.last_stored_key.as_slice());
                let source = self.virtual_peers[chosen_index].dht_manager.local_endpoint();
                let msgs = self.virtual_peers[chosen_index].dht_manager.do_find_value(
                    key.as_slice(),
                );
                self.deliver(&source, msgs, now);
            }
        } else {
            if self.last_stored_key.len() == 64 {
                let key = vstd::slice::slice_to_vec(self.last_stored_key.as_slice());
                let source = self.virtual_peers[chosen_index].dht_manager.local_endpoint();
                let msgs = self.virtual_peers[chosen_index].dht_manager.do_find_node(
                    key.as_slice(),
                );
                self.deliver(&source, msgs, now);
            }
        }
    }
}

/// Ping `target` from the peer at `i`.
fn ping_at(peers: &mut Vec<VirtualPeer>, i: usize, target: &Endpoint) -> (r: Vec<Outgoing>)
    requires
        i < old(peers)@.len(),
        forall|q: int| 0 <= q < old(peers)@.len() ==> (#[trigger] old(peers)@[q]).dht_manager.inv(),
    ensures
        final(peers)@.len() == old(peers)@.len(),
        forall|q: int| 0 <= q < final(peers)@.len() ==> (#[trigger] final(peers)@[q]).dht_manager.inv(),
        spec_peers_preserved(old(peers)@, final(peers)@),
        forall|q: int| 0 <= q < old(peers)@.len() && q != i ==> (#[trigger] final(peers)@[q]) == old(
            peers,
        )@[q],
        final(peers)@[i as int].dht_manager.route_table@ == old(peers)@[i as int].dht_manager.route_table@,
        final(peers)@[i as int].dht_manager.ping_view().contains(*target),
        r@.len() == 1,
        r@[0].dest == *target,
        r@[0].bytes@ == crate::message::spec_serialize_empty(
            crate::message::MessageType::PingRequest.code(),
        ),
{
    let peer = vstd::std_specs::vec::vec_index_mut(peers, i);
    let r = peer.dht_manager.do_ping(target);
    proof {
        assert forall|q: int| 0 <= q < peers@.len() implies (#[trigger] peers@[q]).dht_manager.inv() by {
            if q != i {
                assert(peers@[q] == old(peers)@[q]);
            }
        }
    }
    r
}

/// Let the peer at `i` handle one datagram.
fn handle_at(
    peers: &mut Vec<VirtualPeer>,
    i: usize,
    sender: &Endpoint,
    buffer: &[u8],
    now: u64,
) -> (r: Vec<Outgoing>)
    requires
        i < old(peers)@.len(),
        forall|q: int| 0 <= q < old(peers)@.len() ==> (#[trigger] old(peers)@[q]).dht_manager.inv(),
    ensures
        final(peers)@.len() == old(peers)@.len(),
        forall|q: int| 0 <= q < final(peers)@.len() ==> (#[trigger] final(peers)@[q]).dht_manager.inv(),
        spec_peers_preserved(old(peers)@, final(peers)@),
        forall|q: int| 0 <= q < old(peers)@.len() && q != i ==> (#[trigger] final(peers)@[q]) == old(
            peers,
        )@[q],
{
    let peer = vstd::std_specs::vec::vec_index_mut(peers, i);
    let r = peer.dht_manager.handle_datagram(sender, buffer, now);
    proof {
        assert forall|q: int| 0 <= q < peers@.len() implies (#[trigger] peers@[q]).dht_manager.inv() by {
            if q != i {
                assert(peers@[q] == old(peers)@[q]);
            }
        }
    }
    r
}

} // verus!
