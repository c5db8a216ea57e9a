//! The DHT manager: the routing table, the local key-value store, and the
//! set of peers we have pinged. Datagram handling is a pure decision
//! function from state and datagram to new state and replies; the embedder
//! owns the socket, feeds received datagrams in, and sends what comes back.

use vstd::prelude::*;
use crate::endpoint::Endpoint;
use crate::message::{MessageType, PingRequestMessage, PingResponseMessage, FindNodeRequestMessage,
    FindNodeResponseMessage, FindValueRequestMessage, FindValueResponseMessage,
    StoreValueRequestMessage, spec_serialize_empty, spec_serialize_keyed, spec_serialize_store,
    spec_parse_keyed, spec_parse_store,
    spec_parse_find_value_response, spec_serialize_find_node_response,
    spec_serialize_find_value_response, MESSAGE_HEADER_SIZE};
use crate::node::{spec_node_id, endpoint_to_node_id, spec_id_lt, spec_distance};
use crate::route_table::{RouteTable, RouteTableV, lemma_add_node_monotone,
    lemma_add_node_buckets_grow};
use crate::store::KvStore;
use vstd::bytes::spec_u32_from_le_bytes;

verus! {

/// Bucket capacity: how many peers one bucket holds.
pub const ROUTE_TABLE_K: u16 = 20;

/// Bucket count: one bucket per possible shared-prefix length of a 64-byte
/// identity, plus the bucket for identical identities.
pub const ROUTE_TABLE_BUCKETS: usize = 513;

/// Replication level attached to locally initiated store requests.
pub const DEFAULT_REPLICATION_LEVEL: u32 = 10;

/// How many peers a store or find-value request fans out to.
pub const FANOUT: usize = 10;

/// How many peers a find-node request fans out to.
pub const FIND_NODE_FANOUT: usize = 100;

/// A datagram to send: its destination and its bytes.
#[derive(Debug, PartialEq)]
pub struct Outgoing {
    pub dest: Endpoint,
    pub bytes: Vec<u8>,
}

/// How many peers a received store request is forwarded to. The network
/// size estimate and hop count are placeholders; the count is the
/// replication level clamped to one bucket's capacity.
pub open spec fn spec_forward_count(replication_level: u32) -> int {
    if replication_level <= ROUTE_TABLE_K {
        replication_level as int
    } else {
        ROUTE_TABLE_K as int
    }
}

/// Forward count, executable.
pub fn calculate_forward_count(
    network_size_estimate: u64,
    hop_count: u32,
    replication_level: u32,
) -> (r: usize)
    ensures
        r == spec_forward_count(replication_level),
{
    if replication_level <= ROUTE_TABLE_K as u32 {
        replication_level as usize
    } else {
        ROUTE_TABLE_K as usize
    }
}

/// The type code at the front of a datagram.
pub open spec fn spec_msg_type(b: Seq<u8>) -> u32 {
    spec_u32_from_le_bytes(b.subrange(0, 4))
}

/// Whether a datagram is long enough to carry a header of type `t`.
pub open spec fn spec_msg_type_is(b: Seq<u8>, t: u32) -> bool {
    b.len() >= 4 && spec_msg_type(b) == t
}

/// The datagrams a fan-out produces: `bytes` addressed to the first
/// `n`-or-fewer peers of the bucket `key` hashes into.
pub open spec fn spec_sendout(rt: RouteTableV, key: Seq<u8>, n: int, bytes: Seq<u8>) -> Seq<
    (Endpoint, Seq<u8>),
> {
    let bucket = rt.buckets[rt.bucket_index_of(key)];
    let m = if n <= bucket.nodes.len() {
        n
    } else {
        bucket.nodes.len() as int
    };
    Seq::new(m as nat, |j: int| (bucket.nodes[j].endpoint, bytes))
}

/// Destination and payload of each queued datagram.
pub open spec fn spec_outgoing_views(s: Seq<Outgoing>) -> Seq<(Endpoint, Seq<u8>)> {
    Seq::new(s.len(), |i: int| (s[i].dest, s[i].bytes@))
}

/// Nothing about the peer changed.
pub open spec fn spec_unchanged(pre: DHTManager, post: DHTManager) -> bool {
    &&& post.route_table@ == pre.route_table@
    &&& post.kvdb@ == pre.kvdb@
    &&& post.ping_list@ == pre.ping_list@
    &&& post.local_ep == pre.local_ep
}

/// No known peer in the key's bucket is closer to the key than we are.
pub open spec fn spec_is_closest(rt: RouteTableV, key: Seq<u8>) -> bool {
    forall|j: int|
        0 <= j < rt.buckets[rt.bucket_index_of(key)].nodes.len() ==> !spec_id_lt(
            spec_distance((#[trigger] rt.buckets[rt.bucket_index_of(key)].nodes[j]).id, key),
            spec_distance(rt.own.id, key),
        )
}

/// One peer's DHT state.
#[derive(Debug)]
pub struct DHTManager {
    pub route_table: RouteTable,
    pub kvdb: KvStore,
    pub ping_list: Vec<Endpoint>,
    pub local_ep: Endpoint,
}

impl DHTManager {
    /// The local key-value store's contents.
    pub closed spec fn store_view(&self) -> Map<Seq<u8>, Seq<u8>> {
        self.kvdb@
    }

    /// The endpoints we have pinged and not yet heard back from.
    pub closed spec fn ping_view(&self) -> Seq<Endpoint> {
        self.ping_list@
    }

    /// The configured endpoint of this peer.
    pub closed spec fn local_ep_view(&self) -> Endpoint {
        self.local_ep
    }

    /// The internal structures are consistent.
    pub closed spec fn inv(&self) -> bool {
        &&& self.route_table@.wf()
        &&& self.kvdb.inv()
    }

    /// A fresh peer at `ownep` with empty table, store and ping set.
    pub fn new(ownep: &Endpoint, now: u64) -> (r: DHTManager)
        ensures
            r.inv(),
            r.route_table@.wf(),
            r.route_table@.k == ROUTE_TABLE_K,
            r.local_ep_view() == *ownep,
            r.route_table@.own.endpoint == *ownep,
            r.route_table@.own.id == spec_node_id(*ownep),
            forall|i: int|
                0 <= i < r.route_table@.buckets.len() ==> (#[trigger] r.route_table@.buckets[i]).nodes.len()
                    == 0,
            r.store_view() == Map::<Seq<u8>, Seq<u8>>::empty(),
            r.ping_view() == Seq::<Endpoint>::empty(),
    {
        DHTManager {
            route_table: RouteTable::new(ownep, ROUTE_TABLE_K, ROUTE_TABLE_BUCKETS, now),
            kvdb: KvStore::new(),
            ping_list: Vec::new(),
            local_ep: ownep.clone(),
        }
    }

    /// The endpoint this peer answers under.
    pub fn local_endpoint(&self) -> (r: Endpoint)
        ensures
            r == self.local_ep_view(),
    {
        self.local_ep
    }

    /// Whether the local store holds a value for `key`.
    pub fn is_available_on_local(&self, key: &[u8]) -> (r: bool)
        requires
            self.inv(),
        ensures
            r == self.store_view().contains_key(key@),
    {
        self.kvdb.contains(key)
    }

    /// The locally stored value for `key`, if any.
    pub fn get_value_local(&self, key: &[u8]) -> (r: Option<Vec<u8>>)
        requires
            self.inv(),
        ensures
            match r {
                Some(v) => self.store_view().contains_key(key@) && v@ == self.store_view()[key@],
                None => !self.store_view().contains_key(key@),
            },
    {
        self.kvdb.get(key)
    }

    /// Store a value locally, bypassing the network.
    pub fn dev_store(&mut self, key: &[u8], data: &[u8])
        requires
            old(self).inv(),
        ensures
            final(self).inv(),
            final(self).store_view() == old(self).store_view().insert(key@, data@),
            final(self).ping_view() == old(self).ping_view(),
            final(self).route_table@ == old(self).route_table@,
            final(self).local_ep_view() == old(self).local_ep_view(),
    {
        self.kvdb.put(key, data);
    }

    /// Whether `ep` is in the ping set.
    fn ping_contains(&self, ep: &Endpoint) -> (r: bool)
        ensures
            r == self.ping_view().contains(*ep),
    {
        let mut i: usize = 0;
        while i < self.ping_list.len()
            invariant
                i <= self.ping_list@.len(),
                forall|q: int| 0 <= q < i ==> self.ping_list@[q] != *ep,
            decreases self.ping_list@.len() - i,
        {
            if self.ping_list[i] == *ep {
                return true;
            }
            i = i + 1;
        }
        false
    }

    /// Put `ep` into the ping set.
    fn ping_insert(&mut self, ep: &Endpoint)
        ensures
            final(self).ping_view().contains(*ep),
            forall|x: Endpoint| old(self).ping_view().contains(x) ==> final(self).ping_view().contains(x),
            forall|x: Endpoint|
                final(self).ping_view().contains(x) ==> old(self).ping_view().contains(x) || x
                    == *ep,
            final(self).route_table@ == old(self).route_table@,
            final(self).store_view() == old(self).store_view(),
            final(self).local_ep_view() == old(self).local_ep_view(),
            final(self).inv() == old(self).inv(),
    {
        if !self.ping_contains(ep) {
            self.ping_list.push(*ep);
            proof {
                assert(self.ping_list@.last() == *ep);
                assert forall|x: Endpoint| old(self).ping_view().contains(x) implies self.ping_view().contains(x) by {
                    let w = choose|w: int|
                        0 <= w < old(self).ping_list@.len() && old(self).ping_list@[w] == x;
                    assert(self.ping_list@[w] == x);
                }
            }
        }
    }

    /// Admit or refresh `sender` in the routing table. When its bucket is
    /// full, the occupants are put on the ping list and probed instead, and
    /// the newcomer is not admitted.
    #[verifier::loop_isolation(false)]
    fn admit_node(&mut self, sender: &Endpoint, now: u64) -> (r: (bool, Vec<Outgoing>))
        requires
            old(self).inv(),
            spec_node_id(*sender) != old(self).route_table@.own.id,
        ensures
            final(self).inv(),
            final(self).store_view() == old(self).store_view(),
            final(self).local_ep_view() == old(self).local_ep_view(),
            final(self).route_table@.own == old(self).route_table@.own,
            r.0 == (old(self).route_table@.spec_contains(*sender) || !old(
                self,
            ).route_table@.buckets[old(self).route_table@.bucket_index_of(
                spec_node_id(*sender),
            )].is_full()),
            r.0 ==> final(self).route_table@.spec_contains(*sender) && final(self).ping_view()
                == old(self).ping_view() && r.1@.len() == 0,
            !r.0 ==> final(self).route_table@ == old(self).route_table@,
            !r.0 ==> ({
                let bucket = old(self).route_table@.buckets[old(self).route_table@.bucket_index_of(
                    spec_node_id(*sender),
                )];
                &&& r.1@.len() == bucket.nodes.len()
                &&& forall|j: int|
                    0 <= j < r.1@.len() ==> (#[trigger] r.1@[j]).dest == bucket.nodes[j].endpoint
                        && r.1@[j].bytes@ == spec_serialize_empty(MessageType::PingRequest.code())
                &&& forall|j: int|
                    0 <= j < bucket.nodes.len() ==> final(self).ping_view().contains(
                        (#[trigger] bucket.nodes[j]).endpoint,
                    )
                &&& forall|x: Endpoint|
                    old(self).ping_view().contains(x) ==> final(self).ping_view().contains(x)
                &&& forall|x: Endpoint|
                    final(self).ping_view().contains(x) ==> old(self).ping_view().contains(x)
                        || exists|j: int|
                        0 <= j < bucket.nodes.len() && (#[trigger] bucket.nodes[j]).endpoint == x
            }),
            forall|x: Endpoint|
                old(self).route_table@.spec_contains(x) ==> final(self).route_table@.spec_contains(
                    x,
                ),
    {
        let ghost pre = self.route_table@;
        let is_handled = self.route_table.add_node(sender, now);
        proof {
            lemma_add_node_monotone(pre, self.route_table@, *sender, now);
        }
        if is_handled {
            return (true, Vec::new());
        }
        let id = endpoint_to_node_id(sender);
        let sz = self.route_table.find_bucket(id.as_slice()).size();
        let nodes = self.route_table.find_nodes(id.as_slice(), sz);
        let ghost bucket = self.route_table@.buckets[self.route_table@.bucket_index_of(
            spec_node_id(*sender),
        )];
        let mut out: Vec<Outgoing> = Vec::new();
        let mut j: usize = 0;
        while j < nodes.len()
            invariant
                j <= nodes@.len(),
                nodes@.len() == bucket.nodes.len(),
                forall|q: int| 0 <= q < nodes@.len() ==> (#[trigger] nodes@[q])@ == bucket.nodes[q],
                out@.len() == j,
                forall|q: int|
                    0 <= q < j ==> (#[trigger] out@[q]).dest == bucket.nodes[q].endpoint
                        && out@[q].bytes@ == spec_serialize_empty(
                        MessageType::PingRequest.code(),
                    ),
                forall|q: int|
                    0 <= q < j ==> self.ping_view().contains(
                        (#[trigger] bucket.nodes[q]).endpoint,
                    ),
                forall|x: Endpoint|
                    old(self).ping_view().contains(x) ==> self.ping_view().contains(x),
                forall|x: Endpoint|
                    self.ping_view().contains(x) ==> old(self).ping_view().contains(x) || exists|
                        q: int,
                    | 0 <= q < bucket.nodes.len() && (#[trigger] bucket.nodes[q]).endpoint == x,
                self.route_table@ == pre,
                self.store_view() == old(self).store_view(),
                self.local_ep == old(self).local_ep,
                self.inv(),
            decreases nodes@.len() - j,
        {
            proof {
                assert(nodes@[j as int]@ == bucket.nodes[j as int]);
            }
            let ep = nodes[j].endpoint;
            self.ping_insert(&ep);
            let ping = PingRequestMessage::new();
            out.push(Outgoing { dest: ep, bytes: ping.to_bytes() });
            j = j + 1;
        }
        (false, out)
    }

    /// Ping a peer: remember that we asked, and address it a ping request.
    pub fn do_ping(&mut self, endpoint: &Endpoint) -> (r: Vec<Outgoing>)
        ensures
            final(self).ping_view().contains(*endpoint),
            forall|x: Endpoint|
                old(self).ping_view().contains(x) ==> final(self).ping_view().contains(x),
            final(self).route_table@ == old(self).route_table@,
            final(self).store_view() == old(self).store_view(),
            final(self).local_ep_view() == old(self).local_ep_view(),
            final(self).inv() == old(self).inv(),
            r@.len() == 1,
            r@[0].dest == *endpoint,
            r@[0].bytes@ == spec_serialize_empty(MessageType::PingRequest.code()),
    {
        self.ping_insert(endpoint);
        let ping = PingRequestMessage::new();
        let mut out: Vec<Outgoing> = Vec::new();
        out.push(Outgoing { dest: *endpoint, bytes: ping.to_bytes() });
        out
    }

    /// Address a store request for `(key, data)` to the closest known peers.
    #[verifier::loop_isolation(false)]
    pub fn do_store(&self, key: &[u8], data: &[u8]) -> (r: Vec<Outgoing>)
        requires
            self.inv(),
            key@.len() == 64,
            16 + key@.len() + data@.len() <= u32::MAX,
        ensures
            ({
                let bucket = self.route_table@.buckets[self.route_table@.bucket_index_of(key@)];
                let n = if FANOUT <= bucket.nodes.len() {
                    FANOUT as int
                } else {
                    bucket.nodes.len() as int
                };
                &&& r@.len() == n
                &&& forall|j: int|
                    0 <= j < n ==> (#[trigger] r@[j]).dest == bucket.nodes[j].endpoint
                        && r@[j].bytes@ == spec_serialize_store(
                        key@,
                        data@,
                        DEFAULT_REPLICATION_LEVEL,
                    )
                &&& spec_outgoing_views(r@) == spec_sendout(
                    self.route_table@,
                    key@,
                    FANOUT as int,
                    spec_serialize_store(key@, data@, DEFAULT_REPLICATION_LEVEL),
                )
            }),
    {
        let request_msg = StoreValueRequestMessage::new(key, data, DEFAULT_REPLICATION_LEVEL);
        let nodes = self.route_table.find_nodes(key, FANOUT);
        let ghost bucket = self.route_table@.buckets[self.route_table@.bucket_index_of(key@)];
        let mut out: Vec<Outgoing> = Vec::new();
        let mut j: usize = 0;
        while j < nodes.len()
            invariant
                j <= nodes@.len(),
                out@.len() == j,
                forall|q: int|
                    0 <= q < j ==> (#[trigger] out@[q]).dest == bucket.nodes[q].endpoint
                        && out@[q].bytes@ == spec_serialize_store(
                        key@,
                        data@,
                        DEFAULT_REPLICATION_LEVEL,
                    ),
            decreases nodes@.len() - j,
        {
            proof {
                assert(nodes@[j as int]@ == bucket.nodes[j as int]);
            }
            out.push(Outgoing { dest: nodes[j].endpoint, bytes: request_msg.to_bytes() });
            j = j + 1;
        }
        proof {
            assert(spec_outgoing_views(out@) =~= spec_sendout(
                self.route_table@,
                key@,
                FANOUT as int,
                spec_serialize_store(key@, data@, DEFAULT_REPLICATION_LEVEL),
            ));
        }
        out
    }

    /// Find the value under `key`: nothing to send when it is already local,
    /// otherwise ask the closest known peers.
    #[verifier::loop_isolation(false)]
    pub fn do_find_value(&self, key: &[u8]) -> (r: Vec<Outgoing>)
        requires
            self.inv(),
            key@.len() == 64,
        ensures
            self.store_view().contains_key(key@) ==> r@.len() == 0,
            !self.store_view().contains_key(key@) ==> ({
                let bucket = self.route_table@.buckets[self.route_table@.bucket_index_of(key@)];
                let n = if FANOUT <= bucket.nodes.len() {
                    FANOUT as int
                } else {
                    bucket.nodes.len() as int
                };
                &&& r@.len() == n
                &&& forall|j: int|
                    0 <= j < n ==> (#[trigger] r@[j]).dest == bucket.nodes[j].endpoint
                        && r@[j].bytes@ == spec_serialize_keyed(
                        MessageType::FindValueRequest.code(),
                        key@,
                    )
            }),
    {
        let request_msg = FindValueRequestMessage::new(key);
        if self.kvdb.contains(key) {
            return Vec::new();
        }
        let nodes = self.route_table.find_nodes(key, FANOUT);
        let ghost bucket = self.route_table@.buckets[self.route_table@.bucket_index_of(key@)];
        let mut out: Vec<Outgoing> = Vec::new();
        let mut j: usize = 0;
        while j < nodes.len()
            invariant
                j <= nodes@.len(),
                out@.len() == j,
                forall|q: int|
                    0 <= q < j ==> (#[trigger] out@[q]).dest == bucket.nodes[q].endpoint
                        && out@[q].bytes@ == spec_serialize_keyed(
                        MessageType::FindValueRequest.code(),
                        key@,
                    ),
            decreases nodes@.len() - j,
        {
            proof {
                assert(nodes@[j as int]@ == bucket.nodes[j as int]);
            }
            out.push(Outgoing { dest: nodes[j].endpoint, bytes: request_msg.to_bytes() });
            j = j + 1;
        }
        out
    }

    /// Ask the closest known peers for peers near `key`.
    #[verifier::loop_isolation(false)]
    pub fn do_find_node(&self, key: &[u8]) -> (r: Vec<Outgoing>)
        requires
            self.inv(),
            key@.len() == 64,
        ensures
            ({
                let bucket = self.route_table@.buckets[self.route_table@.bucket_index_of(key@)];
                let n = if FIND_NODE_FANOUT <= bucket.nodes.len() {
                    FIND_NODE_FANOUT as int
                } else {
                    bucket.nodes.len() as int
                };
                &&& r@.len() == n
                &&& forall|j: int|
                    0 <= j < n ==> (#[trigger] r@[j]).dest == bucket.nodes[j].endpoint
                        && r@[j].bytes@ == spec_serialize_keyed(
                        MessageType::FindNodeRequest.code(),
                        key@,
                    )
            }),
    {
        let request_msg = FindNodeRequestMessage::new(key);
        let peers = self.route_table.find_nodes(key, FIND_NODE_FANOUT);
        let ghost bucket = self.route_table@.buckets[self.route_table@.bucket_index_of(key@)];
        let mut out: Vec<Outgoing> = Vec::new();
        let mut j: usize = 0;
        while j < peers.len()
            invariant
                j <= peers@.len(),
                out@.len() == j,
                forall|q: int|
                    0 <= q < j ==> (#[trigger] out@[q]).dest == bucket.nodes[q].endpoint
                        && out@[q].bytes@ == spec_serialize_keyed(
                        MessageType::FindNodeRequest.code(),
                        key@,
                    ),
            decreases peers@.len() - j,
        {
            proof {
                assert(peers@[j as int]@ == bucket.nodes[j as int]);
            }
            out.push(Outgoing { dest: peers[j].endpoint, bytes: request_msg.to_bytes() });
            j = j + 1;
        }
        out
    }

    /// One step of the receive loop: what a datagram from `sender` does to
    /// this peer's state, and the datagrams to send back. Malformed or
    /// unknown datagrams are dropped; a peer never crashes this loop.
    #[verifier::loop_isolation(false)]
    #[verifier::rlimit(100)]
    pub fn handle_datagram(&mut self, sender: &Endpoint, buffer: &[u8], now: u64) -> (r: Vec<
        Outgoing,
    >)
        requires
            old(self).inv(),
        ensures
            final(self).inv(),
            final(self).local_ep_view() == old(self).local_ep_view(),
            final(self).route_table@.own == old(self).route_table@.own,
            forall|x: Endpoint|
                old(self).route_table@.spec_contains(x) ==> final(self).route_table@.spec_contains(
                    x,
                ),
            (buffer@.len() < 4 || spec_msg_type(buffer@) == 0 || spec_msg_type(buffer@) > 7)
                ==> spec_unchanged(*old(self), *final(self)) && r@.len() == 0,
            buffer@.len() >= 4 && spec_msg_type(buffer@) == MessageType::PingRequest.code() ==> ({
                &&& buffer@.len() != 4 ==> spec_unchanged(*old(self), *final(self)) && r@.len()
                    == 0
                &&& (buffer@.len() == 4 && spec_node_id(*sender) == old(
                    self,
                ).route_table@.own.id) ==> spec_unchanged(*old(self), *final(self)) && r@.len()
                    == 0
                &&& (buffer@.len() == 4 && spec_node_id(*sender) != old(self).route_table@.own.id)
                    ==> ({
                    let handled = old(self).route_table@.spec_contains(*sender) || !old(
                        self,
                    ).route_table@.buckets[old(self).route_table@.bucket_index_of(
                        spec_node_id(*sender),
                    )].is_full();
                    &&& final(self).store_view() == old(self).store_view()
                    &&& handled ==> final(self).route_table@.spec_contains(*sender) && final(self).ping_view() == old(self).ping_view() && r@.len() == 1 && r@[0].dest
                        == *sender && r@[0].bytes@ == spec_serialize_empty(
                        MessageType::PingResponse.code(),
                    )
                    &&& !handled ==> ({
                        let bucket = old(self).route_table@.buckets[old(
                            self,
                        ).route_table@.bucket_index_of(spec_node_id(*sender))];
                        &&& final(self).route_table@ == old(self).route_table@
                        &&& forall|j: int|
                            0 <= j < bucket.nodes.len() ==> final(self).ping_view().contains(
                                (#[trigger] bucket.nodes[j]).endpoint,
                            )
                        &&& r@.len() == bucket.nodes.len()
                        &&& forall|j: int|
                            0 <= j < r@.len() ==> (#[trigger] r@[j]).dest
                                == bucket.nodes[j].endpoint && r@[j].bytes@
                                == spec_serialize_empty(MessageType::PingRequest.code())
                    })
                })
            }),
            buffer@.len() >= 4 && spec_msg_type(buffer@) == MessageType::PingResponse.code()
                ==> ({
                &&& buffer@.len() != 4 ==> spec_unchanged(*old(self), *final(self)) && r@.len()
                    == 0
                &&& (buffer@.len() == 4 && !old(self).ping_view().contains(*sender))
                    ==> spec_unchanged(*old(self), *final(self)) && r@.len() == 0
                &&& (buffer@.len() == 4 && old(self).ping_view().contains(*sender)) ==> ({
                    &&& final(self).store_view() == old(self).store_view()
                    &&& !final(self).ping_view().contains(*sender)
                    &&& (spec_node_id(*sender) != old(self).route_table@.own.id && (old(
                        self,
                    ).route_table@.spec_contains(*sender) || !old(self).route_table@.buckets[old(
                        self,
                    ).route_table@.bucket_index_of(spec_node_id(*sender))].is_full())) ==> final(self).route_table@.spec_contains(*sender) && r@.len() == 0
                    &&& (spec_node_id(*sender) != old(self).route_table@.own.id && !old(
                        self,
                    ).route_table@.spec_contains(*sender) && old(self).route_table@.buckets[old(
                        self,
                    ).route_table@.bucket_index_of(spec_node_id(*sender))].is_full()) ==> ({
                        let bucket = old(self).route_table@.buckets[old(
                            self,
                        ).route_table@.bucket_index_of(spec_node_id(*sender))];
                        &&& final(self).route_table@ == old(self).route_table@
                        &&& forall|j: int|
                            0 <= j < bucket.nodes.len() ==> final(self).ping_view().contains(
                                (#[trigger] bucket.nodes[j]).endpoint,
                            )
                        &&& r@.len() == bucket.nodes.len()
                        &&& forall|j: int|
                            0 <= j < r@.len() ==> (#[trigger] r@[j]).dest
                                == bucket.nodes[j].endpoint && r@[j].bytes@
                                == spec_serialize_empty(MessageType::PingRequest.code())
                    })
                })
            }),
            spec_msg_type_is(buffer@, MessageType::StoreValueRequest.code()) ==> ({
                match spec_parse_store(buffer@) {
                    None => spec_unchanged(*old(self), *final(self)) && r@.len() == 0,
                    Some(p) => {
                        &&& final(self).route_table@ == old(self).route_table@
                        &&& final(self).ping_view() == old(self).ping_view()
                        &&& (p.1.len() == 0 || p.0.len() != 64 || 80 + p.1.len() > u32::MAX)
                            ==> final(self).store_view() == old(self).store_view() && r@.len()
                            == 0
                        &&& (p.1.len() > 0 && p.0.len() == 64 && 80 + p.1.len() <= u32::MAX)
                            ==> ({
                            let closest = spec_is_closest(old(self).route_table@, p.0);
                            &&& closest ==> final(self).store_view() == old(
                                self,
                            ).store_view().insert(p.0, p.1) && r@.len() == 0
                            &&& !closest ==> final(self).store_view() == old(self).store_view()
                                && spec_outgoing_views(r@) == spec_sendout(
                                old(self).route_table@,
                                p.0,
                                spec_forward_count(p.2),
                                spec_serialize_store(p.0, p.1, p.2),
                            )
                        })
                    },
                }
            }),
            spec_msg_type_is(buffer@, MessageType::FindNodeRequest.code()) ==> ({
                &&& spec_unchanged(*old(self), *final(self))
                &&& match spec_parse_keyed(buffer@) {
                    None => r@.len() == 0,
                    Some(k) => {
                        if k.len() != 64 {
                            r@.len() == 0
                        } else {
                            {
                                let bucket = old(self).route_table@.buckets[old(
                                    self,
                                ).route_table@.bucket_index_of(k)];
                                let n = if ROUTE_TABLE_K <= bucket.nodes.len() {
                                    ROUTE_TABLE_K as int
                                } else {
                                    bucket.nodes.len() as int
                                };
                                &&& n == 0 ==> r@.len() == 0
                                &&& n > 0 ==> r@.len() == 1 && r@[0].dest == *sender
                                    && r@[0].bytes@ == spec_serialize_find_node_response(
                                    Seq::new(n as nat, |j: int| bucket.nodes[j].endpoint),
                                )
                            }
                        }
                    },
                }
            }),
            spec_msg_type_is(buffer@, MessageType::FindValueRequest.code()) ==> ({
                &&& spec_unchanged(*old(self), *final(self))
                &&& match spec_parse_keyed(buffer@) {
                    None => r@.len() == 0,
                    Some(k) => {
                        if old(self).store_view().contains_key(k) {
                            if 26 + k.len() + old(self).store_view()[k].len() <= u32::MAX {
                                r@.len() == 1 && r@[0].dest == *sender && r@[0].bytes@
                                    == spec_serialize_find_value_response(
                                    k,
                                    None,
                                    Some(old(self).store_view()[k]),
                                )
                            } else {
                                r@.len() == 0
                            }
                        } else {
                            if k.len() != 64 {
                                r@.len() == 0
                            } else {
                                {
                                    let bucket = old(self).route_table@.buckets[old(
                                        self,
                                    ).route_table@.bucket_index_of(k)];
                                    &&& bucket.nodes.len() == 0 ==> r@.len() == 0
                                    &&& (bucket.nodes.len() > 0 && 26 + k.len() <= u32::MAX)
                                        ==> r@.len() == 1 && r@[0].dest == *sender
                                        && r@[0].bytes@ == spec_serialize_find_value_response(
                                        k,
                                        Some(bucket.nodes[0].endpoint),
                                        None,
                                    )
                                }
                            }
                        }
                    },
                }
            }),
            spec_msg_type_is(buffer@, MessageType::FindNodeResponse.code()) ==> ({
                &&& final(self).store_view() == old(self).store_view()
                &&& final(self).ping_view() == old(self).ping_view()
                &&& r@.len() == 0
                &&& match crate::message::spec_parse_find_node_response(buffer@) {
                    Some(eps) => forall|p: int|
                        0 <= p < eps.len() && spec_node_id(#[trigger] eps[p]) != old(
                            self,
                        ).route_table@.own.id && !final(self).route_table@.buckets[final(self).route_table@.bucket_index_of(
                            spec_node_id(eps[p]),
                        )].is_full() ==> final(self).route_table@.spec_contains(eps[p]),
                    None => true,
                }
            }),
            spec_msg_type_is(buffer@, MessageType::FindValueResponse.code()) ==> ({
                &&& final(self).route_table@ == old(self).route_table@
                &&& final(self).ping_view() == old(self).ping_view()
                &&& r@.len() == 0
                &&& match spec_parse_find_value_response(buffer@) {
                    None => final(self).store_view() == old(self).store_view(),
                    Some(t) => {
                        match t.2 {
                            Some(d) => final(self).store_view() == old(self).store_view().insert(
                                t.0,
                                d,
                            ),
                            None => final(self).store_view() == old(self).store_view(),
                        }
                    },
                }
            }),
    {
        if buffer.len() < MESSAGE_HEADER_SIZE {
            return Vec::new();
        }
        let message_type = crate::codec::read_u32_le(buffer, 0);
        let msg_type = match MessageType::from_u32(message_type) {
            Some(t) => t,
            None => {
                return Vec::new();
            },
        };
        match msg_type {
            MessageType::PingRequest => {
                if buffer.len() != 4 {
                    return Vec::new();
                }
                let sender_id = endpoint_to_node_id(sender);
                let own_id_matches = crate::codec::bytes_equal(
                    sender_id.as_slice(),
                    self.route_table.own_id().as_slice(),
                );
                if own_id_matches {
                    return Vec::new();
                }
                let (handled, probes) = self.admit_node(sender, now);
                if handled {
                    let pong = PingResponseMessage::new();
                    let mut out: Vec<Outgoing> = Vec::new();
                    out.push(Outgoing { dest: *sender, bytes: pong.to_bytes() });
                    out
                } else {
                    probes
                }
            },
            MessageType::PingResponse => {
                if buffer.len() != 4 {
                    return Vec::new();
                }
                if !self.ping_contains(sender) {
                    return Vec::new();
                }
                self.ping_remove(sender);
                let sender_id = endpoint_to_node_id(sender);
                let own_id_matches = crate::codec::bytes_equal(
                    sender_id.as_slice(),
                    self.route_table.own_id().as_slice(),
                );
                if own_id_matches {
                    return Vec::new();
                }
                let ghost mid_table = self.route_table@;
                let (handled, probes) = self.admit_node(sender, now);
                proof {
                    if !handled {
                        assert(!self.ping_view().contains(*sender)) by {
                            if self.ping_view().contains(*sender) {
                                let bucket = mid_table.buckets[mid_table.bucket_index_of(
                                    spec_node_id(*sender),
                                )];
                                let j = choose|j: int|
                                    0 <= j < bucket.nodes.len() && (#[trigger] bucket.nodes[j]).endpoint
                                        == *sender;
                                crate::node::lemma_clz_bytes_le(
                                    crate::node::spec_distance(
                                        mid_table.own.id,
                                        spec_node_id(*sender),
                                    ),
                                );
                                assert(mid_table.spec_contains(*sender));
                            }
                        }
                    }
                }
                probes
            },
            MessageType::StoreValueRequest => {
                let (_, msg) = match StoreValueRequestMessage::from_bytes(buffer) {
                    Ok(p) => p,
                    Err(_) => {
                        return Vec::new();
                    },
                };
                if msg.data.len() == 0 {
                    return Vec::new();
                }
                if msg.key.len() != 64 {
                    return Vec::new();
                }
                if msg.data.len() as u64 + 80 > u32::MAX as u64 {
                    return Vec::new();
                }
                if self.route_table.is_closest_to(msg.key.as_slice()) {
                    self.kvdb.put(msg.key.as_slice(), msg.data.as_slice());
                    return Vec::new();
                }
                let forward_count = calculate_forward_count(1000, 77, msg.replication_level);
                let nodes_to_forward = self.route_table.find_nodes(
                    msg.key.as_slice(),
                    forward_count,
                );
                let ghost fwd_bucket = self.route_table@.buckets[self.route_table@.bucket_index_of(
                    msg.key@,
                )];
                let mut out: Vec<Outgoing> = Vec::new();
                let mut j: usize = 0;
                while j < nodes_to_forward.len()
                    invariant
                        j <= nodes_to_forward@.len(),
                        out@.len() == j,
                        msg.key@.len() == 64,
                        msg.data@.len() > 0,
                        80 + msg.data@.len() <= u32::MAX,
                        forall|q: int|
                            0 <= q < nodes_to_forward@.len() ==> (#[trigger] nodes_to_forward@[q])@
                                == fwd_bucket.nodes[q],
                        forall|q: int|
                            0 <= q < j ==> (#[trigger] out@[q]).dest == fwd_bucket.nodes[q].endpoint
                                && out@[q].bytes@ == spec_serialize_store(
                                msg.key@,
                                msg.data@,
                                msg.replication_level,
                            ),
                    decreases nodes_to_forward@.len() - j,
                {
                    proof {
                        assert(nodes_to_forward@[j as int]@ == fwd_bucket.nodes[j as int]);
                    }
                    out.push(
                        Outgoing { dest: nodes_to_forward[j].endpoint, bytes: msg.to_bytes() },
                    );
                    j = j + 1;
                }
                proof {
                    assert(spec_outgoing_views(out@) =~= spec_sendout(
                        self.route_table@,
                        msg.key@,
                        spec_forward_count(msg.replication_level),
                        spec_serialize_store(msg.key@, msg.data@, msg.replication_level),
                    ));
                }
                out
            },
            MessageType::FindNodeRequest => {
                let (_, msg) = match FindNodeRequestMessage::from_bytes(buffer) {
                    Ok(p) => p,
                    Err(_) => {
                        return Vec::new();
                    },
                };
                if msg.key.len() != 64 {
                    return Vec::new();
                }
                let nodes = self.route_table.find_nodes(
                    msg.key.as_slice(),
                    ROUTE_TABLE_K as usize,
                );
                if nodes.len() == 0 {
                    return Vec::new();
                }
                let ghost bucket = self.route_table@.buckets[self.route_table@.bucket_index_of(
                    msg.key@,
                )];
                let mut addrs: Vec<Endpoint> = Vec::new();
                let mut j: usize = 0;
                while j < nodes.len()
                    invariant
                        j <= nodes@.len(),
                        addrs@.len() == j,
                        nodes@.len() <= bucket.nodes.len(),
                        forall|q: int|
                            0 <= q < nodes@.len() ==> (#[trigger] nodes@[q])@ == bucket.nodes[q],
                        forall|q: int| 0 <= q < j ==> addrs@[q] == bucket.nodes[q].endpoint,
                    decreases nodes@.len() - j,
                {
                    proof {
                        assert(nodes@[j as int]@ == bucket.nodes[j as int]);
                    }
                    addrs.push(nodes[j].endpoint);
                    j = j + 1;
                }
                let reply = FindNodeResponseMessage::new(addrs.as_slice());
                proof {
                    assert(reply.nodes@ =~= Seq::new(
                        nodes@.len() as nat,
                        |q: int| bucket.nodes[q].endpoint,
                    ));
                }
                let mut out: Vec<Outgoing> = Vec::new();
                out.push(Outgoing { dest: *sender, bytes: reply.to_bytes() });
                out
            },
            MessageType::FindValueRequest => {
                let (_, msg) = match FindValueRequestMessage::from_bytes(buffer) {
                    Ok(p) => p,
                    Err(_) => {
                        return Vec::new();
                    },
                };
                match self.kvdb.get(msg.key.as_slice()) {
                    Some(value) => {
                        if msg.key.len() as u64 > u32::MAX as u64 || value.len() as u64
                            > u32::MAX as u64 {
                            return Vec::new();
                        }
                        if (msg.key.len() as u64) + (value.len() as u64) + 26 > u32::MAX as u64 {
                            return Vec::new();
                        }
                        let reply = FindValueResponseMessage::new(
                            msg.key.as_slice(),
                            None,
                            Some(value.as_slice()),
                        );
                        let mut out: Vec<Outgoing> = Vec::new();
                        out.push(Outgoing { dest: *sender, bytes: reply.to_bytes() });
                        out
                    },
                    None => {
                        if msg.key.len() != 64 {
                            return Vec::new();
                        }
                        let nodes = self.route_table.find_nodes(msg.key.as_slice(), 1);
                        if nodes.len() == 0 {
                            return Vec::new();
                        }
                        if (msg.key.len() as u64) + 26 > u32::MAX as u64 {
                            return Vec::new();
                        }
                        proof {
                            assert(nodes@[0]@ == self.route_table@.buckets[self.route_table@.bucket_index_of(
                                msg.key@,
                            )].nodes[0]);
                        }
                        let ep = nodes[0].endpoint;
                        let reply = FindValueResponseMessage::new(
                            msg.key.as_slice(),
                            Some(&ep),
                            None,
                        );
                        let mut out: Vec<Outgoing> = Vec::new();
                        out.push(Outgoing { dest: *sender, bytes: reply.to_bytes() });
                        out
                    },
                }
            },
            MessageType::FindNodeResponse => {
                let (_, msg) = match FindNodeResponseMessage::from_bytes(buffer) {
                    Ok(p) => p,
                    Err(_) => {
                        return Vec::new();
                    },
                };
                let own_id = vstd::slice::slice_to_vec(self.route_table.own_id().as_slice());
                let mut j: usize = 0;
                while j < msg.nodes.len()
                    invariant
                        j <= msg.nodes@.len(),
                        self.inv(),
                        self.store_view() == old(self).store_view(),
                        self.ping_view() == old(self).ping_view(),
                        self.local_ep == old(self).local_ep,
                        self.route_table@.own == old(self).route_table@.own,
                        self.route_table@.buckets.len() == old(self).route_table@.buckets.len(),
                        self.route_table@.k == old(self).route_table@.k,
                        own_id@ == self.route_table@.own.id,
                        forall|x: Endpoint|
                            old(self).route_table@.spec_contains(x)
                                ==> self.route_table@.spec_contains(x),
                        forall|p: int|
                            0 <= p < j && spec_node_id(#[trigger] msg.nodes@[p])
                                != old(self).route_table@.own.id
                                && !self.route_table@.buckets[self.route_table@.bucket_index_of(
                                spec_node_id(msg.nodes@[p]),
                            )].is_full() ==> self.route_table@.spec_contains(msg.nodes@[p]),
                    decreases msg.nodes@.len() - j,
                {
                    let n = msg.nodes[j];
                    let n_id = endpoint_to_node_id(&n);
                    if !crate::codec::bytes_equal(n_id.as_slice(), own_id.as_slice()) {
                        let ghost pre = self.route_table@;
                        let admitted = self.route_table.add_node(&n, now);
                        proof {
                            lemma_add_node_monotone(pre, self.route_table@, n, now);
                            lemma_add_node_buckets_grow(pre, self.route_table@, n, now);
                            assert forall|p: int|
                                0 <= p < j + 1 && spec_node_id(#[trigger] msg.nodes@[p])
                                    != old(self).route_table@.own.id
                                    && !self.route_table@.buckets[self.route_table@.bucket_index_of(
                                    spec_node_id(msg.nodes@[p]),
                                )].is_full() implies self.route_table@.spec_contains(
                                msg.nodes@[p],
                            ) by {
                                if p < j {
                                    let idp = spec_node_id(msg.nodes@[p]);
                                    crate::node::lemma_clz_bytes_le(
                                        spec_distance(pre.own.id, idp),
                                    );
                                    assert(pre.own == self.route_table@.own);
                                    assert(pre.bucket_index_of(idp)
                                        == self.route_table@.bucket_index_of(idp));
                                    let bi = pre.bucket_index_of(idp);
                                    assert(0 <= bi < pre.buckets.len());
                                    assert(pre.buckets[bi].nodes.len()
                                        <= self.route_table@.buckets[bi].nodes.len());
                                    assert(pre.buckets[bi].k == pre.k);
                                    assert(self.route_table@.buckets[bi].k
                                        == self.route_table@.k);
                                    assert(!pre.buckets[bi].is_full());
                                    assert(pre.spec_contains(msg.nodes@[p]));
                                }
                            }
                        }
                    }
                    j = j + 1;
                }
                Vec::new()
            },
            MessageType::FindValueResponse => {
                let (_, msg) = match FindValueResponseMessage::from_bytes(buffer) {
                    Ok(p) => p,
                    Err(_) => {
                        return Vec::new();
                    },
                };
                match &msg.data {
                    Some(d) => {
                        self.kvdb.put(msg.key.as_slice(), d.as_slice());
                    },
                    None => {},
                }
                Vec::new()
            },
        }
    }

    /// Take `ep` out of the ping set.
    #[verifier::loop_isolation(false)]
    fn ping_remove(&mut self, ep: &Endpoint)
        ensures
            !final(self).ping_view().contains(*ep),
            forall|x: Endpoint|
                x != *ep ==> (final(self).ping_view().contains(x) == old(self).ping_view().contains(
                    x,
                )),
            final(self).route_table@ == old(self).route_table@,
            final(self).store_view() == old(self).store_view(),
            final(self).local_ep_view() == old(self).local_ep_view(),
            final(self).inv() == old(self).inv(),
    {
        let mut i: usize = 0;
        let mut kept: Vec<Endpoint> = Vec::new();
        while i < self.ping_list.len()
            invariant
                i <= self.ping_list@.len(),
                self.ping_list@ == old(self).ping_list@,
                forall|q: int| 0 <= q < kept@.len() ==> kept@[q] != *ep,
                forall|x: Endpoint| kept@.contains(x) ==> old(self).ping_list@.contains(x),
                forall|q: int|
                    0 <= q < i && old(self).ping_list@[q] != *ep ==> kept@.contains(
                        #[trigger] old(self).ping_list@[q],
                    ),
            decreases self.ping_list@.len() - i,
        {
            let cur = self.ping_list[i];
            if cur != *ep {
                let ghost kpre = kept@;
                kept.push(cur);
                proof {
                    assert(kept@.last() == cur);
                    assert forall|x: Endpoint| kept@.contains(x) implies old(
                        self,
                    ).ping_list@.contains(x) by {
                        let w = choose|w: int| 0 <= w < kept@.len() && kept@[w] == x;
                        if w < kept@.len() - 1 {
                            assert(kpre[w] == x);
                            assert(kpre.contains(x));
                        } else {
                            assert(old(self).ping_list@[i as int] == x);
                            assert(old(self).ping_list@.contains(x));
                        }
                    }
                    assert forall|q: int|
                        0 <= q < i + 1 && old(self).ping_list@[q] != *ep implies kept@.contains(
                        #[trigger] old(self).ping_list@[q],
                    ) by {
                        if q < i {
                            let w = choose|w: int|
                                0 <= w < kpre.len() && kpre[w] == old(self).ping_list@[q];
                            assert(kept@[w] == old(self).ping_list@[q]);
                        } else {
                            assert(kept@.last() == old(self).ping_list@[q]);
                        }
                    }
                }
            }
            i = i + 1;
        }
        self.ping_list = kept;
        proof {
            assert(!self.ping_list@.contains(*ep)) by {
                if self.ping_list@.contains(*ep) {
                    let w = choose|w: int|
                        0 <= w < self.ping_list@.len() && self.ping_list@[w] == *ep;
                }
            }
            assert forall|x: Endpoint|
                x != *ep && old(self).ping_list@.contains(x) implies self.ping_list@.contains(
                x,
            ) by {
                let q = choose|q: int|
                    0 <= q < old(self).ping_list@.len() && old(self).ping_list@[q] == x;
                assert(old(self).ping_list@[q] != *ep);
            }
        }
    }
}

} // verus!
