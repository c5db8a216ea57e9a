//! The XOR-metric routing table: buckets of known peers, indexed by how
//! many leading bits a peer's identity shares with our own.

use vstd::prelude::*;
use crate::bucket::{Bucket, BucketV};
use crate::endpoint::Endpoint;
use crate::node::{Node, NodeV, NodeInfo, spec_node_id, spec_distance, spec_id_lt, spec_clz_bytes,
    endpoint_to_node_id, calculate_bucket_index, node_id_distance, node_id_cmp,
    lemma_clz_bytes_le};

verus! {

/// Mathematical view of a [`RouteTable`].
#[verifier::ext_equal]
pub struct RouteTableV {
    pub k: u16,
    pub own: NodeV,
    pub buckets: Seq<BucketV>,
}

impl RouteTableV {
    /// Bucket a given identity falls into: the shared-prefix length with our
    /// own identity.
    pub open spec fn bucket_index_of(self, id: Seq<u8>) -> int {
        spec_clz_bytes(spec_distance(self.own.id, id)) as int
    }

    /// Whether a peer with this endpoint is known.
    pub open spec fn spec_contains(self, ep: Endpoint) -> bool {
        exists|i: int, j: int|
            0 <= i < self.buckets.len() && 0 <= j < (#[trigger] self.buckets[i]).nodes.len()
                && (#[trigger] self.buckets[i].nodes[j]).endpoint == ep
    }

    /// A table able to hold the whole identity space: enough buckets for
    /// every shared-prefix length, identities well-formed, buckets bounded.
    pub open spec fn wf(self) -> bool {
        &&& self.own.wf()
        &&& self.buckets.len() > 512
        &&& forall|i: int| 0 <= i < self.buckets.len() ==> (#[trigger] self.buckets[i]).k == self.k
        &&& forall|i: int, j: int|
            0 <= i < self.buckets.len() && 0 <= j < (#[trigger] self.buckets[i]).nodes.len()
                ==> (#[trigger] self.buckets[i].nodes[j]).wf()
    }
}

/// After an admit-or-refresh, every pre-existing entry is unchanged or,
/// when it is the addressed peer, merely restamped.
pub open spec fn entries_refreshed(pre: RouteTableV, post: RouteTableV, ep: Endpoint, now: u64) -> bool {
    forall|i: int, j: int|
        #![trigger pre.buckets[i].nodes[j]]
        0 <= i < pre.buckets.len() && 0 <= j < pre.buckets[i].nodes.len()
            ==> post.buckets[i].nodes[j] == pre.buckets[i].nodes[j] || (pre.buckets[i].nodes[j].endpoint
            == ep && post.buckets[i].nodes[j] == (NodeV {
            last_ping: now,
            ..pre.buckets[i].nodes[j]
        }))
}

/// No bucket changed size.
pub open spec fn bucket_sizes_equal(pre: RouteTableV, post: RouteTableV) -> bool {
    &&& post.buckets.len() == pre.buckets.len()
    &&& forall|i: int|
        0 <= i < pre.buckets.len() ==> (#[trigger] post.buckets[i]).nodes.len()
            == pre.buckets[i].nodes.len()
}

/// A fresh entry for `ep` was appended to its bucket; the rest is untouched.
pub open spec fn inserted_new_node(pre: RouteTableV, post: RouteTableV, ep: Endpoint, now: u64) -> bool {
    let idx = pre.bucket_index_of(spec_node_id(ep));
    &&& post.buckets[idx].nodes == pre.buckets[idx].nodes.push(
        NodeV { id: spec_node_id(ep), endpoint: ep, last_ping: now },
    )
    &&& forall|i: int|
        0 <= i < pre.buckets.len() && i != idx ==> (#[trigger] post.buckets[i])
            == pre.buckets[i]
}

/// The records one bucket contributes to a save.
pub open spec fn spec_bucket_infos(nodes: Seq<NodeV>) -> Seq<NodeInfo> {
    Seq::new(nodes.len(), |j: int| NodeInfo { endpoint: nodes[j].endpoint })
}

/// The records a whole table saves: bucket by bucket, peer by peer.
pub open spec fn spec_saved_infos(buckets: Seq<BucketV>) -> Seq<NodeInfo>
    decreases buckets.len(),
{
    if buckets.len() == 0 {
        Seq::empty()
    } else {
        spec_saved_infos(buckets.drop_last()) + spec_bucket_infos(buckets.last().nodes)
    }
}

/// Whatever admit-or-refresh did, no bucket shrank.
pub proof fn lemma_add_node_buckets_grow(pre: RouteTableV, post: RouteTableV, ep: Endpoint, now: u64)
    requires
        post.buckets.len() == pre.buckets.len(),
        entries_refreshed(pre, post, ep, now),
        post == pre || bucket_sizes_equal(pre, post) || inserted_new_node(pre, post, ep, now),
    ensures
        forall|i: int|
            0 <= i < pre.buckets.len() ==> (#[trigger] post.buckets[i]).nodes.len()
                >= pre.buckets[i].nodes.len(),
{
    assert forall|i: int|
        0 <= i < pre.buckets.len() implies (#[trigger] post.buckets[i]).nodes.len()
        >= pre.buckets[i].nodes.len() by {
        if post == pre {
        } else if bucket_sizes_equal(pre, post) {
        } else {
            let idx = pre.bucket_index_of(spec_node_id(ep));
            if i != idx {
                assert(post.buckets[i] == pre.buckets[i]);
            }
        }
    }
}

/// Whatever admit-or-refresh did, every peer known before is still known.
pub proof fn lemma_add_node_monotone(pre: RouteTableV, post: RouteTableV, ep: Endpoint, now: u64)
    requires
        post.buckets.len() == pre.buckets.len(),
        entries_refreshed(pre, post, ep, now),
        post == pre || bucket_sizes_equal(pre, post) || inserted_new_node(pre, post, ep, now),
    ensures
        forall|x: Endpoint| pre.spec_contains(x) ==> post.spec_contains(x),
{
    assert forall|x: Endpoint| pre.spec_contains(x) implies post.spec_contains(x) by {
        let (i, j) = choose|i: int, j: int|
            0 <= i < pre.buckets.len() && 0 <= j < (#[trigger] pre.buckets[i]).nodes.len() && (
            #[trigger] pre.buckets[i].nodes[j]).endpoint == x;
        if post == pre {
        } else if bucket_sizes_equal(pre, post) {
            assert(post.buckets[i].nodes[j].endpoint == x);
            assert(post.spec_contains(x));
        } else {
            let idx = pre.bucket_index_of(spec_node_id(ep));
            if i == idx {
                assert(post.buckets[i].nodes == pre.buckets[i].nodes.push(
                    NodeV { id: spec_node_id(ep), endpoint: ep, last_ping: now },
                ));
                assert(post.buckets[i].nodes[j].endpoint == x);
            } else {
                assert(post.buckets[i] == pre.buckets[i]);
                assert(post.buckets[i].nodes[j].endpoint == x);
            }
            assert(post.spec_contains(x));
        }
    }
}

/// Buckets of known peers around an own identity.
#[derive(Debug)]
pub struct RouteTable {
    k: u16,
    own_node: Node,
    buckets: Vec<Bucket>,
}

impl View for RouteTable {
    type V = RouteTableV;

    closed spec fn view(&self) -> RouteTableV {
        RouteTableV {
            k: self.k,
            own: self.own_node@,
            buckets: Seq::new(self.buckets@.len(), |i: int| self.buckets@[i]@),
        }
    }
}

impl RouteTable {
    /// A fresh table for the peer at `own_endpoint`, with `buckets_capacity`
    /// buckets of `k` entries each.
    #[verifier::loop_isolation(false)]
    pub fn new(own_endpoint: &Endpoint, k: u16, buckets_capacity: usize, now: u64) -> (r:
        RouteTable)
        ensures
            r@.k == k,
            r@.own == (NodeV {
                id: spec_node_id(*own_endpoint),
                endpoint: *own_endpoint,
                last_ping: now,
            }),
            r@.buckets.len() == buckets_capacity,
            forall|i: int|
                0 <= i < buckets_capacity ==> (#[trigger] r@.buckets[i]).nodes.len() == 0
                    && r@.buckets[i].k == k,
            buckets_capacity > 512 ==> r@.wf(),
    {
        let mut buckets: Vec<Bucket> = Vec::new();
        let mut i: usize = 0;
        while i < buckets_capacity
            invariant
                i <= buckets_capacity,
                buckets@.len() == i,
                forall|q: int|
                    0 <= q < i ==> (#[trigger] buckets@[q])@.nodes.len() == 0 && buckets@[q]@.k
                        == k,
            decreases buckets_capacity - i,
        {
            buckets.push(Bucket::new(k));
            i = i + 1;
        }
        let r = RouteTable { k, own_node: Node::new(own_endpoint, now), buckets };
        proof {
            assert forall|q: int| 0 <= q < buckets_capacity implies (#[trigger] r@.buckets[q])
                .nodes.len() == 0 && r@.buckets[q].k == k by {
                assert(r@.buckets[q] == buckets@[q]@);
            }
        }
        r
    }

    /// Our own 64-byte identity.
    pub fn own_id(&self) -> (r: &Vec<u8>)
        ensures
            r@ == self@.own.id,
    {
        &self.own_node.id
    }

    /// Whether the peer at `endpoint` is in the table.
    #[verifier::loop_isolation(false)]
    pub fn contains(&self, endpoint: &Endpoint) -> (r: bool)
        ensures
            r == self@.spec_contains(*endpoint),
    {
        let mut i: usize = 0;
        while i < self.buckets.len()
            invariant
                i <= self.buckets@.len(),
                forall|p: int, q: int|
                    0 <= p < i && 0 <= q < (#[trigger] self@.buckets[p]).nodes.len() ==> (
                    #[trigger] self@.buckets[p].nodes[q]).endpoint != *endpoint,
            decreases self.buckets@.len() - i,
        {
            let bucket = &self.buckets[i];
            let mut j: usize = 0;
            while j < bucket.nodes.len()
                invariant
                    j <= bucket.nodes@.len(),
                    bucket@ == self@.buckets[i as int],
                    i < self.buckets@.len(),
                    forall|q: int|
                        0 <= q < j ==> (#[trigger] self@.buckets[i as int].nodes[q]).endpoint
                            != *endpoint,
                decreases bucket.nodes@.len() - j,
            {
                proof {
                    assert(bucket.nodes@[j as int]@ == bucket@.nodes[j as int]);
                }
                if bucket.nodes[j].endpoint == *endpoint {
                    return true;
                }
                j = j + 1;
            }
            i = i + 1;
        }
        false
    }

    /// A copy of the entry for `endpoint`, when it is known.
    #[verifier::loop_isolation(false)]
    pub fn get_node_by_endpoint(&self, endpoint: &Endpoint) -> (r: Option<Node>)
        ensures
            match r {
                Some(n) => self@.spec_contains(*endpoint) && n@.endpoint == *endpoint,
                None => !self@.spec_contains(*endpoint),
            },
    {
        let mut i: usize = 0;
        while i < self.buckets.len()
            invariant
                i <= self.buckets@.len(),
                forall|p: int, q: int|
                    0 <= p < i && 0 <= q < (#[trigger] self@.buckets[p]).nodes.len() ==> (
                    #[trigger] self@.buckets[p].nodes[q]).endpoint != *endpoint,
            decreases self.buckets@.len() - i,
        {
            let bucket = &self.buckets[i];
            let mut j: usize = 0;
            while j < bucket.nodes.len()
                invariant
                    j <= bucket.nodes@.len(),
                    bucket@ == self@.buckets[i as int],
                    i < self.buckets@.len(),
                    forall|q: int|
                        0 <= q < j ==> (#[trigger] self@.buckets[i as int].nodes[q]).endpoint
                            != *endpoint,
                decreases bucket.nodes@.len() - j,
            {
                proof {
                    assert(bucket.nodes@[j as int]@ == bucket@.nodes[j as int]);
                }
                if bucket.nodes[j].endpoint == *endpoint {
                    return Some(bucket.nodes[j].clone());
                }
                j = j + 1;
            }
            i = i + 1;
        }
        None
    }

    /// Admit the peer at `node_endpoint`, or refresh it. Returns true when
    /// handled: the peer was already known (its liveness is refreshed) or
    /// its bucket had room (it is inserted). Returns false when the bucket
    /// is full; the caller must probe the occupants first.
    #[verifier::loop_isolation(false)]
    pub fn add_node(&mut self, node_endpoint: &Endpoint, now: u64) -> (r: bool)
        requires
            old(self)@.wf(),
            spec_node_id(*node_endpoint) != old(self)@.own.id,
        ensures
            final(self)@.wf(),
            final(self)@.k == old(self)@.k,
            final(self)@.own == old(self)@.own,
            final(self)@.buckets.len() == old(self)@.buckets.len(),
            r == (old(self)@.spec_contains(*node_endpoint) || !old(self)@.buckets[old(
                self,
            )@.bucket_index_of(spec_node_id(*node_endpoint))].is_full()),
            final(self)@.spec_contains(*node_endpoint) == r,
            !r ==> final(self)@ == old(self)@,
            entries_refreshed(old(self)@, final(self)@, *node_endpoint, now),
            old(self)@.spec_contains(*node_endpoint) ==> bucket_sizes_equal(
                old(self)@,
                final(self)@,
            ),
            (!old(self)@.spec_contains(*node_endpoint) && r) ==> inserted_new_node(
                old(self)@,
                final(self)@,
                *node_endpoint,
                now,
            ),
    {
        let new_node = Node::new(node_endpoint, now);
        // refresh pass: if the peer is known, refresh it and stop
        let mut i: usize = 0;
        while i < self.buckets.len()
            invariant
                i <= self.buckets@.len(),
                self == old(self),
                forall|p: int, q: int|
                    0 <= p < i && 0 <= q < (#[trigger] self@.buckets[p]).nodes.len() ==> (
                    #[trigger] self@.buckets[p].nodes[q]).endpoint != *node_endpoint,
            decreases self.buckets@.len() - i,
        {
            let blen = self.buckets[i].nodes.len();
            let mut j: usize = 0;
            while j < blen
                invariant
                    j <= blen,
                    i < self.buckets@.len(),
                    blen == self@.buckets[i as int].nodes.len(),
                    self == old(self),
                    forall|q: int|
                        0 <= q < j ==> (#[trigger] self@.buckets[i as int].nodes[q]).endpoint
                            != *node_endpoint,
                decreases blen - j,
            {
                proof {
                    assert(self.buckets@[i as int]@.nodes[j as int] == self@.buckets[i as int].nodes[
                    j as int]);
                }
                if self.buckets[i].nodes[j].endpoint == *node_endpoint {
                    let ghost pre = self@;
                    refresh_node(&mut self.buckets, i, j, now);
                    proof {
                        assert(self@.buckets =~= pre.buckets.update(
                            i as int,
                            BucketV {
                                nodes: pre.buckets[i as int].nodes.update(
                                    j as int,
                                    NodeV { last_ping: now, ..pre.buckets[i as int].nodes[j as int] },
                                ),
                                ..pre.buckets[i as int]
                            },
                        ));
                        assert(self@.buckets[i as int].nodes[j as int].endpoint
                            == *node_endpoint);
                        assert(self@.spec_contains(*node_endpoint));
                    }
                    return true;
                }
                j = j + 1;
            }
            i = i + 1;
        }
        // not present: find the bucket and insert if there is room
        let index = calculate_bucket_index(self.own_node.id.as_slice(), new_node.id.as_slice());
        proof {
            assert(self.own_node.id@ == self@.own.id);
        }
        if self.buckets[index].is_full() {
            proof {
                assert(self@ =~~= old(self)@);
            }
            return false;
        }
        let ghost pre = self@;
        push_node(&mut self.buckets, index, new_node);
        proof {
            assert(self@.buckets =~= pre.buckets.update(
                index as int,
                BucketV {
                    nodes: pre.buckets[index as int].nodes.push(
                        NodeV {
                            id: spec_node_id(*node_endpoint),
                            endpoint: *node_endpoint,
                            last_ping: now,
                        },
                    ),
                    ..pre.buckets[index as int]
                },
            ));
            assert(self@.spec_contains(*node_endpoint)) by {
                assert(self@.buckets[index as int].nodes[self@.buckets[index as int].nodes.len()
                    - 1].endpoint == *node_endpoint);
            }
        }
        true
    }

    /// The bucket an identity hashes into.
    #[verifier::loop_isolation(false)]
    pub fn find_bucket(&self, id: &[u8]) -> (r: &Bucket)
        requires
            self@.wf(),
            id@.len() == 64,
        ensures
            r@ == self@.buckets[self@.bucket_index_of(id@)],
            0 <= self@.bucket_index_of(id@) < self@.buckets.len(),
    {
        proof {
            lemma_clz_bytes_le(spec_distance(self@.own.id, id@));
        }
        let index = calculate_bucket_index(self.own_node.id.as_slice(), id);
        proof {
            assert(self.buckets@[index as int]@ == self@.buckets[index as int]);
        }
        &self.buckets[index]
    }

    /// A mutable borrow of the bucket an identity hashes into; the rest of
    /// the table is untouched, whatever the caller does with the bucket.
    pub fn find_bucket_mut_ref(&mut self, id: &[u8]) -> (r: &mut Bucket)
        requires
            old(self)@.wf(),
            id@.len() == 64,
        ensures
            r@ == old(self)@.buckets[old(self)@.bucket_index_of(id@)],
            final(self)@.buckets.len() == old(self)@.buckets.len(),
            final(self)@.k == old(self)@.k,
            final(self)@.own == old(self)@.own,
            forall|p: int|
                0 <= p < old(self)@.buckets.len() && p != old(self)@.bucket_index_of(id@) ==> (
                #[trigger] final(self)@.buckets[p]) == old(self)@.buckets[p],
            final(self)@.buckets[old(self)@.bucket_index_of(id@)] == final(r)@,
    {
        proof {
            lemma_clz_bytes_le(spec_distance(self@.own.id, id@));
        }
        let index = calculate_bucket_index(self.own_node.id.as_slice(), id);
        vstd::std_specs::vec::vec_index_mut(&mut self.buckets, index)
    }

    /// Copies of up to `desired_count` peers from the bucket `id` hashes
    /// into.
    #[verifier::loop_isolation(false)]
    pub fn find_nodes(&self, id: &[u8], desired_count: usize) -> (r: Vec<Node>)
        requires
            self@.wf(),
            id@.len() == 64,
        ensures
            ({
                let bucket = self@.buckets[self@.bucket_index_of(id@)];
                &&& r@.len() == if desired_count <= bucket.nodes.len() {
                    desired_count as int
                } else {
                    bucket.nodes.len() as int
                }
                &&& forall|i: int| 0 <= i < r@.len() ==> (#[trigger] r@[i])@ == bucket.nodes[i]
            }),
    {
        let bucket = self.find_bucket(id);
        bucket.select_nodes(desired_count)
    }

    /// Whether no known peer in the key's bucket is closer to the key than
    /// we are.
    #[verifier::loop_isolation(false)]
    pub fn is_closest_to(&self, id: &[u8]) -> (r: bool)
        requires
            self@.wf(),
            id@.len() == 64,
        ensures
            ({
                let bucket = self@.buckets[self@.bucket_index_of(id@)];
                r == forall|j: int|
                    0 <= j < bucket.nodes.len() ==> !spec_id_lt(
                        spec_distance((#[trigger] bucket.nodes[j]).id, id@),
                        spec_distance(self@.own.id, id@),
                    )
            }),
    {
        let bucket = self.find_bucket(id);
        let nodes = bucket.select_nodes(bucket.size());
        let ghost bv = self@.buckets[self@.bucket_index_of(id@)];
        let mut j: usize = 0;
        while j < nodes.len()
            invariant
                j <= nodes@.len(),
                nodes@.len() == bv.nodes.len(),
                self@.wf(),
                id@.len() == 64,
                forall|q: int| 0 <= q < nodes@.len() ==> (#[trigger] nodes@[q])@ == bv.nodes[q],
                forall|q: int|
                    0 <= q < j ==> !spec_id_lt(
                        spec_distance((#[trigger] bv.nodes[q]).id, id@),
                        spec_distance(self@.own.id, id@),
                    ),
            decreases nodes@.len() - j,
        {
            let node = &nodes[j];
            let d1 = node_id_distance(self.own_node.id.as_slice(), id);
            let d2 = node_id_distance(node.id.as_slice(), id);
            proof {
                assert(nodes@[j as int]@ == bv.nodes[j as int]);
                assert(self@.buckets[self@.bucket_index_of(id@)].nodes[j as int].wf());
                assert(bv.nodes[j as int].wf());
                assert(node.id@ == bv.nodes[j as int].id);
            }
            let not_closest = node_id_cmp(d2.as_slice(), d1.as_slice());
            if not_closest {
                return false;
            }
            j = j + 1;
        }
        true
    }

    /// Whether the bucket for `endpoint` still has room.
    #[verifier::loop_isolation(false)]
    pub fn is_space_available_for(&self, endpoint: &Endpoint) -> (r: bool)
        requires
            self@.wf(),
        ensures
            r == !self@.buckets[self@.bucket_index_of(spec_node_id(*endpoint))].is_full(),
    {
        let id = endpoint_to_node_id(endpoint);
        let bucket = self.find_bucket(id.as_slice());
        !bucket.is_full()
    }

    /// The records to persist: one per known peer, bucket by bucket, and
    /// nothing else.
    #[verifier::loop_isolation(false)]
    pub fn save(&self) -> (r: Vec<NodeInfo>)
        ensures
            r@ == spec_saved_infos(self@.buckets),
    {
        let mut infos: Vec<NodeInfo> = Vec::new();
        let mut i: usize = 0;
        proof {
            assert(self@.buckets.subrange(0, 0) =~= Seq::<BucketV>::empty());
            assert(infos@ =~= spec_saved_infos(self@.buckets.subrange(0, 0)));
        }
        while i < self.buckets.len()
            invariant
                i <= self.buckets@.len(),
                infos@ == spec_saved_infos(self@.buckets.subrange(0, i as int)),
            decreases self.buckets@.len() - i,
        {
            let bucket = &self.buckets[i];
            let ghost outer = infos@;
            let mut j: usize = 0;
            while j < bucket.nodes.len()
                invariant
                    j <= bucket.nodes@.len(),
                    i < self.buckets@.len(),
                    bucket@ == self@.buckets[i as int],
                    infos@ == outer + spec_bucket_infos(
                        self@.buckets[i as int].nodes.subrange(0, j as int),
                    ),
                decreases bucket.nodes@.len() - j,
            {
                proof {
                    assert(bucket.nodes@[j as int]@ == bucket@.nodes[j as int]);
                }
                infos.push(self.buckets[i].nodes[j].info());
                proof {
                    assert(infos@ =~= outer + spec_bucket_infos(
                        self@.buckets[i as int].nodes.subrange(0, j + 1),
                    ));
                }
                j = j + 1;
            }
            i = i + 1;
            proof {
                let pre = self@.buckets.subrange(0, i as int);
                assert(pre.drop_last() =~= self@.buckets.subrange(0, i - 1));
                assert(pre.last() == self@.buckets[i - 1]);
                assert(self@.buckets[i - 1].nodes.subrange(
                    0,
                    self@.buckets[i - 1].nodes.len() as int,
                ) =~= self@.buckets[i - 1].nodes);
                assert(infos@ =~= spec_saved_infos(pre));
            }
        }
        proof {
            assert(self@.buckets.subrange(0, self.buckets@.len() as int) =~= self@.buckets);
        }
        infos
    }
}

/// Refresh the liveness stamp of one node in one bucket.
fn refresh_node(buckets: &mut Vec<Bucket>, i: usize, j: usize, now: u64)
    requires
        i < old(buckets)@.len(),
        j < old(buckets)@[i as int]@.nodes.len(),
    ensures
        final(buckets)@.len() == old(buckets)@.len(),
        forall|p: int|
            0 <= p < old(buckets)@.len() && p != i ==> (#[trigger] final(buckets)@[p])@ == old(
                buckets,
            )@[p]@,
        final(buckets)@[i as int]@ == (BucketV {
            nodes: old(buckets)@[i as int]@.nodes.update(
                j as int,
                NodeV { last_ping: now, ..old(buckets)@[i as int]@.nodes[j as int] },
            ),
            ..old(buckets)@[i as int]@
        }),
{
    let bucket = &mut buckets[i];
    bucket.refresh(j, now);
}

/// Append a node to one bucket that has room.
fn push_node(buckets: &mut Vec<Bucket>, i: usize, node: Node)
    requires
        i < old(buckets)@.len(),
        !old(buckets)@[i as int]@.is_full(),
    ensures
        final(buckets)@.len() == old(buckets)@.len(),
        forall|p: int|
            0 <= p < old(buckets)@.len() && p != i ==> (#[trigger] final(buckets)@[p])@ == old(
                buckets,
            )@[p]@,
        final(buckets)@[i as int]@ == (BucketV {
            nodes: old(buckets)@[i as int]@.nodes.push(node@),
            ..old(buckets)@[i as int]@
        }),
{
    let bucket = &mut buckets[i];
    bucket.add_node(node);
}

} // verus!
