//! One routing-table bucket: up to `k` peers sharing a distance prefix.

use vstd::prelude::*;
use crate::node::{Node, NodeV};

verus! {

/// A bucket of up to `k` known peers.
#[derive(Debug)]
pub struct Bucket {
    pub nodes: Vec<Node>,
    pub k: u16,
}

/// Mathematical view of a [`Bucket`].
#[verifier::ext_equal]
pub struct BucketV {
    pub nodes: Seq<NodeV>,
    pub k: u16,
}

impl View for Bucket {
    type V = BucketV;

    open spec fn view(&self) -> BucketV {
        BucketV { nodes: Seq::new(self.nodes@.len(), |i: int| self.nodes@[i]@), k: self.k }
    }
}

impl BucketV {
    /// Full when `k` peers are present.
    pub open spec fn is_full(self) -> bool {
        self.nodes.len() >= self.k
    }
}

impl Bucket {
    /// An empty bucket with capacity `k`.
    pub fn new(k: u16) -> (r: Bucket)
        ensures
            r@.nodes == Seq::<NodeV>::empty(),
            r@.k == k,
    {
        let r = Bucket { nodes: Vec::new(), k };
        proof {
            assert(r@.nodes =~= Seq::<NodeV>::empty());
        }
        r
    }

    /// Add a peer; a full bucket is left alone.
    pub fn add_node(&mut self, node: Node)
        ensures
            final(self)@.k == old(self)@.k,
            final(self)@.nodes == if old(self)@.is_full() {
                old(self)@.nodes
            } else {
                old(self)@.nodes.push(node@)
            },
    {
        if self.is_full() {
            proof {
                assert(self@.nodes =~= old(self)@.nodes);
            }
            return;
        }
        self.nodes.push(node);
        proof {
            assert(self@.nodes =~= old(self)@.nodes.push(node@));
        }
    }

    /// Refresh the liveness stamp of the `j`-th peer.
    pub fn refresh(&mut self, j: usize, now: u64)
        requires
            j < old(self)@.nodes.len(),
        ensures
            final(self)@ == (BucketV {
                nodes: old(self)@.nodes.update(
                    j as int,
                    NodeV { last_ping: now, ..old(self)@.nodes[j as int] },
                ),
                ..old(self)@
            }),
    {
        let node = vstd::std_specs::vec::vec_index_mut(&mut self.nodes, j);
        node.update_alive(now);
        proof {
            assert(self@.nodes =~= old(self)@.nodes.update(
                j as int,
                NodeV { last_ping: now, ..old(self)@.nodes[j as int] },
            ));
        }
    }

    /// How many peers the bucket holds.
    pub fn size(&self) -> (r: usize)
        ensures
            r == self@.nodes.len(),
    {
        self.nodes.len()
    }

    /// Whether the bucket is at capacity.
    pub fn is_full(&self) -> (r: bool)
        ensures
            r == self@.is_full(),
    {
        self.nodes.len() >= self.k as usize
    }

    /// Copies of the first `desired_count` peers (or all, if fewer).
    pub fn select_nodes(&self, desired_count: usize) -> (r: Vec<Node>)
        ensures
            r@.len() == if desired_count <= self@.nodes.len() {
                desired_count as int
            } else {
                self@.nodes.len() as int
            },
            forall|i: int| 0 <= i < r@.len() ==> (#[trigger] r@[i])@ == self@.nodes[i],
    {
        let amount = if desired_count < self.nodes.len() {
            desired_count
        } else {
            self.nodes.len()
        };
        let mut nodes: Vec<Node> = Vec::new();
        let mut i: usize = 0;
        while i < amount
            invariant
                i <= amount,
                amount <= self.nodes@.len(),
                nodes@.len() == i,
                forall|q: int| 0 <= q < i ==> (#[trigger] nodes@[q])@ == self@.nodes[q],
            decreases amount - i,
        {
            proof {
                assert(self.nodes@[i as int]@ == self@.nodes[i as int]);
            }
            nodes.push(self.nodes[i].clone());
            i = i + 1;
        }
        nodes
    }
}

} // verus!
