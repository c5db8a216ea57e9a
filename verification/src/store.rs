//! The DHT's local key-value store: a durable map from 64-byte queries to
//! ciphertext, modelled as an association list with unique keys.

use vstd::prelude::*;
use vstd::pervasive::VecAdditionalExecFns;

verus! {

/// The map an association list denotes; later entries win.
pub open spec fn spec_map_of(s: Seq<(Seq<u8>, Seq<u8>)>) -> Map<Seq<u8>, Seq<u8>>
    decreases s.len(),
{
    if s.len() == 0 {
        Map::empty()
    } else {
        spec_map_of(s.drop_last()).insert(s.last().0, s.last().1)
    }
}

/// Membership in the denoted map is having an entry.
proof fn lemma_map_of_contains(s: Seq<(Seq<u8>, Seq<u8>)>, k: Seq<u8>)
    ensures
        spec_map_of(s).contains_key(k) <==> exists|i: int|
            0 <= i < s.len() && (#[trigger] s[i]).0 == k,
    decreases s.len(),
{
    if s.len() > 0 {
        lemma_map_of_contains(s.drop_last(), k);
        if s.last().0 == k {
            assert(s[s.len() - 1].0 == k);
        } else if exists|i: int| 0 <= i < s.len() && (#[trigger] s[i]).0 == k {
            let i = choose|i: int| 0 <= i < s.len() && (#[trigger] s[i]).0 == k;
            assert(s.drop_last()[i] == s[i]);
        } else {
            assert forall|i: int| 0 <= i < s.drop_last().len() implies (#[trigger] s.drop_last()[
            i]).0 != k by {
                assert(s[i] == s.drop_last()[i]);
            }
        }
    }
}

/// With unique keys, an entry's value is the map's value at its key.
proof fn lemma_map_of_get(s: Seq<(Seq<u8>, Seq<u8>)>, i: int)
    requires
        forall|p: int, q: int|
            0 <= p < q < s.len() ==> (#[trigger] s[p]).0 != (#[trigger] s[q]).0,
        0 <= i < s.len(),
    ensures
        spec_map_of(s).contains_key(s[i].0),
        spec_map_of(s)[s[i].0] == s[i].1,
    decreases s.len(),
{
    if i == s.len() - 1 {
        assert(s[i] == s.last());
    } else {
        lemma_map_of_get(s.drop_last(), i);
        assert(s.drop_last()[i] == s[i]);
        assert(s[i].0 != s.last().0);
    }
}

/// Updating the entry that holds a key denotes inserting at that key.
proof fn lemma_map_of_update(s: Seq<(Seq<u8>, Seq<u8>)>, i: int, v: Seq<u8>)
    requires
        forall|p: int, q: int|
            0 <= p < q < s.len() ==> (#[trigger] s[p]).0 != (#[trigger] s[q]).0,
        0 <= i < s.len(),
    ensures
        spec_map_of(s.update(i, (s[i].0, v))) == spec_map_of(s).insert(s[i].0, v),
    decreases s.len(),
{
    let t = s.update(i, (s[i].0, v));
    if i == s.len() - 1 {
        assert(t.drop_last() =~= s.drop_last());
        assert(t.last() == (s[i].0, v));
        assert(spec_map_of(t) =~= spec_map_of(s).insert(s[i].0, v));
    } else {
        lemma_map_of_update(s.drop_last(), i, v);
        assert(s.drop_last()[i] == s[i]);
        assert(t.drop_last() =~= s.drop_last().update(i, (s[i].0, v)));
        assert(t.last() == s.last());
        assert(s[i].0 != s.last().0);
        assert(spec_map_of(t) =~= spec_map_of(s).insert(s[i].0, v));
    }
}

/// A key-value store.
#[derive(Debug)]
pub struct KvStore {
    entries: Vec<(Vec<u8>, Vec<u8>)>,
}

impl KvStore {
    /// The entries as byte sequences.
    pub closed spec fn entries_view(&self) -> Seq<(Seq<u8>, Seq<u8>)> {
        Seq::new(self.entries@.len(), |i: int| (self.entries@[i].0@, self.entries@[i].1@))
    }

    /// Keys are unique.
    pub closed spec fn inv(&self) -> bool {
        forall|p: int, q: int|
            0 <= p < q < self.entries_view().len() ==> (#[trigger] self.entries_view()[p]).0 != (
            #[trigger] self.entries_view()[q]).0
    }

    /// An empty store.
    pub fn new() -> (r: KvStore)
        ensures
            r@ == Map::<Seq<u8>, Seq<u8>>::empty(),
            r.inv(),
    {
        let r = KvStore { entries: Vec::new() };
        proof {
            assert(r.entries_view().len() == 0);
        }
        r
    }

    /// The value stored under `key`, if any.
    #[verifier::loop_isolation(false)]
    pub fn get(&self, key: &[u8]) -> (r: Option<Vec<u8>>)
        requires
            self.inv(),
        ensures
            match r {
                Some(v) => self@.contains_key(key@) && v@ == self@[key@],
                None => !self@.contains_key(key@),
            },
    {
        let mut i: usize = 0;
        while i < self.entries.len()
            invariant
                i <= self.entries@.len(),
                self.inv(),
                forall|q: int| 0 <= q < i ==> (#[trigger] self.entries_view()[q]).0 != key@,
            decreases self.entries@.len() - i,
        {
            proof {
                assert(self.entries_view()[i as int] == (self.entries@[i as int].0@, self.entries@[
                i as int].1@));
            }
            if compare_bytes(&self.entries[i].0, key) {
                proof {
                    lemma_map_of_get(self.entries_view(), i as int);
                }
                return Some(vstd::slice::slice_to_vec(self.entries[i].1.as_slice()));
            }
            i = i + 1;
        }
        proof {
            lemma_map_of_contains(self.entries_view(), key@);
        }
        None
    }

    /// Whether anything is stored under `key`.
    pub fn contains(&self, key: &[u8]) -> (r: bool)
        requires
            self.inv(),
        ensures
            r == self@.contains_key(key@),
    {
        match self.get(key) {
            Some(_) => true,
            None => false,
        }
    }

    /// The stored pairs, for the embedder to persist. They denote exactly
    /// this store's map, so feeding them back through
    /// [`KvStore::from_entries`] rebuilds it.
    #[verifier::loop_isolation(false)]
    pub fn entries(&self) -> (r: Vec<(Vec<u8>, Vec<u8>)>)
        requires
            self.inv(),
        ensures
            Seq::new(r@.len(), |i: int| (r@[i].0@, r@[i].1@)) == self.entries_view(),
            spec_map_of(Seq::new(r@.len(), |i: int| (r@[i].0@, r@[i].1@))) == self@,
    {
        let mut out: Vec<(Vec<u8>, Vec<u8>)> = Vec::new();
        let mut i: usize = 0;
        while i < self.entries.len()
            invariant
                i <= self.entries@.len(),
                out@.len() == i,
                forall|q: int|
                    0 <= q < i ==> (#[trigger] out@[q]).0@ == self.entries_view()[q].0
                        && out@[q].1@ == self.entries_view()[q].1,
            decreases self.entries@.len() - i,
        {
            proof {
                assert(self.entries_view()[i as int] == (self.entries@[i as int].0@, self.entries@[
                i as int].1@));
            }
            let pair = (
                vstd::slice::slice_to_vec(self.entries[i].0.as_slice()),
                vstd::slice::slice_to_vec(self.entries[i].1.as_slice()),
            );
            out.push(pair);
            i = i + 1;
        }
        proof {
            assert(Seq::new(out@.len(), |q: int| (out@[q].0@, out@[q].1@))
                =~= self.entries_view());
        }
        out
    }

    /// Rebuild a store from persisted pairs; a later pair for the same key
    /// wins, exactly as the map does.
    #[verifier::loop_isolation(false)]
    pub fn from_entries(entries: &[(Vec<u8>, Vec<u8>)]) -> (r: KvStore)
        ensures
            r.inv(),
            r@ == spec_map_of(
                Seq::new(entries@.len(), |i: int| (entries@[i].0@, entries@[i].1@)),
            ),
    {
        let ghost pairs = Seq::new(entries@.len(), |i: int| (entries@[i].0@, entries@[i].1@));
        let mut store = KvStore::new();
        let mut i: usize = 0;
        proof {
            assert(pairs.subrange(0, 0) =~= Seq::<(Seq<u8>, Seq<u8>)>::empty());
        }
        while i < entries.len()
            invariant
                i <= entries@.len(),
                store.inv(),
                store@ == spec_map_of(pairs.subrange(0, i as int)),
            decreases entries@.len() - i,
        {
            let e = vstd::slice::slice_index_get(entries, i);
            store.put(e.0.as_slice(), e.1.as_slice());
            proof {
                let pre = pairs.subrange(0, i + 1);
                assert(pre.drop_last() =~= pairs.subrange(0, i as int));
                assert(pre.last() == (entries@[i as int].0@, entries@[i as int].1@));
            }
            i = i + 1;
        }
        proof {
            assert(pairs.subrange(0, entries@.len() as int) =~= pairs);
        }
        store
    }

    /// Store `value` under `key`, replacing what was there.
    #[verifier::loop_isolation(false)]
    pub fn put(&mut self, key: &[u8], value: &[u8])
        requires
            old(self).inv(),
        ensures
            final(self).inv(),
            final(self)@ == old(self)@.insert(key@, value@),
    {
        let mut i: usize = 0;
        while i < self.entries.len()
            invariant
                i <= self.entries@.len(),
                self == old(self),
                forall|q: int| 0 <= q < i ==> (#[trigger] self.entries_view()[q]).0 != key@,
            decreases self.entries@.len() - i,
        {
            proof {
                assert(self.entries_view()[i as int] == (self.entries@[i as int].0@, self.entries@[
                i as int].1@));
            }
            if compare_bytes(&self.entries[i].0, key) {
                proof {
                    lemma_map_of_update(self.entries_view(), i as int, value@);
                }
                let ghost pre = self.entries_view();
                let pair = (vstd::slice::slice_to_vec(key), vstd::slice::slice_to_vec(value));
                self.entries.set(i, pair);
                proof {
                    assert(self.entries_view() =~= pre.update(i as int, (key@, value@)));
                    assert(pre.update(i as int, (key@, value@)) =~= pre.update(
                        i as int,
                        (pre[i as int].0, value@),
                    ));
                    assert forall|p: int, q: int|
                        0 <= p < q < self.entries_view().len() implies (
                    #[trigger] self.entries_view()[p]).0 != (#[trigger] self.entries_view()[q]).0 by {
                        assert(pre[p].0 == self.entries_view()[p].0);
                        assert(pre[q].0 == self.entries_view()[q].0);
                    }
                }
                return ;
            }
            i = i + 1;
        }
        let ghost pre = self.entries_view();
        proof {
            lemma_map_of_contains(pre, key@);
        }
        let pair = (vstd::slice::slice_to_vec(key), vstd::slice::slice_to_vec(value));
        self.entries.push(pair);
        proof {
            assert(self.entries_view() =~= pre.push((key@, value@)));
            assert(self.entries_view().drop_last() =~= pre);
            assert(self@ =~= old(self)@.insert(key@, value@));
            assert forall|p: int, q: int| 0 <= p < q < self.entries_view().len() implies (
            #[trigger] self.entries_view()[p]).0 != (#[trigger] self.entries_view()[q]).0 by {
                if q < self.entries_view().len() - 1 {
                    assert(pre[p].0 == self.entries_view()[p].0);
                    assert(pre[q].0 == self.entries_view()[q].0);
                } else {
                    assert(pre[p].0 == self.entries_view()[p].0);
                    assert(self.entries_view()[q].0 == key@);
                }
            }
        }
    }
}

impl View for KvStore {
    type V = Map<Seq<u8>, Seq<u8>>;

    closed spec fn view(&self) -> Map<Seq<u8>, Seq<u8>> {
        spec_map_of(self.entries_view())
    }
}

/// Byte-wise equality of two byte strings.
fn compare_bytes(a: &Vec<u8>, b: &[u8]) -> (r: bool)
    ensures
        r == (a@ == b@),
{
    if a.len() != b.len() {
        proof {
            assert(a@ != b@);
        }
        return false;
    }
    let mut i: usize = 0;
    while i < a.len()
        invariant
            i <= a@.len(),
            a@.len() == b@.len(),
            forall|q: int| 0 <= q < i ==> a@[q] == b@[q],
        decreases a@.len() - i,
    {
        if a[i] != *vstd::slice::slice_index_get(b, i) {
            return false;
        }
        i = i + 1;
    }
    proof {
        assert(a@ =~= b@);
    }
    true
}

} // verus!
