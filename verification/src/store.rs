//! The replicated store's local map: string keys bound to string values,
//! last write winning per key. Reads are purely local; propagation of
//! writes to peers is planned by the node dispatcher, and an incoming
//! replication message is applied without being propagated again.

use vstd::prelude::*;

verus! {

/// One key-value binding held by the store.
pub struct StoreEntry {
    pub key: String,
    pub value: String,
}

/// The key-value map owned by the replicated store. Its model is a map
/// from key characters to value characters; no two entries share a key.
pub struct KeyValueStore {
    entries: Vec<StoreEntry>,
}

/// The map that a sequence of bindings denotes, later bindings winning.
pub open spec fn map_of(s: Seq<(Seq<char>, Seq<char>)>) -> Map<Seq<char>, Seq<char>>
    decreases s.len(),
{
    if s.len() == 0 {
        Map::empty()
    } else {
        map_of(s.drop_last()).insert(s.last().0, s.last().1)
    }
}

/// No two bindings of `s` share a key.
pub open spec fn keys_unique(s: Seq<(Seq<char>, Seq<char>)>) -> bool {
    forall|i: int, j: int| 0 <= i < j < s.len() ==> s[i].0 != s[j].0
}

impl KeyValueStore {
    /// The bindings the store holds, in insertion order.
    pub closed spec fn entries_seq(&self) -> Seq<(Seq<char>, Seq<char>)> {
        self.entries@.map_values(|e: StoreEntry| (e.key@, e.value@))
    }

    /// The store is well formed: no two entries share a key.
    pub closed spec fn wf(&self) -> bool {
        keys_unique(self.entries_seq())
    }

    /// An empty store.
    pub fn new() -> (s: KeyValueStore)
        ensures
            s.wf(),
            s@ == Map::<Seq<char>, Seq<char>>::empty(),
    {
        let s = KeyValueStore { entries: Vec::new() };
        proof {
            assert(s.entries_seq() =~= Seq::<(Seq<char>, Seq<char>)>::empty());
        }
        s
    }

    /// Binds `key` to `value`, overwriting any earlier binding of `key`.
    pub fn set(&mut self, key: String, value: String)
        requires
            old(self).wf(),
        ensures
            final(self).wf(),
            final(self)@ == old(self)@.insert(key@, value@),
    {
        let ghost s0 = old(self).entries_seq();
        let mut i: usize = 0;
        while i < self.entries.len()
            invariant
                i <= self.entries@.len(),
                self.entries_seq() == s0,
                keys_unique(s0),
                old(self)@ == map_of(s0),
                forall|k: int| 0 <= k < i ==> s0[k].0 != key@,
            decreases self.entries@.len() - i,
        {
            if self.entries[i].key == key {
                self.entries[i] = StoreEntry { key, value };
                proof {
                    assert(self.entries_seq() =~= s0.update(i as int, (s0[i as int].0, value@)));
                    lemma_map_of_update(s0, i as int, value@);
                    assert(self@ =~= old(self)@.insert(key@, value@));
                    assert(keys_unique(self.entries_seq()));
                }
                return ;
            }
            i = i + 1;
        }
        self.entries.push(StoreEntry { key, value });
        proof {
            assert(self.entries_seq() =~= s0.push((key@, value@)));
            assert(s0.push((key@, value@)).drop_last() =~= s0);
            assert(self@ =~= old(self)@.insert(key@, value@));
            assert(keys_unique(self.entries_seq()));
        }
    }

    /// The value bound to `key`, or `None` when no write ever bound it.
    /// Absence is not an error: it is the "not found" reading.
    pub fn get(&self, key: &String) -> (r: Option<String>)
        requires
            self.wf(),
        ensures
            r is Some <==> self@.contains_key(key@),
            r matches Some(v) ==> v@ == self@[key@],
    {
        let ghost s0 = self.entries_seq();
        let mut i: usize = 0;
        while i < self.entries.len()
            invariant
                i <= self.entries@.len(),
                self.wf(),
                s0 == self.entries_seq(),
                forall|k: int| 0 <= k < i ==> s0[k].0 != key@,
            decreases self.entries@.len() - i,
        {
            if self.entries[i].key == *key {
                proof {
                    lemma_map_of_index(s0, i as int);
                }
                return Option::Some(self.entries[i].value.clone());
            }
            i = i + 1;
        }
        proof {
            lemma_map_of_absent(s0, key@);
        }
        Option::None
    }

    /// Applies one replication message from a peer: the same local write
    /// as [`Self::set`]. The caller never propagates it again, so a write
    /// crosses the network at most once.
    pub fn apply_sync(&mut self, key: String, value: String)
        requires
            old(self).wf(),
        ensures
            final(self).wf(),
            final(self)@ == old(self)@.insert(key@, value@),
    {
        self.set(key, value);
    }
}

impl View for KeyValueStore {
    type V = Map<Seq<char>, Seq<char>>;

    closed spec fn view(&self) -> Map<Seq<char>, Seq<char>> {
        map_of(self.entries_seq())
    }
}

/// Each binding of a uniquely-keyed sequence is what its map holds.
proof fn lemma_map_of_index(s: Seq<(Seq<char>, Seq<char>)>, i: int)
    requires
        keys_unique(s),
        0 <= i < s.len(),
    ensures
        map_of(s).contains_key(s[i].0),
        map_of(s)[s[i].0] == s[i].1,
    decreases s.len(),
{
    if i == s.len() - 1 {
    } else {
        assert(s.drop_last()[i] == s[i]);
        lemma_map_of_index(s.drop_last(), i);
        assert(s[i].0 != s.last().0);
    }
}

/// A key bound by no entry is absent from the map.
proof fn lemma_map_of_absent(s: Seq<(Seq<char>, Seq<char>)>, key: Seq<char>)
    requires
        forall|i: int| 0 <= i < s.len() ==> s[i].0 != key,
    ensures
        !map_of(s).contains_key(key),
    decreases s.len(),
{
    if s.len() > 0 {
        lemma_map_of_absent(s.drop_last(), key);
    }
}

/// Overwriting the value at one index is, on the map, one insertion.
proof fn lemma_map_of_update(s: Seq<(Seq<char>, Seq<char>)>, i: int, v: Seq<char>)
    requires
        keys_unique(s),
        0 <= i < s.len(),
    ensures
        map_of(s.update(i, (s[i].0, v))) =~= map_of(s).insert(s[i].0, v),
    decreases s.len(),
{
    let t = s.update(i, (s[i].0, v));
    if i == s.len() - 1 {
        assert(t.drop_last() =~= s.drop_last());
    } else {
        assert(t.drop_last() =~= s.drop_last().update(i, (s[i].0, v)));
        assert(s.drop_last()[i] == s[i]);
        lemma_map_of_update(s.drop_last(), i, v);
        assert(s[i].0 != s.last().0);
        assert(t.last() == s.last());
    }
}

/// Local read-after-write: once a write of `v` under `k` is applied to a
/// store with model `m`, the store holds `v` under `k`, whatever became of
/// its propagation to peers.
pub proof fn lemma_read_after_write(m: Map<Seq<char>, Seq<char>>, k: Seq<char>, v: Seq<char>)
    ensures
        m.insert(k, v).contains_key(k),
        m.insert(k, v)[k] == v,
{
}

} // verus!
