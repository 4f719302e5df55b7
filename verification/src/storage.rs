//! The in-memory storage engine: a mapping from key to value with
//! optional per-key expiration, modelled as a `Map` from the key's
//! characters to the stored entry. An entry whose deadline has passed is
//! logically absent to readers even before a sweep physically removes it.

use vstd::prelude::*;

use vstd::map::*;

verus! {

/// Mathematical model of one stored entry: the value bytes and the
/// absolute expiration time in milliseconds, if any.
pub ghost struct EntryV {
    pub value: Seq<u8>,
    pub expires_at: Option<u64>,
}

/// One stored entry.
pub struct Entry {
    pub key: String,
    pub value: Vec<u8>,
    pub expires_at: Option<u64>,
}

impl Clone for Entry {
    fn clone(&self) -> (r: Self)
        ensures
            r.key@ == self.key@,
            r.value@ == self.value@,
            r.expires_at == self.expires_at,
    {
        let value = self.value.clone();
        proof {
            assert(value@ =~= self.value@);
        }
        Entry { key: self.key.clone(), value, expires_at: self.expires_at }
    }
}

/// The model of `e`, without its key.
pub open spec fn entry_v(e: Entry) -> EntryV {
    EntryV { value: e.value@, expires_at: e.expires_at }
}

/// Whether some entry of `s` carries the key `k`.
pub open spec fn has_key(s: Seq<Entry>, k: Seq<char>) -> bool {
    exists|i: int| 0 <= i < s.len() && s[i].key@ == k
}

/// The position of the entry of `s` carrying `k` (unique when keys are
/// pairwise distinct).
pub open spec fn index_of(s: Seq<Entry>, k: Seq<char>) -> int {
    choose|i: int| 0 <= i < s.len() && s[i].key@ == k
}

/// Keys of `s` are pairwise distinct.
pub open spec fn wf_seq(s: Seq<Entry>) -> bool {
    forall|i: int, j: int| 0 <= i < j < s.len() ==> s[i].key@ != s[j].key@
}

/// The mapping that a sequence of entries holds.
pub open spec fn map_of(s: Seq<Entry>) -> Map<Seq<char>, EntryV> {
    Map::new(|k: Seq<char>| has_key(s, k), |k: Seq<char>| entry_v(s[index_of(s, k)]))
}

/// Whether `e` is still live at time `now`: no deadline, or one strictly
/// in the future. An entry whose deadline has been reached is logically
/// deleted.
pub open spec fn live_at(e: EntryV, now: u64) -> bool {
    e.expires_at is None || e.expires_at.unwrap() > now
}

/// What a read of `k` at time `now` sees in `m`.
pub open spec fn read_spec(m: Map<Seq<char>, EntryV>, k: Seq<char>, now: u64) -> Option<Seq<u8>> {
    if m.contains_key(k) && live_at(m[k], now) {
        Some(m[k].value)
    } else {
        None
    }
}

/// The restriction of `m` to its entries still live at `now`.
pub open spec fn live_map(m: Map<Seq<char>, EntryV>, now: u64) -> Map<Seq<char>, EntryV> {
    Map::new(|k: Seq<char>| m.contains_key(k) && live_at(m[k], now), |k: Seq<char>| m[k])
}

/// The keys of `m` that a sweep at `now` removes.
pub open spec fn swept_keys(m: Map<Seq<char>, EntryV>, now: u64) -> Set<Seq<char>> {
    Set::new(|k: Seq<char>| m.contains_key(k) && !live_at(m[k], now))
}

/// The expiration deadline `ttl` milliseconds after `now`, saturating at
/// the largest representable time.
pub open spec fn expiry_of(now: u64, ttl: u64) -> u64 {
    if now + ttl > u64::MAX {
        u64::MAX
    } else {
        (now + ttl) as u64
    }
}

/// An entry of a well-formed sequence is in its map, under its key, with
/// its value.
proof fn lemma_map_of_contains(s: Seq<Entry>, i: int)
    requires
        wf_seq(s),
        0 <= i < s.len(),
    ensures
        map_of(s).contains_key(s[i].key@),
        map_of(s)[s[i].key@] == entry_v(s[i]),
{
    assert(has_key(s, s[i].key@));
    let j = index_of(s, s[i].key@);
    assert(0 <= j < s.len() && s[j].key@ == s[i].key@);
    assert(j == i);
}

/// Appending an entry under a fresh key inserts it into the map.
pub proof fn lemma_map_of_push(s: Seq<Entry>, e: Entry)
    requires
        wf_seq(s),
        !has_key(s, e.key@),
    ensures
        wf_seq(s.push(e)),
        map_of(s.push(e)) == map_of(s).insert(e.key@, entry_v(e)),
{
    let t = s.push(e);
    assert forall|i: int, j: int| 0 <= i < j < t.len() implies t[i].key@ != t[j].key@ by {
        if j == t.len() - 1 {
            assert(t[i] == s[i]);
            assert(has_key(s, s[i].key@));
        }
    }
    assert forall|k: Seq<char>| #[trigger] has_key(t, k) implies map_of(s).insert(
        e.key@,
        entry_v(e),
    ).contains_key(k) by {
        let i = choose|i: int| 0 <= i < t.len() && t[i].key@ == k;
        if i < s.len() {
            assert(s[i].key@ == k);
            assert(has_key(s, k));
        }
    }
    assert forall|k: Seq<char>|
        map_of(s).insert(e.key@, entry_v(e)).contains_key(k) implies #[trigger] has_key(t, k) by {
        if k == e.key@ {
            assert(t[s.len() as int].key@ == k);
        } else {
            let i = index_of(s, k);
            assert(t[i].key@ == k);
        }
    }
    assert forall|k: Seq<char>| has_key(t, k) implies entry_v(t[index_of(t, k)]) == map_of(
        s,
    ).insert(e.key@, entry_v(e))[k] by {
        let i = index_of(t, k);
        assert(0 <= i < t.len() && t[i].key@ == k);
        if k == e.key@ {
            if i < s.len() {
                assert(has_key(s, k));
            }
            assert(i == s.len());
        } else {
            assert(i < s.len());
            assert(has_key(s, k));
            let j = index_of(s, k);
            assert(0 <= j < s.len() && s[j].key@ == k);
            assert(j == i);
            lemma_map_of_contains(s, i);
        }
    }
    assert_maps_equal!(map_of(s.push(e)), map_of(s).insert(e.key@, entry_v(e)));
}

/// Removing the entry at `i` removes its key from the map.
proof fn lemma_map_of_remove(s: Seq<Entry>, i: int)
    requires
        wf_seq(s),
        0 <= i < s.len(),
    ensures
        wf_seq(s.remove(i)),
        map_of(s.remove(i)) == map_of(s).remove(s[i].key@),
{
    let t = s.remove(i);
    let k0 = s[i].key@;
    assert forall|a: int, b: int| 0 <= a < b < t.len() implies t[a].key@ != t[b].key@ by {
        let a0 = if a < i {
            a
        } else {
            a + 1
        };
        let b0 = if b < i {
            b
        } else {
            b + 1
        };
        assert(t[a] == s[a0] && t[b] == s[b0]);
    }
    assert forall|k: Seq<char>| #[trigger] has_key(t, k) implies map_of(s).remove(
        k0,
    ).contains_key(k) by {
        let j = choose|j: int| 0 <= j < t.len() && t[j].key@ == k;
        let j0 = if j < i {
            j
        } else {
            j + 1
        };
        assert(t[j] == s[j0]);
        assert(has_key(s, k));
        assert(k != k0);
    }
    assert forall|k: Seq<char>|
        map_of(s).remove(k0).contains_key(k) implies #[trigger] has_key(t, k) by {
        let j = index_of(s, k);
        assert(0 <= j < s.len() && s[j].key@ == k);
        assert(j != i);
        let j1 = if j < i {
            j
        } else {
            j - 1
        };
        assert(t[j1] == s[j]);
    }
    assert forall|k: Seq<char>| has_key(t, k) implies entry_v(t[index_of(t, k)]) == map_of(
        s,
    ).remove(k0)[k] by {
        let j = index_of(t, k);
        assert(0 <= j < t.len() && t[j].key@ == k);
        let j0 = if j < i {
            j
        } else {
            j + 1
        };
        assert(t[j] == s[j0]);
        lemma_map_of_contains(s, j0);
        assert(k != k0);
    }
    assert_maps_equal!(map_of(s.remove(i)), map_of(s).remove(s[i].key@));
}

/// One more element at the end of a sequence puts one more element into
/// its set.
pub(crate) proof fn lemma_to_set_push(s: Seq<Seq<char>>, x: Seq<char>)
    ensures
        s.push(x).to_set() == s.to_set().insert(x),
{
    assert forall|y: Seq<char>| s.push(x).to_set().contains(y) implies s.to_set().insert(
        x,
    ).contains(y) by {
        let j = choose|j: int| 0 <= j < s.push(x).len() && s.push(x)[j] == y;
        if j < s.len() {
            assert(s[j] == y);
            assert(s.contains(y));
        }
    }
    assert forall|y: Seq<char>| s.to_set().insert(x).contains(y) implies s.push(
        x,
    ).to_set().contains(y) by {
        if y == x {
            assert(s.push(x)[s.len() as int] == y);
        } else {
            let j = choose|j: int| 0 <= j < s.len() && s[j] == y;
            assert(s.push(x)[j] == y);
        }
        assert(s.push(x).contains(y));
    }
    assert(s.push(x).to_set() =~= s.to_set().insert(x));
}

/// The storage engine. Every mutation goes through its methods, which
/// keep the keys pairwise distinct.
pub struct Storage {
    pub entries: Vec<Entry>,
}

impl View for Storage {
    type V = Map<Seq<char>, EntryV>;

    open spec fn view(&self) -> Map<Seq<char>, EntryV> {
        map_of(self.entries@)
    }
}

impl Storage {
    /// Keys are pairwise distinct.
    pub open spec fn wf(&self) -> bool {
        wf_seq(self.entries@)
    }

    /// A fresh, empty store.
    pub fn new() -> (r: Storage)
        ensures
            r.wf(),
            r@ == Map::<Seq<char>, EntryV>::empty(),
    {
        let r = Storage { entries: Vec::new() };
        proof {
            assert_maps_equal!(map_of(r.entries@), Map::<Seq<char>, EntryV>::empty());
        }
        r
    }

    /// The position of `key`'s entry, if the store holds one.
    fn find(&self, key: &String) -> (r: Option<usize>)
        requires
            self.wf(),
        ensures
            match r {
                Some(i) => i < self.entries@.len() && self.entries@[i as int].key@ == key@,
                None => !self@.contains_key(key@),
            },
    {
        let mut i: usize = 0;
        while i < self.entries.len()
            invariant
                i <= self.entries@.len(),
                forall|j: int| 0 <= j < i ==> self.entries@[j].key@ != key@,
            decreases self.entries@.len() - i,
        {
            if self.entries[i].key == *key {
                return Some(i);
            }
            i = i + 1;
        }
        None
    }

    /// Stores `value` under `key` with the given deadline, returning the
    /// value the key held before, if any.
    fn write_entry(&mut self, key: &String, value: Vec<u8>, expires_at: Option<u64>) -> (prev:
        Option<Vec<u8>>)
        requires
            old(self).wf(),
        ensures
            final(self).wf(),
            final(self)@ == old(self)@.insert(key@, EntryV { value: value@, expires_at }),
            prev is Some <==> old(self)@.contains_key(key@),
            prev is Some ==> prev.unwrap()@ == old(self)@[key@].value,
    {
        let ghost m0 = self@;
        let found = self.find(key);
        let prev: Option<Vec<u8>> = match found {
            Some(i) => {
                proof {
                    lemma_map_of_contains(self.entries@, i as int);
                }
                let e = self.entries.remove(i);
                proof {
                    lemma_map_of_remove(old(self).entries@, i as int);
                }
                Some(e.value)
            },
            None => None,
        };
        let ghost m1 = self@;
        let e = Entry { key: key.clone(), value, expires_at };
        proof {
            if m1.contains_key(key@) {
                let j = index_of(self.entries@, key@);
                assert(self.entries@[j].key@ == key@);
                assert(m1 == m0.remove(key@));
                assert(!m0.remove(key@).contains_key(key@));
            }
            assert(!has_key(self.entries@, e.key@));
            lemma_map_of_push(self.entries@, e);
        }
        self.entries.push(e);
        proof {
            assert(final(self)@ =~= old(self)@.insert(
                key@,
                EntryV { value: value@, expires_at },
            ));
        }
        prev
    }

    /// Unconditional overwrite without expiration. Returns the value the
    /// key held before, if any.
    pub fn write(&mut self, key: &String, data: Vec<u8>) -> (prev: Option<Vec<u8>>)
        requires
            old(self).wf(),
        ensures
            final(self).wf(),
            final(self)@ == old(self)@.insert(key@, EntryV { value: data@, expires_at: None }),
            prev is Some <==> old(self)@.contains_key(key@),
            prev is Some ==> prev.unwrap()@ == old(self)@[key@].value,
    {
        self.write_entry(key, data, None)
    }

    /// Overwrite with a time-to-live: the entry expires `ttl_ms`
    /// milliseconds after `now_ms` (saturating). Returns the previous
    /// value, if any.
    pub fn write_ex(&mut self, key: &String, data: Vec<u8>, ttl_ms: u64, now_ms: u64) -> (prev:
        Option<Vec<u8>>)
        requires
            old(self).wf(),
        ensures
            final(self).wf(),
            final(self)@ == old(self)@.insert(
                key@,
                EntryV { value: data@, expires_at: Some(expiry_of(now_ms, ttl_ms)) },
            ),
            prev is Some <==> old(self)@.contains_key(key@),
            prev is Some ==> prev.unwrap()@ == old(self)@[key@].value,
    {
        let deadline: u64 = if ttl_ms > u64::MAX - now_ms {
            u64::MAX
        } else {
            now_ms + ttl_ms
        };
        self.write_entry(key, data, Some(deadline))
    }

    /// The value under `key`, if the store holds one still live at
    /// `now_ms`.
    pub fn read(&self, key: &String, now_ms: u64) -> (r: Option<Vec<u8>>)
        requires
            self.wf(),
        ensures
            match r {
                Some(v) => read_spec(self@, key@, now_ms) == Some(v@),
                None => read_spec(self@, key@, now_ms) is None,
            },
    {
        match self.find(key) {
            None => None,
            Some(i) => {
                proof {
                    lemma_map_of_contains(self.entries@, i as int);
                }
                let e = &self.entries[i];
                let live = match e.expires_at {
                    None => true,
                    Some(d) => d > now_ms,
                };
                if live {
                    let v = e.value.clone();
                    proof {
                        assert(v@ =~= e.value@);
                    }
                    Some(v)
                } else {
                    None
                }
            },
        }
    }

    /// Removes `key`'s entry and returns its value; removing an absent
    /// key returns nothing and changes nothing.
    pub fn delete(&mut self, key: &String) -> (r: Option<Vec<u8>>)
        requires
            old(self).wf(),
        ensures
            final(self).wf(),
            final(self)@ == old(self)@.remove(key@),
            r is Some <==> old(self)@.contains_key(key@),
            r is Some ==> r.unwrap()@ == old(self)@[key@].value,
    {
        match self.find(key) {
            None => {
                proof {
                    assert_maps_equal!(old(self)@.remove(key@), old(self)@);
                }
                None
            },
            Some(i) => {
                proof {
                    lemma_map_of_contains(self.entries@, i as int);
                }
                let e = self.entries.remove(i);
                proof {
                    lemma_map_of_remove(old(self).entries@, i as int);
                }
                Some(e.value)
            },
        }
    }

    /// Every key live at `now_ms`, each exactly once, in no promised
    /// order. An entry past its deadline is logically deleted and is not
    /// enumerated, swept or not.
    pub fn keys(&self, now_ms: u64) -> (r: Vec<String>)
        requires
            self.wf(),
        ensures
            r.deep_view().to_set() == live_map(self@, now_ms).dom(),
            r.deep_view().no_duplicates(),
    {
        let ghost s0 = self.entries@;
        let mut r: Vec<String> = Vec::new();
        let mut i: usize = 0;
        proof {
            assert(r.deep_view() =~= Seq::<Seq<char>>::empty());
            assert(r.deep_view().to_set() =~= live_map(map_of(s0.subrange(0, 0)), now_ms).dom());
        }
        while i < self.entries.len()
            invariant
                self.wf(),
                s0 == self.entries@,
                i <= s0.len(),
                r.deep_view().no_duplicates(),
                forall|t: int|
                    0 <= t < r.deep_view().len() ==> has_key(
                        s0.subrange(0, i as int),
                        r.deep_view()[t],
                    ),
                r.deep_view().to_set() == live_map(map_of(s0.subrange(0, i as int)), now_ms).dom(),
            decreases s0.len() - i,
        {
            let ghost pre = s0.subrange(0, i as int);
            let ghost post = s0.subrange(0, i as int + 1);
            let ghost k = s0[i as int].key@;
            let ghost ev = entry_v(s0[i as int]);
            proof {
                assert(post.drop_last() =~= pre);
                assert(post.last() == s0[i as int]);
                assert forall|j: int| 0 <= j < pre.len() implies pre[j].key@ != k by {
                    assert(pre[j] == s0[j]);
                }
                assert(!has_key(pre, k));
                lemma_map_of_push(pre, s0[i as int]);
                assert(post =~= pre.push(s0[i as int]));
            }
            let e = &self.entries[i];
            let live = match e.expires_at {
                None => true,
                Some(d) => d > now_ms,
            };
            if live {
                let ghost dv0 = r.deep_view();
                proof {
                    assert forall|t: int| 0 <= t < dv0.len() implies dv0[t] != k by {
                        assert(has_key(pre, dv0[t]));
                    }
                }
                r.push(e.key.clone());
                proof {
                    assert(r.deep_view() =~= dv0.push(k));
                    lemma_to_set_push(dv0, k);
                    assert(r.deep_view().to_set() =~= live_map(map_of(post), now_ms).dom()) by {
                        assert(live_map(map_of(post), now_ms).dom() =~= live_map(
                            map_of(pre),
                            now_ms,
                        ).dom().insert(k));
                    }
                }
            } else {
                proof {
                    assert(live_map(map_of(post), now_ms).dom() =~= live_map(
                        map_of(pre),
                        now_ms,
                    ).dom());
                }
            }
            i = i + 1;
        }
        proof {
            assert(s0.subrange(0, s0.len() as int) =~= s0);
        }
        r
    }

    /// Removes every entry whose deadline has been reached, in one pass,
    /// and returns the removed keys, each exactly once. A caller that
    /// logs deletions durably should append a delete record for each
    /// returned key.
    pub fn sweep(&mut self, now_ms: u64) -> (swept: Vec<String>)
        requires
            old(self).wf(),
        ensures
            final(self).wf(),
            final(self)@ == live_map(old(self)@, now_ms),
            swept.deep_view().no_duplicates(),
            swept.deep_view().to_set() == swept_keys(old(self)@, now_ms),
    {
        let ghost s0 = self.entries@;
        let mut kept: Vec<Entry> = Vec::new();
        let mut swept: Vec<String> = Vec::new();
        let mut i: usize = 0;
        while i < self.entries.len()
            invariant
                self.wf(),
                self.entries@ == s0,
                i <= s0.len(),
                wf_seq(kept@),
                forall|t: int| 0 <= t < kept@.len() ==> has_key(s0.subrange(0, i as int), kept@[t].key@),
                map_of(kept@) == live_map(map_of(s0.subrange(0, i as int)), now_ms),
                swept.deep_view().no_duplicates(),
                forall|t: int|
                    0 <= t < swept.deep_view().len() ==> has_key(
                        s0.subrange(0, i as int),
                        swept.deep_view()[t],
                    ),
                swept.deep_view().to_set() == swept_keys(map_of(s0.subrange(0, i as int)), now_ms),
            decreases s0.len() - i,
        {
            let ghost pre = s0.subrange(0, i as int);
            let ghost post = s0.subrange(0, i as int + 1);
            let e = &self.entries[i];
            let ghost ev = entry_v(s0[i as int]);
            proof {
                assert(post.drop_last() =~= pre);
                assert(post.last() == s0[i as int]);
                assert forall|j: int| 0 <= j < pre.len() implies pre[j].key@ != s0[i as int].key@ by {
                    assert(pre[j] == s0[j]);
                }
                assert(!has_key(pre, s0[i as int].key@));
                assert forall|a: int, b: int| 0 <= a < b < post.len() implies post[a].key@
                    != post[b].key@ by {
                    assert(post[a] == s0[a] && post[b] == s0[b]);
                }
                lemma_map_of_push(pre, s0[i as int]);
                assert(post =~= pre.push(s0[i as int]));
            }
            let live = match e.expires_at {
                None => true,
                Some(d) => d > now_ms,
            };
            let ghost k = s0[i as int].key@;
            if live {
                let ghost kept0 = kept@;
                proof {
                    assert forall|t: int| 0 <= t < kept0.len() implies kept0[t].key@ != k by {
                        assert(has_key(pre, kept0[t].key@));
                    }
                    assert(!has_key(kept0, k));
                    assert(swept_keys(map_of(post), now_ms) =~= swept_keys(
                        map_of(pre),
                        now_ms,
                    ));
                }
                let cloned = e.clone();
                kept.push(cloned);
                proof {
                    let ec = kept@.last();
                    assert(kept@ == kept0.push(ec));
                    assert(ec.key@ == k && entry_v(ec) == ev);
                    lemma_map_of_push(kept0, ec);
                    assert(map_of(kept@) == map_of(kept0).insert(k, ev));
                    assert(live_map(map_of(post), now_ms) =~= live_map(
                        map_of(pre),
                        now_ms,
                    ).insert(k, ev));
                }
            } else {
                proof {
                    assert(live_map(map_of(post), now_ms) =~= live_map(map_of(pre), now_ms));
                    assert forall|t: int| 0 <= t < swept.deep_view().len() implies swept.deep_view()[t]
                        != k by {
                        assert(has_key(pre, swept.deep_view()[t]));
                    }
                }
                let ghost sw0 = swept.deep_view();
                swept.push(e.key.clone());
                proof {
                    assert(swept.deep_view() =~= sw0.push(k));
                    lemma_to_set_push(sw0, k);
                    lemma_map_of_contains(post, post.len() - 1);
                    assert(swept_keys(map_of(post), now_ms) =~= swept_keys(
                        map_of(pre),
                        now_ms,
                    ).insert(k));
                    assert(swept.deep_view().to_set() =~= swept_keys(map_of(post), now_ms));
                }
            }
            i = i + 1;
        }
        proof {
            assert(s0.subrange(0, s0.len() as int) =~= s0);
        }
        self.entries = kept;
        swept
    }
}

impl Storage {
    /// Sweeps the expired entries and turns each swept key into a delete
    /// record under correlation id `ts`, ready for the write-ahead log:
    /// this keeps a key captured by an older snapshot from outliving its
    /// deadline across a restart.
    pub fn expire(&mut self, now_ms: u64, ts: u128) -> (records: Vec<crate::proto::FrameMessage>)
        requires
            old(self).wf(),
        ensures
            final(self).wf(),
            final(self)@ == live_map(old(self)@, now_ms),
            exists|ks: Seq<Seq<char>>|
                {
                    &&& ks.no_duplicates()
                    &&& ks.to_set() == swept_keys(old(self)@, now_ms)
                    &&& records.deep_view().len() == ks.len()
                    &&& forall|i: int|
                        0 <= i < ks.len() ==> records.deep_view()[i] == (crate::proto::FrameV {
                            ts,
                            version: crate::proto::VERSION,
                            command: crate::proto::CommandV::Delete { key: ks[i] },
                        })
                },
    {
        let swept = self.sweep(now_ms);
        let ghost ks = swept.deep_view();
        let mut records: Vec<crate::proto::FrameMessage> = Vec::new();
        let mut i: usize = 0;
        while i < swept.len()
            invariant
                ks == swept.deep_view(),
                ks.len() == swept@.len(),
                i <= swept@.len(),
                records.deep_view().len() == i,
                forall|j: int|
                    0 <= j < i ==> records.deep_view()[j] == (crate::proto::FrameV {
                        ts,
                        version: crate::proto::VERSION,
                        command: crate::proto::CommandV::Delete { key: ks[j] },
                    }),
            decreases swept@.len() - i,
        {
            let ghost r0 = records.deep_view();
            let frame = crate::proto::FrameMessage::new(
                ts,
                crate::proto::CommandMessage::DELETE(swept[i].clone()),
            );
            records.push(frame);
            proof {
                assert(records.deep_view() =~= r0.push(records@.last()@));
                assert(ks[i as int] == swept@[i as int]@);
            }
            i = i + 1;
        }
        records
    }
}

/// A write makes the key read back as exactly the written value, at any
/// time: a plain write never expires.
pub proof fn lemma_write_then_read(m: Map<Seq<char>, EntryV>, k: Seq<char>, v: Seq<u8>, now: u64)
    ensures
        read_spec(m.insert(k, EntryV { value: v, expires_at: None }), k, now) == Some(v),
{
}

/// A delete makes the key read back as absent, at any time; deleting an
/// absent key leaves the map as it was.
pub proof fn lemma_delete_then_read(m: Map<Seq<char>, EntryV>, k: Seq<char>, now: u64)
    ensures
        read_spec(m.remove(k), k, now) is None,
        !m.contains_key(k) ==> m.remove(k) == m,
{
    if !m.contains_key(k) {
        assert_maps_equal!(m.remove(k), m);
    }
}

/// A write with a time-to-live reads back as the value strictly before
/// the deadline; from the deadline on, the key reads as absent, a sweep
/// removes it, and the sweep reports it among the swept keys.
pub proof fn lemma_ttl_expiration(
    m: Map<Seq<char>, EntryV>,
    k: Seq<char>,
    v: Seq<u8>,
    ttl: u64,
    now: u64,
    before: u64,
    after: u64,
)
    requires
        before < expiry_of(now, ttl),
        after >= expiry_of(now, ttl),
    ensures
        ({
            let m2 = m.insert(k, EntryV { value: v, expires_at: Some(expiry_of(now, ttl)) });
            &&& read_spec(m2, k, before) == Some(v)
            &&& read_spec(m2, k, after) is None
            &&& !live_map(m2, after).contains_key(k)
            &&& swept_keys(m2, after).contains(k)
        }),
{
}

} // verus!
