use vstd::laws_eq::obeys_concrete_eq;
use crate::log::get_current_time;
use vstd::prelude::*;

verus! {

/// An entry last active at `last` is stale at `now` once more than `timeout`
/// milliseconds have passed (a clock that went backwards makes nothing stale).
pub open spec fn is_expired(now: u64, last: u64, timeout: u64) -> bool {
    now >= last && now - last > timeout
}

/// Whether `key` is held by some entry of `s`.
pub open spec fn has_key<K, T>(s: Seq<(K, T, u64)>, key: K) -> bool {
    exists|i: int| 0 <= i < s.len() && #[trigger] s[i].0 == key
}

/// No two entries of `s` share a key.
pub open spec fn keys_unique<K, T>(s: Seq<(K, T, u64)>) -> bool {
    forall|i: int, j: int| 0 <= i < s.len() && 0 <= j < s.len() && i != j ==> s[i].0 != s[j].0
}

/// Entry `i` carries the smallest timestamp of `s`, and no earlier entry ties with it.
pub open spec fn is_oldest_at<K, T>(s: Seq<(K, T, u64)>, i: int) -> bool {
    &&& 0 <= i < s.len()
    &&& forall|j: int| 0 <= j < s.len() ==> s[i].2 <= #[trigger] s[j].2
    &&& forall|j: int| 0 <= j < i ==> s[i].2 < #[trigger] s[j].2
}

/// The entries of `s` that are stale at `now`, in order.
pub open spec fn stale_entries<K, T>(s: Seq<(K, T, u64)>, now: u64, timeout: u64) -> Seq<(K, T, u64)> {
    s.filter(|e: (K, T, u64)| is_expired(now, e.2, timeout))
}

/// `r` holds the stale entries of `s`, each once, oldest first.
pub open spec fn stale_oldest_first<K, T>(r: Seq<(K, T, u64)>, s: Seq<(K, T, u64)>, now: u64, timeout: u64) -> bool {
    let e = stale_entries(s, now, timeout);
    &&& r.len() == e.len()
    &&& forall|x: int| 0 <= x < r.len() ==> e.contains(#[trigger] r[x])
    &&& forall|k: int| 0 <= k < e.len() ==> r.contains(#[trigger] e[k])
    &&& forall|x: int, y: int| 0 <= x < y < r.len() ==> #[trigger] r[x].2 <= #[trigger] r[y].2
}

/// The entries of `s` that are still fresh at `now`, in order.
pub open spec fn fresh_entries<K, T>(s: Seq<(K, T, u64)>, now: u64, timeout: u64) -> Seq<(K, T, u64)> {
    s.filter(|e: (K, T, u64)| !is_expired(now, e.2, timeout))
}

/// Entries keyed by `K`, each with a value and a last-active timestamp in
/// milliseconds. Entries stay in the order in which their keys were inserted.
pub struct LruCollector<K, T> {
    entries: Vec<(K, T, u64)>,
}

impl<K: Copy + PartialEq, T: Copy> LruCollector<K, T> {
    /// The entries, in insertion order.
    pub closed spec fn entries(&self) -> Seq<(K, T, u64)> {
        self.entries@
    }

    pub open spec fn wf(&self) -> bool {
        &&& obeys_concrete_eq::<K>()
        &&& keys_unique(self.entries())
    }

    pub fn new() -> (r: Self)
        requires
            obeys_concrete_eq::<K>(),
        ensures
            r.wf(),
            r.entries() == Seq::<(K, T, u64)>::empty(),
    {
        LruCollector { entries: Vec::new() }
    }

    /// Makes room for `capacity` more entries; the contents do not change.
    pub fn reserve(&mut self, capacity: usize)
        ensures
            final(self).entries() == old(self).entries(),
    {
        self.entries.reserve(capacity);
    }

    fn find(&self, key: &K) -> (r: Option<usize>)
        requires
            self.wf(),
        ensures
            match r {
                Some(i) => i < self.entries().len() && self.entries()[i as int].0 == *key,
                None => !has_key(self.entries(), *key),
            },
    {
        let mut i: usize = 0;
        while i < self.entries.len()
            invariant
                i <= self.entries@.len(),
                obeys_concrete_eq::<K>(),
                forall|j: int| 0 <= j < i ==> self.entries@[j].0 != *key,
            decreases self.entries@.len() - i,
        {
            proof {
                reveal(obeys_concrete_eq);
            }
            let k = self.entries[i].0;
            if k == *key {
                return Some(i);
            }
            i += 1;
        }
        None
    }

    /// Stores `value` under `key` with timestamp `access_time`; a key already
    /// present keeps its place and takes the new value and timestamp.
    pub fn new_key(&mut self, key: K, value: T, access_time: u64)
        requires
            old(self).wf(),
        ensures
            final(self).wf(),
            forall|i: int|
                0 <= i < old(self).entries().len() && #[trigger] old(self).entries()[i].0 == key
                    ==> final(self).entries() == old(self).entries().update(i, (key, value, access_time)),
            !has_key(old(self).entries(), key) ==> final(self).entries() == old(
                self,
            ).entries().push((key, value, access_time)),
    {
        match self.find(&key) {
            Some(i) => {
                self.entries.set(i, (key, value, access_time));
            },
            None => {
                self.entries.push((key, value, access_time));
            },
        }
    }

    /// Moves the timestamp of `key` to `access_time`; returns whether `key` was present.
    pub fn update(&mut self, key: &K, access_time: u64) -> (r: bool)
        requires
            old(self).wf(),
        ensures
            final(self).wf(),
            r == has_key(old(self).entries(), *key),
            forall|i: int|
                0 <= i < old(self).entries().len() && #[trigger] old(self).entries()[i].0 == *key
                    ==> final(self).entries() == old(self).entries().update(
                    i,
                    (*key, old(self).entries()[i].1, access_time),
                ),
            !r ==> final(self).entries() == old(self).entries(),
    {
        match self.find(key) {
            Some(i) => {
                let value = self.entries[i].1;
                self.entries.set(i, (*key, value, access_time));
                true
            },
            None => false,
        }
    }

    /// The key and value of the entry with the smallest timestamp (the earliest
    /// inserted among equals), or `None` when there is no entry.
    pub fn peek_back(&self) -> (r: Option<(K, T)>)
        requires
            self.wf(),
        ensures
            r.is_none() <==> self.entries().len() == 0,
            r matches Some(p) ==> exists|i: int|
                is_oldest_at(self.entries(), i) && #[trigger] self.entries()[i].0 == p.0
                    && self.entries()[i].1 == p.1,
    {
        if self.entries.len() == 0 {
            return None;
        }
        let mut best: usize = 0;
        let mut i: usize = 1;
        while i < self.entries.len()
            invariant
                1 <= i <= self.entries@.len(),
                best < i,
                forall|j: int| 0 <= j < i ==> self.entries@[best as int].2 <= #[trigger] self.entries@[j].2,
                forall|j: int| 0 <= j < best ==> self.entries@[best as int].2 < #[trigger] self.entries@[j].2,
            decreases self.entries@.len() - i,
        {
            if self.entries[i].2 < self.entries[best].2 {
                best = i;
            }
            i += 1;
        }
        let e = self.entries[best];
        proof {
            assert(is_oldest_at(self.entries(), best as int));
        }
        Some((e.0, e.1))
    }

    /// Removes `key`; returns whether it was present.
    pub fn erase(&mut self, key: &K) -> (r: bool)
        requires
            old(self).wf(),
        ensures
            final(self).wf(),
            r == has_key(old(self).entries(), *key),
            forall|i: int|
                0 <= i < old(self).entries().len() && #[trigger] old(self).entries()[i].0 == *key
                    ==> final(self).entries() == old(self).entries().remove(i),
            !r ==> final(self).entries() == old(self).entries(),
    {
        match self.find(key) {
            Some(i) => {
                let ghost before = self.entries@;
                self.entries.remove(i);
                proof {
                    assert forall|a: int, b: int|
                        0 <= a < self.entries@.len() && 0 <= b < self.entries@.len() && a != b
                            implies self.entries@[a].0 != self.entries@[b].0 by {
                        let a2 = if a < i { a } else { a + 1 };
                        let b2 = if b < i { b } else { b + 1 };
                        assert(self.entries@[a] == before[a2]);
                        assert(self.entries@[b] == before[b2]);
                    }
                }
                true
            },
            None => false,
        }
    }

    pub fn len(&self) -> (r: usize)
        ensures
            r == self.entries().len(),
    {
        self.entries.len()
    }

    pub fn is_empty(&self) -> (r: bool)
        ensures
            r == (self.entries().len() == 0),
    {
        self.entries.len() == 0
    }

    /// The timestamp of `key`, if present.
    pub fn ts_of(&self, key: &K) -> (r: Option<u64>)
        requires
            self.wf(),
        ensures
            r.is_some() == has_key(self.entries(), *key),
            forall|i: int|
                0 <= i < self.entries().len() && #[trigger] self.entries()[i].0 == *key ==> r
                    == Some(self.entries()[i].2),
    {
        match self.find(key) {
            Some(i) => Some(self.entries[i].2),
            None => None,
        }
    }

    /// Removes every entry that is stale at `now` and returns their keys,
    /// oldest first; the other entries keep their order.
    pub fn cleanup_timeout_at(&mut self, now: u64, timeout: u64) -> (removed: Vec<K>)
        requires
            old(self).wf(),
        ensures
            final(self).wf(),
            final(self).entries() == fresh_entries(old(self).entries(), now, timeout),
            removed@.len() == stale_entries(old(self).entries(), now, timeout).len(),
            exists|r: Seq<(K, T, u64)>|
                stale_oldest_first(r, old(self).entries(), now, timeout) && removed@ == r.map_values(
                    |e: (K, T, u64)| e.0,
                ),
    {
        let ghost s = self.entries@;
        let ghost keep = |e: (K, T, u64)| !is_expired(now, e.2, timeout);
        let ghost drop = |e: (K, T, u64)| is_expired(now, e.2, timeout);
        let mut kept: Vec<(K, T, u64)> = Vec::new();
        let mut stale: Vec<(K, T, u64)> = Vec::new();
        let mut i: usize = 0;
        while i < self.entries.len()
            invariant
                s == self.entries@,
                i <= s.len(),
                keep == (|e: (K, T, u64)| !is_expired(now, e.2, timeout)),
                drop == (|e: (K, T, u64)| is_expired(now, e.2, timeout)),
                kept@ == s.take(i as int).filter(keep),
                stale@ == s.take(i as int).filter(drop),
            decreases s.len() - i,
        {
            let e = self.entries[i];
            proof {
                reveal_with_fuel(Seq::filter, 1);
                let t = s.take(i + 1);
                assert(t.drop_last() == s.take(i as int));
                assert(t.last() == e);
                if drop(e) {
                    assert(!keep(e));
                    assert(t.filter(drop) == s.take(i as int).filter(drop).push(e));
                    assert(t.filter(keep) == s.take(i as int).filter(keep));
                } else {
                    assert(keep(e));
                    assert(t.filter(keep) == s.take(i as int).filter(keep).push(e));
                    assert(t.filter(drop) == s.take(i as int).filter(drop));
                }
            }
            if now >= e.2 && now - e.2 > timeout {
                stale.push(e);
            } else {
                kept.push(e);
            }
            i += 1;
        }
        proof {
            assert(s.take(s.len() as int) == s);
            assert(keys_unique(kept@)) by {
                assert forall|a: int, b: int|
                    0 <= a < kept@.len() && 0 <= b < kept@.len() && a != b implies kept@[a].0
                        != kept@[b].0 by {
                    lemma_filter_keeps_distinct(s, keep, a, b);
                }
            }
        }
        self.entries = kept;
        let ghost e0 = stale@;
        let ghost mut out: Seq<(K, T, u64)> = Seq::empty();
        let mut removed: Vec<K> = Vec::new();
        while stale.len() > 0
            invariant
                e0 == s.filter(drop),
                drop == (|e: (K, T, u64)| is_expired(now, e.2, timeout)),
                out.len() + stale@.len() == e0.len(),
                removed@ == out.map_values(|e: (K, T, u64)| e.0),
                forall|x: int| 0 <= x < out.len() ==> e0.contains(#[trigger] out[x]),
                forall|x: int| 0 <= x < stale@.len() ==> e0.contains(#[trigger] stale@[x]),
                forall|k: int| 0 <= k < e0.len() ==> out.contains(#[trigger] e0[k]) || stale@.contains(e0[k]),
                forall|x: int, y: int| 0 <= x < y < out.len() ==> #[trigger] out[x].2 <= #[trigger] out[y].2,
                forall|x: int, y: int|
                    0 <= x < out.len() && 0 <= y < stale@.len() ==> #[trigger] out[x].2 <= #[trigger] stale@[y].2,
            decreases stale@.len(),
        {
            let mut best: usize = 0;
            let mut j: usize = 1;
            while j < stale.len()
                invariant
                    1 <= stale@.len(),
                    best < stale@.len(),
                    1 <= j <= stale@.len(),
                    forall|y: int| 0 <= y < j ==> stale@[best as int].2 <= #[trigger] stale@[y].2,
                decreases stale@.len() - j,
            {
                if stale[j].2 < stale[best].2 {
                    best = j;
                }
                j += 1;
            }
            let ghost before = stale@;
            let e = stale.remove(best);
            removed.push(e.0);
            proof {
                let old_out = out;
                out = out.push(e);
                assert(removed@ =~= out.map_values(|e: (K, T, u64)| e.0));
                assert forall|x: int| 0 <= x < out.len() implies e0.contains(#[trigger] out[x]) by {
                    if x < old_out.len() {
                        assert(out[x] == old_out[x]);
                    } else {
                        assert(before.contains(before[best as int]));
                    }
                }
                assert forall|x: int| 0 <= x < stale@.len() implies e0.contains(#[trigger] stale@[x]) by {
                    let k = if x < best { x } else { x + 1 };
                    assert(stale@[x] == before[k]);
                }
                assert forall|k: int| 0 <= k < e0.len() implies out.contains(#[trigger] e0[k]) || stale@.contains(
                    e0[k],
                ) by {
                    if old_out.contains(e0[k]) {
                        let x = choose|x: int| 0 <= x < old_out.len() && old_out[x] == e0[k];
                        assert(out[x] == e0[k]);
                    } else {
                        let y = choose|y: int| 0 <= y < before.len() && before[y] == e0[k];
                        if y == best {
                            assert(out[out.len() - 1] == e0[k]);
                        } else {
                            let y2 = if y < best { y } else { y - 1 };
                            assert(stale@[y2] == e0[k]);
                        }
                    }
                }
                assert forall|x: int, y: int| 0 <= x < y < out.len() implies #[trigger] out[x].2
                    <= #[trigger] out[y].2 by {
                    if y == out.len() - 1 {
                        assert(out[x] == old_out[x]);
                        assert(out[y] == before[best as int]);
                    } else {
                        assert(out[x] == old_out[x]);
                        assert(out[y] == old_out[y]);
                    }
                }
                assert forall|x: int, y: int| 0 <= x < out.len() && 0 <= y < stale@.len() implies #[trigger] out[x].2
                    <= #[trigger] stale@[y].2 by {
                    let k = if y < best { y } else { y + 1 };
                    assert(stale@[y] == before[k]);
                    if x < old_out.len() {
                        assert(out[x] == old_out[x]);
                    } else {
                        assert(out[x] == before[best as int]);
                    }
                }
            }
        }
        proof {
            assert(stale_oldest_first(out, s, now, timeout));
        }
        removed
    }

    /// Removes every entry stale at the current time (`timeout` in
    /// milliseconds) and returns their keys; see [`LruCollector::cleanup_timeout_at`].
    pub fn cleanup_timeout(&mut self, timeout: u64) -> (removed: Vec<K>)
        requires
            old(self).wf(),
        ensures
            final(self).wf(),
            final(self).entries().len() + removed@.len() == old(self).entries().len(),
            exists|t: u64|
                final(self).entries() == fresh_entries(old(self).entries(), t, timeout) && exists|
                    r: Seq<(K, T, u64)>,
                |
                    stale_oldest_first(r, old(self).entries(), t, timeout) && removed@ == r.map_values(
                        |e: (K, T, u64)| e.0,
                    ),
    {
        let now = get_current_time();
        let ghost s = self.entries();
        let r = self.cleanup_timeout_at(now, timeout);
        proof {
            let keep = |e: (K, T, u64)| !is_expired(now, e.2, timeout);
            let drop = |e: (K, T, u64)| is_expired(now, e.2, timeout);
            lemma_filter_split(s, keep, drop);
        }
        r
    }
}

/// A sequence splits into the elements that pass a test and those that fail it.
proof fn lemma_filter_split<A>(s: Seq<A>, p: spec_fn(A) -> bool, q: spec_fn(A) -> bool)
    requires
        forall|x: A| #[trigger] q(x) == !p(x),
    ensures
        s.filter(p).len() + s.filter(q).len() == s.len(),
    decreases s.len(),
{
    reveal_with_fuel(Seq::filter, 1);
    if s.len() > 0 {
        lemma_filter_split(s.drop_last(), p, q);
    }
}

/// Filtering keeps distinct keys distinct.
proof fn lemma_filter_keeps_distinct<K, T>(s: Seq<(K, T, u64)>, p: spec_fn((K, T, u64)) -> bool, a: int, b: int)
    requires
        keys_unique(s),
        0 <= a < s.filter(p).len(),
        0 <= b < s.filter(p).len(),
        a != b,
    ensures
        s.filter(p)[a].0 != s.filter(p)[b].0,
    decreases s.len(),
{
    reveal_with_fuel(Seq::filter, 1);
    if s.len() > 0 {
        let sub = s.drop_last();
        assert(keys_unique(sub));
        if p(s.last()) {
            let n = sub.filter(p).len();
            assert(s.filter(p) == sub.filter(p).push(s.last()));
            if a < n && b < n {
                lemma_filter_keeps_distinct(sub, p, a, b);
            } else {
                let other = if a < n { a } else { b };
                let k = sub.filter(p)[other];
                assert(sub.filter(p).contains(k));
                sub.lemma_filter_contains_rev(p, k);
                let idx = choose|j: int| 0 <= j < sub.len() && sub[j] == k;
                assert(s[idx] == k);
                assert(s[s.len() - 1] == s.last());
            }
        } else {
            lemma_filter_keeps_distinct(sub, p, a, b);
        }
    }
}

} // verus!
