//! The expiring-entry table: a mapping from key to entry, where an entry is an
//! opaque serialized value together with an optional absolute expiry instant.
//!
//! Times are `u64` milliseconds on a monotonic clock chosen by the caller.
//! Expiry is enforced lazily: every read takes the observation instant `now`
//! and filters out entries whose expiry has passed. The reaper's eviction
//! ([`Store::remove_expired`]) is purely a space-reclamation optimization and
//! agrees with the lazy filter by construction.

use vstd::prelude::*;

verus! {

/// A stored record: the serialized value and an optional absolute expiry
/// instant in milliseconds. `expiry == None` means the entry never expires.
pub struct Entry {
    pub serialized: String,
    pub expiry: Option<u64>,
}

impl View for Entry {
    type V = (Seq<char>, Option<u64>);

    open spec fn view(&self) -> (Seq<char>, Option<u64>) {
        (self.serialized@, self.expiry)
    }
}

/// An entry is live at `now` when it has no expiry or its expiry is still in
/// the future; an entry whose expiry is at or before `now` is expired.
pub open spec fn live_at(expiry: Option<u64>, now: u64) -> bool {
    match expiry {
        Option::None => true,
        Option::Some(e) => e > now,
    }
}

/// The time an entry has left at `now`: `None` for a permanent entry, the
/// distance to the expiry instant otherwise. Meaningful for live entries.
pub open spec fn remaining_at(expiry: Option<u64>, now: u64) -> Option<u64> {
    match expiry {
        Option::None => Option::None,
        Option::Some(e) => Option::Some((if e > now { e - now } else { 0 }) as u64),
    }
}

/// The absolute expiry instant written by a put at `now` with the given
/// time-to-live: `now + ttl`, or no expiry at all when no ttl is given
/// (the configured policy: no ttl means permanent).
pub open spec fn expiry_at(now: u64, ttl: Option<u64>) -> Option<u64> {
    match ttl {
        Option::None => Option::None,
        Option::Some(t) => Option::Some((now + t) as u64),
    }
}

/// What the reaper leaves behind: the sub-map of entries still live at `now`.
pub open spec fn reap(
    m: Map<Seq<char>, (Seq<char>, Option<u64>)>,
    now: u64,
) -> Map<Seq<char>, (Seq<char>, Option<u64>)> {
    Map::new(|k: Seq<char>| m.contains_key(k) && live_at(m[k].1, now), |k: Seq<char>| m[k])
}

/// The result of looking a key up at a given instant.
pub enum Lookup {
    /// The key is present and live: its serialized value and remaining ttl.
    Found { serialized: String, remaining: Option<u64> },
    /// The key is present but its expiry has passed (not yet reaped).
    Expired,
    /// The key is absent from the table.
    NotFound,
}

/// The mapping from key to entry, stored as an association list whose keys
/// are unique. Its mathematical model is the finite map [`Store::contents`].
pub struct Store {
    entries: Vec<(String, Entry)>,
}

/// The map denoted by an association list (with unique keys every
/// occurrence agrees, so the choice of the last one is immaterial).
pub open spec fn assoc_map(s: Seq<(Seq<char>, (Seq<char>, Option<u64>))>) -> Map<
    Seq<char>,
    (Seq<char>, Option<u64>),
>
    decreases s.len(),
{
    if s.len() == 0 {
        Map::empty()
    } else {
        assoc_map(s.drop_last()).insert(s.last().0, s.last().1)
    }
}

/// A key stands in the map exactly when some row carries it.
proof fn lemma_assoc_contains(s: Seq<(Seq<char>, (Seq<char>, Option<u64>))>, k: Seq<char>)
    ensures
        assoc_map(s).contains_key(k) <==> exists|i: int| 0 <= i < s.len() && s[i].0 == k,
    decreases s.len(),
{
    if s.len() == 0 {
    } else {
        lemma_assoc_contains(s.drop_last(), k);
        if s.last().0 == k {
            assert(s[s.len() - 1].0 == k);
        } else {
            if exists|i: int| 0 <= i < s.len() && s[i].0 == k {
                let i = choose|i: int| 0 <= i < s.len() && s[i].0 == k;
                assert(s.drop_last()[i] == s[i]);
            }
        }
    }
}

/// With no other row carrying the same key, the map holds that row's entry.
proof fn lemma_assoc_value(s: Seq<(Seq<char>, (Seq<char>, Option<u64>))>, j: int)
    requires
        0 <= j < s.len(),
        forall|i: int| 0 <= i < s.len() && i != j ==> s[i].0 != s[j].0,
    ensures
        assoc_map(s).contains_key(s[j].0),
        assoc_map(s)[s[j].0] == s[j].1,
    decreases s.len(),
{
    if j == s.len() - 1 {
    } else {
        assert(s.last() == s[s.len() - 1]);
        assert(forall|i: int|
            0 <= i < s.drop_last().len() && i != j ==> s.drop_last()[i].0 != s.drop_last()[j].0);
        lemma_assoc_value(s.drop_last(), j);
    }
}

/// Removing the one row that carries a key removes that key from the map.
proof fn lemma_assoc_remove(s: Seq<(Seq<char>, (Seq<char>, Option<u64>))>, j: int)
    requires
        0 <= j < s.len(),
        forall|a: int, b: int| 0 <= a < b < s.len() ==> s[a].0 != s[b].0,
    ensures
        assoc_map(s.remove(j)) == assoc_map(s).remove(s[j].0),
    decreases s.len(),
{
    let k = s[j].0;
    if j == s.len() - 1 {
        assert(s.remove(j) =~= s.drop_last());
        lemma_assoc_contains(s.drop_last(), k);
        assert(forall|i: int| 0 <= i < s.drop_last().len() ==> s.drop_last()[i] == s[i]);
        assert(!assoc_map(s.drop_last()).contains_key(k));
        assert(assoc_map(s.drop_last()) =~= assoc_map(s).remove(k));
    } else {
        let t = s.remove(j);
        assert(t.drop_last() =~= s.drop_last().remove(j));
        assert(t.last() == s.last());
        lemma_assoc_remove(s.drop_last(), j);
        assert(s.last().0 != k);
        assert(assoc_map(t) == assoc_map(s.drop_last().remove(j)).insert(s.last().0, s.last().1));
        assert(assoc_map(s.drop_last().remove(j)) == assoc_map(s.drop_last()).remove(k));
        assert(assoc_map(s).remove(k) =~= assoc_map(s.drop_last()).remove(k).insert(
            s.last().0,
            s.last().1,
        ));
    }
}

/// With unique keys, the table has exactly as many keys as rows.
proof fn lemma_assoc_dom_len(s: Seq<(Seq<char>, (Seq<char>, Option<u64>))>)
    requires
        forall|a: int, b: int| 0 <= a < b < s.len() ==> s[a].0 != s[b].0,
    ensures
        assoc_map(s).dom().finite(),
        assoc_map(s).dom().len() == s.len(),
    decreases s.len(),
{
    if s.len() == 0 {
        assert(assoc_map(s).dom() =~= Set::<Seq<char>>::empty());
    } else {
        lemma_assoc_dom_len(s.drop_last());
        lemma_assoc_contains(s.drop_last(), s.last().0);
        assert(forall|i: int| 0 <= i < s.drop_last().len() ==> s.drop_last()[i] == s[i]);
        assert(!assoc_map(s.drop_last()).contains_key(s.last().0));
        assert(assoc_map(s).dom() =~= assoc_map(s.drop_last()).dom().insert(s.last().0));
    }
}

impl View for Store {
    type V = Seq<(Seq<char>, (Seq<char>, Option<u64>))>;

    closed spec fn view(&self) -> Seq<(Seq<char>, (Seq<char>, Option<u64>))> {
        self.entries@.map_values(|p: (String, Entry)| (p.0@, p.1@))
    }
}

impl Store {
    /// Well-formed: no key occurs twice.
    pub open spec fn wf(&self) -> bool {
        forall|i: int, j: int| 0 <= i < j < self@.len() ==> self@[i].0 != self@[j].0
    }

    /// The table as a finite map from key to (serialized value, expiry).
    pub open spec fn contents(&self) -> Map<Seq<char>, (Seq<char>, Option<u64>)> {
        assoc_map(self@)
    }

    /// An empty store.
    pub fn new() -> (s: Store)
        ensures
            s.wf(),
            s.contents() == Map::<Seq<char>, (Seq<char>, Option<u64>)>::empty(),
    {
        Store { entries: Vec::new() }
    }

    /// The number of rows physically in the table, expired ones included:
    /// with unique keys this equals the number of keys.
    pub fn len(&self) -> (n: usize)
        requires
            self.wf(),
        ensures
            n == self@.len(),
            n == self.contents().dom().len(),
    {
        proof {
            lemma_assoc_dom_len(self@);
        }
        self.entries.len()
    }

    /// The index of the row carrying `key`, if any.
    fn find(&self, key: &String) -> (r: Option<usize>)
        ensures
            match r {
                Option::Some(j) => j < self@.len() && self@[j as int].0 == key@,
                Option::None => forall|i: int| 0 <= i < self@.len() ==> self@[i].0 != key@,
            },
    {
        let mut i: usize = 0;
        while i < self.entries.len()
            invariant
                i <= self.entries.len(),
                forall|j: int| 0 <= j < i ==> self@[j].0 != key@,
            decreases self.entries.len() - i,
        {
            if self.entries[i].0 == *key {
                return Option::Some(i);
            }
            i += 1;
        }
        Option::None
    }

    /// Removes the entry at `key` if the table holds one — expired or not —
    /// and reports whether a removal occurred.
    pub fn delete(&mut self, key: &String) -> (removed: bool)
        requires
            old(self).wf(),
        ensures
            final(self).wf(),
            removed == old(self).contents().contains_key(key@),
            final(self).contents() == old(self).contents().remove(key@),
            forall|i: int| 0 <= i < final(self)@.len() ==> final(self)@[i].0 != key@,
            !removed ==> *final(self) == *old(self),
    {
        proof {
            lemma_assoc_contains(self@, key@);
        }
        match self.find(key) {
            Option::Some(j) => {
                let ghost pre = self@;
                self.entries.remove(j);
                proof {
                    assert(self@ =~= pre.remove(j as int));
                    assert forall|a: int, b: int|
                        0 <= a < b < self@.len() implies self@[a].0 != self@[b].0 by {
                        if b < j {
                            assert(self@[a] == pre[a] && self@[b] == pre[b]);
                        } else if a < j {
                            assert(self@[a] == pre[a] && self@[b] == pre[b + 1]);
                        } else {
                            assert(self@[a] == pre[a + 1] && self@[b] == pre[b + 1]);
                        }
                    }
                    lemma_assoc_remove(pre, j as int);
                    assert forall|i: int|
                        0 <= i < self@.len() implies self@[i].0 != key@ by {
                        if i < j {
                            assert(self@[i] == pre[i]);
                        } else {
                            assert(self@[i] == pre[i + 1]);
                        }
                    }
                }
                true
            },
            Option::None => {
                proof {
                    assert(self.contents() =~= self.contents().remove(key@));
                }
                false
            },
        }
    }

    /// Inserts or fully replaces the entry at `key` (upsert: no dependence on
    /// any prior entry, expired or not). The expiry is `now + ttl`, or none —
    /// permanent — when no ttl is given.
    pub fn put(&mut self, key: String, serialized: String, ttl: Option<u64>, now: u64)
        requires
            old(self).wf(),
            ttl matches Option::Some(t) ==> now + t <= u64::MAX,
        ensures
            final(self).wf(),
            final(self).contents() == old(self).contents().insert(
                key@,
                (serialized@, expiry_at(now, ttl)),
            ),
    {
        let expiry: Option<u64> = match ttl {
            Option::Some(t) => Option::Some(now + t),
            Option::None => Option::None,
        };
        self.delete(&key);
        let ghost mid = self@;
        self.entries.push((key, Entry { serialized, expiry }));
        proof {
            assert(self@ =~= mid.push((key@, (serialized@, expiry))));
            assert(self@.drop_last() =~= mid);
            assert(self.contents() == assoc_map(mid).insert(key@, (serialized@, expiry)));
            assert(self.contents() =~= old(self).contents().insert(
                key@,
                (serialized@, expiry_at(now, ttl)),
            ));
            assert forall|a: int, b: int|
                0 <= a < b < self@.len() implies self@[a].0 != self@[b].0 by {
                if b == self@.len() - 1 {
                    assert(self@[a] == mid[a]);
                }
            }
        }
    }

    /// Looks `key` up at instant `now`: the serialized value and remaining
    /// ttl when present and live; `Expired` when present with a passed
    /// expiry; `NotFound` when absent.
    pub fn get_at(&self, key: &String, now: u64) -> (r: Lookup)
        requires
            self.wf(),
        ensures
            r is Found <==> self.contents().contains_key(key@) && live_at(
                self.contents()[key@].1,
                now,
            ),
            r is Expired <==> self.contents().contains_key(key@) && !live_at(
                self.contents()[key@].1,
                now,
            ),
            r is NotFound <==> !self.contents().contains_key(key@),
            r matches Lookup::Found { serialized, remaining } ==> serialized@
                == self.contents()[key@].0 && remaining == remaining_at(
                self.contents()[key@].1,
                now,
            ),
    {
        proof {
            lemma_assoc_contains(self@, key@);
        }
        match self.find(key) {
            Option::Some(j) => {
                proof {
                    assert(forall|i: int|
                        0 <= i < self@.len() && i != j ==> self@[i].0 != self@[j as int].0);
                    lemma_assoc_value(self@, j as int);
                }
                let e = &self.entries[j].1;
                match e.expiry {
                    Option::Some(exp) => {
                        if exp <= now {
                            Lookup::Expired
                        } else {
                            Lookup::Found {
                                serialized: e.serialized.clone(),
                                remaining: Option::Some(exp - now),
                            }
                        }
                    },
                    Option::None => Lookup::Found {
                        serialized: e.serialized.clone(),
                        remaining: Option::None,
                    },
                }
            },
            Option::None => Lookup::NotFound,
        }
    }

    /// The remaining ttl at `now` for `key`: `Some(remaining)` when the key
    /// is present and live (`Some(None)` for a permanent entry), `None` when
    /// the key is absent or expired — an expired-but-not-yet-reaped key is
    /// reported the same as an absent one.
    pub fn get_ttl_at(&self, key: &String, now: u64) -> (r: Option<Option<u64>>)
        requires
            self.wf(),
        ensures
            r is Some <==> self.contents().contains_key(key@) && live_at(
                self.contents()[key@].1,
                now,
            ),
            r matches Option::Some(remaining) ==> remaining == remaining_at(
                self.contents()[key@].1,
                now,
            ),
    {
        proof {
            lemma_assoc_contains(self@, key@);
        }
        match self.find(key) {
            Option::Some(j) => {
                proof {
                    assert(forall|i: int|
                        0 <= i < self@.len() && i != j ==> self@[i].0 != self@[j as int].0);
                    lemma_assoc_value(self@, j as int);
                }
                match self.entries[j].1.expiry {
                    Option::Some(exp) => {
                        if exp <= now {
                            Option::None
                        } else {
                            Option::Some(Option::Some(exp - now))
                        }
                    },
                    Option::None => Option::Some(Option::None),
                }
            },
            Option::None => Option::None,
        }
    }

    /// A snapshot of every live entry at `now`, as (key, serialized value,
    /// remaining ttl) triples: exactly the live keys, each exactly once, and
    /// never a key whose expiry has passed.
    pub fn get_all_at(&self, now: u64) -> (r: Vec<(String, String, Option<u64>)>)
        requires
            self.wf(),
        ensures
            forall|a: int|
                0 <= a < r@.len() ==> {
                    &&& self.contents().contains_key(#[trigger] r@[a].0@)
                    &&& live_at(self.contents()[r@[a].0@].1, now)
                    &&& r@[a].1@ == self.contents()[r@[a].0@].0
                    &&& r@[a].2 == remaining_at(self.contents()[r@[a].0@].1, now)
                },
            forall|k: Seq<char>|
                self.contents().contains_key(k) && live_at(#[trigger] self.contents()[k].1, now)
                    ==> exists|a: int| 0 <= a < r@.len() && r@[a].0@ == k,
            forall|a: int, b: int| 0 <= a < b < r@.len() ==> r@[a].0@ != r@[b].0@,
    {
        let mut r: Vec<(String, String, Option<u64>)> = Vec::new();
        let mut i: usize = 0;
        while i < self.entries.len()
            invariant
                self.wf(),
                i <= self.entries.len(),
                self@.len() == self.entries.len(),
                forall|a: int|
                    0 <= a < r@.len() ==> exists|j: int|
                        0 <= j < i && #[trigger] r@[a].0@ == self@[j].0,
                forall|a: int|
                    0 <= a < r@.len() ==> {
                        &&& self.contents().contains_key(#[trigger] r@[a].0@)
                        &&& live_at(self.contents()[r@[a].0@].1, now)
                        &&& r@[a].1@ == self.contents()[r@[a].0@].0
                        &&& r@[a].2 == remaining_at(self.contents()[r@[a].0@].1, now)
                    },
                forall|j: int|
                    0 <= j < i && live_at(#[trigger] self@[j].1.1, now) ==> exists|a: int|
                        0 <= a < r@.len() && r@[a].0@ == self@[j].0,
                forall|a: int, b: int| 0 <= a < b < r@.len() ==> r@[a].0@ != r@[b].0@,
            decreases self.entries.len() - i,
        {
            proof {
                assert(forall|x: int|
                    0 <= x < self@.len() && x != i ==> self@[x].0 != self@[i as int].0);
                lemma_assoc_value(self@, i as int);
            }
            let live = match self.entries[i].1.expiry {
                Option::Some(exp) => exp > now,
                Option::None => true,
            };
            if live {
                let remaining: Option<u64> = match self.entries[i].1.expiry {
                    Option::Some(exp) => Option::Some(exp - now),
                    Option::None => Option::None,
                };
                let ghost pre = r@;
                r.push((self.entries[i].0.clone(), self.entries[i].1.serialized.clone(), remaining));
                proof {
                    assert(r@[pre.len() as int].0@ == self@[i as int].0);
                    assert forall|a: int, b: int|
                        0 <= a < b < r@.len() implies r@[a].0@ != r@[b].0@ by {
                        if b == r@.len() - 1 {
                            let j = choose|j: int| 0 <= j < i && r@[a].0@ == self@[j].0;
                            assert(self@[j].0 != self@[i as int].0);
                        }
                    }
                    assert forall|j: int|
                        0 <= j < i + 1 && live_at(#[trigger] self@[j].1.1, now) implies exists|
                        a: int,
                    | 0 <= a < r@.len() && r@[a].0@ == self@[j].0 by {
                        if j == i {
                            assert(r@[pre.len() as int].0@ == self@[j].0);
                        } else {
                            let a = choose|a: int| 0 <= a < pre.len() && pre[a].0@ == self@[j].0;
                            assert(r@[a].0@ == self@[j].0);
                        }
                    }
                }
            }
            i += 1;
        }
        proof {
            assert forall|k: Seq<char>|
                self.contents().contains_key(k) && live_at(
                    #[trigger] self.contents()[k].1,
                    now,
                ) implies exists|a: int| 0 <= a < r@.len() && r@[a].0@ == k by {
                lemma_assoc_contains(self@, k);
                let j = choose|j: int| 0 <= j < self@.len() && self@[j].0 == k;
                assert(forall|x: int|
                    0 <= x < self@.len() && x != j ==> self@[x].0 != self@[j].0);
                lemma_assoc_value(self@, j);
                assert(live_at(self@[j].1.1, now));
            }
        }
        r
    }

    /// Evicts every entry whose expiry has passed at `now` and keeps every
    /// other entry unchanged: afterwards the table is exactly the live
    /// sub-map, so nothing expired is physically left behind.
    pub fn remove_expired(&mut self, now: u64)
        requires
            old(self).wf(),
        ensures
            final(self).wf(),
            final(self).contents() == reap(old(self).contents(), now),
    {
        let ghost orig = old(self)@;
        let mut kept: Vec<(String, Entry)> = Vec::new();
        let mut i: usize = 0;
        while i < self.entries.len()
            invariant
                self.wf(),
                self@ == orig,
                i <= self.entries.len(),
                self@.len() == self.entries.len(),
                forall|a: int|
                    0 <= a < kept@.len() ==> exists|j: int|
                        0 <= j < i && #[trigger] kept@[a].0@ == self@[j].0,
                forall|a: int|
                    0 <= a < kept@.len() ==> {
                        &&& self.contents().contains_key(#[trigger] kept@[a].0@)
                        &&& kept@[a].1@ == self.contents()[kept@[a].0@]
                        &&& live_at(kept@[a].1@.1, now)
                    },
                forall|j: int|
                    0 <= j < i && live_at(#[trigger] self@[j].1.1, now) ==> exists|a: int|
                        0 <= a < kept@.len() && kept@[a].0@ == self@[j].0,
                forall|a: int, b: int| 0 <= a < b < kept@.len() ==> kept@[a].0@ != kept@[b].0@,
            decreases self.entries.len() - i,
        {
            proof {
                assert(forall|x: int|
                    0 <= x < self@.len() && x != i ==> self@[x].0 != self@[i as int].0);
                lemma_assoc_value(self@, i as int);
            }
            let live = match self.entries[i].1.expiry {
                Option::Some(exp) => exp > now,
                Option::None => true,
            };
            if live {
                let ghost pre = kept@;
                let expiry = match self.entries[i].1.expiry {
                    Option::Some(exp) => Option::Some(exp),
                    Option::None => Option::None,
                };
                kept.push(
                    (
                        self.entries[i].0.clone(),
                        Entry { serialized: self.entries[i].1.serialized.clone(), expiry },
                    ),
                );
                proof {
                    assert(kept@[pre.len() as int].0@ == self@[i as int].0);
                    assert(kept@[pre.len() as int].1@ == self@[i as int].1);
                    assert forall|a: int, b: int|
                        0 <= a < b < kept@.len() implies kept@[a].0@ != kept@[b].0@ by {
                        if b == kept@.len() - 1 {
                            let j = choose|j: int| 0 <= j < i && kept@[a].0@ == self@[j].0;
                            assert(self@[j].0 != self@[i as int].0);
                        }
                    }
                    assert forall|j: int|
                        0 <= j < i + 1 && live_at(#[trigger] self@[j].1.1, now) implies exists|
                        a: int,
                    | 0 <= a < kept@.len() && kept@[a].0@ == self@[j].0 by {
                        if j == i {
                            assert(kept@[pre.len() as int].0@ == self@[j].0);
                        } else {
                            let a = choose|a: int|
                                0 <= a < pre.len() && pre[a].0@ == self@[j].0;
                            assert(kept@[a].0@ == self@[j].0);
                        }
                    }
                }
            }
            i += 1;
        }
        let ghost krows = kept@.map_values(|p: (String, Entry)| (p.0@, p.1@));
        proof {
            assert(self.contents() == assoc_map(orig));
            assert(forall|a: int|
                0 <= a < krows.len() ==> {
                    &&& assoc_map(orig).contains_key(#[trigger] krows[a].0)
                    &&& krows[a].1 == assoc_map(orig)[krows[a].0]
                    &&& live_at(krows[a].1.1, now)
                });
            assert forall|j: int|
                0 <= j < orig.len() && live_at(#[trigger] orig[j].1.1, now) implies exists|a: int|
                0 <= a < krows.len() && krows[a].0 == orig[j].0 by {
                assert(self@[j] == orig[j]);
                assert(live_at(self@[j].1.1, now));
                let a = choose|a: int| 0 <= a < kept@.len() && kept@[a].0@ == self@[j].0;
                assert(krows[a].0 == orig[j].0);
            }
            assert(forall|a: int, b: int| 0 <= a < b < krows.len() ==> krows[a].0 != krows[b].0);
        }
        self.entries = kept;
        proof {
            assert(self@ =~= krows);
            assert forall|k: Seq<char>|
                #[trigger] self.contents().contains_key(k) implies reap(
                assoc_map(orig),
                now,
            ).contains_key(k) && self.contents()[k] == assoc_map(orig)[k] by {
                lemma_assoc_contains(self@, k);
                let a = choose|a: int| 0 <= a < self@.len() && self@[a].0 == k;
                assert(forall|x: int|
                    0 <= x < self@.len() && x != a ==> self@[x].0 != self@[a].0);
                lemma_assoc_value(self@, a);
                assert(self.contents()[k] == self@[a].1);
            }
            assert forall|k: Seq<char>|
                reap(assoc_map(orig), now).contains_key(k) implies self.contents().contains_key(
                k,
            ) by {
                lemma_assoc_contains(orig, k);
                let j = choose|j: int| 0 <= j < orig.len() && orig[j].0 == k;
                assert(forall|x: int| 0 <= x < orig.len() && x != j ==> orig[x].0 != orig[j].0);
                lemma_assoc_value(orig, j);
                assert(live_at(orig[j].1.1, now));
                lemma_assoc_contains(self@, k);
            }
            assert(self.contents() =~= reap(old(self).contents(), now));
        }
    }

    /// The earliest expiry instant carried by any row of the table.
    pub open spec fn min_expiry(s: Seq<(Seq<char>, (Seq<char>, Option<u64>))>) -> Option<u64>
        decreases s.len(),
    {
        if s.len() == 0 {
            Option::None
        } else {
            match (Self::min_expiry(s.drop_last()), s.last().1.1) {
                (Option::None, e) => e,
                (Option::Some(m), Option::None) => Option::Some(m),
                (Option::Some(m), Option::Some(e)) => Option::Some(
                    if e < m {
                        e
                    } else {
                        m
                    },
                ),
            }
        }
    }

    /// What [`Store::min_expiry`] means: it is absent exactly when no row
    /// carries an expiry, and otherwise it is an expiry some row carries and
    /// no row undercuts — so the sleep derived from it never overshoots a
    /// pending expiry.
    pub proof fn lemma_min_expiry(s: Seq<(Seq<char>, (Seq<char>, Option<u64>))>)
        ensures
            Self::min_expiry(s) is None <==> forall|j: int|
                0 <= j < s.len() ==> (#[trigger] s[j].1.1) is None,
            Self::min_expiry(s) matches Option::Some(e) ==> (exists|j: int|
                0 <= j < s.len() && s[j].1.1 == Option::Some(e)) && forall|j: int|
                0 <= j < s.len() && (#[trigger] s[j].1.1) is Some ==> s[j].1.1.unwrap() >= e,
        decreases s.len(),
    {
        if s.len() == 0 {
        } else {
            Self::lemma_min_expiry(s.drop_last());
            assert(forall|j: int| 0 <= j < s.len() - 1 ==> s[j] == s.drop_last()[j]);
            match Self::min_expiry(s) {
                Option::Some(e) => {
                    if s.last().1.1 == Option::Some(e) {
                        assert(s[s.len() - 1].1.1 == Option::Some(e));
                    } else {
                        let j = choose|j: int|
                            0 <= j < s.drop_last().len() && s.drop_last()[j].1.1 == Option::Some(
                                e,
                            );
                        assert(s[j].1.1 == Option::Some(e));
                    }
                },
                Option::None => {},
            }
        }
    }

    /// How long the reaper should sleep before its next sweep, at `now`:
    /// the time until the earliest pending expiry, clamped to
    /// `[0, max_interval]`; `max_interval` itself when no entry expires.
    pub fn sleep_for_millis(&self, now: u64, max_interval: u64) -> (d: u64)
        ensures
            d <= max_interval,
            d == match Self::min_expiry(self@) {
                Option::None => max_interval,
                Option::Some(e) => if e <= now {
                    0u64
                } else if e - now < max_interval {
                    (e - now) as u64
                } else {
                    max_interval
                },
            },
    {
        let mut best: Option<u64> = Option::None;
        let mut i: usize = 0;
        while i < self.entries.len()
            invariant
                i <= self.entries.len(),
                self@.len() == self.entries.len(),
                best == Self::min_expiry(self@.take(i as int)),
            decreases self.entries.len() - i,
        {
            proof {
                assert(self@.take(i + 1 as int).drop_last() =~= self@.take(i as int));
                assert(self@.take(i + 1 as int).last() == self@[i as int]);
            }
            match self.entries[i].1.expiry {
                Option::Some(e) => {
                    best = match best {
                        Option::None => Option::Some(e),
                        Option::Some(m) => Option::Some(if e < m { e } else { m }),
                    };
                },
                Option::None => {},
            }
            i += 1;
        }
        proof {
            assert(self@.take(self@.len() as int) =~= self@);
        }
        match best {
            Option::None => max_interval,
            Option::Some(e) => {
                if e <= now {
                    0
                } else if e - now < max_interval {
                    e - now
                } else {
                    max_interval
                }
            },
        }
    }
}

} // verus!
