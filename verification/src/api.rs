//! The access seam an external transport layer calls through: the store
//! operations that serialize or deserialize values on their way in and out.
//! Everything here is verified; only the two crossings in [`crate::json`]
//! are trusted.

use vstd::prelude::*;

use crate::json::deserialize_text;
use crate::json::json_text;
use crate::json::json_value;
use crate::json::serialize_value;
use crate::store::expiry_at;
use crate::store::live_at;
use crate::store::remaining_at;
use crate::store::Lookup;
use crate::store::Store;

verus! {

/// The outcome of a write.
pub enum PutOutcome {
    /// The value was serialized and the entry inserted or replaced.
    Inserted,
    /// The value could not be encoded; the table was not touched.
    SerializationFault,
}

/// The outcome of a read that hands the value back.
pub enum GetOutcome {
    /// The key is present and live: the value and its remaining ttl.
    Found { value: serde_json::Value, remaining: Option<u64> },
    /// The key is present but its expiry has passed.
    Expired,
    /// The key is absent.
    NotFound,
    /// The key is present and live, but the stored text could not be
    /// decoded — a server-side fault, not a caller error.
    DeserializationFault,
}

/// Serializes `value` and upserts it at `key`, to expire at `now + ttl`
/// (no ttl: the entry is permanent). On a serialization fault the table is
/// left exactly as it was.
pub fn create(
    store: &mut Store,
    key: String,
    value: &serde_json::Value,
    ttl: Option<u64>,
    now: u64,
) -> (r: PutOutcome)
    requires
        old(store).wf(),
        ttl matches Option::Some(t) ==> now + t <= u64::MAX,
    ensures
        final(store).wf(),
        r is Inserted <==> json_text(*value) is Some,
        r is Inserted ==> final(store).contents() == old(store).contents().insert(
            key@,
            (json_text(*value).unwrap(), expiry_at(now, ttl)),
        ),
        r is SerializationFault ==> *final(store) == *old(store),
{
    match serialize_value(value) {
        Option::Some(s) => {
            store.put(key, s, ttl, now);
            PutOutcome::Inserted
        },
        Option::None => PutOutcome::SerializationFault,
    }
}

/// Looks `key` up at `now`: the decoded value and remaining ttl when the key
/// is live and its stored text decodes; `Expired` and `NotFound` report a
/// passed expiry and an absent key distinctly.
pub fn get(store: &Store, key: &String, now: u64) -> (r: GetOutcome)
    requires
        store.wf(),
    ensures
        r is NotFound <==> !store.contents().contains_key(key@),
        r is Expired <==> store.contents().contains_key(key@) && !live_at(
            store.contents()[key@].1,
            now,
        ),
        r is DeserializationFault ==> json_value(store.contents()[key@].0) is None,
        r matches GetOutcome::Found { value, remaining } ==> Option::Some(value) == json_value(
            store.contents()[key@].0,
        ) && remaining == remaining_at(store.contents()[key@].1, now),
        (r is Found || r is DeserializationFault) <==> store.contents().contains_key(key@)
            && live_at(store.contents()[key@].1, now),
{
    match store.get_at(key, now) {
        Lookup::Found { serialized, remaining } => {
            match deserialize_text(&serialized) {
                Option::Some(value) => GetOutcome::Found { value, remaining },
                Option::None => GetOutcome::DeserializationFault,
            }
        },
        Lookup::Expired => GetOutcome::Expired,
        Lookup::NotFound => GetOutcome::NotFound,
    }
}

/// A snapshot of every live entry at `now` whose stored text decodes, as
/// (key, value, remaining ttl) triples: never a key whose expiry has passed,
/// each live key at most once, and every live key whose text decodes.
pub fn get_all(store: &Store, now: u64) -> (r: Vec<(String, serde_json::Value, Option<u64>)>)
    requires
        store.wf(),
    ensures
        forall|a: int|
            0 <= a < r@.len() ==> {
                &&& store.contents().contains_key(#[trigger] r@[a].0@)
                &&& live_at(store.contents()[r@[a].0@].1, now)
                &&& Option::Some(r@[a].1) == json_value(store.contents()[r@[a].0@].0)
                &&& r@[a].2 == remaining_at(store.contents()[r@[a].0@].1, now)
            },
        forall|k: Seq<char>|
            store.contents().contains_key(k) && live_at(#[trigger] store.contents()[k].1, now)
                && json_value(store.contents()[k].0) is Some ==> exists|a: int|
                0 <= a < r@.len() && r@[a].0@ == k,
        forall|a: int, b: int| 0 <= a < b < r@.len() ==> r@[a].0@ != r@[b].0@,
{
    let snapshot = store.get_all_at(now);
    let mut r: Vec<(String, serde_json::Value, Option<u64>)> = Vec::new();
    let mut i: usize = 0;
    while i < snapshot.len()
        invariant
            store.wf(),
            i <= snapshot@.len(),
            forall|j: int|
                0 <= j < snapshot@.len() ==> {
                    &&& store.contents().contains_key(#[trigger] snapshot@[j].0@)
                    &&& live_at(store.contents()[snapshot@[j].0@].1, now)
                    &&& snapshot@[j].1@ == store.contents()[snapshot@[j].0@].0
                    &&& snapshot@[j].2 == remaining_at(store.contents()[snapshot@[j].0@].1, now)
                },
            forall|k: Seq<char>|
                store.contents().contains_key(k) && live_at(#[trigger] store.contents()[k].1, now)
                    ==> exists|j: int| 0 <= j < snapshot@.len() && snapshot@[j].0@ == k,
            forall|a: int, b: int|
                0 <= a < b < snapshot@.len() ==> snapshot@[a].0@ != snapshot@[b].0@,
            forall|a: int|
                0 <= a < r@.len() ==> exists|j: int|
                    0 <= j < i && #[trigger] r@[a].0@ == snapshot@[j].0@,
            forall|a: int|
                0 <= a < r@.len() ==> {
                    &&& store.contents().contains_key(#[trigger] r@[a].0@)
                    &&& live_at(store.contents()[r@[a].0@].1, now)
                    &&& Option::Some(r@[a].1) == json_value(store.contents()[r@[a].0@].0)
                    &&& r@[a].2 == remaining_at(store.contents()[r@[a].0@].1, now)
                },
            forall|j: int|
                0 <= j < i && json_value(#[trigger] store.contents()[snapshot@[j].0@].0) is Some
                    ==> exists|a: int| 0 <= a < r@.len() && r@[a].0@ == snapshot@[j].0@,
            forall|a: int, b: int| 0 <= a < b < r@.len() ==> r@[a].0@ != r@[b].0@,
        decreases snapshot@.len() - i,
    {
        let ghost pre = r@;
        match deserialize_text(&snapshot[i].1) {
            Option::Some(value) => {
                let remaining = match snapshot[i].2 {
                    Option::Some(d) => Option::Some(d),
                    Option::None => Option::None,
                };
                r.push((snapshot[i].0.clone(), value, remaining));
                proof {
                    assert(r@[pre.len() as int].0@ == snapshot@[i as int].0@);
                    assert forall|a: int, b: int|
                        0 <= a < b < r@.len() implies r@[a].0@ != r@[b].0@ by {
                        if b == r@.len() - 1 {
                            let j = choose|j: int|
                                0 <= j < i && r@[a].0@ == snapshot@[j].0@;
                            assert(snapshot@[j].0@ != snapshot@[i as int].0@);
                        }
                    }
                    assert forall|j: int|
                        0 <= j < i + 1 && json_value(
                            #[trigger] store.contents()[snapshot@[j].0@].0,
                        ) is Some implies exists|a: int|
                        0 <= a < r@.len() && r@[a].0@ == snapshot@[j].0@ by {
                        if j == i {
                            assert(r@[pre.len() as int].0@ == snapshot@[j].0@);
                        } else {
                            let a = choose|a: int|
                                0 <= a < pre.len() && pre[a].0@ == snapshot@[j].0@;
                            assert(r@[a].0@ == snapshot@[j].0@);
                        }
                    }
                }
            },
            Option::None => {
            },
        }
        i += 1;
    }
    proof {
        assert forall|k: Seq<char>|
            store.contents().contains_key(k) && live_at(#[trigger] store.contents()[k].1, now)
                && json_value(store.contents()[k].0) is Some implies exists|a: int|
            0 <= a < r@.len() && r@[a].0@ == k by {
            let j = choose|j: int| 0 <= j < snapshot@.len() && snapshot@[j].0@ == k;
            assert(json_value(store.contents()[snapshot@[j].0@].0) is Some);
        }
    }
    r
}

} // verus!
