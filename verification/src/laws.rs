//! The store's guarantees that relate several operations, stated over the
//! table's mathematical model (`Store::contents`) and proved once and for
//! all: a `put` is `Map::insert` with the expiry [`expiry_at`], a `delete`
//! is `Map::remove`, a read at `now` sees a key only when [`live_at`] holds,
//! and a reaper pass is [`reap`].

use vstd::prelude::*;

use crate::store::expiry_at;
use crate::store::live_at;
use crate::store::reap;
use crate::store::remaining_at;

verus! {

/// Writing a key with a positive ttl and reading it once the ttl has fully
/// elapsed finds the key expired — still present in the table, but no longer
/// live — even before any reaper pass has run.
pub proof fn lemma_ttl_expiry(
    m: Map<Seq<char>, (Seq<char>, Option<u64>)>,
    k: Seq<char>,
    v: Seq<char>,
    t: u64,
    now_put: u64,
    now_get: u64,
)
    requires
        t > 0,
        now_put + t <= u64::MAX,
        now_get >= now_put + t,
    ensures
        m.insert(k, (v, expiry_at(now_put, Option::Some(t)))).contains_key(k),
        !live_at(m.insert(k, (v, expiry_at(now_put, Option::Some(t))))[k].1, now_get),
{
}

/// An entry written without a ttl is permanent: a read after an arbitrary
/// delay still finds it live, with the written value and no remaining ttl.
pub proof fn lemma_permanent_entry(
    m: Map<Seq<char>, (Seq<char>, Option<u64>)>,
    k: Seq<char>,
    v: Seq<char>,
    now_put: u64,
    now_get: u64,
)
    ensures
        m.insert(k, (v, expiry_at(now_put, Option::None))).contains_key(k),
        live_at(m.insert(k, (v, expiry_at(now_put, Option::None)))[k].1, now_get),
        m.insert(k, (v, expiry_at(now_put, Option::None)))[k].0 == v,
        remaining_at(m.insert(k, (v, expiry_at(now_put, Option::None)))[k].1, now_get) is None,
{
}

/// Upsert overwrite: two writes to the same key leave exactly the table of
/// the second write alone — the first value and its ttl are gone without a
/// trace, whatever they were and whether or not they had expired.
pub proof fn lemma_upsert_overwrite(
    m: Map<Seq<char>, (Seq<char>, Option<u64>)>,
    k: Seq<char>,
    v1: Seq<char>,
    t1: Option<u64>,
    now1: u64,
    v2: Seq<char>,
    t2: Option<u64>,
    now2: u64,
)
    ensures
        m.insert(k, (v1, expiry_at(now1, t1))).insert(k, (v2, expiry_at(now2, t2))) == m.insert(
            k,
            (v2, expiry_at(now2, t2)),
        ),
        m.insert(k, (v2, expiry_at(now2, t2)))[k].0 == v2,
{
    assert(m.insert(k, (v1, expiry_at(now1, t1))).insert(k, (v2, expiry_at(now2, t2))) =~= m.insert(
        k,
        (v2, expiry_at(now2, t2)),
    ));
}

/// Delete idempotence: a delete on an absent key removes nothing, and after
/// a successful delete the key is gone, so a repeated delete removes nothing
/// either — `Store::delete` reports a removal exactly on `contains_key`.
pub proof fn lemma_delete_idempotent(m: Map<Seq<char>, (Seq<char>, Option<u64>)>, k: Seq<char>)
    ensures
        !m.remove(k).contains_key(k),
        m.remove(k).remove(k) == m.remove(k),
{
    assert(m.remove(k).remove(k) =~= m.remove(k));
}

/// Reaper convergence: one reaper pass at `now` leaves exactly the entries
/// live at `now`, unchanged — every previously expired key is physically
/// absent afterwards, and no live entry is touched.
pub proof fn lemma_reap_convergence(m: Map<Seq<char>, (Seq<char>, Option<u64>)>, now: u64)
    ensures
        forall|k: Seq<char>|
            reap(m, now).contains_key(k) <==> m.contains_key(k) && live_at(
                #[trigger] m[k].1,
                now,
            ),
        forall|k: Seq<char>| #[trigger] reap(m, now).contains_key(k) ==> reap(m, now)[k] == m[k],
{
}

/// The reaper and the lazy read filter agree: a read at any instant at or
/// after a reaper pass sees the same entries whether or not the pass ran,
/// because an entry expired at the pass is also expired at the read.
pub proof fn lemma_reap_agrees_with_reads(
    m: Map<Seq<char>, (Seq<char>, Option<u64>)>,
    k: Seq<char>,
    now_reap: u64,
    now_read: u64,
)
    requires
        now_read >= now_reap,
    ensures
        (reap(m, now_reap).contains_key(k) && live_at(reap(m, now_reap)[k].1, now_read))
            <==> (m.contains_key(k) && live_at(m[k].1, now_read)),
        reap(m, now_reap).contains_key(k) ==> reap(m, now_reap)[k] == m[k],
{
}

} // verus!
