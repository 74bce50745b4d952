//! The greenzone: a sparse, bounded cache of emulator snapshots keyed by frame.
//!
//! The snapshot stored for frame `f` is the state of the emulator right before
//! it runs frame `f`. Frame 0 is always stored. A lookup goes to the nearest
//! stored frame at or before the one asked for, so the cost of reaching any
//! frame is bounded by the distance to that snapshot.
//!
//! The cache is modelled as a finite map from frame to snapshot bytes. What a
//! save evicts is a function of the stored frames alone: never frame 0, never
//! the frame just saved, never a frame fewer than `recent` frames behind the
//! newest one. Among the others the frame divisible by the smallest power of
//! two goes first, the oldest of those if there are several, which leaves the
//! older part of the timeline covered at a spacing that doubles with age.

use vstd::prelude::*;

verus! {

/// Number of snapshots a greenzone made by [`Greenzone::new`] holds at most.
pub const DEFAULT_CAPACITY: usize = 256;

/// How far behind the newest frame a snapshot of such a greenzone is exempt
/// from eviction.
pub const DEFAULT_RECENT: u32 = 32;

/// `k` is the greatest stored frame that is not after `frame`.
pub open spec fn is_floor(keys: Set<u32>, frame: u32, k: u32) -> bool {
    &&& keys.contains(k)
    &&& k <= frame
    &&& forall|j: u32| #[trigger] keys.contains(j) && j <= frame ==> j <= k
}

/// The greatest stored frame that is not after `frame`.
pub open spec fn floor_of(keys: Set<u32>, frame: u32) -> u32 {
    choose|k: u32| is_floor(keys, frame, k)
}

/// `k` is the greatest stored frame.
pub open spec fn is_newest(keys: Set<u32>, k: u32) -> bool {
    &&& keys.contains(k)
    &&& forall|j: u32| #[trigger] keys.contains(j) ==> j <= k
}

/// The greatest stored frame.
pub open spec fn newest_of(keys: Set<u32>) -> u32 {
    choose|k: u32| is_newest(keys, k)
}

/// The exponent of the largest power of two that divides `frame`
/// (0 for frame 0, which is never a candidate for eviction).
pub open spec fn rank(frame: u32) -> nat
    decreases frame,
{
    if frame == 0 || frame % 2 == 1 {
        0
    } else {
        1 + rank(frame / 2)
    }
}

/// Frame `k` may be evicted after `saved` was stored.
pub open spec fn evictable(keys: Set<u32>, recent: u32, saved: u32, k: u32) -> bool {
    &&& keys.contains(k)
    &&& k != 0
    &&& k != saved
    &&& newest_of(keys) - k >= recent
}

/// `v` goes before `k` when one of the two has to be evicted.
pub open spec fn goes_first(v: u32, k: u32) -> bool {
    rank(v) < rank(k) || (rank(v) == rank(k) && v <= k)
}

/// `v` is the frame that is evicted after `saved` was stored.
pub open spec fn is_victim(keys: Set<u32>, recent: u32, saved: u32, v: u32) -> bool {
    &&& evictable(keys, recent, saved, v)
    &&& forall|k: u32| #[trigger] evictable(keys, recent, saved, k) ==> goes_first(v, k)
}

/// The frame that is evicted after `saved` was stored.
pub open spec fn victim_of(keys: Set<u32>, recent: u32, saved: u32) -> u32 {
    choose|v: u32| is_victim(keys, recent, saved, v)
}

/// The cache after the snapshot `state` was saved for `frame`.
pub open spec fn zone_save(
    zone: Map<u32, Seq<u8>>,
    capacity: nat,
    recent: u32,
    frame: u32,
    state: Seq<u8>,
) -> Map<u32, Seq<u8>> {
    let stored = zone.insert(frame, state);
    if stored.dom().len() <= capacity {
        stored
    } else {
        stored.remove(victim_of(stored.dom(), recent, frame))
    }
}

/// The cache after every snapshot for a frame after `after` was dropped.
pub open spec fn zone_invalidate(zone: Map<u32, Seq<u8>>, after: u32) -> Map<u32, Seq<u8>> {
    zone.restrict(Set::new(|k: u32| k <= after))
}

/// Capacity and exemption window go together: besides frame 0, the frame just
/// saved and the exempt frames there is always one left to evict.
pub open spec fn limits_ok(capacity: nat, recent: u32) -> bool {
    recent + 2 <= capacity
}

/// What holds of the cache at all times: finitely many snapshots, at most
/// `capacity` of them, and the one for frame 0 among them.
pub open spec fn zone_ok(zone: Map<u32, Seq<u8>>, capacity: nat, recent: u32) -> bool {
    &&& zone.dom().finite()
    &&& zone.dom().contains(0)
    &&& zone.dom().len() <= capacity
    &&& limits_ok(capacity, recent)
}

/// At most one frame is the floor of `frame`.
pub proof fn lemma_floor_unique(keys: Set<u32>, frame: u32, k: u32)
    requires
        is_floor(keys, frame, k),
    ensures
        floor_of(keys, frame) == k,
{
    let c = floor_of(keys, frame);
    assert(is_floor(keys, frame, c));
    assert(keys.contains(c) && c <= frame ==> c <= k);
    assert(keys.contains(k) && k <= frame ==> k <= c);
}

/// At most one frame is the newest.
pub proof fn lemma_newest_unique(keys: Set<u32>, k: u32)
    requires
        is_newest(keys, k),
    ensures
        newest_of(keys) == k,
{
    let c = newest_of(keys);
    assert(is_newest(keys, c));
    assert(keys.contains(c) ==> c <= k);
    assert(keys.contains(k) ==> k <= c);
}

/// At most one frame is the victim.
pub proof fn lemma_victim_unique(keys: Set<u32>, recent: u32, saved: u32, v: u32)
    requires
        is_victim(keys, recent, saved, v),
    ensures
        victim_of(keys, recent, saved) == v,
{
    let c = victim_of(keys, recent, saved);
    assert(is_victim(keys, recent, saved, c));
    assert(evictable(keys, recent, saved, c) ==> goes_first(v, c));
    assert(evictable(keys, recent, saved, v) ==> goes_first(c, v));
}

/// One stored snapshot.
struct Entry {
    frame: u32,
    state: Vec<u8>,
}

/// The entries as plain pairs of frame and snapshot bytes.
spec fn pairs_of(entries: Seq<Entry>) -> Seq<(u32, Seq<u8>)> {
    Seq::new(entries.len(), |i: int| (entries[i].frame, entries[i].state@))
}

spec fn ascending(s: Seq<(u32, Seq<u8>)>) -> bool {
    forall|i: int, j: int| 0 <= i < j < s.len() ==> s[i].0 < s[j].0
}

spec fn has_key(s: Seq<(u32, Seq<u8>)>, frame: u32) -> bool {
    exists|i: int| 0 <= i < s.len() && #[trigger] s[i].0 == frame
}

spec fn pos_of(s: Seq<(u32, Seq<u8>)>, frame: u32) -> int {
    choose|i: int| 0 <= i < s.len() && #[trigger] s[i].0 == frame
}

spec fn zone_of(s: Seq<(u32, Seq<u8>)>) -> Map<u32, Seq<u8>> {
    Map::new(|f: u32| has_key(s, f), |f: u32| s[pos_of(s, f)].1)
}

proof fn lemma_zone_entry(s: Seq<(u32, Seq<u8>)>, i: int)
    requires
        ascending(s),
        0 <= i < s.len(),
    ensures
        zone_of(s).dom().contains(s[i].0),
        zone_of(s)[s[i].0] == s[i].1,
        pos_of(s, s[i].0) == i,
{
    let f = s[i].0;
    assert(has_key(s, f));
    let p = pos_of(s, f);
    assert(0 <= p < s.len() && s[p].0 == f);
    if p < i {
        assert(s[p].0 < s[i].0);
    } else if i < p {
        assert(s[i].0 < s[p].0);
    }
}

/// A map that holds exactly the entries of an ascending sequence is its zone.
proof fn lemma_zone_is(s: Seq<(u32, Seq<u8>)>, m: Map<u32, Seq<u8>>)
    requires
        ascending(s),
        forall|i: int|
            0 <= i < s.len() ==> m.dom().contains(#[trigger] s[i].0) && m[s[i].0] == s[i].1,
        forall|k: u32| #[trigger] m.dom().contains(k) ==> has_key(s, k),
    ensures
        zone_of(s) == m,
{
    let z = zone_of(s);
    assert forall|k: u32| z.dom().contains(k) <==> m.dom().contains(k) by {
        if z.dom().contains(k) {
            let p = pos_of(s, k);
            assert(m.dom().contains(s[p].0));
        }
    }
    assert forall|k: u32| z.dom().contains(k) implies z[k] == m[k] by {
        let p = pos_of(s, k);
        lemma_zone_entry(s, p);
    }
    assert(z =~= m);
}

proof fn lemma_zone_len(s: Seq<(u32, Seq<u8>)>)
    requires
        ascending(s),
    ensures
        zone_of(s).dom().finite(),
        zone_of(s).dom().len() == s.len(),
    decreases s.len(),
{
    if s.len() == 0 {
        assert(zone_of(s).dom() =~= Set::<u32>::empty());
    } else {
        let t = s.drop_last();
        let f = s.last().0;
        lemma_zone_len(t);
        assert(!zone_of(t).dom().contains(f)) by {
            if has_key(t, f) {
                let p = pos_of(t, f);
                assert(s[p].0 < s[s.len() - 1].0);
            }
        }
        assert(zone_of(s).dom() =~= zone_of(t).dom().insert(f)) by {
            assert forall|k: u32|
                zone_of(s).dom().contains(k) <==> zone_of(t).dom().insert(f).contains(k) by {
                if has_key(s, k) {
                    let p = pos_of(s, k);
                    if p < s.len() - 1 {
                        assert(t[p].0 == k);
                    }
                }
                if has_key(t, k) {
                    let p = pos_of(t, k);
                    assert(s[p].0 == k);
                }
                if k == f {
                    assert(s[s.len() - 1].0 == k);
                }
            }
        }
    }
}

/// Frames of an ascending sequence lie at least as far apart as their places.
proof fn lemma_spread(s: Seq<(u32, Seq<u8>)>, i: int, j: int)
    requires
        ascending(s),
        0 <= i <= j < s.len(),
    ensures
        s[j].0 - s[i].0 >= j - i,
    decreases j - i,
{
    if i < j {
        lemma_spread(s, i, j - 1);
        assert(s[j - 1].0 < s[j].0);
    }
}

proof fn lemma_newest_is_last(s: Seq<(u32, Seq<u8>)>)
    requires
        ascending(s),
        s.len() > 0,
    ensures
        is_newest(zone_of(s).dom(), s.last().0),
        newest_of(zone_of(s).dom()) == s.last().0,
{
    let keys = zone_of(s).dom();
    let last = s.last().0;
    lemma_zone_entry(s, s.len() - 1);
    assert forall|j: u32| #[trigger] keys.contains(j) implies j <= last by {
        let p = pos_of(s, j);
        if p < s.len() - 1 {
            assert(s[p].0 < s[s.len() - 1].0);
        }
    }
    lemma_newest_unique(keys, last);
}

/// The entry at place `i` is the floor of `frame` when the next one, if there
/// is one, is after `frame`.
proof fn lemma_floor_pos(s: Seq<(u32, Seq<u8>)>, frame: u32, i: int)
    requires
        ascending(s),
        0 <= i < s.len(),
        s[i].0 <= frame,
        i + 1 < s.len() ==> frame < s[i + 1].0,
    ensures
        is_floor(zone_of(s).dom(), frame, s[i].0),
        floor_of(zone_of(s).dom(), frame) == s[i].0,
{
    let keys = zone_of(s).dom();
    lemma_zone_entry(s, i);
    assert forall|j: u32| #[trigger] keys.contains(j) && j <= frame implies j <= s[i].0 by {
        let p = pos_of(s, j);
        if p > i + 1 {
            assert(s[i + 1].0 < s[p].0);
        }
    }
    lemma_floor_unique(keys, frame, s[i].0);
}

/// The place of the last entry at or before `frame`, looked for from `hi` down.
proof fn lemma_floor_exists(s: Seq<(u32, Seq<u8>)>, frame: u32, hi: int) -> (i: int)
    requires
        ascending(s),
        0 <= hi < s.len(),
        s[0].0 == 0,
        hi + 1 < s.len() ==> frame < s[hi + 1].0,
    ensures
        0 <= i < s.len(),
        s[i].0 <= frame,
        i + 1 < s.len() ==> frame < s[i + 1].0,
    decreases hi,
{
    if s[hi].0 <= frame {
        hi
    } else {
        lemma_floor_exists(s, frame, hi - 1)
    }
}

/// Putting an entry between its neighbours stores it.
proof fn lemma_insert_at(s: Seq<(u32, Seq<u8>)>, n: int, frame: u32, state: Seq<u8>)
    requires
        ascending(s),
        0 < n <= s.len(),
        s[n - 1].0 < frame,
        n < s.len() ==> frame < s[n].0,
    ensures
        ascending(s.insert(n, (frame, state))),
        zone_of(s.insert(n, (frame, state))) == zone_of(s).insert(frame, state),
        !zone_of(s).dom().contains(frame),
{
    let t = s.insert(n, (frame, state));
    let m = zone_of(s).insert(frame, state);
    assert forall|i: int, j: int| 0 <= i < j < t.len() implies t[i].0 < t[j].0 by {
        if j < n {
            assert(s[i].0 < s[j].0);
        } else if j == n {
            if i < n - 1 {
                assert(s[i].0 < s[n - 1].0);
            }
        } else if i < n {
            if i < n - 1 {
                assert(s[i].0 < s[n - 1].0);
            }
            if j - 1 > n {
                assert(s[n].0 < s[j - 1].0);
            }
        } else if i == n {
            if j - 1 > n {
                assert(s[n].0 < s[j - 1].0);
            }
        } else {
            assert(s[i - 1].0 < s[j - 1].0);
        }
    }
    assert(!zone_of(s).dom().contains(frame)) by {
        if has_key(s, frame) {
            let p = pos_of(s, frame);
            if p < n - 1 {
                assert(s[p].0 < s[n - 1].0);
            } else if p > n {
                assert(s[n].0 < s[p].0);
            }
        }
    }
    assert forall|i: int| 0 <= i < t.len() implies m.dom().contains(#[trigger] t[i].0) && m[t[i].0]
        == t[i].1 by {
        if i < n {
            lemma_zone_entry(s, i);
        } else if i > n {
            lemma_zone_entry(s, i - 1);
        }
    }
    assert forall|k: u32| #[trigger] m.dom().contains(k) implies has_key(t, k) by {
        if k == frame {
            assert(t[n].0 == k);
        } else {
            let p = pos_of(s, k);
            if p < n {
                assert(t[p].0 == k);
            } else {
                assert(t[p + 1].0 == k);
            }
        }
    }
    lemma_zone_is(t, m);
}

/// Replacing the bytes of an entry stores them under its frame.
proof fn lemma_update_at(s: Seq<(u32, Seq<u8>)>, n: int, state: Seq<u8>)
    requires
        ascending(s),
        0 <= n < s.len(),
    ensures
        ascending(s.update(n, (s[n].0, state))),
        zone_of(s.update(n, (s[n].0, state))) == zone_of(s).insert(s[n].0, state),
        zone_of(s).dom().contains(s[n].0),
        zone_of(s).insert(s[n].0, state).dom() == zone_of(s).dom(),
{
    let frame = s[n].0;
    let t = s.update(n, (frame, state));
    let m = zone_of(s).insert(frame, state);
    assert(forall|i: int| 0 <= i < t.len() ==> t[i].0 == s[i].0);
    assert forall|i: int| 0 <= i < t.len() implies m.dom().contains(#[trigger] t[i].0) && m[t[i].0]
        == t[i].1 by {
        lemma_zone_entry(s, i);
        if i < n {
            assert(s[i].0 < s[n].0);
        } else if i > n {
            assert(s[n].0 < s[i].0);
        }
    }
    assert forall|k: u32| #[trigger] m.dom().contains(k) implies has_key(t, k) by {
        if k == frame {
            assert(t[n].0 == k);
        } else {
            let p = pos_of(s, k);
            assert(t[p].0 == k);
        }
    }
    lemma_zone_is(t, m);
    lemma_zone_entry(s, n);
    assert(m.dom() =~= zone_of(s).dom());
}

/// Taking an entry out drops its frame.
proof fn lemma_remove_at(s: Seq<(u32, Seq<u8>)>, p: int)
    requires
        ascending(s),
        0 <= p < s.len(),
    ensures
        ascending(s.remove(p)),
        zone_of(s.remove(p)) == zone_of(s).remove(s[p].0),
{
    let t = s.remove(p);
    let m = zone_of(s).remove(s[p].0);
    assert forall|a: int, b: int| 0 <= a < b < t.len() implies t[a].0 < t[b].0 by {
        let a0 = if a < p { a } else { a + 1 };
        let b0 = if b < p { b } else { b + 1 };
        assert(s[a0].0 < s[b0].0);
    }
    assert forall|a: int| 0 <= a < t.len() implies m.dom().contains(#[trigger] t[a].0) && m[t[a].0]
        == t[a].1 by {
        let a0 = if a < p { a } else { a + 1 };
        lemma_zone_entry(s, a0);
        if a0 < p {
            assert(s[a0].0 < s[p].0);
        } else {
            assert(s[p].0 < s[a0].0);
        }
    }
    assert forall|k: u32| #[trigger] m.dom().contains(k) implies has_key(t, k) by {
        let q = pos_of(s, k);
        if q < p {
            assert(t[q].0 == k);
        } else {
            assert(t[q - 1].0 == k);
        }
    }
    lemma_zone_is(t, m);
}

/// Keeping the first `n` entries drops the frames after `after`, where the
/// entry at place `n - 1` is the last one at or before `after`.
proof fn lemma_keep_first(s: Seq<(u32, Seq<u8>)>, n: int, after: u32)
    requires
        ascending(s),
        0 < n <= s.len(),
        s[n - 1].0 <= after,
        n < s.len() ==> after < s[n].0,
    ensures
        ascending(s.subrange(0, n)),
        zone_of(s.subrange(0, n)) == zone_invalidate(zone_of(s), after),
{
    let t = s.subrange(0, n);
    let m = zone_invalidate(zone_of(s), after);
    assert forall|i: int| 0 <= i < t.len() implies m.dom().contains(#[trigger] t[i].0) && m[t[i].0]
        == t[i].1 by {
        lemma_zone_entry(s, i);
        if i < n - 1 {
            assert(s[i].0 < s[n - 1].0);
        }
    }
    assert forall|k: u32| #[trigger] m.dom().contains(k) implies has_key(t, k) by {
        let p = pos_of(s, k);
        if p > n {
            assert(s[n].0 < s[p].0);
        }
        assert(t[p].0 == k);
    }
    lemma_zone_is(t, m);
}

/// The place of the entry that goes first among the evictable ones at places
/// below `upto`, if there is one.
proof fn lemma_scan(s: Seq<(u32, Seq<u8>)>, recent: u32, saved: u32, upto: int) -> (best:
    Option<int>)
    requires
        ascending(s),
        0 <= upto <= s.len(),
    ensures
        best matches Some(b) ==> 0 <= b < upto && evictable(
            zone_of(s).dom(),
            recent,
            saved,
            s[b].0,
        ) && forall|p: int|
            0 <= p < upto && evictable(zone_of(s).dom(), recent, saved, #[trigger] s[p].0)
                ==> goes_first(s[b].0, s[p].0),
        best is None ==> forall|p: int|
            0 <= p < upto ==> !evictable(zone_of(s).dom(), recent, saved, #[trigger] s[p].0),
    decreases upto,
{
    let keys = zone_of(s).dom();
    if upto == 0 {
        None
    } else {
        let prior = lemma_scan(s, recent, saved, upto - 1);
        let f = s[upto - 1].0;
        match prior {
            Some(b) => if evictable(keys, recent, saved, f) && !goes_first(s[b].0, f) {
                Some(upto - 1)
            } else {
                Some(b)
            },
            None => if evictable(keys, recent, saved, f) {
                Some(upto - 1)
            } else {
                None
            },
        }
    }
}

/// With one entry too many there is a victim, and it is neither frame 0 nor
/// the frame just saved.
proof fn lemma_victim_exists(s: Seq<(u32, Seq<u8>)>, recent: u32, saved: u32) -> (best: int)
    requires
        ascending(s),
        s.len() >= recent + 3,
        s[0].0 == 0,
    ensures
        0 < best < s.len(),
        is_victim(zone_of(s).dom(), recent, saved, s[best].0),
        victim_of(zone_of(s).dom(), recent, saved) == s[best].0,
        s[best].0 != 0,
        s[best].0 != saved,
{
    let keys = zone_of(s).dom();
    lemma_newest_is_last(s);
    lemma_spread(s, 1, s.len() - 1);
    lemma_spread(s, 2, s.len() - 1);
    assert(s[0].0 < s[1].0);
    assert(s[1].0 < s[2].0);
    let first: int = if s[1].0 != saved {
        1
    } else {
        2
    };
    lemma_zone_entry(s, first);
    assert(evictable(keys, recent, saved, s[first].0));
    let found = lemma_scan(s, recent, saved, s.len() as int);
    if found is None {
        assert(!evictable(keys, recent, saved, s[first].0));
    }
    let best = found->0;
    assert forall|k: u32| #[trigger] evictable(keys, recent, saved, k) implies goes_first(
        s[best].0,
        k,
    ) by {
        let p = pos_of(s, k);
        assert(s[p].0 == k);
    }
    lemma_victim_unique(keys, recent, saved, s[best].0);
    best
}

/// The greatest of finitely many frames.
proof fn lemma_newest_exists(keys: Set<u32>) -> (k: u32)
    requires
        keys.finite(),
        keys.len() > 0,
    ensures
        is_newest(keys, k),
    decreases keys.len(),
{
    let a = keys.choose();
    let rest = keys.remove(a);
    if rest.len() == 0 {
        assert(rest =~= Set::<u32>::empty());
        assert forall|j: u32| #[trigger] keys.contains(j) implies j <= a by {
            if j != a {
                assert(rest.contains(j));
            }
        }
        a
    } else {
        let b = lemma_newest_exists(rest);
        let k = if a > b {
            a
        } else {
            b
        };
        assert forall|j: u32| #[trigger] keys.contains(j) implies j <= k by {
            if j != a {
                assert(rest.contains(j));
            }
        }
        k
    }
}

/// Every finite cache is the zone of an ascending sequence of entries.
proof fn lemma_represent(zone: Map<u32, Seq<u8>>) -> (s: Seq<(u32, Seq<u8>)>)
    requires
        zone.dom().finite(),
    ensures
        ascending(s),
        zone_of(s) == zone,
        s.len() == zone.dom().len(),
        zone.dom().contains(0) ==> s.len() > 0 && s[0].0 == 0,
    decreases zone.dom().len(),
{
    if zone.dom().len() == 0 {
        let s = Seq::<(u32, Seq<u8>)>::empty();
        assert(zone.dom() =~= Set::<u32>::empty());
        lemma_zone_is(s, zone);
        s
    } else {
        let k = lemma_newest_exists(zone.dom());
        let rest = zone.remove(k);
        let t = lemma_represent(rest);
        let s = t.push((k, zone[k]));
        assert forall|i: int, j: int| 0 <= i < j < s.len() implies s[i].0 < s[j].0 by {
            lemma_zone_entry(t, i);
            assert(rest.dom().contains(t[i].0));
            assert(zone.dom().contains(t[i].0));
            if j < t.len() {
                assert(t[i].0 < t[j].0);
            }
        }
        assert forall|i: int| 0 <= i < s.len() implies zone.dom().contains(#[trigger] s[i].0)
            && zone[s[i].0] == s[i].1 by {
            if i < t.len() {
                lemma_zone_entry(t, i);
                assert(rest.dom().contains(t[i].0));
            }
        }
        assert forall|j: u32| #[trigger] zone.dom().contains(j) implies has_key(s, j) by {
            if j == k {
                assert(s[t.len() as int].0 == j);
            } else {
                assert(rest.dom().contains(j));
                let p = pos_of(t, j);
                assert(s[p].0 == j);
            }
        }
        lemma_zone_is(s, zone);
        if zone.dom().contains(0) {
            lemma_zone_entry(s, 0);
            if s[0].0 != 0 {
                let p = pos_of(s, 0);
                assert(s[p].0 == 0);
                if p > 0 {
                    assert(s[0].0 < s[p].0);
                }
            }
        }
        s
    }
}

/// Every lookup in a cache that holds frame 0 finds a snapshot.
pub proof fn lemma_floor(zone: Map<u32, Seq<u8>>, frame: u32)
    requires
        zone.dom().finite(),
        zone.dom().contains(0),
    ensures
        is_floor(zone.dom(), frame, floor_of(zone.dom(), frame)),
        floor_of(zone.dom(), 0) == 0,
{
    let s = lemma_represent(zone);
    let i = lemma_floor_exists(s, frame, s.len() - 1);
    lemma_floor_pos(s, frame, i);
    let z = lemma_floor_exists(s, 0, s.len() - 1);
    lemma_floor_pos(s, 0, z);
}

/// A save keeps the cache within its bounds and keeps frame 0. The frame
/// saved is stored with the bytes given; whatever else is stored afterwards
/// was stored before, with the same bytes.
pub proof fn lemma_zone_save(
    zone: Map<u32, Seq<u8>>,
    capacity: nat,
    recent: u32,
    frame: u32,
    state: Seq<u8>,
)
    requires
        zone_ok(zone, capacity, recent),
    ensures
        zone_ok(zone_save(zone, capacity, recent, frame, state), capacity, recent),
        zone_save(zone, capacity, recent, frame, state).dom().contains(frame),
        zone_save(zone, capacity, recent, frame, state)[frame] == state,
        forall|k: u32| #[trigger]
            zone_save(zone, capacity, recent, frame, state).dom().contains(k) && k != frame
                ==> zone.dom().contains(k) && zone_save(zone, capacity, recent, frame, state)[k]
                == zone[k],
{
    let stored = zone.insert(frame, state);
    if stored.dom().len() > capacity {
        let s = lemma_represent(stored);
        let best = lemma_victim_exists(s, recent, frame);
        lemma_remove_at(s, best);
        lemma_zone_len(s.remove(best));
    }
}

/// An invalidation keeps the cache within its bounds and keeps frame 0.
/// What stays stored keeps its bytes.
pub proof fn lemma_zone_invalidate(zone: Map<u32, Seq<u8>>, capacity: nat, recent: u32, after: u32)
    requires
        zone_ok(zone, capacity, recent),
    ensures
        zone_ok(zone_invalidate(zone, after), capacity, recent),
        forall|k: u32|
            zone_invalidate(zone, after).dom().contains(k) <==> zone.dom().contains(k) && k
                <= after,
        forall|k: u32| #[trigger]
            zone_invalidate(zone, after).dom().contains(k) ==> zone_invalidate(zone, after)[k]
                == zone[k],
{
    let kept = zone_invalidate(zone, after);
    assert(kept.dom().subset_of(zone.dom()));
    vstd::set_lib::lemma_len_subset(kept.dom(), zone.dom());
}

/// A bounded cache of emulator snapshots.
pub struct Greenzone {
    /// Ascending by frame; the first entry is the one of frame 0.
    entries: Vec<Entry>,
    capacity: usize,
    recent: u32,
}

impl View for Greenzone {
    type V = Map<u32, Seq<u8>>;

    /// The stored snapshots by frame.
    closed spec fn view(&self) -> Map<u32, Seq<u8>> {
        zone_of(pairs_of(self.entries@))
    }
}

fn rank_of(frame: u32) -> (r: u32)
    ensures
        r == rank(frame),
{
    let mut f: u32 = frame;
    let mut r: u32 = 0;
    while f != 0 && f % 2 == 0
        invariant
            rank(frame) == r + rank(f),
            r + f <= frame,
        decreases f,
    {
        f = f / 2;
        r = r + 1;
    }
    r
}

impl Greenzone {
    /// The invariant of the representation.
    pub closed spec fn wf(&self) -> bool {
        &&& ascending(pairs_of(self.entries@))
        &&& 0 < self.entries@.len() <= self.capacity
        &&& self.entries@[0].frame == 0
        &&& limits_ok(self.capacity as nat, self.recent)
    }

    /// Number of snapshots that are stored at most.
    pub closed spec fn capacity(&self) -> nat {
        self.capacity as nat
    }

    /// A snapshot fewer than this many frames behind the newest is not evicted.
    pub closed spec fn recent(&self) -> u32 {
        self.recent
    }

    /// What the invariant says of the stored frames.
    pub proof fn lemma_wf(&self)
        requires
            self.wf(),
        ensures
            zone_ok(self@, self.capacity(), self.recent()),
    {
        let s = pairs_of(self.entries@);
        lemma_zone_len(s);
        lemma_zone_entry(s, 0);
    }

    /// A greenzone of the default size that holds `initial` for frame 0.
    pub fn new(initial: Vec<u8>) -> (zone: Greenzone)
        ensures
            zone.wf(),
            zone@ == Map::<u32, Seq<u8>>::empty().insert(0, initial@),
            zone.capacity() == DEFAULT_CAPACITY,
            zone.recent() == DEFAULT_RECENT,
    {
        Greenzone::with_limits(initial, DEFAULT_CAPACITY, DEFAULT_RECENT)
    }

    /// A greenzone of at most `capacity` snapshots that holds `initial` for
    /// frame 0 and never evicts a snapshot fewer than `recent` frames behind
    /// the newest.
    pub fn with_limits(initial: Vec<u8>, capacity: usize, recent: u32) -> (zone: Greenzone)
        requires
            limits_ok(capacity as nat, recent),
        ensures
            zone.wf(),
            zone@ == Map::<u32, Seq<u8>>::empty().insert(0, initial@),
            zone.capacity() == capacity,
            zone.recent() == recent,
    {
        let mut entries: Vec<Entry> = Vec::new();
        entries.push(Entry { frame: 0, state: initial });
        let zone = Greenzone { entries, capacity, recent };
        proof {
            let s = pairs_of(zone.entries@);
            let m = Map::<u32, Seq<u8>>::empty().insert(0, initial@);
            assert forall|k: u32| #[trigger] m.dom().contains(k) implies has_key(s, k) by {
                assert(s[0].0 == k);
            }
            lemma_zone_is(s, m);
        }
        zone
    }

    /// Number of entries whose frame is not after `frame`; at least one, as
    /// frame 0 is stored.
    fn count_upto(&self, frame: u32) -> (n: usize)
        requires
            self.wf(),
        ensures
            0 < n <= self.entries@.len(),
            self.entries@[n - 1].frame <= frame,
            n < self.entries@.len() ==> frame < self.entries@[n as int].frame,
    {
        let mut lo: usize = 1;
        let mut hi: usize = self.entries.len();
        while lo < hi
            invariant
                self.wf(),
                0 < lo <= hi <= self.entries@.len(),
                self.entries@[lo - 1].frame <= frame,
                hi < self.entries@.len() ==> frame < self.entries@[hi as int].frame,
            decreases hi - lo,
        {
            let mid: usize = lo + (hi - lo) / 2;
            proof {
                let s = pairs_of(self.entries@);
                assert(s[0].0 <= s[mid as int].0);
            }
            if self.entries[mid].frame <= frame {
                lo = mid + 1;
            } else {
                hi = mid;
            }
        }
        lo
    }

    /// Number of stored snapshots.
    pub fn len(&self) -> (n: usize)
        requires
            self.wf(),
        ensures
            n == self@.dom().len(),
            n > 0,
    {
        proof {
            lemma_zone_len(pairs_of(self.entries@));
        }
        self.entries.len()
    }

    /// Whether a snapshot is stored for exactly `frame`.
    pub fn covers(&self, frame: u32) -> (stored: bool)
        requires
            self.wf(),
        ensures
            stored == self@.dom().contains(frame),
    {
        let n = self.count_upto(frame);
        let found = self.entries[n - 1].frame == frame;
        proof {
            let s = pairs_of(self.entries@);
            lemma_floor_pos(s, frame, n - 1);
        }
        found
    }

    /// The nearest snapshot at or before `frame`, with the frame it is stored
    /// for.
    pub fn restore(&self, frame: u32) -> (found: (u32, &[u8]))
        requires
            self.wf(),
        ensures
            found.0 == floor_of(self@.dom(), frame),
            is_floor(self@.dom(), frame, found.0),
            found.0 <= frame,
            self@.dom().contains(found.0),
            found.1@ == self@[found.0],
    {
        let n = self.count_upto(frame);
        proof {
            let s = pairs_of(self.entries@);
            lemma_floor_pos(s, frame, n - 1);
            lemma_zone_entry(s, n - 1);
        }
        (self.entries[n - 1].frame, self.entries[n - 1].state.as_slice())
    }

    /// Drops every snapshot stored for a frame after `after`.
    pub fn invalidate(&mut self, after: u32)
        requires
            old(self).wf(),
        ensures
            final(self).wf(),
            final(self)@ == zone_invalidate(old(self)@, after),
            final(self).capacity() == old(self).capacity(),
            final(self).recent() == old(self).recent(),
            forall|j: u32| j > after ==> !final(self)@.dom().contains(j),
    {
        let n = self.count_upto(after);
        self.entries.truncate(n);
        proof {
            let s = pairs_of(old(self).entries@);
            let t = pairs_of(self.entries@);
            assert(t =~= s.subrange(0, n as int));
            lemma_keep_first(s, n as int, after);
        }
    }

    /// Stores `state` as the snapshot for `frame`, in place of the one that
    /// was there if there was one. When that takes the cache over its
    /// capacity, one other snapshot is evicted: see [`victim_of`].
    pub fn save(&mut self, frame: u32, state: Vec<u8>)
        requires
            old(self).wf(),
        ensures
            final(self).wf(),
            final(self)@ == zone_save(
                old(self)@,
                old(self).capacity(),
                old(self).recent(),
                frame,
                state@,
            ),
            final(self).capacity() == old(self).capacity(),
            final(self).recent() == old(self).recent(),
            final(self)@.dom().contains(frame),
            final(self)@[frame] == state@,
            final(self)@.dom().contains(0),
    {
        let n = self.count_upto(frame);
        let ghost s = pairs_of(self.entries@);
        proof {
            lemma_zone_len(s);
            old(self).lemma_wf();
            lemma_zone_save(old(self)@, old(self).capacity(), old(self).recent(), frame, state@);
        }
        if self.entries[n - 1].frame == frame {
            self.entries[n - 1].state = state;
            proof {
                let t = pairs_of(self.entries@);
                assert(t =~= s.update(n - 1, (frame, state@)));
                lemma_update_at(s, n - 1, state@);
            }
        } else {
            self.entries.insert(n, Entry { frame, state });
            proof {
                let t = pairs_of(self.entries@);
                assert(t =~= s.insert(n as int, (frame, state@)));
                lemma_insert_at(s, n as int, frame, state@);
                lemma_zone_len(t);
            }
            if self.entries.len() > self.capacity {
                self.evict(frame);
            }
        }
    }

    /// Removes the victim among the entries, which are one too many.
    fn evict(&mut self, saved: u32)
        requires
            ascending(pairs_of(old(self).entries@)),
            old(self).entries@.len() == old(self).capacity + 1,
            old(self).entries@[0].frame == 0,
            limits_ok(old(self).capacity as nat, old(self).recent),
        ensures
            final(self).wf(),
            final(self).capacity == old(self).capacity,
            final(self).recent == old(self).recent,
            final(self)@ == old(self)@.remove(victim_of(old(self)@.dom(), old(self).recent, saved)),
    {
        let ghost s = pairs_of(self.entries@);
        let ghost keys = zone_of(s).dom();
        let len = self.entries.len();
        let newest = self.entries[len - 1].frame;
        let recent = self.recent;
        proof {
            lemma_newest_is_last(s);
            // One of the entries at places 1 and 2 can go.
            lemma_spread(s, 1, len - 1);
            lemma_spread(s, 2, len - 1);
            assert(s[1].0 < s[2].0);
            assert(s[0].0 < s[1].0);
        }
        let first: usize = if self.entries[1].frame != saved {
            1
        } else {
            2
        };
        proof {
            lemma_zone_entry(s, first as int);
            assert(evictable(keys, recent, saved, s[first as int].0));
        }
        let mut best: usize = first;
        let mut best_rank: u32 = rank_of(self.entries[first].frame);
        let mut i: usize = first + 1;
        proof {
            assert forall|p: int| 0 <= p < i && evictable(keys, recent, saved, #[trigger] s[p].0)
                implies p == first by {
                lemma_zone_entry(s, p);
                if p != first && p != 0 {
                    assert(first == 2 && p == 1);
                }
            }
        }
        while i < len
            invariant
                self.entries@ == old(self).entries@,
                s == pairs_of(self.entries@),
                ascending(s),
                keys == zone_of(s).dom(),
                len == s.len(),
                newest == newest_of(keys),
                newest == s[len - 1].0,
                recent == self.recent,
                1 <= first <= best < i <= len,
                evictable(keys, recent, saved, s[best as int].0),
                best_rank == rank(s[best as int].0),
                forall|p: int|
                    0 <= p < i && evictable(keys, recent, saved, #[trigger] s[p].0) ==> goes_first(
                        s[best as int].0,
                        s[p].0,
                    ),
            decreases len - i,
        {
            let f = self.entries[i].frame;
            proof {
                lemma_zone_entry(s, i as int);
                assert(s[best as int].0 < s[i as int].0);
                if i < len - 1 {
                    assert(s[i as int].0 < s[len - 1].0);
                }
            }
            if f != saved && newest - f >= recent {
                let r = rank_of(f);
                if r < best_rank {
                    proof {
                        assert forall|p: int|
                            0 <= p < i + 1 && evictable(keys, recent, saved, #[trigger] s[p].0)
                            implies goes_first(f, s[p].0) by {
                            if p < i {
                                assert(goes_first(s[best as int].0, s[p].0));
                            }
                        }
                    }
                    best = i;
                    best_rank = r;
                }
            }
            i = i + 1;
        }
        let ghost victim = s[best as int].0;
        proof {
            assert forall|k: u32| #[trigger] evictable(keys, recent, saved, k) implies goes_first(
                victim,
                k,
            ) by {
                let p = pos_of(s, k);
                assert(s[p].0 == k);
            }
            lemma_victim_unique(keys, recent, saved, victim);
        }
        self.entries.remove(best);
        proof {
            let t = pairs_of(self.entries@);
            assert(t =~= s.remove(best as int));
            lemma_remove_at(s, best as int);
        }
    }
}

} // verus!
