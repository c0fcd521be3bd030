//! A fixed-capacity least-recently-used cache.
//!
//! Entries live in an arena of nodes chained into a doubly linked list that
//! is bounded by two sentinel nodes (a head and a tail, stored in the first
//! two arena slots). The node nearest the head is the most recently touched
//! entry; the node nearest the tail is the least recently touched one. A hash
//! index maps each key to the arena slot of its node, so lookup, insert and
//! recency update all run in expected constant time.
//!
//! The abstract state of a cache is a sequence of key-value pairs ordered
//! from most recently to least recently touched; every operation is specified
//! against that sequence.

use core::hash::Hash;
use rustc_hash::FxBuildHasher;
use std::collections::HashMap;
use vstd::prelude::*;
use vstd::std_specs::hash::obeys_key_model;

verus! {

/// Error returned when a cache is constructed with a zero capacity.
#[derive(Debug, Clone, Copy, PartialEq, Eq, Structural)]
pub enum CacheError {
    InvalidCapacity,
}

// ---------------------------------------------------------------------------
// The abstract model: a sequence of key-value pairs, most recent first.
// ---------------------------------------------------------------------------

/// Whether some pair in `s` carries the key `k`.
pub open spec fn has_key<K, V>(s: Seq<(K, V)>, k: K) -> bool {
    exists|i: int| 0 <= i < s.len() && (#[trigger] s[i]).0 == k
}

/// The position of the pair carrying key `k` (meaningful when the keys of
/// `s` are distinct and `has_key(s, k)` holds).
pub open spec fn key_pos<K, V>(s: Seq<(K, V)>, k: K) -> int {
    choose|i: int| 0 <= i < s.len() && (#[trigger] s[i]).0 == k
}

/// The value stored under `k`, if any.
pub open spec fn lookup_key<K, V>(s: Seq<(K, V)>, k: K) -> Option<V> {
    if has_key(s, k) {
        Some(s[key_pos(s, k)].1)
    } else {
        None
    }
}

/// `s` without the pair carrying key `k` (unchanged when `k` is absent).
pub open spec fn without_key<K, V>(s: Seq<(K, V)>, k: K) -> Seq<(K, V)> {
    if has_key(s, k) {
        s.remove(key_pos(s, k))
    } else {
        s
    }
}

/// No two pairs of `s` carry the same key.
pub open spec fn distinct_keys<K, V>(s: Seq<(K, V)>) -> bool {
    forall|i: int, j: int| 0 <= i < j < s.len() ==> (#[trigger] s[i]).0 != (#[trigger] s[j]).0
}

/// The state after `put(k, v)` on a cache of capacity `cap` whose state is
/// `s`: any old pair for `k` goes away, the least recently used pair is
/// evicted when the cache would otherwise overflow, and `(k, v)` becomes the
/// most recent pair.
pub open spec fn after_put<K, V>(s: Seq<(K, V)>, cap: nat, k: K, v: V) -> Seq<(K, V)> {
    let t = without_key(s, k);
    let u = if t.len() == cap {
        t.drop_last()
    } else {
        t
    };
    seq![(k, v)] + u
}

/// The state after `get(k)` on a cache whose state is `s`: a hit moves the
/// pair for `k` to the front, a miss changes nothing.
pub open spec fn after_touch<K, V>(s: Seq<(K, V)>, k: K) -> Seq<(K, V)> {
    if has_key(s, k) {
        seq![(k, s[key_pos(s, k)].1)] + without_key(s, k)
    } else {
        s
    }
}

/// When the keys of `s` are distinct, `key_pos` names the one position that
/// carries `k`.
pub proof fn lemma_key_pos<K, V>(s: Seq<(K, V)>, k: K, i: int)
    requires
        distinct_keys(s),
        0 <= i < s.len(),
        s[i].0 == k,
    ensures
        has_key(s, k),
        key_pos(s, k) == i,
{
    assert(has_key(s, k));
    let j = key_pos(s, k);
    assert(0 <= j < s.len() && s[j].0 == k);
    if i < j {
        assert(s[i].0 != s[j].0);
    }
    if j < i {
        assert(s[j].0 != s[i].0);
    }
}

/// The state after a whole sequence of puts, applied front to back.
pub open spec fn after_puts<K, V>(s: Seq<(K, V)>, cap: nat, ps: Seq<(K, V)>) -> Seq<(K, V)>
    decreases ps.len(),
{
    if ps.len() == 0 {
        s
    } else {
        after_puts(after_put(s, cap, ps[0].0, ps[0].1), cap, ps.skip(1))
    }
}

/// Removing the pair for one key keeps the remaining keys distinct, removes
/// `k` completely, and leaves every other key bound to the same value.
pub proof fn lemma_without_key<K, V>(s: Seq<(K, V)>, k: K)
    requires
        distinct_keys(s),
    ensures
        distinct_keys(without_key(s, k)),
        !has_key(without_key(s, k), k),
        forall|k2: K| k2 != k ==> has_key(without_key(s, k), k2) == has_key(s, k2),
        forall|k2: K| k2 != k ==> #[trigger] lookup_key(without_key(s, k), k2) == lookup_key(
            s,
            k2,
        ),
{
    if has_key(s, k) {
        let p = key_pos(s, k);
        assert(0 <= p < s.len() && s[p].0 == k);
        let t = s.remove(p);
        assert(forall|i: int| 0 <= i < p ==> #[trigger] t[i] == s[i]);
        assert(forall|i: int| p <= i < t.len() ==> #[trigger] t[i] == s[i + 1]);
        assert forall|i: int| 0 <= i < t.len() implies (#[trigger] t[i]).0 != k by {
            let oi = if i < p { i } else { i + 1 };
            assert(t[i] == s[oi]);
            if s[oi].0 == k {
                lemma_key_pos(s, k, oi);
            }
        }
        assert(!has_key(t, k));
        assert forall|k2: K| k2 != k implies has_key(t, k2) == has_key(s, k2) by {
            if has_key(s, k2) {
                let i = key_pos(s, k2);
                assert(0 <= i < s.len() && s[i].0 == k2);
                let ni = if i < p { i } else { i - 1 };
                assert(t[ni] == s[i]);
                assert(has_key(t, k2));
            }
            if has_key(t, k2) {
                let i = key_pos(t, k2);
                assert(0 <= i < t.len() && t[i].0 == k2);
                let oi = if i < p { i } else { i + 1 };
                assert(t[i] == s[oi]);
                assert(has_key(s, k2));
            }
        }
        assert forall|k2: K| k2 != k implies #[trigger] lookup_key(t, k2) == lookup_key(
            s,
            k2,
        ) by {
            if has_key(s, k2) {
                let i = key_pos(s, k2);
                assert(0 <= i < s.len() && s[i].0 == k2);
                let ni = if i < p { i } else { i - 1 };
                assert(t[ni] == s[i]);
                lemma_key_pos(t, k2, ni);
                lemma_key_pos(s, k2, i);
            }
        }
    }
}

/// After a put, `(k, v)` is the front pair and `k` occurs nowhere else; the
/// keys stay distinct.
pub proof fn lemma_after_put_shape<K, V>(s: Seq<(K, V)>, cap: nat, k: K, v: V)
    requires
        distinct_keys(s),
        cap >= 1,
    ensures
        distinct_keys(after_put(s, cap, k, v)),
        after_put(s, cap, k, v)[0] == (k, v),
        forall|i: int|
            1 <= i < after_put(s, cap, k, v).len() ==> (#[trigger] after_put(s, cap, k, v)[i]).0
                != k,
{
    lemma_without_key(s, k);
    let t = without_key(s, k);
    let u = if t.len() == cap {
        t.drop_last()
    } else {
        t
    };
    let r = after_put(s, cap, k, v);
    assert(forall|i: int| 0 <= i < u.len() ==> #[trigger] u[i] == t[i]);
    assert forall|i: int| 1 <= i < r.len() implies (#[trigger] r[i]).0 != k by {
        assert(r[i] == t[i - 1]);
        if t[i - 1].0 == k {
            assert(has_key(t, k));
        }
    }
    assert forall|i: int, j: int| 0 <= i < j < r.len() implies (#[trigger] r[i]).0 != (
    #[trigger] r[j]).0 by {
        if i >= 1 {
            assert(r[i] == t[i - 1]);
            assert(r[j] == t[j - 1]);
        }
    }
}

/// **Round trip.** For every key and value, `put(key, value)` followed
/// immediately by `get(key)` returns `Some(value)`.
pub proof fn lemma_put_round_trip<K, V>(s: Seq<(K, V)>, cap: nat, k: K, v: V)
    requires
        distinct_keys(s),
        cap >= 1,
    ensures
        lookup_key(after_put(s, cap, k, v), k) == Some(v),
        has_key(after_put(s, cap, k, v), k),
{
    lemma_after_put_shape(s, cap, k, v);
    let r = after_put(s, cap, k, v);
    lemma_key_pos(r, k, 0);
}

/// **Capacity bound.** A put never grows the cache past its capacity, and a
/// get keeps the length; so `len() <= cap()` holds after every call on a
/// cache that satisfied it before.
pub proof fn lemma_capacity_bound<K, V>(s: Seq<(K, V)>, cap: nat, k: K, v: V)
    requires
        s.len() <= cap,
        cap >= 1,
    ensures
        after_put(s, cap, k, v).len() <= cap,
        after_touch(s, k).len() == s.len(),
{
}

/// **Idempotent re-insert.** Two puts of the same pair in a row leave the
/// same state as one put alone; in particular the length after the second
/// put equals the length after the first.
pub proof fn lemma_reinsert_idempotent<K, V>(s: Seq<(K, V)>, cap: nat, k: K, v: V)
    requires
        distinct_keys(s),
        s.len() <= cap,
        cap >= 1,
    ensures
        after_put(after_put(s, cap, k, v), cap, k, v) == after_put(s, cap, k, v),
        after_put(after_put(s, cap, k, v), cap, k, v).len() == after_put(s, cap, k, v).len(),
{
    lemma_after_put_shape(s, cap, k, v);
    let r = after_put(s, cap, k, v);
    lemma_key_pos(r, k, 0);
    assert(r.len() <= cap) by {
        lemma_capacity_bound(s, cap, k, v);
    }
    let t2 = without_key(r, k);
    assert(t2 == r.remove(0));
    assert(t2.len() < cap);
    let r2 = after_put(r, cap, k, v);
    assert(r2 =~= r);
}

/// How a run of puts of fresh, pairwise distinct keys into a cache with
/// enough room unfolds: each pair lands at the front, so the state is the
/// reversed run followed by the old state.
proof fn lemma_puts_fresh<K, V>(s: Seq<(K, V)>, cap: nat, ps: Seq<(K, V)>)
    requires
        distinct_keys(s),
        distinct_keys(ps),
        forall|j: int| 0 <= j < ps.len() ==> !has_key(s, (#[trigger] ps[j]).0),
        s.len() + ps.len() <= cap,
    ensures
        after_puts(s, cap, ps) == ps.reverse() + s,
        distinct_keys(after_puts(s, cap, ps)),
    decreases ps.len(),
{
    if ps.len() == 0 {
        assert(after_puts(s, cap, ps) =~= ps.reverse() + s);
    } else {
        let k = ps[0].0;
        let v = ps[0].1;
        assert(!has_key(s, k));
        assert(without_key(s, k) == s);
        let s1 = after_put(s, cap, k, v);
        assert(s1 == seq![(k, v)] + s);
        lemma_after_put_shape(s, cap, k, v);
        assert(s1[0] == (k, v));
        let rest = ps.skip(1);
        assert(forall|j: int| 0 <= j < rest.len() ==> #[trigger] rest[j] == ps[j + 1]);
        assert forall|i: int, j: int|
            0 <= i < j < rest.len() implies (#[trigger] rest[i]).0 != (#[trigger] rest[j]).0 by {
            assert(ps[i + 1].0 != ps[j + 1].0);
        }
        assert forall|j: int| 0 <= j < rest.len() implies !has_key(s1, (#[trigger] rest[j]).0) by {
            assert(rest[j] == ps[j + 1]);
            assert(ps[j + 1].0 != k);
            if has_key(s1, ps[j + 1].0) {
                let i = key_pos(s1, ps[j + 1].0);
                assert(0 <= i < s1.len() && s1[i].0 == ps[j + 1].0);
                assert(i >= 1);
                assert(s1[i] == s[i - 1]);
                assert(has_key(s, ps[j + 1].0));
            }
        }
        lemma_puts_fresh(s1, cap, rest);
        assert(after_puts(s, cap, ps) == rest.reverse() + s1);
        assert(rest.reverse() + s1 =~= ps.reverse() + s);
    }
}

/// **Eviction correctness.** Inserting `capacity + 1` pairwise distinct keys
/// into an empty cache, with no intervening gets, evicts exactly the first
/// key: the final state lists the last `capacity` pairs, newest first, and
/// every key but the first is still present.
pub proof fn lemma_eviction_first_key<K, V>(cap: nat, ps: Seq<(K, V)>)
    requires
        cap >= 1,
        ps.len() == cap + 1,
        distinct_keys(ps),
    ensures
        after_puts(Seq::<(K, V)>::empty(), cap, ps).len() == cap,
        forall|i: int|
            0 <= i < cap ==> #[trigger] after_puts(Seq::<(K, V)>::empty(), cap, ps)[i] == ps[
                cap - i],
        !has_key(after_puts(Seq::<(K, V)>::empty(), cap, ps), ps[0].0),
        forall|j: int|
            1 <= j < ps.len() ==> has_key(
                after_puts(Seq::<(K, V)>::empty(), cap, ps),
                (#[trigger] ps[j]).0,
            ),
{
    let e = Seq::<(K, V)>::empty();
    let front = ps.take(cap as int);
    assert(forall|j: int| 0 <= j < front.len() ==> #[trigger] front[j] == ps[j]);
    assert forall|i: int, j: int|
        0 <= i < j < front.len() implies (#[trigger] front[i]).0 != (#[trigger] front[j]).0 by {
        assert(ps[i].0 != ps[j].0);
    }
    lemma_puts_split(e, cap, ps, cap as int);
    lemma_puts_fresh(e, cap, front);
    let a = after_puts(e, cap, front);
    assert(a =~= front.reverse());
    assert(forall|i: int| 0 <= i < cap ==> #[trigger] a[i] == ps[cap - 1 - i]);
    let tail = ps.skip(cap as int);
    assert(tail.len() == 1);
    assert(tail[0] == ps[cap as int]);
    let k = ps[cap as int].0;
    let v = ps[cap as int].1;
    assert forall|i: int| 0 <= i < a.len() implies (#[trigger] a[i]).0 != k by {
        assert(a[i] == ps[cap - 1 - i]);
        assert(ps[cap - 1 - i].0 != ps[cap as int].0);
    }
    assert(!has_key(a, k));
    assert(without_key(a, k) == a);
    let r = after_put(a, cap, k, v);
    assert(r == seq![(k, v)] + a.drop_last());
    assert(after_puts(a, cap, tail) == after_puts(after_put(a, cap, k, v), cap, tail.skip(1)));
    assert(tail.skip(1).len() == 0);
    assert(after_puts(e, cap, ps) == r);
    assert(r.len() == cap);
    assert forall|i: int| 0 <= i < cap implies #[trigger] r[i] == ps[cap - i] by {
        if i >= 1 {
            assert(r[i] == a.drop_last()[i - 1]);
            assert(a.drop_last()[i - 1] == a[i - 1]);
            assert(a[i - 1] == ps[cap - i]);
        }
    }
    assert forall|i: int| 0 <= i < r.len() implies (#[trigger] r[i]).0 != ps[0].0 by {
        assert(r[i] == ps[cap - i]);
        assert(ps[cap - i].0 != ps[0].0);
    }
    assert(!has_key(r, ps[0].0));
    assert forall|j: int| 1 <= j < ps.len() implies has_key(r, (#[trigger] ps[j]).0) by {
        assert(r[cap - j] == ps[j]);
    }
}

/// Running a sequence of puts is the same as running a prefix and then the
/// remainder.
proof fn lemma_puts_split<K, V>(s: Seq<(K, V)>, cap: nat, ps: Seq<(K, V)>, n: int)
    requires
        0 <= n <= ps.len(),
    ensures
        after_puts(s, cap, ps) == after_puts(after_puts(s, cap, ps.take(n)), cap, ps.skip(n)),
    decreases n,
{
    if n == 0 {
        assert(ps.take(0).len() == 0);
        assert(ps.skip(0) =~= ps);
    } else {
        let s1 = after_put(s, cap, ps[0].0, ps[0].1);
        lemma_puts_split(s1, cap, ps.skip(1), n - 1);
        assert(ps.take(n)[0] == ps[0]);
        assert(ps.take(n).skip(1) =~= ps.skip(1).take(n - 1));
        assert(ps.skip(1).skip(n - 1) =~= ps.skip(n));
        assert(after_puts(s, cap, ps.take(n)) == after_puts(s1, cap, ps.skip(1).take(n - 1)));
    }
}

/// **Recency refresh.** When the cache is full and `k` is the entry that the
/// next eviction would remove, a `get(k)` protects it: a following put of a
/// fresh key evicts some other entry, while without the get that same put
/// would have evicted `k`. (With a capacity of 1 there is no other entry to
/// evict, so the law speaks of capacities of at least 2.)
pub proof fn lemma_recency_refresh<K, V>(s: Seq<(K, V)>, cap: nat, k: K, k2: K, v2: V)
    requires
        distinct_keys(s),
        s.len() == cap,
        cap >= 2,
        s.last().0 == k,
        !has_key(s, k2),
    ensures
        !has_key(after_put(s, cap, k2, v2), k),
        has_key(after_put(after_touch(s, k), cap, k2, v2), k),
{
    let last = s.len() - 1;
    lemma_key_pos(s, k, last);
    assert(k2 != k);
    // without the get: the put of `k2` drops the last pair, which carries `k`
    assert(without_key(s, k2) == s);
    let r1 = after_put(s, cap, k2, v2);
    assert(r1 == seq![(k2, v2)] + s.drop_last());
    assert forall|i: int| 0 <= i < r1.len() implies (#[trigger] r1[i]).0 != k by {
        if i >= 1 {
            assert(r1[i] == s[i - 1]);
            if s[i - 1].0 == k {
                lemma_key_pos(s, k, i - 1);
            }
        }
    }
    assert(!has_key(r1, k));
    // with the get: `k` moves to the front and survives the eviction
    let m = after_touch(s, k);
    assert(m == seq![(k, s[last].1)] + s.remove(last));
    assert(m.len() == cap);
    assert forall|i: int| 0 <= i < m.len() implies (#[trigger] m[i]).0 != k2 by {
        if i >= 1 {
            assert(m[i] == s.remove(last)[i - 1]);
            assert(s.remove(last)[i - 1] == s[i - 1]);
            if s[i - 1].0 == k2 {
                assert(has_key(s, k2));
            }
        }
    }
    assert(!has_key(m, k2));
    assert(without_key(m, k2) == m);
    let r2 = after_put(m, cap, k2, v2);
    assert(r2 == seq![(k2, v2)] + m.drop_last());
    assert(m.drop_last()[0] == m[0]);
    assert(r2[1] == (k, s[last].1));
    assert(has_key(r2, k));
}

// ---------------------------------------------------------------------------
// The hash index, an FxHashMap from keys to arena slots.
// ---------------------------------------------------------------------------

#[verifier::external_type_specification]
#[verifier::external_body]
pub struct ExFxBuildHasher(FxBuildHasher);

/// The hash index type: std's `HashMap` with the `FxHasher` hash function.
type Index<K> = HashMap<K, usize, FxBuildHasher>;

/// Relies on `HashMap::default` with `rustc_hash::FxBuildHasher`: a freshly
/// built map holds no entries.
#[verifier::external_body]
fn index_new<K: Eq + Hash>() -> (m: Index<K>)
    ensures
        m@.dom() == Set::<K>::empty(),
{
    HashMap::default()
}

/// Relies on `HashMap::contains_key`. `rustc_hash::FxBuildHasher` builds
/// `FxHasher`, a deterministic, unseeded hasher, so the map behaves as its
/// documentation states whenever the key type hashes and compares
/// consistently (`obeys_key_model`).
#[verifier::external_body]
fn index_contains<K: Eq + Hash>(m: &Index<K>, k: &K) -> (r: bool)
    ensures
        obeys_key_model::<K>() ==> r == m@.contains_key(*k),
{
    m.contains_key(k)
}

/// Relies on `HashMap::get`, under the same reading as `index_contains`.
#[verifier::external_body]
fn index_get<K: Eq + Hash>(m: &Index<K>, k: &K) -> (r: Option<usize>)
    ensures
        obeys_key_model::<K>() ==> r == (if m@.contains_key(*k) {
            Some(m@[*k])
        } else {
            None::<usize>
        }),
{
    m.get(k).copied()
}

/// Relies on `HashMap::insert`, under the same reading as `index_contains`.
#[verifier::external_body]
fn index_insert<K: Eq + Hash>(m: &mut Index<K>, k: K, slot: usize)
    ensures
        obeys_key_model::<K>() ==> final(m)@ == old(m)@.insert(k, slot),
{
    m.insert(k, slot);
}

/// Relies on `HashMap::remove`, under the same reading as `index_contains`.
#[verifier::external_body]
fn index_remove<K: Eq + Hash>(m: &mut Index<K>, k: &K)
    ensures
        obeys_key_model::<K>() ==> final(m)@ == old(m)@.remove(*k),
{
    m.remove(k);
}

// ---------------------------------------------------------------------------
// Nodes and the cache itself.
// ---------------------------------------------------------------------------

/// An arena node: either a real entry (key and value present) or one of the
/// two sentinels (key and value absent). `prev` and `next` are arena slots,
/// never owning references, so the chain cannot form an ownership cycle.
struct Node<K, V> {
    key: Option<K>,
    val: Option<V>,
    prev: usize,
    next: usize,
}

impl<K, V> Node<K, V> {
    /// A detached node carrying `k` and `v`; its links are set when the node
    /// is chained in.
    fn new(k: K, v: V) -> (r: Self)
        ensures
            r.key == Some(k),
            r.val == Some(v),
    {
        Node { key: Some(k), val: Some(v), prev: 0, next: 0 }
    }
}

/// A least-recently-used cache with a fixed capacity.
pub struct LruCache<K: Eq + Hash + Copy, V> {
    /// Maps each stored key to the arena slot of its node.
    map: Index<K>,
    /// The node arena. Slot 0 is the head sentinel, slot 1 the tail sentinel.
    nodes: Vec<Node<K, V>>,
    /// Number of real entries.
    len: usize,
    /// Capacity fixed at construction; always at least 1.
    cap: usize,
    /// The arena slots of the real entries, most recently touched first.
    order: Ghost<Seq<int>>,
}

impl<K: Eq + Hash + Copy, V> View for LruCache<K, V> {
    type V = Seq<(K, V)>;

    closed spec fn view(&self) -> Seq<(K, V)> {
        Seq::new(self.order@.len(), |i: int| (self.nth_key(i), self.nth_val(i)))
    }
}

impl<K: Eq + Hash + Copy, V> LruCache<K, V> {
    /// The key of the `i`-th most recently touched entry.
    closed spec fn nth_key(self, i: int) -> K {
        self.nodes@[self.order@[i]].key.unwrap()
    }

    /// The value of the `i`-th most recently touched entry.
    closed spec fn nth_val(self, i: int) -> V {
        self.nodes@[self.order@[i]].val.unwrap()
    }

    /// The `i`-th entry slot is a real node whose links place it correctly
    /// within the recency chain.
    closed spec fn slot_ok(self, i: int) -> bool {
        let ord = self.order@;
        let n = self.nodes@;
        &&& 2 <= ord[i] < n.len()
        &&& n[ord[i]].key is Some
        &&& n[ord[i]].val is Some
        &&& n[ord[i]].prev as int == (if i == 0 {
            0int
        } else {
            ord[i - 1]
        })
        &&& n[ord[i]].next as int == (if i == ord.len() - 1 {
            1int
        } else {
            ord[i + 1]
        })
    }

    /// The doubly linked chain walks exactly the slots of `order`, in order,
    /// between the two sentinels.
    closed spec fn links_ok(self) -> bool {
        let ord = self.order@;
        let n = self.nodes@;
        &&& n.len() >= 2
        &&& forall|i: int| 0 <= i < ord.len() ==> #[trigger] self.slot_ok(i)
        &&& forall|i: int, j: int|
            #![trigger ord[i], ord[j]]
            0 <= i < j < ord.len() ==> ord[i] != ord[j]
        &&& n[0].next as int == (if ord.len() == 0 {
            1int
        } else {
            ord[0]
        })
        &&& n[1].prev as int == (if ord.len() == 0 {
            0int
        } else {
            ord[ord.len() - 1]
        })
    }

    /// The hash index and the chain list exactly the same entries.
    closed spec fn index_ok(self) -> bool {
        let ord = self.order@;
        let m = self.map@;
        &&& forall|i: int|
            0 <= i < ord.len() ==> m.contains_key(#[trigger] self.nth_key(i)) && m[self.nth_key(
                i,
            )] as int == ord[i]
        &&& forall|k: K|
            #[trigger] m.contains_key(k) ==> exists|i: int|
                0 <= i < ord.len() && #[trigger] self.nth_key(i) == k
    }

    /// The cache invariant: a consistent chain and index, and a entry count
    /// within the fixed capacity.
    pub closed spec fn wf(self) -> bool {
        &&& self.links_ok()
        &&& self.index_ok()
        &&& self.len == self.order@.len()
        &&& 1 <= self.cap
        &&& self.len <= self.cap
    }

    /// The capacity fixed at construction.
    pub closed spec fn spec_cap(self) -> nat {
        self.cap as nat
    }

    /// In a well-formed cache no two entries carry the same key.
    proof fn lemma_wf_distinct(self)
        requires
            self.wf(),
        ensures
            distinct_keys(self@),
    {
        assert forall|i: int, j: int|
            0 <= i < j < self@.len() implies (#[trigger] self@[i]).0 != (#[trigger] self@[j]).0 by {
            if self.nth_key(i) == self.nth_key(j) {
                assert(self.map@[self.nth_key(i)] as int == self.order@[i]);
                assert(self.map@[self.nth_key(j)] as int == self.order@[j]);
            }
        }
    }

    /// The nodes of `b` differ from those of `a` at most in their links;
    /// every key and value is unchanged.
    closed spec fn same_payload(a: Self, b: Self) -> bool {
        &&& b.nodes@.len() == a.nodes@.len()
        &&& forall|j: int|
            0 <= j < a.nodes@.len() ==> (#[trigger] b.nodes@[j]).key == a.nodes@[j].key
                && b.nodes@[j].val == a.nodes@[j].val
    }

    /// Removes the node at arena slot `slot` (the entry at position `pos` of
    /// the recency order) from the chain by linking its two neighbours to
    /// each other. The node's own links become stale until it is relinked.
    fn unlink(&mut self, slot: usize, Ghost(pos): Ghost<int>)
        requires
            old(self).links_ok(),
            0 <= pos < old(self).order@.len(),
            old(self).order@[pos] == slot as int,
        ensures
            final(self).links_ok(),
            final(self).order@ == old(self).order@.remove(pos),
            Self::same_payload(*old(self), *final(self)),
            final(self).map == old(self).map,
            final(self).len == old(self).len,
            final(self).cap == old(self).cap,
    {
        proof {
            assert(old(self).slot_ok(pos));
            if pos > 0 {
                assert(old(self).slot_ok(pos - 1));
            }
            if pos < old(self).order@.len() - 1 {
                assert(old(self).slot_ok(pos + 1));
            }
        }
        let p = self.nodes[slot].prev;
        let n = self.nodes[slot].next;
        self.nodes[p].next = n;
        self.nodes[n].prev = p;
        proof {
            self.order@ = self.order@.remove(pos);
            let s0 = *old(self);
            let s1 = *self;
            let ord0 = s0.order@;
            let ord1 = s1.order@;
            assert(p as int == (if pos == 0 { 0int } else { ord0[pos - 1] }));
            assert(n as int == (if pos == ord0.len() - 1 { 1int } else { ord0[pos + 1] }));
            assert forall|i: int| 0 <= i < ord1.len() implies s1.slot_ok(i) by {
                let oi = if i < pos { i } else { i + 1 };
                assert(ord1[i] == ord0[oi]);
                assert(s0.slot_ok(oi));
                if oi > 0 {
                    assert(s0.slot_ok(oi - 1));
                }
                if oi < ord0.len() - 1 {
                    assert(s0.slot_ok(oi + 1));
                }
                if i > 0 {
                    assert(ord1[i - 1] == ord0[if i - 1 < pos { i - 1 } else { i }]);
                }
                if i < ord1.len() - 1 {
                    assert(ord1[i + 1] == ord0[if i + 1 < pos { i + 1 } else { i + 2 }]);
                }
            }
            assert(s1.links_ok());
        }
    }

    /// Inserts the detached node at arena slot `slot` immediately after the
    /// head sentinel, making it the most recently touched entry.
    fn add_to_front(&mut self, slot: usize)
        requires
            old(self).links_ok(),
            2 <= slot < old(self).nodes@.len(),
            forall|i: int| 0 <= i < old(self).order@.len() ==> old(self).order@[i] != slot as int,
            old(self).nodes@[slot as int].key is Some,
            old(self).nodes@[slot as int].val is Some,
        ensures
            final(self).links_ok(),
            final(self).order@ == seq![slot as int] + old(self).order@,
            Self::same_payload(*old(self), *final(self)),
            final(self).map == old(self).map,
            final(self).len == old(self).len,
            final(self).cap == old(self).cap,
    {
        proof {
            if old(self).order@.len() > 0 {
                assert(old(self).slot_ok(0));
            }
        }
        let first = self.nodes[0].next;
        self.nodes[0].next = slot;
        self.nodes[slot].prev = 0;
        self.nodes[slot].next = first;
        self.nodes[first].prev = slot;
        proof {
            self.order@ = seq![slot as int] + self.order@;
            let s0 = *old(self);
            let s1 = *self;
            let ord0 = s0.order@;
            let ord1 = s1.order@;
            assert(first as int == (if ord0.len() == 0 { 1int } else { ord0[0] }));
            assert forall|i: int| 0 <= i < ord1.len() implies s1.slot_ok(i) by {
                if i == 0 {
                    assert(ord1[0] == slot as int);
                } else {
                    assert(ord1[i] == ord0[i - 1]);
                    assert(s0.slot_ok(i - 1));
                    if i - 1 > 0 {
                        assert(s0.slot_ok(i - 2));
                    }
                    if i - 1 < ord0.len() - 1 {
                        assert(s0.slot_ok(i));
                    }
                }
            }
            assert(s1.links_ok());
        }
    }

    /// Moves the entry at slot `slot` (position `pos` of the recency order)
    /// to the front of the chain. A node that is already the most recent
    /// entry is left in place.
    fn move_node_to_front(&mut self, slot: usize, Ghost(pos): Ghost<int>)
        requires
            old(self).links_ok(),
            0 <= pos < old(self).order@.len(),
            old(self).order@[pos] == slot as int,
        ensures
            final(self).links_ok(),
            final(self).order@ == seq![slot as int] + old(self).order@.remove(pos),
            Self::same_payload(*old(self), *final(self)),
            final(self).map == old(self).map,
            final(self).len == old(self).len,
            final(self).cap == old(self).cap,
    {
        proof {
            assert(old(self).slot_ok(pos));
        }
        if self.nodes[0].next == slot {
            proof {
                // the node is already at the front: `pos` must be 0, and
                // re-prepending the first slot changes nothing
                assert(self.order@[0] == slot as int);
                if pos != 0 {
                    assert(self.order@[0] != self.order@[pos]);
                }
                assert(pos == 0);
                assert(seq![slot as int] + self.order@.remove(0) =~= self.order@);
            }
            return ;
        }
        self.unlink(slot, Ghost(pos));
        proof {
            assert forall|i: int|
                0 <= i < self.order@.len() implies self.order@[i] != slot as int by {
                let oi = if i < pos { i } else { i + 1 };
                assert(self.order@[i] == old(self).order@[oi]);
            }
        }
        self.add_to_front(slot);
    }

    /// Unlinks the least recently touched entry (the node just before the
    /// tail sentinel) and returns its arena slot, or `None` when the cache is
    /// empty. The entry count and the hash index are left for the caller to
    /// update.
    fn remove_tail(&mut self) -> (r: Option<usize>)
        requires
            old(self).links_ok(),
            old(self).len == old(self).order@.len(),
        ensures
            old(self).len == 0 ==> r is None && *final(self) == *old(self),
            old(self).len > 0 ==> {
                &&& r matches Some(s) && s as int == old(self).order@.last()
                &&& final(self).order@ == old(self).order@.drop_last()
                &&& final(self).links_ok()
                &&& Self::same_payload(*old(self), *final(self))
                &&& final(self).map == old(self).map
                &&& final(self).len == old(self).len
                &&& final(self).cap == old(self).cap
            },
    {
        if self.len == 0 {
            return None;
        }
        proof {
            assert(self.slot_ok(self.order@.len() - 1));
        }
        let slot = self.nodes[1].prev;
        self.unlink(slot, Ghost(self.order@.len() - 1));
        proof {
            assert(old(self).order@.remove(old(self).order@.len() - 1)
                =~= old(self).order@.drop_last());
        }
        Some(slot)
    }

    /// Creates a cache that can hold `cap` entries; a zero capacity is
    /// rejected with `CacheError::InvalidCapacity`.
    pub fn new(cap: usize) -> (r: Result<Self, CacheError>)
        ensures
            cap == 0 <==> r is Err,
            r is Err ==> r->Err_0 == CacheError::InvalidCapacity,
            r matches Ok(c) ==> c.wf() && c@ == Seq::<(K, V)>::empty() && c.spec_cap() == cap,
    {
        if cap == 0 {
            return Err(CacheError::InvalidCapacity);
        }
        let mut nodes: Vec<Node<K, V>> = Vec::new();
        nodes.push(Node { key: None, val: None, prev: 0, next: 1 });
        nodes.push(Node { key: None, val: None, prev: 0, next: 1 });
        let c = LruCache {
            map: index_new(),
            nodes,
            len: 0,
            cap,
            order: Ghost(Seq::empty()),
        };
        proof {
            assert(c@ =~= Seq::<(K, V)>::empty());
            assert(forall|k: K| !(#[trigger] c.map@.contains_key(k)));
        }
        Ok(c)
    }

    /// The number of entries currently stored.
    pub fn len(&self) -> (r: usize)
        requires
            self.wf(),
        ensures
            r == self@.len(),
    {
        self.len
    }

    /// The capacity fixed at construction.
    pub fn cap(&self) -> (r: usize)
        requires
            self.wf(),
        ensures
            r == self.spec_cap(),
    {
        self.cap
    }

    /// Stores `v` under `k`. A key already present keeps its node and gets
    /// the new value; a new key evicts the least recently touched entry when
    /// the cache is full. Either way `(k, v)` becomes the most recent entry.
    #[verifier::rlimit(60)]
    pub fn put(&mut self, k: K, v: V)
        requires
            old(self).wf(),
            obeys_key_model::<K>(),
        ensures
            final(self).wf(),
            final(self)@ == after_put(old(self)@, old(self).spec_cap(), k, v),
            final(self).spec_cap() == old(self).spec_cap(),
            distinct_keys(final(self)@),
            final(self)@.len() <= final(self).spec_cap(),
    {
        let ghost s0 = *old(self);
        proof {
            s0.lemma_wf_distinct();
        }
        if index_contains(&self.map, &k) {
            proof {
                assert(exists|i: int|
                    0 <= i < s0.order@.len() && #[trigger] s0.nth_key(i) == k);
            }
            let ghost pos = choose|i: int|
                0 <= i < s0.order@.len() && #[trigger] s0.nth_key(i) == k;
            proof {
                assert(s0.map@[s0.nth_key(pos)] as int == s0.order@[pos]);
                assert(s0.slot_ok(pos));
            }
            let slot = index_get(&self.map, &k).unwrap();
            self.nodes[slot].val = Some(v);
            let ghost s1 = *self;
            proof {
                assert forall|i: int| 0 <= i < s1.order@.len() implies s1.slot_ok(i) by {
                    assert(s0.slot_ok(i));
                }
                assert(s1.links_ok());
            }
            self.move_node_to_front(slot, Ghost(pos));
            proof {
                let s2 = *self;
                let ord0 = s0.order@;
                let ord2 = s2.order@;
                // the index still lists exactly the chained entries
                assert forall|i: int|
                    0 <= i < ord2.len() implies s2.map@.contains_key(#[trigger] s2.nth_key(i))
                        && s2.map@[s2.nth_key(i)] as int == ord2[i] by {
                    if i == 0 {
                        assert(s2.nodes@[slot as int].key == s1.nodes@[slot as int].key);
                        assert(s2.nth_key(0) == k);
                    } else {
                        let oi = if i - 1 < pos { i - 1 } else { i };
                        assert(s0.slot_ok(oi));
                        assert(ord2[i] == ord0[oi]);
                        assert(ord0[oi] != ord0[pos]);
                        assert(s2.nodes@[ord0[oi]].key == s1.nodes@[ord0[oi]].key);
                        assert(s1.nodes@[ord0[oi]] == s0.nodes@[ord0[oi]]);
                        assert(s2.nth_key(i) == s0.nth_key(oi));
                        assert(s0.map@[s0.nth_key(oi)] as int == ord0[oi]);
                    }
                }
                assert forall|k2: K| #[trigger] s2.map@.contains_key(k2) implies exists|i: int|
                    0 <= i < ord2.len() && #[trigger] s2.nth_key(i) == k2 by {
                    let oi = choose|i: int|
                        0 <= i < ord0.len() && #[trigger] s0.nth_key(i) == k2;
                    if oi == pos {
                        assert(s2.nodes@[slot as int].key == s1.nodes@[slot as int].key);
                        assert(s2.nth_key(0) == k2);
                    } else {
                        let ni = if oi < pos { oi + 1 } else { oi };
                        assert(s0.slot_ok(oi));
                        assert(ord2[ni] == ord0[oi]);
                        assert(ord0[oi] != ord0[pos]);
                        assert(s2.nodes@[ord0[oi]].key == s1.nodes@[ord0[oi]].key);
                        assert(s1.nodes@[ord0[oi]] == s0.nodes@[ord0[oi]]);
                        assert(s2.nth_key(ni) == k2);
                    }
                }
                assert(s2.wf());
                // the view took the shape that `after_put` describes
                lemma_key_pos(s0@, k, pos);
                assert(without_key(s0@, k) == s0@.remove(pos));
                assert forall|i: int| 0 <= i < ord2.len() implies s2@[i] == after_put(
                    s0@,
                    s0.spec_cap(),
                    k,
                    v,
                )[i] by {
                    if i == 0 {
                        assert(s2.nodes@[slot as int].key == s1.nodes@[slot as int].key);
                        assert(s2.nodes@[slot as int].val == s1.nodes@[slot as int].val);
                        assert(s2@[0] == (k, v));
                    } else {
                        let oi = if i - 1 < pos { i - 1 } else { i };
                        assert(s0.slot_ok(oi));
                        assert(ord2[i] == ord0[oi]);
                        assert(ord0[oi] != ord0[pos]);
                        assert(s2.nodes@[ord0[oi]].key == s1.nodes@[ord0[oi]].key);
                        assert(s2.nodes@[ord0[oi]].val == s1.nodes@[ord0[oi]].val);
                        assert(s1.nodes@[ord0[oi]] == s0.nodes@[ord0[oi]]);
                        assert(s2@[i] == s0@[oi]);
                        assert(s0@.remove(pos)[i - 1] == s0@[oi]);
                    }
                }
                assert(s2@ =~= after_put(s0@, s0.spec_cap(), k, v));
                s2.lemma_wf_distinct();
            }
        } else {
            proof {
                // the key is nowhere in the cache
                assert forall|i: int|
                    0 <= i < s0.order@.len() implies (#[trigger] s0@[i]).0 != k by {
                    assert(s0.map@.contains_key(s0.nth_key(i)));
                }
                assert(!has_key(s0@, k));
            }
            if self.len == self.cap {
                proof {
                    assert(s0.slot_ok(s0.order@.len() - 1));
                }
                let tail_slot = self.remove_tail().unwrap();
                let ghost srt = *self;
                let dead = self.nodes[tail_slot].key.unwrap();
                proof {
                    assert(srt.nodes@[tail_slot as int].key == s0.nodes@[tail_slot as int].key);
                    assert(dead == s0.nth_key(s0.order@.len() - 1));
                }
                index_remove(&mut self.map, &dead);
                self.len = self.len - 1;
                self.nodes[tail_slot].key = Some(k);
                self.nodes[tail_slot].val = Some(v);
                let ghost s1 = *self;
                proof {
                    let ord0 = s0.order@;
                    let ord1 = s1.order@;
                    assert forall|i: int|
                        0 <= i < ord1.len() implies s1.slot_ok(i) && ord1[i]
                            != tail_slot as int by {
                        assert(srt.slot_ok(i));
                        assert(ord0[i] != ord0[ord0.len() - 1]);
                    }
                    assert(s1.links_ok());
                }
                self.add_to_front(tail_slot);
                let ghost sa = *self;
                index_insert(&mut self.map, k, tail_slot);
                self.len = self.len + 1;
                proof {
                    let s2 = *self;
                    assert forall|i: int| 0 <= i < s2.order@.len() implies s2.slot_ok(i) by {
                        assert(sa.slot_ok(i));
                    }
                    assert(s2.links_ok());
                    let ord0 = s0.order@;
                    let ord2 = s2.order@;
                    let m2 = s2.map@;
                    assert forall|i: int|
                        0 <= i < ord2.len() implies m2.contains_key(#[trigger] s2.nth_key(i))
                            && m2[s2.nth_key(i)] as int == ord2[i] by {
                        if i == 0 {
                            assert(s2.nodes@[tail_slot as int].key == s1.nodes@[tail_slot as int].key);
                            assert(s2.nth_key(0) == k);
                        } else {
                            assert(ord2[i] == ord0[i - 1]);
                            assert(s0.slot_ok(i - 1));
                            assert(ord0[i - 1] != ord0[ord0.len() - 1]);
                            assert(s2.nodes@[ord0[i - 1]].key == s1.nodes@[ord0[i - 1]].key);
                            assert(s1.nodes@[ord0[i - 1]].key == srt.nodes@[ord0[i - 1]].key);
                            assert(srt.nodes@[ord0[i - 1]].key == s0.nodes@[ord0[i - 1]].key);
                            assert(s2.nth_key(i) == s0.nth_key(i - 1));
                            assert(s0.map@[s0.nth_key(i - 1)] as int == ord0[i - 1]);
                            assert(s0.nth_key(i - 1) != s0.nth_key(ord0.len() - 1)) by {
                                if s0.nth_key(i - 1) == s0.nth_key(ord0.len() - 1) {
                                    assert(s0.map@[s0.nth_key(i - 1)] as int == ord0[i - 1]);
                                    assert(s0.map@[s0.nth_key(ord0.len() - 1)] as int == ord0[
                                        ord0.len() - 1]);
                                }
                            }
                            assert(s2.nth_key(i) != dead);
                            assert(s2.nth_key(i) != k);
                        }
                    }
                    assert forall|k2: K| #[trigger] m2.contains_key(k2) implies exists|i: int|
                        0 <= i < ord2.len() && #[trigger] s2.nth_key(i) == k2 by {
                        if k2 == k {
                            assert(s2.nodes@[tail_slot as int].key == s1.nodes@[tail_slot as int].key);
                            assert(s2.nth_key(0) == k2);
                        } else {
                            assert(s0.map@.contains_key(k2) && k2 != dead);
                            let oi = choose|i: int|
                                0 <= i < ord0.len() && #[trigger] s0.nth_key(i) == k2;
                            assert(oi != ord0.len() - 1);
                            assert(s0.slot_ok(oi));
                            assert(ord2[oi + 1] == ord0[oi]);
                            assert(ord0[oi] != ord0[ord0.len() - 1]);
                            assert(s2.nodes@[ord0[oi]].key == s1.nodes@[ord0[oi]].key);
                            assert(s1.nodes@[ord0[oi]].key == srt.nodes@[ord0[oi]].key);
                            assert(srt.nodes@[ord0[oi]].key == s0.nodes@[ord0[oi]].key);
                            assert(s2.nth_key(oi + 1) == k2);
                        }
                    }
                    assert(s2.wf());
                    assert(without_key(s0@, k) == s0@);
                    assert forall|i: int| 0 <= i < ord2.len() implies s2@[i] == after_put(
                        s0@,
                        s0.spec_cap(),
                        k,
                        v,
                    )[i] by {
                        if i == 0 {
                            assert(s2.nodes@[tail_slot as int].key == s1.nodes@[tail_slot as int].key);
                            assert(s2.nodes@[tail_slot as int].val == s1.nodes@[tail_slot as int].val);
                            assert(s2@[0] == (k, v));
                        } else {
                            assert(ord2[i] == ord0[i - 1]);
                            assert(s0.slot_ok(i - 1));
                            assert(ord0[i - 1] != ord0[ord0.len() - 1]);
                            assert(s2.nodes@[ord0[i - 1]].key == s1.nodes@[ord0[i - 1]].key);
                            assert(s2.nodes@[ord0[i - 1]].val == s1.nodes@[ord0[i - 1]].val);
                            assert(s1.nodes@[ord0[i - 1]] == srt.nodes@[ord0[i - 1]]);
                            assert(srt.nodes@[ord0[i - 1]].key == s0.nodes@[ord0[i - 1]].key);
                            assert(srt.nodes@[ord0[i - 1]].val == s0.nodes@[ord0[i - 1]].val);
                            assert(s2@[i] == s0@[i - 1]);
                            assert(s0@.drop_last()[i - 1] == s0@[i - 1]);
                        }
                    }
                    assert(s2@ =~= after_put(s0@, s0.spec_cap(), k, v));
                    s2.lemma_wf_distinct();
                }
            } else {
                let slot = self.nodes.len();
                self.nodes.push(Node::new(k, v));
                let ghost s1 = *self;
                proof {
                    assert forall|i: int|
                        0 <= i < s1.order@.len() implies s1.slot_ok(i) && s1.order@[i]
                            != slot as int by {
                        assert(s0.slot_ok(i));
                    }
                    assert(s1.links_ok());
                }
                self.add_to_front(slot);
                let ghost sa = *self;
                index_insert(&mut self.map, k, slot);
                self.len = self.len + 1;
                proof {
                    let s2 = *self;
                    assert forall|i: int| 0 <= i < s2.order@.len() implies s2.slot_ok(i) by {
                        assert(sa.slot_ok(i));
                    }
                    assert(s2.links_ok());
                    let ord0 = s0.order@;
                    let ord2 = s2.order@;
                    let m2 = s2.map@;
                    assert forall|i: int|
                        0 <= i < ord2.len() implies m2.contains_key(#[trigger] s2.nth_key(i))
                            && m2[s2.nth_key(i)] as int == ord2[i] by {
                        if i == 0 {
                            assert(s2.nodes@[slot as int].key == s1.nodes@[slot as int].key);
                            assert(s2.nth_key(0) == k);
                        } else {
                            assert(ord2[i] == ord0[i - 1]);
                            assert(s0.slot_ok(i - 1));
                            assert(s2.nodes@[ord0[i - 1]].key == s1.nodes@[ord0[i - 1]].key);
                            assert(s1.nodes@[ord0[i - 1]] == s0.nodes@[ord0[i - 1]]);
                            assert(s2.nth_key(i) == s0.nth_key(i - 1));
                            assert(s0.map@[s0.nth_key(i - 1)] as int == ord0[i - 1]);
                            assert(s2.nth_key(i) != k);
                        }
                    }
                    assert forall|k2: K| #[trigger] m2.contains_key(k2) implies exists|i: int|
                        0 <= i < ord2.len() && #[trigger] s2.nth_key(i) == k2 by {
                        if k2 == k {
                            assert(s2.nodes@[slot as int].key == s1.nodes@[slot as int].key);
                            assert(s2.nth_key(0) == k2);
                        } else {
                            let oi = choose|i: int|
                                0 <= i < ord0.len() && #[trigger] s0.nth_key(i) == k2;
                            assert(s0.slot_ok(oi));
                            assert(ord2[oi + 1] == ord0[oi]);
                            assert(s2.nodes@[ord0[oi]].key == s1.nodes@[ord0[oi]].key);
                            assert(s1.nodes@[ord0[oi]] == s0.nodes@[ord0[oi]]);
                            assert(s2.nth_key(oi + 1) == k2);
                        }
                    }
                    assert(s2.wf());
                    assert(without_key(s0@, k) == s0@);
                    assert forall|i: int| 0 <= i < ord2.len() implies s2@[i] == after_put(
                        s0@,
                        s0.spec_cap(),
                        k,
                        v,
                    )[i] by {
                        if i == 0 {
                            assert(s2.nodes@[slot as int].key == s1.nodes@[slot as int].key);
                            assert(s2.nodes@[slot as int].val == s1.nodes@[slot as int].val);
                            assert(s2@[0] == (k, v));
                        } else {
                            assert(ord2[i] == ord0[i - 1]);
                            assert(s0.slot_ok(i - 1));
                            assert(s2.nodes@[ord0[i - 1]].key == s1.nodes@[ord0[i - 1]].key);
                            assert(s2.nodes@[ord0[i - 1]].val == s1.nodes@[ord0[i - 1]].val);
                            assert(s1.nodes@[ord0[i - 1]] == s0.nodes@[ord0[i - 1]]);
                            assert(s2@[i] == s0@[i - 1]);
                        }
                    }
                    assert(s2@ =~= after_put(s0@, s0.spec_cap(), k, v));
                    s2.lemma_wf_distinct();
                }
            }
        }
    }

    /// Looks `k` up. A hit returns the stored value and refreshes the
    /// entry's recency; a miss returns `None` and changes nothing.
    pub fn get(&mut self, k: K) -> (r: Option<&V>)
        requires
            old(self).wf(),
            obeys_key_model::<K>(),
        ensures
            final(self).wf(),
            final(self)@ == after_touch(old(self)@, k),
            final(self).spec_cap() == old(self).spec_cap(),
            distinct_keys(final(self)@),
            has_key(old(self)@, k) ==> (r matches Some(v) && lookup_key(old(self)@, k) == Some(
                *v,
            )),
            !has_key(old(self)@, k) ==> r is None,
    {
        let ghost s0 = *old(self);
        proof {
            s0.lemma_wf_distinct();
        }
        if index_contains(&self.map, &k) {
            proof {
                assert(exists|i: int|
                    0 <= i < s0.order@.len() && #[trigger] s0.nth_key(i) == k);
            }
            let ghost pos = choose|i: int|
                0 <= i < s0.order@.len() && #[trigger] s0.nth_key(i) == k;
            proof {
                assert(s0.map@[s0.nth_key(pos)] as int == s0.order@[pos]);
                assert(s0.slot_ok(pos));
                lemma_key_pos(s0@, k, pos);
            }
            let slot = index_get(&self.map, &k).unwrap();
            self.move_node_to_front(slot, Ghost(pos));
            proof {
                let s2 = *self;
                let ord0 = s0.order@;
                let ord2 = s2.order@;
                assert forall|i: int|
                    0 <= i < ord2.len() implies s2.map@.contains_key(#[trigger] s2.nth_key(i))
                        && s2.map@[s2.nth_key(i)] as int == ord2[i] by {
                    if i == 0 {
                        assert(s2.nodes@[slot as int].key == s0.nodes@[slot as int].key);
                        assert(s2.nth_key(0) == k);
                    } else {
                        let oi = if i - 1 < pos { i - 1 } else { i };
                        assert(s0.slot_ok(oi));
                        assert(ord2[i] == ord0[oi]);
                        assert(s2.nodes@[ord0[oi]].key == s0.nodes@[ord0[oi]].key);
                        assert(s2.nth_key(i) == s0.nth_key(oi));
                        assert(s0.map@[s0.nth_key(oi)] as int == ord0[oi]);
                    }
                }
                assert forall|k2: K| #[trigger] s2.map@.contains_key(k2) implies exists|i: int|
                    0 <= i < ord2.len() && #[trigger] s2.nth_key(i) == k2 by {
                    let oi = choose|i: int|
                        0 <= i < ord0.len() && #[trigger] s0.nth_key(i) == k2;
                    if oi == pos {
                        assert(s2.nodes@[slot as int].key == s0.nodes@[slot as int].key);
                        assert(s2.nth_key(0) == k2);
                    } else {
                        let ni = if oi < pos { oi + 1 } else { oi };
                        assert(s0.slot_ok(oi));
                        assert(ord2[ni] == ord0[oi]);
                        assert(s2.nodes@[ord0[oi]].key == s0.nodes@[ord0[oi]].key);
                        assert(s2.nth_key(ni) == k2);
                    }
                }
                assert(s2.wf());
                assert(without_key(s0@, k) == s0@.remove(pos));
                assert forall|i: int| 0 <= i < ord2.len() implies s2@[i] == after_touch(
                    s0@,
                    k,
                )[i] by {
                    if i == 0 {
                        assert(s2.nodes@[slot as int].key == s0.nodes@[slot as int].key);
                        assert(s2.nodes@[slot as int].val == s0.nodes@[slot as int].val);
                        assert(s2@[0] == (k, s0@[pos].1));
                    } else {
                        let oi = if i - 1 < pos { i - 1 } else { i };
                        assert(s0.slot_ok(oi));
                        assert(ord2[i] == ord0[oi]);
                        assert(s2.nodes@[ord0[oi]].key == s0.nodes@[ord0[oi]].key);
                        assert(s2.nodes@[ord0[oi]].val == s0.nodes@[ord0[oi]].val);
                        assert(s2@[i] == s0@[oi]);
                        assert(s0@.remove(pos)[i - 1] == s0@[oi]);
                    }
                }
                assert(s2@ =~= after_touch(s0@, k));
                s2.lemma_wf_distinct();
                assert(s2.slot_ok(0));
                assert(s2.nodes@[slot as int].val == s0.nodes@[slot as int].val);
            }
            let node = &self.nodes[slot];
            let vr = node.val.as_ref().unwrap();
            proof {
                assert(*vr == s0.nth_val(pos));
                assert(s0@[pos].1 == s0.nth_val(pos));
            }
            Some(vr)
        } else {
            proof {
                assert forall|i: int|
                    0 <= i < s0.order@.len() implies (#[trigger] s0@[i]).0 != k by {
                    assert(s0.map@.contains_key(s0.nth_key(i)));
                }
                assert(!has_key(s0@, k));
            }
            None
        }
    }
}

} // verus!
