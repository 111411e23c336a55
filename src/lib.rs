//! A single-threaded hash map with open addressing and a Swiss-table style
//! control band probed sixteen slots at a time.
//!
//! The map keeps no keys: an entry is identified by the full 64-bit hash of
//! its key, so its abstract contents are a map from hashes to values.
use core::hash::Hash;
use core::marker::PhantomData;
use vstd::arithmetic::div_mod::{lemma_mod_sub_multiples_vanish, lemma_small_mod};
use vstd::arithmetic::power2::{
    lemma2_to64, lemma2_to64_rest, lemma_pow2_adds, lemma_pow2_pos, lemma_pow2_strictly_increases,
    lemma_pow2_unfold, pow2,
};
use vstd::bits::{lemma_u64_low_bits_mask_is_mod, low_bits_mask};
use vstd::prelude::*;

pub mod bitmask;

pub use bitmask::BitMask;

use bitmask::{lemma_or_offsets, GROUP_WIDTH};

verus! {

/// Control byte of a slot that has held no entry since the band was last
/// cleared. Its top bit is set, so it never equals a hash tag.
pub const EMPTY: u8 = 0b1111_1110;

/// Control byte of a tombstone: a slot whose entry was deleted.
pub const DELETED: u8 = 0b1000_0000;

/// The hash tag of a full hash: its low seven bits.
pub open spec fn spec_tag(hash: u64) -> u8 {
    (hash & 0x7f) as u8
}

/// The control byte that marks a slot holding an entry of hash `hash`.
pub fn ctrl_hash(hash: u64) -> (r: u8)
    ensures
        r == spec_tag(hash),
        r < 128,
{
    assert((hash & 0x7f) < 128) by (bit_vector);
    (hash & 0x7f) as u8
}

/// The number of slots in one probe window, and the capacity of a new map.
pub fn bucket_size() -> (r: usize)
    ensures
        r == 16,
{
    GROUP_WIDTH
}

/// Whether `n` is a power of two.
pub open spec fn is_power_of_two(n: nat) -> bool {
    exists|k: nat| pow2(k) == n
}

/// The answer of a lookup of hash `h` in the contents `m`.
pub open spec fn lookup<V>(m: Map<u64, V>, h: u64) -> Option<V> {
    if m.contains_key(h) {
        Some(m[h])
    } else {
        None
    }
}

/// The contents after applying `ops` in order to `m`, as `set_hashed` and
/// `delete_hashed` change them: `(h, Some(v))` sets the value of hash `h` to
/// `v`, `(h, None)` deletes the entry of `h`.
pub open spec fn replay<V>(m: Map<u64, V>, ops: Seq<(u64, Option<V>)>) -> Map<u64, V>
    decreases ops.len(),
{
    if ops.len() == 0 {
        m
    } else {
        let prev = replay(m, ops.drop_last());
        match ops.last().1 {
            Some(v) => prev.insert(ops.last().0, v),
            None => prev.remove(ops.last().0),
        }
    }
}

/// What the last operation of `ops` on hash `h` left: the value it set, or
/// `None` where it deleted; `before` where no operation of `ops` is on `h`.
pub open spec fn latest<V>(ops: Seq<(u64, Option<V>)>, h: u64, before: Option<V>) -> Option<V>
    decreases ops.len(),
{
    if ops.len() == 0 {
        before
    } else if ops.last().0 == h {
        ops.last().1
    } else {
        latest(ops.drop_last(), h, before)
    }
}

/// After any sequence of sets and deletes, a lookup of a hash answers the
/// value of the most recent set of it, and nothing where it was deleted
/// since (or was never set).
pub proof fn lemma_latest_write_wins<V>(m: Map<u64, V>, ops: Seq<(u64, Option<V>)>, h: u64)
    ensures
        lookup(replay(m, ops), h) == latest(ops, h, lookup(m, h)),
    decreases ops.len(),
{
    if ops.len() > 0 {
        lemma_latest_write_wins(m, ops.drop_last(), h);
    }
}

/// After any sequence of sets and deletes, the entries are exactly the hashes
/// that are live: set, and not deleted since. So `len()` counts them.
pub proof fn lemma_live_entries<V>(m: Map<u64, V>, ops: Seq<(u64, Option<V>)>)
    requires
        m.dom().finite(),
    ensures
        replay(m, ops).dom().finite(),
        replay(m, ops).dom() == Set::new(|h: u64| latest(ops, h, lookup(m, h)) is Some),
    decreases ops.len(),
{
    if ops.len() > 0 {
        lemma_live_entries(m, ops.drop_last());
    }
    assert forall|h: u64| #[trigger] replay(m, ops).dom().contains(h) == latest(ops, h, lookup(m, h)) is Some by {
        lemma_latest_write_wins(m, ops, h);
    }
    assert(replay(m, ops).dom() =~= Set::new(|h: u64| latest(ops, h, lookup(m, h)) is Some));
}

/// An occupied slot: the full hash of its key and its value.
struct Node<V> {
    hash: u64,
    value: V,
}

/// One slot of the slot array.
enum Slot<V> {
    Empty,
    Occupied(Node<V>),
}

spec fn slot_entry<V>(s: Slot<V>) -> Option<(u64, V)> {
    match s {
        Slot::Empty => None,
        Slot::Occupied(n) => Some((n.hash, n.value)),
    }
}

/// The number of the first `n` bytes of `s` that are hash tags (when `tombs`
/// is false) or tombstones (when it is true).
spec fn count_ctrl(s: Seq<u8>, n: nat, tombs: bool) -> nat
    decreases n,
{
    if n == 0 {
        0
    } else {
        count_ctrl(s, (n - 1) as nat, tombs) + if counted(s[n - 1], tombs) {
            1nat
        } else {
            0nat
        }
    }
}

/// Whether `count_ctrl` counts control byte `c`.
spec fn counted(c: u8, tombs: bool) -> bool {
    if tombs {
        c == DELETED
    } else {
        c < 128
    }
}

/// A control byte is `EMPTY`, `DELETED` or a hash tag.
spec fn valid_ctrl(c: u8) -> bool {
    c == EMPTY || c == DELETED || c < 128
}

/// Changing one byte below `n` changes the count by what the byte was and is.
proof fn lemma_count_update(s1: Seq<u8>, s2: Seq<u8>, n: nat, i: int, tombs: bool)
    requires
        0 <= i < n,
        n <= s1.len(),
        n <= s2.len(),
        forall|j: int| 0 <= j < n && j != i ==> s1[j] == s2[j],
    ensures
        count_ctrl(s2, n, tombs) + (if counted(s1[i], tombs) {
            1int
        } else {
            0int
        }) == count_ctrl(s1, n, tombs) + (if counted(s2[i], tombs) {
            1int
        } else {
            0int
        }),
    decreases n,
{
    if n - 1 > i {
        lemma_count_update(s1, s2, (n - 1) as nat, i, tombs);
    } else {
        lemma_count_same(s1, s2, (n - 1) as nat, tombs);
    }
}

/// The count reads only the first `n` bytes.
proof fn lemma_count_same(s1: Seq<u8>, s2: Seq<u8>, n: nat, tombs: bool)
    requires
        n <= s1.len(),
        n <= s2.len(),
        forall|j: int| 0 <= j < n ==> s1[j] == s2[j],
    ensures
        count_ctrl(s1, n, tombs) == count_ctrl(s2, n, tombs),
    decreases n,
{
    if n > 0 {
        lemma_count_same(s1, s2, (n - 1) as nat, tombs);
    }
}

/// A band of which no byte below `n` is a tag or a tombstone counts none.
proof fn lemma_count_none(s: Seq<u8>, n: nat, tombs: bool)
    requires
        n <= s.len(),
        forall|j: int| 0 <= j < n ==> s[j] == EMPTY,
    ensures
        count_ctrl(s, n, tombs) == 0,
    decreases n,
{
    if n > 0 {
        lemma_count_none(s, (n - 1) as nat, tombs);
    }
}

/// Where tags and tombstones together number fewer than `n`, some byte below
/// `n` is `EMPTY`.
proof fn lemma_some_empty(s: Seq<u8>, n: nat)
    requires
        n <= s.len(),
        forall|j: int| 0 <= j < n ==> valid_ctrl(s[j]),
        count_ctrl(s, n, false) + count_ctrl(s, n, true) < n,
    ensures
        exists|j: int| 0 <= j < n && s[j] == EMPTY,
    decreases n,
{
    if s[n - 1] != EMPTY {
        lemma_some_empty(s, (n - 1) as nat);
    }
}

/// Reducing a value below twice the modulus.
proof fn lemma_mod_wrap(x: int, m: int)
    requires
        0 <= x < 2 * m,
    ensures
        x % m == if x < m {
            x
        } else {
            x - m
        },
{
    if x < m {
        lemma_small_mod(x as nat, m as nat);
    } else {
        lemma_mod_sub_multiples_vanish(x, m);
        lemma_small_mod((x - m) as nat, m as nat);
    }
}

/// A hash map from keys of type `K` to values of type `V`, stored by open
/// addressing with a control band that is probed sixteen slots at a time.
///
/// Keys are not stored: an entry is identified by the full 64-bit hash of its
/// key, and two keys of equal hash are the same key to the map. The hasher
/// state is seeded once, when the map is made, and kept through `clear` and
/// every resize, so a key hashes alike for the whole life of the map.
pub struct StampedeMap<K, V> {
    data: Vec<Slot<V>>,
    len: usize,
    capacity: usize,
    ctrl: Vec<u8>,
    /// Number of tombstones, which count towards the load factor.
    deleted: usize,
    hasher: ahash::RandomState,
    log: Ghost<nat>,
    contents: Ghost<Map<u64, V>>,
    _key: PhantomData<K>,
}

#[verifier::external_type_specification]
#[verifier::external_body]
pub struct ExRandomState(ahash::RandomState);

/// Relies on `ahash::RandomState::new`: a hasher state with fresh random keys.
/// Nothing is promised of the keys.
pub assume_specification[ ahash::RandomState::new ]() -> ahash::RandomState;

/// Relies on `ahash::RandomState::hash_one`: the 64-bit hash of `key` under
/// `state`. Nothing is stated of its value, which depends on the random keys
/// of `state`.
#[verifier::external_body]
fn hash_with<K: Hash>(state: &ahash::RandomState, key: &K) -> (r: u64) {
    state.hash_one(key)
}

impl<K, V> View for StampedeMap<K, V> {
    type V = Map<u64, V>;

    closed spec fn view(&self) -> Map<u64, V> {
        self.contents@
    }
}

impl<K, V> StampedeMap<K, V> {
    /// The number of slots.
    pub closed spec fn spec_capacity(&self) -> nat {
        self.capacity as nat
    }

    /// The number of entries.
    pub closed spec fn spec_len(&self) -> nat {
        self.len as nat
    }

    /// The control band, including its tail mirror.
    pub closed spec fn spec_ctrl(&self) -> Seq<u8> {
        self.ctrl@
    }

    /// The number of tombstones.
    pub closed spec fn spec_deleted(&self) -> nat {
        self.deleted as nat
    }

    /// The slot array: the hash and value of each occupied slot, `None` for
    /// an empty one.
    pub closed spec fn spec_data(&self) -> Seq<Option<(u64, V)>> {
        self.data@.map_values(|s: Slot<V>| slot_entry(s))
    }

    /// The first slot, from step `k` on, of the probe sequence from `start`
    /// whose control byte is `EMPTY` or `DELETED`; -1 if there is none.
    closed spec fn free_from(&self, start: int, k: nat) -> int
        decreases self.cap() - k,
    {
        if k >= self.cap() {
            -1
        } else if self.ctrl@[self.probe(start, k as int)] == EMPTY || self.ctrl@[self.probe(
            start,
            k as int,
        )] == DELETED {
            self.probe(start, k as int)
        } else {
            self.free_from(start, k + 1)
        }
    }

    /// The slot that a new entry of hash `h` takes: the first one of its probe
    /// sequence whose control byte is `EMPTY` or `DELETED`.
    pub closed spec fn free_slot(&self, h: u64) -> int {
        self.free_from(self.home(h), 0)
    }

    spec fn cap(&self) -> int {
        self.capacity as int
    }

    spec fn home(&self, h: u64) -> int {
        h as int % self.capacity as int
    }

    /// The `k`-th slot of the probe sequence that starts at `start`.
    spec fn probe(&self, start: int, k: int) -> int {
        if start + k < self.cap() {
            start + k
        } else {
            start + k - self.cap()
        }
    }

    /// How many steps the probe sequence from `start` takes to reach `i`.
    spec fn dist(&self, start: int, i: int) -> int {
        if i >= start {
            i - start
        } else {
            i - start + self.cap()
        }
    }

    spec fn occupied(&self, i: int) -> bool {
        self.data@[i] is Occupied
    }

    spec fn hash_at(&self, i: int) -> u64 {
        self.data@[i]->Occupied_0.hash
    }

    spec fn value_at(&self, i: int) -> V {
        self.data@[i]->Occupied_0.value
    }

    /// Whether slot `i` holds the entry of hash `h`.
    spec fn holds(&self, i: int, h: u64) -> bool {
        self.occupied(i) && self.hash_at(i) == h
    }

    /// The shape of the arrays, without the load factor.
    closed spec fn wf_shape(&self) -> bool {
        &&& self.capacity >= 16
        &&& self.capacity % 16 == 0
        &&& self.capacity == pow2(self.log@)
        &&& self.capacity <= usize::MAX / 4
        &&& self.data@.len() == self.capacity
        &&& self.ctrl@.len() == self.capacity + 16
        &&& forall|i: int| 0 <= i < 16 ==> #[trigger] self.ctrl@[self.cap() + i] == self.ctrl@[i]
    }

    /// Everything that holds between operations, but the load factor.
    closed spec fn wf_core(&self) -> bool {
        &&& self.wf_shape()
        &&& forall|i: int|
            0 <= i < self.cap() ==> {
                &&& valid_ctrl(#[trigger] self.ctrl@[i])
                &&& (self.ctrl@[i] < 128 <==> self.occupied(i))
                &&& self.occupied(i) ==> self.ctrl@[i] == spec_tag(self.hash_at(i))
            }
        &&& forall|i: int, j: int|
            0 <= i < self.cap() && 0 <= j < self.cap() && #[trigger] self.occupied(i)
                && #[trigger] self.occupied(j) && self.hash_at(i) == self.hash_at(j) ==> i == j
        &&& forall|i: int, k: int|
            0 <= i < self.cap() && #[trigger] self.occupied(i) && 0 <= k < self.dist(
                self.home(self.hash_at(i)),
                i,
            ) ==> #[trigger] self.ctrl@[self.probe(self.home(self.hash_at(i)), k)] != EMPTY
        &&& forall|i: int|
            0 <= i < self.cap() && #[trigger] self.occupied(i) ==> self@.contains_key(
                self.hash_at(i),
            ) && self@[self.hash_at(i)] == self.value_at(i)
        &&& forall|h: u64|
            #[trigger] self@.contains_key(h) ==> exists|i: int|
                0 <= i < self.cap() && #[trigger] self.holds(i, h)
        &&& self@.dom().finite()
        &&& self@.dom().len() == self.len
        &&& self.len == count_ctrl(self.ctrl@, self.capacity as nat, false)
        &&& self.deleted == count_ctrl(self.ctrl@, self.capacity as nat, true)
    }

    /// Step `k` of the probe sequence from `start` passes over neither an
    /// `EMPTY` byte nor the entry of hash `h`.
    spec fn passed_over(&self, start: int, k: int, h: u64) -> bool {
        &&& self.ctrl@[self.probe(start, k)] != EMPTY
        &&& !self.holds(self.probe(start, k), h)
    }

    /// A probe from the home slot of `h` that passed `k` slots without
    /// finding `h` and then reached an `EMPTY` byte shows that `h` is absent.
    proof fn lemma_absent(&self, h: u64, k: int)
        requires
            self.wf_core(),
            0 <= self.home(h) < self.cap(),
            0 <= k < self.cap(),
            self.ctrl@[self.probe(self.home(h), k)] == EMPTY,
            forall|j: int| 0 <= j < k ==> self.passed_over(self.home(h), j, h),
        ensures
            !self@.contains_key(h),
    {
        if self@.contains_key(h) {
            let i = choose|i: int| 0 <= i < self.cap() && #[trigger] self.holds(i, h);
            let start = self.home(h);
            let di = self.dist(start, i);
            assert(self.probe(start, di) == i);
            if di < k {
                assert(self.passed_over(start, di, h));
            } else if di == k {
                assert(self.ctrl@[i] < 128);
            } else {
                assert(self.occupied(i));
                assert(self.ctrl@[self.probe(self.home(self.hash_at(i)), k)] != EMPTY);
            }
        }
    }

    /// Under the load factor, some byte of the band is `EMPTY`.
    proof fn lemma_has_empty(&self)
        requires
            self.wf_core(),
            self.len + self.deleted < self.capacity,
        ensures
            exists|e: int| 0 <= e < self.cap() && self.ctrl@[e] == EMPTY,
    {
        assert forall|j: int| 0 <= j < self.cap() implies valid_ctrl(self.ctrl@[j]) by {}
        lemma_some_empty(self.ctrl@, self.capacity as nat);
    }

    /// The control band mirrors its first sixteen bytes past the last slot.
    pub proof fn lemma_tail_mirror(&self)
        requires
            self.wf(),
        ensures
            self.spec_ctrl().len() == self.spec_capacity() + 16,
            forall|i: int|
                0 <= i < 16 ==> #[trigger] self.spec_ctrl()[self.spec_capacity() + i]
                    == self.spec_ctrl()[i],
    {
    }

    /// What the invariant of the map tells of its public parts: the entries
    /// are finitely many and `len` counts them, the arrays have their lengths,
    /// and the load factor, tombstones included, is at most 3/4.
    pub proof fn lemma_load_factor(&self)
        requires
            self.wf(),
        ensures
            self@.dom().finite(),
            self.spec_len() == self@.dom().len(),
            (self.spec_len() + self.spec_deleted()) * 4 <= self.spec_capacity() * 3,
            is_power_of_two(self.spec_capacity()),
            self.spec_capacity() >= 16,
            self.spec_ctrl().len() == self.spec_capacity() + 16,
            self.spec_data().len() == self.spec_capacity(),
    {
    }

    /// The invariant of the map: `wf_core` and a load factor of at most 3/4,
    /// tombstones included.
    pub closed spec fn wf(&self) -> bool {
        &&& self.wf_core()
        &&& (self.len + self.deleted) * 4 <= self.capacity * 3
    }
}

/// A slot array of `cap` empty slots and a control band of `cap + 16` bytes
/// that are all `EMPTY`.
fn empty_arrays<V>(cap: usize) -> (r: (Vec<Slot<V>>, Vec<u8>))
    requires
        cap <= usize::MAX - 16,
    ensures
        r.0@.len() == cap,
        r.1@.len() == cap + 16,
        forall|i: int| 0 <= i < cap ==> #[trigger] r.0@[i] is Empty,
        forall|i: int| 0 <= i < cap + 16 ==> #[trigger] r.1@[i] == EMPTY,
{
    let mut data: Vec<Slot<V>> = Vec::with_capacity(cap);
    let mut i: usize = 0;
    while i < cap
        invariant
            i <= cap,
            data@.len() == i,
            forall|j: int| 0 <= j < i ==> #[trigger] data@[j] is Empty,
        decreases cap - i,
    {
        data.push(Slot::Empty);
        i += 1;
    }
    let ctrl: Vec<u8> = vec![EMPTY; cap + 16];
    (data, ctrl)
}

/// The band after writing `c` at slot `i`, and at its mirror when `i < 16`.
pub open spec fn mirrored_write(ctrl: Seq<u8>, capacity: int, i: int, c: u8) -> Seq<u8> {
    if i < 16 {
        ctrl.update(i, c).update(capacity + i, c)
    } else {
        ctrl.update(i, c)
    }
}

/// Writes control byte `c` at slot `i` and, when `i` is one of the first
/// sixteen slots, at its mirror past the end of the band.
fn write_ctrl(ctrl: &mut Vec<u8>, capacity: usize, i: usize, c: u8)
    requires
        capacity >= 16,
        capacity <= usize::MAX / 4,
        old(ctrl)@.len() == capacity + 16,
        i < capacity,
    ensures
        final(ctrl)@ == mirrored_write(old(ctrl)@, capacity as int, i as int, c),
{
    if i < GROUP_WIDTH {
        ctrl.set(capacity + i, c);
    }
    ctrl.set(i, c);
    proof {
        if i < 16 {
            assert(final(ctrl)@ =~= mirrored_write(old(ctrl)@, capacity as int, i as int, c));
        }
    }
}

impl<K: Hash, V> StampedeMap<K, V> {
    /// A map of `capacity` slots, all free, with `log` the exponent of the
    /// capacity.
    fn empty_with(capacity: usize, log: Ghost<nat>, hasher: ahash::RandomState) -> (r: Self)
        requires
            capacity >= 16,
            capacity % 16 == 0,
            capacity == pow2(log@),
            capacity <= usize::MAX / 4,
        ensures
            r.wf(),
            r@ == Map::<u64, V>::empty(),
            r.spec_capacity() == capacity,
            r.spec_len() == 0,
            r.spec_deleted() == 0,
            r.spec_ctrl().len() == r.spec_capacity() + 16,
            forall|i: int| 0 <= i < r.spec_capacity() + 16 ==> #[trigger] r.spec_ctrl()[i] == EMPTY,
            r.spec_data().len() == r.spec_capacity(),
            forall|i: int| 0 <= i < r.spec_capacity() ==> #[trigger] r.spec_data()[i] is None,
    {
        let (data, ctrl) = empty_arrays(capacity);
        let r = StampedeMap {
            data,
            len: 0,
            capacity,
            ctrl,
            deleted: 0,
            hasher,
            log,
            contents: Ghost(Map::empty()),
            _key: PhantomData,
        };
        proof {
            lemma_count_none(r.ctrl@, capacity as nat, false);
            lemma_count_none(r.ctrl@, capacity as nat, true);
            assert(r.ctrl@[capacity + 0] == EMPTY);
            assert forall|i: int| 0 <= i < capacity implies #[trigger] r.spec_data()[i] is None by {
                assert(r.data@[i] is Empty);
            }
        }
        r
    }

    /// An empty map of sixteen slots.
    pub fn new() -> (r: Self)
        ensures
            r.wf(),
            r@ == Map::<u64, V>::empty(),
            r.spec_capacity() == 16,
            r.spec_len() == 0,
            r.spec_deleted() == 0,
            r.spec_ctrl().len() == r.spec_capacity() + 16,
            forall|i: int| 0 <= i < r.spec_capacity() + 16 ==> #[trigger] r.spec_ctrl()[i] == EMPTY,
            r.spec_data().len() == r.spec_capacity(),
            forall|i: int| 0 <= i < r.spec_capacity() ==> #[trigger] r.spec_data()[i] is None,
    {
        proof {
            lemma2_to64();
        }
        Self::empty_with(bucket_size(), Ghost(4), ahash::RandomState::new())
    }

    /// An empty map whose capacity is the least power of two that is at
    /// least `cap` and at least 16.
    pub fn with_capacity(cap: usize) -> (r: Self)
        requires
            cap <= usize::MAX / 8,
        ensures
            r.wf(),
            r@ == Map::<u64, V>::empty(),
            is_power_of_two(r.spec_capacity()),
            r.spec_capacity() >= 16,
            r.spec_capacity() >= cap,
            r.spec_capacity() == 16 || r.spec_capacity() < 2 * cap,
            r.spec_len() == 0,
            r.spec_deleted() == 0,
            r.spec_ctrl().len() == r.spec_capacity() + 16,
            forall|i: int| 0 <= i < r.spec_capacity() + 16 ==> #[trigger] r.spec_ctrl()[i] == EMPTY,
            r.spec_data().len() == r.spec_capacity(),
            forall|i: int| 0 <= i < r.spec_capacity() ==> #[trigger] r.spec_data()[i] is None,
    {
        let mut p: usize = bucket_size();
        let ghost mut log: nat = 4;
        proof {
            lemma2_to64();
        }
        while p < cap
            invariant
                16 <= p,
                p % 16 == 0,
                p == pow2(log),
                p <= usize::MAX / 4,
                cap <= usize::MAX / 8,
                p == 16 || p < 2 * cap,
            decreases usize::MAX - p,
        {
            proof {
                lemma_pow2_unfold(log + 1);
            }
            p = p * 2;
            proof {
                log = log + 1;
            }
        }
        Self::empty_with(p, Ghost(log), ahash::RandomState::new())
    }

    /// The number of entries.
    pub fn len(&self) -> (r: usize)
        requires
            self.wf(),
        ensures
            r == self.spec_len(),
            r == self@.dom().len(),
    {
        self.len
    }

    /// Whether the map has no entry.
    pub fn is_empty(&self) -> (r: bool)
        requires
            self.wf(),
        ensures
            r <==> self@.dom().len() == 0,
    {
        self.len() == 0
    }

    /// The number of slots: a power of two, at least 16.
    pub fn capacity(&self) -> (r: usize)
        requires
            self.wf(),
        ensures
            r == self.spec_capacity(),
            is_power_of_two(r as nat),
            r >= 16,
    {
        self.capacity
    }

    /// Probes for the slot that holds the entry of hash `hash`.
    ///
    /// Starting at the home slot, each step loads the sixteen control bytes
    /// from the current slot on (the tail mirror keeps the load in bounds)
    /// and visits, in ascending order, the offsets whose byte is `EMPTY` or
    /// the tag of `hash`. A tag whose slot holds `hash` ends the probe with
    /// that slot; an `EMPTY` byte ends it with `None`.
    fn find(&self, hash: u64) -> (r: Option<usize>)
        requires
            self.wf_core(),
            exists|e: int| 0 <= e < self.cap() && self.ctrl@[e] == EMPTY,
        ensures
            match r {
                Some(i) => i < self.capacity && self.holds(i as int, hash),
                None => !self@.contains_key(hash),
            },
    {
        let tag = ctrl_hash(hash);
        let home = self.modulo(hash);
        let mut slot = home;
        let ghost e = choose|e: int| 0 <= e < self.cap() && self.ctrl@[e] == EMPTY;
        let ghost de = self.dist(home as int, e);
        let ghost mut base: int = 0;
        assert(self.probe(home as int, de) == e);
        loop
            invariant
                self.wf_core(),
                0 <= e < self.cap(),
                self.ctrl@[e] == EMPTY,
                home as int == self.home(hash),
                home < self.capacity,
                tag == spec_tag(hash),
                tag < 128,
                de == self.dist(home as int, e),
                self.probe(home as int, de) == e,
                0 <= base <= de,
                base % 16 == 0,
                slot as int == self.probe(home as int, base),
                forall|k: int| 0 <= k < base ==> self.passed_over(home as int, k, hash),
            decreases de - base,
        {
            assert(base + 16 <= self.cap());
            let window = &self.ctrl[slot..slot + GROUP_WIDTH];
            assert forall|o: int| 0 <= o < 16 implies #[trigger] window@[o]
                == self.ctrl@[self.probe(home as int, base + o)] by {
                if slot + o >= self.cap() {
                    assert(self.ctrl@[self.cap() + (slot + o - self.cap())] == self.ctrl@[slot + o
                        - self.cap()]);
                }
            }
            let empty_mask = BitMask::matches(window, EMPTY);
            let tag_mask = BitMask::matches(window, tag);
            let mut candidates = tag_mask | empty_mask;
            proof {
                lemma_or_offsets(tag_mask, empty_mask);
            }
            let ghost mut lo: int = 0;
            loop
                invariant
                    self.wf_core(),
                    0 <= e < self.cap(),
                    self.ctrl@[e] == EMPTY,
                    home as int == self.home(hash),
                    home < self.capacity,
                    tag == spec_tag(hash),
                    tag < 128,
                    de == self.dist(home as int, e),
                    0 <= base <= de,
                    base + 16 <= self.cap(),
                    slot as int == self.probe(home as int, base),
                    forall|o: int|
                        0 <= o < 16 ==> #[trigger] window@[o] == self.ctrl@[self.probe(
                            home as int,
                            base + o,
                        )],
                    0 <= lo <= 16,
                    window@.len() == 16,
                    forall|o: int|
                        #[trigger] candidates@.contains(o) <==> (0 <= o < 16 && lo <= o && (
                        window@[o] == tag || window@[o] == EMPTY)),
                    forall|k: int| 0 <= k < base + lo ==> self.passed_over(home as int, k, hash),
                ensures
                    forall|k: int| 0 <= k < base + 16 ==> self.passed_over(home as int, k, hash),
                decreases 16 - lo,
            {
                match candidates.next() {
                    None => {
                        assert forall|k: int| 0 <= k < base + 16 implies self.passed_over(
                            home as int,
                            k,
                            hash,
                        ) by {
                            if k >= base + lo {
                                assert(!candidates@.contains(k - base));
                            }
                        }
                        break ;
                    },
                    Some(item) => {
                        let offset = self.modulo((slot + item as usize) as u64);
                        assert(offset == self.probe(home as int, base + item)) by {
                            lemma_mod_wrap(slot + item, self.cap());
                        }
                        let c = self.ctrl[offset];
                        if c == tag {
                            if let Slot::Occupied(node) = &self.data[offset] {
                                if node.hash == hash {
                                    return Some(offset);
                                }
                            }
                        } else if c == EMPTY {
                            proof {
                                assert forall|k: int| 0 <= k < base + item implies self.passed_over(
                                    home as int,
                                    k,
                                    hash,
                                ) by {
                                    if k >= base + lo {
                                        assert(!candidates@.contains(k - base));
                                    }
                                }
                                self.lemma_absent(hash, base + item);
                            }
                            return None;
                        }
                        proof {
                            let p = offset as int;
                            assert(self.ctrl@[p] == c);
                            assert(valid_ctrl(self.ctrl@[p]));
                            assert(self.ctrl@[p] != EMPTY);
                            assert(!self.holds(p, hash));
                            assert(self.passed_over(home as int, base + item, hash));
                            assert forall|k: int| 0 <= k < base + item + 1 implies self.passed_over(
                                home as int,
                                k,
                                hash,
                            ) by {
                                if base + lo <= k < base + item {
                                    assert(!candidates@.contains(k - base));
                                }
                            }
                            lo = item + 1;
                        }
                    },
                }
            }
            assert(self.passed_over(home as int, de, hash) ==> false);
            let ghost prev = slot;
            slot = self.modulo((slot + GROUP_WIDTH) as u64);
            proof {
                lemma_mod_wrap(prev + 16, self.cap());
                base = base + 16;
            }
        }
    }

    /// Installs the entry `(hash, value)`, of a hash that the map does not
    /// hold, in the first slot of its probe sequence whose control byte is
    /// `EMPTY` or `DELETED`.
    fn insert_new(&mut self, hash: u64, value: V)
        requires
            old(self).wf_core(),
            !old(self)@.contains_key(hash),
            old(self).len + old(self).deleted < old(self).capacity,
        ensures
            final(self).wf_core(),
            final(self)@ == old(self)@.insert(hash, value),
            final(self).capacity == old(self).capacity,
            final(self).log == old(self).log,
            final(self).hasher == old(self).hasher,
            final(self).len == old(self).len + 1,
            final(self).len + final(self).deleted <= old(self).len + old(self).deleted + 1,
            0 <= old(self).free_slot(hash) < old(self).capacity,
            old(self).ctrl@[old(self).free_slot(hash)] == EMPTY || old(self).ctrl@[old(self).free_slot(
                hash,
            )] == DELETED,
            final(self).ctrl@ == mirrored_write(
                old(self).ctrl@,
                old(self).cap(),
                old(self).free_slot(hash),
                spec_tag(hash),
            ),
            final(self).data@ == old(self).data@.update(
                old(self).free_slot(hash),
                Slot::Occupied(Node { hash, value }),
            ),
            final(self).deleted == if old(self).ctrl@[old(self).free_slot(hash)] == DELETED {
                old(self).deleted - 1
            } else {
                old(self).deleted as int
            },
    {
        proof {
            self.lemma_has_empty();
        }
        let tag = ctrl_hash(hash);
        let home = self.modulo(hash);
        let mut idx = home;
        let ghost e = choose|e: int| 0 <= e < self.cap() && self.ctrl@[e] == EMPTY;
        let ghost de = self.dist(home as int, e);
        let ghost mut k: int = 0;
        assert(self.probe(home as int, de) == e);
        while self.ctrl[idx] != EMPTY && self.ctrl[idx] != DELETED
            invariant
                self.wf_core(),
                0 <= e < self.cap(),
                self.ctrl@[e] == EMPTY,
                home as int == self.home(hash),
                home < self.capacity,
                de == self.dist(home as int, e),
                self.probe(home as int, de) == e,
                0 <= k <= de,
                idx as int == self.probe(home as int, k),
                forall|j: int| 0 <= j < k ==> #[trigger] self.ctrl@[self.probe(home as int, j)] < 128,
                self.free_from(home as int, k as nat) == self.free_slot(hash),
            decreases de - k,
        {
            assert(valid_ctrl(self.ctrl@[idx as int]));
            assert(self.free_from(home as int, k as nat) == self.free_from(home as int, (k + 1) as nat));
            let ghost prev = idx;
            idx = self.modulo((idx + 1) as u64);
            proof {
                lemma_mod_wrap(prev + 1, self.cap());
                k = k + 1;
            }
        }
        let ghost pre = *self;
        let was_tomb = self.ctrl[idx] == DELETED;
        write_ctrl(&mut self.ctrl, self.capacity, idx, tag);
        proof {
            lemma_count_update(pre.ctrl@, self.ctrl@, self.capacity as nat, idx as int, false);
            lemma_count_update(pre.ctrl@, self.ctrl@, self.capacity as nat, idx as int, true);
            self.contents = Ghost(self.contents@.insert(hash, value));
        }
        self.data.set(idx, Slot::Occupied(Node { hash, value }));
        self.len = self.len + 1;
        if was_tomb {
            self.deleted = self.deleted - 1;
        }
        proof {
            let i = idx as int;
            let cap = self.cap();
            assert(!pre.occupied(i));
            assert(self.dist(self.home(hash), i) == k);
            assert forall|j: int| 0 <= j < 16 implies #[trigger] self.ctrl@[cap + j] == self.ctrl@[j] by {
                assert(pre.ctrl@[cap + j] == pre.ctrl@[j]);
            }
            assert forall|a: int, b: int|
                0 <= a < cap && 0 <= b < cap && #[trigger] self.occupied(a) && #[trigger] self.occupied(b)
                    && self.hash_at(a) == self.hash_at(b) implies a == b by {
                if a != i && b != i {
                    assert(pre.occupied(a) && pre.occupied(b));
                } else if a != i {
                    assert(pre.occupied(a));
                } else if b != i {
                    assert(pre.occupied(b));
                }
            }
            assert forall|a: int, j: int|
                0 <= a < cap && #[trigger] self.occupied(a) && 0 <= j < self.dist(
                    self.home(self.hash_at(a)),
                    a,
                ) implies #[trigger] self.ctrl@[self.probe(self.home(self.hash_at(a)), j)] != EMPTY by {
                let q = self.probe(self.home(self.hash_at(a)), j);
                if a != i {
                    assert(pre.occupied(a));
                    assert(pre.ctrl@[pre.probe(pre.home(pre.hash_at(a)), j)] != EMPTY);
                } else if q != i {
                    assert(pre.ctrl@[pre.probe(home as int, j)] < 128);
                }
            }
            assert forall|a: int| 0 <= a < cap && #[trigger] self.occupied(a) implies self@.contains_key(
                self.hash_at(a),
            ) && self@[self.hash_at(a)] == self.value_at(a) by {
                if a != i {
                    assert(pre.occupied(a));
                }
            }
            assert forall|h: u64| #[trigger] self@.contains_key(h) implies exists|a: int|
                0 <= a < cap && #[trigger] self.holds(a, h) by {
                if h == hash {
                    assert(self.holds(i, h));
                } else {
                    assert(pre@.contains_key(h));
                    let a = choose|a: int| 0 <= a < cap && #[trigger] pre.holds(a, h);
                    assert(self.holds(a, h));
                }
            }
            assert forall|a: int| 0 <= a < cap implies {
                &&& valid_ctrl(#[trigger] self.ctrl@[a])
                &&& (self.ctrl@[a] < 128 <==> self.occupied(a))
                &&& self.occupied(a) ==> self.ctrl@[a] == spec_tag(self.hash_at(a))
            } by {
                if a != i {
                    assert(valid_ctrl(pre.ctrl@[a]));
                }
            }
        }
    }

    /// The value of the entry of hash `hash`, if the map holds one.
    pub fn get_hashed(&self, hash: u64) -> (r: Option<&V>)
        requires
            self.wf(),
        ensures
            match r {
                Some(v) => self@.contains_key(hash) && *v == self@[hash],
                None => !self@.contains_key(hash),
            },
    {
        proof {
            self.lemma_has_empty();
        }
        match self.find(hash) {
            Some(i) => match &self.data[i] {
                Slot::Occupied(node) => Some(&node.value),
                Slot::Empty => None,
            },
            None => None,
        }
    }

    /// Sets the value of the entry of hash `hash` to `value`, adding the
    /// entry if the map does not hold it. The whole probe sequence is searched
    /// for the entry first, so one that lies past a tombstone is replaced in
    /// place rather than added twice; a new entry takes the first `EMPTY` or
    /// `DELETED` slot. Where the new entry brings the load factor, tombstones
    /// included, over 3/4, the map then doubles its capacity.
    pub fn set_hashed(&mut self, hash: u64, value: V)
        requires
            old(self).wf(),
            old(self).spec_capacity() <= usize::MAX / 8,
        ensures
            final(self).wf(),
            final(self)@ == old(self)@.insert(hash, value),
            old(self)@.contains_key(hash) ==> final(self).spec_capacity() == old(self).spec_capacity(),
            final(self).spec_capacity() == old(self).spec_capacity() || final(self).spec_capacity() == 2
                * old(self).spec_capacity(),
            old(self)@.contains_key(hash) ==> {
                &&& final(self).spec_ctrl() == old(self).spec_ctrl()
                &&& final(self).spec_len() == old(self).spec_len()
                &&& final(self).spec_deleted() == old(self).spec_deleted()
                &&& exists|i: int|
                    0 <= i < old(self).spec_capacity() && old(self).spec_data()[i] == Some(
                        (hash, old(self)@[hash]),
                    ) && final(self).spec_data() == old(self).spec_data().update(
                        i,
                        Some((hash, value)),
                    )
            },
            !old(self)@.contains_key(hash) ==> {
                let i = old(self).free_slot(hash);
                let grows = old(self).spec_ctrl()[i] == EMPTY && (old(self).spec_len()
                    + old(self).spec_deleted() + 1) * 4 > old(self).spec_capacity() * 3;
                &&& 0 <= i < old(self).spec_capacity()
                &&& final(self).spec_len() == old(self).spec_len() + 1
                &&& grows ==> final(self).spec_capacity() == 2 * old(self).spec_capacity()
                    && final(self).spec_deleted() == 0
                &&& !grows ==> {
                    &&& final(self).spec_capacity() == old(self).spec_capacity()
                    &&& final(self).spec_ctrl() == mirrored_write(
                        old(self).spec_ctrl(),
                        old(self).spec_capacity() as int,
                        i,
                        spec_tag(hash),
                    )
                    &&& final(self).spec_data() == old(self).spec_data().update(
                        i,
                        Some((hash, value)),
                    )
                    &&& final(self).spec_deleted() == if old(self).spec_ctrl()[i] == DELETED {
                        old(self).spec_deleted() - 1
                    } else {
                        old(self).spec_deleted() as int
                    }
                }
            },
    {
        proof {
            self.lemma_has_empty();
        }
        let ghost start = *self;
        match self.find(hash) {
            Some(idx) => {
                let ghost pre = *self;
                proof {
                    self.contents = Ghost(self.contents@.insert(hash, value));
                }
                self.data.set(idx, Slot::Occupied(Node { hash, value }));
                proof {
                    let i = idx as int;
                    let cap = self.cap();
                    assert(pre.spec_data()[i] == Some((hash, pre@[hash])));
                    assert(self.spec_data() =~= pre.spec_data().update(i, Some((hash, value))));
                    assert(self@.dom() =~= pre@.dom());
                    assert forall|a: int, b: int|
                        0 <= a < cap && 0 <= b < cap && #[trigger] self.occupied(a)
                            && #[trigger] self.occupied(b) && self.hash_at(a) == self.hash_at(b) implies a
                        == b by {
                        assert(pre.occupied(a) && pre.occupied(b));
                    }
                    assert forall|a: int, j: int|
                        0 <= a < cap && #[trigger] self.occupied(a) && 0 <= j < self.dist(
                            self.home(self.hash_at(a)),
                            a,
                        ) implies #[trigger] self.ctrl@[self.probe(self.home(self.hash_at(a)), j)]
                        != EMPTY by {
                        assert(pre.occupied(a));
                        assert(pre.ctrl@[pre.probe(pre.home(pre.hash_at(a)), j)] != EMPTY);
                    }
                    assert forall|a: int|
                        0 <= a < cap && #[trigger] self.occupied(a) implies self@.contains_key(
                            self.hash_at(a),
                        ) && self@[self.hash_at(a)] == self.value_at(a) by {
                        assert(pre.occupied(a));
                    }
                    assert forall|h: u64| #[trigger] self@.contains_key(h) implies exists|a: int|
                        0 <= a < cap && #[trigger] self.holds(a, h) by {
                        let a = choose|a: int| 0 <= a < cap && #[trigger] pre.holds(a, h);
                        assert(self.holds(a, h));
                    }
                    assert forall|a: int| 0 <= a < cap implies {
                        &&& valid_ctrl(#[trigger] self.ctrl@[a])
                        &&& (self.ctrl@[a] < 128 <==> self.occupied(a))
                        &&& self.occupied(a) ==> self.ctrl@[a] == spec_tag(self.hash_at(a))
                    } by {
                        assert(valid_ctrl(pre.ctrl@[a]));
                    }
                }
            },
            None => {
                self.insert_new(hash, value);
                proof {
                    assert(self.spec_data() =~= start.spec_data().update(
                        start.free_slot(hash),
                        Some((hash, value)),
                    ));
                }
                if self.exceeded_load_factor() {
                    self.resize();
                }
            },
        }
    }

    /// Removes the entry of hash `hash`, if the map holds one: its slot becomes
    /// empty and its control byte a tombstone.
    pub fn delete_hashed(&mut self, hash: u64)
        requires
            old(self).wf(),
        ensures
            final(self).wf(),
            final(self)@ == old(self)@.remove(hash),
            final(self).spec_capacity() == old(self).spec_capacity(),
            !old(self)@.contains_key(hash) ==> *final(self) == *old(self),
            old(self)@.contains_key(hash) ==> {
                &&& final(self).spec_len() == old(self).spec_len() - 1
                &&& final(self).spec_deleted() == old(self).spec_deleted() + 1
                &&& exists|i: int|
                    0 <= i < old(self).spec_capacity() && old(self).spec_data()[i] == Some(
                        (hash, old(self)@[hash]),
                    ) && final(self).spec_data() == old(self).spec_data().update(i, None)
                        && final(self).spec_ctrl() == mirrored_write(
                        old(self).spec_ctrl(),
                        old(self).spec_capacity() as int,
                        i,
                        DELETED,
                    )
            },
    {
        proof {
            self.lemma_has_empty();
        }
        match self.find(hash) {
            None => {
                assert(self@.remove(hash) =~= self@);
            },
            Some(idx) => {
                let ghost pre = *self;
                write_ctrl(&mut self.ctrl, self.capacity, idx, DELETED);
                self.data.set(idx, Slot::Empty);
                proof {
                    assert(pre.spec_data()[idx as int] == Some((hash, pre@[hash])));
                    assert(self.spec_data() =~= pre.spec_data().update(idx as int, None));
                    lemma_count_update(pre.ctrl@, self.ctrl@, self.capacity as nat, idx as int, false);
                    lemma_count_update(pre.ctrl@, self.ctrl@, self.capacity as nat, idx as int, true);
                    self.contents = Ghost(self.contents@.remove(hash));
                }
                self.len = self.len - 1;
                self.deleted = self.deleted + 1;
                proof {
                    let i = idx as int;
                    let cap = self.cap();
                    assert forall|j: int| 0 <= j < 16 implies #[trigger] self.ctrl@[cap + j]
                        == self.ctrl@[j] by {
                        assert(pre.ctrl@[cap + j] == pre.ctrl@[j]);
                    }
                    assert forall|a: int, b: int|
                        0 <= a < cap && 0 <= b < cap && #[trigger] self.occupied(a)
                            && #[trigger] self.occupied(b) && self.hash_at(a) == self.hash_at(b) implies a
                        == b by {
                        assert(pre.occupied(a) && pre.occupied(b));
                    }
                    assert forall|a: int, j: int|
                        0 <= a < cap && #[trigger] self.occupied(a) && 0 <= j < self.dist(
                            self.home(self.hash_at(a)),
                            a,
                        ) implies #[trigger] self.ctrl@[self.probe(self.home(self.hash_at(a)), j)]
                        != EMPTY by {
                        assert(pre.occupied(a));
                        assert(pre.ctrl@[pre.probe(pre.home(pre.hash_at(a)), j)] != EMPTY);
                    }
                    assert forall|a: int|
                        0 <= a < cap && #[trigger] self.occupied(a) implies self@.contains_key(
                            self.hash_at(a),
                        ) && self@[self.hash_at(a)] == self.value_at(a) by {
                        assert(pre.occupied(a));
                        assert(pre.holds(i, hash));
                    }
                    assert forall|h: u64| #[trigger] self@.contains_key(h) implies exists|a: int|
                        0 <= a < cap && #[trigger] self.holds(a, h) by {
                        let a = choose|a: int| 0 <= a < cap && #[trigger] pre.holds(a, h);
                        assert(pre.occupied(i));
                        assert(self.holds(a, h));
                    }
                    assert forall|a: int| 0 <= a < cap implies {
                        &&& valid_ctrl(#[trigger] self.ctrl@[a])
                        &&& (self.ctrl@[a] < 128 <==> self.occupied(a))
                        &&& self.occupied(a) ==> self.ctrl@[a] == spec_tag(self.hash_at(a))
                    } by {
                        assert(valid_ctrl(pre.ctrl@[a]));
                    }
                }
            },
        }
    }

    /// Removes every entry and tombstone; the capacity stays.
    pub fn clear(&mut self)
        requires
            old(self).wf(),
        ensures
            final(self).wf(),
            final(self)@ == Map::<u64, V>::empty(),
            forall|h: u64| !final(self)@.contains_key(h),
            final(self).spec_len() == 0,
            final(self).spec_deleted() == 0,
            final(self).spec_ctrl().len() == final(self).spec_capacity() + 16,
            forall|i: int| 0 <= i < final(self).spec_capacity() + 16 ==> #[trigger] final(self).spec_ctrl()[i] == EMPTY,
            final(self).spec_data().len() == final(self).spec_capacity(),
            forall|i: int| 0 <= i < final(self).spec_capacity() ==> #[trigger] final(self).spec_data()[i] is None,
            final(self).spec_capacity() == old(self).spec_capacity(),
    {
        let (data, ctrl) = empty_arrays(self.capacity);
        self.data = data;
        self.ctrl = ctrl;
        self.len = 0;
        self.deleted = 0;
        proof {
            self.contents = Ghost(Map::empty());
            lemma_count_none(self.ctrl@, self.capacity as nat, false);
            lemma_count_none(self.ctrl@, self.capacity as nat, true);
            assert(self.ctrl@[self.cap() + 0] == EMPTY);
            assert forall|i: int| 0 <= i < self.cap() implies #[trigger] self.spec_data()[i] is None by {
                assert(self.data@[i] is Empty);
            }
        }
    }

    /// The 64-bit hash of `key` under this map's hasher state.
    pub fn hash(&self, key: &K) -> (r: u64) {
        hash_with(&self.hasher, key)
    }

    /// The value stored for `key`, if any: the value of the entry of the
    /// hash of `key`.
    pub fn get(&self, key: K) -> (r: Option<&V>)
        requires
            self.wf(),
        ensures
            exists|h: u64|
                match r {
                    Some(v) => self@.contains_key(h) && *v == self@[h],
                    None => !self@.contains_key(h),
                },
    {
        let hash = self.hash(&key);
        self.get_hashed(hash)
    }

    /// Stores `value` for `key`, replacing the value stored for it before.
    pub fn set(&mut self, key: K, value: V)
        requires
            old(self).wf(),
            old(self).spec_capacity() <= usize::MAX / 8,
        ensures
            final(self).wf(),
            exists|h: u64|
                final(self)@ == old(self)@.insert(h, value) && (old(self)@.contains_key(h)
                    ==> final(self).spec_capacity() == old(self).spec_capacity()),
            final(self).spec_capacity() == old(self).spec_capacity() || final(self).spec_capacity() == 2
                * old(self).spec_capacity(),
    {
        let hash = self.hash(&key);
        self.set_hashed(hash, value);
    }

    /// Removes what is stored for `key`; nothing happens if nothing is.
    pub fn delete(&mut self, key: K)
        requires
            old(self).wf(),
        ensures
            final(self).wf(),
            exists|h: u64| final(self)@ == old(self)@.remove(h),
            final(self).spec_capacity() == old(self).spec_capacity(),
    {
        let hash = self.hash(&key);
        self.delete_hashed(hash);
    }

    /// Whether the load factor, tombstones included, is over 3/4.
    fn exceeded_load_factor(&self) -> (r: bool)
        requires
            self.wf_shape(),
            self.len + self.deleted <= self.capacity,
        ensures
            r <==> (self.len + self.deleted) * 4 > self.capacity * 3,
    {
        self.capacity * 3 < (self.len + self.deleted) * 4
    }

    /// Moves every entry into a band and slot array of twice the capacity,
    /// which is `next_power_of_two(capacity + 1)` for a power of two.
    /// Tombstones are dropped.
    #[verifier::rlimit(50)]
    fn resize(&mut self)
        requires
            old(self).wf_core(),
            old(self).capacity <= usize::MAX / 8,
            old(self).len + old(self).deleted <= old(self).capacity,
        ensures
            final(self).wf(),
            final(self)@ == old(self)@,
            final(self).capacity == 2 * old(self).capacity,
            final(self).len == old(self).len,
            final(self).deleted == 0,
            forall|i: int| 0 <= i < final(self).ctrl@.len() ==> #[trigger] final(self).ctrl@[i] != DELETED,
    {
        let ghost pre = *self;
        let new_capacity = self.capacity * 2;
        let (data, ctrl) = empty_arrays(new_capacity);
        let mut old_data = data;
        core::mem::swap(&mut self.data, &mut old_data);
        self.ctrl = ctrl;
        self.capacity = new_capacity;
        self.len = 0;
        self.deleted = 0;
        proof {
            lemma_pow2_unfold(self.log@ + 1);
            self.log = Ghost(self.log@ + 1);
            self.contents = Ghost(Map::empty());
            lemma_count_none(self.ctrl@, new_capacity as nat, false);
            lemma_count_none(self.ctrl@, new_capacity as nat, true);
            assert(self.ctrl@[new_capacity + 0] == EMPTY);
        }
        while old_data.len() > 0
            invariant
                self.wf_core(),
                self.capacity == 2 * pre.capacity,
                pre.wf_core(),
                old_data@ == pre.data@.subrange(0, old_data@.len() as int),
                old_data@.len() <= pre.capacity,
                pre.len + pre.deleted <= pre.capacity,
                pre.capacity <= usize::MAX / 8,
                forall|h: u64|
                    #[trigger] self@.contains_key(h) <==> exists|a: int|
                        old_data@.len() <= a < pre.cap() && #[trigger] pre.holds(a, h),
                forall|h: u64| #[trigger] self@.contains_key(h) ==> self@[h] == pre@[h],
                self@.dom().subset_of(pre@.dom()),
                self.deleted == 0,
                forall|i: int| 0 <= i < self.ctrl@.len() ==> #[trigger] self.ctrl@[i] != DELETED,
            decreases old_data@.len(),
        {
            let ghost n = old_data@.len() - 1;
            let slot = old_data.pop();
            proof {
                assert(slot == Some(pre.data@[n]));
                vstd::set_lib::lemma_len_subset(self@.dom(), pre@.dom());
            }
            if let Some(Slot::Occupied(node)) = slot {
                proof {
                    assert(pre.occupied(n));
                    if self@.contains_key(node.hash) {
                        let a = choose|a: int| old_data@.len() + 1 <= a < pre.cap() && #[trigger] pre.holds(a, node.hash);
                        assert(pre.occupied(a));
                    }
                }
                self.insert_new(node.hash, node.value);
                proof {
                    assert forall|h: u64|
                        #[trigger] self@.contains_key(h) <==> exists|a: int|
                            old_data@.len() <= a < pre.cap() && #[trigger] pre.holds(a, h) by {
                        if h == pre.hash_at(n) {
                            assert(pre.holds(n, h));
                        }
                    }
                }
            } else {
                proof {
                    assert forall|h: u64|
                        #[trigger] self@.contains_key(h) <==> exists|a: int|
                            old_data@.len() <= a < pre.cap() && #[trigger] pre.holds(a, h) by {
                        if exists|a: int| old_data@.len() <= a < pre.cap() && #[trigger] pre.holds(a, h) {
                            let a = choose|a: int| old_data@.len() <= a < pre.cap() && #[trigger] pre.holds(a, h);
                            assert(a != n);
                        }
                    }
                }
            }
        }
        proof {
            assert(self@ =~= pre@);
            vstd::set_lib::lemma_len_subset(self@.dom(), pre@.dom());
        }
    }

    /// `x` reduced modulo the capacity, by masking with `capacity - 1`.
    fn modulo(&self, x: u64) -> (r: usize)
        requires
            self.wf_shape(),
        ensures
            r as int == x as int % self.cap(),
            r < self.capacity,
    {
        proof {
            let n = self.log@;
            if n >= 64 {
                lemma2_to64();
                lemma_pow2_strictly_increases(63, n);
                lemma2_to64_rest();
            }
            lemma_u64_low_bits_mask_is_mod(x, n);
            assert(low_bits_mask(n) == pow2(n) - 1);
        }
        (x & ((self.capacity - 1) as u64)) as usize
    }
}

} // verus!
