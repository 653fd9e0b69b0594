//! The hash table: Robin Hood probe/insertion engine, backward-shift
//! deletion, and growth control over a power-of-two bucket array.

use vstd::prelude::*;
use crate::HashType;
use crate::node::Node;
use crate::bucket_math::{slot_index, next_index, prev_index, probe_offset, is_pow2};
use crate::bucket_math::{
    lemma_slot_index_bound, lemma_slot_index_step, lemma_slot_index_zero, lemma_probe_offset,
    lemma_pow2_double, wrap_index, offset_from, lemma_wrap_index_zero,
    lemma_wrap_index_step, lemma_wrap_index_injective, lemma_offset_from,
};

verus! {

/// The smallest bucket-array capacity the table ever uses.
pub const MIN_CAPACITY: usize = 4;

/// The largest bucket-array capacity the table ever uses.
pub const MAX_CAPACITY: usize = 0x4000_0000;

/// Inserting is allowed while the table holds fewer entries than this; the
/// bound keeps the doubled capacity and the load-factor arithmetic inside
/// the machine's integer range.
pub const MAX_ITEMS: usize = 500_000_000;

/// The load-factor threshold, as the fraction `LOAD_NUM / LOAD_DEN`: an
/// insertion that would push `occupied / capacity` over this ratio grows
/// the table first.
pub const LOAD_NUM: usize = 7;

/// See [`LOAD_NUM`].
pub const LOAD_DEN: usize = 10;

/// The hash of `key` under `seed`: xor-shift rounds that spread key bits
/// across the hash so that bucket selection is pseudo-randomized.
pub open spec fn hash_spec(seed: u32, key: u32) -> HashType {
    let x0 = key ^ seed;
    let x1 = x0 ^ (x0 << 13);
    let x2 = x1 ^ (x1 >> 17);
    x2 ^ (x2 << 5)
}

/// The slot at index `i` is internally consistent: well formed, and if
/// occupied it caches the right hash, sits within `capacity` buckets of its
/// ideal bucket, and its index matches its probe distance.
pub open spec fn slot_ok<V>(s: Seq<Node<u32, V>>, seed: u32, i: int) -> bool {
    let cap = s.len() as int;
    let n = s[i];
    &&& n.wf()
    &&& n.occupied() ==> {
        &&& 0 <= n.spec_distance() < cap
        &&& n.spec_hash() == hash_spec(seed, n.spec_key())
        &&& i == slot_index(n.spec_hash(), n.spec_distance(), cap)
    }
}

/// The Robin Hood / no-tombstone invariant at index `i`: an occupied slot
/// with a positive probe distance has an occupied predecessor that is at
/// most one bucket closer to its own ideal bucket.  Scanning forward from
/// any present key's ideal bucket therefore never crosses an empty slot
/// before reaching that key.
pub open spec fn pred_ok<V>(s: Seq<Node<u32, V>>, i: int) -> bool {
    let cap = s.len() as int;
    let n = s[i];
    (n.occupied() && n.spec_distance() > 0) ==> {
        let p = prev_index(i, cap);
        &&& s[p].occupied()
        &&& s[p].spec_distance() >= n.spec_distance() - 1
    }
}

/// The number of occupied slots in the bucket array.
pub open spec fn num_occupied<V>(s: Seq<Node<u32, V>>) -> int
    decreases s.len(),
{
    if s.len() == 0 {
        0
    } else {
        num_occupied(s.drop_last()) + if s.last().occupied() {
            1int
        } else {
            0int
        }
    }
}

proof fn lemma_num_occupied_push<V>(s: Seq<Node<u32, V>>, n: Node<u32, V>)
    ensures
        num_occupied(s.push(n)) == num_occupied(s) + if n.occupied() {
            1int
        } else {
            0int
        },
{
    assert(s.push(n).drop_last() =~= s);
}

proof fn lemma_num_occupied_update<V>(s: Seq<Node<u32, V>>, i: int, n: Node<u32, V>)
    requires
        0 <= i < s.len(),
    ensures
        num_occupied(s.update(i, n)) == num_occupied(s) + (if n.occupied() {
            1int
        } else {
            0int
        }) - (if s[i].occupied() {
            1int
        } else {
            0int
        }),
    decreases s.len(),
{
    let s2 = s.update(i, n);
    if i == s.len() - 1 {
        assert(s2.drop_last() =~= s.drop_last());
        assert(s2.last() == n);
    } else {
        lemma_num_occupied_update(s.drop_last(), i, n);
        assert(s2.drop_last() =~= s.drop_last().update(i, n));
        assert(s2.last() == s.last());
    }
}

proof fn lemma_num_occupied_le_len<V>(s: Seq<Node<u32, V>>)
    ensures
        0 <= num_occupied(s) <= s.len(),
    decreases s.len(),
{
    if s.len() > 0 {
        lemma_num_occupied_le_len(s.drop_last());
    }
}

proof fn lemma_num_occupied_all<V>(s: Seq<Node<u32, V>>)
    requires
        forall|j: int| 0 <= j < s.len() ==> s[j].occupied(),
    ensures
        num_occupied(s) == s.len(),
    decreases s.len(),
{
    if s.len() > 0 {
        lemma_num_occupied_all(s.drop_last());
    }
}

proof fn lemma_num_occupied_none<V>(s: Seq<Node<u32, V>>)
    requires
        forall|j: int| 0 <= j < s.len() ==> !s[j].occupied(),
    ensures
        num_occupied(s) == 0,
    decreases s.len(),
{
    if s.len() > 0 {
        lemma_num_occupied_none(s.drop_last());
    }
}

/// What a lookup probe for `key` (hash `h`) has established after passing
/// bucket offset `t`: the bucket is occupied by a different key whose probe
/// distance is at least `t`.
pub open spec fn probe_seen<V>(s: Seq<Node<u32, V>>, h: HashType, key: u32, t: int) -> bool {
    let p = slot_index(h, t, s.len() as int);
    &&& s[p].occupied()
    &&& s[p].spec_key() != key
    &&& s[p].spec_distance() >= t
}

/// Walking back along a probe chain: when an occupied slot sits `d0`
/// buckets past the ideal bucket of hash `h`, every bucket on the way
/// there is occupied, at a probe distance no smaller than its offset from
/// that ideal bucket.  This is the no-tombstone invariant in the form a
/// forward scan uses.
pub proof fn lemma_probe_chain<V>(s: Seq<Node<u32, V>>, seed: u32, h: HashType, d0: int, t: int)
    requires
        forall|i: int| 0 <= i < s.len() ==> slot_ok(s, seed, i),
        forall|i: int| 0 <= i < s.len() ==> pred_ok(s, i),
        s.len() >= 1,
        0 <= t <= d0 < s.len(),
        s[slot_index(h, d0, s.len() as int)].occupied(),
        s[slot_index(h, d0, s.len() as int)].spec_distance() == d0,
        s[slot_index(h, d0, s.len() as int)].spec_hash() == h,
    ensures
        s[slot_index(h, t, s.len() as int)].occupied(),
        s[slot_index(h, t, s.len() as int)].spec_distance() >= t,
    decreases d0 - t,
{
    let cap = s.len() as int;
    lemma_slot_index_bound(h, t, cap);
    lemma_slot_index_bound(h, d0, cap);
    if t < d0 {
        lemma_probe_chain(s, seed, h, d0, t + 1);
        let p1 = slot_index(h, t + 1, cap);
        lemma_slot_index_bound(h, t + 1, cap);
        assert(pred_ok(s, p1));
        lemma_slot_index_step(h, t, cap);
    }
}

/// A probe that stops at offset `d` — on an empty bucket or on an entry
/// that sits closer to its own ideal bucket than `d` — proves the key
/// absent: were the key present, the chain lemma would put it (or another
/// occupied slot) on every earlier bucket of the scan.
proof fn lemma_probe_miss<V>(t: &HashTable<V>, key: u32, h: HashType, d: int)
    requires
        t.wf(),
        h == hash_spec(t.spec_seed(), key),
        0 <= d < t.spec_capacity(),
        forall|u: int| 0 <= u < d ==> probe_seen(t.nodes@, h, key, u),
        ({
            let p = slot_index(h, d, t.spec_capacity());
            !t.nodes@[p].occupied() || t.nodes@[p].spec_distance() < d
        }),
    ensures
        !t@.contains_key(key),
{
    let s = t.nodes@;
    let cap = t.spec_capacity();
    if t.contents@.contains_key(key) {
        let i0 = t.slot_of@[key];
        assert(slot_ok(s, t.seed, i0));
        let d0 = s[i0].spec_distance();
        assert(s[i0].spec_hash() == h);
        assert(i0 == slot_index(h, d0, cap));
        if d0 < d {
            assert(probe_seen(s, h, key, d0));
            assert(false);
        } else {
            lemma_probe_chain(s, t.seed, h, d0, d);
            assert(false);
        }
    }
}

/// The map held by the first `n` slots of a bucket array.
pub open spec fn map_of_prefix<V>(s: Seq<Node<u32, V>>, n: int) -> Map<u32, V>
    decreases n,
{
    if n <= 0 {
        Map::empty()
    } else if s[n - 1].occupied() {
        map_of_prefix(s, n - 1).insert(s[n - 1].spec_key(), s[n - 1].spec_value())
    } else {
        map_of_prefix(s, n - 1)
    }
}

proof fn lemma_map_of_prefix_contains<V>(s: Seq<Node<u32, V>>, n: int, k: u32)
    requires
        0 <= n <= s.len(),
    ensures
        map_of_prefix(s, n).contains_key(k) <==> exists|u: int|
            0 <= u < n && (#[trigger] s[u]).occupied() && s[u].spec_key() == k,
    decreases n,
{
    if n > 0 {
        lemma_map_of_prefix_contains(s, n - 1, k);
        if s[n - 1].occupied() && s[n - 1].spec_key() == k {
            assert(0 <= n - 1 < n && s[n - 1].occupied() && s[n - 1].spec_key() == k);
        }
    }
}

proof fn lemma_map_of_prefix_get<V>(s: Seq<Node<u32, V>>, n: int, u: int)
    requires
        0 <= u < n <= s.len(),
        s[u].occupied(),
        forall|a: int, b: int|
            0 <= a < b < n && (#[trigger] s[a]).occupied() && (#[trigger] s[b]).occupied()
                ==> s[a].spec_key() != s[b].spec_key(),
    ensures
        map_of_prefix(s, n).contains_key(s[u].spec_key()),
        map_of_prefix(s, n)[s[u].spec_key()] == s[u].spec_value(),
    decreases n,
{
    if u < n - 1 {
        lemma_map_of_prefix_get(s, n - 1, u);
    }
}

proof fn lemma_num_occupied_take_le<V>(s: Seq<Node<u32, V>>, n: int)
    requires
        0 <= n <= s.len(),
    ensures
        num_occupied(s.take(n)) <= num_occupied(s),
    decreases s.len(),
{
    if n == s.len() {
        assert(s.take(n) =~= s);
    } else {
        assert(s.take(n) =~= s.drop_last().take(n));
        lemma_num_occupied_take_le(s.drop_last(), n);
    }
}

/// An open-addressing hash table using Robin Hood hashing with
/// backward-shift deletion.  Viewed abstractly it is a finite map from
/// keys to values.
pub struct HashTable<V> {
    nodes: Vec<Node<u32, V>>,
    number_of_items: usize,
    seed: u32,
    contents: Ghost<Map<u32, V>>,
    slot_of: Ghost<Map<u32, int>>,
}

impl<V> View for HashTable<V> {
    type V = Map<u32, V>;

    closed spec fn view(&self) -> Map<u32, V> {
        self.contents@
    }
}

impl<V> HashTable<V> {
    /// The current bucket-array capacity.
    pub closed spec fn spec_capacity(self) -> int {
        self.nodes@.len() as int
    }

    /// The seed the hash function was instantiated with.
    pub closed spec fn spec_seed(self) -> u32 {
        self.seed
    }

    /// The table's internal invariant: a power-of-two bucket array within
    /// the capacity bounds, every slot consistent (`slot_ok`), the Robin
    /// Hood / no-tombstone invariant at every slot (`pred_ok`), the load
    /// factor at most `LOAD_NUM / LOAD_DEN`, the entry count equal to the number of occupied
    /// slots, and the abstract map in exact correspondence with the
    /// occupied slots.
    pub closed spec fn wf(self) -> bool {
        let s = self.nodes@;
        let cap = s.len() as int;
        let m = self.contents@;
        let loc = self.slot_of@;
        &&& MIN_CAPACITY <= cap <= MAX_CAPACITY
        &&& is_pow2(cap)
        &&& forall|i: int| 0 <= i < cap ==> slot_ok(s, self.seed, i)
        &&& forall|i: int| 0 <= i < cap ==> pred_ok(s, i)
        &&& LOAD_DEN * (self.number_of_items as int) <= LOAD_NUM * cap
        &&& self.number_of_items as int == num_occupied(s)
        &&& m.dom().finite()
        &&& m.dom().len() == self.number_of_items
        &&& forall|i: int|
            0 <= i < cap && (#[trigger] s[i]).occupied() ==> {
                &&& m.contains_key(s[i].spec_key())
                &&& loc.contains_key(s[i].spec_key())
                &&& loc[s[i].spec_key()] == i
            }
        &&& forall|k: u32|
            #[trigger] m.contains_key(k) ==> {
                &&& loc.contains_key(k)
                &&& 0 <= loc[k] < cap
                &&& s[loc[k]].occupied()
                &&& s[loc[k]].spec_key() == k
                &&& s[loc[k]].spec_value() == m[k]
            }
    }

    /// Builds an empty table with the given power-of-two capacity and seed.
    fn make(capacity: usize, seed: u32) -> (r: Self)
        requires
            is_pow2(capacity as int),
            MIN_CAPACITY <= capacity <= MAX_CAPACITY,
        ensures
            r.wf(),
            r@ == Map::<u32, V>::empty(),
            r.spec_capacity() == capacity,
            r.spec_seed() == seed,
    {
        let mut nodes: Vec<Node<u32, V>> = Vec::new();
        let mut i: usize = 0;
        while i < capacity
            invariant
                i <= capacity,
                nodes@.len() == i,
                num_occupied(nodes@) == 0,
                forall|j: int|
                    0 <= j < i ==> (#[trigger] nodes@[j]).wf() && !nodes@[j].occupied(),
            decreases capacity - i,
        {
            let n = Node::new();
            proof {
                lemma_num_occupied_push(nodes@, n);
            }
            nodes.push(n);
            i = i + 1;
        }
        let r = HashTable {
            nodes,
            number_of_items: 0,
            seed,
            contents: Ghost(Map::empty()),
            slot_of: Ghost(Map::empty()),
        };
        proof {
            assert forall|j: int| 0 <= j < capacity implies slot_ok(r.nodes@, seed, j) by {
                assert(r.nodes@[j].wf());
            }
            assert forall|j: int| 0 <= j < capacity implies pred_ok(r.nodes@, j) by {
                assert(!r.nodes@[j].occupied());
            }
            assert(Map::<u32, V>::empty().dom() =~= Set::<u32>::empty());
        }
        r
    }

    /// Returns an empty table with the default capacity and seed.
    pub fn new() -> (r: Self)
        ensures
            r.wf(),
            r@ == Map::<u32, V>::empty(),
            r.spec_capacity() == 8,
    {
        Self::with_seed(0)
    }

    /// Returns an empty table with the default capacity, hashing with the
    /// given seed.
    pub fn with_seed(seed: u32) -> (r: Self)
        ensures
            r.wf(),
            r@ == Map::<u32, V>::empty(),
            r.spec_capacity() == 8,
            r.spec_seed() == seed,
    {
        proof {
            reveal_with_fuel(is_pow2, 5);
        }
        Self::make(8, seed)
    }

    /// Returns an empty table whose capacity is the smallest power of two
    /// that is at least `capacity` (and at least the configured minimum).
    pub fn with_capacity(capacity: usize) -> (r: Self)
        requires
            capacity <= MAX_CAPACITY,
        ensures
            r.wf(),
            r@ == Map::<u32, V>::empty(),
            is_pow2(r.spec_capacity()),
            r.spec_capacity() >= capacity,
            r.spec_capacity() >= MIN_CAPACITY,
            r.spec_capacity() == MIN_CAPACITY || r.spec_capacity() < 2 * capacity,
    {
        Self::with_capacity_and_seed(capacity, 0)
    }

    /// Returns an empty table with the given seed whose capacity is the
    /// smallest power of two that is at least `capacity` (and at least the
    /// configured minimum).
    pub fn with_capacity_and_seed(capacity: usize, seed: u32) -> (r: Self)
        requires
            capacity <= MAX_CAPACITY,
        ensures
            r.wf(),
            r@ == Map::<u32, V>::empty(),
            is_pow2(r.spec_capacity()),
            r.spec_capacity() >= capacity,
            r.spec_capacity() >= MIN_CAPACITY,
            r.spec_capacity() == MIN_CAPACITY || r.spec_capacity() < 2 * capacity,
            r.spec_seed() == seed,
    {
        proof {
            reveal_with_fuel(is_pow2, 3);
        }
        let mut cap: usize = MIN_CAPACITY;
        while cap < capacity
            invariant
                capacity <= MAX_CAPACITY,
                is_pow2(cap as int),
                MIN_CAPACITY <= cap <= MAX_CAPACITY,
                cap == MIN_CAPACITY || cap < 2 * capacity,
            decreases 2 * capacity - cap,
        {
            proof {
                crate::bucket_math::lemma_large_pow2();
                if (cap as int) < MAX_CAPACITY {
                    lemma_pow2_double(cap as int, MAX_CAPACITY as int);
                }
                crate::bucket_math::lemma_pow2_times_two(cap as int);
            }
            cap = cap * 2;
        }
        Self::make(cap, seed)
    }

    /// The number of entries currently stored.
    pub fn len(&self) -> (r: usize)
        requires
            self.wf(),
        ensures
            r == self@.len(),
    {
        self.number_of_items
    }

    /// Whether the table holds no entries.
    pub fn is_empty(&self) -> (r: bool)
        requires
            self.wf(),
        ensures
            r == (self@.len() == 0),
    {
        self.number_of_items == 0
    }

    /// The current bucket-array capacity.
    pub fn capacity(&self) -> (r: usize)
        requires
            self.wf(),
        ensures
            r == self.spec_capacity(),
    {
        self.nodes.len()
    }

    /// The bucket array as a sequence of slots (for stating invariants).
    pub closed spec fn spec_slots(self) -> Seq<Node<u32, V>> {
        self.nodes@
    }

    /// The number of occupied slots in the bucket array.
    pub closed spec fn spec_occupied_slots(self) -> int {
        num_occupied(self.nodes@)
    }

    /// The entry count always equals the number of occupied bucket slots,
    /// and the abstract map is finite with exactly that many keys.
    pub proof fn lemma_len_counts_occupied_slots(&self)
        requires
            self.wf(),
        ensures
            self@.len() == self.spec_occupied_slots(),
            self@.dom().finite(),
    {
    }

    /// The no-tombstone invariant, observed from outside: every present
    /// key sits some distance `d0` past its ideal bucket, under its own
    /// hash, and every bucket from the ideal bucket up to and including its
    /// slot is occupied — a forward scan reaches the key without ever
    /// crossing an empty slot.  (That no absent key is found by such a scan
    /// is exactly the `None` case of `get` and `contains_key`.)
    pub proof fn lemma_no_tombstone(&self, key: u32) -> (d0: int)
        requires
            self.wf(),
            self@.contains_key(key),
        ensures
            0 <= d0 < self.spec_capacity(),
            ({
                let h = hash_spec(self.spec_seed(), key);
                let s = self.spec_slots();
                let cap = self.spec_capacity();
                &&& s[slot_index(h, d0, cap)].occupied()
                &&& s[slot_index(h, d0, cap)].spec_key() == key
                &&& forall|u: int|
                    0 <= u <= d0 ==> (#[trigger] s[slot_index(h, u, cap)]).occupied()
            }),
    {
        let s = self.nodes@;
        let cap = self.spec_capacity();
        let h = hash_spec(self.spec_seed(), key);
        let i0 = self.slot_of@[key];
        assert(slot_ok(s, self.seed, i0));
        let d = s[i0].spec_distance();
        assert(i0 == slot_index(h, d, cap));
        assert forall|u: int| 0 <= u <= d implies (#[trigger] s[slot_index(h, u, cap)]).occupied() by {
            lemma_probe_chain(s, self.seed, h, d, u);
        }
        d
    }

    /// Computes the hash the table uses for `key`.
    fn hash_key(&self, key: u32) -> (r: HashType)
        ensures
            r == hash_spec(self.spec_seed(), key),
    {
        let x0 = key ^ self.seed;
        let x1 = x0 ^ (x0 << 13);
        let x2 = x1 ^ (x1 >> 17);
        x2 ^ (x2 << 5)
    }

    /// The lookup probe: scans forward from the ideal bucket of `h` and
    /// returns the index of the slot holding `key`, or `None` once an empty
    /// bucket or a richer entry proves the key absent.
    fn find_index(&self, key: u32, h: HashType) -> (r: Option<usize>)
        requires
            self.wf(),
            h == hash_spec(self.spec_seed(), key),
        ensures
            match r {
                Some(i) => {
                    &&& 0 <= i < self.spec_capacity()
                    &&& self.nodes@[i as int].occupied()
                    &&& self.nodes@[i as int].spec_key() == key
                    &&& self@.contains_key(key)
                },
                None => !self@.contains_key(key),
            },
    {
        let cap = self.nodes.len();
        let mut idx = (h as usize) % cap;
        let mut d: usize = 0;
        proof {
            lemma_slot_index_zero(h, cap as int);
            lemma_slot_index_bound(h, 0, cap as int);
        }
        loop
            invariant
                self.wf(),
                h == hash_spec(self.spec_seed(), key),
                cap == self.spec_capacity(),
                d <= cap,
                idx == slot_index(h, d as int, cap as int),
                idx < cap,
                forall|u: int| 0 <= u < d ==> probe_seen(self.nodes@, h, key, u),
            decreases cap - d,
        {
            proof {
                if d == cap {
                    assert forall|j: int| 0 <= j < cap implies self.nodes@[j].occupied() by {
                        lemma_probe_offset(h, j, cap as int);
                        assert(probe_seen(self.nodes@, h, key, probe_offset(h, j, cap as int)));
                    }
                    lemma_num_occupied_all(self.nodes@);
                    assert(false);
                }
                assert(slot_ok(self.nodes@, self.seed, idx as int));
            }
            if !self.nodes[idx].has_value() {
                proof {
                    lemma_probe_miss(self, key, h, d as int);
                }
                return None;
            }
            let nd = self.nodes[idx].distance();
            if nd < d as i32 {
                proof {
                    lemma_probe_miss(self, key, h, d as int);
                }
                return None;
            }
            let nh = self.nodes[idx].hash();
            if nh == h {
                let key_matches = match self.nodes[idx].key_ref() {
                    Some(k0) => *k0 == key,
                    None => false,
                };
                if key_matches {
                    return Some(idx);
                }
            }
            proof {
                assert(self.nodes@[idx as int].spec_key() != key);
                assert(probe_seen(self.nodes@, h, key, d as int));
                lemma_slot_index_step(h, d as int, cap as int);
            }
            d = d + 1;
            idx = if idx == cap - 1 {
                0
            } else {
                idx + 1
            };
        }
    }

    /// Looks `key` up and returns a reference to its value, if present.
    pub fn get(&self, key: u32) -> (r: Option<&V>)
        requires
            self.wf(),
        ensures
            match r {
                Some(v) => self@.contains_key(key) && *v == self@[key],
                None => !self@.contains_key(key),
            },
    {
        let h = self.hash_key(key);
        match self.find_index(key, h) {
            Some(i) => {
                proof {
                    assert(slot_ok(self.nodes@, self.seed, i as int));
                    assert(self.contents@.contains_key(key));
                }
                self.nodes[i].value_ref()
            },
            None => None,
        }
    }

    /// The insertion walk for a key known to be absent: scans forward from
    /// the ideal bucket, swapping the candidate entry with any "richer"
    /// entry (one closer to its own ideal bucket) met on the way, and
    /// places the final candidate in the first empty bucket.
    fn insert_new(&mut self, key: u32, value: V, h: HashType)
        requires
            old(self).wf(),
            !old(self)@.contains_key(key),
            h == hash_spec(old(self).spec_seed(), key),
            LOAD_DEN * (old(self).number_of_items + 1) <= LOAD_NUM * old(self).spec_capacity(),
        ensures
            final(self).wf(),
            final(self)@ == old(self)@.insert(key, value),
            final(self).spec_capacity() == old(self).spec_capacity(),
            final(self).spec_seed() == old(self).spec_seed(),
            final(self).number_of_items == old(self).number_of_items + 1,
    {
        let cap = self.nodes.len();
        let mut new_node = Node::new_with(key, value, h);
        let mut idx = (h as usize) % cap;
        let mut steps: usize = 0;
        let ghost target = self.contents@.insert(key, value);
        proof {
            lemma_slot_index_zero(h, cap as int);
            lemma_slot_index_bound(h, 0, cap as int);
        }
        loop
            invariant
                self.wf(),
                cap == self.spec_capacity(),
                cap == old(self).spec_capacity(),
                target == old(self)@.insert(key, value),
                self.spec_seed() == old(self).spec_seed(),
                self.number_of_items == old(self).number_of_items,
                LOAD_DEN * (self.number_of_items as int + 1) <= LOAD_NUM * (cap as int),
                new_node.wf(),
                new_node.occupied(),
                new_node.spec_hash() == hash_spec(self.spec_seed(), new_node.spec_key()),
                !self.contents@.contains_key(new_node.spec_key()),
                0 <= new_node.spec_distance() <= steps,
                steps <= cap,
                idx < cap,
                idx == slot_index(new_node.spec_hash(), new_node.spec_distance(), cap as int),
                idx == slot_index(h, steps as int, cap as int),
                new_node.spec_distance() > 0 ==> {
                    let p = prev_index(idx as int, cap as int);
                    &&& self.nodes@[p].occupied()
                    &&& self.nodes@[p].spec_distance() >= new_node.spec_distance() - 1
                },
                self.contents@.insert(new_node.spec_key(), new_node.spec_value()) == target,
                forall|u: int|
                    0 <= u < steps ==> (#[trigger] self.nodes@[slot_index(
                        h,
                        u,
                        cap as int,
                    )]).occupied(),
            decreases cap - steps,
        {
            proof {
                if steps == cap {
                    assert forall|j: int| 0 <= j < cap implies self.nodes@[j].occupied() by {
                        lemma_probe_offset(h, j, cap as int);
                        assert(self.nodes@[slot_index(
                            h,
                            probe_offset(h, j, cap as int),
                            cap as int,
                        )].occupied());
                    }
                    lemma_num_occupied_all(self.nodes@);
                    assert(false);
                }
                assert(slot_ok(self.nodes@, self.seed, idx as int));
            }
            let ghost s1 = self.nodes@;
            let ghost m1 = self.contents@;
            let ghost loc1 = self.slot_of@;
            let ghost ck = new_node.spec_key();
            let ghost cv = new_node.spec_value();
            let ghost cd = new_node.spec_distance();
            let ghost idxi = idx as int;
            let ghost capi = cap as int;
            if !self.nodes[idx].has_value() {
                let cand = new_node;
                let slot = &mut self.nodes[idx];
                *slot = cand;
                self.number_of_items = self.number_of_items + 1;
                self.contents = Ghost(self.contents@.insert(ck, cv));
                self.slot_of = Ghost(self.slot_of@.insert(ck, idxi));
                proof {
                    let s2 = self.nodes@;
                    let m2 = self.contents@;
                    let loc2 = self.slot_of@;
                    lemma_num_occupied_update(s1, idxi, s2[idxi]);
                    vstd::set::axiom_set_insert_len(m1.dom(), ck);
                    vstd::set::axiom_set_insert_finite(m1.dom(), ck);
                    assert(m2.dom() =~= m1.dom().insert(ck));
                    assert forall|j: int| 0 <= j < capi implies slot_ok(s2, self.seed, j) by {
                        assert(slot_ok(s1, self.seed, j));
                    }
                    assert forall|j: int| 0 <= j < capi implies pred_ok(s2, j) by {
                        assert(pred_ok(s1, j));
                        let p = prev_index(j, capi);
                        if j != idxi && p == idxi {
                            assert(pred_ok(s1, j));
                        }
                    }
                    assert forall|j: int|
                        0 <= j < capi && (#[trigger] s2[j]).occupied() implies {
                            &&& m2.contains_key(s2[j].spec_key())
                            &&& loc2.contains_key(s2[j].spec_key())
                            &&& loc2[s2[j].spec_key()] == j
                        } by {
                        if j != idxi {
                            assert(s2[j] == s1[j]);
                            assert(s1[j].spec_key() != ck);
                        }
                    }
                    assert forall|k: u32| #[trigger] m2.contains_key(k) implies {
                        &&& loc2.contains_key(k)
                        &&& 0 <= loc2[k] < capi
                        &&& s2[loc2[k]].occupied()
                        &&& s2[loc2[k]].spec_key() == k
                        &&& s2[loc2[k]].spec_value() == m2[k]
                    } by {
                        if k != ck {
                            assert(m1.contains_key(k));
                            assert(s1[loc1[k]].occupied());
                            assert(loc1[k] != idxi);
                        }
                    }
                    assert(self.wf());
                    assert(self.contents@ == target);
                }
                return;
            }
            let sd = self.nodes[idx].distance();
            let cdist = new_node.distance();
            if sd < cdist {
                let ghost outgoing = s1[idxi].spec_key();
                let ghost out_val = s1[idxi].spec_value();
                core::mem::swap(&mut self.nodes[idx], &mut new_node);
                self.contents = Ghost(self.contents@.remove(outgoing).insert(ck, cv));
                self.slot_of = Ghost(self.slot_of@.remove(outgoing).insert(ck, idxi));
                proof {
                    let s2 = self.nodes@;
                    let m2 = self.contents@;
                    let loc2 = self.slot_of@;
                    assert(s1[idxi].occupied());
                    assert(m1.contains_key(outgoing));
                    assert(loc1[outgoing] == idxi);
                    assert(outgoing != ck);
                    lemma_num_occupied_update(s1, idxi, s2[idxi]);
                    vstd::set::axiom_set_remove_len(m1.dom(), outgoing);
                    vstd::set::axiom_set_remove_finite(m1.dom(), outgoing);
                    vstd::set::axiom_set_insert_len(m1.dom().remove(outgoing), ck);
                    vstd::set::axiom_set_insert_finite(m1.dom().remove(outgoing), ck);
                    assert(m2.dom() =~= m1.dom().remove(outgoing).insert(ck));
                    assert forall|j: int| 0 <= j < capi implies slot_ok(s2, self.seed, j) by {
                        assert(slot_ok(s1, self.seed, j));
                    }
                    assert forall|j: int| 0 <= j < capi implies pred_ok(s2, j) by {
                        assert(pred_ok(s1, j));
                        let p = prev_index(j, capi);
                        if j == idxi {
                        } else if p == idxi {
                            assert(s2[p].spec_distance() == cd > sd);
                        }
                    }
                    assert forall|j: int|
                        0 <= j < capi && (#[trigger] s2[j]).occupied() implies {
                            &&& m2.contains_key(s2[j].spec_key())
                            &&& loc2.contains_key(s2[j].spec_key())
                            &&& loc2[s2[j].spec_key()] == j
                        } by {
                        if j != idxi {
                            assert(s2[j] == s1[j]);
                            assert(s1[j].spec_key() != ck);
                            assert(loc1[s1[j].spec_key()] == j);
                            assert(loc1[outgoing] == idxi);
                            assert(s1[j].spec_key() != outgoing);
                        }
                    }
                    assert forall|k: u32| #[trigger] m2.contains_key(k) implies {
                        &&& loc2.contains_key(k)
                        &&& 0 <= loc2[k] < capi
                        &&& s2[loc2[k]].occupied()
                        &&& s2[loc2[k]].spec_key() == k
                        &&& s2[loc2[k]].spec_value() == m2[k]
                    } by {
                        if k != ck {
                            assert(m1.contains_key(k));
                            assert(s1[loc1[k]].occupied());
                            assert(loc1[k] != idxi);
                        }
                    }
                    assert(self.wf());
                    // the displaced entry, reinserted, still completes the target map
                    assert(m2.insert(outgoing, out_val) =~= m1.insert(ck, cv));
                    assert(m2.insert(new_node.spec_key(), new_node.spec_value()) == target);
                    assert(!m2.contains_key(outgoing));
                    // carried predecessor fact for the displaced candidate
                    assert(idxi == slot_index(new_node.spec_hash(), sd as int, capi));
                }
            }
            proof {
                assert(self.nodes@[idxi].occupied());
                assert(self.nodes@[idxi].spec_distance() >= new_node.spec_distance());
                lemma_slot_index_step(h, steps as int, cap as int);
                lemma_slot_index_step(
                    new_node.spec_hash(),
                    new_node.spec_distance(),
                    cap as int,
                );
            }
            new_node.increment_distance();
            steps = steps + 1;
            idx = if idx == cap - 1 {
                0
            } else {
                idx + 1
            };
        }
    }

    /// Doubles the capacity and rebuilds every entry into the new bucket
    /// array, with probe distances recomputed from scratch.  The contents
    /// are preserved exactly.
    fn grow(&mut self)
        requires
            old(self).wf(),
            old(self).spec_capacity() <= 0x2000_0000,
        ensures
            final(self).wf(),
            final(self)@ == old(self)@,
            final(self).spec_capacity() == 2 * old(self).spec_capacity(),
            final(self).spec_seed() == old(self).spec_seed(),
            final(self).number_of_items == old(self).number_of_items,
    {
        let old_cap = self.nodes.len();
        let new_cap = old_cap * 2;
        let mut old_nodes: Vec<Node<u32, V>> = Vec::new();
        core::mem::swap(&mut self.nodes, &mut old_nodes);
        let ghost g = old_nodes@;
        let ghost old_m = self.contents@;
        let ghost old_items = old(self).number_of_items as int;
        proof {
            crate::bucket_math::lemma_pow2_times_two(old_cap as int);
            // facts about the detached array, taken from the old invariant
            assert(forall|u: int| 0 <= u < old_cap ==> slot_ok(g, self.seed, u));
            assert forall|a: int, b: int|
                0 <= a < b < old_cap && (#[trigger] g[a]).occupied() && (
                #[trigger] g[b]).occupied() implies g[a].spec_key() != g[b].spec_key() by {
                assert(self.slot_of@[g[a].spec_key()] == a);
                assert(self.slot_of@[g[b].spec_key()] == b);
            }
        }
        let ghost seed0 = self.seed;
        let mut nodes: Vec<Node<u32, V>> = Vec::new();
        let mut i: usize = 0;
        while i < new_cap
            invariant
                i <= new_cap,
                nodes@.len() == i,
                num_occupied(nodes@) == 0,
                forall|j: int|
                    0 <= j < i ==> (#[trigger] nodes@[j]).wf() && !nodes@[j].occupied(),
            decreases new_cap - i,
        {
            let n = Node::new();
            proof {
                lemma_num_occupied_push(nodes@, n);
            }
            nodes.push(n);
            i = i + 1;
        }
        self.nodes = nodes;
        self.number_of_items = 0;
        self.contents = Ghost(Map::empty());
        self.slot_of = Ghost(Map::empty());
        proof {
            assert forall|j: int| 0 <= j < new_cap implies slot_ok(self.nodes@, self.seed, j) by {
                assert(self.nodes@[j].wf());
            }
            assert forall|j: int| 0 <= j < new_cap implies pred_ok(self.nodes@, j) by {
                assert(!self.nodes@[j].occupied());
            }
            assert(Map::<u32, V>::empty().dom() =~= Set::<u32>::empty());
            assert(self.wf());
        }
        let mut j: usize = 0;
        while j < old_cap
            invariant
                self.wf(),
                j <= old_cap,
                old_cap >= MIN_CAPACITY,
                new_cap == 2 * old_cap,
                self.spec_capacity() == new_cap,
                self.spec_seed() == seed0,
                old_nodes@.len() == old_cap,
                g.len() == old_cap,
                forall|u: int| j <= u < old_cap ==> old_nodes@[u] == g[u],
                forall|u: int| 0 <= u < old_cap ==> slot_ok(g, seed0, u),
                forall|a: int, b: int|
                    0 <= a < b < old_cap && (#[trigger] g[a]).occupied() && (
                    #[trigger] g[b]).occupied() ==> g[a].spec_key() != g[b].spec_key(),
                self.contents@ == map_of_prefix(g, j as int),
                self.number_of_items as int == num_occupied(g.take(j as int)),
                old_items == num_occupied(g),
                LOAD_DEN * old_items <= LOAD_NUM * (old_cap as int),
            decreases old_cap - j,
        {
            proof {
                assert(slot_ok(g, seed0, j as int));
                assert(g.take(j as int + 1) =~= g.take(j as int).push(g[j as int]));
                lemma_num_occupied_push(g.take(j as int), g[j as int]);
                lemma_num_occupied_take_le(g, j as int + 1);
            }
            let slot = &mut old_nodes[j];
            let taken = slot.take_key_value();
            match taken {
                Some((k, v, h)) => {
                    proof {
                        lemma_map_of_prefix_contains(g, j as int, k);
                    }
                    self.insert_new(k, v, h);
                },
                None => {
                },
            }
            j = j + 1;
        }
        proof {
            assert(g.take(old_cap as int) =~= g);
            let m2 = self.contents@;
            assert forall|k: u32| #[trigger] old_m.contains_key(k) implies m2.contains_key(k)
                && m2[k] == old_m[k] by {
                let u = old(self).slot_of@[k];
                assert(g[u].occupied() && g[u].spec_key() == k && g[u].spec_value() == old_m[k]);
                lemma_map_of_prefix_get(g, old_cap as int, u);
            }
            assert forall|k: u32| #[trigger] m2.contains_key(k) implies old_m.contains_key(k) by {
                lemma_map_of_prefix_contains(g, old_cap as int, k);
                let u = choose|u: int|
                    0 <= u < old_cap && (#[trigger] g[u]).occupied() && g[u].spec_key() == k;
                assert(old_m.contains_key(g[u].spec_key()));
            }
            assert(m2 =~= old_m);
        }
    }

    /// Inserts `key` with `value`.  If the key was already present its
    /// value is replaced and the previous value returned; otherwise a
    /// fresh entry is created, growing the table first when the insertion
    /// would push the load factor over the threshold.
    pub fn insert(&mut self, key: u32, value: V) -> (r: Option<V>)
        requires
            old(self).wf(),
            old(self)@.len() < MAX_ITEMS,
        ensures
            final(self).wf(),
            final(self)@ == old(self)@.insert(key, value),
            r == if old(self)@.contains_key(key) {
                Some(old(self)@[key])
            } else {
                None::<V>
            },
            final(self).spec_seed() == old(self).spec_seed(),
    {
        let h = self.hash_key(key);
        match self.find_index(key, h) {
            Some(i) => {
                proof {
                    assert(slot_ok(self.nodes@, self.seed, i as int));
                    assert(self.contents@.contains_key(key));
                }
                let ghost s1 = self.nodes@;
                let ghost m1 = self.contents@;
                let ghost loc1 = self.slot_of@;
                let ghost capi = self.spec_capacity();
                let ghost ii = i as int;
                let slot = &mut self.nodes[i];
                let old_value = slot.replace_value(value);
                self.contents = Ghost(self.contents@.insert(key, value));
                proof {
                    let s2 = self.nodes@;
                    let m2 = self.contents@;
                    lemma_num_occupied_update(s1, ii, s2[ii]);
                    assert(m2.dom() =~= m1.dom());
                    assert forall|j: int| 0 <= j < capi implies slot_ok(s2, self.seed, j) by {
                        assert(slot_ok(s1, self.seed, j));
                    }
                    assert forall|j: int| 0 <= j < capi implies pred_ok(s2, j) by {
                        assert(pred_ok(s1, j));
                    }
                    assert forall|j: int|
                        0 <= j < capi && (#[trigger] s2[j]).occupied() implies {
                            &&& m2.contains_key(s2[j].spec_key())
                            &&& loc1.contains_key(s2[j].spec_key())
                            &&& loc1[s2[j].spec_key()] == j
                        } by {
                        if j != ii {
                            assert(s2[j] == s1[j]);
                        }
                    }
                    assert forall|k: u32| #[trigger] m2.contains_key(k) implies {
                        &&& loc1.contains_key(k)
                        &&& 0 <= loc1[k] < capi
                        &&& s2[loc1[k]].occupied()
                        &&& s2[loc1[k]].spec_key() == k
                        &&& s2[loc1[k]].spec_value() == m2[k]
                    } by {
                        assert(m1.contains_key(k));
                        if k != key {
                            assert(s1[loc1[k]].spec_key() == k);
                            assert(loc1[k] != ii);
                            assert(s2[loc1[k]] == s1[loc1[k]]);
                        }
                    }
                    assert(self.wf());
                }
                Some(old_value)
            },
            None => {
                let cap = self.nodes.len();
                if (LOAD_DEN as u64) * (self.number_of_items as u64 + 1) > (LOAD_NUM as u64) * (cap as u64) {
                    proof {
                        crate::bucket_math::lemma_large_pow2();
                        if (cap as int) < 0x4000_0000 {
                            lemma_pow2_double(cap as int, 0x4000_0000);
                        }
                    }
                    self.grow();
                }
                self.insert_new(key, value, h);
                None
            },
        }
    }

    /// Removes `key` and returns its value, if present.  A backward-shift
    /// walk then closes the gap: every trailing entry that sits past its
    /// ideal bucket moves one bucket back, so no tombstone is ever left
    /// between an entry and its ideal bucket.  Capacity never shrinks.
    pub fn remove(&mut self, key: u32) -> (r: Option<V>)
        requires
            old(self).wf(),
        ensures
            final(self).wf(),
            final(self)@ == old(self)@.remove(key),
            r == if old(self)@.contains_key(key) {
                Some(old(self)@[key])
            } else {
                None::<V>
            },
            final(self).spec_capacity() == old(self).spec_capacity(),
            final(self).spec_seed() == old(self).spec_seed(),
    {
        let h = self.hash_key(key);
        let found = self.find_index(key, h);
        match found {
            None => {
                proof {
                    assert(old(self)@.remove(key) =~= old(self)@);
                }
                None
            },
            Some(i) => {
                let cap = self.nodes.len();
                let ghost capi = cap as int;
                let ghost ii = i as int;
                let ghost s1 = self.nodes@;
                let ghost m1 = self.contents@;
                let ghost loc1 = self.slot_of@;
                proof {
                    assert(slot_ok(s1, self.seed, ii));
                    assert(m1.contains_key(key));
                    assert(loc1[key] == ii);
                }
                let slot = &mut self.nodes[i];
                let taken = slot.take_key_value();
                let value_out = match taken {
                    Some((_taken_key, taken_value, _taken_hash)) => taken_value,
                    None => unreached(),
                };
                proof {
                    lemma_num_occupied_update(s1, ii, self.nodes@[ii]);
                    lemma_num_occupied_le_len(self.nodes@);
                }
                self.number_of_items = self.number_of_items - 1;
                self.contents = Ghost(self.contents@.remove(key));
                self.slot_of = Ghost(self.slot_of@.remove(key));
                proof {
                    vstd::set::axiom_set_remove_len(m1.dom(), key);
                    vstd::set::axiom_set_remove_finite(m1.dom(), key);
                    assert(self.contents@.dom() =~= m1.dom().remove(key));
                    let s2 = self.nodes@;
                    assert forall|j: int| 0 <= j < capi implies slot_ok(s2, self.seed, j) by {
                        assert(slot_ok(s1, self.seed, j));
                    }
                    assert forall|j: int|
                        0 <= j < capi && j != next_index(ii, capi) implies pred_ok(s2, j) by {
                        assert(pred_ok(s1, j));
                    }
                    assert forall|j: int|
                        0 <= j < capi && (#[trigger] s2[j]).occupied() implies {
                            &&& self.contents@.contains_key(s2[j].spec_key())
                            &&& self.slot_of@.contains_key(s2[j].spec_key())
                            &&& self.slot_of@[s2[j].spec_key()] == j
                        } by {
                        if j != ii {
                            assert(s2[j] == s1[j]);
                            assert(loc1[s1[j].spec_key()] == j);
                            assert(s1[j].spec_key() != key);
                        }
                    }
                    assert forall|k: u32| #[trigger] self.contents@.contains_key(k) implies {
                        &&& self.slot_of@.contains_key(k)
                        &&& 0 <= self.slot_of@[k] < capi
                        &&& s2[self.slot_of@[k]].occupied()
                        &&& s2[self.slot_of@[k]].spec_key() == k
                        &&& s2[self.slot_of@[k]].spec_value() == self.contents@[k]
                    } by {
                        assert(m1.contains_key(k));
                        assert(loc1[k] != ii);
                        assert(s2[loc1[k]] == s1[loc1[k]]);
                    }
                    // the gap just created satisfies the bridge property
                    let nx = next_index(ii, capi);
                    let pv = prev_index(ii, capi);
                    if s2[nx].occupied() && s2[nx].spec_distance() >= 2 {
                        assert(pred_ok(s1, nx));
                        assert(s1[ii].spec_distance() >= s2[nx].spec_distance() - 1);
                        assert(pred_ok(s1, ii));
                    }
                    lemma_wrap_index_zero(ii, capi);
                }
                let mut hole = i;
                let mut steps: usize = 0;
                loop
                    invariant
                        cap == self.spec_capacity(),
                        capi == cap as int,
                        ii == i as int,
                        0 <= ii < capi,
                        self.spec_seed() == old(self).spec_seed(),
                        self.contents@ == old(self)@.remove(key),
                        self.number_of_items as int == old(self).number_of_items as int - 1,
                        MIN_CAPACITY <= capi <= MAX_CAPACITY,
                        is_pow2(capi),
                        self.nodes@.len() == capi,
                        (hole as int) < capi,
                        hole as int == wrap_index(ii, steps as int, capi),
                        steps < cap,
                        forall|j: int| 0 <= j < capi ==> slot_ok(self.nodes@, self.seed, j),
                        forall|j: int|
                            0 <= j < capi && j != next_index(hole as int, capi) ==> pred_ok(
                                self.nodes@,
                                j,
                            ),
                        !self.nodes@[hole as int].occupied(),
                        LOAD_DEN * (self.number_of_items as int) <= LOAD_NUM * capi,
                        self.number_of_items as int == num_occupied(self.nodes@),
                        self.contents@.dom().finite(),
                        self.contents@.dom().len() == self.number_of_items,
                        forall|j: int|
                            0 <= j < capi && (#[trigger] self.nodes@[j]).occupied() ==> {
                                &&& self.contents@.contains_key(self.nodes@[j].spec_key())
                                &&& self.slot_of@.contains_key(self.nodes@[j].spec_key())
                                &&& self.slot_of@[self.nodes@[j].spec_key()] == j
                            },
                        forall|k: u32|
                            #[trigger] self.contents@.contains_key(k) ==> {
                                &&& self.slot_of@.contains_key(k)
                                &&& 0 <= self.slot_of@[k] < capi
                                &&& self.nodes@[self.slot_of@[k]].occupied()
                                &&& self.nodes@[self.slot_of@[k]].spec_key() == k
                                &&& self.nodes@[self.slot_of@[k]].spec_value()
                                    == self.contents@[k]
                            },
                        ({
                            let nx = next_index(hole as int, capi);
                            let pv = prev_index(hole as int, capi);
                            (self.nodes@[nx].occupied() && self.nodes@[nx].spec_distance() >= 2)
                                ==> (self.nodes@[pv].occupied() && self.nodes@[pv].spec_distance()
                                    >= self.nodes@[nx].spec_distance() - 2)
                        }),
                        forall|u: int|
                            0 <= u < steps ==> (#[trigger] self.nodes@[wrap_index(
                                ii,
                                u,
                                capi,
                            )]).occupied(),
                    ensures
                        self.wf(),
                        self.contents@ == old(self)@.remove(key),
                        self.number_of_items as int == old(self).number_of_items as int - 1,
                        self.spec_capacity() == capi,
                        self.spec_seed() == old(self).spec_seed(),
                    decreases capi - steps,
                {
                    proof {
                        if steps == cap - 1 {
                            assert forall|j: int|
                                0 <= j < capi && j != hole as int implies self.nodes@[j].occupied()
                                by {
                                lemma_offset_from(ii, j, capi);
                                let t = offset_from(ii, j, capi);
                                if t >= steps as int {
                                    assert(t == steps as int);
                                    assert(j == hole as int);
                                }
                            }
                            lemma_wrap_index_zero(ii, capi);
                            let w = self.nodes@[ii];
                            assert(w.occupied());
                            let s_all = self.nodes@.update(hole as int, w);
                            lemma_num_occupied_update(self.nodes@, hole as int, w);
                            assert(forall|j: int| 0 <= j < capi ==> s_all[j].occupied());
                            lemma_num_occupied_all(s_all);
                            assert(false);
                        }
                    }
                    let nxt = if hole == cap - 1 {
                        0
                    } else {
                        hole + 1
                    };
                    proof {
                        lemma_wrap_index_step(ii, steps as int, capi);
                        assert(nxt as int == next_index(hole as int, capi));
                        assert(slot_ok(self.nodes@, self.seed, nxt as int));
                    }
                    if !self.nodes[nxt].has_value() {
                        proof {
                            assert forall|j: int| 0 <= j < capi implies pred_ok(
                                self.nodes@,
                                j,
                            ) by {
                                if j != next_index(hole as int, capi) {
                                } else {
                                    assert(!self.nodes@[j].occupied());
                                }
                            }
                            assert(self.wf());
                        }
                        break;
                    }
                    let nd = self.nodes[nxt].distance();
                    if nd == 0 {
                        proof {
                            assert forall|j: int| 0 <= j < capi implies pred_ok(
                                self.nodes@,
                                j,
                            ) by {
                                if j == next_index(hole as int, capi) {
                                    assert(self.nodes@[j].spec_distance() == 0);
                                }
                            }
                            assert(self.wf());
                        }
                        break;
                    }
                    let ghost s_a = self.nodes@;
                    let ghost loc_a = self.slot_of@;
                    let ghost dn = s_a[nxt as int].spec_distance();
                    let ghost moved_key = s_a[nxt as int].spec_key();
                    let ghost moved_hash = s_a[nxt as int].spec_hash();
                    let mut tmp = Node::new();
                    core::mem::swap(&mut self.nodes[nxt], &mut tmp);
                    tmp.decrement_distance();
                    let ghost empty_node = self.nodes@[nxt as int];
                    proof {
                        lemma_num_occupied_update(s_a, nxt as int, empty_node);
                    }
                    let hole_slot = &mut self.nodes[hole];
                    *hole_slot = tmp;
                    self.slot_of = Ghost(self.slot_of@.insert(moved_key, hole as int));
                    proof {
                        let s2 = self.nodes@;
                        let loc2 = self.slot_of@;
                        let holei = hole as int;
                        let nxti = nxt as int;
                        lemma_num_occupied_update(s_a.update(nxti, empty_node), holei, s2[holei]);
                        // the moved entry's new index matches its reduced distance
                        lemma_slot_index_bound(moved_hash, dn - 1, capi);
                        lemma_slot_index_step(moved_hash, dn - 1, capi);
                        assert(nxti == slot_index(moved_hash, dn, capi));
                        assert(holei == slot_index(moved_hash, dn - 1, capi));
                        assert forall|j: int| 0 <= j < capi implies slot_ok(s2, self.seed, j) by {
                            assert(slot_ok(s_a, self.seed, j));
                        }
                        assert forall|j: int|
                            0 <= j < capi && j != next_index(nxti, capi) implies pred_ok(
                            s2,
                            j,
                        ) by {
                            let p = prev_index(j, capi);
                            if j == holei {
                            } else if j == nxti {
                                assert(!s2[j].occupied());
                            } else {
                                assert(pred_ok(s_a, j));
                            }
                        }
                        // bridge at the new hole
                        let nx2 = next_index(nxti, capi);
                        if s2[nx2].occupied() && s2[nx2].spec_distance() >= 2 {
                            assert(nx2 != nxti && nx2 != holei);
                            assert(s2[nx2] == s_a[nx2]);
                            assert(pred_ok(s_a, nx2));
                            assert(prev_index(nx2, capi) == nxti);
                            assert(s_a[nxti].spec_distance() >= s2[nx2].spec_distance() - 1);
                            assert(s2[prev_index(nxti, capi)] == s2[holei]);
                        }
                        assert forall|j: int|
                            0 <= j < capi && (#[trigger] s2[j]).occupied() implies {
                                &&& self.contents@.contains_key(s2[j].spec_key())
                                &&& loc2.contains_key(s2[j].spec_key())
                                &&& loc2[s2[j].spec_key()] == j
                            } by {
                            if j != holei && j != nxti {
                                assert(s2[j] == s_a[j]);
                                assert(loc_a[s_a[j].spec_key()] == j);
                                assert(s_a[j].spec_key() != moved_key);
                            }
                        }
                        assert forall|k: u32|
                            #[trigger] self.contents@.contains_key(k) implies {
                                &&& loc2.contains_key(k)
                                &&& 0 <= loc2[k] < capi
                                &&& s2[loc2[k]].occupied()
                                &&& s2[loc2[k]].spec_key() == k
                                &&& s2[loc2[k]].spec_value() == self.contents@[k]
                            } by {
                            if k != moved_key {
                                assert(loc_a[k] != nxti);
                                assert(loc_a[k] != holei);
                                assert(s2[loc_a[k]] == s_a[loc_a[k]]);
                            }
                        }
                        // all buckets walked so far stay occupied
                        assert forall|u: int|
                            0 <= u < steps as int + 1 implies (#[trigger] s2[wrap_index(
                            ii,
                            u,
                            capi,
                        )]).occupied() by {
                            if u < steps as int {
                                lemma_wrap_index_injective(ii, u, steps as int, capi);
                                lemma_wrap_index_injective(ii, u, steps as int + 1, capi);
                                assert(s_a[wrap_index(ii, u, capi)].occupied());
                            } else {
                                assert(wrap_index(ii, u, capi) == holei);
                            }
                        }
                    }
                    hole = nxt;
                    steps = steps + 1;
                }
                Some(value_out)
            },
        }
    }

    /// Drops every entry and resets the count; the bucket array keeps its
    /// capacity.
    pub fn clear(&mut self)
        requires
            old(self).wf(),
        ensures
            final(self).wf(),
            final(self)@ == Map::<u32, V>::empty(),
            final(self).spec_capacity() == old(self).spec_capacity(),
            final(self).spec_seed() == old(self).spec_seed(),
    {
        let cap = self.nodes.len();
        proof {
            assert forall|j: int| 0 <= j < cap implies (#[trigger] self.nodes@[j]).wf() by {
                assert(slot_ok(self.nodes@, self.seed, j));
            }
        }
        let mut i: usize = 0;
        while i < cap
            invariant
                i <= cap,
                cap == self.nodes@.len(),
                cap == old(self).spec_capacity(),
                self.spec_seed() == old(self).spec_seed(),
                MIN_CAPACITY <= cap <= MAX_CAPACITY,
                is_pow2(cap as int),
                forall|j: int|
                    0 <= j < i ==> (#[trigger] self.nodes@[j]).wf() && !self.nodes@[j].occupied(),
            decreases cap - i,
        {
            let slot = &mut self.nodes[i];
            *slot = Node::new();
            i = i + 1;
        }
        self.number_of_items = 0;
        self.contents = Ghost(Map::empty());
        self.slot_of = Ghost(Map::empty());
        proof {
            lemma_num_occupied_none(self.nodes@);
            assert forall|j: int| 0 <= j < cap implies slot_ok(self.nodes@, self.seed, j) by {
                assert(self.nodes@[j].wf());
            }
            assert forall|j: int| 0 <= j < cap implies pred_ok(self.nodes@, j) by {
                assert(!self.nodes@[j].occupied());
            }
            assert(Map::<u32, V>::empty().dom() =~= Set::<u32>::empty());
            assert(self.wf());
        }
    }

    /// The entry stored in bucket `index`, if that bucket is occupied;
    /// `None` for an empty bucket or an index past the capacity.  Walking
    /// the indices `0..capacity()` visits every entry exactly once, in
    /// bucket-array order.
    pub fn entry_at(&self, index: usize) -> (r: Option<(&u32, &V)>)
        requires
            self.wf(),
        ensures
            r.is_some() <==> (index < self.spec_capacity() && self.spec_slots()[index as int]
                .occupied()),
            match r {
                Some(kv) => {
                    &&& *kv.0 == self.spec_slots()[index as int].spec_key()
                    &&& self@.contains_key(*kv.0)
                    &&& *kv.1 == self@[*kv.0]
                },
                None => true,
            },
    {
        if index < self.nodes.len() {
            proof {
                assert(slot_ok(self.nodes@, self.seed, index as int));
            }
            self.nodes[index].key_value_ref()
        } else {
            None
        }
    }

    /// Every key currently present, in bucket-array order.
    pub fn keys(&self) -> (r: Vec<u32>)
        requires
            self.wf(),
        ensures
            r@.no_duplicates(),
            forall|k: u32| r@.contains(k) <==> self@.contains_key(k),
            r@.len() == self@.len(),
    {
        let cap = self.nodes.len();
        let mut out: Vec<u32> = Vec::new();
        let mut i: usize = 0;
        while i < cap
            invariant
                self.wf(),
                i <= cap,
                cap == self.spec_capacity(),
                out@.no_duplicates(),
                forall|k: u32|
                    out@.contains(k) <==> (self@.contains_key(k) && self.slot_of@[k] < i),
            decreases cap - i,
        {
            proof {
                assert(slot_ok(self.nodes@, self.seed, i as int));
            }
            let ghost out_before = out@;
            match self.nodes[i].key_ref() {
                Some(k) => {
                    proof {
                        let k0 = self.nodes@[i as int].spec_key();
                        assert(self.contents@.contains_key(k0));
                        assert(self.slot_of@[k0] == i as int);
                        assert(!out_before.contains(k0));
                    }
                    out.push(*k);
                    proof {
                        assert forall|a: int, b: int| 0 <= a < b < out@.len() implies out@[a]
                            != out@[b] by {
                            if b == out@.len() - 1 {
                                assert(out_before.contains(out@[a]));
                            }
                        }
                        assert forall|k2: u32| out@.contains(k2) implies (
                        self@.contains_key(k2) && self.slot_of@[k2] < i + 1) by {
                            if k2 != out@.last() {
                                assert(out_before.contains(k2));
                            }
                        }
                        assert forall|k2: u32|
                            self@.contains_key(k2) && self.slot_of@[k2] < i + 1 implies out@
                            .contains(k2) by {
                            if self.slot_of@[k2] < i {
                                assert(out_before.contains(k2));
                                let w = choose|w: int| 0 <= w < out_before.len() && out_before[w] == k2;
                                assert(out@[w] == k2);
                            } else {
                                assert(self.slot_of@[k2] == i as int);
                                assert(self.nodes@[self.slot_of@[k2]].spec_key() == k2);
                                assert(out@.last() == k2);
                            }
                        }
                    }
                },
                None => {
                    proof {
                        assert forall|k2: u32|
                            self@.contains_key(k2) && self.slot_of@[k2] < i + 1 implies out@
                            .contains(k2) by {
                            assert(self.nodes@[self.slot_of@[k2]].occupied());
                            assert(self.slot_of@[k2] != i as int);
                        }
                    }
                },
            }
            i = i + 1;
        }
        proof {
            assert forall|k: u32| out@.contains(k) <==> self@.contains_key(k) by {
                if self@.contains_key(k) {
                    assert(self.slot_of@[k] < cap);
                }
            }
            out@.unique_seq_to_set();
            assert forall|k: u32| out@.to_set().contains(k) <==> self@.dom().contains(k) by {
                assert(out@.to_set().contains(k) == out@.contains(k));
            }
            assert(out@.to_set() =~= self@.dom());
        }
        out
    }

    /// Whether `key` is present.
    pub fn contains_key(&self, key: u32) -> (r: bool)
        requires
            self.wf(),
        ensures
            r == self@.contains_key(key),
    {
        let h = self.hash_key(key);
        self.find_index(key, h).is_some()
    }
}

/// Round-trip: after inserting `value` for `key` — `insert` makes the view
/// `m.insert(key, value)` — the key is present and a lookup returns exactly
/// `value`, whatever sequence of operations produced `m` beforehand.
pub proof fn lemma_insert_get_round_trip<V>(m: Map<u32, V>, key: u32, value: V)
    ensures
        m.insert(key, value).contains_key(key),
        m.insert(key, value)[key] == value,
{
}

/// Removal completeness: after removing `key` — `remove` makes the view
/// `m.remove(key)` — the key is no longer present, so `contains_key` is
/// false and `get` returns `None` for it.
pub proof fn lemma_remove_completeness<V>(m: Map<u32, V>, key: u32)
    ensures
        !m.remove(key).contains_key(key),
{
}

/// How insertion changes the entry count: inserting a fresh key grows the
/// count by one, inserting an existing key leaves it unchanged.
pub proof fn lemma_insert_len<V>(m: Map<u32, V>, key: u32, value: V)
    requires
        m.dom().finite(),
    ensures
        m.contains_key(key) ==> m.insert(key, value).len() == m.len(),
        !m.contains_key(key) ==> m.insert(key, value).len() == m.len() + 1,
{
    vstd::set::axiom_set_insert_len(m.dom(), key);
    assert(m.insert(key, value).dom() =~= m.dom().insert(key));
    if m.contains_key(key) {
        assert(m.dom().insert(key) =~= m.dom());
    }
}

/// How removal changes the entry count: removing a present key shrinks the
/// count by one, removing an absent key leaves it unchanged.
pub proof fn lemma_remove_len<V>(m: Map<u32, V>, key: u32)
    requires
        m.dom().finite(),
    ensures
        m.contains_key(key) ==> m.remove(key).len() == m.len() - 1,
        !m.contains_key(key) ==> m.remove(key).len() == m.len(),
{
    vstd::set::axiom_set_remove_len(m.dom(), key);
    assert(m.remove(key).dom() =~= m.dom().remove(key));
    if !m.contains_key(key) {
        assert(m.dom().remove(key) =~= m.dom());
    }
}

/// Inserting one key never disturbs another key's presence or value — in
/// particular across the capacity growth an insertion may trigger, since
/// `insert` makes the view `m.insert(key, value)` whether or not the table
/// grew.
pub proof fn lemma_insert_preserves_others<V>(m: Map<u32, V>, key: u32, value: V, other: u32)
    requires
        other != key,
    ensures
        m.insert(key, value).contains_key(other) == m.contains_key(other),
        m.contains_key(other) ==> m.insert(key, value)[other] == m[other],
{
}

} // verus!
