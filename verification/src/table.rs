//! The table engine: fixed-capacity open addressing with linear probing.
//!
//! A table is built once from an ordered list of keys and never resized. Every
//! key's bytes live in one shared buffer; each occupied slot holds a small
//! descriptor ([`Node`]) pointing into that buffer. Lookups probe from the
//! key's hash slot and stop at the first byte-equal slot or the first gap.

use vstd::prelude::*;
use vstd::arithmetic::div_mod::{lemma_add_mod_noop, lemma_fundamental_div_mod, lemma_mod_bound, lemma_mul_mod_noop_right, lemma_small_mod};
use vstd::arithmetic::power2::{lemma2_to64, lemma2_to64_rest, lemma_pow2_adds, lemma_pow2_pos, lemma_pow2_strictly_increases, lemma_pow2_unfold, pow2};
use vstd::bits::{lemma_usize_low_bits_mask_is_mod, lemma_usize_pow2_no_overflow, low_bits_mask};

use crate::hashing::{hash_key, hash_of};

verus! {

/// A per-slot descriptor: where the slot's key starts in the shared byte
/// buffer and how many bytes it spans. Each adapter chooses what else a slot
/// carries (a payload value for the map, nothing for the set).
pub(crate) trait Node: Sized {
    /// The byte offset of this slot's key in the shared buffer.
    spec fn ptr_spec(&self) -> usize;

    /// The byte length of this slot's key.
    spec fn len_spec(&self) -> usize;

    /// The descriptor as freshly created, before any payload is attached.
    spec fn fresh(ptr: usize, len: usize) -> Self;

    fn new(ptr: usize, len: usize) -> (r: Self)
        ensures
            r == Self::fresh(ptr, len),
            r.ptr_spec() == ptr,
            r.len_spec() == len;

    fn ptr(&self) -> (r: usize)
        ensures
            r == self.ptr_spec();

    fn len(&self) -> (r: usize)
        ensures
            r == self.len_spec();
}

/// The slot where probing for a key with hash slot `h` stands after `d` steps.
pub(crate) open spec fn probe_slot(h: int, d: int, cap: int) -> int {
    (h + d) % cap
}

/// Steps a probe starting at slot `from` needs to reach slot `to` on a ring
/// of `cap` slots.
pub(crate) open spec fn ring_dist(from: int, to: int, cap: int) -> int {
    if to >= from {
        to - from
    } else {
        to + cap - from
    }
}

/// The slot where probing for key `k` starts on a ring of `cap` slots.
pub(crate) open spec fn slot_start(k: Seq<u8>, cap: int) -> int {
    hash_of(k) as int % cap
}

/// A slot mask that is one less than a power of two representable in `usize`.
pub(crate) open spec fn valid_mask(mask: usize) -> bool {
    exists|k: nat| k < usize::BITS && mask as nat + 1 == pow2(k)
}

/// How many slots of `s` are occupied.
pub(crate) open spec fn count_occupied<N>(s: Seq<Option<N>>) -> nat
    decreases s.len(),
{
    if s.len() == 0 {
        0
    } else {
        count_occupied(s.drop_last()) + if s.last() is Some {
            1nat
        } else {
            0nat
        }
    }
}

/// The smallest power of two strictly greater than `n`, found by doubling
/// from `c`.
pub open spec fn pot_above_from(c: nat, n: nat) -> nat
    decreases (if c > n { 0int } else { n + 1 - c }),
    when 1 <= c
{
    if c > n {
        c
    } else {
        pot_above_from(2 * c, n)
    }
}

/// The capacity a table built over `n` keys gets: the smallest power of two
/// holding `n` keys at a load factor of at most four fifths.
pub open spec fn spec_capacity(n: nat) -> nat {
    pot_above_from(1, n + n / 4)
}

pub(crate) proof fn lemma_count_le_len<N>(s: Seq<Option<N>>)
    ensures
        count_occupied(s) <= s.len(),
    decreases s.len(),
{
    if s.len() > 0 {
        lemma_count_le_len(s.drop_last());
    }
}

pub(crate) proof fn lemma_count_all_some<N>(s: Seq<Option<N>>)
    requires
        forall|j: int| 0 <= j < s.len() ==> s[j] is Some,
    ensures
        count_occupied(s) == s.len(),
    decreases s.len(),
{
    if s.len() > 0 {
        lemma_count_all_some(s.drop_last());
    }
}

/// A partially occupied slot sequence has a gap somewhere.
pub(crate) proof fn lemma_gap_exists<N>(s: Seq<Option<N>>)
    requires
        count_occupied(s) < s.len(),
    ensures
        exists|j: int| 0 <= j < s.len() && s[j] is None,
{
    if forall|j: int| 0 <= j < s.len() ==> s[j] is Some {
        lemma_count_all_some(s);
        assert(false);
    }
    let j = choose|j: int| !(0 <= j < s.len() ==> s[j] is Some);
    assert(0 <= j < s.len() && s[j] is None);
}

pub(crate) proof fn lemma_count_push<N>(s: Seq<Option<N>>, v: Option<N>)
    ensures
        count_occupied(s.push(v)) == count_occupied(s) + if v is Some {
            1nat
        } else {
            0nat
        },
{
    assert(s.push(v).drop_last() =~= s);
    assert(s.push(v).last() == v);
}

pub(crate) proof fn lemma_count_update<N>(s: Seq<Option<N>>, j: int, v: Option<N>)
    requires
        0 <= j < s.len(),
    ensures
        count_occupied(s.update(j, v)) == count_occupied(s) - (if s[j] is Some {
            1nat
        } else {
            0nat
        }) + (if v is Some {
            1nat
        } else {
            0nat
        }),
    decreases s.len(),
{
    let su = s.update(j, v);
    if j == s.len() - 1 {
        assert(su.drop_last() =~= s.drop_last());
        assert(su.last() == v);
    } else {
        assert(su.drop_last() =~= s.drop_last().update(j, v));
        assert(su.last() == s.last());
        lemma_count_update(s.drop_last(), j, v);
    }
}

/// Occupancy alone determines the count.
pub(crate) proof fn lemma_count_congruent<M, N>(s: Seq<Option<M>>, t: Seq<Option<N>>)
    requires
        s.len() == t.len(),
        forall|j: int| 0 <= j < s.len() ==> (s[j] is Some <==> t[j] is Some),
    ensures
        count_occupied(s) == count_occupied(t),
    decreases s.len(),
{
    if s.len() > 0 {
        assert(forall|j: int| 0 <= j < s.len() - 1 ==> s.drop_last()[j] == s[j]);
        assert(forall|j: int| 0 <= j < t.len() - 1 ==> t.drop_last()[j] == t[j]);
        lemma_count_congruent(s.drop_last(), t.drop_last());
        assert(s.last() == s[s.len() - 1]);
        assert(t.last() == t[t.len() - 1]);
    }
}

/// An exponent whose power of two fits in `usize` is below the word width.
pub(crate) proof fn lemma_pow2_fits_exponent(k: nat)
    requires
        pow2(k) <= usize::MAX,
    ensures
        k < usize::BITS,
{
    lemma2_to64();
    lemma2_to64_rest();
    if k >= usize::BITS {
        if k > usize::BITS {
            lemma_pow2_strictly_increases(usize::BITS as nat, k);
        }
        assert(pow2(usize::BITS as nat) <= pow2(k));
        assert(false);
    }
}

/// Basic probe-ring facts: each step stays on the ring and advances by one.
pub(crate) proof fn lemma_probe_step(h: int, t: int, cap: int)
    requires
        cap >= 2,
        0 <= h < cap,
        0 <= t,
    ensures
        0 <= probe_slot(h, t, cap) < cap,
        probe_slot(h, t + 1, cap) == (probe_slot(h, t, cap) + 1) % cap,
{
    lemma_mod_bound(h + t, cap);
    lemma_small_mod(1nat, cap as nat);
    lemma_add_mod_noop(h + t, 1, cap);
}

/// Tables `a` and `b` agree on everything lookups read: slot count, mask,
/// key count, shared bytes, occupancy, and each slot's key range. Payloads
/// may differ.
pub(crate) open spec fn same_shape<M: Node, N: Node>(a: Table<M>, b: Table<N>) -> bool {
    &&& b.cap() == a.cap()
    &&& b.capacity_mask == a.capacity_mask
    &&& b.num_keys == a.num_keys
    &&& b.bytes@ == a.bytes@
    &&& forall|j: int| 0 <= j < a.cap() ==> (#[trigger] b.occupied(j) <==> a.occupied(j))
    &&& forall|j: int|
        0 <= j < a.cap() && a.occupied(j) ==> #[trigger] b.node_at(j).ptr_spec() == a.node_at(
            j,
        ).ptr_spec() && b.node_at(j).len_spec() == a.node_at(j).len_spec()
}

/// Byte string `k` is the key of some input position.
pub(crate) open spec fn is_input_key(keys: Seq<&[u8]>, k: Seq<u8>) -> bool {
    exists|i: int| 0 <= i < keys.len() && (#[trigger] keys[i])@ == k
}

/// Two input positions hold byte-equal keys.
pub(crate) open spec fn has_duplicate(keys: Seq<&[u8]>) -> bool {
    exists|i: int, j: int|
        0 <= i < keys.len() && 0 <= j < keys.len() && i != j && (#[trigger] keys[i])@ == (
        #[trigger] keys[j])@
}

/// Slot `p` of the slot assignment holds key index `j`.
pub(crate) open spec fn maps_to(m: Seq<Option<usize>>, p: int, j: int) -> bool {
    0 <= p < m.len() && m[p] is Some && m[p].unwrap() == j
}

/// Every slot between the hash slot of slot `p`'s key and `p` itself is
/// assigned, stated on the slot assignment built in the first pass.
pub(crate) open spec fn mapping_reaches(
    m: Seq<Option<usize>>,
    keys: Seq<&[u8]>,
    cap: int,
    p: int,
) -> bool {
    forall|d: int|
        0 <= d < ring_dist(slot_start(keys[m[p].unwrap() as int]@, cap), p, cap) ==> m[#[trigger] probe_slot(
            slot_start(keys[m[p].unwrap() as int]@, cap),
            d,
            cap,
        )] is Some
}

/// A probe position below `cap` steps determines its step count.
pub(crate) proof fn lemma_dist_unique(h: int, t: int, cap: int)
    requires
        cap >= 1,
        0 <= h < cap,
        0 <= t < cap,
    ensures
        ring_dist(h, probe_slot(h, t, cap), cap) == t,
{
    if h + t < cap {
        lemma_small_mod((h + t) as nat, cap as nat);
    } else {
        lemma_small_mod((h + t - cap) as nat, cap as nat);
        lemma_add_mod_noop(h + t - cap, cap, cap);
        assert(cap % cap == 0) by {
            lemma_fundamental_div_mod(cap, cap);
            lemma_mod_bound(cap, cap);
        }
        lemma_small_mod(((h + t - cap) % cap) as nat, cap as nat);
    }
}

/// Probing from `from` reaches `to` after exactly `ring_dist` steps.
pub(crate) proof fn lemma_probe_at_dist(from: int, to: int, cap: int)
    requires
        cap >= 1,
        0 <= from < cap,
        0 <= to < cap,
    ensures
        0 <= ring_dist(from, to, cap) < cap,
        probe_slot(from, ring_dist(from, to, cap), cap) == to,
{
    let d = ring_dist(from, to, cap);
    if to >= from {
        lemma_small_mod(to as nat, cap as nat);
    } else {
        assert(from + d == to + cap);
        lemma_mod_bound(to + cap, cap);
        lemma_fundamental_div_mod(to + cap, cap);
        lemma_small_mod(to as nat, cap as nat);
        assert((to + cap) % cap == to) by {
            lemma_add_mod_noop(to, cap, cap);
            assert(cap % cap == 0) by {
                lemma_fundamental_div_mod(cap, cap);
                lemma_mod_bound(cap, cap);
            }
            lemma_small_mod(to as nat, cap as nat);
            lemma_small_mod((to % cap) as nat, cap as nat);
        }
    }
}

/// Powers of two are never divisible by five.
pub(crate) proof fn lemma_pow2_mod_five(k: nat)
    ensures
        pow2(k) % 5 != 0,
    decreases k,
{
    if k == 0 {
        lemma2_to64();
    } else {
        lemma_pow2_mod_five((k - 1) as nat);
        lemma_pow2_unfold(k);
        let x = pow2((k - 1) as nat) as int;
        lemma_mod_bound(x, 5);
        assert((2 * x) % 5 == (2 * (x % 5)) % 5) by {
            lemma_mul_mod_noop_right(2, x, 5);
        }
    }
}

/// Doubling from a power of two reaches a power of two strictly above `n`.
pub(crate) proof fn lemma_pot_above_pow2(c: nat, n: nat, kc: nat)
    requires
        1 <= c,
        c == pow2(kc),
    ensures
        pot_above_from(c, n) > n,
        pot_above_from(c, n) >= c,
        exists|k: nat| pot_above_from(c, n) == pow2(k),
    decreases (if c > n { 0int } else { n + 1 - c }),
{
    if c > n {
        assert(pot_above_from(c, n) == pow2(kc));
    } else {
        lemma_pow2_unfold(kc + 1);
        lemma_pot_above_pow2(2 * c, n, kc + 1);
    }
}

/// No power of two above `n` is passed over while doubling.
pub(crate) proof fn lemma_pot_above_minimal(c: nat, n: nat, kc: nat, kd: nat)
    requires
        1 <= c,
        c == pow2(kc),
        pow2(kd) > n,
        pow2(kd) >= c,
    ensures
        pot_above_from(c, n) <= pow2(kd),
    decreases (if c > n { 0int } else { n + 1 - c }),
{
    if c > n {
    } else {
        let d = pow2(kd);
        if kc >= kd {
            if kc > kd {
                lemma_pow2_strictly_increases(kd, kc);
            }
            assert(false);
        }
        lemma_pow2_unfold(kc + 1);
        if kc + 1 < kd {
            lemma_pow2_strictly_increases(kc + 1, kd);
        }
        lemma_pot_above_minimal(2 * c, n, kc + 1, kd);
    }
}

/// Law (capacity): the capacity chosen for `n` keys is the smallest power of
/// two `c` whose load factor stays at or below four fifths, i.e. with
/// `5 * n <= 4 * c`.
pub proof fn lemma_capacity_minimal(n: nat)
    requires
        1 <= n,
    ensures
        exists|k: nat| spec_capacity(n) == pow2(k),
        5 * n <= 4 * spec_capacity(n),
        forall|k2: nat| 5 * n <= 4 * pow2(k2) ==> spec_capacity(n) <= pow2(k2),
{
    let m = n + n / 4;
    lemma2_to64();
    lemma_pot_above_pow2(1, m, 0);
    let c = spec_capacity(n);
    lemma_fundamental_div_mod(n as int, 4);
    lemma_mod_bound(n as int, 4);
    assert(5 * n <= 4 * c);
    assert forall|k2: nat| 5 * n <= 4 * pow2(k2) implies c <= pow2(k2) by {
        let d = pow2(k2);
        lemma_pow2_pos(k2);
        assert(4 * d >= 5 * n);
        assert(4 * m <= 5 * n);
        if d == m {
            assert(4 * d == 5 * n);
            assert(4 * d == pow2(k2 + 2)) by {
                lemma_pow2_adds(k2, 2);
                lemma2_to64();
            }
            lemma_pow2_mod_five(k2 + 2);
            assert((5 * n) % 5 == 0) by {
                lemma_mul_mod_noop_right(n as int, 5, 5);
                lemma_small_mod(0nat, 5nat);
            }
            assert(false);
        }
        assert(d > m);
        lemma_pot_above_minimal(1, m, 0, k2);
    }
}

/// The capacity law at the example sizes: five keys get eight slots, and
/// seven keys get sixteen, since seven of eight would exceed the load bound.
pub proof fn lemma_capacity_examples()
    ensures
        spec_capacity(5) == 8,
        spec_capacity(7) == 16,
{
    reveal_with_fuel(pot_above_from, 8);
    assert(spec_capacity(5) == pot_above_from(1, 6));
    assert(spec_capacity(7) == pot_above_from(1, 8));
}

pub(crate) struct Table<N> {
    pub(crate) nodes: Vec<Option<N>>,
    pub(crate) bytes: Vec<u8>,
    pub(crate) capacity_mask: usize,
    pub(crate) num_keys: usize,
}

impl<N: Node> Table<N> {
    /// The number of slots.
    pub(crate) open spec fn cap(self) -> int {
        self.nodes@.len() as int
    }

    pub(crate) open spec fn occupied(self, i: int) -> bool {
        self.nodes@[i] is Some
    }

    pub(crate) open spec fn node_at(self, i: int) -> N {
        self.nodes@[i].unwrap()
    }

    /// The bytes of the key assigned to slot `i`.
    pub(crate) open spec fn key_at(self, i: int) -> Seq<u8> {
        self.bytes@.subrange(
            self.node_at(i).ptr_spec() as int,
            self.node_at(i).ptr_spec() + self.node_at(i).len_spec(),
        )
    }

    /// The slot where probing for key `k` starts.
    pub(crate) open spec fn start_of(self, k: Seq<u8>) -> int {
        slot_start(k, self.cap())
    }

    /// Some occupied slot holds exactly the bytes `k`.
    pub(crate) open spec fn stores_key(self, k: Seq<u8>) -> bool {
        exists|p: int| 0 <= p < self.cap() && #[trigger] self.occupied(p) && self.key_at(p) == k
    }

    /// The set of byte strings the table stores.
    pub(crate) open spec fn stored_keys(self) -> Set<Seq<u8>> {
        Set::new(|k: Seq<u8>| self.stores_key(k))
    }

    /// The keys of the occupied slots below slot `p`.
    pub(crate) open spec fn keys_below(self, p: int) -> Set<Seq<u8>>
        decreases p,
    {
        if p <= 0 {
            Set::empty()
        } else if self.occupied(p - 1) {
            self.keys_below(p - 1).insert(self.key_at(p - 1))
        } else {
            self.keys_below(p - 1)
        }
    }

    pub(crate) proof fn lemma_keys_below_membership(self, p: int, k: Seq<u8>)
        requires
            0 <= p <= self.cap(),
        ensures
            self.keys_below(p).contains(k) <==> exists|q: int|
                0 <= q < p && #[trigger] self.occupied(q) && self.key_at(q) == k,
        decreases p,
    {
        if p > 0 {
            self.lemma_keys_below_membership(p - 1, k);
            if self.occupied(p - 1) && self.key_at(p - 1) == k {
                assert(self.keys_below(p).contains(k));
            }
        }
    }

    pub(crate) proof fn lemma_keys_below_card(self, p: int)
        requires
            0 <= p <= self.cap(),
            forall|p2: int, q2: int|
                0 <= p2 < self.cap() && 0 <= q2 < self.cap() && p2 != q2
                    && #[trigger] self.occupied(p2) && #[trigger] self.occupied(q2)
                    ==> self.key_at(p2) != self.key_at(q2),
        ensures
            self.keys_below(p).finite(),
            self.keys_below(p).len() == count_occupied(self.nodes@.take(p)),
        decreases p,
    {
        if p > 0 {
            self.lemma_keys_below_card(p - 1);
            assert(self.nodes@.take(p).drop_last() =~= self.nodes@.take(p - 1));
            assert(self.nodes@.take(p).last() == self.nodes@[p - 1]);
            if self.occupied(p - 1) {
                self.lemma_keys_below_membership(p - 1, self.key_at(p - 1));
                assert(!self.keys_below(p - 1).contains(self.key_at(p - 1)));
            }
        }
    }

    /// A table whose occupied slots hold pairwise distinct keys stores
    /// exactly as many distinct byte strings as it has occupied slots.
    pub(crate) proof fn lemma_stored_keys_card(self)
        requires
            self.wf(),
            forall|p2: int, q2: int|
                0 <= p2 < self.cap() && 0 <= q2 < self.cap() && p2 != q2
                    && #[trigger] self.occupied(p2) && #[trigger] self.occupied(q2)
                    ==> self.key_at(p2) != self.key_at(q2),
        ensures
            self.stored_keys().finite(),
            self.stored_keys().len() == self.num_keys,
    {
        self.lemma_keys_below_card(self.cap());
        assert forall|k: Seq<u8>| #[trigger] self.stored_keys().contains(k)
            == self.keys_below(self.cap()).contains(k) by {
            self.lemma_keys_below_membership(self.cap(), k);
        }
        assert(self.stored_keys() =~= self.keys_below(self.cap()));
        assert(self.nodes@.take(self.cap()) =~= self.nodes@);
    }

    pub(crate) open spec fn in_bounds(self, i: int) -> bool {
        self.node_at(i).ptr_spec() + self.node_at(i).len_spec() <= self.bytes@.len()
    }

    /// Slot `i`'s key is reachable by probing: every slot between the key's
    /// hash slot and `i` is occupied, so a lookup meets no gap on the way.
    pub(crate) open spec fn probe_reaches(self, i: int) -> bool {
        forall|d: int|
            0 <= d < ring_dist(self.start_of(self.key_at(i)), i, self.cap()) ==> self.occupied(
                #[trigger] probe_slot(self.start_of(self.key_at(i)), d, self.cap()),
            )
    }

    pub(crate) open spec fn wf(self) -> bool {
        &&& self.cap() == self.capacity_mask as int + 1
        &&& valid_mask(self.capacity_mask)
        &&& 1 <= self.num_keys
        &&& self.num_keys == count_occupied(self.nodes@)
        &&& 5 * self.num_keys <= 4 * self.cap()
        &&& forall|i: int|
            0 <= i < self.cap() && #[trigger] self.occupied(i) ==> self.in_bounds(i)
                && self.probe_reaches(i)
    }

    /// The probe walk: starting at `pos` with `steps` slots left to inspect,
    /// the first slot whose key equals `k`, or `None` at the first gap.
    pub(crate) open spec fn probe_find(self, k: Seq<u8>, pos: int, steps: nat) -> Option<int>
        decreases steps,
    {
        if steps == 0 {
            None
        } else if !self.occupied(pos) {
            None
        } else if self.key_at(pos) == k {
            Some(pos)
        } else {
            self.probe_find(k, (pos + 1) % self.cap(), (steps - 1) as nat)
        }
    }

    /// Where a lookup for key `k` lands: the first slot along the probe
    /// sequence of `k` whose stored bytes equal `k`, if the probe meets one
    /// before its first gap.
    pub(crate) open spec fn find_key(self, k: Seq<u8>) -> Option<int> {
        self.probe_find(k, self.start_of(k), self.cap() as nat)
    }

    pub(crate) proof fn lemma_probe_sound(self, k: Seq<u8>, pos: int, steps: nat)
        requires
            self.cap() >= 1,
            0 <= pos < self.cap(),
            self.probe_find(k, pos, steps) is Some,
        ensures
            ({
                let p = self.probe_find(k, pos, steps).unwrap();
                &&& 0 <= p < self.cap()
                &&& self.occupied(p)
                &&& self.key_at(p) == k
            }),
        decreases steps,
    {
        if steps != 0 && self.occupied(pos) && self.key_at(pos) != k {
            lemma_mod_bound(pos + 1, self.cap());
            self.lemma_probe_sound(k, (pos + 1) % self.cap(), (steps - 1) as nat);
        }
    }

    /// A found slot is occupied and holds exactly the queried bytes.
    pub(crate) proof fn lemma_find_sound(self, k: Seq<u8>)
        requires
            self.wf(),
            self.find_key(k) is Some,
        ensures
            ({
                let p = self.find_key(k).unwrap();
                &&& 0 <= p < self.cap()
                &&& self.occupied(p)
                &&& self.key_at(p) == k
            }),
    {
        lemma_mod_bound(hash_of(k) as int, self.cap());
        self.lemma_probe_sound(k, self.start_of(k), self.cap() as nat);
    }

    pub(crate) proof fn lemma_probe_complete(self, k: Seq<u8>, i: int, t: int)
        requires
            self.wf(),
            0 <= i < self.cap(),
            self.occupied(i),
            self.key_at(i) == k,
            0 <= t <= ring_dist(self.start_of(k), i, self.cap()),
        ensures
            self.probe_find(
                k,
                probe_slot(self.start_of(k), t, self.cap()),
                (self.cap() - t) as nat,
            ) is Some,
        decreases ring_dist(self.start_of(k), i, self.cap()) - t,
    {
        let cap = self.cap();
        let h = self.start_of(k);
        lemma_mod_bound(hash_of(k) as int, cap);
        lemma_probe_at_dist(h, i, cap);
        lemma_probe_step(h, t, cap);
        let pos = probe_slot(h, t, cap);
        let d = ring_dist(h, i, cap);
        if pos == i {
            assert(self.probe_find(k, pos, (cap - t) as nat) is Some);
        } else {
            assert(t < d);
            assert(self.occupied(probe_slot(h, t, cap)));
            if self.key_at(pos) != k {
                self.lemma_probe_complete(k, i, t + 1);
            }
        }
    }

    /// A stored key is always found: probing meets it before any gap.
    pub(crate) proof fn lemma_find_complete(self, k: Seq<u8>, i: int)
        requires
            self.wf(),
            0 <= i < self.cap(),
            self.occupied(i),
            self.key_at(i) == k,
        ensures
            self.find_key(k) is Some,
    {
        let cap = self.cap();
        let h = self.start_of(k);
        lemma_mod_bound(hash_of(k) as int, cap);
        self.lemma_probe_complete(k, i, 0);
        lemma_small_mod(h as nat, cap as nat);
        assert(probe_slot(h, 0, cap) == h);
    }

    /// Tables of the same shape (occupancy, descriptors, bytes) answer every
    /// probe alike; payloads play no role in lookups.
    pub(crate) proof fn lemma_probe_same<M: Node>(
        self,
        other: Table<M>,
        k: Seq<u8>,
        pos: int,
        steps: nat,
    )
        requires
            other.cap() == self.cap(),
            other.bytes@ == self.bytes@,
            forall|j: int| 0 <= j < self.cap() ==> (#[trigger] other.occupied(j) <==> self.occupied(j)),
            forall|j: int|
                0 <= j < self.cap() && self.occupied(j) ==> #[trigger] other.node_at(j).ptr_spec()
                    == self.node_at(j).ptr_spec() && other.node_at(j).len_spec()
                    == self.node_at(j).len_spec(),
            self.cap() >= 1,
            0 <= pos < self.cap(),
        ensures
            other.probe_find(k, pos, steps) == self.probe_find(k, pos, steps),
        decreases steps,
    {
        if steps != 0 {
            if self.occupied(pos) {
                assert(other.key_at(pos) == self.key_at(pos));
                if self.key_at(pos) != k {
                    lemma_mod_bound(pos + 1, self.cap());
                    self.lemma_probe_same(other, k, (pos + 1) % self.cap(), (steps - 1) as nat);
                }
            }
        }
    }

    /// Well-formedness and every lookup answer carry over to a table of the
    /// same shape.
    pub(crate) proof fn lemma_same_shape<M: Node>(self, other: Table<M>)
        requires
            self.wf(),
            same_shape(self, other),
        ensures
            other.wf(),
            forall|j: int|
                0 <= j < self.cap() && self.occupied(j) ==> #[trigger] other.key_at(j) == self.key_at(j),
            forall|k: Seq<u8>| #[trigger] other.find_key(k) == self.find_key(k),
            forall|k: Seq<u8>| #[trigger] other.stores_key(k) <==> self.stores_key(k),
    {
        assert forall|j: int| 0 <= j < self.nodes@.len() implies (self.nodes@[j] is Some
            <==> other.nodes@[j] is Some) by {
            assert(other.occupied(j) <==> self.occupied(j));
        }
        lemma_count_congruent(self.nodes@, other.nodes@);
        assert forall|j: int|
            0 <= j < self.cap() && self.occupied(j) implies #[trigger] other.key_at(j)
            == self.key_at(j) by {}
        assert forall|j: int|
            0 <= j < other.cap() && #[trigger] other.occupied(j) implies other.in_bounds(j)
            && other.probe_reaches(j) by {
            assert(self.occupied(j));
            assert(other.key_at(j) == self.key_at(j));
            assert(self.probe_reaches(j));
            assert forall|d: int|
                0 <= d < ring_dist(other.start_of(other.key_at(j)), j, other.cap()) implies other.occupied(
                #[trigger] probe_slot(other.start_of(other.key_at(j)), d, other.cap()),
            ) by {
                let h = self.start_of(self.key_at(j));
                assert(self.occupied(probe_slot(h, d, self.cap())));
                lemma_mod_bound(hash_of(self.key_at(j)) as int, self.cap());
                lemma_probe_step(h, d, self.cap());
            }
        }
        assert forall|k: Seq<u8>| #[trigger] other.find_key(k) == self.find_key(k) by {
            lemma_mod_bound(hash_of(k) as int, self.cap());
            self.lemma_probe_same(other, k, self.start_of(k), self.cap() as nat);
        }
        assert forall|k: Seq<u8>| #[trigger] other.stores_key(k) <==> self.stores_key(k) by {
            if self.stores_key(k) {
                let p = choose|p: int|
                    0 <= p < self.cap() && #[trigger] self.occupied(p) && self.key_at(p) == k;
                assert(other.occupied(p) && other.key_at(p) == k);
            }
            if other.stores_key(k) {
                let p = choose|p: int|
                    0 <= p < other.cap() && #[trigger] other.occupied(p) && other.key_at(p) == k;
                assert(self.occupied(p));
                assert(other.key_at(p) == self.key_at(p));
            }
        }
    }
    /// Builds a table over `keys` in input order: every key (duplicates
    /// included) is assigned its own slot by linear probing, then all key
    /// bytes are packed into one shared buffer in slot order.
    #[verifier::rlimit(100)]
    pub(crate) fn build(keys: &Vec<&[u8]>) -> (r: Self)
        requires
            1 <= keys@.len(),
            keys@.len() <= usize::MAX / 8,
        ensures
            r.wf(),
            r.num_keys == keys@.len(),
            r.cap() == spec_capacity(keys@.len() as nat),
            forall|i: int| 0 <= i < keys@.len() ==> r.stores_key((#[trigger] keys@[i])@),
            forall|p: int|
                0 <= p < r.cap() && #[trigger] r.occupied(p) ==> is_input_key(keys@, r.key_at(p)),
            forall|p: int, q: int|
                0 <= p < r.cap() && 0 <= q < r.cap() && p != q && #[trigger] r.occupied(p)
                    && #[trigger] r.occupied(q) && r.key_at(p) == r.key_at(q) ==> has_duplicate(
                    keys@,
                ),
            forall|p: int|
                0 <= p < r.cap() && #[trigger] r.occupied(p) ==> r.node_at(p) == N::fresh(
                    r.node_at(p).ptr_spec(),
                    r.node_at(p).len_spec(),
                ),
    {
        let num_keys = keys.len();
        let capacity = ceil_two(num_keys + num_keys / 4);
        let mask = capacity - 1;
        proof {
            lemma_fundamental_div_mod(num_keys as int, 4);
            lemma_mod_bound(num_keys as int, 4);
            assert(5 * num_keys as int <= 4 * capacity as int);
            assert(valid_mask(mask));
        }

        // First pass: assign each key index a slot.
        let mut mapping: Vec<Option<usize>> = Vec::new();
        let mut z: usize = 0;
        while z < capacity
            invariant
                mapping@.len() == z as int,
                z <= capacity,
                count_occupied(mapping@) == 0,
                forall|p: int| 0 <= p < z as int ==> (#[trigger] mapping@[p]) is None,
            decreases capacity - z,
        {
            let ghost m0 = mapping@;
            mapping.push(None);
            proof {
                lemma_count_push::<usize>(m0, None);
            }
            z = z + 1;
        }

        let ghost cap = capacity as int;
        let ghost mut sk: Seq<int> = Seq::empty();
        let mut i: usize = 0;
        while i < num_keys
            invariant
                keys@.len() == num_keys as int,
                mapping@.len() == cap,
                cap == capacity as int,
                cap == mask as int + 1,
                valid_mask(mask),
                capacity >= 2,
                5 * num_keys as int <= 4 * cap,
                i <= num_keys,
                count_occupied(mapping@) == i as nat,
                forall|p: int|
                    0 <= p < cap && (#[trigger] mapping@[p]) is Some ==> mapping@[p].unwrap() < i,
                sk.len() == i as int,
                forall|j: int| 0 <= j < i as int ==> maps_to(mapping@, #[trigger] sk[j], j),
                forall|p: int, q: int|
                    0 <= p < cap && 0 <= q < cap && p != q && (#[trigger] mapping@[p]) is Some
                        && (#[trigger] mapping@[q]) is Some ==> mapping@[p].unwrap()
                        != mapping@[q].unwrap(),
                forall|p: int|
                    0 <= p < cap && (#[trigger] mapping@[p]) is Some ==> mapping_reaches(
                        mapping@,
                        keys@,
                        cap,
                        p,
                    ),
            decreases num_keys - i,
        {
            let key: &[u8] = keys[i];
            let mut pos = slot_for(key, mask);
            let ghost h = slot_start(key@, cap);
            let ghost mut t: int = 0;
            proof {
                lemma_count_le_len(mapping@);
                lemma_gap_exists(mapping@);
                lemma_mod_bound(hash_of(key@) as int, cap);
            }
            let ghost j0 = choose|j: int| 0 <= j < cap && mapping@[j] is None;
            proof {
                lemma_probe_at_dist(h, j0, cap);
                lemma_small_mod(h as nat, cap as nat);
                assert(probe_slot(h, 0, cap) == h);
            }
            while mapping[pos].is_some()
                invariant
                    mapping@.len() == cap,
                    cap == mask as int + 1,
                    capacity as int == cap,
                    valid_mask(mask),
                    capacity >= 2,
                    pos <= mask,
                    0 <= h < cap,
                    0 <= j0 < cap,
                    mapping@[j0] is None,
                    0 <= t <= ring_dist(h, j0, cap),
                    pos as int == probe_slot(h, t, cap),
                    forall|d: int|
                        0 <= d < t ==> mapping@[#[trigger] probe_slot(h, d, cap)] is Some,
                decreases ring_dist(h, j0, cap) - t,
            {
                proof {
                    lemma_probe_at_dist(h, j0, cap);
                    if t == ring_dist(h, j0, cap) {
                        assert(pos as int == j0);
                        assert(false);
                    }
                    lemma_probe_step(h, t, cap);
                }
                pos = next_slot(pos, mask);
                proof {
                    t = t + 1;
                }
            }
            proof {
                lemma_probe_at_dist(h, j0, cap);
                lemma_dist_unique(h, t, cap);
            }
            let ghost m0 = mapping@;
            mapping[pos] = Some(i);
            proof {
                lemma_count_update(m0, pos as int, Some(i));
                sk = sk.push(pos as int);
                assert forall|j: int| 0 <= j < i as int + 1 implies maps_to(
                    mapping@,
                    #[trigger] sk[j],
                    j,
                ) by {
                    if j < i as int {
                        assert(maps_to(m0, sk[j], j));
                        assert(sk[j] != pos as int);
                    }
                }
                assert forall|p: int|
                    0 <= p < cap && (#[trigger] mapping@[p]) is Some implies mapping_reaches(
                    mapping@,
                    keys@,
                    cap,
                    p,
                ) by {
                    if p == pos as int {
                        assert(mapping@[p].unwrap() == i);
                        assert(keys@[i as int]@ == key@);
                        assert(ring_dist(slot_start(keys@[i as int]@, cap), p, cap) == t);
                        assert forall|d: int|
                            0 <= d < ring_dist(slot_start(keys@[mapping@[p].unwrap() as int]@, cap), p, cap)
                            implies mapping@[#[trigger] probe_slot(
                            slot_start(keys@[mapping@[p].unwrap() as int]@, cap),
                            d,
                            cap,
                        )] is Some by {
                            assert(m0[probe_slot(h, d, cap)] is Some);
                        }
                    } else {
                        assert(m0[p] is Some);
                        assert(mapping_reaches(m0, keys@, cap, p));
                        assert(mapping@[p] == m0[p]);
                        assert forall|d: int|
                            0 <= d < ring_dist(slot_start(keys@[mapping@[p].unwrap() as int]@, cap), p, cap)
                            implies mapping@[#[trigger] probe_slot(
                            slot_start(keys@[mapping@[p].unwrap() as int]@, cap),
                            d,
                            cap,
                        )] is Some by {
                            assert(m0[probe_slot(
                                slot_start(keys@[m0[p].unwrap() as int]@, cap),
                                d,
                                cap,
                            )] is Some);
                        }
                    }
                }
            }
            i = i + 1;
        }

        // Second pass: pack key bytes in slot order and record descriptors.
        let mut nodes: Vec<Option<N>> = Vec::new();
        let mut bytes: Vec<u8> = Vec::new();
        let mut p: usize = 0;
        while p < capacity
            invariant
                keys@.len() == num_keys as int,
                mapping@.len() == cap,
                cap == capacity as int,
                cap == mask as int + 1,
                valid_mask(mask),
                capacity >= 2,
                5 * num_keys as int <= 4 * cap,
                count_occupied(mapping@) == num_keys as nat,
                forall|q: int|
                    0 <= q < cap && (#[trigger] mapping@[q]) is Some ==> mapping@[q].unwrap()
                        < num_keys,
                sk.len() == num_keys as int,
                forall|j: int| 0 <= j < num_keys as int ==> maps_to(mapping@, #[trigger] sk[j], j),
                forall|q: int, q2: int|
                    0 <= q < cap && 0 <= q2 < cap && q != q2 && (#[trigger] mapping@[q]) is Some
                        && (#[trigger] mapping@[q2]) is Some ==> mapping@[q].unwrap()
                        != mapping@[q2].unwrap(),
                forall|q: int|
                    0 <= q < cap && (#[trigger] mapping@[q]) is Some ==> mapping_reaches(
                        mapping@,
                        keys@,
                        cap,
                        q,
                    ),
                p <= capacity,
                nodes@.len() == p as int,
                forall|q: int|
                    0 <= q < p as int ==> ((#[trigger] nodes@[q]) is Some <==> mapping@[q] is Some),
                forall|q: int|
                    0 <= q < p as int && (#[trigger] nodes@[q]) is Some ==> ({
                        let n = nodes@[q].unwrap();
                        &&& n.ptr_spec() + n.len_spec() <= bytes@.len()
                        &&& bytes@.subrange(
                            n.ptr_spec() as int,
                            n.ptr_spec() + n.len_spec(),
                        ) == keys@[mapping@[q].unwrap() as int]@
                        &&& n == N::fresh(n.ptr_spec(), n.len_spec())
                    }),
            decreases capacity - p,
        {
            let ghost nodes0 = nodes@;
            let ghost bytes0 = bytes@;
            match mapping[p] {
                Some(j) => {
                    let ptr = bytes.len();
                    let key: &[u8] = keys[j];
                    let klen = key.len();
                    let mut b: usize = 0;
                    while b < klen
                        invariant
                            b <= klen,
                            klen == key@.len(),
                            bytes@ == bytes0 + key@.subrange(0, b as int),
                        decreases klen - b,
                    {
                        bytes.push(key[b]);
                        proof {
                            assert(bytes@ =~= bytes0 + key@.subrange(0, b as int + 1));
                        }
                        b = b + 1;
                    }
                    proof {
                        assert(bytes@ =~= bytes0 + key@);
                    }
                    nodes.push(Some(N::new(ptr, klen)));
                    proof {
                        let n = nodes@[p as int].unwrap();
                        assert(bytes@.subrange(ptr as int, ptr as int + klen as int) =~= key@);
                        assert(n.ptr_spec() == ptr && n.len_spec() == klen);
                        assert forall|q: int|
                            0 <= q < p as int && (#[trigger] nodes@[q]) is Some implies ({
                            let nq = nodes@[q].unwrap();
                            &&& nq.ptr_spec() + nq.len_spec() <= bytes@.len()
                            &&& bytes@.subrange(
                                nq.ptr_spec() as int,
                                nq.ptr_spec() + nq.len_spec(),
                            ) == keys@[mapping@[q].unwrap() as int]@
                            &&& nq == N::fresh(nq.ptr_spec(), nq.len_spec())
                        }) by {
                            assert(nodes@[q] == nodes0[q]);
                            let nq = nodes0[q].unwrap();
                            assert(bytes@.subrange(
                                nq.ptr_spec() as int,
                                nq.ptr_spec() + nq.len_spec(),
                            ) =~= bytes0.subrange(
                                nq.ptr_spec() as int,
                                nq.ptr_spec() + nq.len_spec(),
                            ));
                        }
                    }
                }
                None => {
                    nodes.push(None);
                    proof {
                        assert forall|q: int|
                            0 <= q < p as int && (#[trigger] nodes@[q]) is Some implies ({
                            let nq = nodes@[q].unwrap();
                            &&& nq.ptr_spec() + nq.len_spec() <= bytes@.len()
                            &&& bytes@.subrange(
                                nq.ptr_spec() as int,
                                nq.ptr_spec() + nq.len_spec(),
                            ) == keys@[mapping@[q].unwrap() as int]@
                            &&& nq == N::fresh(nq.ptr_spec(), nq.len_spec())
                        }) by {
                            assert(nodes@[q] == nodes0[q]);
                        }
                    }
                }
            }
            p = p + 1;
        }

        let table = Table { nodes, bytes, capacity_mask: mask, num_keys };
        proof {
            Self::lemma_build_correct(table, mapping@, keys@, sk);
        }
        table
    }

    /// Transfers the facts gathered over the slot assignment of the first
    /// build pass to the finished table.
    proof fn lemma_build_correct(
        table: Self,
        m: Seq<Option<usize>>,
        keys: Seq<&[u8]>,
        sk: Seq<int>,
    )
        requires
            table.cap() == m.len(),
            table.cap() == table.capacity_mask as int + 1,
            valid_mask(table.capacity_mask),
            table.cap() >= 2,
            1 <= keys.len(),
            table.num_keys == keys.len(),
            5 * keys.len() <= 4 * table.cap(),
            count_occupied(m) == keys.len(),
            forall|q: int| 0 <= q < m.len() ==> ((#[trigger] m[q]) is Some <==> table.nodes@[q] is Some),
            forall|q: int|
                0 <= q < m.len() && (#[trigger] m[q]) is Some ==> (m[q].unwrap() as int) < keys.len(),
            sk.len() == keys.len(),
            forall|j: int| 0 <= j < keys.len() ==> maps_to(m, #[trigger] sk[j], j),
            forall|p: int, q: int|
                0 <= p < m.len() && 0 <= q < m.len() && p != q && (#[trigger] m[p]) is Some
                    && (#[trigger] m[q]) is Some ==> m[p].unwrap() != m[q].unwrap(),
            forall|q: int|
                0 <= q < m.len() && (#[trigger] m[q]) is Some ==> mapping_reaches(
                    m,
                    keys,
                    table.cap(),
                    q,
                ),
            forall|q: int|
                0 <= q < m.len() && (#[trigger] table.nodes@[q]) is Some ==> ({
                    let n = table.nodes@[q].unwrap();
                    &&& n.ptr_spec() + n.len_spec() <= table.bytes@.len()
                    &&& table.bytes@.subrange(
                        n.ptr_spec() as int,
                        n.ptr_spec() + n.len_spec(),
                    ) == keys[m[q].unwrap() as int]@
                    &&& n == N::fresh(n.ptr_spec(), n.len_spec())
                }),
        ensures
            table.wf(),
            forall|i: int| 0 <= i < keys.len() ==> table.stores_key((#[trigger] keys[i])@),
            forall|p: int|
                0 <= p < table.cap() && #[trigger] table.occupied(p) ==> is_input_key(
                    keys,
                    table.key_at(p),
                ),
            forall|p: int, q: int|
                0 <= p < table.cap() && 0 <= q < table.cap() && p != q && #[trigger] table.occupied(
                    p,
                ) && #[trigger] table.occupied(q) && table.key_at(p) == table.key_at(q)
                    ==> has_duplicate(keys),
            forall|p: int|
                0 <= p < table.cap() && #[trigger] table.occupied(p) ==> table.node_at(p)
                    == N::fresh(table.node_at(p).ptr_spec(), table.node_at(p).len_spec()),
    {
        let cap = table.cap();
        assert forall|q: int| 0 <= q < m.len() implies (m[q] is Some
            <==> table.nodes@[q] is Some) by {}
        lemma_count_congruent(m, table.nodes@);
        assert forall|q: int|
            0 <= q < cap && #[trigger] table.occupied(q) implies table.in_bounds(q)
            && table.key_at(q) == keys[m[q].unwrap() as int]@ && table.node_at(q) == N::fresh(
            table.node_at(q).ptr_spec(),
            table.node_at(q).len_spec(),
        ) by {}
        assert forall|q: int|
            0 <= q < cap && #[trigger] table.occupied(q) implies table.probe_reaches(q) by {
            let jq = m[q].unwrap() as int;
            assert(table.key_at(q) == keys[jq]@);
            assert(mapping_reaches(m, keys, cap, q));
            assert forall|d: int|
                0 <= d < ring_dist(table.start_of(table.key_at(q)), q, table.cap())
                implies table.occupied(#[trigger] probe_slot(
                table.start_of(table.key_at(q)),
                d,
                table.cap(),
            )) by {
                assert(table.start_of(table.key_at(q)) == slot_start(keys[jq]@, cap));
                assert(m[probe_slot(slot_start(keys[jq]@, cap), d, cap)] is Some);
                lemma_mod_bound(hash_of(keys[jq]@) as int, cap);
                lemma_probe_step(slot_start(keys[jq]@, cap), d, cap);
            }
        }
        assert(table.wf());
        assert forall|i2: int| 0 <= i2 < keys.len() implies table.stores_key(
            (#[trigger] keys[i2])@,
        ) by {
            assert(maps_to(m, sk[i2], i2));
            assert(table.occupied(sk[i2]) && table.key_at(sk[i2]) == keys[i2]@);
        }
        assert forall|p2: int|
            0 <= p2 < table.cap() && #[trigger] table.occupied(p2) implies is_input_key(
            keys,
            table.key_at(p2),
        ) by {
            let i2 = m[p2].unwrap() as int;
            assert(0 <= i2 < keys.len() && table.key_at(p2) == keys[i2]@);
        }
        assert forall|p2: int, q2: int|
            0 <= p2 < table.cap() && 0 <= q2 < table.cap() && p2 != q2 && #[trigger] table.occupied(
                p2,
            ) && #[trigger] table.occupied(q2) && table.key_at(p2) == table.key_at(q2)
            implies has_duplicate(keys) by {
            let i2 = m[p2].unwrap() as int;
            let j2 = m[q2].unwrap() as int;
            assert(i2 != j2);
            assert(keys[i2]@ == keys[j2]@);
        }
    }

    /// Whether `node`'s key bytes equal `key`, compared in place.
    fn key_matches(&self, node: &N, key: &[u8]) -> (r: bool)
        requires
            node.ptr_spec() + node.len_spec() <= self.bytes@.len(),
        ensures
            r == (self.bytes@.subrange(
                node.ptr_spec() as int,
                node.ptr_spec() + node.len_spec(),
            ) == key@),
    {
        let total = self.bytes.len();
        let ptr = node.ptr();
        let len = node.len();
        if len != key.len() {
            return false;
        }
        let mut idx: usize = 0;
        while idx < len
            invariant
                ptr == node.ptr_spec(),
                len == node.len_spec(),
                total == self.bytes@.len(),
                node.ptr_spec() + node.len_spec() <= self.bytes@.len(),
                key@.len() == len,
                idx <= len,
                forall|x: int| 0 <= x < idx as int ==> self.bytes@[ptr as int + x] == key@[x],
            decreases len - idx,
        {
            if self.bytes[ptr + idx] != key[idx] {
                proof {
                    let sub = self.bytes@.subrange(ptr as int, ptr as int + len as int);
                    assert(sub[idx as int] == self.bytes@[ptr as int + idx as int]);
                }
                return false;
            }
            idx = idx + 1;
        }
        proof {
            assert(self.bytes@.subrange(ptr as int, ptr as int + len as int) =~= key@);
        }
        true
    }

    /// Finds the slot holding `key`: probes from the key's hash slot to the
    /// first slot with byte-equal contents, or to the first gap for a miss.
    pub(crate) fn get_pos(&self, key: &[u8]) -> (r: Option<usize>)
        requires
            self.wf(),
        ensures
            match r {
                Some(p) => self.find_key(key@) == Some(p as int),
                None => self.find_key(key@) is None,
            },
    {
        let mask = self.capacity_mask;
        let mut pos = slot_for(key, mask);
        let ghost h = slot_start(key@, self.cap());
        let ghost mut t: int = 0;
        proof {
            lemma_count_le_len(self.nodes@);
            lemma_gap_exists(self.nodes@);
            lemma_mod_bound(hash_of(key@) as int, self.cap());
            lemma_small_mod(h as nat, self.cap() as nat);
            assert(probe_slot(h, 0, self.cap()) == h);
        }
        let ghost j0 = choose|j: int| 0 <= j < self.nodes@.len() && self.nodes@[j] is None;
        proof {
            lemma_probe_at_dist(h, j0, self.cap());
        }
        loop
            invariant
                self.wf(),
                mask == self.capacity_mask,
                pos <= mask,
                0 <= h < self.cap(),
                0 <= j0 < self.cap(),
                !self.occupied(j0),
                0 <= t <= ring_dist(h, j0, self.cap()),
                pos as int == probe_slot(h, t, self.cap()),
                self.find_key(key@) == self.probe_find(key@, pos as int, (self.cap() - t) as nat),
            decreases ring_dist(h, j0, self.cap()) - t,
        {
            match &self.nodes[pos] {
                None => {
                    proof {
                        lemma_probe_at_dist(h, j0, self.cap());
                        assert(self.probe_find(key@, pos as int, (self.cap() - t) as nat) is None);
                    }
                    return None;
                },
                Some(node) => {
                    proof {
                        assert(self.occupied(pos as int));
                        assert(self.in_bounds(pos as int));
                    }
                    if self.key_matches(node, key) {
                        proof {
                            lemma_probe_at_dist(h, j0, self.cap());
                            assert(self.key_at(pos as int) == key@);
                        }
                        return Some(pos);
                    }
                    proof {
                        lemma_probe_at_dist(h, j0, self.cap());
                        if t == ring_dist(h, j0, self.cap()) {
                            assert(pos as int == j0);
                            assert(false);
                        }
                        lemma_probe_step(h, t, self.cap());
                    }
                    pos = next_slot(pos, mask);
                    proof {
                        t = t + 1;
                    }
                },
            }
        }
    }

    /// The descriptor of the slot holding `key`, if the key is stored.
    pub(crate) fn get(&self, key: &[u8]) -> (r: Option<&N>)
        requires
            self.wf(),
        ensures
            match r {
                Some(n) => self.find_key(key@) is Some && *n == self.node_at(
                    self.find_key(key@).unwrap(),
                ),
                None => self.find_key(key@) is None,
            },
    {
        match self.get_pos(key) {
            Some(pos) => {
                proof {
                    self.lemma_find_sound(key@);
                }
                match &self.nodes[pos] {
                    Some(n) => Some(n),
                    None => {
                        proof {
                            assert(false);
                        }
                        None
                    },
                }
            },
            None => None,
        }
    }

    /// How many keys the table was built over.
    pub(crate) fn num_keys(&self) -> (r: usize)
        ensures
            r == self.num_keys,
    {
        self.num_keys
    }
}

/// The smallest power of two strictly greater than `n`.
pub(crate) fn ceil_two(n: usize) -> (r: usize)
    requires
        n <= usize::MAX / 2,
    ensures
        r as nat == pot_above_from(1, n as nat),
        exists|k: nat| k < usize::BITS && r as nat == pow2(k),
        r > n,
        r >= 1,
{
    let mut c: usize = 1;
    let ghost mut k: nat = 0nat;
    proof {
        lemma2_to64();
    }
    while c <= n
        invariant
            n <= usize::MAX / 2,
            1 <= c,
            c as nat == pow2(k),
            k < usize::BITS,
            pot_above_from(c as nat, n as nat) == pot_above_from(1, n as nat),
        decreases (if c > n { 0int } else { n + 1 - c }),
    {
        proof {
            assert(pot_above_from(c as nat, n as nat) == pot_above_from(2 * c as nat, n as nat));
        }
        c = c * 2;
        proof {
            k = k + 1;
            lemma_pow2_unfold(k);
            lemma_pow2_fits_exponent(k);
        }
    }
    c
}

/// The slot where probing for `key` starts: its hash, reduced by the mask.
pub(crate) fn slot_for(key: &[u8], mask: usize) -> (r: usize)
    requires
        valid_mask(mask),
    ensures
        r as int == slot_start(key@, mask as int + 1),
        r <= mask,
{
    let h = hash_key(key);
    let r64 = h & (mask as u64);
    proof {
        let k = choose|k: nat| k < usize::BITS && mask as nat + 1 == pow2(k);
        lemma_usize_pow2_no_overflow(k);
        assert(low_bits_mask(k) == mask as nat);
        lemma_u64_low_bits_mask_is_mod_local(h, k);
        lemma_mod_bound(h as int, mask as int + 1);
    }
    r64 as usize
}

/// Wraparound to the next slot on the ring: advance by one, reduce by the
/// mask.
pub(crate) fn next_slot(pos: usize, mask: usize) -> (r: usize)
    requires
        valid_mask(mask),
        pos <= mask,
    ensures
        r as int == (pos as int + 1) % (mask as int + 1),
        r <= mask,
{
    proof {
        let k = choose|k: nat| k < usize::BITS && mask as nat + 1 == pow2(k);
        lemma_usize_pow2_no_overflow(k);
    }
    let x = pos + 1;
    let r = x & mask;
    proof {
        let k = choose|k: nat| k < usize::BITS && mask as nat + 1 == pow2(k);
        assert(low_bits_mask(k) == mask as nat);
        lemma_usize_low_bits_mask_is_mod(x, k);
        lemma_mod_bound(x as int, mask as int + 1);
    }
    r
}

/// Restatement of the vstd mask-is-mod fact at the `u64` width used by the
/// hash, for exponents below the `usize` width.
pub(crate) proof fn lemma_u64_low_bits_mask_is_mod_local(x: u64, k: nat)
    requires
        k < usize::BITS,
    ensures
        x & (low_bits_mask(k) as u64) == x % (pow2(k) as u64),
{
    vstd::bits::lemma_u64_low_bits_mask_is_mod(x, k);
}

} // verus!
