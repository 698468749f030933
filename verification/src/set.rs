//! A hash set for byte-string keys, built once from a key list.

use vstd::prelude::*;

use crate::table::{has_duplicate, is_input_key, spec_capacity, Node, Table};
use crate::BuildError;

verus! {

/// The set's per-slot descriptor: just the key range, no payload.
pub(crate) struct SetNode {
    pub(crate) ptr: usize,
    pub(crate) len: usize,
}

impl Node for SetNode {
    open spec fn ptr_spec(&self) -> usize {
        self.ptr
    }

    open spec fn len_spec(&self) -> usize {
        self.len
    }

    open spec fn fresh(ptr: usize, len: usize) -> Self {
        SetNode { ptr, len }
    }

    fn new(ptr: usize, len: usize) -> (r: Self) {
        SetNode { ptr, len }
    }

    fn ptr(&self) -> (r: usize) {
        self.ptr
    }

    fn len(&self) -> (r: usize) {
        self.len
    }
}

/// Positions `i` and `j` of the keys hold equal bytes.
pub open spec fn has_duplicate_key(ks: Seq<Vec<u8>>) -> bool {
    exists|i: int, j: int|
        0 <= i < ks.len() && 0 <= j < ks.len() && i != j && (#[trigger] ks[i])@ == (
        #[trigger] ks[j])@
}

/// One of the first `upto` keys resolves to slot `p` of table `t`.
spec fn slot_flagged(ks: Seq<Vec<u8>>, upto: int, t: Table<SetNode>, p: int) -> bool {
    exists|i: int| 0 <= i < upto && (#[trigger] t.find_key(ks[i]@)) == Some(p)
}

/// Law (round trip, miss side): a byte string equal to no input key is
/// absent from a successfully built set, whose view holds input keys only; a
/// membership test for it answers false. The hit side stands in the
/// constructor's postcondition: the set contains every input key.
pub proof fn lemma_miss_not_contained(keys: Seq<Vec<u8>>, s: Set<Seq<u8>>, k: Seq<u8>)
    requires
        forall|k2: Seq<u8>| #[trigger] s.contains(k2) ==> exists|i: int|
            0 <= i < keys.len() && (#[trigger] keys[i])@ == k2,
        forall|i: int| 0 <= i < keys.len() ==> (#[trigger] keys[i])@ != k,
    ensures
        !s.contains(k),
{
}

/// An immutable hash set for byte-string keys: built once over a key list,
/// then queried for membership.
pub struct HashSet {
    table: Table<SetNode>,
}

impl View for HashSet {
    type V = Set<Seq<u8>>;

    /// The set of stored key byte strings.
    closed spec fn view(&self) -> Set<Seq<u8>> {
        Set::new(|k: Seq<u8>| self.table.stores_key(k))
    }
}

impl HashSet {
    /// The table is well formed and no two slots hold the same key bytes.
    #[verifier::type_invariant]
    spec fn inv(self) -> bool {
        &&& self.table.wf()
        &&& forall|p: int, q: int|
            0 <= p < self.table.cap() && 0 <= q < self.table.cap() && p != q
                && #[trigger] self.table.occupied(p) && #[trigger] self.table.occupied(q)
                ==> self.table.key_at(p) != self.table.key_at(q)
    }

    /// How many keys the set was built over.
    pub closed spec fn spec_len(self) -> nat {
        self.table.num_keys as nat
    }

    /// How many slots the set's table holds.
    pub closed spec fn slot_capacity(self) -> nat {
        self.table.nodes@.len() as nat
    }

    /// Membership in the view answers exactly as a table lookup does.
    proof fn lemma_lookup(self, k: Seq<u8>)
        requires
            self.table.wf(),
        ensures
            self@.contains(k) <==> self.table.find_key(k) is Some,
    {
        if self.table.find_key(k) is Some {
            self.table.lemma_find_sound(k);
            assert(self.table.stores_key(k));
        }
        if self@.contains(k) {
            let p = choose|p: int|
                0 <= p < self.table.cap() && #[trigger] self.table.occupied(p)
                    && self.table.key_at(p) == k;
            self.table.lemma_find_complete(k, p);
        }
    }

    /// Creates a set from keys.
    ///
    /// Construction fails with [`BuildError::EmptyInput`] exactly when `keys`
    /// is empty, and with [`BuildError::DuplicateKey`] exactly when two keys
    /// hold equal bytes. On success the set contains every input key and
    /// nothing else.
    #[verifier::loop_isolation(false)]
    #[verifier::rlimit(100)]
    pub fn new(keys: &[Vec<u8>]) -> (r: Result<Self, BuildError>)
        requires
            keys@.len() <= usize::MAX / 8,
        ensures
            match r {
                Ok(s) => {
                    &&& 1 <= keys@.len()
                    &&& !has_duplicate_key(keys@)
                    &&& forall|i: int| 0 <= i < keys@.len() ==> s@.contains((#[trigger] keys@[i])@)
                    &&& forall|k: Seq<u8>| #[trigger] s@.contains(k) ==> exists|i: int|
                        0 <= i < keys@.len() && (#[trigger] keys@[i])@ == k
                    &&& s.spec_len() == keys@.len()
                    &&& s@.finite()
                    &&& s@.len() == keys@.len()
                    &&& s.slot_capacity() == spec_capacity(keys@.len() as nat)
                },
                Err(e) => (e == BuildError::EmptyInput && keys@.len() == 0) || (e
                    == BuildError::DuplicateKey && keys@.len() > 0 && has_duplicate_key(keys@)),
            },
            keys@.len() == 0 ==> r == Err::<Self, BuildError>(BuildError::EmptyInput),
            keys@.len() > 0 && has_duplicate_key(keys@) ==> r == Err::<Self, BuildError>(
                BuildError::DuplicateKey,
            ),
    {
        let ghost ks = keys@;
        if keys.len() == 0 {
            return Err(BuildError::EmptyInput);
        }
        let n = keys.len();
        let mut key_refs: Vec<&[u8]> = Vec::new();
        let mut i: usize = 0;
        while i < n
            invariant
                i <= n,
                key_refs@.len() == i as int,
                forall|j: int| 0 <= j < i as int ==> (#[trigger] key_refs@[j])@ == ks[j]@,
            decreases n - i,
        {
            key_refs.push(keys[i].as_slice());
            i = i + 1;
        }
        let table = Table::<SetNode>::build(&key_refs);
        let ghost kseq = key_refs@;

        // Duplicate pass: a slot resolved to twice means two byte-equal keys.
        let capacity = table.nodes.len();
        let mut flags: Vec<bool> = Vec::new();
        let mut z: usize = 0;
        while z < capacity
            invariant
                z <= capacity,
                flags@.len() == z as int,
                forall|p: int| 0 <= p < z as int ==> !(#[trigger] flags@[p]),
            decreases capacity - z,
        {
            flags.push(false);
            z = z + 1;
        }
        let mut i: usize = 0;
        while i < n
            invariant
                i <= n,
                flags@.len() == table.cap(),
                forall|p: int|
                    0 <= p < table.cap() ==> ((#[trigger] flags@[p]) <==> slot_flagged(
                        ks,
                        i as int,
                        table,
                        p,
                    )),
                forall|i2: int, j2: int|
                    0 <= i2 < i as int && 0 <= j2 < i as int && i2 != j2 ==> (#[trigger] ks[i2])@
                        != (#[trigger] ks[j2])@,
            decreases n - i,
        {
            proof {
                assert(table.stores_key(kseq[i as int]@));
                let sp = choose|p: int|
                    0 <= p < table.cap() && #[trigger] table.occupied(p) && table.key_at(p)
                        == kseq[i as int]@;
                table.lemma_find_complete(kseq[i as int]@, sp);
            }
            let pos = match table.get_pos(keys[i].as_slice()) {
                Some(pos) => pos,
                None => {
                    proof {
                        assert(false);
                    }
                    return Err(BuildError::DuplicateKey);
                },
            };
            proof {
                table.lemma_find_sound(ks[i as int]@);
            }
            if flags[pos] {
                proof {
                    assert(slot_flagged(ks, i as int, table, pos as int));
                    let i2 = choose|i2: int|
                        0 <= i2 < i as int && (#[trigger] table.find_key(ks[i2]@)) == Some(
                            pos as int,
                        );
                    table.lemma_find_sound(ks[i2]@);
                    assert(ks[i2]@ == ks[i as int]@);
                    assert(has_duplicate_key(ks));
                }
                return Err(BuildError::DuplicateKey);
            }
            let ghost flags_before = flags@;
            flags[pos] = true;
            proof {
                assert forall|p: int| 0 <= p < table.cap() implies ((#[trigger] flags@[p])
                    <==> slot_flagged(ks, i as int + 1, table, p)) by {
                    if p == pos as int {
                        assert(table.find_key(ks[i as int]@) == Some(p));
                        assert(slot_flagged(ks, i as int + 1, table, p));
                    } else {
                        assert(flags@[p] == flags_before[p]);
                        if flags@[p] {
                            let i2 = choose|i2: int|
                                0 <= i2 < i as int && (#[trigger] table.find_key(ks[i2]@)) == Some(
                                    p,
                                );
                            assert(slot_flagged(ks, i as int + 1, table, p));
                        }
                        if slot_flagged(ks, i as int + 1, table, p) {
                            let i2 = choose|i2: int|
                                0 <= i2 < i as int + 1 && (#[trigger] table.find_key(ks[i2]@))
                                    == Some(p);
                            assert(i2 != i as int);
                            assert(slot_flagged(ks, i as int, table, p));
                        }
                    }
                }
                assert forall|i2: int, j2: int|
                    0 <= i2 < i as int + 1 && 0 <= j2 < i as int + 1 && i2 != j2 implies (
                #[trigger] ks[i2])@ != (#[trigger] ks[j2])@ by {
                    if i2 == i as int || j2 == i as int {
                        let other = if i2 == i as int {
                            j2
                        } else {
                            i2
                        };
                        if ks[other]@ == ks[i as int]@ {
                            assert(table.find_key(ks[other]@) == Some(pos as int));
                            assert(slot_flagged(ks, i as int, table, pos as int));
                            assert(flags_before[pos as int]);
                            assert(false);
                        }
                    }
                }
            }
            i = i + 1;
        }
        proof {
            assert(!has_duplicate_key(ks));
            let cap = table.cap();
            assert forall|p: int, q: int|
                0 <= p < cap && 0 <= q < cap && p != q && #[trigger] table.occupied(p)
                    && #[trigger] table.occupied(q) implies table.key_at(p) != table.key_at(q) by {
                if table.key_at(p) == table.key_at(q) {
                    assert(has_duplicate(kseq));
                    let (di, dj) = choose|di: int, dj: int|
                        0 <= di < kseq.len() && 0 <= dj < kseq.len() && di != dj && (
                        #[trigger] kseq[di])@ == (#[trigger] kseq[dj])@;
                    assert(ks[di]@ == ks[dj]@);
                    assert(false);
                }
            }
        }
        let s = HashSet { table };
        proof {
            use_type_invariant(&s);
            s.table.lemma_stored_keys_card();
            assert(s@ =~= s.table.stored_keys());
            assert forall|i2: int| 0 <= i2 < ks.len() implies s@.contains(
                (#[trigger] ks[i2])@,
            ) by {
                assert(s.table.stores_key(kseq[i2]@));
            }
            assert forall|k: Seq<u8>| #[trigger] s@.contains(k) implies exists|i2: int|
                0 <= i2 < ks.len() && (#[trigger] ks[i2])@ == k by {
                assert(s.table.stores_key(k));
                let p = choose|p: int|
                    0 <= p < s.table.cap() && #[trigger] s.table.occupied(p) && s.table.key_at(p)
                        == k;
                assert(is_input_key(kseq, s.table.key_at(p)));
                let i2 = choose|i2: int|
                    0 <= i2 < kseq.len() && (#[trigger] kseq[i2])@ == s.table.key_at(p);
                assert(ks[i2]@ == k);
            }
        }
        Ok(s)
    }

    /// True when the set contains `key`.
    pub fn contains(&self, key: &[u8]) -> (r: bool)
        ensures
            r == self@.contains(key@),
    {
        proof {
            use_type_invariant(&*self);
            self.lemma_lookup(key@);
        }
        match self.table.get(key) {
            Some(_) => true,
            None => false,
        }
    }

    /// How many keys the set holds: the size of its view.
    pub fn len(&self) -> (r: usize)
        ensures
            r as nat == self.spec_len(),
            self@.finite(),
            r as nat == self@.len(),
    {
        proof {
            use_type_invariant(&*self);
            self.table.lemma_stored_keys_card();
            assert(self@ =~= self.table.stored_keys());
        }
        self.table.num_keys()
    }

    /// True when the set holds no keys.
    pub fn is_empty(&self) -> (r: bool)
        ensures
            r == (self.spec_len() == 0),
            r == (self@.len() == 0),
    {
        self.len() == 0
    }
}

} // verus!
