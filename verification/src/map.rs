//! A hash map from byte-string keys to values, built once from a record list.

use vstd::prelude::*;

use crate::table::{has_duplicate, is_input_key, same_shape, spec_capacity, Node, Table};
use crate::BuildError;

verus! {

/// The map's per-slot descriptor: a key range plus the position of the
/// slot's value in the map's value array. The position doubles as the
/// construction-time "value written" flag: it stays `None` until the record
/// pass stores this slot's value.
pub(crate) struct MapNode {
    pub(crate) ptr: usize,
    pub(crate) len: usize,
    pub(crate) vi: Option<usize>,
}

impl Node for MapNode {
    open spec fn ptr_spec(&self) -> usize {
        self.ptr
    }

    open spec fn len_spec(&self) -> usize {
        self.len
    }

    open spec fn fresh(ptr: usize, len: usize) -> Self {
        MapNode { ptr, len, vi: None }
    }

    fn new(ptr: usize, len: usize) -> (r: Self) {
        MapNode { ptr, len, vi: None }
    }

    fn ptr(&self) -> (r: usize) {
        self.ptr
    }

    fn len(&self) -> (r: usize) {
        self.len
    }
}

/// Positions `i` and `j` of the records hold byte-equal keys.
pub open spec fn has_duplicate_key<V>(rs: Seq<(Vec<u8>, V)>) -> bool {
    exists|i: int, j: int|
        0 <= i < rs.len() && 0 <= j < rs.len() && i != j && (#[trigger] rs[i]).0@ == (
        #[trigger] rs[j]).0@
}

/// Some record at position `from` or later resolves to slot `p` of table
/// `t0`, so that slot's value has already been stored.
spec fn slot_written<V>(rs: Seq<(Vec<u8>, V)>, from: int, t0: Table<MapNode>, p: int) -> bool {
    exists|i: int| from <= i < rs.len() && (#[trigger] t0.find_key(rs[i].0@)) == Some(p)
}

/// Law (round trip, miss side): a key that matches no record is absent from
/// a successfully built map, whose view holds input keys only; a lookup for
/// it reports "not found". The hit side stands in the constructor's
/// postcondition: every record's key maps to that record's value.
pub proof fn lemma_miss_not_found<V>(records: Seq<(Vec<u8>, V)>, m: Map<Seq<u8>, V>, k: Seq<u8>)
    requires
        forall|k2: Seq<u8>| #[trigger] m.contains_key(k2) ==> exists|i: int|
            0 <= i < records.len() && (#[trigger] records[i]).0@ == k2,
        forall|i: int| 0 <= i < records.len() ==> (#[trigger] records[i]).0@ != k,
    ensures
        !m.contains_key(k),
{
}

/// An immutable hash map for byte-string keys: built once over a record
/// list, then queried (and value-updated) in place.
pub struct HashMap<V> {
    table: Table<MapNode>,
    vals: Vec<V>,
}

impl<V> View for HashMap<V> {
    type V = Map<Seq<u8>, V>;

    /// The map sends each stored key to the value of the slot holding it.
    closed spec fn view(&self) -> Map<Seq<u8>, V> {
        Map::new(
            |k: Seq<u8>| self.table.stores_key(k),
            |k: Seq<u8>| self.vals@[self.slot_value_index(k)],
        )
    }
}

impl<V> HashMap<V> {
    /// The position, in the value array, of the value of the slot whose key
    /// is `k`.
    closed spec fn slot_value_index(&self, k: Seq<u8>) -> int {
        self.table.node_at(
            choose|p: int|
                0 <= p < self.table.cap() && #[trigger] self.table.occupied(p)
                    && self.table.key_at(p) == k,
        ).vi.unwrap() as int
    }

    /// The table is well formed, every occupied slot points at its own cell
    /// of the value array, and no two slots hold the same key bytes.
    #[verifier::type_invariant]
    spec fn inv(self) -> bool {
        &&& self.table.wf()
        &&& forall|p: int|
            0 <= p < self.table.cap() && #[trigger] self.table.occupied(p) ==> self.table.node_at(
                p,
            ).vi is Some && (self.table.node_at(p).vi.unwrap() as int) < self.vals@.len()
        &&& forall|p: int, q: int|
            0 <= p < self.table.cap() && 0 <= q < self.table.cap() && p != q
                && #[trigger] self.table.occupied(p) && #[trigger] self.table.occupied(q)
                ==> self.table.node_at(p).vi.unwrap() != self.table.node_at(q).vi.unwrap()
                    && self.table.key_at(p) != self.table.key_at(q)
    }

    /// How many records the map was built over.
    pub closed spec fn spec_len(self) -> nat {
        self.table.num_keys as nat
    }

    /// How many slots the map's table holds.
    pub closed spec fn slot_capacity(self) -> nat {
        self.table.nodes@.len() as nat
    }

    /// Under the invariant, a lookup answers exactly as the map view does.
    proof fn lemma_lookup(self, k: Seq<u8>)
        requires
            self.inv(),
        ensures
            self@.contains_key(k) <==> self.table.find_key(k) is Some,
            self.table.find_key(k) is Some ==> ({
                let node = self.table.node_at(self.table.find_key(k).unwrap());
                &&& node.vi is Some
                &&& self.slot_value_index(k) == node.vi.unwrap() as int
                &&& self@[k] == self.vals@[node.vi.unwrap() as int]
            }),
    {
        if self.table.find_key(k) is Some {
            self.table.lemma_find_sound(k);
            let p = self.table.find_key(k).unwrap();
            assert(self.table.stores_key(k));
            let q = choose|q: int|
                0 <= q < self.table.cap() && #[trigger] self.table.occupied(q)
                    && self.table.key_at(q) == k;
            assert(q == p);
        }
        if self@.contains_key(k) {
            let p = choose|p: int|
                0 <= p < self.table.cap() && #[trigger] self.table.occupied(p)
                    && self.table.key_at(p) == k;
            self.table.lemma_find_complete(k, p);
        }
    }

    /// Creates a map from key-value records.
    ///
    /// Construction fails with [`BuildError::EmptyInput`] exactly when
    /// `records` is empty, and with [`BuildError::DuplicateKey`] exactly when
    /// two records hold byte-equal keys. On success the map sends every
    /// record's key to that record's value and contains no other key.
    #[verifier::loop_isolation(false)]
    #[verifier::rlimit(100)]
    pub fn new(records: Vec<(Vec<u8>, V)>) -> (r: Result<Self, BuildError>)
        requires
            records@.len() <= usize::MAX / 8,
        ensures
            match r {
                Ok(m) => {
                    &&& 1 <= records@.len()
                    &&& !has_duplicate_key(records@)
                    &&& forall|i: int|
                        0 <= i < records@.len() ==> m@.contains_key(
                            (#[trigger] records@[i]).0@,
                        ) && m@[records@[i].0@] == records@[i].1
                    &&& forall|k: Seq<u8>| #[trigger] m@.contains_key(k) ==> exists|i: int|
                        0 <= i < records@.len() && (#[trigger] records@[i]).0@ == k
                    &&& m.spec_len() == records@.len()
                    &&& m@.dom().finite()
                    &&& m@.dom().len() == records@.len()
                    &&& m.slot_capacity() == spec_capacity(records@.len() as nat)
                },
                Err(e) => (e == BuildError::EmptyInput && records@.len() == 0) || (e
                    == BuildError::DuplicateKey && records@.len() > 0 && has_duplicate_key(
                    records@,
                )),
            },
            records@.len() == 0 ==> r == Err::<Self, BuildError>(BuildError::EmptyInput),
            records@.len() > 0 && has_duplicate_key(records@) ==> r == Err::<Self, BuildError>(
                BuildError::DuplicateKey,
            ),
    {
        let ghost rs = records@;
        if records.len() == 0 {
            return Err(BuildError::EmptyInput);
        }
        let n = records.len();
        let mut key_refs: Vec<&[u8]> = Vec::new();
        let mut i: usize = 0;
        while i < n
            invariant
                i <= n,
                key_refs@.len() == i as int,
                forall|j: int| 0 <= j < i as int ==> (#[trigger] key_refs@[j])@ == rs[j].0@,
            decreases n - i,
        {
            key_refs.push(records[i].0.as_slice());
            i = i + 1;
        }
        let table = Table::<MapNode>::build(&key_refs);
        let ghost kseq = key_refs@;
        let ghost t0 = table;
        let mut table = table;
        let mut vals: Vec<V> = Vec::new();
        let mut recs = records;
        while recs.len() > 0
            invariant
                recs@ == rs.subrange(0, recs@.len() as int),
                recs@.len() <= rs.len(),
                table.wf(),
                same_shape(t0, table),
                forall|k: Seq<u8>| #[trigger] table.find_key(k) == t0.find_key(k),
                vals@.len() == rs.len() - recs@.len(),
                forall|p: int|
                    0 <= p < table.cap() && #[trigger] table.occupied(p) ==> (table.node_at(
                        p,
                    ).vi is Some <==> slot_written(rs, recs@.len() as int, t0, p)),
                forall|p: int|
                    0 <= p < table.cap() && #[trigger] table.occupied(p) && table.node_at(
                        p,
                    ).vi is Some ==> (table.node_at(p).vi.unwrap() as int) < vals@.len(),
                forall|p: int, q: int|
                    0 <= p < table.cap() && 0 <= q < table.cap() && p != q
                        && #[trigger] table.occupied(p) && #[trigger] table.occupied(q)
                        && table.node_at(p).vi is Some && table.node_at(q).vi is Some
                        ==> table.node_at(p).vi.unwrap() != table.node_at(q).vi.unwrap(),
                forall|i2: int|
                    recs@.len() as int <= i2 < rs.len() ==> (#[trigger] t0.find_key(
                        rs[i2].0@,
                    )) is Some && ({
                        let node = table.node_at(t0.find_key(rs[i2].0@).unwrap());
                        &&& node.vi is Some
                        &&& (node.vi.unwrap() as int) < vals@.len()
                        &&& vals@[node.vi.unwrap() as int] == rs[i2].1
                    }),
                forall|i2: int, j2: int|
                    recs@.len() as int <= i2 < rs.len() && recs@.len() as int <= j2 < rs.len() && i2
                        != j2 ==> (#[trigger] rs[i2]).0@ != (#[trigger] rs[j2]).0@,
            decreases recs@.len(),
        {
            let ghost cur = recs@.len() - 1;
            let rec_opt = recs.pop();
            let rec = match rec_opt {
                Some(rec) => rec,
                None => {
                    proof {
                        assert(false);
                    }
                    return Err(BuildError::DuplicateKey);
                },
            };
            let (kbytes, v) = rec;
            proof {
                assert(kbytes@ == rs[cur].0@);
                assert(recs@ =~= rs.subrange(0, recs@.len() as int));
                assert(t0.stores_key(kseq[cur]@));
                let sp = choose|p: int|
                    0 <= p < t0.cap() && #[trigger] t0.occupied(p) && t0.key_at(p) == kseq[cur]@;
                t0.lemma_find_complete(kseq[cur]@, sp);
            }
            let pos_opt = table.get_pos(kbytes.as_slice());
            let pos = match pos_opt {
                Some(pos) => pos,
                None => {
                    proof {
                        assert(false);
                    }
                    return Err(BuildError::DuplicateKey);
                },
            };
            proof {
                table.lemma_find_sound(kbytes@);
                t0.lemma_find_sound(kbytes@);
            }
            let ghost table_before = table;
            let ghost vals_before = vals@;
            let vi = vals.len();
            match &mut table.nodes[pos] {
                Some(node) => {
                    if node.vi.is_some() {
                        proof {
                            assert(slot_written(rs, cur + 1, t0, pos as int));
                            let i2 = choose|i2: int|
                                cur + 1 <= i2 < rs.len() && (#[trigger] t0.find_key(rs[i2].0@))
                                    == Some(pos as int);
                            t0.lemma_find_sound(rs[i2].0@);
                            assert(rs[i2].0@ == rs[cur].0@);
                            assert(has_duplicate_key(rs));
                        }
                        return Err(BuildError::DuplicateKey);
                    }
                    node.vi = Some(vi);
                },
                None => {
                    proof {
                        assert(false);
                    }
                    return Err(BuildError::DuplicateKey);
                },
            }
            vals.push(v);
            proof {
                let cap = t0.cap();
                let pi = pos as int;
                assert(vals@ == vals_before.push(rs[cur].1));
                assert(table.nodes@ == table_before.nodes@.update(
                    pi,
                    Some(
                        MapNode {
                            ptr: table_before.node_at(pi).ptr,
                            len: table_before.node_at(pi).len,
                            vi: Some(vi),
                        },
                    ),
                ));
                assert forall|j: int| 0 <= j < cap implies (#[trigger] table.occupied(j)
                    <==> t0.occupied(j)) by {
                    if j != pi {
                        assert(table.nodes@[j] == table_before.nodes@[j]);
                    }
                    assert(table_before.occupied(j) <==> t0.occupied(j));
                }
                assert forall|j: int|
                    0 <= j < cap && t0.occupied(j) implies #[trigger] table.node_at(j).ptr_spec()
                    == t0.node_at(j).ptr_spec() && table.node_at(j).len_spec() == t0.node_at(
                    j,
                ).len_spec() by {
                    if j != pi {
                        assert(table.node_at(j) == table_before.node_at(j));
                    }
                }
                assert(same_shape(t0, table));
                t0.lemma_same_shape(table);
                assert(t0.find_key(rs[cur].0@) == Some(pi));
                assert forall|p: int|
                    0 <= p < table.cap() && #[trigger] table.occupied(p) implies (table.node_at(
                    p,
                ).vi is Some <==> slot_written(rs, cur, t0, p)) by {
                    if p == pi {
                        assert(slot_written(rs, cur, t0, p));
                    } else {
                        assert(table.nodes@[p] == table_before.nodes@[p]);
                        assert(table_before.occupied(p));
                        assert(table_before.node_at(p).vi is Some <==> slot_written(
                            rs,
                            cur + 1,
                            t0,
                            p,
                        ));
                        if table.node_at(p).vi is Some {
                            let i2 = choose|i2: int|
                                cur + 1 <= i2 < rs.len() && (#[trigger] t0.find_key(rs[i2].0@))
                                    == Some(p);
                            assert(cur <= i2 < rs.len() && t0.find_key(rs[i2].0@) == Some(p));
                            assert(slot_written(rs, cur, t0, p));
                        }
                        if slot_written(rs, cur, t0, p) {
                            let i2 = choose|i2: int|
                                cur <= i2 < rs.len() && (#[trigger] t0.find_key(rs[i2].0@))
                                    == Some(p);
                            assert(i2 != cur);
                            assert(slot_written(rs, cur + 1, t0, p));
                        }
                    }
                }
                assert forall|p: int, q: int|
                    0 <= p < table.cap() && 0 <= q < table.cap() && p != q
                        && #[trigger] table.occupied(p) && #[trigger] table.occupied(q)
                        && table.node_at(p).vi is Some && table.node_at(q).vi is Some
                    implies table.node_at(p).vi.unwrap() != table.node_at(q).vi.unwrap() by {
                    if p == pi || q == pi {
                        let other = if p == pi {
                            q
                        } else {
                            p
                        };
                        assert(table.nodes@[other] == table_before.nodes@[other]);
                        assert(table_before.occupied(other));
                        assert((table_before.node_at(other).vi.unwrap() as int)
                            < vals_before.len());
                    } else {
                        assert(table.nodes@[p] == table_before.nodes@[p]);
                        assert(table.nodes@[q] == table_before.nodes@[q]);
                        assert(table_before.occupied(p) && table_before.occupied(q));
                    }
                }
                assert forall|i2: int|
                    cur <= i2 < rs.len() implies (#[trigger] t0.find_key(rs[i2].0@)) is Some && ({
                    let node = table.node_at(t0.find_key(rs[i2].0@).unwrap());
                    &&& node.vi is Some
                    &&& (node.vi.unwrap() as int) < vals@.len()
                    &&& vals@[node.vi.unwrap() as int] == rs[i2].1
                }) by {
                    if i2 != cur {
                        t0.lemma_find_sound(rs[i2].0@);
                        let p2 = t0.find_key(rs[i2].0@).unwrap();
                        assert(slot_written(rs, cur + 1, t0, p2));
                        assert(table_before.occupied(p2));
                        if p2 == pi {
                            assert(table_before.node_at(pi).vi is Some);
                            assert(false);
                        }
                        assert(table.nodes@[p2] == table_before.nodes@[p2]);
                        assert(vals@[table.node_at(p2).vi.unwrap() as int] == vals_before[table.node_at(
                            p2,
                        ).vi.unwrap() as int]);
                    } else {
                        assert(vals@[vi as int] == rs[cur].1);
                    }
                }
                assert forall|i2: int, j2: int|
                    cur <= i2 < rs.len() && cur <= j2 < rs.len() && i2 != j2 implies (
                #[trigger] rs[i2]).0@ != (#[trigger] rs[j2]).0@ by {
                    if i2 == cur || j2 == cur {
                        let other = if i2 == cur {
                            j2
                        } else {
                            i2
                        };
                        if rs[other].0@ == rs[cur].0@ {
                            assert(t0.find_key(rs[other].0@) == Some(pi));
                            assert(slot_written(rs, cur + 1, t0, pi));
                            assert(table_before.node_at(pi).vi is Some);
                            assert(false);
                        }
                    }
                }
            }
        }
        proof {
            assert(recs@.len() == 0);
            assert forall|i2: int, j2: int|
                0 <= i2 < rs.len() && 0 <= j2 < rs.len() && i2 != j2 implies (#[trigger] rs[i2]).0@
                != (#[trigger] rs[j2]).0@ by {}
            assert(!has_duplicate_key(rs));
            let cap = t0.cap();
            assert forall|p: int, q: int|
                0 <= p < cap && 0 <= q < cap && p != q && #[trigger] table.occupied(p)
                    && #[trigger] table.occupied(q) implies table.key_at(p) != table.key_at(q) by {
                if table.key_at(p) == table.key_at(q) {
                    assert(t0.occupied(p) && t0.occupied(q));
                    assert(t0.key_at(p) == table.key_at(p));
                    assert(t0.key_at(q) == table.key_at(q));
                    assert(has_duplicate(kseq));
                    let (di, dj) = choose|di: int, dj: int|
                        0 <= di < kseq.len() && 0 <= dj < kseq.len() && di != dj && (
                        #[trigger] kseq[di])@ == (#[trigger] kseq[dj])@;
                    assert(rs[di].0@ == rs[dj].0@);
                    assert(false);
                }
            }
            assert forall|p: int|
                0 <= p < cap && #[trigger] table.occupied(p) implies table.node_at(p).vi is Some by {
                assert(t0.occupied(p));
                assert(is_input_key(kseq, t0.key_at(p)));
                let i2 = choose|i2: int|
                    0 <= i2 < kseq.len() && (#[trigger] kseq[i2])@ == t0.key_at(p);
                t0.lemma_find_complete(t0.key_at(p), p);
                t0.lemma_find_sound(t0.key_at(p));
                let p2 = t0.find_key(t0.key_at(p)).unwrap();
                if p2 != p {
                    assert(t0.key_at(p2) == t0.key_at(p));
                    assert(has_duplicate(kseq));
                    let (di, dj) = choose|di: int, dj: int|
                        0 <= di < kseq.len() && 0 <= dj < kseq.len() && di != dj && (
                        #[trigger] kseq[di])@ == (#[trigger] kseq[dj])@;
                    assert(rs[di].0@ == rs[dj].0@);
                    assert(false);
                }
                assert(t0.find_key(rs[i2].0@) == Some(p));
                assert(slot_written(rs, 0, t0, p));
            }
        }
        let m = HashMap { table, vals };
        proof {
            use_type_invariant(&m);
            t0.lemma_same_shape(m.table);
            m.table.lemma_stored_keys_card();
            assert(m@.dom() =~= m.table.stored_keys());
            assert forall|i2: int|
                0 <= i2 < rs.len() implies m@.contains_key((#[trigger] rs[i2]).0@)
                && m@[rs[i2].0@] == rs[i2].1 by {
                assert(t0.stores_key(kseq[i2]@));
                assert(m.table.stores_key(rs[i2].0@));
                m.lemma_lookup(rs[i2].0@);
                assert(t0.find_key(rs[i2].0@) is Some);
                assert(m.table.find_key(rs[i2].0@) == t0.find_key(rs[i2].0@));
            }
            assert forall|k: Seq<u8>| #[trigger] m@.contains_key(k) implies exists|i2: int|
                0 <= i2 < rs.len() && (#[trigger] rs[i2]).0@ == k by {
                assert(m.table.stores_key(k));
                let p = choose|p: int|
                    0 <= p < m.table.cap() && #[trigger] m.table.occupied(p) && m.table.key_at(p)
                        == k;
                assert(t0.occupied(p));
                assert(is_input_key(kseq, t0.key_at(p)));
                let i2 = choose|i2: int|
                    0 <= i2 < kseq.len() && (#[trigger] kseq[i2])@ == t0.key_at(p);
                assert(rs[i2].0@ == k);
            }
        }
        Ok(m)
    }

    /// True when the map holds a value for `key`.
    pub fn contains_key(&self, key: &[u8]) -> (r: bool)
        ensures
            r == self@.contains_key(key@),
    {
        proof {
            use_type_invariant(&*self);
            self.lemma_lookup(key@);
        }
        match self.table.get(key) {
            Some(_) => true,
            None => false,
        }
    }

    /// The value stored for `key`, if the key is present.
    pub fn get(&self, key: &[u8]) -> (r: Option<&V>)
        ensures
            match r {
                Some(v) => self@.contains_key(key@) && *v == self@[key@],
                None => !self@.contains_key(key@),
            },
    {
        proof {
            use_type_invariant(&*self);
            self.lemma_lookup(key@);
        }
        match self.table.get(key) {
            Some(node) => match node.vi {
                Some(vi) => {
                    proof {
                        self.table.lemma_find_sound(key@);
                    }
                    Some(&self.vals[vi])
                },
                None => {
                    proof {
                        self.table.lemma_find_sound(key@);
                        assert(false);
                    }
                    None
                },
            },
            None => None,
        }
    }

    /// A mutable borrow of the value stored for `key`, if the key is
    /// present. Writing through it changes this key's value and nothing
    /// else.
    pub fn get_mut(&mut self, key: &[u8]) -> (r: Option<&mut V>)
        ensures
            match r {
                Some(v) => old(self)@.contains_key(key@) && *v == old(self)@[key@] && final(self)@
                    == old(self)@.insert(key@, *final(v)) && final(self).spec_len() == old(
                    self,
                ).spec_len(),
                None => !old(self)@.contains_key(key@) && *final(self) == *old(self),
            },
    {
        proof {
            use_type_invariant(&*self);
            old(self).lemma_lookup(key@);
        }
        let ghost m0 = *self;
        let pos = match self.table.get_pos(key) {
            Some(pos) => pos,
            None => {
                return None;
            },
        };
        proof {
            m0.table.lemma_find_sound(key@);
        }
        let vi = match &self.table.nodes[pos] {
            Some(node) => match node.vi {
                Some(vi) => vi,
                None => {
                    proof {
                        assert(false);
                    }
                    return None;
                },
            },
            None => {
                proof {
                    assert(false);
                }
                return None;
            },
        };
        let v = &mut self.vals[vi];
        proof {
            Self::lemma_value_update(m0, after_borrow(*self), key@, *final(v));
        }
        Some(v)
    }

    /// Writing a new value into the cell a lookup for `k` points at leaves
    /// the map's view unchanged except at `k`.
    proof fn lemma_value_update(m0: Self, m1: Self, k: Seq<u8>, w: V)
        requires
            m0.inv(),
            m0.table.find_key(k) is Some,
            m0.table.node_at(m0.table.find_key(k).unwrap()).vi is Some,
            m1.table == m0.table,
            m1.vals@ == m0.vals@.update(
                m0.table.node_at(m0.table.find_key(k).unwrap()).vi.unwrap() as int,
                w,
            ),
        ensures
            m1@ == m0@.insert(k, w),
            m1.spec_len() == m0.spec_len(),
    {
        let pi = m0.table.find_key(k).unwrap();
        m0.table.lemma_find_sound(k);
        let vi = m0.table.node_at(pi).vi.unwrap() as int;
        assert forall|k2: Seq<u8>| #[trigger] m1@.contains_key(k2) implies m0@.insert(
            k,
            w,
        ).contains_key(k2) && m1@[k2] == m0@.insert(k, w)[k2] by {
            let p2 = choose|p2: int|
                0 <= p2 < m1.table.cap() && #[trigger] m1.table.occupied(p2) && m1.table.key_at(p2)
                    == k2;
            assert(m0.table.stores_key(k2));
            m0.lemma_lookup(k2);
            m1.lemma_lookup_raw(k2);
            m0.table.lemma_find_complete(k2, p2);
            m0.table.lemma_find_sound(k2);
            let q2 = m0.table.find_key(k2).unwrap();
            assert(q2 == p2);
            if k2 == k {
                assert(p2 == pi);
                assert(m1@[k2] == w);
            } else {
                assert(p2 != pi);
                assert(m0.table.node_at(p2).vi.unwrap() != m0.table.node_at(pi).vi.unwrap());
                assert(m1@[k2] == m0@[k2]);
            }
        }
        assert forall|k2: Seq<u8>| #[trigger] m0@.insert(k, w).contains_key(k2) implies m1@.contains_key(
            k2,
        ) by {
            if k2 == k {
                assert(m0.table.stores_key(k));
            } else {
                assert(m0@.contains_key(k2));
            }
            assert(m0.table.stores_key(k2));
            assert(m1.table.stores_key(k2));
        }
        assert(m1@ =~= m0@.insert(k, w));
    }

    /// The view characterization of `lemma_lookup`, for a map whose table
    /// satisfies the invariant's per-slot clauses but is reached as a plain
    /// value rather than through the type invariant.
    proof fn lemma_lookup_raw(self, k: Seq<u8>)
        requires
            self.table.wf(),
            forall|p: int, q: int|
                0 <= p < self.table.cap() && 0 <= q < self.table.cap() && p != q
                    && #[trigger] self.table.occupied(p) && #[trigger] self.table.occupied(q)
                    ==> self.table.key_at(p) != self.table.key_at(q),
        ensures
            self@.contains_key(k) <==> self.table.find_key(k) is Some,
            self.table.find_key(k) is Some ==> ({
                let node = self.table.node_at(self.table.find_key(k).unwrap());
                &&& self.slot_value_index(k) == node.vi.unwrap() as int
                &&& self@[k] == self.vals@[node.vi.unwrap() as int]
            }),
    {
        if self.table.find_key(k) is Some {
            self.table.lemma_find_sound(k);
            let p = self.table.find_key(k).unwrap();
            assert(self.table.stores_key(k));
            let q = choose|q: int|
                0 <= q < self.table.cap() && #[trigger] self.table.occupied(q)
                    && self.table.key_at(q) == k;
            assert(q == p);
        }
        if self@.contains_key(k) {
            let p = choose|p: int|
                0 <= p < self.table.cap() && #[trigger] self.table.occupied(p)
                    && self.table.key_at(p) == k;
            self.table.lemma_find_complete(k, p);
        }
    }

    /// How many keys the map holds: the size of its key set.
    pub fn len(&self) -> (r: usize)
        ensures
            r as nat == self.spec_len(),
            self@.dom().finite(),
            r as nat == self@.dom().len(),
    {
        proof {
            use_type_invariant(&*self);
            self.table.lemma_stored_keys_card();
            assert(self@.dom() =~= self.table.stored_keys());
        }
        self.table.num_keys()
    }

    /// True when the map holds no keys.
    pub fn is_empty(&self) -> (r: bool)
        ensures
            r == (self.spec_len() == 0),
            r == (self@.dom().len() == 0),
    {
        self.len() == 0
    }
}

} // verus!
