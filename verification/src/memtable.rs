//! Memtable facade: the one place the write-ahead log and the skip list
//! are coupled. Every mutation is appended to the log before it is applied
//! to the index, so a crash after the flush is recoverable by replay.
//!
//! Keys are strings; the skip list is keyed by integers, so the facade
//! keeps a directory assigning each distinct key the next integer, and a
//! value store addressed the same way. The observable state is an ordered
//! map from keys to values, and every operation ensures exactly the
//! reference-map semantics of `get`, `put` and `delete`.

use vstd::prelude::*;
use vstd::string::{StrSliceExecFns, StringSliceAdditionalSpecFns};

use crate::log::LogWriter;
use crate::rbtree::{key_cmp, KeyOrder};
use crate::skiplist::SkipList;

verus! {

broadcast use vstd::seq_lib::group_seq_properties;

pub struct Memtable {
    list: SkipList<usize>,
    keys: Vec<String>,
    values: Vec<String>,
    log: LogWriter,
}

impl Memtable {
    pub closed spec fn key_dir(&self) -> Seq<String> {
        self.keys@
    }

    pub closed spec fn val_store(&self) -> Seq<String> {
        self.values@
    }

    /// The bytes the facade has appended to the write-ahead log.
    pub closed spec fn log_bytes(&self) -> Seq<u8> {
        self.log@
    }

    /// The key holds a live entry.
    pub closed spec fn has_key(&self, k: Seq<char>) -> bool {
        exists|id: int|
            0 <= id < self.keys@.len() && (#[trigger] self.keys@[id])@ == k
                && self.list@.dom().contains(id)
    }

    pub closed spec fn val_at(&self, k: Seq<char>) -> Seq<char> {
        let id = choose|id: int|
            0 <= id < self.keys@.len() && (#[trigger] self.keys@[id])@ == k
                && self.list@.dom().contains(id);
        self.values@[self.list@[id] as int]@
    }

    /// The ordered map the memtable denotes.
    pub closed spec fn view(&self) -> Map<Seq<char>, Seq<char>> {
        Map::new(|k: Seq<char>| self.has_key(k), |k: Seq<char>| self.val_at(k))
    }

    pub closed spec fn wf(&self) -> bool {
        &&& self.list.wf()
        &&& forall|a: int, b: int|
            0 <= a < b < self.keys@.len() ==> (#[trigger] self.keys@[a])@ != (
            #[trigger] self.keys@[b])@
        &&& forall|id: int|
            #[trigger] self.list@.dom().contains(id) ==> 0 <= id < self.keys@.len() && (
            self.list@[id] as int) < self.values@.len()
        &&& self.keys@.len() < i128::MAX as int
    }

    /// Protected slots the index's registry has handed out so far.
    pub closed spec fn index_registry_total(&self) -> int {
        self.list.registry_total()
    }

    /// Nodes in the index's arena.
    pub closed spec fn index_arena_len(&self) -> int {
        self.list.arena_len()
    }

    /// Room for one more operation: registry and arena headroom in the
    /// skip list and space for the appended record and stores. `new`
    /// establishes it, and each operation bounds its growth, so a caller
    /// can chain any number of operations it has headroom for.
    pub open spec fn room(&self) -> bool {
        &&& self.index_registry_total() + 60 <= u32::MAX as int
        &&& 2 * self.index_arena_len() + 6 <= usize::MAX as int
        &&& self.key_dir().len() + 1 <= usize::MAX as int
        &&& self.val_store().len() + 1 <= usize::MAX as int
    }

    /// Whether the next operation's `room` precondition holds, decided at
    /// run time. Well-formedness itself is quantified and is not run-time
    /// checkable; `new` establishes it and every operation preserves it.
    pub fn has_room(&self) -> (r: bool)
        ensures
            r == self.room(),
    {
        let slots_ok: bool = self.list.registry_slots() <= u32::MAX - 60;
        let arena_ok: bool = self.list.node_count() <= (usize::MAX - 6) / 2;
        proof {
            assert(self.list.arena_len() <= (usize::MAX - 6) / 2 <==> 2 * self.index_arena_len()
                + 6 <= usize::MAX as int) by (nonlinear_arith);
        }
        let keys_ok: bool = self.keys.len() <= usize::MAX - 1;
        let values_ok: bool = self.values.len() <= usize::MAX - 1;
        slots_ok && arena_ok && keys_ok && values_ok
    }

    /// An empty memtable over an empty log.
    pub fn new() -> (m: Memtable)
        ensures
            m.wf(),
            m@ == Map::<Seq<char>, Seq<char>>::empty(),
            m.log_bytes() == Seq::<u8>::empty(),
            m.room(),
            m.index_registry_total() == 5,
            m.index_arena_len() == 2,
            m.key_dir().len() == 0,
            m.val_store().len() == 0,
    {
        let m = Memtable {
            list: SkipList::new(),
            keys: Vec::new(),
            values: Vec::new(),
            log: LogWriter::new(),
        };
        proof {
            assert forall|k: Seq<char>| !m.has_key(k) by {
                if m.has_key(k) {
                    let id = choose|id: int|
                        0 <= id < m.keys@.len() && (#[trigger] m.keys@[id])@ == k
                            && m.list@.dom().contains(id);
                }
            }
            assert(m@ =~= Map::<Seq<char>, Seq<char>>::empty());
        }
        m
    }

    /// The integer the directory assigns the key, if it has one.
    fn find_id(&self, key: &str) -> (r: Option<usize>)
        requires
            self.wf(),
        ensures
            match r {
                Some(id) => (id as int) < self.key_dir().len() && self.key_dir()[id as int]@
                    == key@,
                None => forall|id: int|
                    0 <= id < self.key_dir().len() ==> (#[trigger] self.key_dir()[id])@ != key@,
            },
    {
        let mut i: usize = 0;
        while i < self.keys.len()
            invariant
                i <= self.keys@.len(),
                forall|id: int| 0 <= id < i ==> (#[trigger] self.keys@[id])@ != key@,
            decreases self.keys@.len() - i,
        {
            if matches!(key_cmp(self.keys[i].as_str(), key), KeyOrder::Equal) {
                return Some(i);
            }
            i = i + 1;
        }
        None
    }

    /// Looks a key up in the index.
    pub fn get(&mut self, key: &str) -> (r: Option<String>)
        requires
            old(self).wf(),
            old(self).room(),
        ensures
            final(self).wf(),
            final(self)@ == old(self)@,
            final(self).log_bytes() == old(self).log_bytes(),
            final(self).index_registry_total() <= old(self).index_registry_total() + 5,
            final(self).index_arena_len() == old(self).index_arena_len(),
            final(self).key_dir() == old(self).key_dir(),
            final(self).val_store() == old(self).val_store(),
            match r {
                Some(v) => old(self)@.dom().contains(key@) && v@ == old(self)@[key@],
                None => !old(self)@.dom().contains(key@),
            },
    {
        let ghost m0 = *self;
        let id: Option<usize> = match self.find_id(key) {
            Some(id) => Some(id),
            None => {
                proof {
                    assert(!self.has_key(key@)) by {
                        if self.has_key(key@) {
                            let id = choose|id: int|
                                0 <= id < self.keys@.len() && (#[trigger] self.keys@[id])@
                                    == key@ && self.list@.dom().contains(id);
                            assert(m0.key_dir()[id]@ != key@);
                        }
                    }
                }
                return None;
            },
        };
        let id: usize = id.unwrap();
        let ghost pre = *self;
        let vid: Option<usize> = self.list.get(id as i128, 0);
        proof {
            assert(self.wf() && self@ == pre@) by {
                assert(self.list@ == pre.list@);
                self.lemma_view_stable(&pre);
            }
        }
        match vid {
            Some(v) => {
                proof {
                    assert(pre.list@.dom().contains(id as int));
                    assert(pre.has_key(key@));
                    assert(pre.val_at(key@) == self.values@[pre.list@[id as int] as int]@) by {
                        let id2 = choose|id2: int|
                            0 <= id2 < pre.keys@.len() && (#[trigger] pre.keys@[id2])@ == key@
                                && pre.list@.dom().contains(id2);
                        assert(pre.keys@[id2]@ == pre.keys@[id as int]@);
                        assert(id2 == id as int);
                    }
                    assert((v as int) < self.values@.len());
                }
                Some(self.values[v].clone())
            },
            None => {
                proof {
                    assert(!pre.has_key(key@)) by {
                        if pre.has_key(key@) {
                            let id2 = choose|id2: int|
                                0 <= id2 < pre.keys@.len() && (#[trigger] pre.keys@[id2])@
                                    == key@ && pre.list@.dom().contains(id2);
                            assert(id2 == id as int);
                        }
                    }
                }
                None
            },
        }
    }

    /// Two memtables with the same directory, store and index denote the
    /// same map.
    proof fn lemma_view_stable(&self, other: &Self)
        requires
            self.keys@ == other.keys@,
            self.values@ == other.values@,
            self.list@ == other.list@,
        ensures
            self@ == other@,
    {
        assert forall|k: Seq<char>| #[trigger] self.has_key(k) == other.has_key(k) by {
            if self.has_key(k) {
                let id = choose|id: int|
                    0 <= id < self.keys@.len() && (#[trigger] self.keys@[id])@ == k
                        && self.list@.dom().contains(id);
                assert(0 <= id < other.keys@.len() && other.keys@[id]@ == k
                    && other.list@.dom().contains(id));
            }
            if other.has_key(k) {
                let id = choose|id: int|
                    0 <= id < other.keys@.len() && (#[trigger] other.keys@[id])@ == k
                        && other.list@.dom().contains(id);
                assert(0 <= id < self.keys@.len() && self.keys@[id]@ == k
                    && self.list@.dom().contains(id));
            }
        }
        assert(self@ =~= other@);
    }

    /// Appends a put record to the log, then installs the value in the
    /// index, replacing any previous value of the key.
    pub fn put(&mut self, key: &str, val: &str)
        requires
            old(self).wf(),
            old(self).room(),
            old(self).log_bytes().len() + 17 + key.spec_bytes().len() + val.spec_bytes().len()
                <= usize::MAX,
        ensures
            final(self).wf(),
            final(self)@ == old(self)@.insert(key@, val@),
            final(self).log_bytes() == old(self).log_bytes() + crate::log::spec_put_record(
                key@,
                val@,
            ),
            final(self).index_registry_total() <= old(self).index_registry_total() + 35,
            final(self).index_arena_len() <= old(self).index_arena_len() + 2,
            final(self).key_dir().len() <= old(self).key_dir().len() + 1,
            final(self).val_store().len() == old(self).val_store().len() + 1,
    {
        let _n: usize = self.log.put(key, val);
        let ghost m0 = *self;
        let id: usize = match self.find_id(key) {
            Some(id) => id,
            None => {
                let id: usize = self.keys.len();
                let ghost keys0 = self.keys@;
                self.keys.push(key.to_owned());
                proof {
                    assert forall|a: int, b: int|
                        0 <= a < b < self.keys@.len() implies (#[trigger] self.keys@[a])@ != (
                    #[trigger] self.keys@[b])@ by {
                        if b == self.keys@.len() - 1 {
                            assert(self.keys@[a] == keys0[a]);
                            assert(m0.key_dir()[a]@ != key@);
                        } else {
                            assert(self.keys@[a] == keys0[a] && self.keys@[b] == keys0[b]);
                        }
                    }
                }
                id
            },
        };
        let vid: usize = self.values.len();
        self.values.push(val.to_owned());
        let ghost pre = *self;
        proof {
            assert(pre.keys@[id as int]@ == key@);
        }
        let added: bool = self.list.add(id as i128, vid, 0);
        if !added {
            let removed: bool = self.list.remove(id as i128, 0);
            proof {
                assert(removed);
            }
            let added2: bool = self.list.add(id as i128, vid, 0);
            proof {
                assert(added2);
            }
        }
        proof {
            assert(self.list@ == pre.list@.insert(id as int, vid));
            self.lemma_put_view(&pre, id, vid, key@, val@);
            Self::lemma_view_extend(pre, *old(self));
            assert(self@ == old(self)@.insert(key@, val@));
        }
    }

    /// Growing the key directory or value store without touching the
    /// index leaves the denoted map unchanged: new entries are unlinked.
    proof fn lemma_view_extend(a: Self, b: Self)
        requires
            b.wf(),
            b.key_dir().len() <= a.key_dir().len(),
            forall|j: int| 0 <= j < b.key_dir().len() ==> a.key_dir()[j] == b.key_dir()[j],
            b.val_store().len() <= a.val_store().len(),
            forall|j: int| 0 <= j < b.val_store().len() ==> a.val_store()[j] == b.val_store()[j],
            a.list@ == b.list@,
        ensures
            a@ == b@,
    {
        assert forall|k2: Seq<char>| #[trigger] a.has_key(k2) == b.has_key(k2) by {
            if a.has_key(k2) {
                let id = choose|id: int|
                    0 <= id < a.keys@.len() && (#[trigger] a.keys@[id])@ == k2
                        && a.list@.dom().contains(id);
                assert(b.list@.dom().contains(id));
                assert(0 <= id < b.keys@.len());
                assert(b.keys@[id]@ == k2);
            }
            if b.has_key(k2) {
                let id = choose|id: int|
                    0 <= id < b.keys@.len() && (#[trigger] b.keys@[id])@ == k2
                        && b.list@.dom().contains(id);
                assert(a.keys@[id]@ == k2);
                assert(a.has_key(k2));
            }
        }
        assert forall|k2: Seq<char>| a.has_key(k2) implies #[trigger] a.val_at(k2) == b.val_at(
            k2,
        ) by {
            let i1 = choose|id: int|
                0 <= id < a.keys@.len() && (#[trigger] a.keys@[id])@ == k2
                    && a.list@.dom().contains(id);
            let i2 = choose|id: int|
                0 <= id < b.keys@.len() && (#[trigger] b.keys@[id])@ == k2
                    && b.list@.dom().contains(id);
            assert(b.list@.dom().contains(i1));
            assert(0 <= i1 < b.keys@.len());
            assert(b.keys@[i1]@ == k2);
            assert(i1 == i2);
            assert((b.list@[i1] as int) < b.values@.len());
            assert(a.values@[b.list@[i1] as int] == b.values@[b.list@[i1] as int]);
        }
        assert(a@ =~= b@);
    }

    /// After installing `id -> vid` in the index, the denoted map is the
    /// old map with the key bound to the new value.
    proof fn lemma_put_view(&self, pre: &Self, id: usize, vid: usize, k: Seq<char>, v: Seq<char>)
        requires
            pre.wf(),
            self.keys@ == pre.keys@,
            self.values@ == pre.values@,
            (id as int) < pre.keys@.len(),
            pre.keys@[id as int]@ == k,
            (vid as int) < pre.values@.len(),
            pre.values@[vid as int]@ == v,
            self.list@ == pre.list@.insert(id as int, vid),
        ensures
            self@ == pre@.insert(k, v),
            self.wf() == (self.list.wf() && self.keys@.len() < i128::MAX as int),
    {
        assert forall|k2: Seq<char>| #[trigger] self.has_key(k2) == (pre.has_key(k2) || k2
            == k) by {
            if self.has_key(k2) {
                let i2 = choose|i2: int|
                    0 <= i2 < self.keys@.len() && (#[trigger] self.keys@[i2])@ == k2
                        && self.list@.dom().contains(i2);
                if i2 == id {
                    assert(k2 == k);
                } else {
                    assert(pre.list@.dom().contains(i2));
                    assert(pre.has_key(k2));
                }
            }
            if pre.has_key(k2) {
                let i2 = choose|i2: int|
                    0 <= i2 < pre.keys@.len() && (#[trigger] pre.keys@[i2])@ == k2
                        && pre.list@.dom().contains(i2);
                assert(self.list@.dom().contains(i2));
                assert(self.has_key(k2));
            }
            if k2 == k {
                assert(0 <= (id as int) < self.keys@.len() && self.keys@[id as int]@ == k2
                    && self.list@.dom().contains(id as int));
                assert(self.has_key(k2));
            }
        }
        assert forall|k2: Seq<char>| self.has_key(k2) implies #[trigger] self.val_at(k2) == (if k2
            == k {
            v
        } else {
            pre.val_at(k2)
        }) by {
            let i2 = choose|i2: int|
                0 <= i2 < self.keys@.len() && (#[trigger] self.keys@[i2])@ == k2
                    && self.list@.dom().contains(i2);
            if k2 == k {
                assert(self.keys@[i2]@ == self.keys@[id as int]@);
                assert(i2 == id);
                assert(self.list@[i2] == vid);
            } else {
                assert(i2 != id);
                assert(pre.list@.dom().contains(i2));
                assert(pre.has_key(k2));
                let i3 = choose|i3: int|
                    0 <= i3 < pre.keys@.len() && (#[trigger] pre.keys@[i3])@ == k2
                        && pre.list@.dom().contains(i3);
                assert(pre.keys@[i3]@ == pre.keys@[i2]@);
                assert(i3 == i2);
                assert(self.list@[i2] == pre.list@[i2]);
            }
        }
        assert(self@ =~= pre@.insert(k, v));
        assert forall|i2: int| #[trigger] self.list@.dom().contains(i2) implies 0 <= i2
            < self.keys@.len() && (self.list@[i2] as int) < self.values@.len() by {
            if i2 != id {
                assert(pre.list@.dom().contains(i2));
            }
        }
    }

    /// Appends a delete record to the log, then removes the key from the
    /// index.
    pub fn delete(&mut self, key: &str)
        requires
            old(self).wf(),
            old(self).room(),
            old(self).log_bytes().len() + 9 + key.spec_bytes().len() <= usize::MAX,
        ensures
            final(self).wf(),
            final(self)@ == old(self)@.remove(key@),
            final(self).log_bytes() == old(self).log_bytes() + crate::log::spec_delete_record(
                key@,
            ),
            final(self).index_registry_total() <= old(self).index_registry_total() + 15,
            final(self).index_arena_len() == old(self).index_arena_len(),
            final(self).key_dir() == old(self).key_dir(),
            final(self).val_store() == old(self).val_store(),
    {
        let _n: usize = self.log.delete(key);
        let ghost m0 = *self;
        let id: usize = match self.find_id(key) {
            Some(id) => id,
            None => {
                proof {
                    assert(!self.has_key(key@)) by {
                        if self.has_key(key@) {
                            let i2 = choose|i2: int|
                                0 <= i2 < self.keys@.len() && (#[trigger] self.keys@[i2])@
                                    == key@ && self.list@.dom().contains(i2);
                            assert(m0.key_dir()[i2]@ != key@);
                        }
                    }
                    assert(self@ =~= old(self)@.remove(key@)) by {
                        assert(!old(self)@.dom().contains(key@));
                    }
                }
                return ;
            },
        };
        let ghost pre = *self;
        let _removed: bool = self.list.remove(id as i128, 0);
        proof {
            if pre.list@.dom().contains(id as int) {
                assert(self.list@ == pre.list@.remove(id as int));
            } else {
                assert(self.list@ =~= pre.list@.remove(id as int));
            }
            self.lemma_delete_view(&pre, id, key@);
        }
    }

    /// After dropping `id` from the index, the denoted map is the old map
    /// without the key.
    proof fn lemma_delete_view(&self, pre: &Self, id: usize, k: Seq<char>)
        requires
            pre.wf(),
            self.keys@ == pre.keys@,
            self.values@ == pre.values@,
            (id as int) < pre.keys@.len(),
            pre.keys@[id as int]@ == k,
            self.list@ == pre.list@.remove(id as int),
        ensures
            self@ == pre@.remove(k),
            self.wf() == (self.list.wf() && self.keys@.len() < i128::MAX as int),
    {
        assert forall|k2: Seq<char>| #[trigger] self.has_key(k2) == (pre.has_key(k2) && k2
            != k) by {
            if self.has_key(k2) {
                let i2 = choose|i2: int|
                    0 <= i2 < self.keys@.len() && (#[trigger] self.keys@[i2])@ == k2
                        && self.list@.dom().contains(i2);
                assert(i2 != id);
                assert(pre.list@.dom().contains(i2));
                assert(pre.has_key(k2));
                assert(k2 != k) by {
                    if k2 == k {
                        assert(self.keys@[i2]@ == self.keys@[id as int]@);
                    }
                }
            }
            if pre.has_key(k2) && k2 != k {
                let i2 = choose|i2: int|
                    0 <= i2 < pre.keys@.len() && (#[trigger] pre.keys@[i2])@ == k2
                        && pre.list@.dom().contains(i2);
                assert(i2 != id);
                assert(self.list@.dom().contains(i2));
                assert(self.has_key(k2));
            }
        }
        assert forall|k2: Seq<char>| self.has_key(k2) implies #[trigger] self.val_at(k2)
            == pre.val_at(k2) by {
            let i2 = choose|i2: int|
                0 <= i2 < self.keys@.len() && (#[trigger] self.keys@[i2])@ == k2
                    && self.list@.dom().contains(i2);
            assert(i2 != id);
            assert(pre.has_key(k2));
            let i3 = choose|i3: int|
                0 <= i3 < pre.keys@.len() && (#[trigger] pre.keys@[i3])@ == k2
                    && pre.list@.dom().contains(i3);
            assert(pre.keys@[i3]@ == pre.keys@[i2]@);
            assert(i3 == i2);
            assert(self.list@[i2] == pre.list@[i2]);
        }
        assert(self@ =~= pre@.remove(k));
        assert forall|i2: int| #[trigger] self.list@.dom().contains(i2) implies 0 <= i2
            < self.keys@.len() && (self.list@[i2] as int) < self.values@.len() by {
            assert(pre.list@.dom().contains(i2));
        }
    }

    /// The log's byte stream, for persisting or replay.
    pub fn log_stream(&self) -> (b: &Vec<u8>)
        ensures
            b@ == self.log_bytes(),
    {
        self.log.bytes()
    }
}

} // verus!
