use vstd::prelude::*;
use std::collections::HashSet;
use crate::configuration::{Configuration, RECORD_SIZE};
use crate::record::{
    Record,
    strictly_sorted,
    has_key,
    entry_map,
    lemma_entry_map_at,
    lemma_entry_map_ext,
};
use crate::codec::{bytes_to_records, decode};
use crate::record::records_map;

verus! {

broadcast use vstd::std_specs::hash::group_hash_axioms;

/// The write-absorbing buffer at level zero: a map from key to value.
///
/// Entries are kept sorted by key with keys unique, so that the sorted
/// egress needed by a flush is the entry list itself.
pub struct MemoryBuffer {
    /// Number of records the buffer holds before it must be flushed.
    pub buffer_size: usize,
    /// The entries, sorted by key.
    pub buffer: Vec<Record>,
    /// Bytes of record data the buffer accepts.
    pub capacity_bytes: usize,
    pub level: usize,
}

impl View for MemoryBuffer {
    type V = Map<i32, i32>;

    open spec fn view(&self) -> Map<i32, i32> {
        entry_map(self.buffer@)
    }
}

impl MemoryBuffer {
    pub open spec fn wf(&self) -> bool {
        &&& strictly_sorted(self.buffer@)
        &&& self.buffer_size * RECORD_SIZE == self.capacity_bytes
        &&& self.capacity_bytes <= crate::configuration::MAX_SETTING
    }

    /// The entries in ascending key order.
    pub open spec fn entries(&self) -> Seq<Record> {
        self.buffer@
    }

    pub open spec fn len(&self) -> nat {
        self@.dom().len()
    }

    pub proof fn lemma_entries(&self)
        requires
            self.wf(),
        ensures
            strictly_sorted(self.entries()),
            entry_map(self.entries()) == self@,
            self.entries().len() == self@.dom().len(),
            self@.dom().finite(),
    {
        let s = self.buffer@;
        lemma_sorted_dom_len(s);
    }

    pub fn create_buffer(config: &Configuration) -> (r: MemoryBuffer)
        requires
            config.wf(),
        ensures
            r.wf(),
            r@ == Map::<i32, i32>::empty(),
            r.buffer_size == config.buffer_capacity / RECORD_SIZE,
            r.spec_capacity() == config.buffer_capacity,
    {
        let r = MemoryBuffer {
            buffer_size: config.buffer_capacity / RECORD_SIZE,
            buffer: Vec::new(),
            capacity_bytes: config.buffer_capacity / RECORD_SIZE * RECORD_SIZE,
            level: 0,
        };
        assert(r@ =~= Map::<i32, i32>::empty());
        r
    }

    pub open spec fn spec_capacity(&self) -> nat {
        self.capacity_bytes as nat
    }

    /// Position of the first entry whose key is not below `key`.
    fn lower_bound(&self, key: i32) -> (p: usize)
        requires
            self.wf(),
        ensures
            p <= self.buffer@.len(),
            forall|i: int| 0 <= i < p ==> #[trigger] self.buffer@[i].key < key,
            forall|i: int| p <= i < self.buffer@.len() ==> #[trigger] self.buffer@[i].key >= key,
    {
        let mut lo: usize = 0;
        let mut hi: usize = self.buffer.len();
        while lo < hi
            invariant
                lo <= hi <= self.buffer@.len(),
                strictly_sorted(self.buffer@),
                forall|i: int| 0 <= i < lo ==> #[trigger] self.buffer@[i].key < key,
                forall|i: int| hi <= i < self.buffer@.len() ==> #[trigger] self.buffer@[i].key >= key,
            decreases hi - lo,
        {
            let mid = lo + (hi - lo) / 2;
            if self.buffer[mid].key < key {
                lo = mid + 1;
            } else {
                hi = mid;
            }
        }
        lo
    }

    /// Inserts or overwrites the value of `key`.
    pub fn put(&mut self, key: &i32, value: &i32)
        requires
            old(self).wf(),
        ensures
            final(self).wf(),
            final(self)@ == old(self)@.insert(*key, *value),
            final(self).buffer_size == old(self).buffer_size,
            final(self).spec_capacity() == old(self).spec_capacity(),
    {
        let p = self.lower_bound(*key);
        let rec = Record::create_record(*key, *value);
        let ghost s = self.buffer@;
        let ghost m = self@;
        if p < self.buffer.len() && self.buffer[p].key == *key {
            self.buffer.set(p, rec);
            proof {
                let t = self.buffer@;
                assert(t == s.update(p as int, rec));
                assert(strictly_sorted(t));
                assert forall|k: i32| #[trigger] m.insert(*key, *value).contains_key(k) <==> has_key(t, k) by {
                    if has_key(s, k) {
                        let i = choose|i: int| 0 <= i < s.len() && #[trigger] s[i].key == k;
                        assert(t[i].key == k);
                    }
                    if has_key(t, k) {
                        let i = choose|i: int| 0 <= i < t.len() && #[trigger] t[i].key == k;
                        assert(s[i].key == k);
                    }
                    if k == *key {
                        assert(t[p as int].key == k);
                    } else {
                        assert(m.contains_key(k) <==> has_key(s, k));
                    }
                }
                assert forall|i: int| 0 <= i < t.len() implies m.insert(*key, *value)[#[trigger] t[i].key] == t[i].value by {
                    if i != p {
                        lemma_entry_map_at(s, i);
                    }
                }
                lemma_entry_map_ext(t, m.insert(*key, *value));
            }
        } else {
            self.buffer.insert(p, rec);
            proof {
                let t = self.buffer@;
                assert(t == s.insert(p as int, rec));
                assert forall|i: int, j: int| 0 <= i < j < t.len() implies #[trigger] t[i].key < #[trigger] t[j].key by {
                    if j < p {
                    } else if i > p {
                        assert(t[i] == s[i - 1] && t[j] == s[j - 1]);
                    } else if i == p {
                        assert(t[j] == s[j - 1]);
                    } else {
                        assert(t[i] == s[i]);
                        if j == p {
                        } else {
                            assert(t[j] == s[j - 1]);
                        }
                    }
                }
                assert forall|k: i32| #[trigger] m.insert(*key, *value).contains_key(k) <==> has_key(t, k) by {
                    if has_key(s, k) {
                        let i = choose|i: int| 0 <= i < s.len() && #[trigger] s[i].key == k;
                        if i < p {
                            assert(t[i].key == k);
                        } else {
                            assert(t[i + 1].key == k);
                        }
                    }
                    if has_key(t, k) {
                        let i = choose|i: int| 0 <= i < t.len() && #[trigger] t[i].key == k;
                        if i < p {
                            assert(s[i].key == k);
                        } else if i > p {
                            assert(s[i - 1].key == k);
                        }
                    }
                    if k == *key {
                        assert(t[p as int].key == k);
                    } else {
                        assert(m.contains_key(k) <==> has_key(s, k));
                    }
                }
                assert forall|i: int| 0 <= i < t.len() implies m.insert(*key, *value)[#[trigger] t[i].key] == t[i].value by {
                    if i < p {
                        lemma_entry_map_at(s, i);
                    } else if i > p {
                        lemma_entry_map_at(s, i - 1);
                        assert(t[i] == s[i - 1]);
                        assert(s[i - 1].key != *key);
                    }
                }
                lemma_entry_map_ext(t, m.insert(*key, *value));
            }
        }
    }

    /// Looks `key` up; on a hit writes the record to `record`.
    pub fn get(&self, key: &i32, record: &mut Record) -> (found: bool)
        requires
            self.wf(),
        ensures
            found == self@.contains_key(*key),
            found ==> *final(record) == (Record { key: *key, value: self@[*key] }),
            !found ==> *final(record) == *old(record),
    {
        let p = self.lower_bound(*key);
        if p < self.buffer.len() && self.buffer[p].key == *key {
            proof {
                lemma_entry_map_at(self.buffer@, p as int);
            }
            *record = self.buffer[p];
            true
        } else {
            proof {
                if has_key(self.buffer@, *key) {
                    let i = choose|i: int| 0 <= i < self.buffer@.len() && #[trigger] self.buffer@[i].key == *key;
                }
            }
            false
        }
    }

    /// The buffered records in ascending key order.
    pub fn merge(&self) -> (records: Vec<Record>)
        requires
            self.wf(),
        ensures
            records@ == self.entries(),
            strictly_sorted(records@),
            entry_map(records@) == self@,
    {
        let mut records: Vec<Record> = Vec::new();
        let mut i: usize = 0;
        while i < self.buffer.len()
            invariant
                i <= self.buffer@.len(),
                records@ == self.buffer@.subrange(0, i as int),
            decreases self.buffer@.len() - i,
        {
            records.push(self.buffer[i]);
            i = i + 1;
        }
        assert(records@ =~= self.buffer@);
        records
    }

    /// Inserts every record of a byte image, later records overriding
    /// earlier ones.
    pub fn flush(&mut self, data: Vec<u8>, _capacity: usize)
        requires
            old(self).wf(),
            data@.len() % 8 == 0,
        ensures
            final(self).wf(),
            final(self)@ == old(self)@.union_prefer_right(records_map(decode(data@))),
            final(self).buffer_size == old(self).buffer_size,
            final(self).spec_capacity() == old(self).spec_capacity(),
    {
        let records = bytes_to_records(data.as_slice());
        let mut i: usize = 0;
        while i < records.len()
            invariant
                self.wf(),
                i <= records@.len(),
                records@ == decode(data@),
                self@ == old(self)@.union_prefer_right(records_map(records@.subrange(0, i as int))),
                self.buffer_size == old(self).buffer_size,
                self.spec_capacity() == old(self).spec_capacity(),
            decreases records@.len() - i,
        {
            let r = records[i];
            self.put(&r.key, &r.value);
            proof {
                let pre = records@.subrange(0, i as int);
                let post = records@.subrange(0, i + 1);
                assert(post.drop_last() =~= pre);
                assert(self@ =~= old(self)@.union_prefer_right(records_map(post)));
            }
            i = i + 1;
        }
        assert(records@.subrange(0, i as int) =~= records@);
    }

    /// Bytes of record data held.
    pub fn size(&self) -> (r: usize)
        requires
            self.wf(),
            self@.dom().len() * 8 <= usize::MAX,
        ensures
            r == self@.dom().len() * 8,
    {
        proof {
            self.lemma_entries();
        }
        self.buffer.len() * RECORD_SIZE
    }

    /// Bytes of record data the buffer accepts.
    pub fn capacity(&self) -> (r: usize)
        ensures
            r == self.spec_capacity(),
    {
        self.capacity_bytes
    }

    pub fn level(&self) -> (r: usize)
        ensures
            r == 0,
    {
        0
    }

    /// Whether the buffer holds its full number of records.
    pub fn is_full(&self) -> (r: bool)
        requires
            self.wf(),
            self@.dom().len() <= self.buffer_size,
        ensures
            r == (self@.dom().len() >= self.buffer_size),
    {
        proof {
            self.lemma_entries();
        }
        self.buffer.len() >= self.buffer_size
    }

    pub fn clear(&mut self)
        requires
            old(self).wf(),
        ensures
            final(self).wf(),
            final(self)@ == Map::<i32, i32>::empty(),
            final(self).buffer_size == old(self).buffer_size,
            final(self).spec_capacity() == old(self).spec_capacity(),
    {
        self.buffer.clear();
        assert(self@ =~= Map::<i32, i32>::empty());
    }

    /// Adds every buffered key to `distinct_keys`.
    pub fn print_stats(&self, distinct_keys: &mut HashSet<i32>)
        requires
            self.wf(),
        ensures
            final(distinct_keys)@ == old(distinct_keys)@.union(self@.dom()),
    {
        let mut i: usize = 0;
        while i < self.buffer.len()
            invariant
                self.wf(),
                i <= self.buffer@.len(),
                distinct_keys@ == old(distinct_keys)@.union(
                    self.buffer@.subrange(0, i as int).map_values(|r: Record| r.key).to_set(),
                ),
            decreases self.buffer@.len() - i,
        {
            distinct_keys.insert(self.buffer[i].key);
            proof {
                let a = self.buffer@.subrange(0, i as int).map_values(|r: Record| r.key);
                let b = self.buffer@.subrange(0, i + 1).map_values(|r: Record| r.key);
                assert(b =~= a.push(self.buffer@[i as int].key));
                a.lemma_push_to_set_commute(self.buffer@[i as int].key);
            }
            i = i + 1;
        }
        proof {
            let a = self.buffer@.map_values(|r: Record| r.key);
            assert(self.buffer@.subrange(0, i as int) =~= self.buffer@);
            assert forall|k: i32| a.to_set().contains(k) <==> self@.dom().contains(k) by {
                if a.to_set().contains(k) {
                    let j = choose|j: int| 0 <= j < a.len() && a[j] == k;
                    assert(self.buffer@[j].key == k);
                }
                if self@.dom().contains(k) {
                    let j = choose|j: int| 0 <= j < self.buffer@.len() && #[trigger] self.buffer@[j].key == k;
                    assert(a[j] == k);
                }
            }
            assert(a.to_set() =~= self@.dom());
        }
    }
}

/// A strictly sorted sequence holds as many entries as its map has keys.
pub proof fn lemma_sorted_dom_len(s: Seq<Record>)
    requires
        strictly_sorted(s),
    ensures
        entry_map(s).dom().finite(),
        entry_map(s).dom().len() == s.len(),
    decreases s.len(),
{
    if s.len() == 0 {
        assert(entry_map(s).dom() =~= Set::empty());
    } else {
        let t = s.drop_last();
        lemma_sorted_dom_len(t);
        let k = s.last().key;
        assert(!entry_map(t).dom().contains(k)) by {
            if has_key(t, k) {
                let i = choose|i: int| 0 <= i < t.len() && #[trigger] t[i].key == k;
                assert(s[i].key < s[s.len() - 1].key);
            }
        }
        assert forall|x: i32| entry_map(s).dom().contains(x) <==> #[trigger] entry_map(t).dom().insert(k).contains(x) by {
            if has_key(s, x) && x != k {
                let i = choose|i: int| 0 <= i < s.len() && #[trigger] s[i].key == x;
                assert(t[i].key == x);
            }
            if has_key(t, x) {
                let i = choose|i: int| 0 <= i < t.len() && #[trigger] t[i].key == x;
                assert(s[i].key == x);
            }
            if x == k {
                assert(s[s.len() - 1].key == x);
            }
        }
        assert(entry_map(s).dom() =~= entry_map(t).dom().insert(k));
    }
}

} // verus!
