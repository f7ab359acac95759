use vstd::prelude::*;
use bloom::BloomFilter;
use crate::configuration::{Configuration, RECORD_SIZE, MAX_SETTING};
use crate::record::{Record, strictly_sorted, keys_sorted, has_key};
use crate::codec::{bytes_to_records, decode, encode, binary_search_fp, records_to_bytes};
use crate::filter::{
    filter_members,
    filter_bits,
    new_filter,
    optimal_hashes,
    filter_insert,
    filter_contains,
};

verus! {

/// The first `nb` entries of `fp` are the first keys of the blocks of
/// `bpr` records of `rs`.
pub open spec fn block_keys(fp: Seq<i32>, rs: Seq<Record>, bpr: int, nb: int) -> bool {
    forall|b: int| 0 <= b < nb ==> #[trigger] fp[b] == rs[b * bpr].key
}

/// Fence pointers of `rs` for blocks of `bpr` records: the first key of
/// every block, then the last key.
pub open spec fn fences_of(fp: Seq<i32>, rs: Seq<Record>, bpr: int) -> bool {
    let nb = fp.len() - 1;
    &&& fp.len() >= 2
    &&& nb * bpr >= rs.len()
    &&& (nb - 1) * bpr < rs.len()
    &&& block_keys(fp, rs, bpr, nb)
    &&& fp[nb] == rs.last().key
}

/// One sorted, immutable file: its name, byte size, contents, fence
/// pointers and the filter over its keys.
pub struct DiskFile {
    pub filename: String,
    pub size: usize,
    pub fence_pointers: Vec<i32>,
    /// The records of the file, in file order.
    pub records: Vec<Record>,
    /// Records per block.
    pub block_records: usize,
    pub bloom_filter: BloomFilter,
}

impl DiskFile {
    pub open spec fn wf(&self) -> bool {
        let rs = self.records@;
        &&& rs.len() >= 1
        &&& strictly_sorted(rs)
        &&& self.size == RECORD_SIZE * rs.len()
        &&& self.size <= MAX_SETTING
        &&& 1 <= self.block_records <= MAX_SETTING
        &&& fences_of(self.fence_pointers@, rs, self.block_records as int)
        &&& filter_bits(self.bloom_filter) > 0
        &&& forall|i: int| 0 <= i < rs.len() ==> filter_members(self.bloom_filter).contains(#[trigger] rs[i].key)
    }

    pub open spec fn first_key(&self) -> i32 {
        self.records@[0].key
    }

    pub open spec fn last_key(&self) -> i32 {
        self.records@.last().key
    }

    /// Builds a file from its byte image: fence pointers at every block
    /// start plus the last key, and a filter holding every key.
    pub fn create_disk_file(filename: String, data: &[u8], size: usize, config: &Configuration) -> (r: DiskFile)
        requires
            config.wf(),
            data@.len() == size,
            0 < size <= config.file_size,
            size % 8 == 0,
            strictly_sorted(decode(data@)),
        ensures
            r.wf(),
            r.records@ == decode(data@),
            r.filename@ == filename@,
            r.size == size,
            r.block_records == config.block_size / RECORD_SIZE,
    {
        let records = bytes_to_records(data);
        DiskFile::from_records(filename, records, config)
    }

    /// Builds a file from its records.
    pub fn from_records(filename: String, records: Vec<Record>, config: &Configuration) -> (r: DiskFile)
        requires
            config.wf(),
            records@.len() >= 1,
            8 * records@.len() <= config.file_size,
            strictly_sorted(records@),
        ensures
            r.wf(),
            r.records@ == records@,
            r.filename@ == filename@,
            r.size == 8 * records@.len(),
            r.block_records == config.block_size / RECORD_SIZE,
    {
        let n = records.len();
        let bpr = config.block_size / RECORD_SIZE;
        assert(config.bf_bits_per_entry * n <= 64 * MAX_SETTING) by (nonlinear_arith)
            requires config.bf_bits_per_entry <= 64, n <= MAX_SETTING;
        let bits = config.bf_bits_per_entry * n;
        assert(bits > 0) by (nonlinear_arith)
            requires bits == config.bf_bits_per_entry * n, config.bf_bits_per_entry >= 1, n >= 1;
        let hashes = optimal_hashes(bits, n as u32);
        let mut bloom_filter = new_filter(bits, hashes);
        let mut i: usize = 0;
        while i < n
            invariant
                n == records@.len(),
                i <= n,
                filter_bits(bloom_filter) == bits,
                bits > 0,
                forall|j: int| 0 <= j < i ==> filter_members(bloom_filter).contains(#[trigger] records@[j].key),
            decreases n - i,
        {
            filter_insert(&mut bloom_filter, records[i].key);
            i = i + 1;
        }
        let mut fence_pointers: Vec<i32> = Vec::new();
        let mut b: usize = 0;
        let mut start: usize = 0;
        while start < n
            invariant
                n == records@.len(),
                n <= MAX_SETTING,
                1 <= bpr <= MAX_SETTING,
                start == b * bpr,
                b <= n,
                b == 0 || (b - 1) * bpr < n,
                fence_pointers@.len() == b,
                block_keys(fence_pointers@, records@, bpr as int, b as int),
            decreases n - b,
        {
            let ghost old_fp = fence_pointers@;
            let ghost old_b = b;
            fence_pointers.push(records[start].key);
            proof {
                assert(b * bpr < n);
                assert((b + 1) * bpr == b * bpr + bpr) by (nonlinear_arith);
                assert(b + 1 <= n) by (nonlinear_arith)
                    requires b * bpr < n, bpr >= 1;
            }
            b = b + 1;
            start = start + bpr;
            proof {
                assert(fence_pointers@ == old_fp.push(records@[old_b * bpr].key));
                assert((b - 1) * bpr < n);
                let bi = bpr as int;
                assert forall|t: int| 0 <= t < b implies #[trigger] fence_pointers@[t] == records@[t * bi].key by {
                    if t < old_b {
                        assert(fence_pointers@[t] == old_fp[t]);
                    } else {
                        assert(t == old_b);
                    }
                }
                assert(block_keys(fence_pointers@, records@, bpr as int, b as int));
            }
        }
        proof {
            assert(b >= 1) by (nonlinear_arith)
                requires start == b * bpr, start >= n, n >= 1;
        }
        let ghost blocks = fence_pointers@;
        fence_pointers.push(records[n - 1].key);
        proof {
            let bi = bpr as int;
            assert forall|t: int| 0 <= t < b implies #[trigger] fence_pointers@[t] == records@[t * bi].key by {
                assert(fence_pointers@[t] == blocks[t]);
            }
            assert(block_keys(fence_pointers@, records@, bpr as int, b as int));
            assert((fence_pointers@.len() - 1) * bpr == b * bpr);
            assert((fence_pointers@.len() - 2) * bpr == (b - 1) * bpr);
            assert(fences_of(fence_pointers@, records@, bpr as int));
        }
        let size = n * RECORD_SIZE;
        DiskFile { filename, size, fence_pointers, records, block_records: bpr, bloom_filter }
    }

    /// Looks `key` up through the filter, the fence pointers and one block
    /// read; counts the block read in `block_reads`.
    pub fn get(&self, key: &i32, record: &mut Record, block_reads: &mut u64) -> (found: bool)
        requires
            self.wf(),
        ensures
            found == has_key(self.records@, *key),
            found ==> *final(record) == (Record { key: *key, value: self.value_of(*key) }),
            !found ==> *final(record) == *old(record),
            *final(block_reads) == *old(block_reads) || (*old(block_reads) < u64::MAX && *final(block_reads)
                == *old(block_reads) + 1) || (*old(block_reads) == u64::MAX && *final(block_reads) == u64::MAX),
            found ==> *final(block_reads) == if *old(block_reads) < u64::MAX { *old(block_reads) + 1 } else { u64::MAX as int },
    {
        let rs = &self.records;
        let n = rs.len();
        let nb = self.fence_pointers.len() - 1;
        let last = self.fence_pointers[nb];
        if !filter_contains(&self.bloom_filter, *key) || *key > last {
            proof {
                if has_key(rs@, *key) {
                    let j = choose|j: int| 0 <= j < rs@.len() && #[trigger] rs@[j].key == *key;
                    assert(filter_members(self.bloom_filter).contains(rs@[j].key));
                    if j < n - 1 {
                        assert(rs@[j].key < rs@[n - 1].key);
                    }
                }
            }
            return false;
        }
        proof {
            self.lemma_fences_sorted();
        }
        let idx = match binary_search_fp(&self.fence_pointers, key) {
            Some(i) => i,
            None => {
                proof {
                    if has_key(rs@, *key) {
                        let j = choose|j: int| 0 <= j < rs@.len() && #[trigger] rs@[j].key == *key;
                        assert(self.fence_pointers@[0] == rs@[0 * self.block_records as int].key);
                        if j > 0 {
                            assert(rs@[0].key < rs@[j].key);
                        }
                    }
                }
                return false;
            },
        };
        let blk = if idx == nb {
            idx - 1
        } else {
            idx
        };
        let bpr = self.block_records;
        proof {
            assert(self.fence_pointers@[blk as int] <= *key);
            assert(blk * bpr <= (nb - 1) * bpr) by (nonlinear_arith)
                requires blk <= nb - 1, bpr >= 1;
            assert(blk * bpr < n);
            assert(blk * bpr <= MAX_SETTING * MAX_SETTING) by (nonlinear_arith)
                requires blk * bpr < n, n <= MAX_SETTING;
        }
        let lo = blk * bpr;
        proof {
            assert((blk + 1) * bpr == blk * bpr + bpr) by (nonlinear_arith);
            if blk + 1 < nb {
                assert((blk + 1) * bpr <= (nb - 1) * bpr) by (nonlinear_arith)
                    requires blk + 1 <= nb - 1, bpr >= 1;
            }
        }
        let hi = if blk + 1 < nb {
            lo + bpr
        } else {
            n
        };
        proof {
            if blk + 1 < nb {
                assert((blk + 1) * bpr <= (nb - 1) * bpr) by (nonlinear_arith)
                    requires blk + 1 <= nb - 1, bpr >= 1;
                assert((blk + 1) * bpr < n);
                assert(*key < self.fence_pointers@[blk + 1]);
            }
            assert(lo < hi <= n);
        }
        if *block_reads < u64::MAX {
            *block_reads = *block_reads + 1;
        }
        // search the block [lo, hi)
        let mut a: usize = lo;
        let mut z: usize = hi;
        while a < z
            invariant
                lo <= a <= z <= hi <= n,
                n == rs@.len(),
                rs == &self.records,
                self.wf(),
                *record == *old(record),
                *block_reads == if *old(block_reads) < u64::MAX { *old(block_reads) + 1 } else { u64::MAX as int },
                strictly_sorted(rs@),
                forall|i: int| lo <= i < a ==> #[trigger] rs@[i].key < *key,
                forall|i: int| z <= i < hi ==> #[trigger] rs@[i].key > *key,
            decreases z - a,
        {
            let mid = a + (z - a) / 2;
            if rs[mid].key < *key {
                a = mid + 1;
            } else if rs[mid].key > *key {
                z = mid;
            } else {
                proof {
                    self.lemma_value_of(mid as int);
                    assert(rs@[mid as int].key == *key);
                }
                *record = rs[mid];
                return true;
            }
        }
        proof {
            if has_key(rs@, *key) {
                let j = choose|j: int| 0 <= j < rs@.len() && #[trigger] rs@[j].key == *key;
                if j < lo {
                    assert(rs@[j].key < rs@[lo as int].key);
                }
                if j >= hi {
                    assert(hi < n);
                    assert(rs@[hi as int].key == self.fence_pointers@[blk + 1]);
                    assert(rs@[hi as int].key <= rs@[j].key);
                }
                assert(lo <= j < hi);
                assert(j < a || j >= z);
            }
        }
        false
    }

    /// Every record of the file.
    pub fn read_all_file_records(&self) -> (r: Vec<Record>)
        requires
            self.wf(),
        ensures
            r@ == self.records@,
    {
        let mut r: Vec<Record> = Vec::new();
        let mut i: usize = 0;
        while i < self.records.len()
            invariant
                i <= self.records@.len(),
                r@ == self.records@.subrange(0, i as int),
            decreases self.records@.len() - i,
        {
            r.push(self.records[i]);
            i = i + 1;
        }
        r
    }

    /// The file's byte image.
    pub fn read_all_file_bytes(&self) -> (r: Vec<u8>)
        requires
            self.wf(),
        ensures
            r@ == encode(self.records@),
            r@.len() == self.size,
    {
        records_to_bytes(&self.records)
    }

    /// The records within `num_bytes` bytes from `start_offset`, both whole
    /// records; a window running past the end is cut short.
    pub fn read_file(&self, start_offset: usize, num_bytes: usize) -> (r: Vec<Record>)
        requires
            self.wf(),
            start_offset % 8 == 0,
            num_bytes % 8 == 0,
        ensures
            r@ == self.records@.subrange(
                vstd::math::min(start_offset as int / 8, self.records@.len() as int),
                vstd::math::min((start_offset as int + num_bytes as int) / 8, self.records@.len() as int),
            ),
    {
        let n = self.records.len();
        let first = if start_offset / RECORD_SIZE < n { start_offset / RECORD_SIZE } else { n };
        let count = num_bytes / RECORD_SIZE;
        let last = if count < n - first { first + count } else { n };
        proof {
            assert((start_offset as int + num_bytes as int) / 8 == start_offset as int / 8 + num_bytes as int / 8);
        }
        let mut r: Vec<Record> = Vec::new();
        let mut i: usize = first;
        while i < last
            invariant
                first <= i <= last <= self.records@.len(),
                r@ == self.records@.subrange(first as int, i as int),
            decreases last - i,
        {
            r.push(self.records[i]);
            i = i + 1;
        }
        r
    }

    /// The value stored with `key`.
    pub open spec fn value_of(&self, key: i32) -> i32 {
        self.records@[choose|j: int| 0 <= j < self.records@.len() && #[trigger] self.records@[j].key == key].value
    }

    pub proof fn lemma_value_of(&self, j: int)
        requires
            self.wf(),
            0 <= j < self.records@.len(),
        ensures
            self.value_of(self.records@[j].key) == self.records@[j].value,
    {
        let rs = self.records@;
        let k = rs[j].key;
        let i = choose|i: int| 0 <= i < rs.len() && #[trigger] rs[i].key == k;
        if i < j {
            assert(rs[i].key < rs[j].key);
        } else if i > j {
            assert(rs[j].key < rs[i].key);
        }
    }

    pub proof fn lemma_fences_sorted(&self)
        requires
            self.wf(),
        ensures
            keys_sorted(self.fence_pointers@),
            self.fence_pointers@[0] == self.first_key(),
            self.fence_pointers@.last() == self.last_key(),
    {
        let fp = self.fence_pointers@;
        let rs = self.records@;
        let bpr = self.block_records as int;
        let nb = fp.len() - 1;
        assert(fp[0] == rs[0 * bpr].key);
        assert forall|x: int, y: int| 0 <= x <= y < fp.len() implies #[trigger] fp[x] <= #[trigger] fp[y] by {
            if y < nb {
                assert(x * bpr <= y * bpr) by (nonlinear_arith)
                    requires x <= y, bpr >= 1;
                assert(y * bpr <= (nb - 1) * bpr) by (nonlinear_arith)
                    requires y <= nb - 1, bpr >= 1;
                assert(fp[x] == rs[x * bpr].key);
                assert(fp[y] == rs[y * bpr].key);
            } else if x < nb {
                assert(x * bpr <= (nb - 1) * bpr) by (nonlinear_arith)
                    requires x <= nb - 1, bpr >= 1;
                assert(fp[x] == rs[x * bpr].key);
                if x * bpr < rs.len() - 1 {
                    assert(rs[x * bpr].key < rs[rs.len() - 1].key);
                }
            }
        }
    }
}

} // verus!
