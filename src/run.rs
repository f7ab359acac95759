use vstd::prelude::*;
use crate::configuration::{Configuration, RECORD_SIZE, MAX_SETTING};
use crate::record::{Record, strictly_sorted, keys_sorted, has_key};
use crate::codec::{bytes_to_records, decode, encode, binary_search_fp, generate_filename, records_to_bytes, ascii_chars, filename_bytes};
use crate::disk_file::DiskFile;
use crate::level::slice_records;

verus! {

/// Largest number of bytes a run, a level or the whole engine may hold
/// (2 GiB). It keeps every byte count within a 32-bit `usize`.
pub const MAX_RUN_BYTES: usize = 2147483648;

/// The records of consecutive files, in order.
pub open spec fn run_records(files: Seq<DiskFile>) -> Seq<Record>
    decreases files.len(),
{
    if files.len() == 0 {
        Seq::empty()
    } else {
        run_records(files.drop_last()) + files.last().records@
    }
}

/// Every file is well formed and the key ranges of the files ascend
/// without overlap.
pub open spec fn files_ordered(files: Seq<DiskFile>) -> bool {
    &&& forall|i: int| 0 <= i < files.len() ==> (#[trigger] files[i]).wf()
    &&& forall|i: int, j: int| 0 <= i < j < files.len() ==> (#[trigger] files[i]).last_key() < (#[trigger] files[j]).first_key()
}

/// Each record of a file of the sequence appears among its records, and
/// each key of its records lies in one of its files.
pub proof fn lemma_run_records(files: Seq<DiskFile>)
    ensures
        forall|i: int, j: int| 0 <= i < files.len() && 0 <= j < files[i].records@.len() ==>
            run_records(files).contains(#[trigger] files[i].records@[j]),
        forall|k: i32| #[trigger] has_key(run_records(files), k) ==> exists|i: int| 0 <= i < files.len() && has_key(#[trigger] files[i].records@, k),
    decreases files.len(),
{
    if files.len() > 0 {
        let init = files.drop_last();
        lemma_run_records(init);
        let s = run_records(files);
        let p = run_records(init);
        let last = files.last().records@;
        assert(s == p + last);
        assert forall|i: int, j: int| 0 <= i < files.len() && 0 <= j < files[i].records@.len() implies
            s.contains(#[trigger] files[i].records@[j]) by {
            if i < files.len() - 1 {
                assert(init[i] == files[i]);
                assert(p.contains(init[i].records@[j]));
                let x = choose|x: int| 0 <= x < p.len() && p[x] == init[i].records@[j];
                assert(s[x] == p[x]);
            } else {
                assert(s[p.len() + j] == last[j]);
            }
        }
        assert forall|k: i32| #[trigger] has_key(s, k) implies exists|i: int| 0 <= i < files.len() && has_key(#[trigger] files[i].records@, k) by {
            let x = choose|x: int| 0 <= x < s.len() && #[trigger] s[x].key == k;
            if x < p.len() {
                assert(p[x].key == k);
                assert(has_key(p, k));
                let i = choose|i: int| 0 <= i < init.len() && has_key(#[trigger] init[i].records@, k);
                assert(init[i] == files[i]);
            } else {
                assert(last[x - p.len()].key == k);
                assert(has_key(files[files.len() - 1].records@, k));
            }
        }
    }
}

/// Ordered files hold a strictly sorted run.
pub proof fn lemma_run_sorted(files: Seq<DiskFile>)
    requires
        files_ordered(files),
    ensures
        strictly_sorted(run_records(files)),
        files.len() > 0 ==> forall|x: int| 0 <= x < run_records(files).len() ==> #[trigger] run_records(files)[x].key <= files.last().last_key(),
        run_records(files).len() == 0 <==> files.len() == 0,
    decreases files.len(),
{
    if files.len() > 0 {
        let init = files.drop_last();
        assert(files_ordered(init)) by {
            assert forall|i: int| 0 <= i < init.len() implies (#[trigger] init[i]).wf() by {
                assert(init[i] == files[i]);
            }
            assert forall|i: int, j: int| 0 <= i < j < init.len() implies (#[trigger] init[i]).last_key() < (#[trigger] init[j]).first_key() by {
                assert(init[i] == files[i] && init[j] == files[j]);
            }
        }
        lemma_run_sorted(init);
        let p = run_records(init);
        let f = files.last();
        let last = f.records@;
        let s = run_records(files);
        assert(f == files[files.len() - 1]);
        assert(f.wf());
        assert forall|x: int| 0 <= x < p.len() implies #[trigger] p[x].key < f.first_key() by {
            let n = init.len();
            assert(p[x].key <= init.last().last_key());
            assert(init.last() == files[n - 1]);
        }
        assert forall|x: int, y: int| 0 <= x < y < s.len() implies #[trigger] s[x].key < #[trigger] s[y].key by {
            if y < p.len() {
                assert(s[x] == p[x] && s[y] == p[y]);
            } else if x >= p.len() {
                assert(s[x] == last[x - p.len()] && s[y] == last[y - p.len()]);
            } else {
                assert(s[x] == p[x] && s[y] == last[y - p.len()]);
                assert(last[0].key <= last[y - p.len()].key);
            }
        }
        assert forall|x: int| 0 <= x < s.len() implies #[trigger] s[x].key <= files.last().last_key() by {
            if x < p.len() {
                assert(s[x] == p[x]);
                assert(f.first_key() <= f.last_key());
            } else {
                assert(s[x] == last[x - p.len()]);
            }
        }
    }
}

/// The files of `files` from index `from` on are named
/// `"{level}.{run}.{counter}"` with counters counting up from `counter`,
/// each holds at least one and at most `per_file` records, and all but
/// the last hold exactly `per_file`.
pub open spec fn appended_files(files: Seq<DiskFile>, from: int, level: usize, run: usize, counter: int, per_file: int) -> bool {
    forall|j: int| from <= j < files.len() ==> {
        &&& (#[trigger] files[j]).filename@ == ascii_chars(filename_bytes(level as nat, run as nat, (counter + j - from) as nat))
        &&& 0 < files[j].records@.len() <= per_file
        &&& (j + 1 < files.len() ==> files[j].records@.len() == per_file)
    }
}

/// One sorted run of a level: files with ascending, disjoint key ranges.
pub struct Run {
    pub level: usize,
    /// Index of the run within its level.
    pub run: usize,
    /// Bytes of record data held.
    pub size: usize,
    /// Bytes of record data the run is sized for.
    pub capacity: usize,
    /// Suffix of the next file name minted for this run.
    pub file_counter: usize,
    pub files: Vec<DiskFile>,
    /// The first key of each file.
    pub fence_pointers: Vec<i32>,
}

impl Run {
    pub open spec fn wf(&self) -> bool {
        &&& files_ordered(self.files@)
        &&& self.fence_pointers@.len() == self.files@.len()
        &&& forall|i: int| 0 <= i < self.files@.len() ==> #[trigger] self.fence_pointers@[i] == self.files@[i].first_key()
        &&& self.size == RECORD_SIZE * run_records(self.files@).len()
        &&& self.size <= MAX_RUN_BYTES
    }

    /// A well-formed run's fence pointers ascend and its records are
    /// strictly sorted by key.
    pub proof fn lemma_fences_sorted(&self)
        requires
            self.wf(),
        ensures
            keys_sorted(self.fence_pointers@),
            strictly_sorted(self.records()),
    {
        let fs = self.files@;
        lemma_run_sorted(fs);
        assert forall|x: int, y: int| 0 <= x <= y < self.fence_pointers@.len() implies #[trigger] self.fence_pointers@[x] <= #[trigger] self.fence_pointers@[y] by {
            assert(fs[x].wf());
            if x < y {
                assert(fs[x].first_key() <= fs[x].records@[fs[x].records@.len() - 1].key);
            }
        }
    }

    /// The records of the run in key order.
    pub open spec fn records(&self) -> Seq<Record> {
        run_records(self.files@)
    }

    pub fn create_empty_run(capacity: usize, level: usize, run: usize) -> (r: Run)
        ensures
            r.wf(),
            r.records() == Seq::<Record>::empty(),
            r.size == 0,
            r.capacity == capacity,
            r.level == level,
            r.run == run,
            r.file_counter == 0,
    {
        Run { level, run, size: 0, capacity, file_counter: 0, files: Vec::new(), fence_pointers: Vec::new() }
    }

    /// Builds a run from a byte image, cut into files of at most the file
    /// size each.
    pub fn create_run(size: usize, capacity: usize, data: &[u8], level: usize, run: usize, config: &Configuration) -> (r: Run)
        requires
            config.wf(),
            data@.len() == size,
            0 < size <= MAX_RUN_BYTES,
            size % 8 == 0,
            strictly_sorted(decode(data@)),
        ensures
            r.wf(),
            r.records() == decode(data@),
            r.size == size,
            r.capacity == capacity,
            r.level == level,
            r.run == run,
            r.files@.len() == r.file_counter,
            appended_files(r.files@, 0, level, run, 0, config.file_size as int / 8),
    {
        let records = bytes_to_records(data);
        let mut r = Run::create_empty_run(capacity, level, run);
        r.append_records(&records, config);
        r
    }

    /// Cuts sorted records, all above the run's keys, into new files of at
    /// most the file size and appends them, minting names from the file
    /// counter.
    #[verifier::rlimit(60)]
    pub fn append_records(&mut self, records: &Vec<Record>, config: &Configuration)
        requires
            old(self).wf(),
            config.wf(),
            strictly_sorted(records@),
            old(self).size + 8 * records@.len() <= MAX_RUN_BYTES,
            old(self).files@.len() > 0 && records@.len() > 0 ==> old(self).files@.last().last_key() < records@[0].key,
            old(self).file_counter + records@.len() <= usize::MAX,
        ensures
            final(self).wf(),
            final(self).records() == old(self).records() + records@,
            final(self).size == old(self).size + 8 * records@.len(),
            final(self).capacity == old(self).capacity,
            final(self).level == old(self).level,
            final(self).run == old(self).run,
            final(self).file_counter - old(self).file_counter == final(self).files@.len() - old(self).files@.len(),
            final(self).files@.subrange(0, old(self).files@.len() as int) == old(self).files@,
            appended_files(final(self).files@, old(self).files@.len() as int, old(self).level, old(self).run,
                old(self).file_counter as int, config.file_size as int / 8),
    {
        let n = records.len();
        let per_file = config.file_size / RECORD_SIZE;
        let mut offset: usize = 0;
        while offset < n
            invariant
                self.wf(),
                config.wf(),
                n == records@.len(),
                per_file == config.file_size / 8,
                self.files@.len() >= old(self).files@.len(),
                self.files@.subrange(0, old(self).files@.len() as int) == old(self).files@,
                appended_files(self.files@, old(self).files@.len() as int, old(self).level, old(self).run,
                    old(self).file_counter as int, per_file as int),
                offset < n && self.files@.len() > old(self).files@.len() ==> self.files@.last().records@.len() == per_file,
                offset <= n,
                strictly_sorted(records@),
                self.records() == old(self).records() + records@.subrange(0, offset as int),
                self.size == old(self).size + 8 * offset,
                self.files@.len() > 0 && offset < n ==> self.files@.last().last_key() < records@[offset as int].key,
                old(self).size + 8 * n <= MAX_RUN_BYTES,
                self.capacity == old(self).capacity,
                self.level == old(self).level,
                self.run == old(self).run,
                self.file_counter - old(self).file_counter == self.files@.len() - old(self).files@.len(),
                self.files@.len() - old(self).files@.len() <= offset,
                old(self).file_counter + n <= usize::MAX,
                self.file_counter >= old(self).file_counter,
            decreases n - offset,
        {
            let end = if n - offset > per_file {
                offset + per_file
            } else {
                n
            };
            let chunk = slice_records(records, offset, end);
            proof {
                assert forall|x: int, y: int| 0 <= x < y < chunk@.len() implies #[trigger] chunk@[x].key < #[trigger] chunk@[y].key by {
                    assert(chunk@[x] == records@[offset + x] && chunk@[y] == records@[offset + y]);
                }
                assert(chunk@[0] == records@[offset as int]);
            }
            let name = generate_filename(self.level, self.run, self.file_counter);
            let file = DiskFile::from_records(name, chunk, config);
            proof {
                let old_files = self.files@;
                let nf = old_files.push(file);
                assert(nf.drop_last() == old_files);
                assert(run_records(nf) == run_records(old_files) + chunk@);
                assert(files_ordered(nf)) by {
                    assert forall|i: int| 0 <= i < nf.len() implies (#[trigger] nf[i]).wf() by {
                        if i < old_files.len() {
                            assert(nf[i] == old_files[i]);
                        }
                    }
                    assert forall|i: int, j: int| 0 <= i < j < nf.len() implies (#[trigger] nf[i]).last_key() < (#[trigger] nf[j]).first_key() by {
                        assert(nf[i] == old_files[i]);
                        if j < old_files.len() {
                            assert(nf[j] == old_files[j]);
                        } else {
                            let l = old_files.last();
                            assert(l == old_files[old_files.len() - 1]);
                            if i < old_files.len() - 1 {
                                assert(l.first_key() <= l.last_key());
                            }
                        }
                    }
                }
                assert(records@.subrange(0, end as int) == records@.subrange(0, offset as int) + chunk@);
                assert(chunk@.last() == records@[end - 1]);
                if end < n {
                    assert(records@[end - 1].key < records@[end as int].key);
                }
            }
            let ghost prev_files = self.files@;
            let ghost prev_counter = self.file_counter;
            self.files.push(file);
            self.fence_pointers.push(file_first_key(&self.files));
            self.file_counter = self.file_counter + 1;
            proof {
                let fs = self.files@;
                let from = old(self).files@.len() as int;
                assert(fs.subrange(0, from) =~= old(self).files@) by {
                    assert(prev_files.subrange(0, from) == old(self).files@);
                }
                assert forall|j: int| from <= j < fs.len() implies {
                    &&& (#[trigger] fs[j]).filename@ == ascii_chars(filename_bytes(old(self).level as nat, old(self).run as nat, (old(self).file_counter + j - from) as nat))
                    &&& 0 < fs[j].records@.len() <= per_file
                    &&& (j + 1 < fs.len() ==> fs[j].records@.len() == per_file)
                } by {
                    if j < prev_files.len() {
                        assert(fs[j] == prev_files[j]);
                    }
                }
            }
            self.size = self.size + (end - offset) * RECORD_SIZE;
            proof {
                let fs = self.files@;
                assert forall|i: int| 0 <= i < fs.len() implies #[trigger] self.fence_pointers@[i] == fs[i].first_key() by {
                }
                assert(self.records() == old(self).records() + records@.subrange(0, end as int));
            }
            offset = end;
        }
        assert(records@.subrange(0, n as int) == records@);
    }

    /// Whether the run holds at least its fullness threshold of its
    /// capacity.
    pub fn is_full(&self, config: &Configuration) -> (r: bool)
        requires
            config.wf(),
        ensures
            r == (self.size * 100 >= self.capacity * config.full_threshold_pct),
    {
        let c = self.capacity as u128;
        let p = config.full_threshold_pct as u128;
        assert(c * p <= 0xffff_ffff_ffff_ffffu128 * 100) by (nonlinear_arith)
            requires c <= 0xffff_ffff_ffff_ffffu128, p <= 100;
        (self.size as u128) * 100 >= c * p
    }

    /// Releases every file of the run; the run is empty afterwards.
    pub fn delete_files(&mut self)
        requires
            old(self).wf(),
        ensures
            final(self).wf(),
            final(self).files@.len() == 0,
            final(self).size == 0,
            final(self).capacity == old(self).capacity,
            final(self).level == old(self).level,
            final(self).run == old(self).run,
            final(self).file_counter == old(self).file_counter,
    {
        self.files = Vec::new();
        self.fence_pointers = Vec::new();
        self.size = 0;
    }

    /// Inserts a non-empty batch of ordered files, disjoint from the run's
    /// files, as one block at its sorted position: before the first file
    /// whose first key is not below the batch's first key.
    pub fn insert_files(&mut self, files_to_merge: Vec<DiskFile>)
        requires
            old(self).wf(),
            files_to_merge@.len() > 0,
            exists|p: int| 0 <= p <= old(self).files@.len() && #[trigger] files_ordered(
                old(self).files@.subrange(0, p) + files_to_merge@ + old(self).files@.subrange(p, old(self).files@.len() as int),
            ),
            old(self).size + 8 * run_records(files_to_merge@).len() <= MAX_RUN_BYTES,
        ensures
            final(self).wf(),
            exists|p: int| 0 <= p <= old(self).files@.len() && #[trigger] final(self).files@ == old(self).files@.subrange(0, p)
                + files_to_merge@ + old(self).files@.subrange(p, old(self).files@.len() as int),
            final(self).size == old(self).size + 8 * run_records(files_to_merge@).len(),
            final(self).capacity == old(self).capacity,
            final(self).level == old(self).level,
            final(self).run == old(self).run,
            final(self).file_counter == old(self).file_counter,
    {
        let ghost fs = old(self).files@;
        let ghost batch = files_to_merge@;
        let ghost w = choose|p: int| 0 <= p <= fs.len() && #[trigger] files_ordered(
            fs.subrange(0, p) + batch + fs.subrange(p, fs.len() as int),
        );
        let ghost all = fs.subrange(0, w) + batch + fs.subrange(w, fs.len() as int);
        proof {
            assert(all[w] == batch[0]);
            assert(all[w].wf());
        }
        let key = files_to_merge[0].records[0].key;
        // position of the first file whose first key is not below `key`
        let mut lo: usize = 0;
        let mut hi: usize = self.fence_pointers.len();
        proof {
            assert forall|i: int| 0 <= i < w implies #[trigger] self.fence_pointers@[i] < key by {
                assert(all[i] == fs[i]);
                assert(fs[i].wf());
                assert(fs[i].first_key() <= fs[i].last_key()) by {
                    if fs[i].records@.len() > 1 {
                        assert(fs[i].records@[0].key < fs[i].records@[fs[i].records@.len() - 1].key);
                    }
                }
                assert(all[i].last_key() < all[w].first_key());
            }
            assert forall|i: int| w <= i < fs.len() implies #[trigger] self.fence_pointers@[i] >= key by {
                let j = i + batch.len();
                assert(all[j] == fs[i]);
                assert(all[w].last_key() < all[j].first_key());
                assert(all[w].first_key() <= all[w].last_key()) by {
                    if all[w].records@.len() > 1 {
                        assert(all[w].records@[0].key < all[w].records@[all[w].records@.len() - 1].key);
                    }
                }
            }
        }
        while lo < hi
            invariant
                lo <= w <= hi <= self.fence_pointers@.len(),
                self.fence_pointers@.len() == fs.len(),
                forall|i: int| 0 <= i < w ==> #[trigger] self.fence_pointers@[i] < key,
                forall|i: int| w <= i < fs.len() ==> #[trigger] self.fence_pointers@[i] >= key,
            decreases hi - lo,
        {
            let mid = lo + (hi - lo) / 2;
            if self.fence_pointers[mid] < key {
                lo = mid + 1;
            } else {
                hi = mid;
            }
        }
        let p = lo;
        // first keys and bytes of the batch
        let mut keys: Vec<i32> = Vec::new();
        let mut bytes: usize = 0;
        let mut t: usize = 0;
        proof {
            assert(batch.subrange(0, 0) =~= Seq::<DiskFile>::empty());
            crate::run::lemma_run_records_append(fs.subrange(0, w), batch);
            crate::run::lemma_run_records_append(fs.subrange(0, w) + batch, fs.subrange(w, fs.len() as int));
            crate::run::lemma_run_records_append(fs.subrange(0, w), fs.subrange(w, fs.len() as int));
            assert(fs.subrange(0, w) + fs.subrange(w, fs.len() as int) == fs);
        }
        while t < files_to_merge.len()
            invariant
                t <= batch.len(),
                batch == files_to_merge@,
                files_ordered(all),
                all == fs.subrange(0, w) + batch + fs.subrange(w, fs.len() as int),
                0 <= w <= fs.len(),
                keys@.len() == t,
                forall|x: int| 0 <= x < t ==> #[trigger] keys@[x] == batch[x].first_key(),
                bytes == 8 * run_records(batch.subrange(0, t as int)).len(),
                8 * run_records(batch).len() <= MAX_RUN_BYTES,
            decreases batch.len() - t,
        {
            proof {
                assert(all[w + t] == batch[t as int]);
                assert(batch[t as int].wf());
                assert(batch.subrange(0, t + 1).drop_last() == batch.subrange(0, t as int));
                lemma_run_records_prefix(batch, t + 1);
            }
            keys.push(files_to_merge[t].records[0].key);
            bytes = bytes + files_to_merge[t].size;
            t = t + 1;
        }
        proof {
            assert(batch.subrange(0, t as int) == batch);
        }
        let mut tail = self.files.split_off(p);
        let mut moved = files_to_merge;
        self.files.append(&mut moved);
        self.files.append(&mut tail);
        let mut fp_tail = self.fence_pointers.split_off(p);
        self.fence_pointers.append(&mut keys);
        self.fence_pointers.append(&mut fp_tail);
        self.size = self.size + bytes;
        proof {
            let nf = self.files@;
            assert(nf == all);
            assert forall|i: int| 0 <= i < nf.len() implies #[trigger] self.fence_pointers@[i] == nf[i].first_key() by {
                if i < w {
                    assert(nf[i] == fs[i]);
                } else if i < w + batch.len() {
                    assert(nf[i] == batch[i - w]);
                } else {
                    assert(nf[i] == fs[i - batch.len()]);
                    assert(self.fence_pointers@[i] == old(self).fence_pointers@[i - batch.len()]);
                }
            }
            assert(run_records(fs).len() == run_records(fs.subrange(0, w)).len() + run_records(fs.subrange(w, fs.len() as int)).len());
        }
    }

    /// Looks `key` up in the one file whose key range may hold it.
    pub fn get(&self, key: &i32, record: &mut Record, block_reads: &mut u64) -> (found: bool)
        requires
            self.wf(),
        ensures
            found == has_key(self.records(), *key),
            found ==> final(record).key == *key && self.records().contains(*final(record)),
            !found ==> *final(record) == *old(record),
            *final(block_reads) >= *old(block_reads),
            self.files@.len() == 0 || *key < self.fence_pointers@[0] ==> *final(block_reads) == *old(block_reads),
    {
        let ghost fs = self.files@;
        proof {
            lemma_run_records(fs);
            assert(keys_sorted(self.fence_pointers@)) by {
                assert forall|x: int, y: int| 0 <= x <= y < self.fence_pointers@.len() implies #[trigger] self.fence_pointers@[x] <= #[trigger] self.fence_pointers@[y] by {
                    assert(fs[x].wf());
                    if x < y {
                        assert(fs[x].first_key() <= fs[x].records@[fs[x].records@.len() - 1].key);
                    }
                }
            }
        }
        let file_idx = match binary_search_fp(&self.fence_pointers, key) {
            Some(i) => i,
            None => {
                proof {
                    if has_key(self.records(), *key) {
                        let i = choose|i: int| 0 <= i < fs.len() && has_key(#[trigger] fs[i].records@, *key);
                        let j = choose|j: int| 0 <= j < fs[i].records@.len() && #[trigger] fs[i].records@[j].key == *key;
                        assert(fs[i].wf());
                        if j > 0 {
                            assert(fs[i].records@[0].key < fs[i].records@[j].key);
                        }
                        if i > 0 {
                            assert(fs[0].wf());
                            assert(fs[0].first_key() <= fs[0].last_key());
                            assert(fs[0].last_key() < fs[i].first_key());
                        }
                    }
                }
                return false;
            },
        };
        let found = self.files[file_idx].get(key, record, block_reads);
        proof {
            let f = fs[file_idx as int];
            if found {
                let j = choose|j: int| 0 <= j < f.records@.len() && #[trigger] f.records@[j].key == *key;
                f.lemma_value_of(j);
                assert(f.records@[j] == *final(record));
                assert(self.records().contains(f.records@[j]));
                assert(has_key(self.records(), *key)) by {
                    let x = choose|x: int| 0 <= x < self.records().len() && self.records()[x] == f.records@[j];
                    assert(self.records()[x].key == *key);
                }
            } else if has_key(self.records(), *key) {
                let i = choose|i: int| 0 <= i < fs.len() && has_key(#[trigger] fs[i].records@, *key);
                let j = choose|j: int| 0 <= j < fs[i].records@.len() && #[trigger] fs[i].records@[j].key == *key;
                assert(fs[i].wf());
                if i < file_idx {
                    assert(fs[i].records@[j].key <= fs[i].last_key()) by {
                        if j < fs[i].records@.len() - 1 {
                            assert(fs[i].records@[j].key < fs[i].records@[fs[i].records@.len() - 1].key);
                        }
                    }
                    assert(fs[i].last_key() < fs[file_idx as int].first_key());
                } else if i > file_idx {
                    assert(fs[i].first_key() <= *key) by {
                        if j > 0 {
                            assert(fs[i].records@[0].key < fs[i].records@[j].key);
                        }
                    }
                    assert(self.fence_pointers@[file_idx + 1] <= self.fence_pointers@[i]);
                }
            }
        }
        found
    }

    /// The run's byte image: its files' images in order.
    pub fn get_all_bytes(&self) -> (r: Vec<u8>)
        requires
            self.wf(),
        ensures
            r@ == encode(self.records()),
            r@.len() == self.size,
    {
        let records = self.get_all_records();
        records_to_bytes(&records)
    }

    /// Every record of the run, in key order.
    pub fn get_all_records(&self) -> (r: Vec<Record>)
        requires
            self.wf(),
        ensures
            r@ == self.records(),
    {
        let mut r: Vec<Record> = Vec::new();
        let mut i: usize = 0;
        while i < self.files.len()
            invariant
                i <= self.files@.len(),
                r@ == run_records(self.files@.subrange(0, i as int)),
            decreases self.files@.len() - i,
        {
            let recs = &self.files[i].records;
            let ghost before = r@;
            let mut j: usize = 0;
            while j < recs.len()
                invariant
                    j <= recs@.len(),
                    r@ == before + recs@.subrange(0, j as int),
                decreases recs@.len() - j,
            {
                r.push(recs[j]);
                j = j + 1;
            }
            proof {
                let s = self.files@.subrange(0, i + 1);
                assert(s.drop_last() == self.files@.subrange(0, i as int));
                assert(recs@.subrange(0, j as int) == recs@);
            }
            i = i + 1;
        }
        assert(self.files@.subrange(0, i as int) == self.files@);
        r
    }
}

/// First key of the last file of a non-empty list.
fn file_first_key(files: &Vec<DiskFile>) -> (k: i32)
    requires
        files@.len() > 0,
        files@.last().wf(),
    ensures
        k == files@.last().first_key(),
{
    files[files.len() - 1].records[0].key
}

/// The records of two file lists in a row.
pub proof fn lemma_run_records_append(a: Seq<DiskFile>, b: Seq<DiskFile>)
    ensures
        run_records(a + b) == run_records(a) + run_records(b),
    decreases b.len(),
{
    if b.len() > 0 {
        lemma_run_records_append(a, b.drop_last());
        assert((a + b).drop_last() == a + b.drop_last());
        assert((a + b).last() == b.last());
        assert(run_records(a + b) == run_records(a) + run_records(b.drop_last()) + b.last().records@);
    } else {
        assert(a + b == a);
    }
}

/// Records of a prefix of a file list.
pub proof fn lemma_run_records_prefix(files: Seq<DiskFile>, n: int)
    requires
        0 <= n <= files.len(),
    ensures
        run_records(files.subrange(0, n)).len() <= run_records(files).len(),
    decreases files.len(),
{
    if n < files.len() {
        lemma_run_records_prefix(files.drop_last(), n);
        assert(files.drop_last().subrange(0, n) == files.subrange(0, n));
    } else {
        assert(files.subrange(0, n) == files);
    }
}

} // verus!
