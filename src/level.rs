use vstd::prelude::*;
use crate::configuration::{Configuration, RECORD_SIZE};
use crate::record::{Record, strictly_sorted, has_key, entry_map, lemma_entry_map_at};
use crate::disk_file::DiskFile;
use crate::run::{
    Run,
    MAX_RUN_BYTES,
    run_records,
    files_ordered,
    lemma_run_sorted,
    lemma_run_records_append,
};
use crate::merge::{
    merged_map,
    total_len,
    merge_from_files,
    count_file_blocks,
    file_blocks,
    lemma_merged_map_append,
    lemma_merged_map_single,
    lemma_entry_map_concat,
    lemma_merged_found,
    lemma_merged_absent,
    lemma_total_len_append,
};

verus! {

/// The records of each run, oldest first.
pub open spec fn run_views(runs: Seq<Run>) -> Seq<Seq<Record>> {
    runs.map_values(|r: Run| r.records())
}

/// The records of a list of runs, one run after another.
pub open spec fn runs_records(runs: Seq<Run>) -> Seq<Record>
    decreases runs.len(),
{
    if runs.len() == 0 {
        Seq::empty()
    } else {
        runs_records(runs.drop_last()) + runs.last().records()
    }
}

/// Runs cut from merged files by size: every run but the last reaches
/// `size_per_run` bytes, and would not without its last file.
pub open spec fn split_by_run_size(runs: Seq<Run>, size_per_run: int) -> bool {
    forall|i: int| 0 <= i < runs.len() - 1 ==> {
        &&& 8 * (#[trigger] runs[i]).records().len() >= size_per_run
        &&& runs[i].files@.len() > 1 ==> 8 * run_records(runs[i].files@.drop_last()).len() < size_per_run
    }
}

/// Blocks read when every file of the runs is read once, each file's
/// bytes rounded up to whole blocks on its own.
pub open spec fn runs_file_blocks(runs: Seq<Run>, block_size: int) -> int
    decreases runs.len(),
{
    if runs.len() == 0 {
        0
    } else {
        runs_file_blocks(runs.drop_last(), block_size) + file_blocks(runs.last().files@, block_size)
    }
}

proof fn lemma_runs_file_blocks_prefix(runs: Seq<Run>, n: int, block_size: int)
    requires
        0 <= n <= runs.len(),
        block_size > 0,
    ensures
        0 <= runs_file_blocks(runs.subrange(0, n), block_size) <= runs_file_blocks(runs, block_size),
    decreases runs.len(),
{
    if runs.len() > 0 {
        let f = runs.last().files@;
        crate::merge::lemma_file_blocks_nonneg(f, block_size);
        if n < runs.len() {
            lemma_runs_file_blocks_prefix(runs.drop_last(), n, block_size);
            assert(runs.drop_last().subrange(0, n) == runs.subrange(0, n));
        } else {
            lemma_runs_file_blocks_prefix(runs.drop_last(), n - 1, block_size);
            assert(runs.drop_last().subrange(0, n - 1) == runs.drop_last());
            assert(runs.subrange(0, n) == runs);
        }
    } else {
        assert(runs.subrange(0, n) == runs);
    }
}

/// Runs sealed so far from the files `consumed`: well formed, of capacity
/// `cap`, each at least `spr` bytes but the last (and the last too when
/// `closed_tail`), none still reaching `spr` without its last file, and
/// holding exactly the records of `consumed`.
#[verifier::opaque]
pub open spec fn sealed_prefix(out: Seq<Run>, consumed: Seq<DiskFile>, cap: usize, spr: int, closed_tail: bool) -> bool {
    &&& forall|i: int| 0 <= i < out.len() ==> (#[trigger] out[i]).wf() && out[i].capacity == cap
    &&& forall|i: int| 0 <= i < out.len() - 1 ==> (#[trigger] out[i]).size >= spr
    &&& closed_tail && out.len() > 0 ==> out.last().size >= spr
    &&& forall|i: int| 0 <= i < out.len() && (#[trigger] out[i]).files@.len() > 1 ==> 8 * run_records(out[i].files@.drop_last()).len() < spr
    &&& runs_records(out) == run_records(consumed)
    &&& merged_map(run_views(out)) == entry_map(run_records(consumed))
    &&& sum_sizes(out) == 8 * run_records(consumed).len()
}

proof fn lemma_seal_step(
    all: Seq<DiskFile>,
    consumed: Seq<DiskFile>,
    chunk: Seq<DiskFile>,
    rest: Seq<DiskFile>,
    old_out: Seq<Run>,
    new_run: Run,
    cap: usize,
    spr: int,
)
    requires
        sealed_prefix(old_out, consumed, cap, spr, true),
        strictly_sorted(run_records(all)),
        all == (consumed + chunk) + rest,
        run_records(all) == run_records(consumed + chunk) + run_records(rest),
        run_records(consumed + chunk) == run_records(consumed) + run_records(chunk),
        rest.len() > 0 ==> 8 * run_records(chunk).len() >= spr,
        chunk.len() > 1 ==> 8 * run_records(chunk.drop_last()).len() < spr,
        new_run.wf(),
        new_run.files@ == chunk,
        new_run.records() == run_records(chunk),
        new_run.size == 8 * run_records(chunk).len(),
        new_run.capacity == cap,
    ensures
        sealed_prefix(old_out.push(new_run), consumed + chunk, cap, spr, rest.len() > 0),
{
    reveal(sealed_prefix);
    let out = old_out.push(new_run);
    lemma_entry_map_concat(run_records(consumed + chunk), run_records(rest));
    lemma_entry_map_concat(run_records(consumed), run_records(chunk));
    assert(out.drop_last() == old_out);
    assert(run_views(out).drop_last() == run_views(old_out));
    assert(run_views(out).last() == run_records(chunk));
    assert forall|i: int| 0 <= i < out.len() implies (#[trigger] out[i]).wf() && out[i].capacity == cap by {
        if i < old_out.len() {
            assert(out[i] == old_out[i]);
        }
    }
    assert forall|i: int| 0 <= i < out.len() - 1 implies (#[trigger] out[i]).size >= spr by {
        assert(out[i] == old_out[i]);
        if i == old_out.len() - 1 {
            assert(old_out.last() == old_out[i]);
        }
    }
    assert forall|i: int| 0 <= i < out.len() && (#[trigger] out[i]).files@.len() > 1 implies 8 * run_records(
        out[i].files@.drop_last(),
    ).len() < spr by {
        if i < old_out.len() {
            assert(out[i] == old_out[i]);
        }
    }
    assert(runs_records(out) == runs_records(old_out) + run_records(chunk));
}

/// Total bytes of a list of runs.
pub open spec fn sum_sizes(runs: Seq<Run>) -> nat
    decreases runs.len(),
{
    if runs.len() == 0 {
        0
    } else {
        sum_sizes(runs.drop_last()) + runs.last().size as nat
    }
}

pub proof fn lemma_run_views_append(a: Seq<Run>, b: Seq<Run>)
    ensures
        run_views(a + b) == run_views(a) + run_views(b),
{
    assert(run_views(a + b) =~= run_views(a) + run_views(b));
}

pub proof fn lemma_sum_sizes_append(a: Seq<Run>, b: Seq<Run>)
    ensures
        sum_sizes(a + b) == sum_sizes(a) + sum_sizes(b),
    decreases b.len(),
{
    if b.len() == 0 {
        assert(a + b == a);
    } else {
        lemma_sum_sizes_append(a, b.drop_last());
        assert((a + b).drop_last() == a + b.drop_last());
    }
}

/// Files taken from a run of ordered files are ordered.
pub proof fn lemma_files_ordered_sub(files: Seq<DiskFile>, lo: int, hi: int)
    requires
        files_ordered(files),
        0 <= lo <= hi <= files.len(),
    ensures
        files_ordered(files.subrange(lo, hi)),
{
    let s = files.subrange(lo, hi);
    assert forall|i: int| 0 <= i < s.len() implies (#[trigger] s[i]).wf() by {
        assert(s[i] == files[lo + i]);
    }
    assert forall|i: int, j: int| 0 <= i < j < s.len() implies (#[trigger] s[i]).last_key() < (#[trigger] s[j]).first_key() by {
        assert(s[i] == files[lo + i] && s[j] == files[lo + j]);
    }
}

/// Number of leading files whose sizes first reach `size_per_run`, or all
/// of them.
fn run_prefix_len(files: &Vec<DiskFile>, size_per_run: usize) -> (k: usize)
    requires
        files_ordered(files@),
        8 * run_records(files@).len() <= MAX_RUN_BYTES,
    ensures
        k <= files@.len(),
        files@.len() > 0 ==> 1 <= k,
        k < files@.len() ==> 8 * run_records(files@.subrange(0, k as int)).len() >= size_per_run,
        k > 1 ==> 8 * run_records(files@.subrange(0, k - 1)).len() < size_per_run,
{
    let mut total: usize = 0;
    let mut k: usize = 0;
    proof {
        assert(files@.subrange(0, 0) =~= Seq::<DiskFile>::empty());
    }
    while k < files.len()
        invariant
            k <= files@.len(),
            files_ordered(files@),
            8 * run_records(files@).len() <= MAX_RUN_BYTES,
            total == 8 * run_records(files@.subrange(0, k as int)).len(),
            k > 1 ==> 8 * run_records(files@.subrange(0, k - 1)).len() < size_per_run,
        decreases files@.len() - k,
    {
        if total >= size_per_run && k > 0 {
            return k;
        }
        proof {
            assert(files@[k as int].wf());
            assert(files@.subrange(0, k + 1).drop_last() == files@.subrange(0, k as int));
            crate::run::lemma_run_records_prefix(files@, k + 1);
        }
        total = total + files[k].size;
        k = k + 1;
    }
    k
}

/// Seals the shortest prefix of `files` that reaches `size_per_run` bytes
/// (or all of them) into a run, and hands back the rest.
fn seal_next(files: Vec<DiskFile>, size_per_run: usize, capacity: usize, level: usize, run: usize) -> (r: (Run, Vec<DiskFile>))
    requires
        files@.len() > 0,
        files_ordered(files@),
        8 * run_records(files@).len() <= MAX_RUN_BYTES,
    ensures
        r.0.files@.len() > 0,
        r.0.files@ + r.1@ == files@,
        r.0.wf(),
        r.0.records() == run_records(r.0.files@),
        r.0.size == 8 * run_records(r.0.files@).len(),
        r.0.capacity == capacity,
        r.1@.len() > 0 ==> 8 * run_records(r.0.files@).len() >= size_per_run,
        r.0.files@.len() > 1 ==> 8 * run_records(r.0.files@.drop_last()).len() < size_per_run,
{
    let mut files = files;
    let ghost all = files@;
    let k = run_prefix_len(&files, size_per_run);
    let rest = files.split_off(k);
    proof {
        assert(files@ == all.subrange(0, k as int));
        if k > 1 {
            assert(files@.drop_last() == all.subrange(0, k - 1));
        }
        lemma_files_ordered_sub(all, 0, k as int);
        crate::run::lemma_run_records_prefix(all, k as int);
        assert(files@ + rest@ == all);
    }
    let new_run = seal_run(files, capacity, level, run);
    (new_run, rest)
}

/// Builds a run holding exactly the given ordered files.
fn seal_run(files: Vec<DiskFile>, capacity: usize, level: usize, run: usize) -> (r: Run)
    requires
        files_ordered(files@),
        8 * run_records(files@).len() <= MAX_RUN_BYTES,
    ensures
        r.wf(),
        r.records() == run_records(files@),
        r.files@ == files@,
        r.size == 8 * run_records(files@).len(),
        r.capacity == capacity,
        r.level == level,
        r.run == run,
{
    let mut r = Run::create_empty_run(capacity, level, run);
    if files.len() == 0 {
        proof {
            assert(run_records(files@) == Seq::<Record>::empty());
        }
        return r;
    }
    proof {
        let e = Seq::<DiskFile>::empty();
        assert(e.subrange(0, 0) + files@ + e.subrange(0, 0) == files@);
        assert(files_ordered(r.files@.subrange(0, 0) + files@ + r.files@.subrange(0, 0)));
    }
    let ghost fs = files@;
    r.insert_files(files);
    proof {
        let e = Seq::<DiskFile>::empty();
        assert(e.subrange(0, 0) =~= e);
        let p = choose|p: int| 0 <= p <= 0 && #[trigger] r.files@ == e.subrange(0, p) + fs + e.subrange(p, 0);
        assert(p == 0);
        assert(r.files@ =~= fs);
    }
    r
}

/// A level is full when it holds more runs than a level may, or exactly
/// as many with the newest one at its fullness threshold.
pub open spec fn level_full(l: DiskLevel, c: Configuration) -> bool {
    (l.runs@.len() == c.runs_per_level && l.runs@.last().size * 100 >= l.runs@.last().capacity
        * c.full_threshold_pct) || l.runs@.len() > c.runs_per_level
}

/// Records per run when buffer records are cut into runs:
/// `max(capacity_of_run, file size)` bytes.
pub open spec fn buffer_chunk_records(capacity_of_run: int, c: Configuration) -> int {
    (if capacity_of_run > c.file_size { capacity_of_run } else { c.file_size as int }) / 8
}

/// The runs of `after` from index `from` on each have capacity
/// `capacity`, hold at least one record and at most `per_run` records,
/// and all but the last hold exactly `per_run`.
pub open spec fn appended_runs(after: Seq<Run>, from: int, capacity: usize, per_run: int) -> bool {
    forall|j: int| from <= j < after.len() ==> {
        &&& (#[trigger] after[j]).capacity == capacity
        &&& 0 < after[j].size <= 8 * per_run
        &&& (j + 1 < after.len() ==> after[j].size == 8 * per_run)
    }
}

/// Whether a flush with runs of `size_per_run` bytes and capacity
/// `capacity_of_run` merges into the newest run of `l`: there is one, it
/// was made with that capacity, it is smaller than `size_per_run`, not
/// full, and its file counter is in range. A newest run of another
/// capacity (as a bulk load makes them) is never merged into.
pub open spec fn merges_into_tail(l: DiskLevel, size_per_run: usize, capacity_of_run: usize, c: Configuration) -> bool {
    &&& l.runs@.len() > 0
    &&& l.runs@.last().capacity == capacity_of_run
    &&& size_per_run > l.runs@.last().size
    &&& !(l.runs@.last().size * 100 >= l.runs@.last().capacity * c.full_threshold_pct)
    &&& l.runs@.last().file_counter <= MAX_RUN_BYTES
}

/// One level of the tree: runs ordered oldest first.
pub struct DiskLevel {
    /// Level number, counting from one.
    pub level: usize,
    /// Bytes of record data held.
    pub size: usize,
    /// Bytes of record data the level is sized for.
    pub capacity: usize,
    pub runs: Vec<Run>,
    /// Index given to the next run made at this level.
    pub run_counter: usize,
}

impl View for DiskLevel {
    type V = Map<i32, i32>;

    /// The level's key-value map: a newer run overrides an older one.
    open spec fn view(&self) -> Map<i32, i32> {
        merged_map(run_views(self.runs@))
    }
}

impl DiskLevel {
    pub open spec fn wf(&self) -> bool {
        &&& forall|i: int| 0 <= i < self.runs@.len() ==> (#[trigger] self.runs@[i]).wf()
        &&& self.size == sum_sizes(self.runs@)
        &&& self.size <= MAX_RUN_BYTES
    }

    pub fn empty_level(capacity_of_run: usize, level: usize, config: &Configuration) -> (r: DiskLevel)
        requires
            config.wf(),
        ensures
            r.wf(),
            r@ == Map::<i32, i32>::empty(),
            r.runs@.len() == 0,
            r.size == 0,
            r.level == level,
            r.capacity == if capacity_of_run * config.runs_per_level <= usize::MAX {
                capacity_of_run * config.runs_per_level
            } else {
                usize::MAX as int
            },
    {
        let capacity = if capacity_of_run <= usize::MAX / config.runs_per_level {
            proof {
                assert(capacity_of_run * config.runs_per_level <= usize::MAX) by (nonlinear_arith)
                    requires capacity_of_run <= usize::MAX / config.runs_per_level, config.runs_per_level >= 1;
            }
            capacity_of_run * config.runs_per_level
        } else {
            proof {
                assert(capacity_of_run * config.runs_per_level > usize::MAX) by (nonlinear_arith)
                    requires capacity_of_run > usize::MAX / config.runs_per_level, config.runs_per_level >= 1;
            }
            usize::MAX
        };
        let r = DiskLevel { level, size: 0, capacity, runs: Vec::new(), run_counter: 0 };
        assert(run_views(r.runs@) =~= Seq::<Seq<Record>>::empty());
        r
    }

    /// A new level holding the merge of the given runs' records.
    pub fn create_level(
        files: Vec<Vec<Record>>,
        size_of_run: usize,
        capacity_of_run: usize,
        level: usize,
        config: &Configuration,
        put_io: &mut u64,
    ) -> (r: DiskLevel)
        requires
            config.wf(),
            forall|i: int| 0 <= i < files@.len() ==> strictly_sorted(#[trigger] files@[i]@),
            8 * total_len(files@.map_values(|v: Vec<Record>| v@)) <= MAX_RUN_BYTES,
        ensures
            r.wf(),
            r@ == merged_map(files@.map_values(|v: Vec<Record>| v@)),
            r.level == level,
            r.size <= 8 * total_len(files@.map_values(|v: Vec<Record>| v@)),
            *final(put_io) >= *old(put_io),
    {
        let mut new_level = DiskLevel::empty_level(capacity_of_run, level, config);
        new_level.flush(files, size_of_run, size_of_run, capacity_of_run, config, put_io);
        assert(new_level@ =~= merged_map(files@.map_values(|v: Vec<Record>| v@)));
        new_level
    }

    /// A new level holding sorted buffer records.
    pub fn create_level_from_buffer(
        data: Vec<Record>,
        size: usize,
        capacity_of_run: usize,
        level: usize,
        config: &Configuration,
        put_io: &mut u64,
    ) -> (r: DiskLevel)
        requires
            config.wf(),
            strictly_sorted(data@),
            size == 8 * data@.len(),
            size <= MAX_RUN_BYTES,
        ensures
            r.wf(),
            r@ == entry_map(data@),
            r.level == level,
            r.size == size,
            appended_runs(r.runs@, 0, capacity_of_run, buffer_chunk_records(capacity_of_run as int, *config)),
            runs_records(r.runs@) == data@,
            *final(put_io) >= *old(put_io),
    {
        let mut new_level = DiskLevel::empty_level(capacity_of_run, level, config);
        new_level.flush_from_buffer(data, size, capacity_of_run, config, put_io);
        assert(new_level@ =~= entry_map(data@));
        assert(new_level.runs@.subrange(0, new_level.runs@.len() as int) == new_level.runs@);
        new_level
    }

    /// Full when it holds more runs than a level may, or exactly as many
    /// with the newest one full.
    pub fn is_full(&self, config: &Configuration) -> (r: bool)
        requires
            config.wf(),
        ensures
            r == level_full(*self, *config),
    {
        let num_runs = self.runs.len();
        let last_run_full = num_runs == config.runs_per_level && self.runs[num_runs - 1].is_full(config);
        last_run_full || num_runs > config.runs_per_level
    }

    pub fn capacity(&self) -> (r: usize)
        ensures
            r == self.capacity,
    {
        self.capacity
    }

    pub fn size(&self) -> (r: usize)
        ensures
            r == self.size,
    {
        self.size
    }

    pub fn add_capacity(&mut self, sz: usize)
        requires
            old(self).capacity + sz <= usize::MAX,
        ensures
            final(self).capacity == old(self).capacity + sz,
            final(self).runs == old(self).runs,
            final(self).size == old(self).size,
            final(self).level == old(self).level,
            final(self).run_counter == old(self).run_counter,
    {
        self.capacity = self.capacity + sz;
    }

    pub fn dec_capacity(&mut self, sz: usize)
        requires
            old(self).capacity >= sz,
        ensures
            final(self).capacity == old(self).capacity - sz,
            final(self).runs == old(self).runs,
            final(self).size == old(self).size,
            final(self).level == old(self).level,
            final(self).run_counter == old(self).run_counter,
    {
        self.capacity = self.capacity - sz;
    }

    pub fn level(&self) -> (r: usize)
        ensures
            r == self.level,
    {
        self.level
    }

    /// Releases every run's files and empties the level.
    pub fn clear(&mut self)
        requires
            old(self).wf(),
        ensures
            final(self).wf(),
            final(self)@ == Map::<i32, i32>::empty(),
            final(self).runs@.len() == 0,
            final(self).size == 0,
            final(self).level == old(self).level,
            final(self).capacity == old(self).capacity,
            final(self).run_counter == old(self).run_counter,
    {
        self.runs = Vec::new();
        self.size = 0;
        assert(run_views(self.runs@) =~= Seq::<Seq<Record>>::empty());
    }

    /// The records of every run, oldest run first.
    pub fn get_all_files(&self, config: &Configuration, put_io: &mut u64) -> (r: Vec<Vec<Record>>)
        requires
            self.wf(),
            config.wf(),
        ensures
            *old(put_io) + runs_file_blocks(self.runs@, config.block_size as int) <= u64::MAX ==> *final(put_io)
                == *old(put_io) + runs_file_blocks(self.runs@, config.block_size as int),
            *final(put_io) >= *old(put_io),
            r@.map_values(|v: Vec<Record>| v@) == run_views(self.runs@),
            forall|i: int| 0 <= i < r@.len() ==> strictly_sorted(#[trigger] r@[i]@),
            8 * total_len(r@.map_values(|v: Vec<Record>| v@)) == self.size,
    {
        let mut r: Vec<Vec<Record>> = Vec::new();
        let mut i: usize = 0;
        proof {
            assert(self.runs@.subrange(0, 0) =~= Seq::<Run>::empty());
        }
        while i < self.runs.len()
            invariant
                self.wf(),
                i <= self.runs@.len(),
                r@.map_values(|v: Vec<Record>| v@) == run_views(self.runs@.subrange(0, i as int)),
                forall|x: int| 0 <= x < r@.len() ==> strictly_sorted(#[trigger] r@[x]@),
                8 * total_len(r@.map_values(|v: Vec<Record>| v@)) == sum_sizes(self.runs@.subrange(0, i as int)),
                config.wf(),
                *old(put_io) + runs_file_blocks(self.runs@, config.block_size as int) <= u64::MAX ==> *put_io
                    == *old(put_io) + runs_file_blocks(self.runs@.subrange(0, i as int), config.block_size as int),
                *put_io >= *old(put_io),
            decreases self.runs@.len() - i,
        {
            proof {
                assert(self.runs@.subrange(0, i + 1).drop_last() == self.runs@.subrange(0, i as int));
                lemma_runs_file_blocks_prefix(self.runs@, i + 1, config.block_size as int);
            }
            count_file_blocks(&self.runs[i].files, config.block_size, put_io);
            let recs = self.runs[i].get_all_records();
            let ghost before = r@;
            proof {
                assert(self.runs@[i as int].wf());
                lemma_run_sorted(self.runs@[i as int].files@);
            }
            r.push(recs);
            proof {
                let sub = self.runs@.subrange(0, i + 1);
                assert(sub.drop_last() == self.runs@.subrange(0, i as int));
                let prev = self.runs@.subrange(0, i as int);
                let rv = r@.map_values(|v: Vec<Record>| v@);
                assert forall|x: int| 0 <= x < i + 1 implies #[trigger] rv[x] == run_views(sub)[x] by {
                    if x < i {
                        assert(r@[x] == before[x]);
                        assert(before.map_values(|v: Vec<Record>| v@)[x] == run_views(prev)[x]);
                        assert(prev[x] == sub[x]);
                    } else {
                        assert(r@[x] == recs);
                        assert(sub[x] == self.runs@[i as int]);
                    }
                }
                assert(r@.map_values(|v: Vec<Record>| v@) =~= run_views(sub));
                assert(r@.map_values(|v: Vec<Record>| v@).drop_last() =~= before.map_values(|v: Vec<Record>| v@));
            }
            i = i + 1;
        }
        assert(self.runs@.subrange(0, i as int) == self.runs@);
        r
    }

    /// Slices sorted buffer records into runs of at most
    /// `max(capacity_of_run, file size)` bytes and appends them.
    pub fn flush_from_buffer(
        &mut self,
        data_records: Vec<Record>,
        size: usize,
        capacity_of_run: usize,
        config: &Configuration,
        put_io: &mut u64,
    )
        requires
            old(self).wf(),
            config.wf(),
            strictly_sorted(data_records@),
            size == 8 * data_records@.len(),
            old(self).size + size <= MAX_RUN_BYTES,
        ensures
            final(self).wf(),
            final(self)@ == old(self)@.union_prefer_right(entry_map(data_records@)),
            final(self).size == old(self).size + size,
            final(self).level == old(self).level,
            final(self).capacity == old(self).capacity,
            final(self).runs@.len() >= old(self).runs@.len(),
            final(self).runs@.subrange(0, old(self).runs@.len() as int) == old(self).runs@,
            appended_runs(final(self).runs@, old(self).runs@.len() as int, capacity_of_run,
                buffer_chunk_records(capacity_of_run as int, *config)),
            runs_records(final(self).runs@.subrange(old(self).runs@.len() as int, final(self).runs@.len() as int))
                == data_records@,
            *final(put_io) >= *old(put_io),
    {
        let n = data_records.len();
        let chunk_bytes = if capacity_of_run > config.file_size {
            capacity_of_run
        } else {
            config.file_size
        };
        let per_run = chunk_bytes / RECORD_SIZE;
        let mut num_flushed: usize = 0;
        let ghost base = self.runs@;
        let ghost base_map = self@;
        while num_flushed < n
            invariant
                self.wf(),
                config.wf(),
                n == data_records@.len(),
                per_run >= 1,
                num_flushed <= n,
                strictly_sorted(data_records@),
                base_map == merged_map(run_views(base)),
                self@ == base_map.union_prefer_right(entry_map(data_records@.subrange(0, num_flushed as int))),
                self.size == old(self).size + 8 * num_flushed,
                old(self).size + 8 * n <= MAX_RUN_BYTES,
                self.level == old(self).level,
                self.capacity == old(self).capacity,
                *put_io >= *old(put_io),
                per_run == buffer_chunk_records(capacity_of_run as int, *config),
                base == old(self).runs@,
                self.runs@.len() >= base.len(),
                self.runs@.subrange(0, base.len() as int) == base,
                appended_runs(self.runs@, base.len() as int, capacity_of_run, per_run as int),
                num_flushed < n && self.runs@.len() > base.len() ==> self.runs@.last().size == 8 * per_run,
                runs_records(self.runs@.subrange(base.len() as int, self.runs@.len() as int)) == data_records@.subrange(0, num_flushed as int),
            decreases n - num_flushed,
        {
            let take = if n - num_flushed > per_run {
                per_run
            } else {
                n - num_flushed
            };
            let end = num_flushed + take;
            let chunk = slice_records(&data_records, num_flushed, end);
            let ghost pre = data_records@.subrange(0, num_flushed as int);
            proof {
                assert(data_records@.subrange(0, end as int) == pre + chunk@);
                lemma_entry_map_concat(pre, chunk@);
            }
            let mut new_run = Run::create_empty_run(capacity_of_run, self.level, self.run_counter);
            new_run.append_records(&chunk, config);
            crate::merge::add_io(put_io, crate::merge::blocks_of(take * RECORD_SIZE, config.block_size));
            let ghost old_runs = self.runs@;
            self.runs.push(new_run);
            self.run_counter = self.run_counter.wrapping_add(1);
            self.size = self.size + take * RECORD_SIZE;
            proof {
                assert(new_run.records() == chunk@);
                assert(self.runs@.drop_last() == old_runs);
                assert(run_views(self.runs@) == run_views(old_runs).push(chunk@));
                assert(run_views(self.runs@).drop_last() == run_views(old_runs));
                assert(forall|i: int| 0 <= i < self.runs@.len() ==> (#[trigger] self.runs@[i]).wf()) by {
                    assert forall|i: int| 0 <= i < self.runs@.len() implies (#[trigger] self.runs@[i]).wf() by {
                        if i < old_runs.len() {
                            assert(self.runs@[i] == old_runs[i]);
                        }
                    }
                }
                assert(self@ =~= base_map.union_prefer_right(entry_map(data_records@.subrange(0, end as int))));
                assert(self.runs@.subrange(0, base.len() as int) =~= base);
                let nr = self.runs@.subrange(base.len() as int, self.runs@.len() as int);
                assert(nr.drop_last() == old_runs.subrange(base.len() as int, old_runs.len() as int));
                assert(nr.last() == new_run);
                assert(new_run.records() == chunk@);
                assert forall|j: int| base.len() <= j < self.runs@.len() implies {
                    &&& (#[trigger] self.runs@[j]).capacity == capacity_of_run
                    &&& 0 < self.runs@[j].size <= 8 * per_run
                    &&& (j + 1 < self.runs@.len() ==> self.runs@[j].size == 8 * per_run)
                } by {
                    if j < old_runs.len() {
                        assert(self.runs@[j] == old_runs[j]);
                    }
                }
            }
            num_flushed = end;
        }
        assert(data_records@.subrange(0, n as int) == data_records@);
    }

    /// Receives the records of runs compacted from the level above (oldest
    /// first) and installs their merge: into the newest run when it has
    /// room, else as new runs of about `size_per_run` bytes each.
    pub fn flush(
        &mut self,
        files: Vec<Vec<Record>>,
        data_size: usize,
        size_per_run: usize,
        capacity_of_run: usize,
        config: &Configuration,
        put_io: &mut u64,
    )
        requires
            old(self).wf(),
            config.wf(),
            forall|i: int| 0 <= i < files@.len() ==> strictly_sorted(#[trigger] files@[i]@),
            old(self).size + 8 * total_len(files@.map_values(|v: Vec<Record>| v@)) <= MAX_RUN_BYTES,
        ensures
            final(self).wf(),
            final(self)@ == old(self)@.union_prefer_right(merged_map(files@.map_values(|v: Vec<Record>| v@))),
            final(self).size <= old(self).size + 8 * total_len(files@.map_values(|v: Vec<Record>| v@)),
            final(self).level == old(self).level,
            final(self).capacity == old(self).capacity,
            *final(put_io) >= *old(put_io),
            merges_into_tail(*old(self), size_per_run, capacity_of_run, *config) ==> {
                &&& final(self).size == old(self).size - old(self).runs@.last().size + 8 * entry_map(
                    old(self).runs@.last().records(),
                ).union_prefer_right(merged_map(files@.map_values(|v: Vec<Record>| v@))).dom().len()
                &&& old(self).runs@.len() <= final(self).runs@.len() <= old(self).runs@.len() + 1
                &&& final(self).runs@.subrange(0, old(self).runs@.len() - 1) == old(self).runs@.drop_last()
                &&& forall|j: int| old(self).runs@.len() - 1 <= j < final(self).runs@.len() ==> (#[trigger] final(self).runs@[j]).capacity == capacity_of_run
                &&& final(self).runs@.len() == old(self).runs@.len() + 1 ==> final(self).runs@[old(self).runs@.len() - 1].size >= size_per_run
                &&& split_by_run_size(final(self).runs@.subrange(old(self).runs@.len() - 1, final(self).runs@.len() as int), size_per_run as int)
                &&& strictly_sorted(runs_records(final(self).runs@.subrange(old(self).runs@.len() - 1, final(self).runs@.len() as int)))
                &&& entry_map(runs_records(final(self).runs@.subrange(old(self).runs@.len() - 1, final(self).runs@.len() as int)))
                    == entry_map(old(self).runs@.last().records()).union_prefer_right(merged_map(files@.map_values(|v: Vec<Record>| v@)))
            },
            !merges_into_tail(*old(self), size_per_run, capacity_of_run, *config) ==> {
                &&& final(self).size == old(self).size + 8 * merged_map(files@.map_values(|v: Vec<Record>| v@)).dom().len()
                &&& final(self).runs@.len() >= old(self).runs@.len()
                &&& final(self).runs@.subrange(0, old(self).runs@.len() as int) == old(self).runs@
                &&& forall|j: int| old(self).runs@.len() <= j < final(self).runs@.len() ==> (#[trigger] final(self).runs@[j]).capacity == capacity_of_run
                &&& forall|j: int| old(self).runs@.len() <= j < final(self).runs@.len() - 1 ==> (#[trigger] final(self).runs@[j]).size >= size_per_run
                &&& split_by_run_size(final(self).runs@.subrange(old(self).runs@.len() as int, final(self).runs@.len() as int), size_per_run as int)
                &&& strictly_sorted(runs_records(final(self).runs@.subrange(old(self).runs@.len() as int, final(self).runs@.len() as int)))
                &&& entry_map(runs_records(final(self).runs@.subrange(old(self).runs@.len() as int, final(self).runs@.len() as int)))
                    == merged_map(files@.map_values(|v: Vec<Record>| v@))
            },
    {
        let ghost inputs = files@.map_values(|v: Vec<Record>| v@);
        let num_runs = self.runs.len();
        if num_runs > 0 {
            let last_size = self.runs[num_runs - 1].size;
            let last_full = self.runs[num_runs - 1].is_full(config);
            let last_counter = self.runs[num_runs - 1].file_counter;
            let last_capacity = self.runs[num_runs - 1].capacity;
            if last_capacity == capacity_of_run && size_per_run > last_size && !last_full && last_counter <= MAX_RUN_BYTES {
                self.merge_into_tail(files, size_per_run, capacity_of_run, config, put_io);
                return;
            }
            proof {
                assert(!merges_into_tail(*old(self), size_per_run, capacity_of_run, *config));
            }
        }
        // append the merge as new runs
        let mut placeholder = Run::create_empty_run(capacity_of_run, self.level, self.run_counter);
        self.run_counter = self.run_counter.wrapping_add(1);
        let merged_files = merge_from_files(&files, &mut placeholder, config, put_io);
        let ghost all = merged_files@;
        proof {
            lemma_run_sorted(all);
        }
        let new_runs = self.seal_runs(merged_files, size_per_run, capacity_of_run);
        let ghost old_runs = self.runs@;
        let ghost added = new_runs@;
        let mut new_runs = new_runs;
        self.runs.append(&mut new_runs);
        proof {
            assert(self.runs@ == old_runs + added);
            lemma_run_views_append(old_runs, added);
            lemma_merged_map_append(run_views(old_runs), run_views(added));
            lemma_sum_sizes_append(old_runs, added);
            assert forall|i: int| 0 <= i < self.runs@.len() implies (#[trigger] self.runs@[i]).wf() by {
                if i < old_runs.len() {
                    assert(self.runs@[i] == old_runs[i]);
                } else {
                    assert(self.runs@[i] == added[i - old_runs.len()]);
                }
            }
            assert forall|j: int| old_runs.len() <= j < self.runs@.len() implies (#[trigger] self.runs@[j]).capacity == capacity_of_run by {
                assert(self.runs@[j] == added[j - old_runs.len()]);
            }
            assert forall|j: int| old_runs.len() <= j < self.runs@.len() - 1 implies (#[trigger] self.runs@[j]).size >= size_per_run by {
                assert(self.runs@[j] == added[j - old_runs.len()]);
            }
            assert(self.runs@.subrange(0, old_runs.len() as int) =~= old_runs);
            assert(self.runs@.subrange(old_runs.len() as int, self.runs@.len() as int) =~= added);
            crate::buffer::lemma_sorted_dom_len(run_records(all));
        }
        self.size = sum_run_sizes(&self.runs);
    }

    /// Cuts ordered merged files into runs whose sizes first reach
    /// `size_per_run`, the last taking what is left.
    #[verifier::rlimit(80)]
    fn seal_runs(&mut self, merged_files: Vec<DiskFile>, size_per_run: usize, capacity_of_run: usize) -> (r: Vec<Run>)
        requires
            files_ordered(merged_files@),
            strictly_sorted(run_records(merged_files@)),
            8 * run_records(merged_files@).len() <= MAX_RUN_BYTES,
        ensures
            forall|i: int| 0 <= i < r@.len() ==> (#[trigger] r@[i]).wf(),
            merged_map(run_views(r@)) == entry_map(run_records(merged_files@)),
            sum_sizes(r@) == 8 * run_records(merged_files@).len(),
            forall|i: int| 0 <= i < r@.len() ==> (#[trigger] r@[i]).capacity == capacity_of_run,
            forall|i: int| 0 <= i < r@.len() - 1 ==> (#[trigger] r@[i]).size >= size_per_run,
            split_by_run_size(r@, size_per_run as int),
            runs_records(r@) == run_records(merged_files@),
            final(self).runs == old(self).runs,
            final(self).size == old(self).size,
            final(self).level == old(self).level,
            final(self).capacity == old(self).capacity,
    {
        let ghost all = merged_files@;
        let mut remaining = merged_files;
        let mut out: Vec<Run> = Vec::new();
        let ghost mut consumed: Seq<DiskFile> = Seq::empty();
        proof {
            assert(consumed + remaining@ == all);
            assert(run_views(out@) =~= Seq::<Seq<Record>>::empty());
            assert(entry_map(run_records(consumed)) =~= Map::<i32, i32>::empty());
            reveal(sealed_prefix);
        }
        while remaining.len() > 0
            invariant
                files_ordered(all),
                strictly_sorted(run_records(all)),
                8 * run_records(all).len() <= MAX_RUN_BYTES,
                consumed + remaining@ == all,
                sealed_prefix(out@, consumed, capacity_of_run, size_per_run as int, remaining@.len() > 0),
                self.runs == old(self).runs,
                self.size == old(self).size,
                self.level == old(self).level,
                self.capacity == old(self).capacity,
            decreases remaining@.len(),
        {
            proof {
                assert(all.subrange(consumed.len() as int, all.len() as int) == remaining@);
                lemma_files_ordered_sub(all, consumed.len() as int, all.len() as int);
                lemma_run_records_append(consumed, remaining@);
            }
            let (new_run, rest) = seal_next(remaining, size_per_run, capacity_of_run, self.level, self.run_counter);
            let ghost chunk = new_run.files@;
            proof {
                assert(all == (consumed + chunk) + rest@);
                lemma_run_records_append(consumed + chunk, rest@);
                lemma_run_records_append(consumed, chunk);
            }
            self.run_counter = self.run_counter.wrapping_add(1);
            let ghost old_out = out@;
            out.push(new_run);
            proof {
                lemma_seal_step(all, consumed, chunk, rest@, old_out, new_run, capacity_of_run, size_per_run as int);
                consumed = consumed + chunk;
            }
            remaining = rest;
        }
        proof {
            assert(remaining@ == Seq::<DiskFile>::empty());
            assert(consumed == all);
            reveal(sealed_prefix);
            assert forall|i: int| 0 <= i < out@.len() - 1 implies {
                &&& 8 * (#[trigger] out@[i]).records().len() >= size_per_run
                &&& out@[i].files@.len() > 1 ==> 8 * run_records(out@[i].files@.drop_last()).len() < size_per_run
            } by {
                assert(out@[i].wf());
            }
        }
        out
    }

    /// Merges the records of the newest run with the incoming runs and
    /// replaces the newest run by the merge, spilling what exceeds
    /// `size_per_run` into one more run.
    #[verifier::rlimit(80)]
    fn merge_into_tail(
        &mut self,
        files: Vec<Vec<Record>>,
        size_per_run: usize,
        capacity_of_run: usize,
        config: &Configuration,
        put_io: &mut u64,
    )
        requires
            old(self).wf(),
            config.wf(),
            old(self).runs@.len() > 0,
            old(self).runs@.last().file_counter <= MAX_RUN_BYTES,
            forall|i: int| 0 <= i < files@.len() ==> strictly_sorted(#[trigger] files@[i]@),
            old(self).size + 8 * total_len(files@.map_values(|v: Vec<Record>| v@)) <= MAX_RUN_BYTES,
        ensures
            final(self).wf(),
            final(self)@ == old(self)@.union_prefer_right(merged_map(files@.map_values(|v: Vec<Record>| v@))),
            final(self).size <= old(self).size + 8 * total_len(files@.map_values(|v: Vec<Record>| v@)),
            final(self).level == old(self).level,
            final(self).capacity == old(self).capacity,
            *final(put_io) >= *old(put_io),
            final(self).size == old(self).size - old(self).runs@.last().size + 8 * entry_map(
                old(self).runs@.last().records(),
            ).union_prefer_right(merged_map(files@.map_values(|v: Vec<Record>| v@))).dom().len(),
            old(self).runs@.len() <= final(self).runs@.len() <= old(self).runs@.len() + 1,
            final(self).runs@.subrange(0, old(self).runs@.len() - 1) == old(self).runs@.drop_last(),
            forall|j: int| old(self).runs@.len() - 1 <= j < final(self).runs@.len() ==> (#[trigger] final(self).runs@[j]).capacity == capacity_of_run,
            final(self).runs@.len() == old(self).runs@.len() + 1 ==> final(self).runs@[old(self).runs@.len() - 1].size >= size_per_run,
            split_by_run_size(final(self).runs@.subrange(old(self).runs@.len() - 1, final(self).runs@.len() as int), size_per_run as int),
            strictly_sorted(runs_records(final(self).runs@.subrange(old(self).runs@.len() - 1, final(self).runs@.len() as int))),
            entry_map(runs_records(final(self).runs@.subrange(old(self).runs@.len() - 1, final(self).runs@.len() as int)))
                == entry_map(old(self).runs@.last().records()).union_prefer_right(merged_map(files@.map_values(|v: Vec<Record>| v@))),
    {
        let ghost inputs = files@.map_values(|v: Vec<Record>| v@);
        let ghost old_runs = self.runs@;
        let mut tail = self.runs.pop().unwrap();
        let ghost init = self.runs@;
        proof {
            assert(old_runs == init.push(tail));
            assert(old_runs.drop_last() == init);
            assert(tail.wf());
            assert(forall|i: int| 0 <= i < init.len() ==> (#[trigger] init[i]).wf()) by {
                assert forall|i: int| 0 <= i < init.len() implies (#[trigger] init[i]).wf() by {
                    assert(init[i] == old_runs[i]);
                }
            }
            lemma_run_sorted(tail.files@);
        }
        count_file_blocks(&tail.files, config.block_size, put_io);
        let tail_records = tail.get_all_records();
        let mut all_files_merge: Vec<Vec<Record>> = Vec::new();
        all_files_merge.push(tail_records);
        let mut rest_inputs = files;
        all_files_merge.append(&mut rest_inputs);
        let ghost views = all_files_merge@.map_values(|v: Vec<Record>| v@);
        proof {
            assert(views =~= seq![tail.records()] + inputs);
            lemma_total_len_append(seq![tail.records()], inputs);
            assert(seq![tail.records()].drop_last() == Seq::<Seq<Record>>::empty());
            assert(seq![tail.records()].last() == tail.records());
            assert(total_len(Seq::<Seq<Record>>::empty()) == 0);
            assert(total_len(seq![tail.records()]) == tail.records().len());
            lemma_merged_map_append(seq![tail.records()], inputs);
            lemma_merged_map_single(tail.records());
            assert forall|i: int| 0 <= i < all_files_merge@.len() implies strictly_sorted(#[trigger] all_files_merge@[i]@) by {
                if i > 0 {
                    assert(all_files_merge@[i] == files@[i - 1]);
                }
            }
            assert(sum_sizes(old_runs) == sum_sizes(init) + tail.size);
        }
        let merged_files = merge_from_files(&all_files_merge, &mut tail, config, put_io);
        let ghost all = merged_files@;
        proof {
            lemma_run_sorted(all);
        }
        let mut head = merged_files;
        let k = run_prefix_len(&head, size_per_run);
        let ghost all_head = head@;
        let spill = head.split_off(k);
        let ghost h = head@;
        proof {
            assert(h == all_head.subrange(0, k as int));
        }
        proof {
            assert(all == h + spill@);
            lemma_run_records_append(h, spill@);
            lemma_entry_map_concat(run_records(h), run_records(spill@));
            lemma_files_ordered_sub(all, 0, h.len() as int);
            lemma_files_ordered_sub(all, h.len() as int, all.len() as int);
            assert(all.subrange(0, h.len() as int) == h);
            assert(all.subrange(h.len() as int, all.len() as int) == spill@);
        }
        let new_last_run = seal_run(head, capacity_of_run, self.level, self.run_counter);
        self.run_counter = self.run_counter.wrapping_add(1);
        self.runs.push(new_last_run);
        let ghost mid = self.runs@;
        proof {
            assert(mid == init.push(new_last_run));
            assert(mid.drop_last() == init);
            assert(run_views(mid).drop_last() == run_views(init));
            assert(run_views(mid).last() == run_records(h));
            assert(sum_sizes(mid) == sum_sizes(init) + 8 * run_records(h).len());
        }
        if spill.len() > 0 {
            let new_run = seal_run(spill, capacity_of_run, self.level, self.run_counter);
            self.run_counter = self.run_counter.wrapping_add(1);
            self.runs.push(new_run);
            proof {
                assert(self.runs@.drop_last() == mid);
                assert(run_views(self.runs@).drop_last() == run_views(mid));
                assert(run_views(self.runs@).last() == run_records(spill@));
                assert(sum_sizes(self.runs@) == sum_sizes(mid) + 8 * run_records(spill@).len());
                let nr = self.runs@.subrange(init.len() as int, self.runs@.len() as int);
                assert(nr =~= seq![new_last_run, new_run]);
                assert(nr.drop_last() =~= seq![new_last_run]);
                assert(seq![new_last_run].drop_last() =~= Seq::<Run>::empty());
                assert(runs_records(Seq::<Run>::empty()) == Seq::<Record>::empty());
                assert(seq![new_last_run].last() == new_last_run);
                assert(runs_records(seq![new_last_run]) =~= run_records(h));
                assert(nr.last() == new_run);
                assert(runs_records(nr) == run_records(h) + run_records(spill@));
                assert(all_head.subrange(0, k as int) == h);
                if k > 1 {
                    assert(h.drop_last() == all_head.subrange(0, k - 1));
                }
                assert(8 * nr[0].records().len() >= size_per_run);
                assert(split_by_run_size(nr, size_per_run as int));
            }
        } else {
            proof {
                assert(run_records(spill@) == Seq::<Record>::empty());
                assert(entry_map(run_records(spill@)) =~= Map::<i32, i32>::empty());
                let nr = self.runs@.subrange(init.len() as int, self.runs@.len() as int);
                assert(nr =~= seq![new_last_run]);
                assert(seq![new_last_run].drop_last() =~= Seq::<Run>::empty());
                assert(runs_records(Seq::<Run>::empty()) == Seq::<Record>::empty());
                assert(seq![new_last_run].last() == new_last_run);
                assert(runs_records(seq![new_last_run]) =~= run_records(h));
                assert(runs_records(nr) == run_records(h));
                assert(run_records(h) =~= run_records(h) + run_records(spill@));
            }
        }
        proof {
            assert forall|i: int| 0 <= i < self.runs@.len() implies (#[trigger] self.runs@[i]).wf() by {
                if i < init.len() {
                    assert(self.runs@[i] == init[i]);
                }
            }
            let mi = merged_map(run_views(init));
            let e_tail = entry_map(tail.records());
            let m_in = merged_map(inputs);
            assert(run_views(old_runs).drop_last() == run_views(init));
            assert(run_views(old_runs).last() == tail.records());
            assert(old(self)@ == mi.union_prefer_right(e_tail));
            assert(entry_map(run_records(all)) == e_tail.union_prefer_right(m_in));
            let e_h = entry_map(run_records(h));
            let e_s = entry_map(run_records(spill@));
            assert(merged_map(run_views(mid)) == mi.union_prefer_right(e_h));
            if spill.len() > 0 {
                assert(self@ == merged_map(run_views(mid)).union_prefer_right(e_s));
            } else {
                assert(e_s =~= Map::<i32, i32>::empty());
                assert(self.runs@ == mid);
                assert(mi.union_prefer_right(e_h).union_prefer_right(e_s) =~= mi.union_prefer_right(e_h));
            }
            assert(self@ == mi.union_prefer_right(e_h).union_prefer_right(e_s));
            assert(run_records(all) == run_records(h) + run_records(spill@));
            assert(entry_map(run_records(all)) == e_h.union_prefer_right(e_s));
            assert(mi.union_prefer_right(e_h).union_prefer_right(e_s) =~= mi.union_prefer_right(e_h.union_prefer_right(e_s)));
            assert(mi.union_prefer_right(e_tail.union_prefer_right(m_in)) =~= mi.union_prefer_right(e_tail).union_prefer_right(m_in));
            assert(self@ =~= old(self)@.union_prefer_right(merged_map(inputs)));
            if spill.len() == 0 {
                assert(run_records(spill@).len() == 0);
            }
            assert(sum_sizes(self.runs@) == sum_sizes(init) + 8 * run_records(all).len());
            crate::buffer::lemma_sorted_dom_len(run_records(all));
            assert(self.runs@.subrange(0, init.len() as int) =~= init);
            assert(old_runs.drop_last() == init);
        }
        self.size = sum_run_sizes(&self.runs);
    }

    /// Probes runs newest first; the first hit wins.
    pub fn get(&self, key: &i32, record: &mut Record, block_reads: &mut u64) -> (found: bool)
        requires
            self.wf(),
        ensures
            found == self@.contains_key(*key),
            found ==> *final(record) == (Record { key: *key, value: self@[*key] }),
            !found ==> *final(record) == *old(record),
            *final(block_reads) >= *old(block_reads),
            self.runs@.len() == 0 ==> *final(block_reads) == *old(block_reads),
    {
        let ghost v = run_views(self.runs@);
        let mut i: usize = self.runs.len();
        while i > 0
            invariant
                self.wf(),
                v == run_views(self.runs@),
                i <= self.runs@.len(),
                forall|j: int| i <= j < v.len() ==> !entry_map(#[trigger] v[j]).contains_key(*key),
                *record == *old(record),
                *block_reads >= *old(block_reads),
                i == self.runs@.len() ==> *block_reads == *old(block_reads),
            decreases i,
        {
            i = i - 1;
            let run = &self.runs[i];
            proof {
                assert(run.wf());
                lemma_run_sorted(run.files@);
                assert(v[i as int] == run.records());
            }
            if run.get(key, record, block_reads) {
                proof {
                    let s = run.records();
                    let x = choose|x: int| 0 <= x < s.len() && s[x] == *record;
                    lemma_entry_map_at(s, x);
                    lemma_merged_found(v, i as int, *key);
                }
                return true;
            }
            proof {
                assert(!has_key(run.records(), *key));
            }
        }
        proof {
            lemma_merged_absent(v, *key);
        }
        false
    }
}

/// Sizes of a prefix of runs add up to no more than those of all.
proof fn lemma_sum_sizes_prefix(runs: Seq<Run>, n: int)
    requires
        0 <= n <= runs.len(),
    ensures
        sum_sizes(runs.subrange(0, n)) <= sum_sizes(runs),
    decreases runs.len(),
{
    if n < runs.len() {
        lemma_sum_sizes_prefix(runs.drop_last(), n);
        assert(runs.drop_last().subrange(0, n) == runs.subrange(0, n));
    } else {
        assert(runs.subrange(0, n) == runs);
    }
}

/// Total bytes of a list of runs.
fn sum_run_sizes(runs: &Vec<Run>) -> (r: usize)
    requires
        sum_sizes(runs@) <= MAX_RUN_BYTES,
    ensures
        r == sum_sizes(runs@),
{
    let mut total: usize = 0;
    let mut i: usize = 0;
    while i < runs.len()
        invariant
            i <= runs@.len(),
            total == sum_sizes(runs@.subrange(0, i as int)),
            sum_sizes(runs@) <= MAX_RUN_BYTES,
        decreases runs@.len() - i,
    {
        proof {
            assert(runs@.subrange(0, i + 1).drop_last() == runs@.subrange(0, i as int));
            lemma_sum_sizes_prefix(runs@, i + 1);
        }
        total = total + runs[i].size;
        i = i + 1;
    }
    assert(runs@.subrange(0, i as int) == runs@);
    total
}

/// Copies `src[from..to]` into a new vector.
pub(crate) fn slice_records(src: &Vec<Record>, from: usize, to: usize) -> (r: Vec<Record>)
    requires
        from <= to <= src@.len(),
    ensures
        r@ == src@.subrange(from as int, to as int),
{
    let mut r: Vec<Record> = Vec::new();
    let mut i: usize = from;
    while i < to
        invariant
            from <= i <= to <= src@.len(),
            r@ == src@.subrange(from as int, i as int),
        decreases to - i,
    {
        r.push(src[i]);
        i = i + 1;
    }
    r
}

} // verus!
