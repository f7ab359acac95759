use vstd::prelude::*;
use crate::configuration::{Configuration, RECORD_SIZE};
use crate::record::{Record, entry_map, records_map, lemma_records_map_append, lemma_records_map_len};
use crate::codec::{records_to_bytes, decode, encode, lemma_decode_encode};
use crate::run::Run;
use crate::merge::{lemma_merged_map_append, lemma_merged_map_single};
use crate::level::{lemma_sum_sizes_append, sum_sizes};
use crate::buffer::MemoryBuffer;
use crate::run::MAX_RUN_BYTES;
use crate::merge::{merged_map, total_len};
use crate::level::{DiskLevel, run_views, level_full, appended_runs, buffer_chunk_records, runs_records};

verus! {

/// The map of levels ordered newest first: a lower index overrides a
/// higher one.
pub open spec fn levels_map(ms: Seq<Map<i32, i32>>) -> Map<i32, i32>
    decreases ms.len(),
{
    if ms.len() == 0 {
        Map::empty()
    } else {
        levels_map(ms.drop_first()).union_prefer_right(ms[0])
    }
}

/// The maps of a list of levels.
pub open spec fn level_views(ls: Seq<DiskLevel>) -> Seq<Map<i32, i32>> {
    ls.map_values(|l: DiskLevel| l@)
}

/// Total bytes held by a list of levels.
pub open spec fn levels_size(ls: Seq<DiskLevel>) -> nat
    decreases ls.len(),
{
    if ls.len() == 0 {
        0
    } else {
        levels_size(ls.drop_last()) + ls.last().size as nat
    }
}

/// Overriding the newest level by `x` overrides the whole map by `x`.
pub proof fn lemma_levels_map_front(ms: Seq<Map<i32, i32>>, x: Map<i32, i32>)
    requires
        ms.len() > 0,
    ensures
        levels_map(ms.update(0, ms[0].union_prefer_right(x))) == levels_map(ms).union_prefer_right(x),
{
    let ns = ms.update(0, ms[0].union_prefer_right(x));
    assert(ns.drop_first() == ms.drop_first());
    assert(levels_map(ns) =~= levels_map(ms).union_prefer_right(x));
}

/// Moving level `i`'s map under level `i + 1`'s map and emptying level `i`
/// leaves the whole map as it was.
pub proof fn lemma_levels_map_shift(ms: Seq<Map<i32, i32>>, i: int)
    requires
        0 <= i,
        i + 1 < ms.len(),
    ensures
        levels_map(ms.update(i, Map::empty()).update(i + 1, ms[i + 1].union_prefer_right(ms[i])))
            == levels_map(ms),
    decreases i,
{
    let ns = ms.update(i, Map::empty()).update(i + 1, ms[i + 1].union_prefer_right(ms[i]));
    if i == 0 {
        let r = levels_map(ms.drop_first().drop_first());
        assert(ns.drop_first().drop_first() == ms.drop_first().drop_first());
        assert(levels_map(ns.drop_first()) == r.union_prefer_right(ns[1]));
        assert(levels_map(ms.drop_first()) == r.union_prefer_right(ms[1]));
        assert(levels_map(ns) =~= levels_map(ms));
    } else {
        lemma_levels_map_shift(ms.drop_first(), i - 1);
        assert(ns.drop_first() == ms.drop_first().update(i - 1, Map::empty()).update(
            i,
            ms.drop_first()[i].union_prefer_right(ms.drop_first()[i - 1]),
        ));
    }
}

/// An empty level at the end changes nothing.
pub proof fn lemma_levels_map_push_empty(ms: Seq<Map<i32, i32>>)
    ensures
        levels_map(ms.push(Map::empty())) == levels_map(ms),
    decreases ms.len(),
{
    if ms.len() == 0 {
        assert(ms.push(Map::empty()).drop_first() == Seq::<Map<i32, i32>>::empty());
        assert(levels_map(Seq::<Map<i32, i32>>::empty()) == Map::<i32, i32>::empty());
        assert(ms.push(Map::empty())[0] == Map::<i32, i32>::empty());
        assert(levels_map(ms.push(Map::empty())) =~= levels_map(ms));
    } else {
        lemma_levels_map_push_empty(ms.drop_first());
        assert(ms.push(Map::empty()).drop_first() == ms.drop_first().push(Map::empty()));
    }
}

pub proof fn lemma_levels_size_update(ls: Seq<DiskLevel>, i: int, x: DiskLevel)
    requires
        0 <= i < ls.len(),
    ensures
        levels_size(ls.update(i, x)) == levels_size(ls) - ls[i].size + x.size,
        ls[i].size <= levels_size(ls),
    decreases ls.len(),
{
    let ns = ls.update(i, x);
    if i < ls.len() - 1 {
        lemma_levels_size_update(ls.drop_last(), i, x);
        assert(ns.drop_last() == ls.drop_last().update(i, x));
    } else {
        assert(ns.drop_last() == ls.drop_last());
    }
}

pub proof fn lemma_levels_size_two(ls: Seq<DiskLevel>, i: int)
    requires
        0 <= i,
        i + 1 < ls.len(),
    ensures
        ls[i].size + ls[i + 1].size <= levels_size(ls),
    decreases ls.len(),
{
    if i + 1 < ls.len() - 1 {
        lemma_levels_size_two(ls.drop_last(), i);
    } else {
        lemma_levels_size_update(ls.drop_last(), i, ls[i]);
    }
}

/// Level `k` is where a cascade from `before` to `after` stopped: every
/// level above it was emptied into the one below, level `k` is the last
/// level or not full, and the levels below it are as they were.
pub open spec fn cascade_stopped_at(before: Seq<DiskLevel>, after: Seq<DiskLevel>, c: Configuration, k: int) -> bool {
    &&& 0 <= k < after.len()
    &&& forall|j: int| 0 <= j < k ==> (#[trigger] after[j]).runs@.len() == 0
    &&& (k + 1 == after.len() || !level_full(after[k], c))
    &&& forall|j: int| k < j < before.len() ==> #[trigger] after[j] == before[j]
}

/// What the compaction cascade does to the levels: a full first level is
/// emptied (its records moving down), a first level that is not full
/// leaves every level as it was, at most one level is added, and the
/// cascade stops at a level that is the last one or not full, with every
/// level above it emptied and every level below it untouched.
pub open spec fn cascade_done(before: Seq<DiskLevel>, after: Seq<DiskLevel>, c: Configuration) -> bool {
    &&& before.len() > 0 && level_full(before[0], c) ==> after[0].runs@.len() == 0
    &&& (before.len() == 0 || !level_full(before[0], c)) ==> after == before
    &&& before.len() <= after.len() <= before.len() + 1
    &&& after.len() > 0 ==> exists|k: int| cascade_stopped_at(before, after, c, k)
}

/// The engine: a buffer absorbing writes over levels of sorted runs.
pub struct LSMTree {
    pub config: Configuration,
    pub buffer: MemoryBuffer,
    /// Levels, level one first.
    pub levels: Vec<DiskLevel>,
    /// Set while a compaction runs.
    pub compacting: bool,
    /// Blocks read by point lookups.
    pub get_io: u64,
    /// Blocks read and written by flushes and compactions.
    pub put_io: u64,
}

impl View for LSMTree {
    type V = Map<i32, i32>;

    /// The key-value map the engine holds: the buffer overrides level
    /// one, which overrides level two, and so on.
    open spec fn view(&self) -> Map<i32, i32> {
        levels_map(level_views(self.levels@)).union_prefer_right(self.buffer@)
    }
}

impl LSMTree {
    pub open spec fn wf(&self) -> bool {
        &&& self.config.wf()
        &&& self.buffer.wf()
        &&& self.buffer.buffer_size == self.config.buffer_capacity / RECORD_SIZE
        &&& self.buffer.spec_capacity() == self.config.buffer_capacity
        &&& self.buffer@.dom().len() < self.buffer.buffer_size
        &&& forall|i: int| 0 <= i < self.levels@.len() ==> (#[trigger] self.levels@[i]).wf()
        &&& !self.compacting
        &&& self.total_bytes() <= MAX_RUN_BYTES
    }

    /// Bytes held by the buffer and all levels.
    pub open spec fn total_bytes(&self) -> nat {
        8 * self.buffer@.dom().len() + levels_size(self.levels@)
    }

    pub fn create_lsmtree(config: Configuration) -> (r: LSMTree)
        requires
            config.wf(),
        ensures
            r.wf(),
            r@ == Map::<i32, i32>::empty(),
            r.config == config,
            r.levels@.len() == 0,
    {
        let buffer = MemoryBuffer::create_buffer(&config);
        let r = LSMTree { config, buffer, levels: Vec::new(), compacting: false, get_io: 0, put_io: 0 };
        proof {
            r.buffer.lemma_entries();
            assert(level_views(r.levels@) =~= Seq::<Map<i32, i32>>::empty());
            assert(r@ =~= Map::<i32, i32>::empty());
        }
        r
    }

    /// Writes `value` under `key`; flushes the buffer when it fills and then
    /// runs the compaction cascade.
    pub fn put(&mut self, key: &i32, value: &i32)
        requires
            old(self).wf(),
            old(self).total_bytes() + 8 <= MAX_RUN_BYTES,
        ensures
            final(self).wf(),
            final(self)@ == old(self)@.insert(*key, *value),
            final(self).config == old(self).config,
            final(self).total_bytes() <= old(self).total_bytes() + 8,
            old(self).buffer@.dom().insert(*key).len() < old(self).buffer.buffer_size ==> final(self).levels@
                == old(self).levels@ && final(self).buffer@ == old(self).buffer@.insert(*key, *value),
            old(self).buffer@.dom().insert(*key).len() >= old(self).buffer.buffer_size ==> final(self).buffer@
                == Map::<i32, i32>::empty() && levels_map(level_views(final(self).levels@)) == old(self)@.insert(
                *key,
                *value,
            ),
    {
        let ghost before = self@;
        let ghost lm = levels_map(level_views(self.levels@));
        proof {
            self.buffer.lemma_entries();
        }
        self.buffer.put(key, value);
        proof {
            self.buffer.lemma_entries();
            assert(self.buffer@.dom() == old(self).buffer@.dom().insert(*key));
            if old(self).buffer@.dom().contains(*key) {
                assert(old(self).buffer@.dom().insert(*key) == old(self).buffer@.dom());
            }
            assert(self@ =~= before.insert(*key, *value));
        }
        if self.buffer.is_full() {
            self.flush_buffer_with_guard();
            self.compaction();
            proof {
                assert(self@ =~= levels_map(level_views(self.levels@)));
            }
        }
    }

    /// Writes the buffer's records into level one (making it when absent)
    /// and empties the buffer.
    pub fn flush_buffer_with_guard(&mut self)
        requires
            old(self).config.wf(),
            old(self).buffer.wf(),
            old(self).buffer.spec_capacity() == old(self).config.buffer_capacity,
            old(self).buffer.buffer_size == old(self).config.buffer_capacity / RECORD_SIZE,
            old(self).buffer@.dom().len() <= old(self).buffer.buffer_size,
            forall|i: int| 0 <= i < old(self).levels@.len() ==> (#[trigger] old(self).levels@[i]).wf(),
            !old(self).compacting,
            old(self).total_bytes() <= MAX_RUN_BYTES,
        ensures
            final(self).wf(),
            final(self)@ == old(self)@,
            final(self).config == old(self).config,
            final(self).buffer@ == Map::<i32, i32>::empty(),
            final(self).total_bytes() == old(self).total_bytes(),
            final(self).levels@.len() == if old(self).levels@.len() == 0 { 1 } else { old(self).levels@.len() },
            forall|j: int| 0 < j < old(self).levels@.len() ==> #[trigger] final(self).levels@[j] == old(self).levels@[j],
            old(self).levels@.len() > 0 ==> final(self).levels@[0].runs@.subrange(0, old(self).levels@[0].runs@.len() as int)
                == old(self).levels@[0].runs@,
            ({
                let cap = old(self).config.spec_child_run_capacity(old(self).config.buffer_capacity as int);
                let from = if old(self).levels@.len() > 0 { old(self).levels@[0].runs@.len() as int } else { 0int };
                &&& appended_runs(final(self).levels@[0].runs@, from, cap as usize, buffer_chunk_records(cap, old(self).config))
                &&& runs_records(final(self).levels@[0].runs@.subrange(from, final(self).levels@[0].runs@.len() as int))
                    == old(self).buffer.entries()
            }),
    {
        proof {
            self.buffer.lemma_entries();
        }
        let data = self.buffer.merge();
        let buffer_size = self.buffer.size();
        proof {
            let c = self.config;
            assert(c.buffer_capacity as int * c.size_ratio as int <= crate::configuration::MAX_SETTING * 64) by (nonlinear_arith)
                requires c.buffer_capacity <= crate::configuration::MAX_SETTING, c.size_ratio <= 64;
            assert(c.spec_child_run_capacity(c.buffer_capacity as int) <= c.buffer_capacity as int * c.size_ratio as int) by (nonlinear_arith)
                requires c.runs_per_level >= 1, c.buffer_capacity >= 0, c.size_ratio >= 0;
        }
        let new_capacity = self.config.child_run_capacity(self.buffer.capacity());
        let ghost lv = level_views(self.levels@);
        let ghost bm = self.buffer@;
        let ghost old_levels = self.levels@;
        proof {
            assert(buffer_size <= levels_size(old_levels) + buffer_size);
        }
        if self.levels.len() > 0 {
            let mut first = self.levels.remove(0);
            proof {
                lemma_levels_size_update(old_levels, 0, first);
                assert(first == old_levels[0]);
            }
            first.flush_from_buffer(data, buffer_size, new_capacity, &self.config, &mut self.put_io);
            self.levels.insert(0, first);
            proof {
                assert(self.levels@ == old_levels.update(0, first));
                assert(level_views(self.levels@) == lv.update(0, lv[0].union_prefer_right(bm)));
                lemma_levels_map_front(lv, bm);
                lemma_levels_size_update(old_levels, 0, first);
                assert forall|i: int| 0 <= i < self.levels@.len() implies (#[trigger] self.levels@[i]).wf() by {
                    if i > 0 {
                        assert(self.levels@[i] == old_levels[i]);
                    }
                }
            }
        } else {
            let new_level = DiskLevel::create_level_from_buffer(data, buffer_size, new_capacity, 1, &self.config, &mut self.put_io);
            self.levels.push(new_level);
            proof {
                assert(self.levels@ == seq![new_level]);
                assert(level_views(self.levels@) =~= seq![bm]);
                assert(seq![bm].drop_first() == Seq::<Map<i32, i32>>::empty());
                assert(levels_map(Seq::<Map<i32, i32>>::empty()) == Map::<i32, i32>::empty());
                assert(level_views(self.levels@)[0] == bm);
                assert(level_views(self.levels@).drop_first() == Seq::<Map<i32, i32>>::empty());
                assert(levels_map(level_views(self.levels@)) =~= bm);
                assert(lv =~= Seq::<Map<i32, i32>>::empty());
                assert(self.levels@.drop_last() == Seq::<DiskLevel>::empty());
                assert(new_level.runs@.subrange(0, new_level.runs@.len() as int) == new_level.runs@);
                assert(levels_size(Seq::<DiskLevel>::empty()) == 0);
                assert(levels_size(self.levels@) == new_level.size);
                assert(levels_size(old_levels) == 0);
            }
        }
        let ghost lsz = levels_size(self.levels@);
        proof {
            assert(lsz == levels_size(old_levels) + buffer_size);
        }
        self.buffer.clear();
        proof {
            self.buffer.lemma_entries();
            assert(self.buffer@.dom().len() == 0);
            assert(self.total_bytes() == lsz);
            assert(self@ =~= old(self)@);
        }
    }

    /// Runs the compaction cascade unless one is already running.
    pub fn compaction(&mut self)
        requires
            old(self).config.wf(),
            old(self).buffer.wf(),
            old(self).buffer.spec_capacity() == old(self).config.buffer_capacity,
            old(self).buffer.buffer_size == old(self).config.buffer_capacity / RECORD_SIZE,
            old(self).buffer@.dom().len() < old(self).buffer.buffer_size,
            forall|i: int| 0 <= i < old(self).levels@.len() ==> (#[trigger] old(self).levels@[i]).wf(),
            old(self).total_bytes() <= MAX_RUN_BYTES,
        ensures
            final(self)@ == old(self)@,
            final(self).config == old(self).config,
            final(self).total_bytes() <= old(self).total_bytes(),
            final(self).compacting == old(self).compacting,
            final(self).buffer == old(self).buffer,
            !old(self).compacting ==> final(self).wf(),
            old(self).compacting ==> final(self).levels@ == old(self).levels@,
            !old(self).compacting ==> cascade_done(old(self).levels@, final(self).levels@, old(self).config),
    {
        if self.compacting {
            return;
        }
        self.compacting = true;
        self.merge_and_flush();
        self.compacting = false;
    }

    /// The cascade: while a level is full, merge all its runs into the
    /// next level (made when absent), then empty it.
    #[verifier::rlimit(60)]
    pub fn merge_and_flush(&mut self)
        requires
            old(self).config.wf(),
            old(self).buffer.wf(),
            forall|i: int| 0 <= i < old(self).levels@.len() ==> (#[trigger] old(self).levels@[i]).wf(),
            old(self).total_bytes() <= MAX_RUN_BYTES,
        ensures
            final(self)@ == old(self)@,
            final(self).config == old(self).config,
            final(self).buffer == old(self).buffer,
            final(self).compacting == old(self).compacting,
            forall|i: int| 0 <= i < final(self).levels@.len() ==> (#[trigger] final(self).levels@[i]).wf(),
            final(self).total_bytes() <= old(self).total_bytes(),
            cascade_done(old(self).levels@, final(self).levels@, old(self).config),
    {
        let ghost before = self.levels@;
        let mut i: usize = 0;
        while i < self.levels.len()
            invariant
                self.config == old(self).config,
                self.config.wf(),
                self.buffer == old(self).buffer,
                self.buffer.wf(),
                self.compacting == old(self).compacting,
                forall|j: int| 0 <= j < self.levels@.len() ==> (#[trigger] self.levels@[j]).wf(),
                self@ == old(self)@,
                levels_size(self.levels@) <= levels_size(old(self).levels@),
                self.total_bytes() <= MAX_RUN_BYTES,
                before == old(self).levels@,
                self.levels@.len() == before.len(),
                before.len() > 0 ==> i < before.len(),
                i <= before.len(),
                i == 0 ==> self.levels@ == before,
                forall|j: int| 0 <= j < i ==> (#[trigger] self.levels@[j]).runs@.len() == 0,
                forall|j: int| i < j < before.len() ==> #[trigger] self.levels@[j] == before[j],
                i > 0 ==> level_full(before[0], self.config),
            decreases self.levels@.len() - i,
        {
            if !self.levels[i].is_full(&self.config) {
                proof {
                    assert(cascade_stopped_at(before, self.levels@, self.config, i as int));
                    if i > 0 {
                        assert(self.levels@[0].runs@.len() == 0);
                    }
                }
                return;
            }
            let staged = self.levels[i].get_all_files(&self.config, &mut self.put_io);
            let (prev_size, new_capacity) = self.prev_size_new_capacity(i + 1);
            let size_per_run = if self.config.file_size > new_capacity {
                self.config.file_size
            } else {
                new_capacity
            };
            let ghost ls = self.levels@;
            let ghost lv = level_views(ls);
            proof {
                assert(ls[i as int].wf());
                assert(merged_map(staged@.map_values(|v: Vec<Record>| v@)) == lv[i as int]);
            }
            if i + 1 < self.levels.len() {
                proof {
                    lemma_levels_size_two(ls, i as int);
                }
                let mut next = self.levels.remove(i + 1);
                proof {
                    assert(next == ls[i + 1]);
                }
                next.flush(staged, prev_size, size_per_run, new_capacity, &self.config, &mut self.put_io);
                self.levels.insert(i + 1, next);
                let ghost mid = self.levels@;
                proof {
                    assert(mid == ls.update(i + 1, next));
                    lemma_levels_size_update(ls, i + 1, next);
                }
                self.clear_prev_level(i + 1);
                proof {
                    let cleared = self.levels@[i as int];
                    assert(self.levels@ == mid.update(i as int, cleared));
                    lemma_levels_size_update(mid, i as int, cleared);
                    assert(level_views(self.levels@) == lv.update(i as int, Map::empty()).update(
                        i + 1,
                        lv[i + 1].union_prefer_right(lv[i as int]),
                    ));
                    lemma_levels_map_shift(lv, i as int);
                    assert forall|j: int| 0 <= j < self.levels@.len() implies (#[trigger] self.levels@[j]).wf() by {
                        if j != i && j != i + 1 {
                            assert(self.levels@[j] == ls[j]);
                        }
                    }
                    assert forall|j: int| 0 <= j < i + 1 implies (#[trigger] self.levels@[j]).runs@.len() == 0 by {
                        if j < i {
                            assert(self.levels@[j] == ls[j]);
                        }
                    }
                    assert forall|j: int| i + 1 < j < before.len() implies #[trigger] self.levels@[j] == before[j] by {
                        assert(self.levels@[j] == ls[j]);
                    }
                    if i == 0 {
                        assert(level_full(before[0], self.config));
                    }
                }
                i = i + 1;
            } else {
                let new_level = DiskLevel::create_level(
                    staged,
                    size_per_run,
                    new_capacity,
                    i.saturating_add(2),
                    &self.config,
                    &mut self.put_io,
                );
                self.levels.push(new_level);
                let ghost mid = self.levels@;
                proof {
                    assert(mid == ls.push(new_level));
                    assert(mid.drop_last() == ls);
                    assert(levels_size(mid) == levels_size(ls) + new_level.size);
                }
                self.clear_prev_level(i + 1);
                proof {
                    let cleared = self.levels@[i as int];
                    assert(self.levels@ == mid.update(i as int, cleared));
                    lemma_levels_size_update(mid, i as int, cleared);
                    lemma_levels_size_update(ls, i as int, ls[i as int]);
                    let ext = lv.push(Map::empty());
                    lemma_levels_map_push_empty(lv);
                    lemma_levels_map_shift(ext, i as int);
                    assert(ext[i + 1].union_prefer_right(ext[i as int]) =~= lv[i as int]);
                    assert(level_views(self.levels@) =~= ext.update(i as int, Map::empty()).update(
                        i + 1,
                        ext[i + 1].union_prefer_right(ext[i as int]),
                    ));
                    assert forall|j: int| 0 <= j < self.levels@.len() implies (#[trigger] self.levels@[j]).wf() by {
                        if j < i {
                            assert(self.levels@[j] == ls[j]);
                        }
                    }
                    assert forall|j: int| 0 <= j < i + 1 implies (#[trigger] self.levels@[j]).runs@.len() == 0 by {
                        if j < i {
                            assert(self.levels@[j] == ls[j]);
                        }
                    }
                    if i == 0 {
                        assert(level_full(before[0], self.config));
                    }
                    assert(cascade_stopped_at(before, self.levels@, self.config, i + 1));
                }
                return;
            }
        }
        proof {
            assert(before.len() == 0);
            assert(self.levels@ == before);
        }
    }

    /// Size of the level above level index `level_idx` (the buffer for the
    /// first level) and the run capacity that level passes on.
    fn prev_size_new_capacity(&self, level_idx: usize) -> (r: (usize, usize))
        requires
            self.config.wf(),
            self.buffer.wf(),
            level_idx <= self.levels@.len(),
            self.total_bytes() <= MAX_RUN_BYTES,
        ensures
            level_idx == 0 ==> r.0 == 8 * self.buffer@.dom().len(),
            level_idx > 0 ==> r.0 == self.levels@[level_idx - 1].size,
            r.1 % 8 == 0,
            ({
                let pc = if level_idx == 0 {
                    self.buffer.spec_capacity() as int
                } else {
                    self.levels@[level_idx - 1].capacity as int
                };
                self.config.spec_child_run_capacity(pc) <= usize::MAX ==> r.1 == self.config.spec_child_run_capacity(pc)
            }),
    {
        let (prev_size, prev_capacity) = if level_idx == 0 {
            proof {
                self.buffer.lemma_entries();
            }
            (self.buffer.size(), self.buffer.capacity())
        } else {
            (self.levels[level_idx - 1].size(), self.levels[level_idx - 1].capacity())
        };
        (prev_size, self.config.child_run_capacity(prev_capacity))
    }

    /// Empties the level above level index `level_idx` (the buffer for the
    /// first level).
    fn clear_prev_level(&mut self, level_idx: usize)
        requires
            old(self).buffer.wf(),
            1 <= level_idx <= old(self).levels@.len(),
            old(self).levels@[level_idx - 1].wf(),
        ensures
            final(self).levels@ == old(self).levels@.update(level_idx - 1, final(self).levels@[level_idx - 1]),
            final(self).levels@[level_idx - 1].wf(),
            final(self).levels@[level_idx - 1]@ == Map::<i32, i32>::empty(),
            final(self).levels@[level_idx - 1].size == 0,
            final(self).levels@[level_idx - 1].runs@.len() == 0,
            final(self).buffer == old(self).buffer,
            final(self).config == old(self).config,
            final(self).compacting == old(self).compacting,
            final(self).put_io == old(self).put_io,
    {
        let mut l = self.levels.remove(level_idx - 1);
        l.clear();
        self.levels.insert(level_idx - 1, l);
    }

    /// Looks `key` up in the buffer, then level by level; the first hit
    /// wins.
    pub fn get(&self, key: &i32, value: &mut i32, block_reads: &mut u64) -> (found: bool)
        requires
            self.wf(),
        ensures
            found == self@.contains_key(*key),
            found ==> *final(value) == self@[*key],
            !found ==> *final(value) == *old(value),
            *final(block_reads) >= *old(block_reads),
            self.buffer@.contains_key(*key) ==> *final(block_reads) == *old(block_reads),
    {
        let mut record = Record::create_record(0, 0);
        if self.buffer.get(key, &mut record) {
            *value = record.value;
            return true;
        }
        let ghost lv = level_views(self.levels@);
        assert(lv.subrange(0, lv.len() as int) == lv);
        let mut i: usize = 0;
        while i < self.levels.len()
            invariant
                self.wf(),
                lv == level_views(self.levels@),
                i <= self.levels@.len(),
                !self.buffer@.contains_key(*key),
                levels_map(lv).contains_key(*key) == levels_map(lv.subrange(i as int, lv.len() as int)).contains_key(*key),
                levels_map(lv).contains_key(*key) ==> levels_map(lv)[*key] == levels_map(lv.subrange(i as int, lv.len() as int))[*key],
                *value == *old(value),
                *block_reads >= *old(block_reads),
            decreases self.levels@.len() - i,
        {
            let ghost rest = lv.subrange(i as int, lv.len() as int);
            proof {
                assert(rest.drop_first() == lv.subrange(i + 1, lv.len() as int));
                assert(rest[0] == self.levels@[i as int]@);
            }
            if self.levels[i].get(key, &mut record, block_reads) {
                *value = record.value;
                return true;
            }
            i = i + 1;
        }
        proof {
            assert(lv.subrange(i as int, lv.len() as int) == Seq::<Map<i32, i32>>::empty());
        }
        false
    }

    /// Empties every level.
    pub fn delete_files(&mut self)
        requires
            old(self).wf(),
        ensures
            final(self).wf(),
            final(self).buffer == old(self).buffer,
            final(self).levels@.len() == old(self).levels@.len(),
            forall|i: int| 0 <= i < final(self).levels@.len() ==> (#[trigger] final(self).levels@[i]).runs@.len() == 0,
            final(self)@ == old(self).buffer@,
    {
        let n = self.levels.len();
        let mut i: usize = 0;
        while i < n
            invariant
                n == self.levels@.len(),
                i <= n,
                forall|j: int| 0 <= j < n ==> (#[trigger] self.levels@[j]).wf(),
                forall|j: int| 0 <= j < i ==> (#[trigger] self.levels@[j]).runs@.len() == 0,
                forall|j: int| 0 <= j < i ==> (#[trigger] self.levels@[j]).size == 0,
                forall|j: int| 0 <= j < i ==> (#[trigger] self.levels@[j])@ == Map::<i32, i32>::empty(),
                levels_size(self.levels@) <= levels_size(old(self).levels@),
                self.buffer == old(self).buffer,
                self.config == old(self).config,
                self.compacting == old(self).compacting,
            decreases n - i,
        {
            let ghost before = self.levels@;
            let mut l = self.levels.remove(i);
            l.clear();
            self.levels.insert(i, l);
            proof {
                assert(self.levels@ == before.update(i as int, l));
                lemma_levels_size_update(before, i as int, l);
            }
            i = i + 1;
        }
        proof {
            lemma_levels_map_all_empty(level_views(self.levels@));
            assert(self@ =~= old(self).buffer@);
        }
    }
}

/// Overriding the oldest level by `c` from below puts `c` under the whole
/// map.
pub proof fn lemma_levels_map_last(ms: Seq<Map<i32, i32>>, c: Map<i32, i32>)
    requires
        ms.len() > 0,
    ensures
        levels_map(ms.update(ms.len() - 1, c.union_prefer_right(ms.last())))
            == c.union_prefer_right(levels_map(ms)),
    decreases ms.len(),
{
    let ns = ms.update(ms.len() - 1, c.union_prefer_right(ms.last()));
    if ms.len() == 1 {
        assert(ns.drop_first() == Seq::<Map<i32, i32>>::empty());
        assert(ms.drop_first() == Seq::<Map<i32, i32>>::empty());
        assert(levels_map(Seq::<Map<i32, i32>>::empty()) == Map::<i32, i32>::empty());
        assert(levels_map(ns) =~= c.union_prefer_right(levels_map(ms)));
    } else {
        lemma_levels_map_last(ms.drop_first(), c);
        assert(ns.drop_first() == ms.drop_first().update(ms.len() - 2, c.union_prefer_right(ms.drop_first().last())));
        assert(levels_map(ns) =~= c.union_prefer_right(levels_map(ms)));
    }
}

proof fn lemma_levels_size_prefix(ls: Seq<DiskLevel>, n: int)
    requires
        0 <= n <= ls.len(),
    ensures
        levels_size(ls.subrange(0, n)) <= levels_size(ls),
    decreases ls.len(),
{
    if n < ls.len() {
        lemma_levels_size_prefix(ls.drop_last(), n);
        assert(ls.drop_last().subrange(0, n) == ls.subrange(0, n));
    } else {
        assert(ls.subrange(0, n) == ls);
    }
}

/// Levels with empty maps hold the empty map.
pub proof fn lemma_levels_map_all_empty(ms: Seq<Map<i32, i32>>)
    requires
        forall|i: int| 0 <= i < ms.len() ==> #[trigger] ms[i] == Map::<i32, i32>::empty(),
    ensures
        levels_map(ms) == Map::<i32, i32>::empty(),
    decreases ms.len(),
{
    if ms.len() > 0 {
        assert forall|i: int| 0 <= i < ms.drop_first().len() implies #[trigger] ms.drop_first()[i] == Map::<i32, i32>::empty() by {
            assert(ms.drop_first()[i] == ms[i + 1]);
        }
        lemma_levels_map_all_empty(ms.drop_first());
        assert(levels_map(ms) =~= Map::<i32, i32>::empty());
    }
}

} // verus!

verus! {

/// Read-your-write: once `value` is written under `key`, the engine's map
/// holds `value` there, so a lookup of `key` returns it.
pub proof fn law_read_your_write(before: LSMTree, after: LSMTree, key: i32, value: i32)
    requires
        before.wf(),
        after@ == before@.insert(key, value),
    ensures
        after@.contains_key(key),
        after@[key] == value,
{
}

/// Last write wins: after writes of `values` in order under one key, the
/// engine's map holds the last of them there, whatever flushes and
/// compactions ran between the writes.
pub proof fn law_last_write_wins(states: Seq<LSMTree>, key: i32, values: Seq<i32>)
    requires
        values.len() > 0,
        states.len() == values.len() + 1,
        forall|i: int| 0 <= i < values.len() ==> #[trigger] states[i + 1]@ == states[i]@.insert(key, values[i]),
    ensures
        states.last()@.contains_key(key),
        states.last()@[key] == values.last(),
{
    let n = values.len() - 1;
    assert(states[n + 1]@ == states[n]@.insert(key, values[n]));
}

/// The records of `records[lo..hi]` sorted by key, a later record of a
/// key overriding an earlier one.
fn sorted_segment(records: &Vec<Record>, lo: usize, hi: usize, config: &Configuration) -> (chunk: Vec<Record>)
    requires
        config.wf(),
        lo < hi <= records@.len(),
        8 * records@.len() <= MAX_RUN_BYTES,
    ensures
        crate::record::strictly_sorted(chunk@),
        entry_map(chunk@) == records_map(records@.subrange(lo as int, hi as int)),
        0 < chunk@.len() <= hi - lo,
{
    let ghost seg = records@.subrange(lo as int, hi as int);
    let mut segment: Vec<Record> = Vec::new();
    let mut x: usize = lo;
    while x < hi
        invariant
            lo <= x <= hi <= records@.len(),
            segment@ == records@.subrange(lo as int, x as int),
        decreases hi - x,
    {
        segment.push(records[x]);
        x = x + 1;
    }
    let mut sorter = MemoryBuffer::create_buffer(config);
    proof {
        lemma_decode_encode(seg);
        crate::codec::lemma_encode_len(seg);
    }
    sorter.flush(records_to_bytes(&segment), 0);
    let chunk = sorter.merge();
    proof {
        assert(sorter@ =~= records_map(seg));
        sorter.lemma_entries();
        lemma_records_map_len(seg);
        assert(records_map(seg).contains_key(seg.last().key));
        assert(entry_map(chunk@).contains_key(seg.last().key));
    }
    chunk
}

impl LSMTree {
    /// Places a run as the oldest run of the last level.
    fn install_oldest(&mut self, run_record: Run)
        requires
            old(self).wf(),
            old(self).levels@.len() > 0,
            run_record.wf(),
            old(self).total_bytes() + run_record.size <= MAX_RUN_BYTES,
        ensures
            final(self).wf(),
            levels_map(level_views(final(self).levels@)) == entry_map(run_record.records()).union_prefer_right(
                levels_map(level_views(old(self).levels@)),
            ),
            levels_size(final(self).levels@) == levels_size(old(self).levels@) + run_record.size,
            final(self).buffer == old(self).buffer,
            final(self).config == old(self).config,
            final(self).levels@.len() == old(self).levels@.len(),
            final(self).levels@.drop_last() == old(self).levels@.drop_last(),
            final(self).levels@.last().runs@ == seq![run_record] + old(self).levels@.last().runs@,
    {
            let ghost ls = self.levels@;
            let ghost rr = run_record;
            let mut last = self.levels.pop().unwrap();
            proof {
                assert(ls == self.levels@.push(last));
                assert(last == ls[ls.len() - 1]);
                lemma_levels_size_update(ls, ls.len() - 1, last);
                assert(last.wf());
            }
            let ghost old_runs = last.runs@;
            let rr_size = run_record.size;
            last.runs.insert(0, run_record);
            last.run_counter = last.run_counter.wrapping_add(1);
            last.size = last.size + rr_size;
            proof {
                assert(last.runs@ == seq![rr] + old_runs);
                crate::level::lemma_run_views_append(seq![rr], old_runs);
                assert(crate::level::run_views(seq![rr]) =~= seq![rr.records()]);
                lemma_merged_map_append(seq![rr.records()], crate::level::run_views(old_runs));
                lemma_merged_map_single(rr.records());
                lemma_sum_sizes_append(seq![rr], old_runs);
                assert(seq![rr].drop_last() == Seq::<Run>::empty());
                assert(sum_sizes(Seq::<Run>::empty()) == 0);
                assert(seq![rr].last() == rr);
                assert(sum_sizes(seq![rr]) == rr.size);
                assert forall|i: int| 0 <= i < last.runs@.len() implies (#[trigger] last.runs@[i]).wf() by {
                    if i > 0 {
                        assert(last.runs@[i] == old_runs[i - 1]);
                    }
                }
            }
            self.levels.push(last);
            proof {
                let lv = level_views(ls);
                assert(self.levels@ == ls.update(ls.len() - 1, last));
                assert(level_views(self.levels@) == lv.update(lv.len() - 1, entry_map(rr.records()).union_prefer_right(lv.last())));
                lemma_levels_map_last(lv, entry_map(rr.records()));
                lemma_levels_size_update(ls, ls.len() - 1, last);
                assert forall|i: int| 0 <= i < self.levels@.len() implies (#[trigger] self.levels@[i]).wf() by {
                    if i < ls.len() - 1 {
                        assert(self.levels@[i] == ls[i]);
                    }
                }
            }
    }
}

/// `t` to the power `e`.
pub open spec fn ratio_power(t: int, e: nat) -> int
    decreases e,
{
    if e == 0 {
        1
    } else {
        t * ratio_power(t, (e - 1) as nat)
    }
}

/// `buffer capacity * T^level`.
pub open spec fn bulk_capacity_bytes(c: Configuration, level: nat) -> int {
    c.buffer_capacity * ratio_power(c.size_ratio as int, level)
}

/// The run capacity of a level filled by a bulk load:
/// `buffer capacity * T^level / K`.
pub open spec fn bulk_capacity(c: Configuration, level: nat) -> int {
    bulk_capacity_bytes(c, level) / c.runs_per_level as int
}

/// Some string of `r` is `name`.
pub open spec fn listed(r: Seq<String>, name: Seq<char>) -> bool {
    exists|x: int| 0 <= x < r.len() && (#[trigger] r[x])@ == name
}

proof fn lemma_listed_push(r: Seq<String>, s: String)
    ensures
        listed(r.push(s), s@),
        forall|name: Seq<char>| #[trigger] listed(r, name) ==> listed(r.push(s), name),
{
    assert(r.push(s)[r.len() as int] == s);
    assert forall|name: Seq<char>| #[trigger] listed(r, name) implies listed(r.push(s), name) by {
        let x = choose|x: int| 0 <= x < r.len() && (#[trigger] r[x])@ == name;
        assert(r.push(s)[x] == r[x]);
    }
}

/// Some file of the levels carries the name `name`.
pub open spec fn names_a_file(ls: Seq<DiskLevel>, name: Seq<char>) -> bool {
    exists|l: int, j: int, f: int|
        0 <= l < ls.len() && 0 <= j < ls[l].runs@.len() && 0 <= f < ls[l].runs@[j].files@.len() && (
        #[trigger] ls[l].runs@[j].files@[f]).filename@ == name
}

/// A run made by a bulk load at `level`: its capacity is the level's
/// bulk run capacity (when that fits in a machine word) and it holds at
/// most a capacity's worth of records (at least one record's worth).
pub open spec fn bulk_run_ok(r: Run, c: Configuration, level: nat) -> bool {
    &&& bulk_capacity_bytes(c, level) <= u64::MAX && bulk_capacity(c, level) <= usize::MAX ==> r.capacity
        == bulk_capacity(c, level)
    &&& r.size <= 8 * (if r.capacity / 8 == 0 { 1 } else { r.capacity / 8 })
}

/// The level layout a bulk load leaves: every run is a bulk-load run of
/// its level, every level but the last holds runs-per-level runs, and the
/// last holds between one and runs-per-level runs.
pub open spec fn bulk_layout(ls: Seq<DiskLevel>, c: Configuration) -> bool {
    &&& forall|l: int, j: int| 0 <= l < ls.len() && 0 <= j < ls[l].runs@.len() ==> bulk_run_ok(
        #[trigger] ls[l].runs@[j],
        c,
        (l + 1) as nat,
    )
    &&& forall|l: int| 0 <= l < ls.len() - 1 ==> (#[trigger] ls[l]).runs@.len() == c.runs_per_level
    &&& ls.len() > 0 ==> 1 <= ls.last().runs@.len() <= c.runs_per_level
}

/// Runs in reverse order.
pub open spec fn rev_runs(s: Seq<Run>) -> Seq<Run> {
    Seq::new(s.len(), |i: int| s[s.len() - 1 - i])
}

/// The runs of the levels in the order a bulk load makes them: level one
/// first, and within a level from the newest (last) run to the oldest.
pub open spec fn load_order(ls: Seq<DiskLevel>) -> Seq<Run>
    decreases ls.len(),
{
    if ls.len() == 0 {
        Seq::empty()
    } else {
        load_order(ls.drop_last()) + rev_runs(ls.last().runs@)
    }
}

/// Run `t` of `order` holds, sorted by key with a later record of a key
/// winning, the input segment `recs[b[t + 1]..b[t]]`; the segments run
/// from the end of `recs` (the newest records) down to its start.
pub open spec fn bulk_segments(order: Seq<Run>, recs: Seq<Record>, b: Seq<int>) -> bool {
    &&& b.len() == order.len() + 1
    &&& b[0] == recs.len()
    &&& forall|t: int| 0 <= t < order.len() ==> 0 <= #[trigger] b[t + 1] < b[t] <= recs.len()
    &&& forall|t: int| 0 <= t < order.len() ==> {
        &&& crate::record::strictly_sorted((#[trigger] order[t]).records())
        &&& entry_map(order[t].records()) == records_map(recs.subrange(b[t + 1], b[t]))
    }
}

/// Run capacity of a level at bulk load: `buffer capacity * T^level / K`,
/// kept within `usize`.
fn bulk_run_capacity(config: &Configuration, level: usize) -> (r: usize)
    requires
        config.wf(),
    ensures
        bulk_capacity_bytes(*config, level as nat) <= u64::MAX && bulk_capacity(*config, level as nat) <= usize::MAX
            ==> r == bulk_capacity(*config, level as nat),
{
    let limit: u128 = 0xffff_ffff_ffff_ffff;
    let mut c: u128 = config.buffer_capacity as u128;
    let mut i: usize = 0;
    proof {
        assert(ratio_power(config.size_ratio as int, 0) == 1);
        assert(bulk_capacity_bytes(*config, 0) == config.buffer_capacity);
    }
    while i < level
        invariant
            c <= limit,
            limit == 0xffff_ffff_ffff_ffffu128,
            config.wf(),
            i <= level,
            bulk_capacity_bytes(*config, i as nat) >= 0,
            bulk_capacity_bytes(*config, i as nat) <= limit ==> c == bulk_capacity_bytes(*config, i as nat),
            bulk_capacity_bytes(*config, i as nat) > limit ==> c == limit,
        decreases level - i,
    {
        assert(c * (config.size_ratio as u128) <= limit * 64) by (nonlinear_arith)
            requires c <= limit, config.size_ratio <= 64;
        assert(limit * 64 <= u128::MAX);
        let ghost v = bulk_capacity_bytes(*config, i as nat);
        let ghost t = config.size_ratio as int;
        proof {
            let rp = ratio_power(t, i as nat);
            assert(ratio_power(t, (i + 1) as nat) == t * rp);
            assert(bulk_capacity_bytes(*config, (i + 1) as nat) == v * t) by (nonlinear_arith)
                requires
                    v == config.buffer_capacity * rp,
                    bulk_capacity_bytes(*config, (i + 1) as nat) == config.buffer_capacity * (t * rp);
            assert(v * t >= v) by (nonlinear_arith)
                requires v >= 0, t >= 1;
            if v > limit {
                assert(limit * t >= limit) by (nonlinear_arith)
                    requires t >= 1;
            }
        }
        c = c * (config.size_ratio as u128);
        if c > limit {
            c = limit;
        }
        i = i + 1;
    }
    let q = c / (config.runs_per_level as u128);
    if q > usize::MAX as u128 {
        usize::MAX
    } else {
        q as usize
    }
}

impl LSMTree {
    /// Seeds an empty engine with `records`, filling levels from level one
    /// down: the newest records go to level one, and each level receives
    /// runs-per-level runs of up to its run capacity, sorted with repeated
    /// keys removed, each new run placed as the oldest of its level. A
    /// later record of a key overrides an earlier one.
    #[verifier::rlimit(50)]
    pub fn bulk_load(&mut self, records: Vec<Record>)
        requires
            old(self).wf(),
            old(self).levels@.len() == 0,
            old(self).buffer@ == Map::<i32, i32>::empty(),
            8 * records@.len() <= MAX_RUN_BYTES,
        ensures
            final(self).wf(),
            final(self)@ == records_map(records@),
            final(self).config == old(self).config,
            bulk_layout(final(self).levels@, final(self).config),
            exists|b: Seq<int>| #[trigger] bulk_segments(load_order(final(self).levels@), records@, b) && b.last() == 0,
    {
        let ghost mut bounds: Seq<int> = seq![records@.len() as int];
        let n = records.len();
        let mut consumed: usize = 0;
        let mut level: usize = 0;
        let mut run: usize = 0;
        proof {
            assert(records@.subrange(n as int, n as int) == Seq::<Record>::empty());
            assert(level_views(self.levels@) =~= Seq::<Map<i32, i32>>::empty());
            assert(self@ =~= records_map(Seq::<Record>::empty()));
            assert(levels_size(self.levels@) == 0);
        }
        while consumed < n
            invariant
                self.wf(),
                self.config == old(self).config,
                n == records@.len(),
                8 * n <= MAX_RUN_BYTES,
                consumed <= n,
                self.buffer == old(self).buffer,
                self.buffer@ == Map::<i32, i32>::empty(),
                self@ == records_map(records@.subrange(n - consumed, n as int)),
                levels_size(self.levels@) <= 8 * consumed,
                self.levels@.len() == level,
                run < self.config.runs_per_level,
                level == 0 ==> run == 0,
                level <= consumed,
                forall|l: int, j: int| 0 <= l < self.levels@.len() && 0 <= j < self.levels@[l].runs@.len() ==> bulk_run_ok(
                    #[trigger] self.levels@[l].runs@[j],
                    self.config,
                    (l + 1) as nat,
                ),
                forall|l: int| 0 <= l < self.levels@.len() - 1 ==> (#[trigger] self.levels@[l]).runs@.len() == self.config.runs_per_level,
                level > 0 ==> self.levels@.last().runs@.len() == if run == 0 { self.config.runs_per_level as int } else { run as int },
                bulk_segments(load_order(self.levels@), records@, bounds),
                bounds.last() == n - consumed,
            decreases n - consumed,
        {
            if run == 0 {
                level = level + 1;
                let cap = bulk_run_capacity(&self.config, level);
                let ghost ls = self.levels@;
                let new_level = DiskLevel::empty_level(cap, level, &self.config);
                self.levels.push(new_level);
                proof {
                    assert forall|l: int, j: int| 0 <= l < self.levels@.len() && 0 <= j < self.levels@[l].runs@.len() implies bulk_run_ok(
                        #[trigger] self.levels@[l].runs@[j],
                        self.config,
                        (l + 1) as nat,
                    ) by {
                        assert(l < ls.len());
                        assert(self.levels@[l] == ls[l]);
                    }
                    assert forall|l: int| 0 <= l < self.levels@.len() - 1 implies (#[trigger] self.levels@[l]).runs@.len() == self.config.runs_per_level by {
                        assert(self.levels@[l] == ls[l]);
                    }
                    assert(level_views(self.levels@) == level_views(ls).push(Map::<i32, i32>::empty()));
                    crate::tree::lemma_levels_map_push_empty(level_views(ls));
                    assert(self.levels@.drop_last() == ls);
                    assert(rev_runs(self.levels@.last().runs@) =~= Seq::<Run>::empty());
                    assert(load_order(self.levels@) =~= load_order(ls));
                    assert forall|i: int| 0 <= i < self.levels@.len() implies (#[trigger] self.levels@[i]).wf() by {
                        if i < ls.len() {
                            assert(self.levels@[i] == ls[i]);
                        }
                    }
                }
            }
            let run_capacity = bulk_run_capacity(&self.config, level);
            let mut max_run_records = run_capacity / RECORD_SIZE;
            if max_run_records == 0 {
                max_run_records = 1;
            }
            let take = if n - consumed < max_run_records {
                n - consumed
            } else {
                max_run_records
            };
            let lo = n - consumed - take;
            let hi = n - consumed;
            let ghost seg = records@.subrange(lo as int, hi as int);
            let ghost done = records@.subrange(hi as int, n as int);
            let chunk = sorted_segment(&records, lo, hi, &self.config);
            let bytes = records_to_bytes(&chunk);
            proof {
                lemma_decode_encode(chunk@);
            }
            let run_record = Run::create_run(bytes.len(), run_capacity, bytes.as_slice(), level, run, &self.config);
            proof {
                assert(run_record.records() == chunk@);
                assert(self.buffer@.dom() =~= Set::<i32>::empty());
                assert(self.buffer@.dom().len() == 0);
                assert(run_record.size <= 8 * take);
            }
            let ghost ls0 = self.levels@;
            let ghost rr = run_record;
            proof {
                assert(bulk_run_ok(rr, self.config, level as nat));
                assert(ls0.last().runs@.len() == run);
            }
            self.install_oldest(run_record);
            proof {
                let ls1 = self.levels@;
                assert(rev_runs(seq![rr] + ls0.last().runs@) =~= rev_runs(ls0.last().runs@).push(rr));
                assert(load_order(ls1) =~= load_order(ls0).push(rr));
                let old_order = load_order(ls0);
                let nb = bounds.push(lo as int);
                assert forall|t: int| 0 <= t < old_order.len() + 1 implies 0 <= #[trigger] nb[t + 1] < nb[t] <= records@.len() by {
                    if t < old_order.len() {
                        assert(nb[t + 1] == bounds[t + 1]);
                        assert(nb[t] == bounds[t]);
                    }
                }
                assert forall|t: int| 0 <= t < old_order.len() + 1 implies {
                    &&& crate::record::strictly_sorted((#[trigger] load_order(ls1)[t]).records())
                    &&& entry_map(load_order(ls1)[t].records()) == records_map(records@.subrange(nb[t + 1], nb[t]))
                } by {
                    if t < old_order.len() {
                        assert(load_order(ls1)[t] == old_order[t]);
                        assert(nb[t + 1] == bounds[t + 1]);
                        assert(nb[t] == bounds[t]);
                    } else {
                        assert(load_order(ls1)[t] == rr);
                    }
                }
                bounds = nb;
            }
            proof {
                let ls1 = self.levels@;
                assert forall|l: int, j: int| 0 <= l < ls1.len() && 0 <= j < ls1[l].runs@.len() implies bulk_run_ok(
                    #[trigger] ls1[l].runs@[j],
                    self.config,
                    (l + 1) as nat,
                ) by {
                    if l < ls1.len() - 1 {
                        assert(ls1[l] == ls1.drop_last()[l]);
                        assert(ls0[l] == ls0.drop_last()[l]);
                    } else if j > 0 {
                        assert(ls1[l].runs@[j] == ls0[l].runs@[j - 1]);
                    }
                }
                assert forall|l: int| 0 <= l < ls1.len() - 1 implies (#[trigger] ls1[l]).runs@.len() == self.config.runs_per_level by {
                    assert(ls1[l] == ls1.drop_last()[l]);
                    assert(ls0[l] == ls0.drop_last()[l]);
                }
                assert(records@.subrange(lo as int, n as int) == seg + done);
                lemma_records_map_append(seg, done);
                assert(self@ =~= records_map(records@.subrange(lo as int, n as int)));
            }
            proof {
                assert(self.levels@.last().runs@.len() == run + 1);
                let k = self.config.runs_per_level as int;
                assert((run + 1) % k == if run + 1 == k { 0 } else { run + 1 }) by (nonlinear_arith)
                    requires run < k, k >= 1;
            }
            run = (run + 1) % self.config.runs_per_level;
            consumed = consumed + take;
        }
        proof {
            assert(records@.subrange(0, n as int) == records@);
            assert(bulk_segments(load_order(self.levels@), records@, bounds));
        }
    }

    /// Bytes held by the buffer and all levels.
    pub fn size(&self) -> (r: usize)
        requires
            self.wf(),
        ensures
            r == self.total_bytes(),
    {
        proof {
            self.buffer.lemma_entries();
        }
        let mut total: usize = self.buffer.size();
        let mut i: usize = 0;
        while i < self.levels.len()
            invariant
                self.wf(),
                i <= self.levels@.len(),
                total == 8 * self.buffer@.dom().len() + levels_size(self.levels@.subrange(0, i as int)),
            decreases self.levels@.len() - i,
        {
            proof {
                let pre = self.levels@.subrange(0, i + 1);
                assert(pre.drop_last() == self.levels@.subrange(0, i as int));
                lemma_levels_size_prefix(self.levels@, i + 1);
            }
            total = total + self.levels[i].size();
            i = i + 1;
        }
        assert(self.levels@.subrange(0, i as int) == self.levels@);
        total
    }

    /// Names of every file the levels hold, level by level, run by run.
    pub fn file_names(&self) -> (r: Vec<String>)
        ensures
            forall|l: int, j: int, f: int|
                0 <= l < self.levels@.len() && 0 <= j < self.levels@[l].runs@.len() && 0 <= f
                    < self.levels@[l].runs@[j].files@.len() ==> listed(r@, (#[trigger] self.levels@[l].runs@[j].files@[f]).filename@),
            forall|x: int| 0 <= x < r@.len() ==> names_a_file(self.levels@, (#[trigger] r@[x])@),
    {
        let mut r: Vec<String> = Vec::new();
        let mut i: usize = 0;
        while i < self.levels.len()
            invariant
                i <= self.levels@.len(),
                forall|l: int, j: int, f: int|
                    0 <= l < i && 0 <= j < self.levels@[l].runs@.len() && 0 <= f
                        < self.levels@[l].runs@[j].files@.len() ==> listed(r@, (#[trigger] self.levels@[l].runs@[j].files@[f]).filename@),
                forall|x: int| 0 <= x < r@.len() ==> names_a_file(self.levels@, (#[trigger] r@[x])@),
            decreases self.levels@.len() - i,
        {
            let runs = &self.levels[i].runs;
            let mut j: usize = 0;
            while j < runs.len()
                invariant
                    i < self.levels@.len(),
                    j <= runs@.len(),
                    runs == &self.levels@[i as int].runs,
                    forall|l: int, jj: int, f: int|
                        ((0 <= l < i && 0 <= jj < self.levels@[l].runs@.len()) || (l == i && 0 <= jj < j)) && 0 <= f
                            < self.levels@[l].runs@[jj].files@.len() ==> listed(r@, (#[trigger] self.levels@[l].runs@[jj].files@[f]).filename@),
                    forall|x: int| 0 <= x < r@.len() ==> names_a_file(self.levels@, (#[trigger] r@[x])@),
                decreases runs@.len() - j,
            {
                let files = &runs[j].files;
                let mut f: usize = 0;
                while f < files.len()
                    invariant
                        i < self.levels@.len(),
                        j < runs@.len(),
                        f <= files@.len(),
                        runs == &self.levels@[i as int].runs,
                        files == &runs@[j as int].files,
                        forall|l: int, jj: int, ff: int|
                            ((0 <= l < i && 0 <= jj < self.levels@[l].runs@.len()) || (l == i && 0 <= jj < j)) && 0
                                <= ff < self.levels@[l].runs@[jj].files@.len() ==> listed(r@, (#[trigger] self.levels@[l].runs@[jj].files@[ff]).filename@),
                        forall|ff: int| 0 <= ff < f ==> listed(r@, (#[trigger] files@[ff]).filename@),
                        forall|x: int| 0 <= x < r@.len() ==> names_a_file(self.levels@, (#[trigger] r@[x])@),
                    decreases files@.len() - f,
                {
                    let ghost before = r@;
                    let name = files[f].filename.clone();
                    r.push(name);
                    proof {
                        let n = before.len() as int;
                        assert(r@ == before.push(name));
                        lemma_listed_push(before, name);
                        assert(names_a_file(self.levels@, r@[n]@)) by {
                            assert(self.levels@[i as int].runs@[j as int].files@[f as int] == files@[f as int]);
                        }
                        assert forall|x: int| 0 <= x < r@.len() implies names_a_file(self.levels@, (#[trigger] r@[x])@) by {
                            if x < n {
                                assert(r@[x] == before[x]);
                            }
                        }
                    }
                    f = f + 1;
                }
                proof {
                    assert forall|l: int, jj: int, ff: int|
                        ((0 <= l < i && 0 <= jj < self.levels@[l].runs@.len()) || (l == i && 0 <= jj < j + 1)) && 0
                            <= ff < self.levels@[l].runs@[jj].files@.len() implies listed(r@, (#[trigger] self.levels@[l].runs@[jj].files@[ff]).filename@) by {
                        if l == i && jj == j {
                            assert(self.levels@[l].runs@[jj].files@[ff] == files@[ff]);
                        }
                    }
                }
                j = j + 1;
            }
            i = i + 1;
        }
        r
    }
}

} // verus!
