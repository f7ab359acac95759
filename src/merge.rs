use vstd::prelude::*;
use crate::configuration::Configuration;
use crate::record::{Record, strictly_sorted, has_key, entry_map, lemma_entry_map_at, lemma_entry_map_ext};
use crate::disk_file::DiskFile;
use crate::run::{Run, MAX_RUN_BYTES, run_records, files_ordered, lemma_run_sorted, appended_files};

verus! {

/// The map of several inputs where a later input overrides an earlier one
/// on a shared key.
pub open spec fn merged_map(inputs: Seq<Seq<Record>>) -> Map<i32, i32>
    decreases inputs.len(),
{
    if inputs.len() == 0 {
        Map::empty()
    } else {
        merged_map(inputs.drop_last()).union_prefer_right(entry_map(inputs.last()))
    }
}

/// Total number of records over several inputs.
pub open spec fn total_len(inputs: Seq<Seq<Record>>) -> nat
    decreases inputs.len(),
{
    if inputs.len() == 0 {
        0
    } else {
        total_len(inputs.drop_last()) + inputs.last().len()
    }
}

/// The merged map of inputs in a row is the merged map of the first ones
/// overridden by that of the later ones.
pub proof fn lemma_merged_map_append(a: Seq<Seq<Record>>, b: Seq<Seq<Record>>)
    ensures
        merged_map(a + b) == merged_map(a).union_prefer_right(merged_map(b)),
    decreases b.len(),
{
    if b.len() == 0 {
        assert(a + b == a);
        assert(merged_map(a).union_prefer_right(Map::empty()) =~= merged_map(a));
    } else {
        lemma_merged_map_append(a, b.drop_last());
        assert((a + b).drop_last() == a + b.drop_last());
        assert((a + b).last() == b.last());
        assert(merged_map(a + b) =~= merged_map(a).union_prefer_right(merged_map(b)));
    }
}

/// A strictly sorted sequence cut in two holds the map of the first part
/// overridden by that of the second.
pub proof fn lemma_entry_map_concat(s1: Seq<Record>, s2: Seq<Record>)
    requires
        strictly_sorted(s1 + s2),
    ensures
        entry_map(s1 + s2) == entry_map(s1).union_prefer_right(entry_map(s2)),
        strictly_sorted(s1),
        strictly_sorted(s2),
    decreases s2.len(),
{
    let s = s1 + s2;
    if s2.len() == 0 {
        assert(s == s1);
        assert(entry_map(s2) =~= Map::<i32, i32>::empty());
        assert(entry_map(s1).union_prefer_right(entry_map(s2)) =~= entry_map(s1));
        assert forall|i: int, j: int| 0 <= i < j < s2.len() implies #[trigger] s2[i].key < #[trigger] s2[j].key by {}
    } else {
        let init = s2.drop_last();
        let r = s2.last();
        assert(s == (s1 + init).push(r));
        lemma_entry_map_push(s1 + init, r);
        lemma_entry_map_concat(s1, init);
        assert forall|i: int, j: int| 0 <= i < j < s2.len() implies #[trigger] s2[i].key < #[trigger] s2[j].key by {
            assert(s[s1.len() + i] == s2[i] && s[s1.len() + j] == s2[j]);
        }
        assert(init.push(r) == s2);
        lemma_entry_map_push(init, r);
        assert(entry_map(s1 + s2) =~= entry_map(s1).union_prefer_right(entry_map(s2)));
    }
}

/// Appending a record above every key of a sorted sequence adds its entry.
pub proof fn lemma_entry_map_push(s: Seq<Record>, r: Record)
    requires
        strictly_sorted(s.push(r)),
    ensures
        entry_map(s.push(r)) == entry_map(s).insert(r.key, r.value),
        strictly_sorted(s),
{
    let t = s.push(r);
    assert forall|i: int, j: int| 0 <= i < j < s.len() implies #[trigger] s[i].key < #[trigger] s[j].key by {
        assert(t[i] == s[i] && t[j] == s[j]);
    }
    let m = entry_map(s).insert(r.key, r.value);
    assert forall|k: i32| #[trigger] m.contains_key(k) <==> has_key(t, k) by {
        if has_key(s, k) {
            let i = choose|i: int| 0 <= i < s.len() && #[trigger] s[i].key == k;
            assert(t[i].key == k);
        }
        if has_key(t, k) && k != r.key {
            let i = choose|i: int| 0 <= i < t.len() && #[trigger] t[i].key == k;
            assert(s[i].key == k);
        }
        if k == r.key {
            assert(t[s.len() as int].key == k);
        }
    }
    assert forall|i: int| 0 <= i < t.len() implies m[#[trigger] t[i].key] == t[i].value by {
        if i < s.len() {
            lemma_entry_map_at(s, i);
            assert(t[i].key < t[s.len() as int].key);
        }
    }
    lemma_entry_map_ext(t, m);
}

/// Merges two sorted inputs into one sorted output without repeated keys;
/// on a key held by both, the record of `newer` is kept.
pub fn merge_two(older: &Vec<Record>, newer: &Vec<Record>) -> (out: Vec<Record>)
    requires
        strictly_sorted(older@),
        strictly_sorted(newer@),
    ensures
        strictly_sorted(out@),
        entry_map(out@) == entry_map(older@).union_prefer_right(entry_map(newer@)),
        out@.len() <= older@.len() + newer@.len(),
{
    let mut out: Vec<Record> = Vec::new();
    let mut i: usize = 0;
    let mut j: usize = 0;
    let ghost a = older@;
    let ghost b = newer@;
    while i < older.len() || j < newer.len()
        invariant
            a == older@,
            b == newer@,
            strictly_sorted(a),
            strictly_sorted(b),
            i <= a.len(),
            j <= b.len(),
            strictly_sorted(out@),
            out@.len() <= i + j,
            entry_map(out@) == entry_map(a.subrange(0, i as int)).union_prefer_right(
                entry_map(b.subrange(0, j as int)),
            ),
            i < a.len() ==> forall|x: int| 0 <= x < out@.len() ==> #[trigger] out@[x].key < a[i as int].key,
            j < b.len() ==> forall|x: int| 0 <= x < out@.len() ==> #[trigger] out@[x].key < b[j as int].key,
        decreases a.len() - i + b.len() - j,
    {
        let ghost o = out@;
        let ghost ai = a.subrange(0, i as int);
        let ghost bj = b.subrange(0, j as int);
        let take_a = j >= newer.len() || (i < older.len() && older[i].key < newer[j].key);
        let take_b_only = i >= older.len() || (j < newer.len() && newer[j].key < older[i].key);
        if take_a {
            let r = older[i];
            out.push(r);
            proof {
                assert(a.subrange(0, i + 1) == ai.push(r));
                lemma_entry_map_push(ai, r);
                lemma_entry_map_push(o, r);
                assert(!entry_map(bj).contains_key(r.key)) by {
                    if has_key(bj, r.key) {
                        let x = choose|x: int| 0 <= x < bj.len() && #[trigger] bj[x].key == r.key;
                        lemma_entry_map_at(bj, x);
                        assert(entry_map(o).contains_key(r.key));
                        let y = choose|y: int| 0 <= y < o.len() && #[trigger] o[y].key == r.key;
                    }
                }
                assert(entry_map(out@) =~= entry_map(a.subrange(0, i + 1)).union_prefer_right(entry_map(bj)));
                if i + 1 < a.len() {
                    assert(a[i as int].key < a[i + 1].key);
                }
            }
            i = i + 1;
        } else if take_b_only {
            let r = newer[j];
            out.push(r);
            proof {
                assert(b.subrange(0, j + 1) == bj.push(r));
                lemma_entry_map_push(bj, r);
                lemma_entry_map_push(o, r);
                assert(entry_map(out@) =~= entry_map(ai).union_prefer_right(entry_map(b.subrange(0, j + 1))));
                if j + 1 < b.len() {
                    assert(b[j as int].key < b[j + 1].key);
                }
            }
            j = j + 1;
        } else {
            let r = newer[j];
            let q = older[i];
            out.push(r);
            proof {
                assert(a.subrange(0, i + 1) == ai.push(q));
                assert(b.subrange(0, j + 1) == bj.push(r));
                lemma_entry_map_push(ai, q);
                lemma_entry_map_push(bj, r);
                lemma_entry_map_push(o, r);
                assert(entry_map(out@) =~= entry_map(a.subrange(0, i + 1)).union_prefer_right(entry_map(b.subrange(0, j + 1))));
                if i + 1 < a.len() {
                    assert(a[i as int].key < a[i + 1].key);
                }
                if j + 1 < b.len() {
                    assert(b[j as int].key < b[j + 1].key);
                }
            }
            i = i + 1;
            j = j + 1;
        }
    }
    proof {
        assert(a.subrange(0, i as int) == a);
        assert(b.subrange(0, j as int) == b);
    }
    out
}

/// Merges sorted inputs, ordered oldest first, into one sorted output
/// without repeated keys; on a shared key the newest input's record wins.
pub fn merge_records(inputs: &Vec<Vec<Record>>) -> (out: Vec<Record>)
    requires
        forall|i: int| 0 <= i < inputs@.len() ==> strictly_sorted(#[trigger] inputs@[i]@),
    ensures
        strictly_sorted(out@),
        entry_map(out@) == merged_map(inputs@.map_values(|v: Vec<Record>| v@)),
        out@.len() <= total_len(inputs@.map_values(|v: Vec<Record>| v@)),
{
    let ghost views = inputs@.map_values(|v: Vec<Record>| v@);
    let mut acc: Vec<Record> = Vec::new();
    assert(entry_map(acc@) =~= Map::<i32, i32>::empty());
    let mut i: usize = 0;
    while i < inputs.len()
        invariant
            i <= inputs@.len(),
            views == inputs@.map_values(|v: Vec<Record>| v@),
            forall|x: int| 0 <= x < inputs@.len() ==> strictly_sorted(#[trigger] inputs@[x]@),
            strictly_sorted(acc@),
            entry_map(acc@) == merged_map(views.subrange(0, i as int)),
            acc@.len() <= total_len(views.subrange(0, i as int)),
        decreases inputs@.len() - i,
    {
        acc = merge_two(&acc, &inputs[i]);
        proof {
            assert(views.subrange(0, i + 1).drop_last() == views.subrange(0, i as int));
            assert(views.subrange(0, i + 1).last() == inputs@[i as int]@);
        }
        i = i + 1;
    }
    assert(views.subrange(0, i as int) == views);
    acc
}

} // verus!

verus! {

/// Adds `n` to an I/O counter, stopping at the largest value.
pub fn add_io(counter: &mut u64, n: usize)
    ensures
        *final(counter) >= *old(counter),
        *old(counter) + n <= u64::MAX ==> *final(counter) == *old(counter) + n,
{
    *counter = counter.saturating_add(n as u64);
}

/// Number of blocks of `block_size` bytes that `bytes` bytes span.
pub fn blocks_of(bytes: usize, block_size: usize) -> (r: usize)
    requires
        block_size > 0,
    ensures
        r == bytes as int / block_size as int + if bytes as int % block_size as int == 0 { 0int } else { 1int },
{
    let q = bytes / block_size;
    if bytes % block_size == 0 {
        q
    } else {
        assert(bytes >= 1 && block_size >= 2) by (nonlinear_arith)
            requires bytes % block_size != 0, block_size >= 1;
        assert(q < bytes) by (nonlinear_arith)
            requires q == bytes / block_size, block_size >= 2, bytes >= 1;
        q + 1
    }
}

/// Blocks that `bytes` bytes span.
pub open spec fn ceil_blocks(bytes: int, block_size: int) -> int {
    bytes / block_size + if bytes % block_size == 0 { 0int } else { 1int }
}

/// Blocks written for a list of files: each file's byte size in blocks,
/// rounded up.
pub open spec fn file_blocks(files: Seq<DiskFile>, block_size: int) -> int
    decreases files.len(),
{
    if files.len() == 0 {
        0
    } else {
        file_blocks(files.drop_last(), block_size) + ceil_blocks(files.last().size as int, block_size)
    }
}

proof fn lemma_file_blocks_prefix(files: Seq<DiskFile>, n: int, block_size: int)
    requires
        0 <= n <= files.len(),
        block_size > 0,
    ensures
        0 <= file_blocks(files.subrange(0, n), block_size) <= file_blocks(files, block_size),
    decreases files.len(),
{
    if n < files.len() {
        lemma_file_blocks_prefix(files.drop_last(), n, block_size);
        assert(files.drop_last().subrange(0, n) == files.subrange(0, n));
        let x = files.last().size as int;
        assert(ceil_blocks(x, block_size) >= 0) by (nonlinear_arith)
            requires x >= 0, block_size > 0;
    } else {
        assert(files.subrange(0, n) == files);
        if files.len() > 0 {
            lemma_file_blocks_prefix(files.drop_last(), files.len() - 1, block_size);
            assert(files.drop_last().subrange(0, files.len() - 1) == files.drop_last());
            let x = files.last().size as int;
            assert(ceil_blocks(x, block_size) >= 0) by (nonlinear_arith)
                requires x >= 0, block_size > 0;
        }
    }
}

pub proof fn lemma_file_blocks_nonneg(files: Seq<DiskFile>, block_size: int)
    requires
        block_size > 0,
    ensures
        file_blocks(files, block_size) >= 0,
{
    lemma_file_blocks_prefix(files, 0, block_size);
    assert(files.subrange(0, 0) =~= Seq::<DiskFile>::empty());
}

/// Adds to `put_io` the blocks of every file in `files`, each rounded up
/// on its own.
pub fn count_file_blocks(files: &Vec<DiskFile>, block_size: usize, put_io: &mut u64)
    requires
        block_size > 0,
    ensures
        *old(put_io) + file_blocks(files@, block_size as int) <= u64::MAX ==> *final(put_io) == *old(put_io)
            + file_blocks(files@, block_size as int),
        *final(put_io) >= *old(put_io),
{
    let ghost fs = files@;
    let ghost start = *put_io;
    let mut t: usize = 0;
    proof {
        assert(fs.subrange(0, 0) =~= Seq::<DiskFile>::empty());
    }
    while t < files.len()
        invariant
            fs == files@,
            t <= fs.len(),
            block_size > 0,
            start + file_blocks(fs, block_size as int) <= u64::MAX ==> *put_io == start + file_blocks(
                fs.subrange(0, t as int),
                block_size as int,
            ),
            *put_io >= start,
            start == *old(put_io),
        decreases fs.len() - t,
    {
        proof {
            assert(fs.subrange(0, t + 1).drop_last() == fs.subrange(0, t as int));
            lemma_file_blocks_prefix(fs, t + 1, block_size as int);
        }
        add_io(put_io, blocks_of(files[t].size, block_size));
        t = t + 1;
    }
    proof {
        assert(fs.subrange(0, t as int) == fs);
    }
}

/// Merges the records of several runs, oldest first, into new files of
/// at most the file size each, named from `run_merge_into`'s level, run
/// index and file counter. The destination's files are left as they are.
pub fn merge_from_files(
    runs_to_merge: &Vec<Vec<Record>>,
    run_merge_into: &mut Run,
    config: &Configuration,
    put_io: &mut u64,
) -> (files: Vec<DiskFile>)
    requires
        config.wf(),
        old(run_merge_into).wf(),
        old(run_merge_into).file_counter <= MAX_RUN_BYTES,
        forall|i: int| 0 <= i < runs_to_merge@.len() ==> strictly_sorted(#[trigger] runs_to_merge@[i]@),
        8 * total_len(runs_to_merge@.map_values(|v: Vec<Record>| v@)) <= MAX_RUN_BYTES,
    ensures
        files_ordered(files@),
        strictly_sorted(run_records(files@)),
        entry_map(run_records(files@)) == merged_map(runs_to_merge@.map_values(|v: Vec<Record>| v@)),
        run_records(files@).len() <= total_len(runs_to_merge@.map_values(|v: Vec<Record>| v@)),
        final(run_merge_into).files@ == old(run_merge_into).files@,
        final(run_merge_into).wf(),
        final(run_merge_into).size == old(run_merge_into).size,
        *old(put_io) + file_blocks(files@, config.block_size as int) <= u64::MAX ==> *final(put_io) == *old(put_io)
            + file_blocks(files@, config.block_size as int),
        final(run_merge_into).capacity == old(run_merge_into).capacity,
        final(run_merge_into).level == old(run_merge_into).level,
        final(run_merge_into).run == old(run_merge_into).run,
        final(run_merge_into).file_counter == old(run_merge_into).file_counter + files@.len(),
        appended_files(files@, 0, old(run_merge_into).level, old(run_merge_into).run,
            old(run_merge_into).file_counter as int, config.file_size as int / 8),
        *final(put_io) >= *old(put_io),
{
    let merged = merge_records(runs_to_merge);
    let mut out = Run {
        level: run_merge_into.level,
        run: run_merge_into.run,
        size: 0,
        capacity: run_merge_into.capacity,
        file_counter: run_merge_into.file_counter,
        files: Vec::new(),
        fence_pointers: Vec::new(),
    };
    out.append_records(&merged, config);
    run_merge_into.file_counter = out.file_counter;
    count_file_blocks(&out.files, config.block_size, put_io);
    proof {
        lemma_run_sorted(out.files@);
    }
    out.files
}


} // verus!

verus! {

/// The merged map of one input is its own map.
pub proof fn lemma_merged_map_single(x: Seq<Record>)
    ensures
        merged_map(seq![x]) == entry_map(x),
{
    assert(seq![x].drop_last() == Seq::<Seq<Record>>::empty());
    assert(seq![x].last() == x);
    assert(merged_map(Seq::<Seq<Record>>::empty()) == Map::<i32, i32>::empty());
    assert(Map::<i32, i32>::empty().union_prefer_right(entry_map(x)) =~= entry_map(x));
}

/// The total length of inputs in a row.
pub proof fn lemma_total_len_append(a: Seq<Seq<Record>>, b: Seq<Seq<Record>>)
    ensures
        total_len(a + b) == total_len(a) + total_len(b),
    decreases b.len(),
{
    if b.len() == 0 {
        assert(a + b == a);
    } else {
        lemma_total_len_append(a, b.drop_last());
        assert((a + b).drop_last() == a + b.drop_last());
    }
}

/// A key held by input `i` and by no later input takes its value from
/// input `i`.
pub proof fn lemma_merged_found(v: Seq<Seq<Record>>, i: int, k: i32)
    requires
        0 <= i < v.len(),
        entry_map(v[i]).contains_key(k),
        forall|j: int| i < j < v.len() ==> !entry_map(#[trigger] v[j]).contains_key(k),
    ensures
        merged_map(v).contains_key(k),
        merged_map(v)[k] == entry_map(v[i])[k],
    decreases v.len(),
{
    let init = v.drop_last();
    if i < v.len() - 1 {
        assert(!entry_map(v[v.len() - 1]).contains_key(k));
        assert(init[i] == v[i]);
        assert forall|j: int| i < j < init.len() implies !entry_map(#[trigger] init[j]).contains_key(k) by {
            assert(init[j] == v[j]);
        }
        lemma_merged_found(init, i, k);
    }
}

/// A key held by no input is absent from the merged map.
pub proof fn lemma_merged_absent(v: Seq<Seq<Record>>, k: i32)
    requires
        forall|j: int| 0 <= j < v.len() ==> !entry_map(#[trigger] v[j]).contains_key(k),
    ensures
        !merged_map(v).contains_key(k),
    decreases v.len(),
{
    if v.len() > 0 {
        let init = v.drop_last();
        assert forall|j: int| 0 <= j < init.len() implies !entry_map(#[trigger] init[j]).contains_key(k) by {
            assert(init[j] == v[j]);
        }
        assert(!entry_map(v[v.len() - 1]).contains_key(k));
        lemma_merged_absent(init, k);
    }
}

} // verus!
