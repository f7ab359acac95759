use vstd::prelude::*;

verus! {

/// One key-value pair; records are ordered by key alone.
#[derive(Clone, Copy, Debug, PartialEq, Eq, Structural)]
pub struct Record {
    pub key: i32,
    pub value: i32,
}

impl Record {
    pub fn create_record(key: i32, value: i32) -> (r: Record)
        ensures
            r.key == key,
            r.value == value,
    {
        Record { key, value }
    }
}

/// Keys strictly increase along `s`.
pub open spec fn strictly_sorted(s: Seq<Record>) -> bool {
    forall|i: int, j: int| 0 <= i < j < s.len() ==> #[trigger] s[i].key < #[trigger] s[j].key
}

/// Keys never decrease along `s`.
pub open spec fn keys_sorted(s: Seq<i32>) -> bool {
    forall|i: int, j: int| 0 <= i <= j < s.len() ==> #[trigger] s[i] <= #[trigger] s[j]
}

/// Whether some record of `s` carries key `k`.
pub open spec fn has_key(s: Seq<Record>, k: i32) -> bool {
    exists|i: int| 0 <= i < s.len() && #[trigger] s[i].key == k
}

/// The key-value map that `s` represents, where a later record for a key
/// overrides an earlier one.
pub open spec fn records_map(s: Seq<Record>) -> Map<i32, i32>
    decreases s.len(),
{
    if s.len() == 0 {
        Map::empty()
    } else {
        records_map(s.drop_last()).insert(s.last().key, s.last().value)
    }
}

} // verus!

verus! {

/// Index of some record of `s` with key `k`.
pub open spec fn key_index(s: Seq<Record>, k: i32) -> int {
    choose|i: int| 0 <= i < s.len() && #[trigger] s[i].key == k
}

/// The key-value map held by a sequence with unique keys.
pub open spec fn entry_map(s: Seq<Record>) -> Map<i32, i32> {
    Map::new(|k: i32| has_key(s, k), |k: i32| s[key_index(s, k)].value)
}

/// In a strictly sorted sequence each record is the map's entry for its key.
pub proof fn lemma_entry_map_at(s: Seq<Record>, i: int)
    requires
        strictly_sorted(s),
        0 <= i < s.len(),
    ensures
        entry_map(s).contains_key(s[i].key),
        entry_map(s)[s[i].key] == s[i].value,
        key_index(s, s[i].key) == i,
{
    assert(has_key(s, s[i].key));
    let j = key_index(s, s[i].key);
    if j < i {
        assert(s[j].key < s[i].key);
    } else if j > i {
        assert(s[i].key < s[j].key);
    }
}

/// Two strictly sorted sequences with the same records at matching keys
/// hold the same map.
pub proof fn lemma_entry_map_ext(s: Seq<Record>, m: Map<i32, i32>)
    requires
        strictly_sorted(s),
        forall|k: i32| #[trigger] m.contains_key(k) <==> has_key(s, k),
        forall|i: int| 0 <= i < s.len() ==> m[#[trigger] s[i].key] == s[i].value,
    ensures
        entry_map(s) == m,
{
    assert forall|k: i32| #[trigger] entry_map(s).contains_key(k) implies entry_map(s)[k] == m[k] by {
        let i = key_index(s, k);
        lemma_entry_map_at(s, i);
    }
    assert(entry_map(s) =~= m);
}

} // verus!

verus! {

/// The map of records in a row: the later part overrides the earlier.
pub proof fn lemma_records_map_append(a: Seq<Record>, b: Seq<Record>)
    ensures
        records_map(a + b) == records_map(a).union_prefer_right(records_map(b)),
    decreases b.len(),
{
    if b.len() == 0 {
        assert(a + b == a);
        assert(records_map(a).union_prefer_right(Map::empty()) =~= records_map(a));
    } else {
        lemma_records_map_append(a, b.drop_last());
        assert((a + b).drop_last() == a + b.drop_last());
        assert((a + b).last() == b.last());
        assert(records_map(a + b) =~= records_map(a).union_prefer_right(records_map(b)));
    }
}

/// The map of a sequence has no more keys than the sequence has records.
pub proof fn lemma_records_map_len(s: Seq<Record>)
    ensures
        records_map(s).dom().finite(),
        records_map(s).dom().len() <= s.len(),
    decreases s.len(),
{
    if s.len() > 0 {
        lemma_records_map_len(s.drop_last());
    }
}

} // verus!
