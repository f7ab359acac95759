use vstd::prelude::*;
use crate::configuration::{KEY_SIZE, RECORD_SIZE};
use crate::record::{Record, keys_sorted};

verus! {

/// Big-endian bytes of a 32-bit word.
pub open spec fn u32_be(x: u32) -> Seq<u8> {
    seq![(x >> 24u32) as u8, (x >> 16u32) as u8, (x >> 8u32) as u8, x as u8]
}

/// The 32-bit word whose big-endian bytes are `b[at..at + 4]`.
pub open spec fn be_u32_at(b: Seq<u8>, at: int) -> u32 {
    ((b[at] as u32) << 24u32) | ((b[at + 1] as u32) << 16u32) | ((b[at + 2] as u32) << 8u32) | (
    b[at + 3] as u32)
}

/// The eight bytes of a record: big-endian key, then big-endian value.
pub open spec fn record_bytes(r: Record) -> Seq<u8> {
    u32_be(#[verifier::truncate] (r.key as u32)) + u32_be(#[verifier::truncate] (r.value as u32))
}

/// The byte image of a sequence of records.
pub open spec fn encode(rs: Seq<Record>) -> Seq<u8>
    decreases rs.len(),
{
    if rs.len() == 0 {
        Seq::empty()
    } else {
        encode(rs.drop_last()) + record_bytes(rs.last())
    }
}

/// The record stored at record index `i` of the byte image `b`.
pub open spec fn record_at(b: Seq<u8>, i: int) -> Record {
    Record {
        key: #[verifier::truncate] (be_u32_at(b, 8 * i) as i32),
        value: #[verifier::truncate] (be_u32_at(b, 8 * i + 4) as i32),
    }
}

/// The records of a byte image whose length is a multiple of eight.
pub open spec fn decode(b: Seq<u8>) -> Seq<Record> {
    Seq::new((b.len() / 8) as nat, |i: int| record_at(b, i))
}

proof fn lemma_u32_be_round_trip(x: u32)
    ensures
        be_u32_at(u32_be(x), 0) == x,
{
    let b = u32_be(x);
    let b0 = (x >> 24u32) as u8;
    let b1 = (x >> 16u32) as u8;
    let b2 = (x >> 8u32) as u8;
    let b3 = x as u8;
    assert(b[0] == b0 && b[1] == b1 && b[2] == b2 && b[3] == b3);
    assert((((b0 as u32) << 24u32) | ((b1 as u32) << 16u32) | ((b2 as u32) << 8u32) | (b3 as u32))
        == x) by (bit_vector)
        requires
            b0 == (x >> 24u32) as u8,
            b1 == (x >> 16u32) as u8,
            b2 == (x >> 8u32) as u8,
            b3 == x as u8,
    ;
}

proof fn lemma_be_bytes_round_trip(b0: u8, b1: u8, b2: u8, b3: u8)
    ensures
        u32_be(((b0 as u32) << 24u32) | ((b1 as u32) << 16u32) | ((b2 as u32) << 8u32) | (
        b3 as u32)) == seq![b0, b1, b2, b3],
{
    let x = ((b0 as u32) << 24u32) | ((b1 as u32) << 16u32) | ((b2 as u32) << 8u32) | (b3 as u32);
    assert((x >> 24u32) as u8 == b0 && (x >> 16u32) as u8 == b1 && (x >> 8u32) as u8 == b2 && x as u8
        == b3) by (bit_vector)
        requires
            x == ((b0 as u32) << 24u32) | ((b1 as u32) << 16u32) | ((b2 as u32) << 8u32) | (
            b3 as u32),
    ;
    assert(u32_be(x) =~= seq![b0, b1, b2, b3]);
}

proof fn lemma_i32_u32_round_trip(x: i32)
    ensures
        (#[verifier::truncate] ((#[verifier::truncate] (x as u32)) as i32)) == x,
{
    assert((#[verifier::truncate] ((#[verifier::truncate] (x as u32)) as i32)) == x) by (bit_vector);
}

proof fn lemma_u32_i32_round_trip(x: u32)
    ensures
        (#[verifier::truncate] ((#[verifier::truncate] (x as i32)) as u32)) == x,
{
    assert((#[verifier::truncate] ((#[verifier::truncate] (x as i32)) as u32)) == x) by (bit_vector);
}

pub proof fn lemma_encode_len(rs: Seq<Record>)
    ensures
        encode(rs).len() == 8 * rs.len(),
    decreases rs.len(),
{
    if rs.len() > 0 {
        lemma_encode_len(rs.drop_last());
    }
}

/// Byte `8 * i + j` of the image of `rs` is byte `j` of record `i`.
proof fn lemma_encode_index(rs: Seq<Record>, i: int, j: int)
    requires
        0 <= i < rs.len(),
        0 <= j < 8,
    ensures
        encode(rs).len() == 8 * rs.len(),
        encode(rs)[8 * i + j] == record_bytes(rs[i])[j],
    decreases rs.len(),
{
    lemma_encode_len(rs);
    lemma_encode_len(rs.drop_last());
    if i < rs.len() - 1 {
        lemma_encode_index(rs.drop_last(), i, j);
    }
}

/// Decoding the image of a sequence of records gives back those records.
pub proof fn lemma_decode_encode(rs: Seq<Record>)
    ensures
        decode(encode(rs)) == rs,
{
    lemma_encode_len(rs);
    let b = encode(rs);
    assert forall|i: int| 0 <= i < rs.len() implies #[trigger] record_at(b, i) == rs[i] by {
        lemma_encode_index(rs, i, 0);
        lemma_encode_index(rs, i, 1);
        lemma_encode_index(rs, i, 2);
        lemma_encode_index(rs, i, 3);
        lemma_encode_index(rs, i, 4);
        lemma_encode_index(rs, i, 5);
        lemma_encode_index(rs, i, 6);
        lemma_encode_index(rs, i, 7);
        let kb = u32_be(#[verifier::truncate] (rs[i].key as u32));
        let vb = u32_be(#[verifier::truncate] (rs[i].value as u32));
        assert(record_bytes(rs[i]) == kb + vb);
        lemma_u32_be_round_trip(#[verifier::truncate] (rs[i].key as u32));
        lemma_u32_be_round_trip(#[verifier::truncate] (rs[i].value as u32));
        assert(be_u32_at(b, 8 * i) == be_u32_at(kb, 0));
        assert(be_u32_at(b, 8 * i + 4) == be_u32_at(vb, 0));
        lemma_i32_u32_round_trip(rs[i].key);
        lemma_i32_u32_round_trip(rs[i].value);
    }
    assert(decode(b) =~= rs);
}

/// Encoding the records of a byte image whose length is a multiple of
/// eight gives back that image.
pub proof fn lemma_encode_decode(b: Seq<u8>)
    requires
        b.len() % 8 == 0,
    ensures
        encode(decode(b)) == b,
{
    let rs = decode(b);
    lemma_encode_len(rs);
    let e = encode(rs);
    assert forall|k: int| 0 <= k < b.len() implies #[trigger] e[k] == b[k] by {
        let i = k / 8;
        let j = k % 8;
        lemma_encode_index(rs, i, j);
        let w0 = be_u32_at(b, 8 * i);
        let w1 = be_u32_at(b, 8 * i + 4);
        lemma_be_bytes_round_trip(b[8 * i], b[8 * i + 1], b[8 * i + 2], b[8 * i + 3]);
        lemma_be_bytes_round_trip(b[8 * i + 4], b[8 * i + 5], b[8 * i + 6], b[8 * i + 7]);
        lemma_u32_i32_round_trip(w0);
        lemma_u32_i32_round_trip(w1);
        assert(record_bytes(rs[i]) =~= seq![b[8 * i], b[8 * i + 1], b[8 * i + 2], b[8 * i + 3], b[8
            * i + 4], b[8 * i + 5], b[8 * i + 6], b[8 * i + 7]]);
        assert(k == 8 * i + j);
    }
    assert(e =~= b);
}

fn push_u32_be(out: &mut Vec<u8>, x: u32)
    ensures
        final(out)@ == old(out)@ + u32_be(x),
{
    out.push((x >> 24u32) as u8);
    out.push((x >> 16u32) as u8);
    out.push((x >> 8u32) as u8);
    out.push(x as u8);
    assert(final(out)@ =~= old(out)@ + u32_be(x));
}

fn read_u32_be(b: &[u8], at: usize) -> (r: u32)
    requires
        at + 4 <= b@.len(),
    ensures
        r == be_u32_at(b@, at as int),
{
    ((b[at] as u32) << 24u32) | ((b[at + 1] as u32) << 16u32) | ((b[at + 2] as u32) << 8u32) | (
    b[at + 3] as u32)
}

/// Serializes records as consecutive big-endian (key, value) pairs.
pub fn records_to_bytes(records: &Vec<Record>) -> (bytes: Vec<u8>)
    requires
        records@.len() * 8 <= usize::MAX,
    ensures
        bytes@ == encode(records@),
        bytes@.len() == 8 * records@.len(),
{
    let mut bytes: Vec<u8> = Vec::new();
    let mut i: usize = 0;
    while i < records.len()
        invariant
            i <= records@.len(),
            bytes@ == encode(records@.subrange(0, i as int)),
        decreases records@.len() - i,
    {
        let r = records[i];
        push_u32_be(&mut bytes, #[verifier::truncate] (r.key as u32));
        push_u32_be(&mut bytes, #[verifier::truncate] (r.value as u32));
        proof {
            let s = records@.subrange(0, i + 1);
            assert(s.drop_last() =~= records@.subrange(0, i as int));
        }
        i = i + 1;
    }
    proof {
        assert(records@.subrange(0, i as int) =~= records@);
        lemma_encode_len(records@);
    }
    bytes
}

/// Deserializes a byte image whose length is a multiple of eight.
pub fn bytes_to_records(bytes: &[u8]) -> (records: Vec<Record>)
    requires
        bytes@.len() % 8 == 0,
    ensures
        records@ == decode(bytes@),
{
    let mut records: Vec<Record> = Vec::new();
    let len = bytes.len();
    let n = len / RECORD_SIZE;
    let mut i: usize = 0;
    while i < n
        invariant
            len == bytes@.len(),
            n == bytes@.len() / 8,
            i <= n,
            records@ =~= decode(bytes@).subrange(0, i as int),
        decreases n - i,
    {
        assert(i * 8 + 8 <= bytes@.len()) by (nonlinear_arith)
            requires i < n, n == bytes@.len() / 8;
        let at = i * 8;
        let key = #[verifier::truncate] (read_u32_be(bytes, at) as i32);
        let value = #[verifier::truncate] (read_u32_be(bytes, at + KEY_SIZE) as i32);
        records.push(Record::create_record(key, value));
        i = i + 1;
    }
    records
}

/// Locates the fence pointer covering `key` in a sorted pointer list.
pub fn binary_search_fp(fence_pointers: &Vec<i32>, key: &i32) -> (r: Option<usize>)
    requires
        keys_sorted(fence_pointers@),
    ensures
        r is None <==> (fence_pointers@.len() == 0 || *key < fence_pointers@[0]),
        r matches Some(i) ==> {
            &&& i < fence_pointers@.len()
            &&& fence_pointers@[i as int] <= *key
            &&& (i + 1 == fence_pointers@.len() || *key < fence_pointers@[i + 1])
        },
{
    let n = fence_pointers.len();
    if n == 0 || *key < fence_pointers[0] {
        return None;
    }
    // fp[lo] <= key, and every index at or past hi holds a pointer above key
    let mut lo: usize = 0;
    let mut hi: usize = n;
    while lo + 1 < hi
        invariant
            n == fence_pointers@.len(),
            lo < hi <= n,
            fence_pointers@[lo as int] <= *key,
            hi == n || *key < fence_pointers@[hi as int],
            keys_sorted(fence_pointers@),
        decreases hi - lo,
    {
        let mid = lo + (hi - lo) / 2;
        if fence_pointers[mid] <= *key {
            lo = mid;
        } else {
            hi = mid;
        }
    }
    Some(lo)
}

} // verus!

verus! {

/// ASCII decimal digits of `n`.
pub open spec fn decimal(n: nat) -> Seq<u8>
    decreases n,
{
    if n < 10 {
        seq![(48 + n) as u8]
    } else {
        decimal(n / 10).push((48 + n % 10) as u8)
    }
}

/// The name `"{level}.{run}.{file_idx}"` as ASCII bytes.
pub open spec fn filename_bytes(level: nat, run: nat, file_idx: nat) -> Seq<u8> {
    decimal(level) + seq![46u8] + decimal(run) + seq![46u8] + decimal(file_idx)
}

pub open spec fn ascii_chars(b: Seq<u8>) -> Seq<char> {
    b.map_values(|c: u8| c as char)
}

fn push_decimal(out: &mut Vec<u8>, n: usize)
    ensures
        final(out)@ == old(out)@ + decimal(n as nat),
        forall|i: int| 0 <= i < final(out)@.len() ==> (i < old(out)@.len() ==> final(out)@[i] == old(out)@[i])
            && (i >= old(out)@.len() ==> #[trigger] final(out)@[i] < 128),
    decreases n,
{
    if n >= 10 {
        push_decimal(out, n / 10);
    }
    let ghost mid = out@;
    out.push((48 + n % 10) as u8);
    proof {
        if n >= 10 {
            assert(out@ =~= old(out)@ + decimal(n as nat));
        } else {
            assert(out@ =~= old(out)@ + decimal(n as nat));
        }
    }
}

/// Relies on String::from_utf8: ASCII bytes are valid UTF-8 and give the
/// string of those characters.
#[verifier::external_body]
pub(crate) fn ascii_string(b: Vec<u8>) -> (r: String)
    requires
        forall|i: int| 0 <= i < b@.len() ==> #[trigger] b@[i] < 128,
    ensures
        r@ == ascii_chars(b@),
{
    String::from_utf8(b).unwrap()
}

/// The file name `"{level}.{run}.{file_idx}"`.
pub fn generate_filename(level: usize, run: usize, file_idx: usize) -> (r: String)
    ensures
        r@ == ascii_chars(filename_bytes(level as nat, run as nat, file_idx as nat)),
{
    let mut b: Vec<u8> = Vec::new();
    push_decimal(&mut b, level);
    b.push(46u8);
    push_decimal(&mut b, run);
    b.push(46u8);
    push_decimal(&mut b, file_idx);
    proof {
        assert(b@ =~= filename_bytes(level as nat, run as nat, file_idx as nat));
    }
    ascii_string(b)
}

} // verus!
