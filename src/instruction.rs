use vstd::prelude::*;
use crate::record::Record;
use vstd::string::StringSliceAdditionalSpecFns;
use crate::codec::{ascii_chars, ascii_string};

verus! {

/// Value of a string of ASCII decimal digits.
pub open spec fn digits_value(b: Seq<u8>) -> int
    decreases b.len(),
{
    if b.len() == 0 {
        0
    } else {
        digits_value(b.drop_last()) * 10 + (b.last() - 48)
    }
}

pub open spec fn all_digits(b: Seq<u8>) -> bool {
    forall|i: int| 0 <= i < b.len() ==> 48 <= #[trigger] b[i] <= 57
}

/// The 32-bit integer written in `b`: an optional sign, then one or more
/// decimal digits, with the value in range.
pub open spec fn parse_i32(b: Seq<u8>) -> Option<i32> {
    let neg = b.len() > 0 && b[0] == 45;
    let signed = b.len() > 0 && (b[0] == 45 || b[0] == 43);
    let d = if signed { b.subrange(1, b.len() as int) } else { b };
    let v = if neg { -digits_value(d) } else { digits_value(d) };
    if d.len() > 0 && all_digits(d) && i32::MIN <= v <= i32::MAX {
        Some(v as i32)
    } else {
        None
    }
}

/// ASCII whitespace as `str::trim` removes it.
pub open spec fn is_space(c: u8) -> bool {
    c == 32 || (9 <= c <= 13)
}

/// The two-byte operation field, once trimmed, is the single letter `c`.
pub open spec fn op_is(b: Seq<u8>, c: u8) -> bool {
    (b[0] == c && is_space(b[1])) || (is_space(b[0]) && b[1] == c)
}

/// Index of the first space in `b`, if any.
pub open spec fn first_space(b: Seq<u8>) -> Option<int> {
    if exists|i: int| 0 <= i < b.len() && b[i] == 32 {
        Some(choose|i: int| 0 <= i < b.len() && b[i] == 32 && forall|j: int| 0 <= j < i ==> b[j] != 32)
    } else {
        None
    }
}

/// The parsed (operation, key, value) of a workload line: a put-like
/// operation (`b`, `p`, `r`) carries `key value` after the two-byte
/// operation field, any other one carries just a key. A put-like line
/// without a space gives key and value zero; a malformed number gives
/// nothing.
pub open spec fn instruction_of(b: Seq<u8>) -> Option<(Seq<u8>, i32, i32)> {
    if b.len() < 2 || b[0] >= 128 || b[1] >= 128 {
        None
    } else {
        let op = b.subrange(0, 2);
        let rest = b.subrange(2, b.len() as int);
        if op_is(b, 98) || op_is(b, 112) || op_is(b, 114) {
            match first_space(rest) {
                None => Some((op, 0i32, 0i32)),
                Some(i) => match (parse_i32(rest.subrange(0, i)), parse_i32(rest.subrange(i + 1, rest.len() as int))) {
                    (Some(k), Some(v)) => Some((op, k, v)),
                    _ => None,
                },
            }
        } else {
            match parse_i32(rest) {
                Some(k) => Some((op, k, 0i32)),
                None => None,
            }
        }
    }
}

proof fn lemma_digits_value_mono(b: Seq<u8>, n: int)
    requires
        all_digits(b),
        0 <= n <= b.len(),
    ensures
        0 <= digits_value(b.subrange(0, n)) <= digits_value(b),
    decreases b.len(),
{
    if n < b.len() {
        lemma_digits_value_mono(b.drop_last(), n);
        assert(b.drop_last().subrange(0, n) == b.subrange(0, n));
        assert(all_digits(b.drop_last()));
    } else {
        assert(b.subrange(0, n) == b);
        lemma_digits_value_nonneg(b);
    }
}

proof fn lemma_digits_value_nonneg(b: Seq<u8>)
    requires
        all_digits(b),
    ensures
        digits_value(b) >= 0,
    decreases b.len(),
{
    if b.len() > 0 {
        assert(all_digits(b.drop_last()));
        lemma_digits_value_nonneg(b.drop_last());
    }
}

/// Parses `b[from..to]` as a 32-bit integer.
fn parse_i32_at(b: &[u8], from: usize, to: usize) -> (r: Option<i32>)
    requires
        from <= to <= b@.len(),
    ensures
        r == parse_i32(b@.subrange(from as int, to as int)),
{
    let ghost s = b@.subrange(from as int, to as int);
    let neg = from < to && b[from] == 45u8;
    let signed = from < to && (b[from] == 45u8 || b[from] == 43u8);
    let start = if signed { from + 1 } else { from };
    let ghost d = s.subrange(if signed { 1int } else { 0int }, s.len() as int);
    assert(d == b@.subrange(start as int, to as int));
    assert(!signed ==> d =~= s);
    if start >= to {
        return None;
    }
    let mut v: i64 = 0;
    let mut i: usize = start;
    while i < to
        invariant
            start <= i <= to <= b@.len(),
            d == b@.subrange(start as int, to as int),
            s == b@.subrange(from as int, to as int),
            d == s.subrange(if signed { 1int } else { 0int }, s.len() as int),
            signed == (s.len() > 0 && (s[0] == 45 || s[0] == 43)),
            neg == (s.len() > 0 && s[0] == 45),
            !signed ==> d == s,
            all_digits(b@.subrange(start as int, i as int)),
            v == digits_value(b@.subrange(start as int, i as int)),
            0 <= v <= 2147483648,
        decreases to - i,
    {
        let c = b[i];
        if c < 48u8 || c > 57u8 {
            proof {
                assert(d[i - start] == c);
                assert(!all_digits(d));
            }
            return None;
        }
        proof {
            let p = b@.subrange(start as int, i + 1);
            assert(p.drop_last() == b@.subrange(start as int, i as int));
            assert(all_digits(p));
        }
        v = v * 10 + (c - 48u8) as i64;
        if v > 2147483648 {
            proof {
                let p = b@.subrange(start as int, i + 1);
                assert(p.drop_last() == b@.subrange(start as int, i as int));
                assert(p.last() == c);
                assert(v == digits_value(p));
                if all_digits(d) {
                    assert(d.subrange(0, i + 1 - start) =~= p);
                    lemma_digits_value_mono(d, i + 1 - start);
                    assert(digits_value(d) > 2147483648int);
                }
            }
            return None;
        }
        i = i + 1;
    }
    proof {
        assert(b@.subrange(start as int, i as int) == d);
    }
    if neg {
        Some((-v) as i32)
    } else if v > 2147483647 {
        None
    } else {
        Some(v as i32)
    }
}

fn is_space_byte(c: u8) -> (r: bool)
    ensures
        r == is_space(c),
{
    c == 32u8 || (9u8 <= c && c <= 13u8)
}

/// Parses one workload line into its operation field, key and value.
pub fn parse_instruction(instruction: &str) -> (r: Option<(String, i32, i32)>)
    ensures
        r is None <==> instruction_of(instruction.spec_bytes()) is None,
        r matches Some((op, k, v)) ==> (instruction_of(instruction.spec_bytes()) matches Some(
            (ob, k2, v2),
        ) && op@ == ascii_chars(ob) && k == k2 && v == v2),
{
    let b = instruction.as_bytes();
    let ghost s = b@;
    let n = b.len();
    if n < 2 || b[0] >= 128u8 || b[1] >= 128u8 {
        return None;
    }
    let mut op_bytes: Vec<u8> = Vec::new();
    op_bytes.push(b[0]);
    op_bytes.push(b[1]);
    proof {
        assert(op_bytes@ == s.subrange(0, 2));
    }
    let op = ascii_string(op_bytes);
    let ghost rest = s.subrange(2, n as int);
    let put_like = (b[0] == 98u8 || b[0] == 112u8 || b[0] == 114u8) && is_space_byte(b[1])
        || is_space_byte(b[0]) && (b[1] == 98u8 || b[1] == 112u8 || b[1] == 114u8);
    proof {
        assert(put_like == (op_is(s, 98) || op_is(s, 112) || op_is(s, 114)));
    }
    if put_like {
        let mut i: usize = 2;
        while i < n && b[i] != 32u8
            invariant
                2 <= i <= n,
                n == s.len(),
                b@ == s,
                forall|j: int| 2 <= j < i ==> s[j] != 32,
            decreases n - i,
        {
            i = i + 1;
        }
        if i == n {
            proof {
                assert(!exists|j: int| 0 <= j < rest.len() && rest[j] == 32) by {
                    if exists|j: int| 0 <= j < rest.len() && rest[j] == 32 {
                        let j = choose|j: int| 0 <= j < rest.len() && rest[j] == 32;
                        assert(s[j + 2] == 32);
                    }
                }
            }
            return Some((op, 0, 0));
        }
        proof {
            assert(rest[i - 2] == 32);
            let fs = first_space(rest);
            let c = choose|j: int| 0 <= j < rest.len() && rest[j] == 32 && forall|x: int| 0 <= x < j ==> rest[x] != 32;
            assert(fs == Some(c));
            if c < i - 2 {
                assert(s[c + 2] == 32);
            }
            if c > i - 2 {
                assert(rest[i - 2] != 32);
            }
            assert(rest.subrange(0, i - 2) == s.subrange(2, i as int));
            assert(rest.subrange(i - 1, rest.len() as int) == s.subrange(i + 1, n as int));
        }
        let key = parse_i32_at(b, 2, i);
        let value = parse_i32_at(b, i + 1, n);
        match (key, value) {
            (Some(k), Some(v)) => Some((op, k, v)),
            _ => None,
        }
    } else {
        match parse_i32_at(b, 2, n) {
            Some(k) => Some((op, k, 0)),
            None => None,
        }
    }
}

/// A node of the k-way merge: a record, the index of the run it came
/// from, and the position of that run's next record.
#[derive(Clone, Copy, Debug, PartialEq, Eq, Structural)]
pub struct HeapNode {
    pub element: Record,
    pub run_idx: usize,
    pub next_ele_idx: usize,
}

impl HeapNode {
    pub fn create_heap_node(element: Record, run_idx: usize, next_ele_idx: usize) -> (r: HeapNode)
        ensures
            r.element == element,
            r.run_idx == run_idx,
            r.next_ele_idx == next_ele_idx,
    {
        HeapNode { element, run_idx, next_ele_idx }
    }
}

} // verus!
