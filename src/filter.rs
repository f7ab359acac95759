use vstd::prelude::*;
use bloom::ASMS;
use bloom::BloomFilter;

verus! {

#[verifier::external_type_specification]
#[verifier::external_body]
#[verifier::reject_recursive_types(R)]
#[verifier::reject_recursive_types(S)]
pub struct ExBloomFilter<R, S>(bloom::BloomFilter<R, S>);

/// The keys inserted into a filter since it was made.
pub uninterp spec fn filter_members(f: BloomFilter) -> Set<i32>;

/// The number of bits a filter was made with.
pub uninterp spec fn filter_bits(f: BloomFilter) -> nat;

/// Relies on bloom::BloomFilter::with_size: an empty filter of `num_bits`
/// bits.
#[verifier::external_body]
pub(crate) fn new_filter(num_bits: usize, num_hashes: u32) -> (r: BloomFilter)
    ensures
        filter_members(r) == Set::<i32>::empty(),
        filter_bits(r) == num_bits,
{
    BloomFilter::with_size(num_bits, num_hashes)
}

/// Relies on bloom::optimal_num_hashes: a hash count clamped to 2..=200.
#[verifier::external_body]
pub(crate) fn optimal_hashes(num_bits: usize, num_items: u32) -> (r: u32)
    ensures
        2 <= r <= 200,
{
    bloom::optimal_num_hashes(num_bits, num_items)
}

/// Relies on BloomFilter::insert (trait ASMS): sets the bits of `key`;
/// the bit count is unchanged. It divides by the bit count, so the filter
/// must have bits.
#[verifier::external_body]
pub(crate) fn filter_insert(f: &mut BloomFilter, key: i32)
    requires
        filter_bits(*old(f)) > 0,
    ensures
        filter_members(*final(f)) == filter_members(*old(f)).insert(key),
        filter_bits(*final(f)) == filter_bits(*old(f)),
{
    f.insert(&key);
}

/// Relies on BloomFilter::contains (trait ASMS): no false negatives, so
/// every inserted key is reported present. It divides by the bit count,
/// so the filter must have bits.
#[verifier::external_body]
pub(crate) fn filter_contains(f: &BloomFilter, key: i32) -> (r: bool)
    requires
        filter_bits(*f) > 0,
    ensures
        filter_members(*f).contains(key) ==> r,
{
    f.contains(&key)
}

} // verus!
