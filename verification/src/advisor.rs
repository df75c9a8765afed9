//! The cache advisor, `cache_advisor::CacheAdvisor`: told of each access to a
//! node, it names the nodes to drop from memory. Nothing is claimed of its
//! answers.

use vstd::prelude::*;

verus! {

/// `cache_advisor::CacheAdvisor`, declared so that the store can hold one.
#[verifier::external_type_specification]
#[verifier::external_body]
pub struct ExCacheAdvisor(cache_advisor::CacheAdvisor);

/// The least capacity that `CacheAdvisor::new` accepts.
pub const MIN_CACHE_CAPACITY: usize = 256;

/// The greatest capacity, and the greatest size of one access, for which the
/// advisor's sums of sizes stay in range.
pub const MAX_CACHE_CAPACITY: usize = usize::MAX / 4;

/// `CacheAdvisor::new`, which panics on a capacity under 256 bytes or an
/// entry share over 100 percent. The capacity is kept a factor of four below
/// `usize::MAX` because the advisor adds sizes to it without a check.
#[verifier::external_body]
pub(crate) fn advisor_new(capacity: usize, entry_percent: u8) -> (a: cache_advisor::CacheAdvisor)
    requires
        MIN_CACHE_CAPACITY <= capacity <= MAX_CACHE_CAPACITY,
        entry_percent <= 100,
{
    cache_advisor::CacheAdvisor::new(capacity, entry_percent)
}

/// `CacheAdvisor::accessed_reuse_buffer`: records an access of `size` bytes
/// to node `id` and returns the nodes to evict, each with its size, copied out
/// of the advisor's buffer. The size is kept a factor of four below
/// `usize::MAX` because the advisor adds it to its sums without a check.
#[verifier::external_body]
pub(crate) fn advisor_accessed(a: &mut cache_advisor::CacheAdvisor, id: u64, size: usize) -> (r:
    Vec<(u64, usize)>)
    requires
        size <= MAX_CACHE_CAPACITY,
{
    a.accessed_reuse_buffer(id, size).to_vec()
}

} // verus!
