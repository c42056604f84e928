//! Compact identifiers derived from human-readable names.

use vstd::prelude::*;

verus! {

/// The FNV-1a offset basis for 64-bit digests.
pub const FNV_OFFSET: u64 = 0xcbf2_9ce4_8422_2325;

/// The FNV-1a prime for 64-bit digests.
pub const FNV_PRIME: u64 = 0x100_0000_01b3;

/// The 64-bit FNV-1a digest of the first `k` characters of `s`.
pub open spec fn fnv1a(s: Seq<char>, k: int) -> u64
    decreases k,
{
    if k <= 0 {
        FNV_OFFSET
    } else {
        vstd::wrapping::u64_specs::wrapping_mul(fnv1a(s, k - 1) ^ (s[k - 1] as u64), FNV_PRIME)
    }
}

/// The 64-bit FNV-1a digest of a whole name: the identifier that stands for
/// the name in fast comparisons and registry keys.
pub open spec fn spec_uuid(s: Seq<char>) -> u64 {
    fnv1a(s, s.len() as int)
}

/// Computes [`spec_uuid`] for a name.
pub fn uuid_for(name: &str) -> (r: u64)
    ensures
        r == spec_uuid(name@),
{
    let n = name.unicode_len();
    let mut h: u64 = FNV_OFFSET;
    let mut i: usize = 0;
    while i < n
        invariant
            n == name@.len(),
            0 <= i <= n,
            h == fnv1a(name@, i as int),
        decreases n - i,
    {
        let c = name.get_char(i);
        h = (h ^ (c as u64)).wrapping_mul(FNV_PRIME);
        i = i + 1;
    }
    h
}

/// Quickly identifies and compares entities while retaining a human
/// readable name.  Comparing existing identifiers is very fast, so reusing
/// instances instead of recreating them is recommended.
pub struct NamedID {
    pub name: String,
    pub id: u64,
}

impl NamedID {
    /// Derives the identifier from the name's digest.
    pub fn new(name: String) -> (r: NamedID)
        ensures
            r.name == name,
            r.id == spec_uuid(name@),
    {
        let id = uuid_for(name.as_str());
        NamedID { name, id }
    }
}

} // verus!
