use vstd::prelude::*;

verus! {

/// Whether `content` holds a NUL byte within its first `limit` bytes.
pub open spec fn has_nul_within(content: Seq<u8>, limit: int) -> bool {
    exists|i: int| 0 <= i < content.len() && i < limit && content[i] == 0u8
}

/// Number of leading bytes inspected when sniffing for binary content.
pub const BINARY_SNIFF_LEN: usize = 8192;

/// Content is treated as binary when a NUL byte occurs within its first 8 KiB.
pub fn is_binary(content: &[u8]) -> (r: bool)
    ensures
        r == has_nul_within(content@, BINARY_SNIFF_LEN as int),
{
    let n: usize = if content.len() < BINARY_SNIFF_LEN { content.len() } else { BINARY_SNIFF_LEN };
    let mut i: usize = 0;
    while i < n
        invariant
            n <= content.len(),
            n <= BINARY_SNIFF_LEN,
            i <= n,
            forall|k: int| 0 <= k < i ==> content@[k] != 0u8,
        decreases n - i,
    {
        if content[i] == 0u8 {
            return true;
        }
        i = i + 1;
    }
    false
}

} // verus!
