//! The supplement code of zero-run escapes as tables.

use crate::rle;
use vstd::prelude::*;

verus! {

/// How many zeros each supplement byte adds.
pub fn rle_fwd_lut() -> (r: [u8; 256])
    ensures
        forall|s: u8| #[trigger] r@[s as int] == rle::padding(s),
{
    let mut r: [u8; 256] = [0u8; 256];
    let mut s: usize = 0;
    while s < 256
        invariant
            s <= 256,
            forall|k: u8| k < s ==> #[trigger] r@[k as int] == rle::padding(k),
        decreases 256 - s,
    {
        let n: usize = rle::padding_of(s as u8);
        r[s] = n as u8;
        s = s + 1;
    }
    r
}

/// The supplement byte of each number of zeros, counted from two: entry `k`
/// adds `k - 2` zeros. The first two entries are not used.
pub fn rle_inv_lut() -> (r: [u8; 256])
    ensures
        r@[0] == 0,
        r@[1] == 0,
        forall|k: int| 2 <= k < 256 ==> #[trigger] r@[k] == rle::supplement((k - 2) as nat),
{
    let mut r: [u8; 256] = [0u8; 256];
    let mut k: usize = 2;
    while k < 256
        invariant
            2 <= k <= 256,
            r@[0] == 0,
            r@[1] == 0,
            forall|j: int| 2 <= j < k ==> #[trigger] r@[j] == rle::supplement((j - 2) as nat),
        decreases 256 - k,
    {
        r[k] = rle::supplement_for_padding(k - 2);
        k = k + 1;
    }
    r
}

/// The two tables invert each other, where the second has an entry.
pub proof fn law_tables_invert(fwd: Seq<u8>, inv: Seq<u8>, k: int)
    requires
        forall|s: u8| #[trigger] fwd[s as int] == rle::padding(s),
        forall|j: int| 2 <= j < 256 ==> #[trigger] inv[j] == rle::supplement((j - 2) as nat),
        2 <= k < 256,
    ensures
        fwd[inv[k] as int] == k - 2,
{
    rle::law_supplement_bijective((k - 2) as nat, 0);
    assert(fwd[inv[k] as int] == rle::padding(inv[k]));
}

} // verus!
