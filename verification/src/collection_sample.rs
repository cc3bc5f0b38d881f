//! Searching a sorted slice.
use vstd::prelude::*;

verus! {

/// The slice is sorted in non-decreasing order.
pub open spec fn sorted(s: Seq<i32>) -> bool {
    forall|i: int, j: int| 0 <= i <= j < s.len() ==> s[i] <= s[j]
}

/// Looks for `x` in a sorted slice, as `slice::binary_search` does: `Ok`
/// with the position of a match, or `Err` with the position where `x` would
/// go to keep the slice sorted. A match is never claimed falsely; on a
/// slice that is not sorted a missing `Err` answer says nothing more.
pub fn binary_search(s: &[i32], x: i32) -> (r: Result<usize, usize>)
    ensures
        r matches Ok(i) ==> i < s@.len() && s@[i as int] == x,
        r matches Err(i) ==> i <= s@.len(),
        sorted(s@) ==> (r matches Err(i) ==> {
            &&& forall|k: int| 0 <= k < i ==> s@[k] < x
            &&& forall|k: int| i <= k < s@.len() ==> s@[k] > x
        }),
{
    let mut lo: usize = 0;
    let mut hi: usize = s.len();
    while lo < hi
        invariant
            lo <= hi <= s@.len(),
            sorted(s@) ==> forall|k: int| 0 <= k < lo ==> s@[k] < x,
            sorted(s@) ==> forall|k: int| hi <= k < s@.len() ==> s@[k] > x,
        decreases hi - lo,
    {
        let mid = lo + (hi - lo) / 2;
        let v = s[mid];
        if v == x {
            return Ok(mid);
        } else if v < x {
            lo = mid + 1;
        } else {
            hi = mid;
        }
    }
    Err(lo)
}

} // verus!
