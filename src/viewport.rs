use vstd::prelude::*;

verus! {

/// Signed offset of pixel coordinate `c` from the centre of an axis of `n`
/// pixels: positive towards the start of the axis. A coordinate past the
/// end counts back from the end.
pub open spec fn centre_offset_spec(c: int, n: int) -> int {
    n / 2 - if c > n {
        c - n
    } else {
        c
    }
}

/// Signed offset of pixel coordinate `c` from the centre of an axis of `n`
/// pixels (see `centre_offset_spec`).
pub fn centre_offset(c: usize, n: usize) -> (r: isize)
    requires
        c <= isize::MAX,
        n <= isize::MAX,
    ensures
        r == centre_offset_spec(c as int, n as int),
{
    let half: isize = (n / 2) as isize;
    if c > n {
        half - (c - n) as isize
    } else {
        half - c as isize
    }
}

} // verus!
