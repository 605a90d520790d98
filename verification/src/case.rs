//! Case folding for protocol words (command names).
use vstd::prelude::*;

verus! {

/// The byte `x` with ASCII `a`..=`z` folded to `A`..=`Z`; every other byte
/// is left as it is.
pub open spec fn ascii_upcase(x: u8) -> u8 {
    if 97 <= x <= 122 {
        (x - 32) as u8
    } else {
        x
    }
}

/// Every byte of `s` folded with `ascii_upcase`.
pub open spec fn upcase_all(s: Seq<u8>) -> Seq<u8> {
    Seq::new(s.len(), |i: int| ascii_upcase(s[i]))
}

/// Folds one byte to upper case (ASCII letters only).
pub fn upcase(x: u8) -> (r: u8)
    ensures
        r == ascii_upcase(x),
{
    if x >= 97 && x <= 122 {
        x - 32
    } else {
        x
    }
}

} // verus!
