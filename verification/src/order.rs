//! Three-way comparison of coordinates.

use std::cmp::Ordering;
use vstd::prelude::*;

verus! {

/// How `a` stands to `b`.
pub fn compare(a: i64, b: i64) -> (r: Ordering)
    ensures
        a < b <==> r == Ordering::Less,
        a > b <==> r == Ordering::Greater,
        a == b <==> r == Ordering::Equal,
{
    if a < b {
        Ordering::Less
    } else if a > b {
        Ordering::Greater
    } else {
        Ordering::Equal
    }
}

} // verus!
