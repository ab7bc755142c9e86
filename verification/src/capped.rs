use vstd::prelude::*;

verus! {

/// `n` as a `u32`, or nothing where it is too large for one.
pub open spec fn cap(n: nat) -> Option<u32> {
    if n <= u32::MAX {
        Some(n as u32)
    } else {
        None
    }
}

/// The sum of a capped number and `v`, capped again.
pub open spec fn cap_add(acc: Option<u32>, v: nat) -> Option<u32> {
    match acc {
        Some(a) => cap(a as nat + v),
        None => None,
    }
}

/// The sum of two capped numbers, capped again.
pub open spec fn cap_sum(a: Option<u32>, b: Option<u32>) -> Option<u32> {
    match b {
        Some(v) => cap_add(a, v as nat),
        None => None,
    }
}

/// Adds `v` to a capped number.
pub fn add_capped(acc: Option<u32>, v: u64) -> (r: Option<u32>)
    ensures
        r == cap_add(acc, v as nat),
{
    match acc {
        Some(a) => {
            if v > (u32::MAX - a) as u64 {
                None
            } else {
                Some(a + v as u32)
            }
        },
        None => None,
    }
}

/// Adds two capped numbers.
pub fn sum_capped(a: Option<u32>, b: Option<u32>) -> (r: Option<u32>)
    ensures
        r == cap_sum(a, b),
{
    match b {
        Some(v) => add_capped(a, v as u64),
        None => None,
    }
}

} // verus!
