use vstd::prelude::*;

verus! {

/// Signed encoding of an optional index: the index itself, or `-1` where
/// there is none (valid indices are never negative).
pub open spec fn sentinel_of(val: Option<u64>) -> i64 {
    match val {
        Some(v) => v as i64,
        None => -1i64,
    }
}

/// Encodes an optional index as a signed value, `-1` meaning "absent".
pub fn to_i64(val: Option<u64>) -> (r: i64)
    ensures
        r == sentinel_of(val),
{
    match val {
        Some(v) => v as i64,
        None => -1i64,
    }
}

/// Same as [`to_i64`], for an index held by reference.
pub fn to_ref_i64(val: Option<&u64>) -> (r: i64)
    ensures
        r == sentinel_of(
            match val {
                Some(v) => Some(*v),
                None => None,
            },
        ),
{
    match val {
        Some(v) => *v as i64,
        None => -1i64,
    }
}

} // verus!
