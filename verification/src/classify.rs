//! Container classification: a window is a tabbed container exactly when
//! its window-class property equals a fixed sentinel.

use vstd::prelude::*;
use crate::bytes::bytes_eq;

verus! {

/// The class property of a tabbed container: the program name `tabbed`
/// twice, each copy terminated by a NUL byte.
pub open spec fn tabbed_class() -> Seq<u8> {
    seq![116u8, 97u8, 98u8, 98u8, 101u8, 100u8, 0u8, 116u8, 97u8, 98u8, 98u8, 101u8, 100u8, 0u8]
}

/// Decides whether the given window-class property bytes mark a tabbed
/// container. Any read failure on the property itself is the caller's to
/// report; this function only inspects bytes already fetched.
pub fn is_tabbed_class(prop: &[u8]) -> (r: bool)
    ensures
        r == (prop@ == tabbed_class()),
{
    let sentinel: Vec<u8> = vec![116u8, 97u8, 98u8, 98u8, 101u8, 100u8, 0u8, 116u8, 97u8, 98u8, 98u8, 101u8, 100u8, 0u8];
    proof {
        assert(sentinel@ =~= tabbed_class());
    }
    bytes_eq(prop, sentinel.as_slice())
}

} // verus!
