//! What the standard library documents of the conversions that make a handle
//! out of a string slice or a `String`.

use vstd::prelude::*;

verus! {

/// `String::from` on a `&str`: the result holds the same characters.
pub assume_specification<'a>[ <String as std::convert::From<&'a str>>::from ](slice: &str) -> (string:
    String)
    ensures
        string@ == slice@,
;

/// `From` of a type for itself, which `Into` goes through where the handle already
/// is a `String`: it returns its argument unchanged.
pub assume_specification<Any>[ <Any as std::convert::From<Any>>::from ](value: Any) -> (same: Any)
    ensures
        same == value,
;

} // verus!
