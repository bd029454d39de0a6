//! What the library takes on trust of the standard library's strings.

use vstd::prelude::*;

verus! {

/// `String::push` of the standard library appends one character: the string
/// afterwards is the string before with `c` at its end. This is taken from
/// the documentation of `push`; it is not proved here.
pub assume_specification[ String::push ](s: &mut String, c: char)
    ensures
        final(s)@ == old(s)@.push(c),
;

} // verus!
