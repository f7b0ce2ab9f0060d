//! Small string helpers over std's `String`.
use vstd::prelude::*;
use vstd::string::StringExecFns;

verus! {

/// Appends one character to a string: std's `String::push`, which the
/// documentation describes as appending the given `char` to the end.
#[verifier::external_body]
pub(crate) fn push_char(s: &mut String, c: char)
    ensures
        final(s)@ == old(s)@.push(c),
{
    s.push(c);
}

/// Appends a string slice.
pub(crate) fn push_text(s: &mut String, t: &str)
    ensures
        final(s)@ == old(s)@ + t@,
{
    s.append(t);
}

} // verus!
