//! Character-level building of owned strings.
use vstd::prelude::*;

verus! {

/// Appends one scalar to `s` (calls `String::push`, which vstd does not
/// specify). Trusted: the result is the old content followed by `c`.
#[verifier::external_body]
pub(crate) fn push_char(s: &mut String, c: char)
    ensures
        final(s)@ == old(s)@.push(c),
{
    s.push(c);
}

} // verus!

verus! {

/// The UTF-8 length of `s` (calls `str::len`). Trusted: besides the length
/// that vstd states, a `str` never spans more than `isize::MAX` bytes, as
/// Rust documents for every slice.
#[verifier::external_body]
pub(crate) fn str_byte_len(s: &str) -> (n: usize)
    ensures
        n == crate::change::byte_len(s@),
        n <= isize::MAX,
{
    s.len()
}

} // verus!
