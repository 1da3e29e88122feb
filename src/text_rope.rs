//! The linear buffer's rope, reached through ropey.

use vstd::prelude::*;

use ropey::Rope;

verus! {

/// ropey's rope, whose contents the library reads only through the
/// functions below.
#[verifier::external_type_specification]
#[verifier::external_body]
pub struct ExRope(ropey::Rope);

/// The characters that a rope holds.
pub uninterp spec fn rope_chars(r: Rope) -> Seq<char>;

/// Relies on `ropey::Rope::new`: an empty rope.
#[verifier::external_body]
pub(crate) fn rope_new() -> (r: Rope)
    ensures
        rope_chars(r) == Seq::<char>::empty(),
{
    Rope::new()
}

/// Relies on `ropey::Rope::from_str`: a rope holding the characters of `text`.
#[verifier::external_body]
pub(crate) fn rope_from_str(text: &str) -> (r: Rope)
    ensures
        rope_chars(r) == text@,
{
    Rope::from_str(text)
}

/// Relies on `ropey::Rope::len_chars`: the number of characters held.
#[verifier::external_body]
pub(crate) fn rope_len_chars(r: &Rope) -> (n: usize)
    ensures
        n == rope_chars(*r).len(),
{
    r.len_chars()
}

/// Relies on `ropey::Rope::insert`: `text` spliced in at character index
/// `char_idx`; it panics past the end, which `requires` rules out.
#[verifier::external_body]
pub(crate) fn rope_insert(r: &mut Rope, char_idx: usize, text: &str)
    requires
        char_idx <= rope_chars(*old(r)).len(),
    ensures
        rope_chars(*final(r)) == rope_chars(*old(r)).take(char_idx as int) + text@ + rope_chars(
            *old(r),
        ).skip(char_idx as int),
{
    r.insert(char_idx, text)
}

/// Relies on `ropey::Rope::remove`: the characters in `[start, end)` taken
/// out; it panics on a reversed or out-of-bounds range, which `requires`
/// rules out.
#[verifier::external_body]
pub(crate) fn rope_remove(r: &mut Rope, start: usize, end: usize)
    requires
        start <= end <= rope_chars(*old(r)).len(),
    ensures
        rope_chars(*final(r)) == rope_chars(*old(r)).take(start as int) + rope_chars(
            *old(r),
        ).skip(end as int),
{
    r.remove(start..end)
}

/// Relies on `ropey::Rope::slice`: the characters in `[start, end)`, copied
/// into a `String`; it panics on a reversed or out-of-bounds range, which
/// `requires` rules out.
#[verifier::external_body]
pub(crate) fn rope_slice_string(r: &Rope, start: usize, end: usize) -> (s: String)
    requires
        start <= end <= rope_chars(*r).len(),
    ensures
        s@ == rope_chars(*r).subrange(start as int, end as int),
{
    r.slice(start..end).to_string()
}

/// Relies on `ropey::Rope`'s `Display`: all characters, copied into a
/// `String`.
#[verifier::external_body]
pub(crate) fn rope_to_string(r: &Rope) -> (s: String)
    ensures
        s@ == rope_chars(*r),
{
    r.to_string()
}

} // verus!
