//! The document's storage: a `crop::Rope`, seen by the proofs as its UTF-8 bytes.
use vstd::prelude::*;
use vstd::utf8::*;
use crate::wrap::next_boundary;

verus! {

#[verifier::external_type_specification]
#[verifier::external_body]
pub struct ExRope(crop::Rope);

/// The bytes that a rope holds, in order.
pub uninterp spec fn rope_bytes(r: crop::Rope) -> Seq<u8>;

/// Relies on `crop::Rope::from(&str)`: the rope holds the string's bytes.
#[verifier::external_body]
pub(crate) fn rope_from_str(s: &str) -> (r: crop::Rope)
    ensures
        rope_bytes(r) == encode_utf8(s@),
{
    crop::Rope::from(s)
}

/// Relies on `crop::Rope::byte_len`: the number of bytes held.
#[verifier::external_body]
pub(crate) fn rope_byte_len(r: &crop::Rope) -> (n: usize)
    ensures
        n == rope_bytes(*r).len(),
{
    r.byte_len()
}

/// Relies on `crop::Rope::byte`: the byte at an offset (it panics past the end).
#[verifier::external_body]
pub(crate) fn rope_byte(r: &crop::Rope, i: usize) -> (b: u8)
    requires
        i < rope_bytes(*r).len(),
    ensures
        b == rope_bytes(*r)[i as int],
{
    r.byte(i)
}

/// Relies on `crop::Rope::is_char_boundary`: whether an offset starts a character
/// or is the end (it panics past the end).
#[verifier::external_body]
pub(crate) fn rope_is_char_boundary(r: &crop::Rope, i: usize) -> (b: bool)
    requires
        i <= rope_bytes(*r).len(),
        valid_utf8(rope_bytes(*r)),
    ensures
        b == is_char_boundary(rope_bytes(*r), i as int),
{
    r.is_char_boundary(i)
}

/// Relies on `crop::Rope::byte_slice` and `RopeSlice::chars`: the character
/// that begins at a boundary (the slice panics off a boundary).
#[verifier::external_body]
pub(crate) fn rope_char_at(r: &crop::Rope, i: usize) -> (c: Option<char>)
    requires
        valid_utf8(rope_bytes(*r)),
        i < rope_bytes(*r).len(),
        is_char_boundary(rope_bytes(*r), i as int),
    ensures
        c is Some,
        encode_utf8(seq![c->Some_0]) == rope_bytes(*r).subrange(i as int, next_boundary(rope_bytes(*r), i as int)),
{
    r.byte_slice(i..).chars().next()
}

/// Relies on `crop::Rope::insert`: the text is spliced in at a character boundary
/// (it panics elsewhere).
#[verifier::external_body]
pub(crate) fn rope_insert(r: &mut crop::Rope, at: usize, text: &str)
    requires
        valid_utf8(rope_bytes(*old(r))),
        at <= rope_bytes(*old(r)).len(),
        is_char_boundary(rope_bytes(*old(r)), at as int),
    ensures
        rope_bytes(*final(r)) == rope_bytes(*old(r)).subrange(0, at as int) + encode_utf8(text@)
            + rope_bytes(*old(r)).subrange(at as int, rope_bytes(*old(r)).len() as int),
{
    r.insert(at, text)
}

/// Relies on `crop::Rope::delete`: the byte range between two character
/// boundaries is removed (it panics otherwise).
#[verifier::external_body]
pub(crate) fn rope_delete(r: &mut crop::Rope, start: usize, end: usize)
    requires
        valid_utf8(rope_bytes(*old(r))),
        start <= end <= rope_bytes(*old(r)).len(),
        is_char_boundary(rope_bytes(*old(r)), start as int),
        is_char_boundary(rope_bytes(*old(r)), end as int),
    ensures
        rope_bytes(*final(r)) == rope_bytes(*old(r)).subrange(0, start as int) + rope_bytes(
            *old(r),
        ).subrange(end as int, rope_bytes(*old(r)).len() as int),
{
    r.delete(start..end)
}

/// Relies on `crop::Rope::byte_slice` and its `Display`: the text between two
/// character boundaries, as a `String`.
#[verifier::external_body]
pub(crate) fn rope_slice_string(r: &crop::Rope, start: usize, end: usize) -> (s: String)
    requires
        valid_utf8(rope_bytes(*r)),
        start <= end <= rope_bytes(*r).len(),
        is_char_boundary(rope_bytes(*r), start as int),
        is_char_boundary(rope_bytes(*r), end as int),
    ensures
        encode_utf8(s@) == rope_bytes(*r).subrange(start as int, end as int),
{
    r.byte_slice(start..end).to_string()
}

} // verus!
