//! Room identifiers: short random strings over the URL-safe alphabet.
use vstd::prelude::*;

verus! {

/// Number of characters in a generated room identifier.
pub const ROOM_ID_LEN: usize = 21;

/// A character of the URL-safe alphabet `A-Za-z0-9_-`.
pub open spec fn is_url_safe_char(c: char) -> bool {
    ||| c == '_'
    ||| c == '-'
    ||| ('0' <= c && c <= '9')
    ||| ('a' <= c && c <= 'z')
    ||| ('A' <= c && c <= 'Z')
}

/// A well-formed room identifier: `ROOM_ID_LEN` URL-safe characters.
pub open spec fn is_room_id(s: Seq<char>) -> bool {
    &&& s.len() == ROOM_ID_LEN
    &&& forall|i: int| 0 <= i < s.len() ==> is_url_safe_char(#[trigger] s[i])
}

/// Relies on `nanoid::format` with `nanoid::rngs::default` and
/// `nanoid::alphabet::SAFE`: it draws random bytes from the operating
/// system's generator until it has pushed `size` characters, each taken from
/// the 64-character alphabet `_-0-9a-zA-Z`. It never returns for size zero
/// (each round draws `8 * size / 5` bytes), so `size` is positive and small
/// enough for that product. A failure of the entropy source panics; the
/// process treats that as fatal.
#[verifier::external_body]
fn random_url_safe(size: usize) -> (r: String)
    requires
        0 < size <= usize::MAX / 8,
    ensures
        r@.len() == size,
        forall|i: int| 0 <= i < r@.len() ==> is_url_safe_char(#[trigger] r@[i]),
{
    nanoid::format(nanoid::rngs::default, &nanoid::alphabet::SAFE, size)
}

/// Draws a fresh random room identifier.
///
/// The result depends on the system's randomness; every outcome is a
/// well-formed identifier.
pub fn generate_room_id() -> (r: String)
    ensures
        is_room_id(r@),
{
    random_url_safe(ROOM_ID_LEN)
}

} // verus!
