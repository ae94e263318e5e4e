//! Hex colour codes, as a tag's colour must be written.

use crate::model::{TagsError, TagsResult};
use vstd::prelude::*;
use vstd::string::*;

verus! {

/// What `str::trim` leaves of `s`.
pub uninterp spec fn trimmed(s: Seq<char>) -> Seq<char>;

/// Relies on `str::trim`: the text without its leading and trailing
/// whitespace, which depends on the characters alone.
#[verifier::external_body]
pub(crate) fn trim_str(s: &str) -> (r: &str)
    ensures
        r@ == trimmed(s@),
{
    s.trim()
}

/// Whether `c` is a hexadecimal digit, in either case.
pub open spec fn is_hex_digit(c: char) -> bool {
    ('0' <= c && c <= '9') || ('a' <= c && c <= 'f') || ('A' <= c && c <= 'F')
}

/// Whether `t` is a colour code: `#` and then 3, 6 or 8 hex digits.
pub open spec fn is_color_code(t: Seq<char>) -> bool {
    &&& t.len() == 4 || t.len() == 7 || t.len() == 9
    &&& t[0] == '#'
    &&& forall|i: int| 1 <= i < t.len() ==> is_hex_digit(#[trigger] t[i])
}

/// Whether the colour written as `color` is accepted once trimmed.
pub open spec fn color_accepted(color: Seq<char>) -> bool {
    is_color_code(trimmed(color))
}

/// Whether `t`, taken as it is, is a colour code (`#RGB`, `#RRGGBB` or `#RRGGBBAA`).
pub fn is_color_code_str(t: &str) -> (r: bool)
    ensures
        r == is_color_code(t@),
{
    let n = t.unicode_len();
    if n != 4 && n != 7 && n != 9 {
        return false;
    }
    if t.get_char(0) != '#' {
        return false;
    }
    let mut i: usize = 1;
    while i < n
        invariant
            n == t@.len(),
            1 <= i <= n,
            forall|k: int| 1 <= k < i ==> is_hex_digit(#[trigger] t@[k]),
        decreases n - i,
    {
        let c = t.get_char(i);
        if !(('0' <= c && c <= '9') || ('a' <= c && c <= 'f') || ('A' <= c && c <= 'F')) {
            return false;
        }
        i = i + 1;
    }
    true
}

/// Checks that `color`, once surrounding whitespace is trimmed, is a hex
/// colour code; fails with `InvalidColor` holding `color` otherwise.
pub fn validate_color(color: &str) -> (r: TagsResult<()>)
    ensures
        color_accepted(color@) ==> r is Ok,
        !color_accepted(color@) ==> (r matches Err(TagsError::InvalidColor(c)) && c@ == color@),
{
    let t = trim_str(color);
    if is_color_code_str(t) {
        Ok(())
    } else {
        Err(TagsError::InvalidColor(String::from_str(color)))
    }
}

} // verus!
