//! Characters of file names and timestamp lines.
use vstd::prelude::*;
use vstd::utf8::is_ascii_chars;

verus! {

/// An ASCII decimal digit.
pub open spec fn is_digit(c: char) -> bool {
    '0' <= c <= '9'
}

/// The value of a decimal digit.
pub open spec fn digit(c: char) -> int {
    c as int - '0' as int
}

/// The bytes of `s`, one for each character, when `s` is ASCII.
pub fn ascii_bytes(s: &str) -> (r: Option<&[u8]>)
    ensures
        match r {
            Some(b) => is_ascii_chars(s@) && b@.len() == s@.len() && forall|i: int|
                0 <= i < s@.len() ==> b@[i] == s@[i] as u8 && s@[i] as int == b@[i] as int,
            None => !is_ascii_chars(s@),
        },
{
    if s.is_ascii() {
        proof {
            vstd::utf8::is_ascii_chars_encode_utf8(s@);
        }
        let b = s.as_bytes();
        assert forall|i: int| 0 <= i < s@.len() implies b@[i] == s@[i] as u8 && s@[i] as int
            == b@[i] as int by {
            assert('\0' <= s@[i] <= '\u{7f}');
        }
        Some(b)
    } else {
        None
    }
}

/// Whether byte `c` is an ASCII decimal digit.
pub fn byte_is_digit(c: u8) -> (r: bool)
    ensures
        r == (48 <= c <= 57),
{
    48 <= c && c <= 57
}

} // verus!
