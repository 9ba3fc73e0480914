//! Character classes of the token grammar.

use vstd::prelude::*;

verus! {

/// The Unicode word characters, as `regex_syntax::is_word_character` tells them.
pub uninterp spec fn word_class(c: char) -> bool;

/// A character that ends a value and that trimming removes: one of the
/// 25 characters with the Unicode property White_Space.
pub open spec fn is_space(c: char) -> bool {
    let n = c as u32;
    ||| 0x09 <= n <= 0x0D
    ||| n == 0x20
    ||| n == 0x85
    ||| n == 0xA0
    ||| n == 0x1680
    ||| 0x2000 <= n <= 0x200A
    ||| n == 0x2028
    ||| n == 0x2029
    ||| n == 0x202F
    ||| n == 0x205F
    ||| n == 0x3000
}

/// A character that may stand as a key: a word character that is no space.
pub open spec fn key_char(c: char) -> bool {
    word_class(c) && !is_space(c)
}

/// A character that may stand in a value under delimiter `d`.
pub open spec fn value_char(c: char, d: char) -> bool {
    c != d && !is_space(c)
}

/// Calls `regex_syntax::is_word_character`, which looks the character up in
/// the table of Unicode word characters. Trusted: the answer is the class
/// named `word_class`, a function of the character alone. The call panics
/// only when the crate is built without its Unicode tables; they are part
/// of its default features, which this crate keeps.
#[verifier::external_body]
pub(crate) fn in_word_class(c: char) -> (r: bool)
    ensures
        r == word_class(c),
{
    regex_syntax::is_word_character(c)
}

/// Tells whether `c` is a space.
pub fn space(c: char) -> (r: bool)
    ensures
        r == is_space(c),
{
    let n: u32 = c as u32;
    (0x09 <= n && n <= 0x0D) || n == 0x20 || n == 0x85 || n == 0xA0 || n == 0x1680 || (0x2000 <= n
        && n <= 0x200A) || n == 0x2028 || n == 0x2029 || n == 0x202F || n == 0x205F || n == 0x3000
}

/// Tells whether `c` may stand as a key.
pub fn permitted_key(c: char) -> (r: bool)
    ensures
        r == key_char(c),
{
    in_word_class(c) && !space(c)
}

/// Tells whether `c` may stand in a value under delimiter `d`.
pub fn permitted_in_value(c: char, d: char) -> (r: bool)
    ensures
        r == value_char(c, d),
{
    c != d && !space(c)
}

} // verus!
