//! Character tests used by bracket groups (`[abc]`, `[^abc]`) and by the
//! escapes `\d` and `\w`, and the search for the first character that
//! passes one of them.
use vstd::prelude::*;

verus! {

/// What `char::is_alphanumeric` returns for `c` (the Unicode Alphabetic or
/// Numeric property).
pub uninterp spec fn is_alphanumeric_char(c: char) -> bool;

/// An ASCII letter or digit.
pub open spec fn is_ascii_alphanumeric_char(c: char) -> bool {
    ('a' <= c && c <= 'z') || ('A' <= c && c <= 'Z') || ('0' <= c && c <= '9')
}

/// Calls `char::is_alphanumeric`. Its result is named `is_alphanumeric_char`;
/// on ASCII characters it is true exactly for letters and digits, as the
/// Unicode tables that the standard library documents give it. Nothing is
/// stated of other characters.
#[verifier::external_body]
fn alphanumeric(c: char) -> (r: bool)
    ensures
        r == is_alphanumeric_char(c),
        (c as u32) < 0x80 ==> (r <==> is_ascii_alphanumeric_char(c)),
{
    c.is_alphanumeric()
}

/// What `char::is_digit(10)` returns: an ASCII decimal digit.
pub open spec fn is_ascii_digit(c: char) -> bool {
    '0' <= c && c <= '9'
}

/// The value of an ASCII decimal digit.
pub open spec fn digit_value(c: char) -> int {
    (c as int) - ('0' as int)
}

/// A character of `\w`: alphanumeric or an underscore.
pub open spec fn is_word_char(c: char) -> bool {
    is_alphanumeric_char(c) || c == '_'
}

/// The four tests a character can be put to.
#[derive(Clone, Copy, PartialEq, Eq)]
pub enum CharTest {
    /// one of a set (`[abc]`)
    Among,
    /// none of a set (`[^abc]`)
    NotAmong,
    /// `\d`
    Digit,
    /// `\w`
    Word,
}

/// Whether `c` passes test `t` with character set `set`.
pub open spec fn passes(t: CharTest, set: Seq<char>, c: char) -> bool {
    match t {
        CharTest::Among => set.contains(c),
        CharTest::NotAmong => !set.contains(c),
        CharTest::Digit => is_ascii_digit(c),
        CharTest::Word => is_word_char(c),
    }
}

/// First index `>= i` of `s` whose character passes the test.
pub open spec fn first_passing_from(s: Seq<char>, t: CharTest, set: Seq<char>, i: int) -> Option<int>
    decreases s.len() - i,
{
    if i < 0 || i >= s.len() {
        None
    } else if passes(t, set, s[i]) {
        Some(i)
    } else {
        first_passing_from(s, t, set, i + 1)
    }
}

/// First index of `s` whose character passes the test.
pub open spec fn first_passing(s: Seq<char>, t: CharTest, set: Seq<char>) -> Option<int> {
    first_passing_from(s, t, set, 0)
}

/// Whether `set` holds `c`.
pub fn contains_char(set: &Vec<char>, c: char) -> (r: bool)
    ensures
        r == set@.contains(c),
{
    let mut i: usize = 0;
    while i < set.len()
        invariant
            i <= set.len(),
            forall|j: int| 0 <= j < i ==> set@[j] != c,
        decreases set.len() - i,
    {
        if set[i] == c {
            return true;
        }
        i = i + 1;
    }
    false
}

/// `char::is_digit(10)`.
pub fn digit(c: char) -> (r: bool)
    ensures
        r == is_ascii_digit(c),
{
    '0' <= c && c <= '9'
}

/// Whether `c` passes test `t` with character set `set`.
pub fn test_char(t: CharTest, set: &Vec<char>, c: char) -> (r: bool)
    ensures
        r == passes(t, set@, c),
{
    match t {
        CharTest::Among => contains_char(set, c),
        CharTest::NotAmong => !contains_char(set, c),
        CharTest::Digit => digit(c),
        CharTest::Word => alphanumeric(c) || c == '_',
    }
}

/// Index of the first character of `s` from `from` on that passes the test,
/// counted from `from`.
pub fn find_passing(s: &Vec<char>, from: usize, t: CharTest, set: &Vec<char>) -> (r: Option<usize>)
    requires
        from <= s.len(),
    ensures
        r matches Some(i) ==> first_passing(s@.skip(from as int), t, set@) == Some(i as int) && i
            < s.len() - from,
        r is None ==> first_passing(s@.skip(from as int), t, set@) is None,
{
    let ghost rest = s@.skip(from as int);
    let mut i: usize = from;
    while i < s.len()
        invariant
            from <= i <= s.len(),
            rest == s@.skip(from as int),
            first_passing_from(rest, t, set@, i - from) == first_passing(rest, t, set@),
        decreases s.len() - i,
    {
        if test_char(t, set, s[i]) {
            return Some(i - from);
        }
        i = i + 1;
    }
    None
}

} // verus!
