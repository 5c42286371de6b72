//! Character-level building blocks: UTF-8 widths, byte offsets into a
//! character sequence, searching and splitting.
//!
//! The matcher keeps its text as sequences of `char`, but a few of its
//! operations index a string by bytes; the functions here describe exactly
//! which character a byte offset lands on, and when it lands on none.
use vstd::prelude::*;

verus! {

/// Number of bytes that `c` takes in UTF-8 (what `char::len_utf8` returns).
pub open spec fn char_width(c: char) -> int {
    if (c as u32) < 0x80 {
        1
    } else if (c as u32) < 0x800 {
        2
    } else if (c as u32) < 0x10000 {
        3
    } else {
        4
    }
}

/// Number of UTF-8 bytes of `s[k..]`.
pub open spec fn byte_len_from(s: Seq<char>, k: int) -> int
    decreases s.len() - k,
{
    if k < 0 || k >= s.len() {
        0
    } else {
        char_width(s[k]) + byte_len_from(s, k + 1)
    }
}

/// Number of UTF-8 bytes of `s` (what `str::len` returns).
pub open spec fn byte_len(s: Seq<char>) -> int {
    byte_len_from(s, 0)
}

/// The byte length of `s`, when it fits in a `usize`.
pub open spec fn byte_len_usize(s: Seq<char>) -> Option<usize> {
    if byte_len(s) <= usize::MAX {
        Some(byte_len(s) as usize)
    } else {
        None
    }
}

/// Scans `s` from character `k`, whose byte offset is `acc`, for the
/// character that starts at byte `b`.
pub open spec fn char_at_byte_from(s: Seq<char>, b: int, k: int, acc: int) -> Option<int>
    decreases s.len() - k,
{
    if acc == b {
        Some(k)
    } else if acc > b || k < 0 || k >= s.len() {
        None
    } else {
        char_at_byte_from(s, b, k + 1, acc + char_width(s[k]))
    }
}

/// The index of the character that starts at byte offset `b` of `s`
/// (`b` may also be the byte length of `s`); `None` when `b` is not a
/// character boundary of `s`.
pub open spec fn char_at_byte(s: Seq<char>, b: int) -> Option<int> {
    char_at_byte_from(s, b, 0, 0)
}

/// `&s[b..]` for a string `s` and a byte offset `b`: `None` where Rust panics.
pub open spec fn byte_suffix(s: Seq<char>, b: int) -> Option<Seq<char>> {
    match char_at_byte(s, b) {
        Some(k) => Some(s.skip(k)),
        None => None,
    }
}

/// `&s[a..b]` for a string `s` and byte offsets `a`, `b`: `None` where Rust panics.
pub open spec fn byte_slice(s: Seq<char>, a: int, b: int) -> Option<Seq<char>> {
    match (char_at_byte(s, a), char_at_byte(s, b)) {
        (Some(ka), Some(kb)) => if ka <= kb {
            Some(s.subrange(ka, kb))
        } else {
            None
        },
        _ => None,
    }
}

/// The character sequences held by a sequence of vectors.
pub open spec fn views_of(v: Seq<Vec<char>>) -> Seq<Seq<char>> {
    Seq::new(v.len(), |i: int| v[i]@)
}

/// First index `>= i` at which `c` occurs in `s`.
pub open spec fn index_of_from(s: Seq<char>, c: char, i: int) -> Option<int>
    decreases s.len() - i,
{
    if i < 0 || i >= s.len() {
        None
    } else if s[i] == c {
        Some(i)
    } else {
        index_of_from(s, c, i + 1)
    }
}

/// First index at which `c` occurs in `s` (what `position` finds).
pub open spec fn index_of(s: Seq<char>, c: char) -> Option<int> {
    index_of_from(s, c, 0)
}

/// Last index below `i` at which `c` occurs in `s`.
pub open spec fn last_index_before(s: Seq<char>, c: char, i: int) -> Option<int>
    decreases i,
{
    if i <= 0 || i > s.len() {
        None
    } else if s[i - 1] == c {
        Some(i - 1)
    } else {
        last_index_before(s, c, i - 1)
    }
}

/// `s.split(c)`: the pieces between occurrences of `c`, empty ones included.
pub open spec fn split_on(s: Seq<char>, c: char) -> Seq<Seq<char>>
    decreases s.len(),
{
    if s.len() == 0 {
        seq![Seq::empty()]
    } else {
        let rest = split_on(s.drop_last(), c);
        if s.last() == c {
            rest.push(Seq::empty())
        } else {
            rest.update(rest.len() - 1, rest.last().push(s.last()))
        }
    }
}

/// `s.split_inclusive(c)`: pieces that each end with `c`, except a last
/// piece that holds what follows the last `c`; no empty pieces.
pub open spec fn split_inclusive_on(s: Seq<char>, c: char) -> Seq<Seq<char>>
    decreases s.len(),
{
    if s.len() == 0 {
        Seq::empty()
    } else {
        let rest = split_inclusive_on(s.drop_last(), c);
        if rest.len() == 0 || rest.last().len() == 0 || rest.last().last() == c {
            rest.push(seq![s.last()])
        } else {
            rest.update(rest.len() - 1, rest.last().push(s.last()))
        }
    }
}

pub proof fn lemma_byte_len_from_nonneg(s: Seq<char>, k: int)
    ensures
        byte_len_from(s, k) >= 0,
        0 <= k < s.len() ==> byte_len_from(s, k) >= s.len() - k,
    decreases s.len() - k,
{
    if 0 <= k < s.len() {
        lemma_byte_len_from_nonneg(s, k + 1);
    }
}

/// A byte offset that lands on a character is at most the byte length.
pub proof fn lemma_char_at_byte_from_bound(s: Seq<char>, b: int, k: int, acc: int)
    requires
        0 <= k,
    ensures
        char_at_byte_from(s, b, k, acc) is Some ==> b <= acc + byte_len_from(s, k),
    decreases s.len() - k,
{
    lemma_byte_len_from_nonneg(s, k);
    if acc != b && !(acc > b || k >= s.len()) {
        lemma_char_at_byte_from_bound(s, b, k + 1, acc + char_width(s[k]));
    }
}

/// A byte offset that lands on a character is at most the byte length.
pub proof fn lemma_char_at_byte_bound(s: Seq<char>, b: int)
    ensures
        char_at_byte(s, b) is Some ==> b <= byte_len(s),
        byte_slice(s, b - 2, b) is Some ==> b <= byte_len(s),
{
    lemma_char_at_byte_from_bound(s, b, 0, 0);
}

/// UTF-8 width of one character.
pub fn utf8_width(c: char) -> (w: usize)
    ensures
        w == char_width(c),
        1 <= w <= 4,
{
    let u = c as u32;
    if u < 0x80 {
        1
    } else if u < 0x800 {
        2
    } else if u < 0x10000 {
        3
    } else {
        4
    }
}

/// Byte length of a character sequence, or `None` when it exceeds `usize`.
pub fn byte_length(s: &Vec<char>) -> (r: Option<usize>)
    ensures
        r == byte_len_usize(s@),
{
    let mut k: usize = s.len();
    let mut acc: usize = 0;
    // accumulate from the end: acc == byte_len_from(s, k)
    while k > 0
        invariant
            k <= s.len(),
            acc == byte_len_from(s@, k as int),
        decreases k,
    {
        let w = utf8_width(s[k - 1]);
        proof {
            lemma_byte_len_from_nonneg(s@, k as int);
        }
        if acc > usize::MAX - w {
            proof {
                lemma_byte_len_from_nonneg(s@, 0);
                lemma_byte_len_prefix_split(s@, 0, (k - 1) as int);
            }
            return None;
        }
        acc = acc + w;
        k = k - 1;
    }
    Some(acc)
}

/// `byte_len_from(s, i) >= byte_len_from(s, j)` for `i <= j`.
pub proof fn lemma_byte_len_prefix_split(s: Seq<char>, i: int, j: int)
    requires
        0 <= i <= j,
    ensures
        byte_len_from(s, i) >= byte_len_from(s, j),
    decreases j - i,
{
    lemma_byte_len_from_nonneg(s, j);
    if i < j {
        lemma_byte_len_prefix_split(s, i + 1, j);
        lemma_byte_len_from_nonneg(s, i + 1);
    }
}

/// The character index at byte offset `b` of `s`, as `char_at_byte` describes.
pub fn char_index_at_byte(s: &Vec<char>, b: usize) -> (r: Option<usize>)
    ensures
        r matches Some(k) ==> char_at_byte(s@, b as int) == Some(k as int) && k <= s.len(),
        r is None ==> char_at_byte(s@, b as int) is None,
{
    let mut k: usize = 0;
    let mut acc: usize = 0;
    while k < s.len() && acc < b
        invariant
            k <= s.len(),
            acc <= b,
            char_at_byte_from(s@, b as int, k as int, acc as int) == char_at_byte(s@, b as int),
        decreases s.len() - k,
    {
        let w = utf8_width(s[k]);
        if w > b - acc {
            assert(char_at_byte_from(s@, b as int, (k + 1) as int, acc + w) is None);
            return None;
        }
        acc = acc + w;
        k = k + 1;
    }
    if acc == b {
        Some(k)
    } else {
        None
    }
}

/// `s[from..]` as a new vector.
pub fn suffix_from(s: &Vec<char>, from: usize) -> (r: Vec<char>)
    requires
        from <= s.len(),
    ensures
        r@ == s@.skip(from as int),
{
    let mut r: Vec<char> = Vec::new();
    let mut i = from;
    while i < s.len()
        invariant
            from <= i <= s.len(),
            r@ == s@.subrange(from as int, i as int),
        decreases s.len() - i,
    {
        r.push(s[i]);
        i = i + 1;
    }
    r
}

/// `s[from..to]` as a new vector.
pub fn slice_of(s: &Vec<char>, from: usize, to: usize) -> (r: Vec<char>)
    requires
        from <= to <= s.len(),
    ensures
        r@ == s@.subrange(from as int, to as int),
{
    let mut r: Vec<char> = Vec::new();
    let mut i = from;
    while i < to
        invariant
            from <= i <= to <= s.len(),
            r@ == s@.subrange(from as int, i as int),
        decreases to - i,
    {
        r.push(s[i]);
        i = i + 1;
    }
    r
}

/// `&s[b..]` with a byte offset: `None` where Rust would panic.
pub fn suffix_at_byte(s: &Vec<char>, b: usize) -> (r: Option<Vec<char>>)
    ensures
        r matches Some(v) ==> byte_suffix(s@, b as int) == Some(v@),
        r is None ==> byte_suffix(s@, b as int) is None,
{
    match char_index_at_byte(s, b) {
        Some(k) => Some(suffix_from(s, k)),
        None => None,
    }
}

/// `&s[a..b]` with byte offsets: `None` where Rust would panic.
pub fn slice_at_bytes(s: &Vec<char>, a: usize, b: usize) -> (r: Option<Vec<char>>)
    ensures
        r matches Some(v) ==> byte_slice(s@, a as int, b as int) == Some(v@),
        r is None ==> byte_slice(s@, a as int, b as int) is None,
{
    let ka = char_index_at_byte(s, a);
    let kb = char_index_at_byte(s, b);
    match (ka, kb) {
        (Some(x), Some(y)) => {
            if x <= y {
                Some(slice_of(s, x, y))
            } else {
                None
            }
        },
        _ => None,
    }
}

/// First index at which `c` occurs in `s`.
pub fn find_char(s: &Vec<char>, c: char) -> (r: Option<usize>)
    ensures
        r matches Some(i) ==> index_of(s@, c) == Some(i as int) && i < s.len(),
        r is None ==> index_of(s@, c) is None,
{
    let mut i: usize = 0;
    while i < s.len()
        invariant
            i <= s.len(),
            index_of_from(s@, c, i as int) == index_of(s@, c),
        decreases s.len() - i,
    {
        if s[i] == c {
            return Some(i);
        }
        i = i + 1;
    }
    None
}

/// Last index below `end` at which `c` occurs in `s`.
pub fn find_last_char_before(s: &Vec<char>, c: char, end: usize) -> (r: Option<usize>)
    requires
        end <= s.len(),
    ensures
        r matches Some(i) ==> last_index_before(s@, c, end as int) == Some(i as int) && i < end,
        r is None ==> last_index_before(s@, c, end as int) is None,
{
    let mut i: usize = end;
    while i > 0
        invariant
            i <= end <= s.len(),
            last_index_before(s@, c, i as int) == last_index_before(s@, c, end as int),
        decreases i,
    {
        if s[i - 1] == c {
            return Some(i - 1);
        }
        i = i - 1;
    }
    None
}

/// `s.split(c)`, each piece as a vector.
pub fn split_chars(s: &Vec<char>, c: char) -> (r: Vec<Vec<char>>)
    ensures
        views_of(r@) == split_on(s@, c),
{
    let mut done: Vec<Vec<char>> = Vec::new();
    let mut cur: Vec<char> = Vec::new();
    let mut i: usize = 0;
    assert(s@.take(0) =~= Seq::<char>::empty());
    assert(views_of(done@).push(cur@) =~= split_on(s@.take(0), c));
    while i < s.len()
        invariant
            i <= s.len(),
            views_of(done@).push(cur@) == split_on(s@.take(i as int), c),
        decreases s.len() - i,
    {
        let x = s[i];
        let ghost before = views_of(done@).push(cur@);
        assert(s@.take(i + 1).drop_last() =~= s@.take(i as int));
        assert(s@.take(i + 1).last() == x);
        if x == c {
            let finished = cur;
            done.push(finished);
            cur = Vec::new();
            assert(views_of(done@).push(cur@) =~= before.push(Seq::empty()));
        } else {
            cur.push(x);
            assert(views_of(done@).push(cur@) =~= before.update(
                before.len() - 1,
                before.last().push(x),
            ));
        }
        i = i + 1;
    }
    assert(s@.take(s.len() as int) =~= s@);
    done.push(cur);
    done
}

/// `s.split_inclusive(c)`, each piece as a vector.
pub fn split_chars_inclusive(s: &Vec<char>, c: char) -> (r: Vec<Vec<char>>)
    ensures
        views_of(r@) == split_inclusive_on(s@, c),
{
    let mut done: Vec<Vec<char>> = Vec::new();
    let mut cur: Vec<char> = Vec::new();
    let mut i: usize = 0;
    assert(s@.take(0) =~= Seq::<char>::empty());
    assert(views_of(done@) =~= split_inclusive_on(s@.take(0), c));
    while i < s.len()
        invariant
            i <= s.len(),
            forall|j: int|
                0 <= j < done.len() ==> (#[trigger] views_of(done@)[j]).len() > 0
                    && views_of(done@)[j].last() == c,
            cur@.len() == 0 || cur@.last() != c,
            (if cur@.len() == 0 {
                views_of(done@)
            } else {
                views_of(done@).push(cur@)
            }) == split_inclusive_on(s@.take(i as int), c),
        decreases s.len() - i,
    {
        let x = s[i];
        let ghost before = if cur@.len() == 0 {
            views_of(done@)
        } else {
            views_of(done@).push(cur@)
        };
        let ghost cur_before = cur@;
        assert(s@.take(i + 1).drop_last() =~= s@.take(i as int));
        assert(s@.take(i + 1).last() == x);
        cur.push(x);
        assert(cur_before.len() == 0 ==> cur@ =~= seq![x]);
        if x == c {
            let finished = cur;
            done.push(finished);
            cur = Vec::new();
        }
        let ghost after = if cur@.len() == 0 {
            views_of(done@)
        } else {
            views_of(done@).push(cur@)
        };
        proof {
            if before.len() == 0 || before.last().len() == 0 || before.last().last() == c {
                assert(cur_before.len() == 0);
                assert(after =~= before.push(seq![x]));
            } else {
                assert(after =~= before.update(before.len() - 1, before.last().push(x)));
            }
        }
        i = i + 1;
    }
    assert(s@.take(s.len() as int) =~= s@);
    if cur.len() > 0 {
        done.push(cur);
    }
    done
}

/// The characters of a string slice.
pub fn chars_of(s: &str) -> (r: Vec<char>)
    ensures
        r@ == s@,
{
    let n = s.unicode_len();
    let mut r: Vec<char> = Vec::new();
    let mut i: usize = 0;
    while i < n
        invariant
            n == s@.len(),
            i <= n,
            r@ == s@.take(i as int),
        decreases n - i,
    {
        r.push(s.get_char(i));
        assert(r@ =~= s@.take(i + 1));
        i = i + 1;
    }
    assert(r@ =~= s@);
    r
}

/// `String::push`: appends one character to a string.
#[verifier::external_body]
fn push_char(s: &mut String, c: char)
    ensures
        final(s)@ == old(s)@.push(c),
{
    s.push(c);
}

/// A string holding the given characters.
pub fn string_of(v: &Vec<char>) -> (r: String)
    ensures
        r@ == v@,
{
    let mut r = String::new();
    let mut i: usize = 0;
    while i < v.len()
        invariant
            i <= v.len(),
            r@ == v@.take(i as int),
        decreases v.len() - i,
    {
        push_char(&mut r, v[i]);
        assert(r@ =~= v@.take(i + 1));
        i = i + 1;
    }
    assert(r@ =~= v@);
    r
}

} // verus!
