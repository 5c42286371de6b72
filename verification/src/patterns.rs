//! Reading sub-patterns: whether the first one is optional, and which one
//! comes first.
use vstd::prelude::*;
use crate::model::{
    check_optional_spec, close_offset_from, is_optional_marker, next_pattern, next_pattern_from,
    skip_backslash_bytes, skip_backslashes,
};
use crate::text::{
    byte_length, find_char, find_last_char_before, lemma_char_at_byte_bound, slice_at_bytes,
    slice_of, suffix_from,
};

verus! {

/// Whether `c` is `*` or `?`.
pub fn optional_marker(c: char) -> (r: bool)
    ensures
        r == is_optional_marker(c),
{
    c == '*' || c == '?'
}

/// From `k`, skips each backslash that another backslash follows.
pub fn skip_doubled_backslashes(p: &Vec<char>, k: usize) -> (r: Option<usize>)
    ensures
        r matches Some(j) ==> skip_backslashes(p@, k as int) == Some(j as int) && j + 1 < p.len(),
        r is None ==> skip_backslashes(p@, k as int) is None,
{
    let mut j = k;
    loop
        invariant
            k <= j,
            skip_backslashes(p@, j as int) == skip_backslashes(p@, k as int),
        decreases p.len() - j,
    {
        if j >= p.len() || p.len() - j < 2 {
            return None;
        }
        if p[j + 1] == '\\' {
            j = j + 1;
        } else {
            return Some(j);
        }
    }
}

/// Offset, in `p[1..]`, of the `)` that closes the group opened at `p[0]`;
/// zero when there is none.
pub fn close_offset(p: &Vec<char>) -> (r: usize)
    requires
        p.len() >= 1,
    ensures
        r == close_offset_from(p@.skip(1), 0, 1),
        r < p.len(),
{
    let ghost rem = p@.skip(1);
    let mut i: usize = 0;
    let mut n: usize = 1;
    while i + 1 < p.len()
        invariant
            rem == p@.skip(1),
            i + 1 <= p.len(),
            1 <= n <= i + 1,
            close_offset_from(rem, i as int, n as int) == close_offset_from(rem, 0, 1),
        decreases p.len() - i,
    {
        let e = p[i + 1];
        let n1 = if e == '(' {
            n + 1
        } else {
            n
        };
        if e == ')' && n1 == 1 {
            return i;
        }
        n = if e == ')' && n1 > 1 {
            n1 - 1
        } else {
            n1
        };
        i = i + 1;
    }
    0
}

/// `check_optional`, or `None` where it panics.
pub fn check_optional_chars(p: &Vec<char>) -> (r: Option<bool>)
    ensures
        r == check_optional_spec(p@),
{
    let plen = match byte_length(p) {
        Some(n) => n,
        None => return None,
    };
    if p.len() == 0 {
        return None;
    }
    if p[0] == '[' {
        let rem = suffix_from(p, 1);
        match find_char(&rem, ']') {
            None => Some(false),
            Some(e) => {
                let op = e + 2;
                if op < plen {
                    if op < p.len() {
                        Some(optional_marker(p[op]))
                    } else {
                        None
                    }
                } else {
                    Some(false)
                }
            },
        }
    } else if p[0] == '(' {
        let rem = suffix_from(p, 1);
        match find_char(&rem, ')') {
            None => Some(false),
            Some(_) => {
                let cbi = close_offset(p) + 1;
                if plen > cbi {
                    if cbi < p.len() {
                        Some(optional_marker(p[cbi]))
                    } else {
                        None
                    }
                } else {
                    Some(false)
                }
            },
        }
    } else if p[0] == '\\' {
        match skip_doubled_backslashes(p, 0) {
            None => None,
            Some(k) => {
                if p.len() - k < 2 {
                    None
                } else if k + 2 < plen {
                    if k + 2 < p.len() {
                        Some(optional_marker(p[k + 2]))
                    } else {
                        None
                    }
                } else {
                    Some(false)
                }
            },
        }
    } else {
        let k: usize = if p[0] == '?' {
            1
        } else {
            0
        };
        if k + 1 >= p.len() {
            None
        } else {
            Some(k + 1 < plen && optional_marker(p[k + 1]))
        }
    }
}

/// The backslash loop of `get_next_pattern`.
pub fn skip_backslash_slices(p: &Vec<char>, plen: usize, k: usize) -> (r: Option<usize>)
    requires
        k < plen,
    ensures
        r matches Some(j) ==> skip_backslash_bytes(p@, plen as int, k as int) == Some(j as int)
            && j < plen && k <= j,
        r is None ==> skip_backslash_bytes(p@, plen as int, k as int) is None,
{
    let mut j = k;
    loop
        invariant
            k <= j < plen,
            skip_backslash_bytes(p@, plen as int, j as int) == skip_backslash_bytes(
                p@,
                plen as int,
                k as int,
            ),
        decreases plen - j,
    {
        if j < plen && plen - j > 1 {
            match slice_at_bytes(p, j + 1, j + 2) {
                None => return None,
                Some(q) => {
                    if q.len() == 1 && q[0] == '\\' {
                        assert(q@ =~= seq!['\\']);
                        j = j + 1;
                    } else {
                        assert(q@ != seq!['\\']) by {
                            if q@ == seq!['\\'] {
                                assert(q@.len() == 1 && q@[0] == '\\');
                            }
                        }
                        return Some(j);
                    }
                },
            }
        } else {
            assert(j + 1 >= plen);
            return Some(j);
        }
    }
}

/// `get_next_pattern`, or `None` where it panics or loops for ever.
pub fn next_pattern_chars(p: &Vec<char>) -> (r: Option<Vec<char>>)
    ensures
        r matches Some(v) ==> next_pattern(p@) == Some(v@),
        r is None ==> next_pattern(p@) is None,
{
    let plen = match byte_length(p) {
        Some(n) => n,
        None => return None,
    };
    let mut k: usize = 0;
    while k < plen
        invariant
            next_pattern(p@) == next_pattern_from(p@, plen as int, k as int),
        decreases plen - k,
    {
        if k >= p.len() {
            return None;
        }
        let c = p[k];
        if c == '[' {
            let rem = suffix_from(p, k + 1);
            match find_char(&rem, ']') {
                None => return None,
                Some(e) => return slice_at_bytes(p, k, k + e + 2),
            }
        } else if c == '\\' {
            match skip_backslash_slices(p, plen, k) {
                None => return None,
                Some(j) => {
                    if j > usize::MAX - 2 {
                        proof {
                            lemma_char_at_byte_bound(p@, j + 2);
                        }
                        return None;
                    }
                    return slice_at_bytes(p, j, j + 2);
                },
            }
        } else if c == '(' {
            let rem = suffix_from(p, k + 1);
            match find_char(&rem, ')') {
                None => return None,
                Some(e) => {
                    let first_start = match find_last_char_before(&rem, '(', e) {
                        Some(j) => k + 1 + j,
                        None => k,
                    };
                    return Some(slice_of(p, first_start + 1, k + 1 + e));
                },
            }
        } else if c == '^' || c == '+' || c == ']' || c == ')' {
            k = k + 1;
        } else {
            return slice_at_bytes(p, k, k + 1);
        }
    }
    Some(Vec::new())
}

} // verus!
