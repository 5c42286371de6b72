//! What the matcher computes, stated as spec functions.
//!
//! The matcher reads a pattern left to right against an input line. Its
//! state is the pattern position `pi`, the input position `ii`, the last
//! sub-pattern read (`prev`, which `+` repeats), the capture groups seen so
//! far and the queue of groups that wait for their captured text.
//!
//! Every function here returns an `Option`: `None` stands for a run of the
//! matcher that panics (an index out of range, an `unwrap` of nothing, an
//! arithmetic overflow, a string sliced off a character boundary) or that
//! does not finish within the step budget `fuel`. Each function that can
//! loop or call the matcher again spends one unit of `fuel` per call.
use vstd::prelude::*;
use crate::classes::{CharTest, digit_value, first_passing, is_ascii_digit};
use crate::text::{
    byte_len_usize, byte_slice, byte_suffix, index_of, last_index_before, split_inclusive_on,
    split_on,
};

verus! {

/// A capture group as far as it decides a match: whether its `)` has been
/// read (the matcher records the positions of both brackets, and reads of
/// them only whether the `)` position is still zero), and the text it
/// captured.
pub type Group = (bool, Seq<char>);

/// What a match reports: whether it matched, a length of input, and text.
pub type Outcome = (bool, Option<usize>, Seq<char>);

/// The report of a failed match.
pub open spec fn no_match() -> Outcome {
    (false, None, Seq::empty())
}

/// The step budget of the public matching functions.
pub open spec fn match_budget() -> nat {
    u64::MAX as nat
}

/// `a + b` in `usize`, or `None` where it overflows.
pub open spec fn add_usize(a: int, b: int) -> Option<usize> {
    if 0 <= a + b <= usize::MAX {
        Some((a + b) as usize)
    } else {
        None
    }
}

/// `*` and `?` make the sub-pattern before them optional.
pub open spec fn is_optional_marker(c: char) -> bool {
    c == '*' || c == '?'
}

/// A pattern and an input line under match, and whether a match of a prefix
/// of the input suffices.
pub struct Subject {
    pub input: Seq<char>,
    pub patt: Seq<char>,
    pub full: bool,
}

/// The matcher's state between two steps.
pub struct MatchState {
    pub pi: usize,
    pub ii: usize,
    pub prev: Seq<char>,
    pub groups: Seq<Group>,
    pub waiting: Seq<usize>,
}

/// The result of one step: go on from a state, or stop with an outcome.
pub enum Step {
    Next(MatchState),
    Done(Outcome),
}

pub open spec fn state(
    pi: usize,
    ii: usize,
    prev: Seq<char>,
    groups: Seq<Group>,
    waiting: Seq<usize>,
) -> MatchState {
    MatchState { pi, ii, prev, groups, waiting }
}

/// From `k`, skips the backslashes that are followed by another backslash.
pub open spec fn skip_backslashes(p: Seq<char>, k: int) -> Option<int>
    decreases p.len() - k,
{
    if k < 0 || k + 1 >= p.len() {
        None
    } else if p[k + 1] == '\\' {
        skip_backslashes(p, k + 1)
    } else {
        Some(k)
    }
}

/// Offset in `rem` of the `)` that closes a group opened just before `rem`,
/// with `n` groups open; zero when there is none.
pub open spec fn close_offset_from(rem: Seq<char>, i: int, n: int) -> int
    decreases rem.len() - i,
{
    if i < 0 || i >= rem.len() {
        0
    } else {
        let n1 = if rem[i] == '(' {
            n + 1
        } else {
            n
        };
        if rem[i] == ')' && n1 == 1 {
            i
        } else {
            close_offset_from(
                rem,
                i + 1,
                if rem[i] == ')' && n1 > 1 {
                    n1 - 1
                } else {
                    n1
                },
            )
        }
    }
}

/// `check_optional`: whether the first sub-pattern of `p` is followed by an
/// optional marker. For a group the position read is that of its own `)`,
/// so a group is never reported optional.
pub open spec fn check_optional_spec(p: Seq<char>) -> Option<bool> {
    match byte_len_usize(p) {
        None => None,
        Some(plen) => {
            let plen = plen as int;
            if p.len() == 0 {
                None
            } else if p[0] == '[' {
                match index_of(p.skip(1), ']') {
                    None => Some(false),
                    Some(e) => {
                        let op = e + 2;
                        if op < plen {
                            if op < p.len() {
                                Some(is_optional_marker(p[op]))
                            } else {
                                None
                            }
                        } else {
                            Some(false)
                        }
                    },
                }
            } else if p[0] == '(' {
                match index_of(p.skip(1), ')') {
                    None => Some(false),
                    Some(_) => {
                        let cbi = close_offset_from(p.skip(1), 0, 1) + 1;
                        if plen > cbi {
                            if cbi < p.len() {
                                Some(is_optional_marker(p[cbi]))
                            } else {
                                None
                            }
                        } else {
                            Some(false)
                        }
                    },
                }
            } else if p[0] == '\\' {
                match skip_backslashes(p, 0) {
                    None => None,
                    Some(k) => if k + 2 > p.len() {
                        None
                    } else if k + 2 < plen {
                        if k + 2 < p.len() {
                            Some(is_optional_marker(p[k + 2]))
                        } else {
                            None
                        }
                    } else {
                        Some(false)
                    },
                }
            } else {
                let k: int = if p[0] == '?' {
                    1
                } else {
                    0
                };
                if k + 1 >= p.len() {
                    None
                } else {
                    Some(k + 1 < plen && is_optional_marker(p[k + 1]))
                }
            }
        },
    }
}

/// The backslash loop of `get_next_pattern`, which compares byte slices.
pub open spec fn skip_backslash_bytes(p: Seq<char>, plen: int, k: int) -> Option<int>
    decreases plen - k,
{
    if k + 1 < plen {
        match byte_slice(p, k + 1, k + 2) {
            None => None,
            Some(q) => if q == seq!['\\'] {
                skip_backslash_bytes(p, plen, k + 1)
            } else {
                Some(k)
            },
        }
    } else {
        Some(k)
    }
}

/// `get_next_pattern` read from byte position `k` of `p`, whose byte length
/// is `plen`. `None` where it panics, and where it loops for ever (a `(`
/// that no `)` follows).
pub open spec fn next_pattern_from(p: Seq<char>, plen: int, k: int) -> Option<Seq<char>>
    decreases plen - k,
{
    if k < 0 {
        None
    } else if k >= plen {
        Some(Seq::empty())
    } else if k >= p.len() {
        None
    } else if p[k] == '[' {
        match index_of(p.skip(k + 1), ']') {
            None => None,
            Some(e) => byte_slice(p, k, k + e + 2),
        }
    } else if p[k] == '\\' {
        match skip_backslash_bytes(p, plen, k) {
            None => None,
            Some(j) => byte_slice(p, j, j + 2),
        }
    } else if p[k] == '(' {
        let rem = p.skip(k + 1);
        match index_of(rem, ')') {
            None => None,
            Some(e) => {
                let first_start = match last_index_before(rem, '(', e) {
                    Some(j) => k + 1 + j,
                    None => k,
                };
                Some(p.subrange(first_start + 1, k + 1 + e))
            },
        }
    } else if p[k] == '^' || p[k] == '+' || p[k] == ']' || p[k] == ')' {
        next_pattern_from(p, plen, k + 1)
    } else {
        byte_slice(p, k, k + 1)
    }
}

/// `get_next_pattern`: the first sub-pattern of `p`.
pub open spec fn next_pattern(p: Seq<char>) -> Option<Seq<char>> {
    match byte_len_usize(p) {
        None => None,
        Some(n) => next_pattern_from(p, n as int, 0),
    }
}

/// Index of the last group below `k` that is still open.
pub open spec fn last_open_before(g: Seq<Group>, k: int) -> Option<int>
    decreases k,
{
    if k <= 0 || k > g.len() {
        None
    } else if !g[k - 1].0 {
        Some(k - 1)
    } else {
        last_open_before(g, k - 1)
    }
}

/// Reads the groups of a parenthesised sub-pattern, from offset `i` of `rem`
/// (the pattern after the `(`),
/// with `n` groups open: opens a group at each `(`, closes the last open one
/// at each `)` and queues it to receive its text. Stops at the `)` that
/// closes the outer group and gives its offset, or zero when there is none.
pub open spec fn open_groups(
    rem: Seq<char>,
    i: int,
    n: int,
    g: Seq<Group>,
    w: Seq<usize>,
) -> Option<(int, Seq<Group>, Seq<usize>)>
    decreases rem.len() - i,
{
    if i < 0 || i >= rem.len() {
        Some((0, g, w))
    } else {
        let e = rem[i];
        let g1 = if e == '(' {
            g.push((false, Seq::empty()))
        } else {
            g
        };
        let n1 = if e == '(' {
            n + 1
        } else {
            n
        };
        if e == ')' {
            match last_open_before(g1, g1.len() as int) {
                None => None,
                Some(j) => {
                    let g2 = g1.update(j, (true, g1[j].1));
                    let w2 = w.push(j as usize);
                    if n1 == 1 {
                        Some((i, g2, w2))
                    } else {
                        open_groups(
                            rem,
                            i + 1,
                            if n1 > 1 {
                                n1 - 1
                            } else {
                                n1
                            },
                            g2,
                            w2,
                        )
                    }
                },
            }
        } else {
            open_groups(rem, i + 1, n1, g1, w)
        }
    }
}

/// Gives the text `t` to the first group waiting for one.
pub open spec fn give_text(g: Seq<Group>, w: Seq<usize>, t: Seq<char>) -> Option<(Seq<Group>, Seq<usize>)> {
    if w.len() == 0 || w[0] >= g.len() {
        None
    } else {
        let pos = w[0] as int;
        Some((g.update(pos, (g[pos].0, t)), w.drop_first()))
    }
}

/// A step at `[`: a bracket group.
pub open spec fn bracket_step(sub: Subject, st: MatchState) -> Option<Step> {
    let patt = sub.patt;
    let pi = st.pi as int;
    let ii = st.ii as int;
    match index_of(patt.skip(pi + 1), ']') {
        None => Some(Step::Next(st)),
        Some(e) => {
            let group = patt.subrange(pi + 1, pi + 1 + e);
            let prev = patt.subrange(pi, pi + e + 2);
            let op = pi + e + 2;
            let is_opt = op < patt.len() && patt[op] == '?';
            let found: Option<int> = if e > 1 {
                if patt[pi + 1] != '^' {
                    first_passing(sub.input.skip(ii), CharTest::Among, group)
                } else {
                    first_passing(sub.input.skip(ii), CharTest::NotAmong, group.skip(1))
                }
            } else {
                None
            };
            if !is_opt && found is None {
                Some(Step::Done(no_match()))
            } else {
                let pi2 = op + if is_opt {
                    1int
                } else {
                    0int
                };
                let ii2 = match found {
                    Some(fp) => ii + fp + 1,
                    None => ii,
                };
                Some(Step::Next(state(pi2 as usize, ii2 as usize, prev, st.groups, st.waiting)))
            }
        },
    }
}

/// A step at a plain character (or at a stray `?`).
pub open spec fn literal_step(sub: Subject, st: MatchState) -> Option<Step> {
    let patt = sub.patt;
    let pi = st.pi as int;
    let ii = st.ii as int;
    let c = patt[pi];
    if c == '?' {
        Some(Step::Next(state((pi + 1) as usize, st.ii, st.prev, st.groups, st.waiting)))
    } else {
        let prev = seq![c];
        let is_opt = pi + 1 < patt.len() && patt[pi + 1] == '?';
        let res = c == sub.input[ii];
        if !res && !is_opt {
            let next_opt = if patt.len() - pi > 2 {
                check_optional_spec(patt.skip(pi + 1))
            } else {
                Some(false)
            };
            match next_opt {
                None => None,
                Some(no) => if no || (pi + 1 < patt.len() && (patt[pi + 1] == '?' || patt[pi + 1]
                    == '+' || patt[pi + 1] == '$')) {
                    Some(Step::Next(state(st.pi, (ii + 1) as usize, prev, st.groups, st.waiting)))
                } else {
                    Some(Step::Done(no_match()))
                },
            }
        } else {
            let pi2 = pi + 1 + if is_opt {
                1int
            } else {
                0int
            };
            let ii2 = if res {
                ii + 1
            } else {
                ii
            };
            Some(Step::Next(state(pi2 as usize, ii2 as usize, prev, st.groups, st.waiting)))
        }
    }
}

/// After the last step: the check of a leading `^`, then the outcome.
pub open spec fn tail_is_optional(patt: Seq<char>, pi: int) -> Option<bool> {
    let plen = patt.len();
    if pi >= plen {
        Some(true)
    } else if pi == plen - 1 && (patt[pi] == '$' || patt[pi] == '?' || patt[pi] == '+' || patt[pi]
        == '*') {
        Some(true)
    } else if plen - pi > 1 {
        let rem = patt.skip(pi);
        if rem.len() == 2 && (rem[0] == '?' || rem[0] == '*') && rem[1] == '$' {
            Some(true)
        } else {
            check_optional_spec(rem)
        }
    } else {
        Some(false)
    }
}

/// The outcome once the pattern or the input is used up, the leading `^`
/// check passed.
pub open spec fn final_outcome(sub: Subject, st: MatchState) -> Option<Outcome> {
    let input = sub.input;
    let patt = sub.patt;
    if st.ii > input.len() {
        None
    } else {
        let matched = input.take(st.ii as int);
        match byte_len_usize(patt) {
            None => None,
            Some(pbl) => if sub.full && st.pi == pbl {
                Some((true, Some(st.ii), matched))
            } else if st.pi == patt.len() && patt.last() != '$' {
                Some((true, Some(st.ii), matched))
            } else if st.ii == input.len() {
                if sub.full {
                    Some((true, Some(input.len() as usize), matched))
                } else {
                    match tail_is_optional(patt, st.pi as int) {
                        None => None,
                        Some(res) => Some((res, Some(input.len() as usize), matched)),
                    }
                }
            } else {
                Some(no_match())
            },
        }
    }
}

/// The matcher: `match_by_char(input, patt, full, groups)` with budget `fuel`.
pub open spec fn match_spec(
    fuel: nat,
    input: Seq<char>,
    patt: Seq<char>,
    full: bool,
    groups: Seq<Group>,
) -> Option<Outcome>
    decreases fuel,
{
    if fuel == 0 {
        None
    } else {
        let f = (fuel - 1) as nat;
        if index_of(patt, ')') is None && index_of(patt, '|') is Some {
            first_alternative(f, input, split_on(patt, '|'), 0, full, groups)
        } else if patt.len() == 0 || input.len() == 0 {
            None
        } else {
            let pi0: usize = if patt[0] == '^' {
                1
            } else {
                0
            };
            scan(
                f,
                Subject { input, patt, full },
                state(pi0, 0, Seq::empty(), groups, Seq::empty()),
            )
        }
    }
}

/// A pattern of alternatives without parentheses: the first alternative,
/// from the `k`-th on, that matches.
pub open spec fn first_alternative(
    fuel: nat,
    input: Seq<char>,
    pieces: Seq<Seq<char>>,
    k: int,
    full: bool,
    groups: Seq<Group>,
) -> Option<Outcome>
    decreases fuel,
{
    if fuel == 0 {
        None
    } else {
        let f = (fuel - 1) as nat;
        if k < 0 || k >= pieces.len() {
            Some((false, Some(0), Seq::empty()))
        } else {
            match match_spec(f, input, pieces[k], full, groups) {
                None => None,
                Some(r) => if r.0 {
                    match r.1 {
                        None => None,
                        Some(n) => Some((true, Some(n), r.2)),
                    }
                } else {
                    first_alternative(f, input, pieces, k + 1, full, groups)
                },
            }
        }
    }
}

/// The main loop: steps while both the pattern and the input last.
pub open spec fn scan(fuel: nat, sub: Subject, st: MatchState) -> Option<Outcome>
    decreases fuel,
{
    if fuel == 0 {
        None
    } else {
        let f = (fuel - 1) as nat;
        if st.pi < sub.patt.len() && st.ii < sub.input.len() {
            match step(f, sub, st) {
                None => None,
                Some(Step::Done(o)) => Some(o),
                Some(Step::Next(s2)) => scan(f, sub, s2),
            }
        } else {
            finish(f, sub, st)
        }
    }
}

/// After the main loop.
pub open spec fn finish(fuel: nat, sub: Subject, st: MatchState) -> Option<Outcome>
    decreases fuel,
{
    if fuel == 0 {
        None
    } else {
        let f = (fuel - 1) as nat;
        let starter = sub.patt.len() > 0 && sub.patt[0] == '^';
        if starter && sub.input.len() > 1 {
            match next_pattern(sub.patt) {
                None => None,
                Some(np) => match match_spec(f, sub.input.take(1), np, sub.full, st.groups) {
                    None => None,
                    Some(r) => if r.0 {
                        final_outcome(sub, st)
                    } else {
                        Some(no_match())
                    },
                },
            }
        } else {
            final_outcome(sub, st)
        }
    }
}

/// One step of the main loop, chosen by the pattern character at `pi`.
pub open spec fn step(fuel: nat, sub: Subject, st: MatchState) -> Option<Step>
    decreases fuel,
{
    if fuel == 0 {
        None
    } else {
        let f = (fuel - 1) as nat;
        let c = sub.patt[st.pi as int];
        if c == '[' {
            bracket_step(sub, st)
        } else if c == '\\' {
            escape_step(f, sub, st)
        } else if c == '+' {
            repeat_step(f, sub, st)
        } else if c == '.' {
            Some(
                Step::Next(
                    state(
                        (st.pi + 1) as usize,
                        (st.ii + 1) as usize,
                        seq!['.'],
                        st.groups,
                        st.waiting,
                    ),
                ),
            )
        } else if c == '(' {
            group_step(f, sub, st)
        } else if c == '$' {
            if st.ii != sub.input.len() - 1 {
                Some(Step::Done(no_match()))
            } else {
                Some(Step::Done((true, Some(sub.input.len() as usize), sub.input)))
            }
        } else {
            literal_step(sub, st)
        }
    }
}

/// A step at `\`: a back reference `\N` or a class `\d`, `\w`.
pub open spec fn escape_step(fuel: nat, sub: Subject, st: MatchState) -> Option<Step>
    decreases fuel,
{
    if fuel == 0 {
        None
    } else {
        let f = (fuel - 1) as nat;
        let patt = sub.patt;
        let input = sub.input;
        let ii = st.ii as int;
        match skip_backslashes(patt, st.pi as int) {
            None => None,
            Some(k) => if k + 2 > patt.len() {
                None
            } else {
                let d = patt[k + 1];
                if is_ascii_digit(d) {
                    let num = digit_value(d);
                    if num == 0 || num > st.groups.len() {
                        None
                    } else {
                        match match_spec(
                            f,
                            input.skip(ii),
                            st.groups[num - 1].1,
                            sub.full,
                            st.groups,
                        ) {
                            None => None,
                            Some(r) => if !r.0 {
                                Some(Step::Done(r))
                            } else {
                                match r.1 {
                                    None => None,
                                    Some(n) => match add_usize(ii, n as int) {
                                        None => None,
                                        Some(ii2) => Some(
                                            Step::Next(
                                                state(
                                                    (k + 2) as usize,
                                                    ii2,
                                                    st.prev,
                                                    st.groups,
                                                    st.waiting,
                                                ),
                                            ),
                                        ),
                                    },
                                }
                            },
                        }
                    }
                } else {
                    let prev = patt.subrange(k, k + 2);
                    match byte_suffix(input, ii) {
                        None => None,
                        Some(rest) => if d != 'd' && d != 'w' {
                            None
                        } else {
                            let is_opt = k + 2 < patt.len() && patt[k + 2] == '?';
                            let t = if d == 'd' {
                                CharTest::Digit
                            } else {
                                CharTest::Word
                            };
                            let found = first_passing(rest, t, Seq::empty());
                            if found is None && !is_opt {
                                let next_opt = if patt.len() - k > 2 {
                                    check_optional_spec(patt.skip(k + 1))
                                } else {
                                    Some(false)
                                };
                                match next_opt {
                                    None => None,
                                    Some(true) => Some(
                                        Step::Next(
                                            state(
                                                k as usize,
                                                (ii + 1) as usize,
                                                prev,
                                                st.groups,
                                                st.waiting,
                                            ),
                                        ),
                                    ),
                                    Some(false) => Some(Step::Done(no_match())),
                                }
                            } else {
                                let pi2 = k + 2 + if is_opt {
                                    1int
                                } else {
                                    0int
                                };
                                match found {
                                    None => Some(
                                        Step::Next(
                                            state(pi2 as usize, st.ii, prev, st.groups, st.waiting),
                                        ),
                                    ),
                                    Some(fp) => match add_usize(ii, fp + 1) {
                                        None => None,
                                        Some(ii2) => Some(
                                            Step::Next(
                                                state(pi2 as usize, ii2, prev, st.groups, st.waiting),
                                            ),
                                        ),
                                    },
                                }
                            }
                        },
                    }
                }
            },
        }
    }
}

/// A step at `+`: repeats the previous sub-pattern as often as it matches,
/// then gives back as many characters as the rest of the pattern needs.
pub open spec fn repeat_step(fuel: nat, sub: Subject, st: MatchState) -> Option<Step>
    decreases fuel,
{
    if fuel == 0 {
        None
    } else {
        let f = (fuel - 1) as nat;
        match repeat_count(f, sub.input, seq!['^'] + st.prev, st.groups, st.ii, 0) {
            None => None,
            Some((ii2, nr)) => match similar_spec(f, st.pi, st.prev, sub.patt, st.groups) {
                None => None,
                Some(sim) => {
                    let pi2 = (st.pi + 1) as usize;
                    if sim > nr {
                        Some(Step::Done(no_match()))
                    } else if sim > 0 {
                        if ii2 < sim {
                            None
                        } else {
                            Some(
                                Step::Next(
                                    state(pi2, (ii2 - sim) as usize, st.prev, st.groups, st.waiting),
                                ),
                            )
                        }
                    } else {
                        Some(Step::Next(state(pi2, ii2, st.prev, st.groups, st.waiting)))
                    }
                },
            },
        }
    }
}

/// Matches `use_patt` again and again from input position `ii`; gives the
/// position reached and the number of repetitions added to `nr`.
pub open spec fn repeat_count(
    fuel: nat,
    input: Seq<char>,
    use_patt: Seq<char>,
    groups: Seq<Group>,
    ii: usize,
    nr: usize,
) -> Option<(usize, usize)>
    decreases fuel,
{
    if fuel == 0 {
        None
    } else {
        let f = (fuel - 1) as nat;
        if ii >= input.len() {
            Some((ii, nr))
        } else {
            match match_spec(f, input.skip(ii as int), use_patt, true, groups) {
                None => None,
                Some(r) => if !r.0 {
                    Some((ii, nr))
                } else {
                    match r.1 {
                        None => None,
                        Some(n) => match (add_usize(ii as int, n as int), add_usize(nr as int, 1)) {
                            (Some(a), Some(b)) => repeat_count(f, input, use_patt, groups, a, b),
                            _ => None,
                        },
                    }
                },
            }
        }
    }
}

/// `check_num_similar_pattern`: how many of the sub-patterns that follow
/// position `pi` of `patt` would also be matched by `prev`.
pub open spec fn similar_spec(
    fuel: nat,
    pi: usize,
    prev: Seq<char>,
    patt: Seq<char>,
    groups: Seq<Group>,
) -> Option<usize>
    decreases fuel,
{
    if fuel == 0 {
        None
    } else {
        let f = (fuel - 1) as nat;
        match add_usize(pi as int, 1) {
            None => None,
            Some(ci) => similar_loop(f, prev, patt, groups, ci, 0),
        }
    }
}

/// The loop of `check_num_similar_pattern` from pattern position `ci`, with
/// `sim` similar sub-patterns counted.
pub open spec fn similar_loop(
    fuel: nat,
    prev: Seq<char>,
    patt: Seq<char>,
    groups: Seq<Group>,
    ci: usize,
    sim: usize,
) -> Option<usize>
    decreases fuel,
{
    if fuel == 0 {
        None
    } else {
        let f = (fuel - 1) as nat;
        if ci >= patt.len() {
            Some(sim)
        } else {
            match next_pattern(patt.skip(ci as int)) {
                None => None,
                Some(next) => match byte_len_usize(prev) {
                    None => None,
                    Some(prev_len) => if next == seq!['$'] {
                        Some(sim)
                    } else if next.len() == 0 {
                        None
                    } else {
                        let sim1: Option<usize> = if next[0] == '\\' {
                            if next.len() < 2 || !is_ascii_digit(next[1]) {
                                None
                            } else {
                                let num = digit_value(next[1]);
                                if num == 0 || num > groups.len() {
                                    None
                                } else {
                                    match similar_spec(f, 0, prev, groups[num - 1].1, groups) {
                                        None => None,
                                        Some(k) => add_usize(sim as int, k as int),
                                    }
                                }
                            }
                        } else {
                            Some(sim)
                        };
                        match sim1 {
                            None => None,
                            Some(sim1) => similar_next(f, prev, patt, groups, ci, sim1, next, prev_len),
                        }
                    },
                },
            }
        }
    }
}

/// The rest of one turn of the `check_num_similar_pattern` loop, once the
/// next sub-pattern `next` is known.
pub open spec fn similar_next(
    fuel: nat,
    prev: Seq<char>,
    patt: Seq<char>,
    groups: Seq<Group>,
    ci: usize,
    sim: usize,
    next: Seq<char>,
    prev_len: usize,
) -> Option<usize>
    decreases fuel,
{
    if fuel == 0 {
        None
    } else {
        let f = (fuel - 1) as nat;
        match byte_len_usize(next) {
            None => None,
            Some(nl) => match add_usize(ci as int, nl as int) {
                None => None,
                Some(opt_index) => {
                    let opt: Option<bool> = if opt_index < patt.len() {
                        match next_pattern(patt.skip(opt_index as int)) {
                            None => None,
                            Some(q) => Some(q == seq!['?']),
                        }
                    } else {
                        Some(false)
                    };
                    match opt {
                        None => None,
                        Some(true) => match add_usize(ci as int, prev_len as int) {
                            None => None,
                            Some(c2) => similar_loop(f, prev, patt, groups, c2, sim),
                        },
                        Some(false) => if next == prev {
                            match (add_usize(ci as int, prev_len as int), add_usize(sim as int, 1)) {
                                (Some(c2), Some(s2)) => similar_loop(f, prev, patt, groups, c2, s2),
                                _ => None,
                            }
                        } else {
                            match match_spec(f, next, prev, false, groups) {
                                None => None,
                                Some(r) => if r.0 {
                                    match (add_usize(ci as int, nl as int), add_usize(sim as int, 1)) {
                                        (Some(c2), Some(s2)) => similar_loop(
                                            f,
                                            prev,
                                            patt,
                                            groups,
                                            c2,
                                            s2,
                                        ),
                                        _ => None,
                                    }
                                } else {
                                    Some(sim)
                                },
                            }
                        },
                    }
                },
            },
        }
    }
}

/// A step at `(`: a capture group.
pub open spec fn group_step(fuel: nat, sub: Subject, st: MatchState) -> Option<Step>
    decreases fuel,
{
    if fuel == 0 {
        None
    } else {
        let f = (fuel - 1) as nat;
        let patt = sub.patt;
        let pi = st.pi as int;
        let rem = patt.skip(pi + 1);
        if index_of(rem, ')') is None {
            None
        } else {
            let g0 = st.groups.push((false, Seq::empty()));
            match open_groups(rem, 0, 1, g0, st.waiting) {
                None => None,
                Some((cge, g1, w1)) => {
                    let cbi = pi + cge + 1;
                    let capt = patt.subrange(pi + 1, cbi);
                    if capt.len() == 0 {
                        None
                    } else {
                        let sim_opt = if capt.last() == '+' {
                            similar_spec(f, cbi as usize, capt.drop_last(), patt, g1)
                        } else {
                            Some(0usize)
                        };
                        match sim_opt {
                            None => None,
                            Some(sim) => {
                                let gopt = patt.len() > cbi && patt[cbi] == '?';
                                group_body(f, sub, st.pi, st.ii, capt, sim, gopt, g1, w1)
                            },
                        }
                    }
                },
            }
        }
    }
}

/// The middle of a `(` step: matches the group's sub-patterns, then hands
/// over to `group_finish`.
pub open spec fn group_body(
    fuel: nat,
    sub: Subject,
    pi: usize,
    ii: usize,
    capt: Seq<char>,
    sim: usize,
    gopt: bool,
    g1: Seq<Group>,
    w1: Seq<usize>,
) -> Option<Step>
    decreases fuel,
{
    if fuel == 0 {
        None
    } else {
        let f = (fuel - 1) as nat;
        if index_of(capt, '(') is Some {
            match layered_outer(f, sub.input, split_on(capt, '('), 0, ii, g1, w1) {
                None => None,
                Some((ok, ii2, g2, w2)) => if !ok && !gopt {
                    Some(Step::Done(no_match()))
                } else {
                    group_finish(f, sub, pi, ii, capt, sim, ii2, g2, w2)
                },
            }
        } else {
            match alternative_len(f, sub.input, split_on(capt, '|'), 0, ii, g1) {
                None => None,
                Some(None) => Some(Step::Done(no_match())),
                Some(Some(n)) => match add_usize(ii as int, n as int) {
                    None => None,
                    Some(ii2) => group_finish(f, sub, pi, ii, capt, sim, ii2, g1, w1),
                },
            }
        }
    }
}

/// The end of a `(` step: gives back `sim` characters, checks that the
/// group matches the text it keeps, and stores that text.
pub open spec fn group_finish(
    fuel: nat,
    sub: Subject,
    pi: usize,
    ii: usize,
    capt: Seq<char>,
    sim: usize,
    ii3: usize,
    g3: Seq<Group>,
    w3: Seq<usize>,
) -> Option<Step>
    decreases fuel,
{
    if fuel == 0 {
        None
    } else {
        let f = (fuel - 1) as nat;
        match byte_len_usize(capt) {
            None => None,
            Some(cl) => match add_usize(cl as int, 2) {
                None => None,
                Some(adv) => match add_usize(pi as int, adv as int) {
                    None => None,
                    Some(pi2) => if ii3 < sim {
                        None
                    } else {
                        let ii4 = ii3 - sim;
                        if !(ii <= ii4 && ii4 <= sub.input.len()) {
                            None
                        } else {
                            let kept = sub.input.subrange(ii as int, ii4);
                            match match_spec(f, kept, capt, false, g3) {
                                None => None,
                                Some(r) => if !r.0 {
                                    Some(Step::Done(no_match()))
                                } else {
                                    match give_text(g3, w3, kept) {
                                        None => None,
                                        Some((g4, w4)) => Some(
                                            Step::Next(state(pi2, ii4 as usize, capt, g4, w4)),
                                        ),
                                    }
                                },
                            }
                        }
                    },
                },
            },
        }
    }
}

/// Nested groups: every piece of the group split at `(` must match, one
/// after the other, from input byte position `ii`. Gives whether all
/// matched, the position reached, and the groups and queue as updated.
pub open spec fn layered_outer(
    fuel: nat,
    input: Seq<char>,
    parts: Seq<Seq<char>>,
    k: int,
    ii: usize,
    g: Seq<Group>,
    w: Seq<usize>,
) -> Option<(bool, usize, Seq<Group>, Seq<usize>)>
    decreases fuel,
{
    if fuel == 0 {
        None
    } else {
        let f = (fuel - 1) as nat;
        if k < 0 || k >= parts.len() {
            Some((true, ii, g, w))
        } else {
            match layered_inner(f, input, split_inclusive_on(parts[k], ')'), 0, ii, g, w) {
                None => None,
                Some((ok, ii2, g2, w2)) => if !ok {
                    Some((false, ii2, g2, w2))
                } else {
                    layered_outer(f, input, parts, k + 1, ii2, g2, w2)
                },
            }
        }
    }
}

/// One piece of nested groups, split after each `)`: each sub-piece must
/// match unless a `?` follows it; a sub-piece that ends a group gives that
/// group its text.
pub open spec fn layered_inner(
    fuel: nat,
    input: Seq<char>,
    subs: Seq<Seq<char>>,
    x: int,
    ii: usize,
    g: Seq<Group>,
    w: Seq<usize>,
) -> Option<(bool, usize, Seq<Group>, Seq<usize>)>
    decreases fuel,
{
    if fuel == 0 {
        None
    } else {
        let f = (fuel - 1) as nat;
        if x < 0 || x >= subs.len() {
            Some((true, ii, g, w))
        } else {
            let sub = subs[x];
            if sub.len() == 0 {
                None
            } else {
                let is_closer = sub.last() == ')';
                let sub_opt = x + 1 < subs.len() && subs[x + 1] == seq!['?'];
                if sub == seq!['?'] {
                    layered_inner(f, input, subs, x + 1, ii, g, w)
                } else {
                    let use_patt = if is_closer {
                        sub.drop_last()
                    } else {
                        sub
                    };
                    match byte_suffix(input, ii as int) {
                        None => None,
                        Some(rest) => match match_spec(f, rest, use_patt, true, g) {
                            None => None,
                            Some(r) => {
                                let upd = if r.0 && is_closer {
                                    give_text(g, w, r.2)
                                } else {
                                    Some((g, w))
                                };
                                match upd {
                                    None => None,
                                    Some((g2, w2)) => if sub_opt && !r.0 {
                                        layered_inner(f, input, subs, x + 1, ii, g2, w2)
                                    } else if r.0 {
                                        match r.1 {
                                            None => None,
                                            Some(n) => match add_usize(ii as int, n as int) {
                                                None => None,
                                                Some(ii2) => layered_inner(
                                                    f,
                                                    input,
                                                    subs,
                                                    x + 1,
                                                    ii2,
                                                    g2,
                                                    w2,
                                                ),
                                            },
                                        }
                                    } else {
                                        Some((false, ii, g2, w2))
                                    },
                                }
                            },
                        },
                    }
                }
            }
        }
    }
}

/// Alternatives of a group without nested groups: the length matched by
/// the first of them, from the `k`-th on, that matches at input byte `ii`.
pub open spec fn alternative_len(
    fuel: nat,
    input: Seq<char>,
    alts: Seq<Seq<char>>,
    k: int,
    ii: usize,
    g: Seq<Group>,
) -> Option<Option<usize>>
    decreases fuel,
{
    if fuel == 0 {
        None
    } else {
        let f = (fuel - 1) as nat;
        if k < 0 || k >= alts.len() {
            Some(None)
        } else {
            match byte_suffix(input, ii as int) {
                None => None,
                Some(rest) => match match_spec(f, rest, alts[k], true, g) {
                    None => None,
                    Some(r) => if r.0 {
                        match r.1 {
                            None => None,
                            Some(n) => Some(Some(n)),
                        }
                    } else {
                        alternative_len(f, input, alts, k + 1, ii, g)
                    },
                },
            }
        }
    }
}

/// The loop of `get_numrepeats`: matches `use_patt` again and again from
/// position `ui` of `chars` while `ui` is below `line_len`; gives the number
/// of repetitions and the length they matched, added to `nr` and `ms`.
pub open spec fn numrepeats_loop(
    fuel: nat,
    line_len: int,
    use_patt: Seq<char>,
    chars: Seq<char>,
    groups: Seq<Group>,
    ui: usize,
    nr: usize,
    ms: usize,
) -> Option<(usize, usize)>
    decreases fuel,
{
    if fuel == 0 {
        None
    } else {
        let f = (fuel - 1) as nat;
        if ui >= line_len {
            Some((nr, ms))
        } else if ui > chars.len() {
            None
        } else {
            match match_spec(f, chars.skip(ui as int), use_patt, true, groups) {
                None => None,
                Some(r) => if !r.0 {
                    Some((nr, ms))
                } else {
                    match r.1 {
                        None => None,
                        Some(n) => match (
                            add_usize(ms as int, n as int),
                            add_usize(ui as int, n as int),
                            add_usize(nr as int, 1),
                        ) {
                            (Some(a), Some(b), Some(c)) => numrepeats_loop(
                                f,
                                line_len,
                                use_patt,
                                chars,
                                groups,
                                b,
                                c,
                                a,
                            ),
                            _ => None,
                        },
                    }
                },
            }
        }
    }
}

/// `get_numrepeats(ii, line, use_patt, chars, groups)` with budget `fuel`:
/// the number of times `use_patt` matches in a row from position `ii` of
/// `chars`, and the length matched; the loop runs while the position is
/// below the byte length of `line`.
pub open spec fn numrepeats_spec(
    fuel: nat,
    ii: usize,
    line: Seq<char>,
    use_patt: Seq<char>,
    chars: Seq<char>,
    groups: Seq<Group>,
) -> Option<(usize, usize)> {
    match byte_len_usize(line) {
        None => None,
        Some(n) => numrepeats_loop(fuel, n as int, use_patt, chars, groups, ii, 0, 0),
    }
}

/// The backward search of `match_extra`: the last position `ci` above `ii`
/// from which `rem` matches, or the first position at or below `ii`.
pub open spec fn extra_scan(
    fuel: nat,
    chars: Seq<char>,
    rem: Seq<char>,
    ii: usize,
    groups: Seq<Group>,
    ci: usize,
) -> Option<(bool, usize)>
    decreases fuel,
{
    if fuel == 0 {
        None
    } else {
        let f = (fuel - 1) as nat;
        if ci <= ii {
            Some((ci >= ii, ci))
        } else if ci > chars.len() {
            None
        } else {
            match match_spec(f, chars.skip(ci as int), rem, false, groups) {
                None => None,
                Some(r) => if r.0 {
                    Some((ci >= ii, ci))
                } else {
                    extra_scan(f, chars, rem, ii, groups, (ci - 1) as usize)
                },
            }
        }
    }
}

/// `match_extra(prev, chars, line, ii, groups, pi, patt)` with budget `fuel`.
pub open spec fn match_extra_spec(
    fuel: nat,
    prev: Seq<char>,
    chars: Seq<char>,
    line: Seq<char>,
    ii: usize,
    groups: Seq<Group>,
    pi: usize,
    patt: Seq<char>,
) -> Option<(bool, usize)> {
    if pi + 1 > patt.len() {
        None
    } else {
        let rem = patt.skip(pi + 1);
        let use_patt = seq!['^'] + prev;
        match byte_len_usize(rem) {
            None => None,
            Some(rl) => if (rl == 1 && rem == seq!['$']) || rem.len() == 0 {
                match numrepeats_spec(fuel, ii, line, use_patt, chars, groups) {
                    None => None,
                    Some((_, ms)) => match add_usize(ii as int, ms as int) {
                        None => None,
                        Some(ui) => Some((rem.len() == 0 || ui == chars.len(), ui)),
                    },
                }
            } else if chars.len() == 0 {
                None
            } else {
                extra_scan(fuel, chars, rem, ii, groups, (chars.len() - 1) as usize)
            },
        }
    }
}

} // verus!
