//! What each kind of sub-pattern does, stated over the characters of the
//! input: the classes `\d` and `\w`, bracket groups, the repetition `+`,
//! back references and the optional marker `?`.
use vstd::prelude::*;
use crate::budget::lemma_match_spec_budget;
use crate::classes::{
    digit_value, first_passing, first_passing_from, is_alphanumeric_char, is_ascii_digit, passes,
    CharTest,
};
use crate::laws::{is_plain_pattern, lemma_plain_pattern, starts_with};
use crate::model::{
    bracket_step, escape_step, final_outcome, finish, match_spec, no_match, repeat_count, repeat_step, scan,
    skip_backslashes, state, step, Group, MatchState, Step, Subject,
};
use crate::text::{
    byte_len, byte_len_from, byte_len_usize, byte_suffix, char_at_byte_from, char_width,
    index_of_from, lemma_byte_len_from_nonneg,
};

verus! {

/// The first position of `s` from `i` on whose character passes the test,
/// and no earlier one; `None` when no character from `i` on passes.
proof fn lemma_first_passing_from(s: Seq<char>, t: CharTest, set: Seq<char>, i: int)
    requires
        0 <= i,
    ensures
        match first_passing_from(s, t, set, i) {
            Some(j) => i <= j < s.len() && passes(t, set, s[j]) && forall|k: int|
                i <= k < j ==> !passes(t, set, #[trigger] s[k]),
            None => forall|k: int| i <= k < s.len() ==> !passes(t, set, #[trigger] s[k]),
        },
    decreases s.len() - i,
{
    if i < s.len() && !passes(t, set, s[i]) {
        lemma_first_passing_from(s, t, set, i + 1);
    }
}

proof fn lemma_index_of_from_at(s: Seq<char>, c: char, i: int, j: int)
    requires
        0 <= i <= j < s.len(),
        s[j] == c,
        forall|k: int| i <= k < j ==> s[k] != c,
    ensures
        index_of_from(s, c, i) == Some(j),
    decreases j - i,
{
    if i < j {
        lemma_index_of_from_at(s, c, i + 1, j);
    }
}

proof fn lemma_index_of_from_none(s: Seq<char>, c: char, i: int)
    requires
        0 <= i,
        forall|k: int| i <= k < s.len() ==> s[k] != c,
    ensures
        index_of_from(s, c, i) is None,
    decreases s.len() - i,
{
    if i < s.len() {
        lemma_index_of_from_none(s, c, i + 1);
    }
}

/// A pattern made of one sub-pattern that tests characters, read from
/// the start of the line: it moves the input position past the first
/// character that passes, and the match ends there; without such a
/// character, the match fails.
proof fn lemma_single_test(
    fuel: nat,
    input: Seq<char>,
    p: Seq<char>,
    groups: Seq<Group>,
    t: CharTest,
    set: Seq<char>,
)
    requires
        fuel >= 4,
        0 < input.len() <= usize::MAX,
        0 < p.len() <= usize::MAX,
        p[0] != '^',
        p.last() != '$',
        byte_len(p) <= usize::MAX,
        index_of_from(p, '|', 0) is None,
        step(
            (fuel - 2) as nat,
            Subject { input, patt: p, full: false },
            state(0, 0, Seq::empty(), groups, Seq::empty()),
        ) == match first_passing_from(input, t, set, 0) {
            Some(fp) => Some(
                Step::Next(state(p.len() as usize, (fp + 1) as usize, p, groups, Seq::empty())),
            ),
            None => Some(Step::Done(no_match())),
        },
    ensures
        (forall|k: int| 0 <= k < input.len() ==> !passes(t, set, #[trigger] input[k]))
            ==> match_spec(fuel, input, p, false, groups) == Some(no_match()),
        forall|j: int|
            0 <= j < input.len() && passes(t, set, #[trigger] input[j]) && (forall|k: int|
                0 <= k < j ==> !passes(t, set, #[trigger] input[k])) ==> match_spec(
                fuel,
                input,
                p,
                false,
                groups,
            ) == Some((true, Some((j + 1) as usize), input.take(j + 1))),
{
    let sub = Subject { input, patt: p, full: false };
    let st0 = state(0, 0, Seq::empty(), groups, Seq::empty());
    let f = (fuel - 1) as nat;
    lemma_first_passing_from(input, t, set, 0);
    assert(match_spec(fuel, input, p, false, groups) == scan(f, sub, st0));
    match first_passing_from(input, t, set, 0) {
        None => {
            assert(scan(f, sub, st0) == Some(no_match()));
        },
        Some(fp) => {
            let s2 = state(p.len() as usize, (fp + 1) as usize, p, groups, Seq::empty());
            let f2 = (f - 1) as nat;
            assert(scan(f, sub, st0) == scan(f2, sub, s2));
            assert(scan(f2, sub, s2) == finish((f2 - 1) as nat, sub, s2));
            assert(finish((f2 - 1) as nat, sub, s2) == final_outcome(sub, s2));
            assert(byte_len_usize(p) is Some);
            assert forall|j: int|
                0 <= j < input.len() && passes(t, set, #[trigger] input[j]) && (forall|k: int|
                    0 <= k < j ==> !passes(t, set, #[trigger] input[k])) implies j == fp by {
                if j < fp {
                } else if fp < j {
                    assert(passes(t, set, input[fp]));
                }
            }
        },
    }
}

/// The class `\d` on its own finds the first ASCII decimal digit of the
/// line (`char::is_digit(10)`): it matches the line up to and including
/// that digit, and fails on a line that holds no digit.
pub proof fn lemma_digit_class(fuel: nat, input: Seq<char>, groups: Seq<Group>)
    requires
        fuel >= 4,
        0 < input.len() <= usize::MAX,
    ensures
        (forall|k: int|
            0 <= k < input.len() ==> !('0' <= #[trigger] input[k] && input[k] <= '9'))
            ==> match_spec(fuel, input, seq!['\\', 'd'], false, groups) == Some(
            (false, None::<usize>, Seq::<char>::empty()),
        ),
        forall|j: int|
            0 <= j < input.len() && '0' <= #[trigger] input[j] && input[j] <= '9' && (forall|k: int|
                0 <= k < j ==> !('0' <= #[trigger] input[k] && input[k] <= '9')) ==> match_spec(
                fuel,
                input,
                seq!['\\', 'd'],
                false,
                groups,
            ) == Some((true, Some((j + 1) as usize), input.take(j + 1))),
{
    let p = seq!['\\', 'd'];
    let sub = Subject { input, patt: p, full: false };
    let st0 = state(0, 0, Seq::empty(), groups, Seq::empty());
    assert(byte_len_from(p, 2) == 0);
    assert(byte_len_from(p, 1) == 1);
    assert(byte_len_from(p, 0) == 2);
    lemma_index_of_from_none(p, '|', 0);
    assert(char_at_byte_from(input, 0, 0, 0) == Some(0int));
    assert(input.skip(0) =~= input);
    assert(p.subrange(0, 2) =~= p);
    assert(skip_backslashes(p, 0) == Some(0int));
    let f3 = (fuel - 3) as nat;
    assert(step((fuel - 2) as nat, sub, st0) == escape_step(f3, sub, st0));
    assert(byte_suffix(input, 0) == Some(input));
    assert(first_passing(input, CharTest::Digit, Seq::empty()) == first_passing_from(input, CharTest::Digit, Seq::empty(), 0));
    lemma_first_passing_from(input, CharTest::Digit, Seq::empty(), 0);
    assert(!is_ascii_digit('d'));
    match first_passing_from(input, CharTest::Digit, Seq::empty(), 0) {
        None => {
            assert(escape_step(f3, sub, st0) == Some(Step::Done(no_match())));
        },
        Some(fp) => {
            assert(escape_step(f3, sub, st0) == Some(
                Step::Next(state(2, (fp + 1) as usize, p, groups, Seq::empty())),
            ));
        },
    }
    lemma_single_test(fuel, input, p, groups, CharTest::Digit, Seq::empty());
}

/// A negated bracket group `[^S]` on its own finds the first character of
/// the line that is not in `S` (every character between `^` and `]`): it
/// matches the line up to and including that character, and fails on a
/// line made only of characters of `S`.
pub proof fn lemma_negated_bracket(fuel: nat, input: Seq<char>, set: Seq<char>, groups: Seq<Group>)
    requires
        fuel >= 4,
        0 < input.len() <= usize::MAX,
        set.len() > 0,
        !set.contains(']'),
        !set.contains('|'),
        byte_len(seq!['[', '^'] + set + seq![']']) <= usize::MAX,
    ensures
        (forall|k: int| 0 <= k < input.len() ==> set.contains(#[trigger] input[k])) ==> match_spec(
            fuel,
            input,
            seq!['[', '^'] + set + seq![']'],
            false,
            groups,
        ) == Some((false, None::<usize>, Seq::<char>::empty())),
        forall|j: int|
            0 <= j < input.len() && !set.contains(#[trigger] input[j]) && (forall|k: int|
                0 <= k < j ==> set.contains(#[trigger] input[k])) ==> match_spec(
                fuel,
                input,
                seq!['[', '^'] + set + seq![']'],
                false,
                groups,
            ) == Some((true, Some((j + 1) as usize), input.take(j + 1))),
{
    let p = seq!['[', '^'] + set + seq![']'];
    let n = set.len() as int;
    assert(p.len() == n + 3);
    assert(forall|k: int| 0 <= k < n ==> p[k + 2] == #[trigger] set[k]);
    assert forall|k: int| 0 <= k < p.len() implies p[k] != '|' by {
        if 2 <= k < n + 2 {
            assert(p[k] == set[k - 2]);
        }
    }
    lemma_index_of_from_none(p, '|', 0);
    let rest = p.skip(1);
    assert forall|k: int| 0 <= k < n + 1 implies rest[k] != ']' by {
        if k >= 1 {
            assert(rest[k] == set[k - 1]);
        }
    }
    lemma_index_of_from_at(rest, ']', 0, n + 1);
    assert(p.subrange(1, 1 + n + 1).skip(1) =~= set);
    assert(p.subrange(0, n + 3) =~= p);
    assert(input.skip(0) =~= input);
    lemma_byte_len_from_nonneg(p, 0);
    lemma_single_test(fuel, input, p, groups, CharTest::NotAmong, set);
}

/// A bracket group `[S]` (at least two characters, the first not `^`) on
/// its own finds the first character of the line that is in `S`: it
/// matches the line up to and including that character, and fails on a
/// line with no character of `S`.
pub proof fn lemma_bracket(fuel: nat, input: Seq<char>, set: Seq<char>, groups: Seq<Group>)
    requires
        fuel >= 4,
        0 < input.len() <= usize::MAX,
        set.len() > 1,
        set[0] != '^',
        !set.contains(']'),
        !set.contains('|'),
        byte_len(seq!['['] + set + seq![']']) <= usize::MAX,
    ensures
        (forall|k: int| 0 <= k < input.len() ==> !set.contains(#[trigger] input[k])) ==> match_spec(
            fuel,
            input,
            seq!['['] + set + seq![']'],
            false,
            groups,
        ) == Some((false, None::<usize>, Seq::<char>::empty())),
        forall|j: int|
            0 <= j < input.len() && set.contains(#[trigger] input[j]) && (forall|k: int|
                0 <= k < j ==> !set.contains(#[trigger] input[k])) ==> match_spec(
                fuel,
                input,
                seq!['['] + set + seq![']'],
                false,
                groups,
            ) == Some((true, Some((j + 1) as usize), input.take(j + 1))),
{
    let p = seq!['['] + set + seq![']'];
    let n = set.len() as int;
    assert(p.len() == n + 2);
    assert(forall|k: int| 0 <= k < n ==> p[k + 1] == #[trigger] set[k]);
    assert forall|k: int| 0 <= k < p.len() implies p[k] != '|' by {
        if 1 <= k < n + 1 {
            assert(p[k] == set[k - 1]);
        }
    }
    lemma_index_of_from_none(p, '|', 0);
    let rest = p.skip(1);
    assert forall|k: int| 0 <= k < n implies rest[k] != ']' by {
        assert(rest[k] == set[k]);
    }
    lemma_index_of_from_at(rest, ']', 0, n);
    assert(p.subrange(1, 1 + n) =~= set);
    assert(p.subrange(0, n + 2) =~= p);
    assert(input.skip(0) =~= input);
    lemma_byte_len_from_nonneg(p, 0);
    lemma_single_test(fuel, input, p, groups, CharTest::Among, set);
}

/// Once the repeated sub-pattern matches nothing at position `ii`, the
/// repetition never ends there: it runs out of budget or count.
proof fn lemma_repeat_count_stuck(
    fuel: nat,
    f0: nat,
    input: Seq<char>,
    use_patt: Seq<char>,
    groups: Seq<Group>,
    ii: usize,
    nr: usize,
    t: Seq<char>,
)
    requires
        ii < input.len(),
        match_spec(f0, input.skip(ii as int), use_patt, true, groups) == Some(
            (true, Some(0usize), t),
        ),
    ensures
        repeat_count(fuel, input, use_patt, groups, ii, nr) is None,
    decreases fuel,
{
    if fuel > 0 {
        let f = (fuel - 1) as nat;
        if f <= f0 {
            lemma_match_spec_budget(f, f0, input.skip(ii as int), use_patt, true, groups);
        } else {
            lemma_match_spec_budget(f0, f, input.skip(ii as int), use_patt, true, groups);
        }
        if nr < usize::MAX {
            lemma_repeat_count_stuck(f, f0, input, use_patt, groups, ii, (nr + 1) as usize, t);
        }
    }
}

/// Each repetition that the count takes advances the input position by at
/// least one character.
proof fn lemma_repeat_count_advances(
    fuel: nat,
    input: Seq<char>,
    use_patt: Seq<char>,
    groups: Seq<Group>,
    ii: usize,
    nr: usize,
)
    ensures
        repeat_count(fuel, input, use_patt, groups, ii, nr) matches Some((a, b)) ==> nr <= b
            && ii + (b - nr) <= a,
    decreases fuel,
{
    if fuel > 0 && ii < input.len() {
        let f = (fuel - 1) as nat;
        if let Some(r) = match_spec(f, input.skip(ii as int), use_patt, true, groups) {
            if r.0 {
                if let Some(n) = r.1 {
                    if n == 0 {
                        if nr < usize::MAX {
                            lemma_repeat_count_stuck(f, f, input, use_patt, groups, ii, (nr + 1) as usize, r.2);
                        }
                    } else if ii + n <= usize::MAX && nr < usize::MAX {
                        lemma_repeat_count_advances(
                            f,
                            input,
                            use_patt,
                            groups,
                            (ii + n) as usize,
                            (nr + 1) as usize,
                        );
                    }
                }
            }
        }
    }
}

/// The repetition `+` gives back at most what its repetitions matched: the
/// step never moves the input position back before where it started, and
/// goes on after the `+` with the same sub-pattern. So a line `cat` does
/// not match `ca+at`, where the `a` after the `+` needs a second `a`.
pub proof fn lemma_repeat_never_backs_up(fuel: nat, sub: Subject, st: MatchState)
    ensures
        repeat_step(fuel, sub, st) matches Some(Step::Next(s2)) ==> {
            &&& st.ii <= s2.ii
            &&& s2.pi == st.pi + 1
            &&& s2.prev == st.prev
            &&& s2.groups == st.groups
        },
{
    if fuel > 0 {
        lemma_repeat_count_advances(
            (fuel - 1) as nat,
            sub.input,
            seq!['^'] + st.prev,
            st.groups,
            st.ii,
            0,
        );
    }
}

/// A back reference `\N` in a match of the whole pattern (`full` false)
/// whose group `N` holds plain text `t`: the step goes on exactly when the
/// rest of the line begins with `t`, past `t`; otherwise it ends the match
/// with a failure.
pub proof fn lemma_back_reference(fuel: nat, sub: Subject, st: MatchState)
    requires
        !sub.full,
        st.pi + 1 < sub.patt.len() <= usize::MAX,
        sub.patt[st.pi as int] == '\\',
        '1' <= sub.patt[st.pi + 1] && sub.patt[st.pi + 1] <= '9',
        (sub.patt[st.pi + 1] as int) - ('0' as int) <= st.groups.len(),
        st.ii < sub.input.len() <= usize::MAX,
        is_plain_pattern(st.groups[(sub.patt[st.pi + 1] as int) - ('1' as int)].1),
        st.groups[(sub.patt[st.pi + 1] as int) - ('1' as int)].1.len() <= usize::MAX,
    ensures
        escape_step(fuel, sub, st) matches Some(x) ==> {
            let t = st.groups[(sub.patt[st.pi + 1] as int) - ('1' as int)].1;
            let rest = sub.input.skip(st.ii as int);
            match x {
                Step::Next(s2) => {
                    &&& starts_with(rest, t)
                    &&& s2.ii == st.ii + t.len()
                    &&& s2.pi == st.pi + 2
                    &&& s2.prev == st.prev
                    &&& s2.groups == st.groups
                },
                Step::Done(o) => !o.0 && !starts_with(rest, t),
            }
        },
{
    if fuel > 0 {
        let f = (fuel - 1) as nat;
        let d = sub.patt[st.pi + 1];
        let t = st.groups[(d as int) - ('1' as int)].1;
        assert(skip_backslashes(sub.patt, st.pi as int) == Some(st.pi as int));
        assert(is_ascii_digit(d));
        let num = digit_value(d);
        assert(num - 1 == (d as int) - ('1' as int));
        assert(st.groups[num - 1].1 == t);
        lemma_plain_pattern(f, sub.input.skip(st.ii as int), t, st.groups);
    }
}

proof fn lemma_ascii_prefix_offset(s: Seq<char>, b: int, k: int)
    requires
        0 <= k <= b <= s.len(),
        forall|i: int| 0 <= i < b ==> char_width(#[trigger] s[i]) == 1,
    ensures
        char_at_byte_from(s, b, k, k) == Some(b),
    decreases b - k,
{
    if k < b {
        lemma_ascii_prefix_offset(s, b, k + 1);
    }
}

/// The classes `\d` and `\w`, optional (`?` after them) or not: where the
/// character at the input position passes the class, the step consumes it
/// and goes on after the class (and after its `?`). This holds where the
/// characters before the position are ASCII, so that the position is also
/// the byte offset at which the matcher slices the line.
pub proof fn lemma_class_consumes(fuel: nat, sub: Subject, st: MatchState)
    requires
        fuel > 0,
        st.pi + 1 < sub.patt.len(),
        sub.patt[st.pi as int] == '\\',
        sub.patt[st.pi + 1] == 'd' || sub.patt[st.pi + 1] == 'w',
        st.ii < sub.input.len() <= usize::MAX,
        forall|i: int| 0 <= i < st.ii ==> (#[trigger] sub.input[i] as u32) < 0x80,
        sub.patt[st.pi + 1] == 'd' ==> '0' <= sub.input[st.ii as int] && sub.input[st.ii as int]
            <= '9',
        sub.patt[st.pi + 1] == 'w' ==> is_alphanumeric_char(sub.input[st.ii as int])
            || sub.input[st.ii as int] == '_',
    ensures
        escape_step(fuel, sub, st) == Some(
            Step::Next(
                state(
                    (st.pi + 2 + if st.pi + 2 < sub.patt.len() && sub.patt[st.pi + 2] == '?' {
                        1int
                    } else {
                        0int
                    }) as usize,
                    (st.ii + 1) as usize,
                    sub.patt.subrange(st.pi as int, st.pi + 2),
                    st.groups,
                    st.waiting,
                ),
            ),
        ),
{
    let input = sub.input;
    let ii = st.ii as int;
    let d = sub.patt[st.pi + 1];
    assert(skip_backslashes(sub.patt, st.pi as int) == Some(st.pi as int));
    assert(!is_ascii_digit(d));
    assert forall|i: int| 0 <= i < ii implies char_width(#[trigger] input[i]) == 1 by {
        assert((input[i] as u32) < 0x80);
    }
    lemma_ascii_prefix_offset(input, ii, 0);
    assert(byte_suffix(input, ii) == Some(input.skip(ii)));
    let t = if d == 'd' {
        CharTest::Digit
    } else {
        CharTest::Word
    };
    assert(input.skip(ii)[0] == input[ii]);
    assert(first_passing(input.skip(ii), t, Seq::empty()) == Some(0int));
}

/// A bracket group `[S]` or `[^S]`, optional (`?` after it) or not, at
/// the pattern position: where the character at the input position passes
/// the group (is in `S`, or for `[^S]` is not), the step consumes it and
/// goes on after the group (and after its `?`).
pub proof fn lemma_bracket_consumes(sub: Subject, st: MatchState, set: Seq<char>, negated: bool)
    requires
        sub.patt.len() <= usize::MAX,
        st.ii < sub.input.len() <= usize::MAX,
        set.len() > (if negated { 0int } else { 1int }),
        !negated ==> set[0] != '^',
        !set.contains(']'),
        st.pi + set.len() + (if negated { 3int } else { 2int }) <= sub.patt.len(),
        sub.patt.subrange(st.pi as int, st.pi + set.len() + (if negated { 3int } else { 2int })) == (if negated {
            seq!['[', '^'] + set + seq![']']
        } else {
            seq!['['] + set + seq![']']
        }),
        negated ==> !set.contains(sub.input[st.ii as int]),
        !negated ==> set.contains(sub.input[st.ii as int]),
    ensures
        ({
            let end = st.pi + set.len() + (if negated { 3int } else { 2int });
            bracket_step(sub, st) == Some(
                Step::Next(
                    state(
                        (end + if end < sub.patt.len() && sub.patt[end] == '?' {
                            1int
                        } else {
                            0int
                        }) as usize,
                        (st.ii + 1) as usize,
                        sub.patt.subrange(st.pi as int, end),
                        st.groups,
                        st.waiting,
                    ),
                ),
            )
        }),
{
    let pi = st.pi as int;
    let ii = st.ii as int;
    let patt = sub.patt;
    let n = set.len() as int;
    let w = n + (if negated { 3int } else { 2int });
    let g = patt.subrange(pi, pi + w);
    assert(forall|k: int| 0 <= k < w ==> #[trigger] g[k] == patt[pi + k]);
    let off = if negated { 2int } else { 1int };
    assert(forall|k: int| 0 <= k < n ==> g[k + off] == #[trigger] set[k]);
    let rest = patt.skip(pi + 1);
    assert forall|k: int| 0 <= k < w - 2 implies rest[k] != ']' by {
        assert(rest[k] == patt[pi + 1 + k]);
        assert(g[k + 1] == patt[pi + 1 + k]);
        if negated && k >= 1 {
            assert(g[k + 1] == set[k - 1]);
        }
        if !negated {
            assert(g[k + 1] == set[k]);
        }
    }
    assert(rest[w - 2] == g[w - 1]);
    lemma_index_of_from_at(rest, ']', 0, w - 2);
    let group = patt.subrange(pi + 1, pi + 1 + w - 2);
    if negated {
        assert(group.skip(1) =~= set);
        assert(patt[pi + 1] == g[1]);
    } else {
        assert(group =~= set);
        assert(patt[pi + 1] == g[1]);
    }
    let t = if negated {
        CharTest::NotAmong
    } else {
        CharTest::Among
    };
    assert(sub.input.skip(ii)[0] == sub.input[ii]);
    assert(first_passing(sub.input.skip(ii), t, set) == Some(0int));
}

/// A plain character `c` at the pattern position (not one of `[ \ + . ( $ ?`),
/// optional (`?` after it) or not: where the input position holds `c`, the
/// step consumes it and goes on after `c` (and after its `?`).
pub proof fn lemma_literal_consumes(fuel: nat, sub: Subject, st: MatchState)
    requires
        fuel > 0,
        st.pi < sub.patt.len() <= usize::MAX,
        st.ii < sub.input.len() <= usize::MAX,
        !(sub.patt[st.pi as int] == '[' || sub.patt[st.pi as int] == '\\'
            || sub.patt[st.pi as int] == '+' || sub.patt[st.pi as int] == '.'
            || sub.patt[st.pi as int] == '(' || sub.patt[st.pi as int] == '$'
            || sub.patt[st.pi as int] == '?'),
        sub.input[st.ii as int] == sub.patt[st.pi as int],
    ensures
        step(fuel, sub, st) == Some(
            Step::Next(
                state(
                    (st.pi + 1 + if st.pi + 1 < sub.patt.len() && sub.patt[st.pi + 1] == '?' {
                        1int
                    } else {
                        0int
                    }) as usize,
                    (st.ii + 1) as usize,
                    seq![sub.patt[st.pi as int]],
                    st.groups,
                    st.waiting,
                ),
            ),
        ),
{
}

} // verus!
