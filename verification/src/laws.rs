//! Properties of the matcher that hold for every input.
use vstd::prelude::*;
use crate::text::{
    byte_len_from, byte_len_usize, byte_slice, char_at_byte, char_at_byte_from, char_width, index_of,
    index_of_from, last_index_before, split_on,
};
use crate::budget::lemma_match_spec_budget;
use crate::model::{
    check_optional_spec, match_budget, next_pattern, state, next_pattern_from, skip_backslash_bytes, bracket_step, escape_step, final_outcome, finish, first_alternative, group_body, group_finish,
    group_step, literal_step, match_spec, repeat_step, scan, step, Group, MatchState,
    Outcome, Step, Subject, extra_scan, match_extra_spec, numrepeats_spec,
};

verus! {

/// A successful outcome reports a prefix of `input`: its length, and the
/// prefix itself as text.
pub open spec fn reports_prefix(o: Outcome, input: Seq<char>) -> bool {
    o.0 ==> (o.1 matches Some(n) && n <= input.len() && o.2 == input.take(n as int))
}

/// A step that stops with a success stops at the end anchor `$` with the
/// whole input.
pub open spec fn done_reports_prefix(r: Option<Step>, input: Seq<char>) -> bool {
    r matches Some(Step::Done(o)) ==> reports_prefix(o, input)
}

proof fn lemma_final_outcome(sub: Subject, st: MatchState)
    ensures
        final_outcome(sub, st) matches Some(o) ==> reports_prefix(o, sub.input),
{
    if st.ii <= sub.input.len() && st.ii == sub.input.len() {
        assert(sub.input.take(st.ii as int) =~= sub.input.take(sub.input.len() as int));
    }
}

proof fn lemma_finish(fuel: nat, sub: Subject, st: MatchState)
    ensures
        finish(fuel, sub, st) matches Some(o) ==> reports_prefix(o, sub.input),
{
    lemma_final_outcome(sub, st);
}

proof fn lemma_group_finish(
    fuel: nat,
    sub: Subject,
    pi: usize,
    ii: usize,
    capt: Seq<char>,
    sim: usize,
    ii3: usize,
    g3: Seq<Group>,
    w3: Seq<usize>,
)
    ensures
        done_reports_prefix(group_finish(fuel, sub, pi, ii, capt, sim, ii3, g3, w3), sub.input),
{
}

proof fn lemma_group_body(
    fuel: nat,
    sub: Subject,
    pi: usize,
    ii: usize,
    capt: Seq<char>,
    sim: usize,
    gopt: bool,
    g1: Seq<Group>,
    w1: Seq<usize>,
)
    ensures
        done_reports_prefix(group_body(fuel, sub, pi, ii, capt, sim, gopt, g1, w1), sub.input),
{
    if fuel > 0 {
        let f = (fuel - 1) as nat;
        assert forall|ii2: usize, g2: Seq<Group>, w2: Seq<usize>|
            done_reports_prefix(
                #[trigger] group_finish(f, sub, pi, ii, capt, sim, ii2, g2, w2),
                sub.input,
            ) by {
            lemma_group_finish(f, sub, pi, ii, capt, sim, ii2, g2, w2);
        }
    }
}

proof fn lemma_group_step(fuel: nat, sub: Subject, st: MatchState)
    ensures
        done_reports_prefix(group_step(fuel, sub, st), sub.input),
{
    if fuel > 0 {
        let f = (fuel - 1) as nat;
        assert forall|capt: Seq<char>, sim: usize, gopt: bool, g1: Seq<Group>, w1: Seq<usize>|
            done_reports_prefix(
                #[trigger] group_body(f, sub, st.pi, st.ii, capt, sim, gopt, g1, w1),
                sub.input,
            ) by {
            lemma_group_body(f, sub, st.pi, st.ii, capt, sim, gopt, g1, w1);
        }
    }
}

proof fn lemma_step(fuel: nat, sub: Subject, st: MatchState)
    requires
        sub.input.len() <= usize::MAX,
    ensures
        done_reports_prefix(step(fuel, sub, st), sub.input),
{
    if fuel > 0 {
        let f = (fuel - 1) as nat;
        lemma_group_step(f, sub, st);
        assert(done_reports_prefix(bracket_step(sub, st), sub.input));
        assert(done_reports_prefix(literal_step(sub, st), sub.input));
        assert(done_reports_prefix(escape_step(f, sub, st), sub.input));
        assert(done_reports_prefix(repeat_step(f, sub, st), sub.input));
        assert(sub.input.take(sub.input.len() as int) =~= sub.input);
    }
}

proof fn lemma_scan(fuel: nat, sub: Subject, st: MatchState)
    requires
        sub.input.len() <= usize::MAX,
    ensures
        scan(fuel, sub, st) matches Some(o) ==> reports_prefix(o, sub.input),
    decreases fuel,
{
    if fuel > 0 {
        let f = (fuel - 1) as nat;
        if st.pi < sub.patt.len() && st.ii < sub.input.len() {
            lemma_step(f, sub, st);
            match step(f, sub, st) {
                Some(Step::Next(s2)) => lemma_scan(f, sub, s2),
                _ => {},
            }
        } else {
            lemma_finish(f, sub, st);
        }
    }
}

proof fn lemma_first_alternative(
    fuel: nat,
    input: Seq<char>,
    pieces: Seq<Seq<char>>,
    k: int,
    full: bool,
    groups: Seq<Group>,
)
    requires
        input.len() <= usize::MAX,
    ensures
        first_alternative(fuel, input, pieces, k, full, groups) matches Some(o) ==> reports_prefix(
            o,
            input,
        ),
    decreases fuel,
{
    if fuel > 0 {
        let f = (fuel - 1) as nat;
        if 0 <= k < pieces.len() {
            lemma_match_reports_prefix(f, input, pieces[k], full, groups);
            lemma_first_alternative(f, input, pieces, k + 1, full, groups);
        }
    }
}

/// A successful match reports the length of the prefix of the input that
/// it matched, and that prefix as its text.
pub proof fn lemma_match_reports_prefix(
    fuel: nat,
    input: Seq<char>,
    patt: Seq<char>,
    full: bool,
    groups: Seq<Group>,
)
    requires
        input.len() <= usize::MAX,
    ensures
        match_spec(fuel, input, patt, full, groups) matches Some(o) ==> reports_prefix(o, input),
    decreases fuel,
{
    if fuel > 0 {
        let f = (fuel - 1) as nat;
        lemma_first_alternative(f, input, split_on(patt, '|'), 0, full, groups);
        if patt.len() > 0 {
            let pi0: usize = if patt[0] == '^' {
                1
            } else {
                0
            };
            lemma_scan(
                f,
                Subject { input, patt, full },
                state(pi0, 0, Seq::empty(), groups, Seq::empty()),
            );
        }
    }
}

/// `q` is a contiguous piece of `p`.
pub open spec fn is_piece_of(q: Seq<char>, p: Seq<char>) -> bool {
    exists|a: int, b: int| 0 <= a <= b <= p.len() && q == p.subrange(a, b)
}

proof fn lemma_char_at_byte_from_range(s: Seq<char>, b: int, k: int, acc: int)
    requires
        0 <= k <= s.len(),
    ensures
        char_at_byte_from(s, b, k, acc) matches Some(j) ==> k <= j <= s.len(),
    decreases s.len() - k,
{
    if acc != b && !(acc > b || k >= s.len()) {
        lemma_char_at_byte_from_range(s, b, k + 1, acc + char_width(s[k]));
    }
}

proof fn lemma_byte_slice_piece(s: Seq<char>, a: int, b: int)
    ensures
        byte_slice(s, a, b) matches Some(q) ==> is_piece_of(q, s),
{
    lemma_char_at_byte_from_range(s, a, 0, 0);
    lemma_char_at_byte_from_range(s, b, 0, 0);
    if let (Some(ka), Some(kb)) = (char_at_byte(s, a), char_at_byte(s, b)) {
        if ka <= kb {
            assert(0 <= ka <= kb <= s.len() && s.subrange(ka, kb) == s.subrange(ka, kb));
        }
    }
}

/// A character found by `index_of_from` lies at or after `i`, inside `s`.
pub proof fn lemma_index_of_from_range(s: Seq<char>, c: char, i: int)
    ensures
        index_of_from(s, c, i) matches Some(j) ==> 0 <= i <= j < s.len() && s[j] == c,
    decreases s.len() - i,
{
    if 0 <= i < s.len() && s[i] != c {
        lemma_index_of_from_range(s, c, i + 1);
    }
}

proof fn lemma_last_index_before_range(s: Seq<char>, c: char, i: int)
    ensures
        last_index_before(s, c, i) matches Some(j) ==> 0 <= j < i,
    decreases i,
{
    if 0 < i <= s.len() && s[i - 1] != c {
        lemma_last_index_before_range(s, c, i - 1);
    }
}

proof fn lemma_next_pattern_from_piece(p: Seq<char>, plen: int, k: int)
    ensures
        next_pattern_from(p, plen, k) matches Some(q) ==> is_piece_of(q, p),
    decreases plen - k,
{
    if k >= 0 && k >= plen {
        assert(Seq::<char>::empty() == p.subrange(0, 0));
    } else if 0 <= k < p.len() {
        let c = p[k];
        if c == '[' {
            if let Some(e) = index_of(p.skip(k + 1), ']') {
                lemma_byte_slice_piece(p, k, k + e + 2);
            }
        } else if c == '\\' {
            if let Some(j) = skip_backslash_bytes(p, plen, k) {
                lemma_byte_slice_piece(p, j, j + 2);
            }
        } else if c == '(' {
            let rem = p.skip(k + 1);
            lemma_index_of_from_range(rem, ')', 0);
            if let Some(e) = index_of(rem, ')') {
                lemma_last_index_before_range(rem, '(', e);
                let first_start = match last_index_before(rem, '(', e) {
                    Some(j) => k + 1 + j,
                    None => k,
                };
                assert(0 <= first_start + 1 <= k + 1 + e <= p.len());
                assert(p.subrange(first_start + 1, k + 1 + e) == p.subrange(
                    first_start + 1,
                    k + 1 + e,
                ));
            }
        } else if c == '^' || c == '+' || c == ']' || c == ')' {
            lemma_next_pattern_from_piece(p, plen, k + 1);
        } else {
            lemma_byte_slice_piece(p, k, k + 1);
        }
    }
}

/// The sub-pattern that `get_next_pattern` finds is a contiguous piece of
/// the pattern.
pub proof fn lemma_next_pattern_is_piece(p: Seq<char>)
    ensures
        next_pattern(p) matches Some(q) ==> is_piece_of(q, p),
{
    if let Some(n) = byte_len_usize(p) {
        lemma_next_pattern_from_piece(p, n as int, 0);
    }
}

/// Some alternative from the `k`-th on matches within budget `big`.
pub open spec fn some_alternative_matches(
    big: nat,
    input: Seq<char>,
    pieces: Seq<Seq<char>>,
    k: int,
    full: bool,
    groups: Seq<Group>,
) -> bool {
    exists|j: int|
        k <= j < pieces.len() && found(#[trigger] match_spec(big, input, pieces[j], full, groups))
}

/// A match finished and succeeded.
pub open spec fn found(r: Option<Outcome>) -> bool {
    r matches Some(o) && o.0
}

proof fn lemma_first_alternative_found(
    fuel: nat,
    big: nat,
    input: Seq<char>,
    pieces: Seq<Seq<char>>,
    k: int,
    full: bool,
    groups: Seq<Group>,
)
    requires
        fuel <= big,
        0 <= k,
    ensures
        first_alternative(fuel, input, pieces, k, full, groups) matches Some(o) ==> (o.0
            <==> some_alternative_matches(big, input, pieces, k, full, groups)),
    decreases fuel,
{
    if fuel > 0 {
        let f = (fuel - 1) as nat;
        if k < pieces.len() {
            lemma_match_spec_budget(f, big, input, pieces[k], full, groups);
            lemma_first_alternative_found(f, big, input, pieces, k + 1, full, groups);
            if let Some(r) = match_spec(f, input, pieces[k], full, groups) {
                if r.0 {
                    assert(match_spec(big, input, pieces[k], full, groups) == Some(r));
                } else {
                    if some_alternative_matches(big, input, pieces, k, full, groups) {
                        let j = choose|j: int|
                            k <= j < pieces.len() && found(
                                #[trigger] match_spec(big, input, pieces[j], full, groups),
                            );
                        assert(j != k);
                        assert(some_alternative_matches(big, input, pieces, k + 1, full, groups));
                    }
                }
            }
        }
    }
}

/// Alternatives: a pattern that holds `|` and no `)` matches exactly when
/// one of the alternatives between its `|` matches.
pub proof fn lemma_alternatives(
    input: Seq<char>,
    patt: Seq<char>,
    full: bool,
    groups: Seq<Group>,
)
    requires
        index_of(patt, ')') is None,
        index_of(patt, '|') is Some,
    ensures
        match_spec(match_budget(), input, patt, full, groups) matches Some(o) ==> (o.0
            <==> some_alternative_matches(
            match_budget(),
            input,
            split_on(patt, '|'),
            0,
            full,
            groups,
        )),
{
    lemma_first_alternative_found(
        (match_budget() - 1) as nat,
        match_budget(),
        input,
        split_on(patt, '|'),
        0,
        full,
        groups,
    );
}

/// A character with no meaning in patterns.
pub open spec fn is_plain(c: char) -> bool {
    !(c == '[' || c == ']' || c == '\\' || c == '+' || c == '.' || c == '(' || c == ')' || c == '$'
        || c == '?' || c == '^' || c == '|' || c == '*')
}

/// A pattern made of plain characters only.
pub open spec fn is_plain_pattern(p: Seq<char>) -> bool {
    forall|i: int| 0 <= i < p.len() ==> is_plain(#[trigger] p[i])
}

/// `input` begins with `p`.
pub open spec fn starts_with(input: Seq<char>, p: Seq<char>) -> bool {
    p.len() <= input.len() && input.take(p.len() as int) == p
}

proof fn lemma_index_of_absent(s: Seq<char>, c: char, i: int)
    requires
        forall|j: int| 0 <= j < s.len() ==> s[j] != c,
    ensures
        index_of_from(s, c, i) is None,
    decreases s.len() - i,
{
    if 0 <= i < s.len() {
        lemma_index_of_absent(s, c, i + 1);
    }
}

proof fn lemma_check_optional_plain(p: Seq<char>)
    requires
        p.len() >= 2,
        is_plain_pattern(p),
    ensures
        check_optional_spec(p) matches Some(b) ==> !b,
{
    assert(is_plain(p[0]) && is_plain(p[1]));
}

proof fn lemma_plain_scan(fuel: nat, sub: Subject, k: usize, groups: Seq<Group>)
    requires
        is_plain_pattern(sub.patt),
        !sub.full,
        sub.patt.len() > 0,
        sub.patt.len() <= usize::MAX,
        sub.input.len() <= usize::MAX,
        k <= sub.patt.len(),
        k <= sub.input.len(),
        sub.input.take(k as int) == sub.patt.take(k as int),
    ensures
        scan(
            fuel,
            sub,
            state(
                k,
                k,
                if k == 0 {
                    Seq::empty()
                } else {
                    seq![sub.patt[k - 1]]
                },
                groups,
                Seq::empty(),
            ),
        ) matches Some(o) ==> (o.0 <==> starts_with(sub.input, sub.patt)) && (o.0 ==> o == (
            true,
            Some(sub.patt.len() as usize),
            sub.patt,
        )),
    decreases fuel,
{
    let patt = sub.patt;
    let input = sub.input;
    let st = state(
        k,
        k,
        if k == 0 {
            Seq::empty()
        } else {
            seq![patt[k - 1]]
        },
        groups,
        Seq::empty(),
    );
    if fuel > 0 {
        let f = (fuel - 1) as nat;
        assert(is_plain(patt[0]));
        if k < patt.len() && k < input.len() {
            let c = patt[k as int];
            assert(is_plain(c));
            if k + 1 < patt.len() {
                assert(is_plain(patt[k + 1]));
            }
            if c == input[k as int] {
                assert(input.take(k + 1) =~= input.take(k as int).push(input[k as int]));
                assert(patt.take(k + 1) =~= patt.take(k as int).push(patt[k as int]));
                lemma_plain_scan(f, sub, (k + 1) as usize, groups);
                let st2 = state((k + 1) as usize, (k + 1) as usize, seq![c], groups, Seq::empty());
                assert(literal_step(sub, st) == Some(Step::Next(st2)));
                assert(f > 0 ==> step(f, sub, st) == literal_step(sub, st));
            } else {
                assert(f > 0 ==> step(f, sub, st) == literal_step(sub, st));
                if patt.len() - k > 2 {
                    assert(is_plain_pattern(patt.skip(k + 1)));
                    lemma_check_optional_plain(patt.skip(k + 1));
                }
                assert(!starts_with(input, patt)) by {
                    if starts_with(input, patt) {
                        assert(input.take(patt.len() as int)[k as int] == input[k as int]);
                    }
                }
                assert(!(literal_step(sub, st) matches Some(Step::Next(_))));
            }
        } else {
            if k == patt.len() {
                assert(patt.take(k as int) =~= patt);
                assert(is_plain(patt.last()));
                assert(finish(f, sub, st) matches Some(o) ==> o == (true, Some(k), patt));
            } else {
                assert(!starts_with(input, patt));
                assert(is_plain(patt[k as int]));
                if patt.len() - k > 1 {
                    assert(is_plain(patt[k + 1]));
                    assert(is_plain_pattern(patt.skip(k as int)));
                    lemma_check_optional_plain(patt.skip(k as int));
                }
            }
        }
    }
}

/// A pattern of plain characters matches a line exactly when the line
/// begins with it, and then reports the pattern itself as the matched text.
pub proof fn lemma_plain_pattern(
    fuel: nat,
    input: Seq<char>,
    patt: Seq<char>,
    groups: Seq<Group>,
)
    requires
        is_plain_pattern(patt),
        patt.len() <= usize::MAX,
        input.len() <= usize::MAX,
    ensures
        match_spec(fuel, input, patt, false, groups) matches Some(o) ==> (o.0 <==> starts_with(
            input,
            patt,
        )) && (o.0 ==> o == (true, Some(patt.len() as usize), patt)),
{
    assert forall|j: int| 0 <= j < patt.len() implies patt[j] != ')' && patt[j] != '|' by {
        assert(is_plain(patt[j]));
    }
    lemma_index_of_absent(patt, ')', 0);
    lemma_index_of_absent(patt, '|', 0);
    if fuel > 0 && patt.len() > 0 && input.len() > 0 {
        let f = (fuel - 1) as nat;
        assert(is_plain(patt[0]));
        assert(input.take(0) =~= patt.take(0));
        let sub = Subject { input, patt, full: false };
        lemma_plain_scan(f, sub, 0, groups);
    }
}

/// The backward search from `ci` down to `ii`: it stops at the first
/// position, from the top, from which `rem` matches, and at `ii` when there
/// is none above it.
proof fn lemma_extra_scan(
    fuel: nat,
    big: nat,
    chars: Seq<char>,
    rem: Seq<char>,
    ii: usize,
    groups: Seq<Group>,
    ci: usize,
)
    requires
        fuel <= big,
        ii <= ci < chars.len(),
    ensures
        extra_scan(fuel, chars, rem, ii, groups, ci) matches Some(r) ==> {
            &&& r.0
            &&& ii <= r.1 <= ci
            &&& r.1 > ii ==> found(match_spec(big, chars.skip(r.1 as int), rem, false, groups))
            &&& forall|k: int|
                r.1 < k <= ci ==> !found(
                    #[trigger] match_spec(big, chars.skip(k), rem, false, groups),
                )
        },
    decreases fuel,
{
    if fuel > 0 && ci > ii {
        let f = (fuel - 1) as nat;
        lemma_match_spec_budget(f, big, chars.skip(ci as int), rem, false, groups);
        if let Some(m) = match_spec(f, chars.skip(ci as int), rem, false, groups) {
            if !m.0 {
                lemma_extra_scan(f, big, chars, rem, ii, groups, (ci - 1) as usize);
                if let Some(r) = extra_scan(fuel, chars, rem, ii, groups, ci) {
                    assert forall|k: int| r.1 < k <= ci implies !found(
                        #[trigger] match_spec(big, chars.skip(k), rem, false, groups),
                    ) by {
                        if k == ci {
                            assert(match_spec(big, chars.skip(k), rem, false, groups) == Some(m));
                        }
                    }
                }
            }
        }
    }
}

/// `match_extra` at the end of the pattern: when nothing, or only `$`,
/// follows the repeated sub-pattern, it moves from `ii` past what
/// `get_numrepeats` covers with the sub-pattern anchored by `^`; it succeeds
/// when nothing follows, and with `$` exactly when that reaches the end of
/// the input.
pub proof fn lemma_match_extra_at_end(
    fuel: nat,
    prev: Seq<char>,
    chars: Seq<char>,
    line: Seq<char>,
    ii: usize,
    groups: Seq<Group>,
    pi: usize,
    patt: Seq<char>,
)
    requires
        pi < patt.len(),
        patt.skip(pi + 1).len() == 0 || patt.skip(pi + 1) == seq!['$'],
    ensures
        match_extra_spec(fuel, prev, chars, line, ii, groups, pi, patt) matches Some(r) ==> {
            &&& numrepeats_spec(fuel, ii, line, seq!['^'] + prev, chars, groups) matches Some(n)
            &&& r.1 == ii + n.1
            &&& r.0 == (patt.skip(pi + 1).len() == 0 || r.1 == chars.len())
        },
{
    let rem = patt.skip(pi + 1);
    if rem.len() != 0 {
        assert(byte_len_from(rem, 1) == 0);
        assert(byte_len_from(rem, 0) == 1);
    }
}

/// `match_extra` before more pattern: when something other than `$`
/// follows the repeated sub-pattern and `ii` lies inside the input, it
/// succeeds with the last position above `ii` from which the rest of the
/// pattern matches, and with `ii` itself when there is none.
pub proof fn lemma_match_extra_backtracks(
    prev: Seq<char>,
    chars: Seq<char>,
    line: Seq<char>,
    ii: usize,
    groups: Seq<Group>,
    pi: usize,
    patt: Seq<char>,
)
    requires
        pi < patt.len(),
        patt.skip(pi + 1).len() != 0,
        patt.skip(pi + 1) != seq!['$'],
        ii < chars.len() <= usize::MAX,
    ensures
        match_extra_spec(match_budget(), prev, chars, line, ii, groups, pi, patt) matches Some(r)
            ==> {
            let rem = patt.skip(pi + 1);
            &&& r.0
            &&& ii <= r.1 < chars.len()
            &&& r.1 > ii ==> found(match_spec(match_budget(), chars.skip(r.1 as int), rem, false, groups))
            &&& forall|k: int|
                r.1 < k < chars.len() ==> !found(
                    #[trigger] match_spec(match_budget(), chars.skip(k), rem, false, groups),
                )
        },
{
    let rem = patt.skip(pi + 1);
    lemma_extra_scan(
        match_budget(),
        match_budget(),
        chars,
        rem,
        ii,
        groups,
        (chars.len() - 1) as usize,
    );
}

} // verus!
