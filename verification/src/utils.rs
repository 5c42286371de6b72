//! The matcher's helpers, on strings: whether a sub-pattern is optional,
//! which sub-pattern comes next, how many sub-patterns are like a repeated
//! one, and how often a sub-pattern repeats.
use vstd::prelude::*;
use crate::cursor::{groups_view, lemma_groups_view_push, ExecGroup};
use crate::laws::{is_piece_of, lemma_next_pattern_is_piece};
use crate::matcher::{anchored, match_chars, similar_exec};
use crate::model::{
    check_optional_spec, extra_scan, match_budget, match_extra_spec, next_pattern,
    numrepeats_loop, numrepeats_spec, similar_spec, Group,
};
use crate::patterns::{check_optional_chars, next_pattern_chars};
use crate::text::{byte_length, chars_of, string_of, suffix_from};

verus! {

/// Capture groups as callers pass them, as the model keeps them: whether
/// the `)` position is set, and the text as a sequence.
pub open spec fn groups_of(g: Seq<(usize, usize, String)>) -> Seq<Group> {
    Seq::new(g.len(), |i: int| (g[i].1 != 0, g[i].2@))
}

/// The capture groups with their texts as character vectors.
pub fn groups_from(g: &Vec<(usize, usize, String)>) -> (r: Vec<ExecGroup>)
    ensures
        groups_view(r@) == groups_of(g@),
{
    let mut r: Vec<ExecGroup> = Vec::new();
    let mut i: usize = 0;
    while i < g.len()
        invariant
            i <= g.len(),
            groups_view(r@) == groups_of(g@.take(i as int)),
        decreases g.len() - i,
    {
        let t = chars_of(g[i].2.as_str());
        let ghost before = r@;
        r.push((g[i].0, g[i].1, t));
        proof {
            lemma_groups_view_push(before, (g@[i as int].0, g@[i as int].1, t));
            assert(groups_of(g@.take(i + 1)) =~= groups_of(g@.take(i as int)).push(
                (g@[i as int].1 != 0, t@),
            ));
        }
        i = i + 1;
    }
    assert(g@.take(g.len() as int) =~= g@);
    r
}

/// Whether the first sub-pattern of `pattern` is followed by `*` or `?`.
/// For a group, the character read is the group's own `)`, so a group is
/// never reported optional, whatever follows it. The caller must not pass a pattern on which the check panics (see
/// `check_optional_spec`), such as a single plain character.
pub fn check_optional(pattern: &str) -> (r: bool)
    requires
        check_optional_spec(pattern@) is Some,
    ensures
        check_optional_spec(pattern@) == Some(r),
{
    let p = chars_of(pattern);
    match check_optional_chars(&p) {
        Some(b) => b,
        None => false,
    }
}

/// The first sub-pattern of `pattern`: a bracket group, an escape, the
/// innermost of the first groups, or a single character; leading `^`, `+`,
/// `]` and `)` are skipped. The caller must not pass a pattern on which the
/// search panics or loops (see `next_pattern`).
pub fn get_next_pattern(pattern: &str) -> (r: String)
    requires
        next_pattern(pattern@) is Some,
    ensures
        next_pattern(pattern@) == Some(r@),
        is_piece_of(r@, pattern@),
{
    proof {
        lemma_next_pattern_is_piece(pattern@);
    }
    let p = chars_of(pattern);
    match next_pattern_chars(&p) {
        Some(v) => string_of(&v),
        None => String::new(),
    }
}

/// How many of the sub-patterns that follow position `patt_index` of
/// `patt_chars` the sub-pattern `prev_pattern` would also match, as
/// `similar_spec` states.
pub fn check_num_similar_pattern(
    patt_index: usize,
    prev_pattern: &str,
    patt_chars: &Vec<char>,
    patt_capture_groups: &Vec<(usize, usize, String)>,
) -> (r: usize)
    requires
        similar_spec(
            match_budget(),
            patt_index,
            prev_pattern@,
            patt_chars@,
            groups_of(patt_capture_groups@),
        ) is Some,
    ensures
        similar_spec(
            match_budget(),
            patt_index,
            prev_pattern@,
            patt_chars@,
            groups_of(patt_capture_groups@),
        ) == Some(r),
{
    let prev = chars_of(prev_pattern);
    let groups = groups_from(patt_capture_groups);
    match similar_exec(u64::MAX, patt_index, &prev, patt_chars, &groups) {
        Some(n) => n,
        None => 0,
    }
}

/// The loop of `get_numrepeats` from position `ui_in`, as `numrepeats_loop` states.
fn numrepeats_exec(
    fuel: u64,
    line_len: usize,
    use_patt: &Vec<char>,
    chars: &Vec<char>,
    groups: &Vec<ExecGroup>,
    ui_in: usize,
) -> (r: Option<(usize, usize)>)
    ensures
        r == numrepeats_loop(
            fuel as nat,
            line_len as int,
            use_patt@,
            chars@,
            groups_view(groups@),
            ui_in,
            0,
            0,
        ),
{
    let ghost gv = groups_view(groups@);
    let ghost target = numrepeats_loop(fuel as nat, line_len as int, use_patt@, chars@, gv, ui_in, 0, 0);
    let mut fl = fuel;
    let mut ui = ui_in;
    let mut nr: usize = 0;
    let mut ms: usize = 0;
    loop
        invariant
            gv == groups_view(groups@),
            target == numrepeats_loop(fuel as nat, line_len as int, use_patt@, chars@, gv, ui_in, 0, 0),
            numrepeats_loop(fl as nat, line_len as int, use_patt@, chars@, gv, ui, nr, ms) == target,
        decreases fl,
    {
        if fl == 0 {
            return None;
        }
        let f = fl - 1;
        if ui >= line_len {
            return Some((nr, ms));
        }
        if ui > chars.len() {
            return None;
        }
        let rest = suffix_from(chars, ui);
        match match_chars(f, &rest, use_patt, true, groups) {
            None => return None,
            Some(r) => {
                if !r.0 {
                    return Some((nr, ms));
                }
                match r.1 {
                    None => return None,
                    Some(n) => match (ms.checked_add(n), ui.checked_add(n), nr.checked_add(1)) {
                        (Some(a), Some(b), Some(c)) => {
                            ms = a;
                            ui = b;
                            nr = c;
                            fl = f;
                        },
                        _ => return None,
                    },
                }
            },
        }
    }
}

/// `get_numrepeats` with the step budget `fuel`: `None` exactly where it
/// would panic or needs more steps than `fuel` allows.
pub fn try_get_numrepeats(
    input_index: usize,
    input_line: &str,
    use_patt: &str,
    input_chars: &Vec<char>,
    patt_capture_groups: &Vec<(usize, usize, String)>,
    fuel: u64,
) -> (r: Option<(usize, usize)>)
    ensures
        r == numrepeats_spec(
            fuel as nat,
            input_index,
            input_line@,
            use_patt@,
            input_chars@,
            groups_of(patt_capture_groups@),
        ),
{
    let line = chars_of(input_line);
    let up = chars_of(use_patt);
    let groups = groups_from(patt_capture_groups);
    let line_len = match byte_length(&line) {
        Some(n) => n,
        None => return None,
    };
    numrepeats_exec(fuel, line_len, &up, input_chars, &groups, input_index)
}

/// How many times in a row `use_patt` matches from position `input_index`
/// of `input_chars`, and the length those matches cover, as
/// `numrepeats_spec` states. The loop runs while the position is below the
/// byte length of `input_line`.
pub fn get_numrepeats(
    input_index: usize,
    input_line: &str,
    use_patt: String,
    input_chars: &Vec<char>,
    patt_capture_groups: &Vec<(usize, usize, String)>,
) -> (r: (usize, usize))
    requires
        numrepeats_spec(
            match_budget(),
            input_index,
            input_line@,
            use_patt@,
            input_chars@,
            groups_of(patt_capture_groups@),
        ) is Some,
    ensures
        numrepeats_spec(
            match_budget(),
            input_index,
            input_line@,
            use_patt@,
            input_chars@,
            groups_of(patt_capture_groups@),
        ) == Some(r),
{
    match try_get_numrepeats(
        input_index,
        input_line,
        use_patt.as_str(),
        input_chars,
        patt_capture_groups,
        u64::MAX,
    ) {
        Some(t) => t,
        None => {
            proof {
                assert(false);
            }
            (0, 0)
        },
    }
}

/// The backward search of `match_extra`, as `extra_scan` states.
fn extra_scan_exec(
    fuel: u64,
    chars: &Vec<char>,
    rem: &Vec<char>,
    ii: usize,
    groups: &Vec<ExecGroup>,
    ci_in: usize,
) -> (r: Option<(bool, usize)>)
    ensures
        r == extra_scan(fuel as nat, chars@, rem@, ii, groups_view(groups@), ci_in),
{
    let ghost gv = groups_view(groups@);
    let ghost target = extra_scan(fuel as nat, chars@, rem@, ii, gv, ci_in);
    let mut fl = fuel;
    let mut ci = ci_in;
    loop
        invariant
            gv == groups_view(groups@),
            target == extra_scan(fuel as nat, chars@, rem@, ii, gv, ci_in),
            extra_scan(fl as nat, chars@, rem@, ii, gv, ci) == target,
        decreases fl,
    {
        if fl == 0 {
            return None;
        }
        let f = fl - 1;
        if ci <= ii {
            return Some((ci >= ii, ci));
        }
        if ci > chars.len() {
            return None;
        }
        let rest = suffix_from(chars, ci);
        match match_chars(f, &rest, rem, false, groups) {
            None => return None,
            Some(r) => {
                if r.0 {
                    return Some((ci >= ii, ci));
                }
                ci = ci - 1;
                fl = f;
            },
        }
    }
}

/// `match_extra` with the step budget `fuel`: `None` exactly where it
/// would panic or needs more steps than `fuel` allows.
pub fn try_match_extra(
    prev_pattern: &str,
    input_chars: &Vec<char>,
    input_line: &str,
    input_index: usize,
    patt_capture_groups: &Vec<(usize, usize, String)>,
    patt_index: usize,
    patt_chars: &Vec<char>,
    fuel: u64,
) -> (r: Option<(bool, usize)>)
    ensures
        r == match_extra_spec(
            fuel as nat,
            prev_pattern@,
            input_chars@,
            input_line@,
            input_index,
            groups_of(patt_capture_groups@),
            patt_index,
            patt_chars@,
        ),
{
    if patt_index >= patt_chars.len() {
        return None;
    }
    let prev = chars_of(prev_pattern);
    let groups = groups_from(patt_capture_groups);
    let rem = suffix_from(patt_chars, patt_index + 1);
    let use_patt = anchored(&prev);
    let rl = match byte_length(&rem) {
        Some(n) => n,
        None => return None,
    };
    let is_end = rem.len() == 1 && rem[0] == '$';
    assert(is_end == (rem@ == seq!['$'])) by {
        if rem@ == seq!['$'] {
            assert(rem@.len() == 1 && rem@[0] == '$');
        }
        if is_end {
            assert(rem@ =~= seq!['$']);
        }
    }
    if (rl == 1 && is_end) || rem.len() == 0 {
        let line = chars_of(input_line);
        let line_len = match byte_length(&line) {
            Some(n) => n,
            None => return None,
        };
        let ms = match numrepeats_exec(fuel, line_len, &use_patt, input_chars, &groups, input_index) {
            Some(t) => t.1,
            None => return None,
        };
        match input_index.checked_add(ms) {
            Some(ui) => Some((rem.len() == 0 || ui == input_chars.len(), ui)),
            None => None,
        }
    } else if input_chars.len() == 0 {
        None
    } else {
        extra_scan_exec(fuel, input_chars, &rem, input_index, &groups, input_chars.len() - 1)
    }
}

/// Where the sub-pattern `prev_pattern`, repeated from `input_index`, may
/// stop so that the rest of the pattern after `patt_index` still matches,
/// as `match_extra_spec` states.
pub fn match_extra(
    prev_pattern: &str,
    input_chars: &Vec<char>,
    input_line: &str,
    input_index: usize,
    patt_capture_groups: &Vec<(usize, usize, String)>,
    patt_index: usize,
    patt_chars: &Vec<char>,
) -> (r: (bool, usize))
    requires
        match_extra_spec(
            match_budget(),
            prev_pattern@,
            input_chars@,
            input_line@,
            input_index,
            groups_of(patt_capture_groups@),
            patt_index,
            patt_chars@,
        ) is Some,
    ensures
        match_extra_spec(
            match_budget(),
            prev_pattern@,
            input_chars@,
            input_line@,
            input_index,
            groups_of(patt_capture_groups@),
            patt_index,
            patt_chars@,
        ) == Some(r),
{
    match try_match_extra(
        prev_pattern,
        input_chars,
        input_line,
        input_index,
        patt_capture_groups,
        patt_index,
        patt_chars,
        u64::MAX,
    ) {
        Some(t) => t,
        None => {
            proof {
                assert(false);
            }
            (false, 0)
        },
    }
}

} // verus!
