//! A small grep-like pattern matcher over characters.
//!
//! `match_by_char` matches a line of input against a pattern that may hold
//! plain characters, `.`, the classes `\d` and `\w`, bracket groups `[abc]`
//! and `[^abc]`, the optional marker `?`, the repetition `+`, the anchors
//! `^` and `$`, alternatives `a|b`, capture groups `( )` and back references
//! `\1` to `\9`.
pub mod anchor;
pub mod budget;
pub mod classes;
pub mod cursor;
pub mod laws;
pub mod matcher;
pub mod model;
pub mod patterns;
pub mod sub_patterns;
pub mod text;
pub mod utils;

use vstd::prelude::*;
use crate::cursor::result_view;
use crate::laws::{
    is_plain_pattern, lemma_match_reports_prefix, lemma_plain_pattern, reports_prefix, starts_with,
};
use crate::matcher::match_chars;
use crate::model::{match_budget, match_spec, Outcome};
use crate::text::{chars_of, string_of};
use crate::utils::{groups_from, groups_of};

verus! {

/// What `match_by_char(input, pattern, full, groups)` returns, or `None`
/// where it panics or does not finish.
pub open spec fn grep_match(
    input: Seq<char>,
    pattern: Seq<char>,
    full: bool,
    groups: Seq<(usize, usize, String)>,
) -> Option<Outcome> {
    match_spec(match_budget(), input, pattern, full, groups_of(groups))
}

/// An outcome with its text as a sequence.
pub open spec fn reported(r: (bool, Option<usize>, String)) -> Outcome {
    (r.0, r.1, r.2@)
}

/// Matches `input_line` against `pattern` with the step budget `fuel`.
/// Gives `None` exactly where the matcher would panic or needs more steps
/// than `fuel` allows; otherwise what `match_by_char` gives.
pub fn try_match_by_char(
    input_line: &str,
    pattern: &str,
    full_match_optional: bool,
    passed_groups: &Vec<(usize, usize, String)>,
    fuel: u64,
) -> (r: Option<(bool, Option<usize>, String)>)
    ensures
        match r {
            Some(o) => match_spec(
                fuel as nat,
                input_line@,
                pattern@,
                full_match_optional,
                groups_of(passed_groups@),
            ) == Some(reported(o)),
            None => match_spec(
                fuel as nat,
                input_line@,
                pattern@,
                full_match_optional,
                groups_of(passed_groups@),
            ) is None,
        },
        r matches Some(o) ==> reports_prefix(reported(o), input_line@),
        r matches Some(o) ==> (!full_match_optional && is_plain_pattern(pattern@) ==> (o.0
            <==> starts_with(input_line@, pattern@))),
{
    let input = chars_of(input_line);
    let patt = chars_of(pattern);
    let groups = groups_from(passed_groups);
    let n = input.len();
    let m = patt.len();
    let res = match_chars(fuel, &input, &patt, full_match_optional, &groups);
    proof {
        assert(input_line@.len() == n);
        assert(pattern@.len() == m);
        if is_plain_pattern(pattern@) {
            lemma_plain_pattern(fuel as nat, input_line@, pattern@, groups_of(passed_groups@));
        }
        lemma_match_reports_prefix(
            fuel as nat,
            input_line@,
            pattern@,
            full_match_optional,
            groups_of(passed_groups@),
        );
        assert(result_view(res) == match_spec(
            fuel as nat,
            input_line@,
            pattern@,
            full_match_optional,
            groups_of(passed_groups@),
        ));
    }
    match res {
        None => None,
        Some(o) => Some((o.0, o.1, string_of(&o.2))),
    }
}

/// Matches `input_line` against `pattern`. Gives whether it matched, a
/// length of input and a text: on a match, the length and the text of the
/// matched prefix of the input. With `full_match_optional`, the match need
/// not reach the end that the pattern asks for: matching a prefix suffices. `passed_groups` are the capture
/// groups that back references may name.
///
/// The caller must not pass inputs on which the matcher panics or does not
/// finish (see `grep_match`): an empty pattern or input, a back reference to
/// a group that does not exist, a `(` without `)`, and others.
pub fn match_by_char(
    input_line: &str,
    pattern: &str,
    full_match_optional: bool,
    passed_groups: &Vec<(usize, usize, String)>,
) -> (r: (bool, Option<usize>, String))
    requires
        grep_match(input_line@, pattern@, full_match_optional, passed_groups@) is Some,
    ensures
        grep_match(input_line@, pattern@, full_match_optional, passed_groups@) == Some(
            reported(r),
        ),
        reports_prefix(reported(r), input_line@),
        !full_match_optional && is_plain_pattern(pattern@) ==> (r.0 <==> starts_with(
            input_line@,
            pattern@,
        )),
{
    match try_match_by_char(input_line, pattern, full_match_optional, passed_groups, u64::MAX) {
        Some(o) => o,
        None => {
            proof {
                assert(false);
            }
            (false, None, String::new())
        },
    }
}

} // verus!
