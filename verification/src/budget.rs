//! The step budget only bounds how long the matcher may run: once a
//! budget suffices, any larger budget gives the same result.
use vstd::prelude::*;
use crate::classes::digit_value;
use crate::model::{
    alternative_len, escape_step, finish, first_alternative, give_text, group_body, group_finish,
    group_step, layered_inner, layered_outer, match_spec, next_pattern, open_groups, repeat_count,
    repeat_step, scan, similar_loop, similar_next, similar_spec, skip_backslashes, state, step,
    Group, MatchState, Step, Subject,
};
use crate::text::{byte_len_usize, byte_suffix, split_inclusive_on, split_on};

verus! {

/// Budget independence of the matcher: where a match finishes within budget
/// `f1`, it finishes with the same outcome within every larger budget `f2`.
pub proof fn lemma_match_spec_budget(
    f1: nat,
    f2: nat,
    input: Seq<char>,
    patt: Seq<char>,
    full: bool,
    groups: Seq<Group>,
)
    requires
        f1 <= f2,
    ensures
        match_spec(f1, input, patt, full, groups) is Some ==> match_spec(f2, input, patt, full, groups)
            == match_spec(f1, input, patt, full, groups),
    decreases f1,
{
    if f1 > 0 {
        let a = (f1 - 1) as nat;
        let b = (f2 - 1) as nat;
        lemma_first_alternative_budget(a, b, input, split_on(patt, '|'), 0, full, groups);
        if patt.len() > 0 {
            let pi0: usize = if patt[0] == '^' {
                1
            } else {
                0
            };
            lemma_scan_budget(
                a,
                b,
                Subject { input, patt, full },
                state(pi0, 0, Seq::empty(), groups, Seq::empty()),
            );
        }
    }
}

/// `first_alternative` keeps its result under a larger budget.
pub proof fn lemma_first_alternative_budget(
    f1: nat,
    f2: nat,
    input: Seq<char>,
    pieces: Seq<Seq<char>>,
    k: int,
    full: bool,
    groups: Seq<Group>,
)
    requires
        f1 <= f2,
    ensures
        first_alternative(f1, input, pieces, k, full, groups) is Some ==> first_alternative(
            f2,
            input,
            pieces,
            k,
            full,
            groups,
        ) == first_alternative(f1, input, pieces, k, full, groups),
    decreases f1,
{
    if f1 > 0 {
        let a = (f1 - 1) as nat;
        let b = (f2 - 1) as nat;
        if 0 <= k < pieces.len() {
            lemma_match_spec_budget(a, b, input, pieces[k], full, groups);
            lemma_first_alternative_budget(a, b, input, pieces, k + 1, full, groups);
        }
    }
}

/// `scan` keeps its result under a larger budget.
pub proof fn lemma_scan_budget(f1: nat, f2: nat, sub: Subject, st: MatchState)
    requires
        f1 <= f2,
    ensures
        scan(f1, sub, st) is Some ==> scan(f2, sub, st) == scan(f1, sub, st),
    decreases f1,
{
    if f1 > 0 {
        let a = (f1 - 1) as nat;
        let b = (f2 - 1) as nat;
        if st.pi < sub.patt.len() && st.ii < sub.input.len() {
            lemma_step_budget(a, b, sub, st);
            if let Some(Step::Next(s2)) = step(a, sub, st) {
                lemma_scan_budget(a, b, sub, s2);
            }
        } else {
            lemma_finish_budget(a, b, sub, st);
        }
    }
}

/// `finish` keeps its result under a larger budget.
pub proof fn lemma_finish_budget(f1: nat, f2: nat, sub: Subject, st: MatchState)
    requires
        f1 <= f2,
    ensures
        finish(f1, sub, st) is Some ==> finish(f2, sub, st) == finish(f1, sub, st),
    decreases f1,
{
    if f1 > 0 {
        let a = (f1 - 1) as nat;
        let b = (f2 - 1) as nat;
        if let Some(np) = next_pattern(sub.patt) {
            lemma_match_spec_budget(a, b, sub.input.take(1), np, sub.full, st.groups);
        }
    }
}

/// `step` keeps its result under a larger budget.
pub proof fn lemma_step_budget(f1: nat, f2: nat, sub: Subject, st: MatchState)
    requires
        f1 <= f2,
    ensures
        step(f1, sub, st) is Some ==> step(f2, sub, st) == step(f1, sub, st),
    decreases f1,
{
    if f1 > 0 {
        let a = (f1 - 1) as nat;
        let b = (f2 - 1) as nat;
        lemma_escape_step_budget(a, b, sub, st);
        lemma_repeat_step_budget(a, b, sub, st);
        lemma_group_step_budget(a, b, sub, st);
    }
}

/// `escape_step` keeps its result under a larger budget.
pub proof fn lemma_escape_step_budget(f1: nat, f2: nat, sub: Subject, st: MatchState)
    requires
        f1 <= f2,
    ensures
        escape_step(f1, sub, st) is Some ==> escape_step(f2, sub, st) == escape_step(f1, sub, st),
    decreases f1,
{
    if f1 > 0 {
        let a = (f1 - 1) as nat;
        let b = (f2 - 1) as nat;
        if let Some(k) = skip_backslashes(sub.patt, st.pi as int) {
            if k + 2 <= sub.patt.len() {
                let num = digit_value(sub.patt[k + 1]);
                if 0 < num <= st.groups.len() {
                    lemma_match_spec_budget(
                        a,
                        b,
                        sub.input.skip(st.ii as int),
                        st.groups[num - 1].1,
                        sub.full,
                        st.groups,
                    );
                }
            }
        }
    }
}

/// `repeat_step` keeps its result under a larger budget.
pub proof fn lemma_repeat_step_budget(f1: nat, f2: nat, sub: Subject, st: MatchState)
    requires
        f1 <= f2,
    ensures
        repeat_step(f1, sub, st) is Some ==> repeat_step(f2, sub, st) == repeat_step(f1, sub, st),
    decreases f1,
{
    if f1 > 0 {
        let a = (f1 - 1) as nat;
        let b = (f2 - 1) as nat;
        lemma_repeat_count_budget(a, b, sub.input, seq!['^'] + st.prev, st.groups, st.ii, 0);
        lemma_similar_spec_budget(a, b, st.pi, st.prev, sub.patt, st.groups);
    }
}

/// `repeat_count` keeps its result under a larger budget.
pub proof fn lemma_repeat_count_budget(
    f1: nat,
    f2: nat,
    input: Seq<char>,
    use_patt: Seq<char>,
    groups: Seq<Group>,
    ii: usize,
    nr: usize,
)
    requires
        f1 <= f2,
    ensures
        repeat_count(f1, input, use_patt, groups, ii, nr) is Some ==> repeat_count(
            f2,
            input,
            use_patt,
            groups,
            ii,
            nr,
        ) == repeat_count(f1, input, use_patt, groups, ii, nr),
    decreases f1,
{
    if f1 > 0 {
        let a = (f1 - 1) as nat;
        let b = (f2 - 1) as nat;
        if ii < input.len() {
            lemma_match_spec_budget(a, b, input.skip(ii as int), use_patt, true, groups);
            if let Some(r) = match_spec(a, input.skip(ii as int), use_patt, true, groups) {
                if let Some(n) = r.1 {
                    if ii + n <= usize::MAX && nr + 1 <= usize::MAX {
                        lemma_repeat_count_budget(
                            a,
                            b,
                            input,
                            use_patt,
                            groups,
                            (ii + n) as usize,
                            (nr + 1) as usize,
                        );
                    }
                }
            }
        }
    }
}

/// `similar_spec` keeps its result under a larger budget.
pub proof fn lemma_similar_spec_budget(
    f1: nat,
    f2: nat,
    pi: usize,
    prev: Seq<char>,
    patt: Seq<char>,
    groups: Seq<Group>,
)
    requires
        f1 <= f2,
    ensures
        similar_spec(f1, pi, prev, patt, groups) is Some ==> similar_spec(f2, pi, prev, patt, groups)
            == similar_spec(f1, pi, prev, patt, groups),
    decreases f1,
{
    if f1 > 0 {
        let a = (f1 - 1) as nat;
        let b = (f2 - 1) as nat;
        if pi + 1 <= usize::MAX {
            lemma_similar_loop_budget(a, b, prev, patt, groups, (pi + 1) as usize, 0);
        }
    }
}

/// `similar_loop` keeps its result under a larger budget.
pub proof fn lemma_similar_loop_budget(
    f1: nat,
    f2: nat,
    prev: Seq<char>,
    patt: Seq<char>,
    groups: Seq<Group>,
    ci: usize,
    sim: usize,
)
    requires
        f1 <= f2,
    ensures
        similar_loop(f1, prev, patt, groups, ci, sim) is Some ==> similar_loop(
            f2,
            prev,
            patt,
            groups,
            ci,
            sim,
        ) == similar_loop(f1, prev, patt, groups, ci, sim),
    decreases f1,
{
    if f1 > 0 {
        let a = (f1 - 1) as nat;
        let b = (f2 - 1) as nat;
        if let Some(next) = next_pattern(patt.skip(ci as int)) {
            if next.len() >= 2 {
                let num = digit_value(next[1]);
                if 0 < num <= groups.len() {
                    lemma_similar_spec_budget(a, b, 0, prev, groups[num - 1].1, groups);
                }
            }
            if let Some(prev_len) = byte_len_usize(prev) {
                lemma_similar_next_budget(a, b, prev, patt, groups, ci, sim, next, prev_len);
                if next.len() >= 2 {
                    let num = digit_value(next[1]);
                    if 0 < num <= groups.len() {
                        if let Some(k) = similar_spec(a, 0, prev, groups[num - 1].1, groups) {
                            if sim + k <= usize::MAX {
                                lemma_similar_next_budget(
                                    a,
                                    b,
                                    prev,
                                    patt,
                                    groups,
                                    ci,
                                    (sim + k) as usize,
                                    next,
                                    prev_len,
                                );
                            }
                        }
                    }
                }
            }
        }
    }
}

/// `similar_next` keeps its result under a larger budget.
pub proof fn lemma_similar_next_budget(
    f1: nat,
    f2: nat,
    prev: Seq<char>,
    patt: Seq<char>,
    groups: Seq<Group>,
    ci: usize,
    sim: usize,
    next: Seq<char>,
    prev_len: usize,
)
    requires
        f1 <= f2,
    ensures
        similar_next(f1, prev, patt, groups, ci, sim, next, prev_len) is Some ==> similar_next(
            f2,
            prev,
            patt,
            groups,
            ci,
            sim,
            next,
            prev_len,
        ) == similar_next(f1, prev, patt, groups, ci, sim, next, prev_len),
    decreases f1,
{
    if f1 > 0 {
        let a = (f1 - 1) as nat;
        let b = (f2 - 1) as nat;
        lemma_match_spec_budget(a, b, next, prev, false, groups);
        if ci + prev_len <= usize::MAX {
            lemma_similar_loop_budget(a, b, prev, patt, groups, (ci + prev_len) as usize, sim);
            if sim + 1 <= usize::MAX {
                lemma_similar_loop_budget(
                    a,
                    b,
                    prev,
                    patt,
                    groups,
                    (ci + prev_len) as usize,
                    (sim + 1) as usize,
                );
            }
        }
        if let Some(nl) = byte_len_usize(next) {
            if ci + nl <= usize::MAX && sim + 1 <= usize::MAX {
                lemma_similar_loop_budget(
                    a,
                    b,
                    prev,
                    patt,
                    groups,
                    (ci + nl) as usize,
                    (sim + 1) as usize,
                );
            }
        }
    }
}

/// `group_step` keeps its result under a larger budget.
pub proof fn lemma_group_step_budget(f1: nat, f2: nat, sub: Subject, st: MatchState)
    requires
        f1 <= f2,
    ensures
        group_step(f1, sub, st) is Some ==> group_step(f2, sub, st) == group_step(f1, sub, st),
    decreases f1,
{
    if f1 > 0 {
        let a = (f1 - 1) as nat;
        let b = (f2 - 1) as nat;
        let pi = st.pi as int;
        let rem = sub.patt.skip(pi + 1);
        let g0 = st.groups.push((false, Seq::empty()));
        if let Some((cge, g1, w1)) = open_groups(rem, 0, 1, g0, st.waiting) {
            let cbi = pi + cge + 1;
            let capt = sub.patt.subrange(pi + 1, cbi);
            if capt.len() > 0 {
                lemma_similar_spec_budget(a, b, cbi as usize, capt.drop_last(), sub.patt, g1);
                let gopt = sub.patt.len() > cbi && sub.patt[cbi] == '?';
                lemma_group_body_budget(a, b, sub, st.pi, st.ii, capt, 0, gopt, g1, w1);
                if let Some(sim) = similar_spec(a, cbi as usize, capt.drop_last(), sub.patt, g1) {
                    lemma_group_body_budget(a, b, sub, st.pi, st.ii, capt, sim, gopt, g1, w1);
                }
            }
        }
    }
}

/// `group_body` keeps its result under a larger budget.
pub proof fn lemma_group_body_budget(
    f1: nat,
    f2: nat,
    sub: Subject,
    pi: usize,
    ii: usize,
    capt: Seq<char>,
    sim: usize,
    gopt: bool,
    g1: Seq<Group>,
    w1: Seq<usize>,
)
    requires
        f1 <= f2,
    ensures
        group_body(f1, sub, pi, ii, capt, sim, gopt, g1, w1) is Some ==> group_body(
            f2,
            sub,
            pi,
            ii,
            capt,
            sim,
            gopt,
            g1,
            w1,
        ) == group_body(f1, sub, pi, ii, capt, sim, gopt, g1, w1),
    decreases f1,
{
    if f1 > 0 {
        let a = (f1 - 1) as nat;
        let b = (f2 - 1) as nat;
        lemma_layered_outer_budget(a, b, sub.input, split_on(capt, '('), 0, ii, g1, w1);
        lemma_alternative_len_budget(a, b, sub.input, split_on(capt, '|'), 0, ii, g1);
        if let Some((ok, ii2, g2, w2)) = layered_outer(
            a,
            sub.input,
            split_on(capt, '('),
            0,
            ii,
            g1,
            w1,
        ) {
            lemma_group_finish_budget(a, b, sub, pi, ii, capt, sim, ii2, g2, w2);
        }
        if let Some(Some(n)) = alternative_len(a, sub.input, split_on(capt, '|'), 0, ii, g1) {
            if ii + n <= usize::MAX {
                lemma_group_finish_budget(a, b, sub, pi, ii, capt, sim, (ii + n) as usize, g1, w1);
            }
        }
    }
}

/// `group_finish` keeps its result under a larger budget.
pub proof fn lemma_group_finish_budget(
    f1: nat,
    f2: nat,
    sub: Subject,
    pi: usize,
    ii: usize,
    capt: Seq<char>,
    sim: usize,
    ii3: usize,
    g3: Seq<Group>,
    w3: Seq<usize>,
)
    requires
        f1 <= f2,
    ensures
        group_finish(f1, sub, pi, ii, capt, sim, ii3, g3, w3) is Some ==> group_finish(
            f2,
            sub,
            pi,
            ii,
            capt,
            sim,
            ii3,
            g3,
            w3,
        ) == group_finish(f1, sub, pi, ii, capt, sim, ii3, g3, w3),
    decreases f1,
{
    if f1 > 0 {
        let a = (f1 - 1) as nat;
        let b = (f2 - 1) as nat;
        if ii3 >= sim {
            let ii4 = ii3 - sim;
            lemma_match_spec_budget(a, b, sub.input.subrange(ii as int, ii4), capt, false, g3);
        }
    }
}

/// `layered_outer` keeps its result under a larger budget.
pub proof fn lemma_layered_outer_budget(
    f1: nat,
    f2: nat,
    input: Seq<char>,
    parts: Seq<Seq<char>>,
    k: int,
    ii: usize,
    g: Seq<Group>,
    w: Seq<usize>,
)
    requires
        f1 <= f2,
    ensures
        layered_outer(f1, input, parts, k, ii, g, w) is Some ==> layered_outer(
            f2,
            input,
            parts,
            k,
            ii,
            g,
            w,
        ) == layered_outer(f1, input, parts, k, ii, g, w),
    decreases f1,
{
    if f1 > 0 {
        let a = (f1 - 1) as nat;
        let b = (f2 - 1) as nat;
        if 0 <= k < parts.len() {
            let subs = split_inclusive_on(parts[k], ')');
            lemma_layered_inner_budget(a, b, input, subs, 0, ii, g, w);
            if let Some((ok, ii2, g2, w2)) = layered_inner(a, input, subs, 0, ii, g, w) {
                lemma_layered_outer_budget(a, b, input, parts, k + 1, ii2, g2, w2);
            }
        }
    }
}

/// `layered_inner` keeps its result under a larger budget.
pub proof fn lemma_layered_inner_budget(
    f1: nat,
    f2: nat,
    input: Seq<char>,
    subs: Seq<Seq<char>>,
    x: int,
    ii: usize,
    g: Seq<Group>,
    w: Seq<usize>,
)
    requires
        f1 <= f2,
    ensures
        layered_inner(f1, input, subs, x, ii, g, w) is Some ==> layered_inner(
            f2,
            input,
            subs,
            x,
            ii,
            g,
            w,
        ) == layered_inner(f1, input, subs, x, ii, g, w),
    decreases f1,
{
    if f1 > 0 {
        let a = (f1 - 1) as nat;
        let b = (f2 - 1) as nat;
        if 0 <= x < subs.len() && subs[x].len() > 0 {
            let sub = subs[x];
            let use_patt = if sub.last() == ')' {
                sub.drop_last()
            } else {
                sub
            };
            lemma_layered_inner_budget(a, b, input, subs, x + 1, ii, g, w);
            if let Some(rest) = byte_suffix(input, ii as int) {
                lemma_match_spec_budget(a, b, rest, use_patt, true, g);
                if let Some(r) = match_spec(a, rest, use_patt, true, g) {
                    let upd = if r.0 && sub.last() == ')' {
                        give_text(g, w, r.2)
                    } else {
                        Some((g, w))
                    };
                    if let Some((g2, w2)) = upd {
                        lemma_layered_inner_budget(a, b, input, subs, x + 1, ii, g2, w2);
                        if let Some(n) = r.1 {
                            if ii + n <= usize::MAX {
                                lemma_layered_inner_budget(
                                    a,
                                    b,
                                    input,
                                    subs,
                                    x + 1,
                                    (ii + n) as usize,
                                    g2,
                                    w2,
                                );
                            }
                        }
                    }
                }
            }
        }
    }
}

/// `alternative_len` keeps its result under a larger budget.
pub proof fn lemma_alternative_len_budget(
    f1: nat,
    f2: nat,
    input: Seq<char>,
    alts: Seq<Seq<char>>,
    k: int,
    ii: usize,
    g: Seq<Group>,
)
    requires
        f1 <= f2,
    ensures
        alternative_len(f1, input, alts, k, ii, g) is Some ==> alternative_len(
            f2,
            input,
            alts,
            k,
            ii,
            g,
        ) == alternative_len(f1, input, alts, k, ii, g),
    decreases f1,
{
    if f1 > 0 {
        let a = (f1 - 1) as nat;
        let b = (f2 - 1) as nat;
        if 0 <= k < alts.len() {
            if let Some(rest) = byte_suffix(input, ii as int) {
                lemma_match_spec_budget(a, b, rest, alts[k], true, g);
            }
            lemma_alternative_len_budget(a, b, input, alts, k + 1, ii, g);
        }
    }
}

} // verus!
