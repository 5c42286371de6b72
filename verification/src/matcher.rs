//! The matcher itself: each function computes what the spec function of the
//! same name in `model` states, with the same step budget.
use vstd::prelude::*;
use crate::classes::{digit, digit_value, find_passing, is_ascii_digit, CharTest};
use crate::cursor::{
    bracket_step_exec, copy_groups, exec_no_match, final_outcome_exec, give_text_exec,
    groups_view, lemma_groups_view_push, literal_step_exec, open_groups_exec, result_view, step_view, subject, Cursor,
    ExecGroup, ExecOutcome, StepOut,
};
use crate::model::{
    alternative_len, escape_step, finish, first_alternative, group_body, group_finish, group_step,
    layered_inner, layered_outer, match_spec, repeat_count, repeat_step, scan, similar_loop,
    similar_next, similar_spec, step, Group,
};
use crate::patterns::{check_optional_chars, next_pattern_chars, skip_doubled_backslashes};
use crate::text::{
    byte_length, find_char, slice_of, split_chars, split_chars_inclusive, suffix_at_byte,
    suffix_from, views_of,
};

verus! {

/// Whether two character sequences are equal.
pub fn same_chars(a: &Vec<char>, b: &Vec<char>) -> (r: bool)
    ensures
        r == (a@ == b@),
{
    if a.len() != b.len() {
        return false;
    }
    let mut i: usize = 0;
    while i < a.len()
        invariant
            a.len() == b.len(),
            i <= a.len(),
            forall|j: int| 0 <= j < i ==> a@[j] == b@[j],
        decreases a.len() - i,
    {
        if a[i] != b[i] {
            return false;
        }
        i = i + 1;
    }
    assert(a@ =~= b@);
    true
}

/// Whether `v` is the single character `c`.
pub fn is_single(v: &Vec<char>, c: char) -> (r: bool)
    ensures
        r == (v@ == seq![c]),
{
    let r = v.len() == 1 && v[0] == c;
    proof {
        if r {
            assert(v@ =~= seq![c]);
        }
        if v@ == seq![c] {
            assert(v@.len() == 1 && v@[0] == c);
        }
    }
    r
}

/// `^` followed by `prev`.
pub fn anchored(prev: &Vec<char>) -> (r: Vec<char>)
    ensures
        r@ == seq!['^'] + prev@,
{
    let mut r: Vec<char> = Vec::new();
    r.push('^');
    let mut i: usize = 0;
    while i < prev.len()
        invariant
            i <= prev.len(),
            r@ == seq!['^'] + prev@.take(i as int),
        decreases prev.len() - i,
    {
        r.push(prev[i]);
        assert(seq!['^'] + prev@.take(i + 1) =~= (seq!['^'] + prev@.take(i as int)).push(
            prev@[i as int],
        ));
        i = i + 1;
    }
    assert(prev@.take(prev.len() as int) =~= prev@);
    r
}

/// The value of an ASCII digit.
pub fn digit_of(d: char) -> (r: usize)
    requires
        is_ascii_digit(d),
    ensures
        r == digit_value(d),
{
    ((d as u32) - ('0' as u32)) as usize
}

/// The matcher with step budget `fuel`, as `match_spec` states.
pub fn match_chars(
    fuel: u64,
    input: &Vec<char>,
    patt: &Vec<char>,
    full: bool,
    groups: &Vec<ExecGroup>,
) -> (r: Option<ExecOutcome>)
    ensures
        result_view(r) == match_spec(fuel as nat, input@, patt@, full, groups_view(groups@)),
    decreases fuel,
{
    if fuel == 0 {
        return None;
    }
    let f = fuel - 1;
    let close = find_char(patt, ')');
    let bar = find_char(patt, '|');
    if close.is_none() && bar.is_some() {
        let pieces = split_chars(patt, '|');
        return first_alternative_exec(f, input, &pieces, 0, full, groups);
    }
    if patt.len() == 0 || input.len() == 0 {
        return None;
    }
    let pi0: usize = if patt[0] == '^' {
        1
    } else {
        0
    };
    let prev: Vec<char> = Vec::new();
    let waiting: Vec<usize> = Vec::new();
    assert(prev@ =~= Seq::<char>::empty());
    assert(waiting@ =~= Seq::<usize>::empty());
    let cur = Cursor { pi: pi0, ii: 0, prev, groups: copy_groups(groups), waiting };
    scan_exec(f, input, patt, full, cur)
}

/// The first of the alternatives, from the `k`-th on, that matches, as
/// `first_alternative` states.
fn first_alternative_exec(
    fuel: u64,
    input: &Vec<char>,
    pieces: &Vec<Vec<char>>,
    k: usize,
    full: bool,
    groups: &Vec<ExecGroup>,
) -> (r: Option<ExecOutcome>)
    ensures
        result_view(r) == first_alternative(
            fuel as nat,
            input@,
            views_of(pieces@),
            k as int,
            full,
            groups_view(groups@),
        ),
    decreases fuel,
{
    if fuel == 0 {
        return None;
    }
    let f = fuel - 1;
    if k >= pieces.len() {
        let empty: Vec<char> = Vec::new();
        assert(empty@ =~= Seq::<char>::empty());
        return Some((false, Some(0), empty));
    }
    match match_chars(f, input, &pieces[k], full, groups) {
        None => None,
        Some(r) => {
            if r.0 {
                match r.1 {
                    None => None,
                    Some(n) => Some((true, Some(n), r.2)),
                }
            } else {
                first_alternative_exec(f, input, pieces, k + 1, full, groups)
            }
        },
    }
}

/// The main loop, as `scan` states.
fn scan_exec(fuel: u64, input: &Vec<char>, patt: &Vec<char>, full: bool, cur_in: Cursor) -> (r:
    Option<ExecOutcome>)
    requires
        patt.len() > 0,
    ensures
        result_view(r) == scan(fuel as nat, subject(input, patt, full), cur_in@),
    decreases fuel,
{
    let ghost sub = subject(input, patt, full);
    let ghost target = scan(fuel as nat, sub, cur_in@);
    let mut cur = cur_in;
    let mut fl = fuel;
    loop
        invariant
            patt.len() > 0,
            sub == subject(input, patt, full),
            target == scan(fuel as nat, sub, cur_in@),
            fl <= fuel,
            scan(fl as nat, sub, cur@) == target,
        decreases fl,
    {
        if fl == 0 {
            return None;
        }
        let f = fl - 1;
        if cur.pi < patt.len() && cur.ii < input.len() {
            match step_exec(f, input, patt, full, cur) {
                None => return None,
                Some(StepOut::Done(o)) => return Some(o),
                Some(StepOut::Next(c2)) => {
                    cur = c2;
                    fl = f;
                },
            }
        } else {
            return finish_exec(f, input, patt, full, &cur);
        }
    }
}

/// After the main loop, as `finish` states.
fn finish_exec(fuel: u64, input: &Vec<char>, patt: &Vec<char>, full: bool, cur: &Cursor) -> (r:
    Option<ExecOutcome>)
    requires
        patt.len() > 0,
    ensures
        result_view(r) == finish(fuel as nat, subject(input, patt, full), cur@),
    decreases fuel,
{
    if fuel == 0 {
        return None;
    }
    let f = fuel - 1;
    let starter = patt[0] == '^';
    if starter && input.len() > 1 {
        match next_pattern_chars(patt) {
            None => None,
            Some(np) => {
                let first = slice_of(input, 0, 1);
                assert(first@ =~= input@.take(1));
                match match_chars(f, &first, &np, full, &cur.groups) {
                    None => None,
                    Some(r) => {
                        if r.0 {
                            final_outcome_exec(input, patt, full, cur)
                        } else {
                            Some(exec_no_match())
                        }
                    },
                }
            },
        }
    } else {
        final_outcome_exec(input, patt, full, cur)
    }
}

/// One step, as `step` states.
fn step_exec(fuel: u64, input: &Vec<char>, patt: &Vec<char>, full: bool, cur: Cursor) -> (r:
    Option<StepOut>)
    requires
        cur.pi < patt.len(),
        cur.ii < input.len(),
    ensures
        step_view(r) == step(fuel as nat, subject(input, patt, full), cur@),
    decreases fuel,
{
    if fuel == 0 {
        return None;
    }
    let f = fuel - 1;
    let c = patt[cur.pi];
    if c == '[' {
        bracket_step_exec(input, patt, full, cur)
    } else if c == '\\' {
        escape_step_exec(f, input, patt, full, cur)
    } else if c == '+' {
        repeat_step_exec(f, input, patt, full, cur)
    } else if c == '.' {
        let mut prev: Vec<char> = Vec::new();
        prev.push('.');
        assert(prev@ =~= seq!['.']);
        Some(
            StepOut::Next(
                Cursor {
                    pi: cur.pi + 1,
                    ii: cur.ii + 1,
                    prev,
                    groups: cur.groups,
                    waiting: cur.waiting,
                },
            ),
        )
    } else if c == '(' {
        group_step_exec(f, input, patt, full, cur)
    } else if c == '$' {
        if cur.ii != input.len() - 1 {
            Some(StepOut::Done(exec_no_match()))
        } else {
            let whole = slice_of(input, 0, input.len());
            assert(whole@ =~= input@);
            Some(StepOut::Done((true, Some(input.len()), whole)))
        }
    } else {
        literal_step_exec(input, patt, full, cur)
    }
}

/// A step at `\`, as `escape_step` states.
fn escape_step_exec(fuel: u64, input: &Vec<char>, patt: &Vec<char>, full: bool, cur: Cursor) -> (r:
    Option<StepOut>)
    requires
        cur.pi < patt.len(),
        cur.ii < input.len(),
    ensures
        step_view(r) == escape_step(fuel as nat, subject(input, patt, full), cur@),
    decreases fuel,
{
    if fuel == 0 {
        return None;
    }
    let f = fuel - 1;
    let ii = cur.ii;
    let k = match skip_doubled_backslashes(patt, cur.pi) {
        None => return None,
        Some(k) => k,
    };
    let d = patt[k + 1];
    if digit(d) {
        let num = digit_of(d);
        if num == 0 || num > cur.groups.len() {
            return None;
        }
        let rest = suffix_from(input, ii);
        let res = match_chars(f, &rest, &cur.groups[num - 1].2, full, &cur.groups);
        match res {
            None => None,
            Some(r) => {
                if !r.0 {
                    Some(StepOut::Done(r))
                } else {
                    match r.1 {
                        None => None,
                        Some(n) => match ii.checked_add(n) {
                            None => None,
                            Some(ii2) => Some(
                                StepOut::Next(
                                    Cursor {
                                        pi: k + 2,
                                        ii: ii2,
                                        prev: cur.prev,
                                        groups: cur.groups,
                                        waiting: cur.waiting,
                                    },
                                ),
                            ),
                        },
                    }
                }
            },
        }
    } else {
        let prev = slice_of(patt, k, k + 2);
        let rest = match suffix_at_byte(input, ii) {
            None => return None,
            Some(v) => v,
        };
        if d != 'd' && d != 'w' {
            return None;
        }
        let is_opt = k + 2 < patt.len() && patt[k + 2] == '?';
        let t = if d == 'd' {
            CharTest::Digit
        } else {
            CharTest::Word
        };
        let none_set: Vec<char> = Vec::new();
        assert(none_set@ =~= Seq::<char>::empty());
        assert(rest@.skip(0) =~= rest@);
        let found = find_passing(&rest, 0, t, &none_set);
        if found.is_none() && !is_opt {
            let next_opt = if patt.len() - k > 2 {
                let tail = suffix_from(patt, k + 1);
                check_optional_chars(&tail)
            } else {
                Some(false)
            };
            match next_opt {
                None => None,
                Some(true) => Some(
                    StepOut::Next(
                        Cursor {
                            pi: k,
                            ii: ii + 1,
                            prev,
                            groups: cur.groups,
                            waiting: cur.waiting,
                        },
                    ),
                ),
                Some(false) => Some(StepOut::Done(exec_no_match())),
            }
        } else {
            let pi2 = if is_opt {
                k + 3
            } else {
                k + 2
            };
            match found {
                None => Some(
                    StepOut::Next(
                        Cursor { pi: pi2, ii: ii, prev, groups: cur.groups, waiting: cur.waiting },
                    ),
                ),
                Some(fp) => match ii.checked_add(fp + 1) {
                    None => None,
                    Some(ii2) => Some(
                        StepOut::Next(
                            Cursor {
                                pi: pi2,
                                ii: ii2,
                                prev,
                                groups: cur.groups,
                                waiting: cur.waiting,
                            },
                        ),
                    ),
                },
            }
        }
    }
}

/// A step at `+`, as `repeat_step` states.
fn repeat_step_exec(fuel: u64, input: &Vec<char>, patt: &Vec<char>, full: bool, cur: Cursor) -> (r:
    Option<StepOut>)
    requires
        cur.pi < patt.len(),
        cur.ii < input.len(),
    ensures
        step_view(r) == repeat_step(fuel as nat, subject(input, patt, full), cur@),
    decreases fuel,
{
    if fuel == 0 {
        return None;
    }
    let f = fuel - 1;
    let use_patt = anchored(&cur.prev);
    let (ii2, nr) = match repeat_count_exec(f, input, &use_patt, &cur.groups, cur.ii, 0) {
        None => return None,
        Some(t) => t,
    };
    let sim = match similar_exec(f, cur.pi, &cur.prev, patt, &cur.groups) {
        None => return None,
        Some(s) => s,
    };
    let pi2 = cur.pi + 1;
    if sim > nr {
        Some(StepOut::Done(exec_no_match()))
    } else if sim > 0 {
        if ii2 < sim {
            None
        } else {
            Some(
                StepOut::Next(
                    Cursor {
                        pi: pi2,
                        ii: ii2 - sim,
                        prev: cur.prev,
                        groups: cur.groups,
                        waiting: cur.waiting,
                    },
                ),
            )
        }
    } else {
        Some(
            StepOut::Next(
                Cursor { pi: pi2, ii: ii2, prev: cur.prev, groups: cur.groups, waiting: cur.waiting },
            ),
        )
    }
}

/// Repeats `use_patt` from input position `ii_in`, as `repeat_count` states.
fn repeat_count_exec(
    fuel: u64,
    input: &Vec<char>,
    use_patt: &Vec<char>,
    groups: &Vec<ExecGroup>,
    ii_in: usize,
    nr_in: usize,
) -> (r: Option<(usize, usize)>)
    ensures
        r == repeat_count(fuel as nat, input@, use_patt@, groups_view(groups@), ii_in, nr_in),
    decreases fuel,
{
    let ghost gv = groups_view(groups@);
    let ghost target = repeat_count(fuel as nat, input@, use_patt@, gv, ii_in, nr_in);
    let mut fl = fuel;
    let mut ii = ii_in;
    let mut nr = nr_in;
    loop
        invariant
            gv == groups_view(groups@),
            target == repeat_count(fuel as nat, input@, use_patt@, gv, ii_in, nr_in),
            fl <= fuel,
            repeat_count(fl as nat, input@, use_patt@, gv, ii, nr) == target,
        decreases fl,
    {
        if fl == 0 {
            return None;
        }
        let f = fl - 1;
        if ii >= input.len() {
            return Some((ii, nr));
        }
        let rest = suffix_from(input, ii);
        match match_chars(f, &rest, use_patt, true, groups) {
            None => return None,
            Some(r) => {
                if !r.0 {
                    return Some((ii, nr));
                }
                match r.1 {
                    None => return None,
                    Some(n) => {
                        match (ii.checked_add(n), nr.checked_add(1)) {
                            (Some(a), Some(b)) => {
                                ii = a;
                                nr = b;
                                fl = f;
                            },
                            _ => return None,
                        }
                    },
                }
            },
        }
    }
}

/// `check_num_similar_pattern` with step budget `fuel`, as `similar_spec` states.
pub fn similar_exec(
    fuel: u64,
    pi: usize,
    prev: &Vec<char>,
    patt: &Vec<char>,
    groups: &Vec<ExecGroup>,
) -> (r: Option<usize>)
    ensures
        r == similar_spec(fuel as nat, pi, prev@, patt@, groups_view(groups@)),
    decreases fuel,
{
    if fuel == 0 {
        return None;
    }
    let f = fuel - 1;
    match pi.checked_add(1) {
        None => None,
        Some(ci) => similar_loop_exec(f, prev, patt, groups, ci, 0),
    }
}

/// The outcome of one turn of the `check_num_similar_pattern` loop.
enum SimilarTurn {
    Stop(Option<usize>),
    Go(u64, usize, usize),
}

/// The loop of `check_num_similar_pattern`, as `similar_loop` states.
fn similar_loop_exec(
    fuel: u64,
    prev: &Vec<char>,
    patt: &Vec<char>,
    groups: &Vec<ExecGroup>,
    ci_in: usize,
    sim_in: usize,
) -> (r: Option<usize>)
    ensures
        r == similar_loop(fuel as nat, prev@, patt@, groups_view(groups@), ci_in, sim_in),
    decreases fuel,
{
    let ghost gv = groups_view(groups@);
    let ghost target = similar_loop(fuel as nat, prev@, patt@, gv, ci_in, sim_in);
    let mut fl = fuel;
    let mut ci = ci_in;
    let mut sim = sim_in;
    loop
        invariant
            gv == groups_view(groups@),
            target == similar_loop(fuel as nat, prev@, patt@, gv, ci_in, sim_in),
            fl <= fuel,
            similar_loop(fl as nat, prev@, patt@, gv, ci, sim) == target,
        decreases fl,
    {
        if fl == 0 {
            return None;
        }
        let f = fl - 1;
        if ci >= patt.len() {
            return Some(sim);
        }
        let rest = suffix_from(patt, ci);
        let next = match next_pattern_chars(&rest) {
            None => return None,
            Some(v) => v,
        };
        let prev_len = match byte_length(prev) {
            None => return None,
            Some(n) => n,
        };
        if is_single(&next, '$') {
            return Some(sim);
        }
        if next.len() == 0 {
            return None;
        }
        let sim1: usize = if next[0] == '\\' {
            if next.len() < 2 || !digit(next[1]) {
                return None;
            }
            let num = digit_of(next[1]);
            if num == 0 || num > groups.len() {
                return None;
            }
            match similar_exec(f, 0, prev, &groups[num - 1].2, groups) {
                None => return None,
                Some(k) => match sim.checked_add(k) {
                    None => return None,
                    Some(s) => s,
                },
            }
        } else {
            sim
        };
        match similar_next_exec(f, prev, patt, groups, ci, sim1, &next, prev_len) {
            SimilarTurn::Stop(v) => return v,
            SimilarTurn::Go(f2, c2, s2) => {
                fl = f2;
                ci = c2;
                sim = s2;
            },
        }
    }
}

/// The rest of one turn of the loop, as `similar_next` states.
fn similar_next_exec(
    fuel: u64,
    prev: &Vec<char>,
    patt: &Vec<char>,
    groups: &Vec<ExecGroup>,
    ci: usize,
    sim: usize,
    next: &Vec<char>,
    prev_len: usize,
) -> (r: SimilarTurn)
    ensures
        match r {
            SimilarTurn::Stop(v) => similar_next(
                fuel as nat,
                prev@,
                patt@,
                groups_view(groups@),
                ci,
                sim,
                next@,
                prev_len,
            ) == v,
            SimilarTurn::Go(f2, c2, s2) => f2 < fuel && similar_next(
                fuel as nat,
                prev@,
                patt@,
                groups_view(groups@),
                ci,
                sim,
                next@,
                prev_len,
            ) == similar_loop(f2 as nat, prev@, patt@, groups_view(groups@), c2, s2),
        },
    decreases fuel,
{
    if fuel == 0 {
        return SimilarTurn::Stop(None);
    }
    let f = fuel - 1;
    let nl = match byte_length(next) {
        None => return SimilarTurn::Stop(None),
        Some(n) => n,
    };
    let opt_index = match ci.checked_add(nl) {
        None => return SimilarTurn::Stop(None),
        Some(x) => x,
    };
    let opt: bool = if opt_index < patt.len() {
        let rest = suffix_from(patt, opt_index);
        match next_pattern_chars(&rest) {
            None => return SimilarTurn::Stop(None),
            Some(q) => is_single(&q, '?'),
        }
    } else {
        false
    };
    if opt {
        match ci.checked_add(prev_len) {
            None => SimilarTurn::Stop(None),
            Some(c2) => SimilarTurn::Go(f, c2, sim),
        }
    } else if same_chars(next, prev) {
        match (ci.checked_add(prev_len), sim.checked_add(1)) {
            (Some(c2), Some(s2)) => SimilarTurn::Go(f, c2, s2),
            _ => SimilarTurn::Stop(None),
        }
    } else {
        match match_chars(f, next, prev, false, groups) {
            None => SimilarTurn::Stop(None),
            Some(r) => {
                if r.0 {
                    match (ci.checked_add(nl), sim.checked_add(1)) {
                        (Some(c2), Some(s2)) => SimilarTurn::Go(f, c2, s2),
                        _ => SimilarTurn::Stop(None),
                    }
                } else {
                    SimilarTurn::Stop(Some(sim))
                }
            },
        }
    }
}

/// A step at `(`, as `group_step` states.
fn group_step_exec(fuel: u64, input: &Vec<char>, patt: &Vec<char>, full: bool, cur: Cursor) -> (r:
    Option<StepOut>)
    requires
        cur.pi < patt.len(),
        cur.ii < input.len(),
    ensures
        step_view(r) == group_step(fuel as nat, subject(input, patt, full), cur@),
    decreases fuel,
{
    if fuel == 0 {
        return None;
    }
    let f = fuel - 1;
    let pi = cur.pi;
    let ii = cur.ii;
    let rem = suffix_from(patt, pi + 1);
    if find_char(&rem, ')').is_none() {
        return None;
    }
    let mut g0 = cur.groups;
    let empty: Vec<char> = Vec::new();
    assert(empty@ =~= Seq::<char>::empty());
    let ghost g_before = g0@;
    g0.push((pi, 0, empty));
    proof {
        lemma_groups_view_push(g_before, (pi, 0usize, empty));
    }
    let (cge, g1, w1) = match open_groups_exec(patt, pi, g0, cur.waiting) {
        None => return None,
        Some(t) => t,
    };
    let cbi = pi + cge + 1;
    let capt = slice_of(patt, pi + 1, cbi);
    if capt.len() == 0 {
        return None;
    }
    let sim_opt = if capt[capt.len() - 1] == '+' {
        let base = slice_of(&capt, 0, capt.len() - 1);
        assert(base@ =~= capt@.drop_last());
        similar_exec(f, cbi, &base, patt, &g1)
    } else {
        Some(0)
    };
    match sim_opt {
        None => None,
        Some(sim) => {
            let gopt = patt.len() > cbi && patt[cbi] == '?';
            group_body_exec(f, input, patt, full, pi, ii, capt, sim, gopt, g1, w1)
        },
    }
}

/// The middle of a `(` step, as `group_body` states.
fn group_body_exec(
    fuel: u64,
    input: &Vec<char>,
    patt: &Vec<char>,
    full: bool,
    pi: usize,
    ii: usize,
    capt: Vec<char>,
    sim: usize,
    gopt: bool,
    g1: Vec<ExecGroup>,
    w1: Vec<usize>,
) -> (r: Option<StepOut>)
    ensures
        step_view(r) == group_body(
            fuel as nat,
            subject(input, patt, full),
            pi,
            ii,
            capt@,
            sim,
            gopt,
            groups_view(g1@),
            w1@,
        ),
    decreases fuel,
{
    if fuel == 0 {
        return None;
    }
    let f = fuel - 1;
    if find_char(&capt, '(').is_some() {
        let parts = split_chars(&capt, '(');
        match layered_outer_exec(f, input, &parts, 0, ii, g1, w1) {
            None => None,
            Some((ok, ii2, g2, w2)) => {
                if !ok && !gopt {
                    Some(StepOut::Done(exec_no_match()))
                } else {
                    group_finish_exec(f, input, patt, full, pi, ii, capt, sim, ii2, g2, w2)
                }
            },
        }
    } else {
        let alts = split_chars(&capt, '|');
        match alternative_len_exec(f, input, &alts, 0, ii, &g1) {
            None => None,
            Some(None) => Some(StepOut::Done(exec_no_match())),
            Some(Some(n)) => match ii.checked_add(n) {
                None => None,
                Some(ii2) => group_finish_exec(f, input, patt, full, pi, ii, capt, sim, ii2, g1, w1),
            },
        }
    }
}

/// The end of a `(` step, as `group_finish` states.
fn group_finish_exec(
    fuel: u64,
    input: &Vec<char>,
    patt: &Vec<char>,
    full: bool,
    pi: usize,
    ii: usize,
    capt: Vec<char>,
    sim: usize,
    ii3: usize,
    g3: Vec<ExecGroup>,
    w3: Vec<usize>,
) -> (r: Option<StepOut>)
    ensures
        step_view(r) == group_finish(
            fuel as nat,
            subject(input, patt, full),
            pi,
            ii,
            capt@,
            sim,
            ii3,
            groups_view(g3@),
            w3@,
        ),
    decreases fuel,
{
    if fuel == 0 {
        return None;
    }
    let f = fuel - 1;
    let cl = match byte_length(&capt) {
        None => return None,
        Some(n) => n,
    };
    let adv = match cl.checked_add(2) {
        None => return None,
        Some(n) => n,
    };
    let pi2 = match pi.checked_add(adv) {
        None => return None,
        Some(n) => n,
    };
    if ii3 < sim {
        return None;
    }
    let ii4 = ii3 - sim;
    if !(ii <= ii4 && ii4 <= input.len()) {
        return None;
    }
    let kept = slice_of(input, ii, ii4);
    match match_chars(f, &kept, &capt, false, &g3) {
        None => None,
        Some(r) => {
            if !r.0 {
                Some(StepOut::Done(exec_no_match()))
            } else {
                let mut g = g3;
                let mut w = w3;
                if !give_text_exec(&mut g, &mut w, kept) {
                    return None;
                }
                Some(StepOut::Next(Cursor { pi: pi2, ii: ii4, prev: capt, groups: g, waiting: w }))
            }
        },
    }
}

/// The view of what nested groups give back.
pub open spec fn layer_view(r: Option<(bool, usize, Vec<ExecGroup>, Vec<usize>)>) -> Option<
    (bool, usize, Seq<Group>, Seq<usize>),
> {
    match r {
        None => None,
        Some(t) => Some((t.0, t.1, groups_view(t.2@), t.3@)),
    }
}

/// Nested groups, as `layered_outer` states.
fn layered_outer_exec(
    fuel: u64,
    input: &Vec<char>,
    parts: &Vec<Vec<char>>,
    k: usize,
    ii: usize,
    g: Vec<ExecGroup>,
    w: Vec<usize>,
) -> (r: Option<(bool, usize, Vec<ExecGroup>, Vec<usize>)>)
    ensures
        layer_view(r) == layered_outer(
            fuel as nat,
            input@,
            views_of(parts@),
            k as int,
            ii,
            groups_view(g@),
            w@,
        ),
    decreases fuel,
{
    if fuel == 0 {
        return None;
    }
    let f = fuel - 1;
    if k >= parts.len() {
        return Some((true, ii, g, w));
    }
    let subs = split_chars_inclusive(&parts[k], ')');
    match layered_inner_exec(f, input, &subs, 0, ii, g, w) {
        None => None,
        Some((ok, ii2, g2, w2)) => {
            if !ok {
                Some((false, ii2, g2, w2))
            } else {
                layered_outer_exec(f, input, parts, k + 1, ii2, g2, w2)
            }
        },
    }
}

/// One piece of nested groups, as `layered_inner` states.
fn layered_inner_exec(
    fuel: u64,
    input: &Vec<char>,
    subs: &Vec<Vec<char>>,
    x: usize,
    ii: usize,
    g: Vec<ExecGroup>,
    w: Vec<usize>,
) -> (r: Option<(bool, usize, Vec<ExecGroup>, Vec<usize>)>)
    ensures
        layer_view(r) == layered_inner(
            fuel as nat,
            input@,
            views_of(subs@),
            x as int,
            ii,
            groups_view(g@),
            w@,
        ),
    decreases fuel,
{
    if fuel == 0 {
        return None;
    }
    let f = fuel - 1;
    if x >= subs.len() {
        return Some((true, ii, g, w));
    }
    let sub = &subs[x];
    if sub.len() == 0 {
        return None;
    }
    let is_closer = sub[sub.len() - 1] == ')';
    let sub_opt = x + 1 < subs.len() && is_single(&subs[x + 1], '?');
    if is_single(sub, '?') {
        return layered_inner_exec(f, input, subs, x + 1, ii, g, w);
    }
    let use_patt = if is_closer {
        let v = slice_of(sub, 0, sub.len() - 1);
        assert(v@ =~= sub@.drop_last());
        v
    } else {
        let v = slice_of(sub, 0, sub.len());
        assert(v@ =~= sub@);
        v
    };
    let rest = match suffix_at_byte(input, ii) {
        None => return None,
        Some(v) => v,
    };
    let (r0, r1, r2) = match match_chars(f, &rest, &use_patt, true, &g) {
        None => return None,
        Some(r) => r,
    };
    let mut g = g;
    let mut w = w;
    if r0 && is_closer {
        if !give_text_exec(&mut g, &mut w, r2) {
            return None;
        }
    }
    if sub_opt && !r0 {
        layered_inner_exec(f, input, subs, x + 1, ii, g, w)
    } else if r0 {
        match r1 {
            None => None,
            Some(n) => match ii.checked_add(n) {
                None => None,
                Some(ii2) => layered_inner_exec(f, input, subs, x + 1, ii2, g, w),
            },
        }
    } else {
        Some((false, ii, g, w))
    }
}

/// Alternatives of a group, as `alternative_len` states.
fn alternative_len_exec(
    fuel: u64,
    input: &Vec<char>,
    alts: &Vec<Vec<char>>,
    k: usize,
    ii: usize,
    g: &Vec<ExecGroup>,
) -> (r: Option<Option<usize>>)
    ensures
        r == alternative_len(fuel as nat, input@, views_of(alts@), k as int, ii, groups_view(g@)),
    decreases fuel,
{
    if fuel == 0 {
        return None;
    }
    let f = fuel - 1;
    if k >= alts.len() {
        return Some(None);
    }
    let rest = match suffix_at_byte(input, ii) {
        None => return None,
        Some(v) => v,
    };
    match match_chars(f, &rest, &alts[k], true, g) {
        None => None,
        Some(r) => {
            if r.0 {
                match r.1 {
                    None => None,
                    Some(n) => Some(Some(n)),
                }
            } else {
                alternative_len_exec(f, input, alts, k + 1, ii, g)
            }
        },
    }
}

} // verus!
