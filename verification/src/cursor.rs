//! The matcher's running state and the steps that need no further match:
//! bracket groups, plain characters, the bookkeeping of capture groups and
//! the outcome after the last step.
use vstd::prelude::*;
use crate::classes::{find_passing, CharTest};
use crate::model::{
    bracket_step, final_outcome, give_text, last_open_before, literal_step, no_match,
    open_groups, state, tail_is_optional, Group, MatchState, Outcome, Step, Subject,
};
use crate::patterns::check_optional_chars;
use crate::text::{byte_length, find_char, slice_of, suffix_from};

verus! {

/// A capture group as the matcher keeps it.
pub type ExecGroup = (usize, usize, Vec<char>);

/// A match outcome as the matcher returns it.
pub type ExecOutcome = (bool, Option<usize>, Vec<char>);

/// The groups as the model keeps them: whether the `)` position is set,
/// and the text as a sequence.
pub open spec fn groups_view(g: Seq<ExecGroup>) -> Seq<Group> {
    Seq::new(g.len(), |i: int| (g[i].1 != 0, g[i].2@))
}

/// An outcome, with its text as a sequence.
pub open spec fn outcome_view(o: ExecOutcome) -> Outcome {
    (o.0, o.1, o.2@)
}

/// An optional outcome, with its text as a sequence.
pub open spec fn result_view(r: Option<ExecOutcome>) -> Option<Outcome> {
    match r {
        Some(o) => Some(outcome_view(o)),
        None => None,
    }
}

/// The subject of a match.
pub open spec fn subject(input: &Vec<char>, patt: &Vec<char>, full: bool) -> Subject {
    Subject { input: input@, patt: patt@, full }
}

/// The matcher's state between two steps.
pub struct Cursor {
    pub pi: usize,
    pub ii: usize,
    pub prev: Vec<char>,
    pub groups: Vec<ExecGroup>,
    pub waiting: Vec<usize>,
}

impl View for Cursor {
    type V = MatchState;

    open spec fn view(&self) -> MatchState {
        state(self.pi, self.ii, self.prev@, groups_view(self.groups@), self.waiting@)
    }
}

/// The result of one step.
pub enum StepOut {
    Next(Cursor),
    Done(ExecOutcome),
}

/// A step result, as the model states it.
pub open spec fn step_view(r: Option<StepOut>) -> Option<Step> {
    match r {
        None => None,
        Some(StepOut::Next(c)) => Some(Step::Next(c@)),
        Some(StepOut::Done(o)) => Some(Step::Done(outcome_view(o))),
    }
}

pub proof fn lemma_groups_view_push(g: Seq<ExecGroup>, x: ExecGroup)
    ensures
        groups_view(g.push(x)) == groups_view(g).push((x.1 != 0, x.2@)),
{
    assert(groups_view(g.push(x)) =~= groups_view(g).push((x.1 != 0, x.2@)));
}

pub proof fn lemma_groups_view_update(g: Seq<ExecGroup>, j: int, x: ExecGroup)
    requires
        0 <= j < g.len(),
    ensures
        groups_view(g.update(j, x)) == groups_view(g).update(j, (x.1 != 0, x.2@)),
{
    assert(groups_view(g.update(j, x)) =~= groups_view(g).update(j, (x.1 != 0, x.2@)));
}

/// The outcome of a failed match.
pub fn exec_no_match() -> (r: ExecOutcome)
    ensures
        outcome_view(r) == no_match(),
{
    (false, None, Vec::new())
}

/// A copy of the groups.
pub fn copy_groups(g: &Vec<ExecGroup>) -> (r: Vec<ExecGroup>)
    ensures
        groups_view(r@) == groups_view(g@),
{
    let mut r: Vec<ExecGroup> = Vec::new();
    let mut i: usize = 0;
    while i < g.len()
        invariant
            i <= g.len(),
            groups_view(r@) == groups_view(g@.take(i as int)),
        decreases g.len() - i,
    {
        let t = g[i].2.clone();
        assert(t@ =~= g@[i as int].2@);
        let ghost before = r@;
        r.push((g[i].0, g[i].1, t));
        proof {
            lemma_groups_view_push(before, (g@[i as int].0, g@[i as int].1, t));
            assert(g@.take(i + 1) =~= g@.take(i as int).push(g@[i as int]));
            lemma_groups_view_push(g@.take(i as int), g@[i as int]);
        }
        i = i + 1;
    }
    assert(g@.take(g.len() as int) =~= g@);
    r
}

/// Index of the last group that is still open.
pub fn last_open(g: &Vec<ExecGroup>) -> (r: Option<usize>)
    ensures
        r matches Some(j) ==> last_open_before(groups_view(g@), g.len() as int) == Some(j as int)
            && j < g.len(),
        r is None ==> last_open_before(groups_view(g@), g.len() as int) is None,
{
    let mut k = g.len();
    while k > 0
        invariant
            k <= g.len(),
            last_open_before(groups_view(g@), k as int) == last_open_before(
                groups_view(g@),
                g.len() as int,
            ),
        decreases k,
    {
        if g[k - 1].1 == 0 {
            return Some(k - 1);
        }
        k = k - 1;
    }
    None
}

/// Reads the groups of the parenthesised sub-pattern at `pi`, as
/// `open_groups` states.
pub fn open_groups_exec(
    patt: &Vec<char>,
    pi: usize,
    g_in: Vec<ExecGroup>,
    w_in: Vec<usize>,
) -> (r: Option<(usize, Vec<ExecGroup>, Vec<usize>)>)
    requires
        pi < patt.len(),
    ensures
        r matches Some(t) ==> open_groups(
            patt@.skip(pi + 1),
            0,
            1,
            groups_view(g_in@),
            w_in@,
        ) == Some((t.0 as int, groups_view(t.1@), t.2@)),
        r matches Some(t) ==> pi + t.0 + 1 <= patt.len(),
        r is None ==> open_groups(patt@.skip(pi + 1), 0, 1, groups_view(g_in@), w_in@) is None,
{
    let ghost rem = patt@.skip(pi + 1);
    let ghost target = open_groups(rem, 0, 1, groups_view(g_in@), w_in@);
    let mut g = g_in;
    let mut w = w_in;
    let mut i: usize = 0;
    let mut n: usize = 1;
    while pi + 1 + i < patt.len()
        invariant
            pi < patt.len(),
            rem == patt@.skip(pi + 1),
            target == open_groups(rem, 0, 1, groups_view(g_in@), w_in@),
            pi + 1 + i <= patt.len(),
            1 <= n <= i + 1,
            open_groups(rem, i as int, n as int, groups_view(g@), w@) == target,
        decreases patt.len() - (pi + 1 + i),
    {
        let e = patt[pi + 1 + i];
        assert(rem[i as int] == e);
        if e == '(' {
            let empty: Vec<char> = Vec::new();
            assert(empty@ =~= Seq::<char>::empty());
            let ghost g_before = g@;
            let ghost item = ((pi + 1 + i) as usize, 0usize, empty);
            g.push((pi + 1 + i, 0, empty));
            proof {
                lemma_groups_view_push(g_before, item);
            }
            n = n + 1;
        }
        if e == ')' {
            match last_open(&g) {
                None => return None,
                Some(j) => {
                    let t = g[j].2.clone();
                    assert(t@ =~= g@[j as int].2@);
                    let a = g[j].0;
                    let ghost g_before = g@;
                    g.set(j, (a, pi + 1 + i, t));
                    proof {
                        lemma_groups_view_update(g_before, j as int, (a, (pi + 1 + i) as usize, t));
                    }
                    w.push(j);
                    if n == 1 {
                        return Some((i, g, w));
                    }
                    if n > 1 {
                        n = n - 1;
                    }
                },
            }
        }
        i = i + 1;
    }
    Some((0, g, w))
}

/// Gives the text `t` to the first group waiting for one, as `give_text` states.
pub fn give_text_exec(g: &mut Vec<ExecGroup>, w: &mut Vec<usize>, t: Vec<char>) -> (ok: bool)
    ensures
        ok == give_text(groups_view(old(g)@), old(w)@, t@) is Some,
        ok ==> give_text(groups_view(old(g)@), old(w)@, t@) == Some(
            (groups_view(final(g)@), final(w)@),
        ),
{
    if w.len() == 0 {
        return false;
    }
    if w[0] >= g.len() {
        return false;
    }
    let pos = w.remove(0);
    let a = g[pos].0;
    let b = g[pos].1;
    let ghost g_before = g@;
    g.set(pos, (a, b, t));
    proof {
        lemma_groups_view_update(g_before, pos as int, (a, b, t));
        assert(w@ =~= old(w)@.drop_first());
    }
    true
}

/// A step at `[`, as `bracket_step` states.
pub fn bracket_step_exec(input: &Vec<char>, patt: &Vec<char>, full: bool, cur: Cursor) -> (r:
    Option<StepOut>)
    requires
        cur.pi < patt.len(),
        cur.ii < input.len(),
    ensures
        step_view(r) == bracket_step(subject(input, patt, full), cur@),
{
    let pi = cur.pi;
    let ii = cur.ii;
    let rem = suffix_from(patt, pi + 1);
    match find_char(&rem, ']') {
        None => Some(StepOut::Next(cur)),
        Some(e) => {
            let group = slice_of(patt, pi + 1, pi + 1 + e);
            let prev = slice_of(patt, pi, pi + e + 2);
            let op = pi + e + 2;
            let is_opt = op < patt.len() && patt[op] == '?';
            let found: Option<usize> = if e > 1 {
                if patt[pi + 1] != '^' {
                    find_passing(input, ii, CharTest::Among, &group)
                } else {
                    let neg = suffix_from(&group, 1);
                    find_passing(input, ii, CharTest::NotAmong, &neg)
                }
            } else {
                None
            };
            if !is_opt && found.is_none() {
                Some(StepOut::Done(exec_no_match()))
            } else {
                let pi2 = if is_opt {
                    op + 1
                } else {
                    op
                };
                let ii2 = match found {
                    Some(fp) => ii + fp + 1,
                    None => ii,
                };
                Some(
                    StepOut::Next(
                        Cursor { pi: pi2, ii: ii2, prev, groups: cur.groups, waiting: cur.waiting },
                    ),
                )
            }
        },
    }
}

/// A step at a plain character, as `literal_step` states.
pub fn literal_step_exec(input: &Vec<char>, patt: &Vec<char>, full: bool, cur: Cursor) -> (r:
    Option<StepOut>)
    requires
        cur.pi < patt.len(),
        cur.ii < input.len(),
    ensures
        step_view(r) == literal_step(subject(input, patt, full), cur@),
{
    let pi = cur.pi;
    let ii = cur.ii;
    let c = patt[pi];
    if c == '?' {
        return Some(
            StepOut::Next(
                Cursor {
                    pi: pi + 1,
                    ii: ii,
                    prev: cur.prev,
                    groups: cur.groups,
                    waiting: cur.waiting,
                },
            ),
        );
    }
    let mut prev: Vec<char> = Vec::new();
    prev.push(c);
    assert(prev@ =~= seq![c]);
    let is_opt = pi + 1 < patt.len() && patt[pi + 1] == '?';
    let res = c == input[ii];
    if !res && !is_opt {
        let next_opt = if patt.len() - pi > 2 {
            let rest = suffix_from(patt, pi + 1);
            check_optional_chars(&rest)
        } else {
            Some(false)
        };
        match next_opt {
            None => None,
            Some(no) => {
                if no || (pi + 1 < patt.len() && (patt[pi + 1] == '?' || patt[pi + 1] == '+'
                    || patt[pi + 1] == '$')) {
                    Some(
                        StepOut::Next(
                            Cursor {
                                pi: pi,
                                ii: ii + 1,
                                prev,
                                groups: cur.groups,
                                waiting: cur.waiting,
                            },
                        ),
                    )
                } else {
                    Some(StepOut::Done(exec_no_match()))
                }
            },
        }
    } else {
        let pi2 = if is_opt {
            pi + 2
        } else {
            pi + 1
        };
        let ii2 = if res {
            ii + 1
        } else {
            ii
        };
        Some(
            StepOut::Next(
                Cursor { pi: pi2, ii: ii2, prev, groups: cur.groups, waiting: cur.waiting },
            ),
        )
    }
}

/// Whether what is left of the pattern from `pi` may be skipped, as
/// `tail_is_optional` states.
pub fn tail_is_optional_exec(patt: &Vec<char>, pi: usize) -> (r: Option<bool>)
    ensures
        r == tail_is_optional(patt@, pi as int),
{
    let plen = patt.len();
    if pi >= plen {
        Some(true)
    } else if pi == plen - 1 && (patt[pi] == '$' || patt[pi] == '?' || patt[pi] == '+' || patt[pi]
        == '*') {
        Some(true)
    } else if plen - pi > 1 {
        let rem = suffix_from(patt, pi);
        if rem.len() == 2 && (rem[0] == '?' || rem[0] == '*') && rem[1] == '$' {
            Some(true)
        } else {
            check_optional_chars(&rem)
        }
    } else {
        Some(false)
    }
}

/// The outcome once the pattern or the input is used up, as `final_outcome` states.
pub fn final_outcome_exec(input: &Vec<char>, patt: &Vec<char>, full: bool, cur: &Cursor) -> (r:
    Option<ExecOutcome>)
    requires
        patt.len() > 0,
    ensures
        result_view(r) == final_outcome(subject(input, patt, full), cur@),
{
    if cur.ii > input.len() {
        return None;
    }
    let matched = slice_of(input, 0, cur.ii);
    assert(matched@ =~= input@.take(cur.ii as int));
    match byte_length(patt) {
        None => None,
        Some(pbl) => {
            if full && cur.pi == pbl {
                Some((true, Some(cur.ii), matched))
            } else if cur.pi == patt.len() && patt[patt.len() - 1] != '$' {
                Some((true, Some(cur.ii), matched))
            } else if cur.ii == input.len() {
                if full {
                    Some((true, Some(input.len()), matched))
                } else {
                    match tail_is_optional_exec(patt, cur.pi) {
                        None => None,
                        Some(res) => Some((res, Some(input.len()), matched)),
                    }
                }
            } else {
                Some(exec_no_match())
            }
        },
    }
}

} // verus!
