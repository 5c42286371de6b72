//! The leading anchor `^`: a pattern that matches with `^` in front also
//! matches without it.
//!
//! With `^` in front, the matcher reads the same pattern one position
//! further on, and in the end checks in addition that the first sub-pattern
//! matches the first character of the input. The lemmas below follow the two
//! runs side by side: every step of the run on `^p` is a step of the run on
//! `p`, at a pattern position one higher.
use vstd::prelude::*;
use crate::classes::{digit_value, is_ascii_digit};
use crate::laws::{found, lemma_index_of_from_range};
use crate::model::{
    add_usize, alternative_len, bracket_step, escape_step, final_outcome, finish,
    first_alternative, group_body, group_finish, group_step, layered_outer, literal_step,
    match_spec, next_pattern, open_groups, repeat_step, scan, similar_loop, similar_next,
    similar_spec, skip_backslashes, state, step, tail_is_optional, Group, MatchState, Step,
    Subject,
};
use crate::text::{
    byte_len, byte_len_from, byte_len_usize, index_of, index_of_from, lemma_byte_len_from_nonneg,
    split_on,
};

verus! {

/// `p` with the anchor `^` in front.
pub open spec fn anchored_pattern(p: Seq<char>) -> Seq<char> {
    seq!['^'] + p
}

/// The state `sq` of the run on `^p` is the state `sp` of the run on `p`,
/// one pattern position further on.
pub open spec fn shifted(sq: MatchState, sp: MatchState) -> bool {
    &&& sq.pi == sp.pi + 1
    &&& sq.ii == sp.ii
    &&& sq.prev == sp.prev
    &&& sq.groups == sp.groups
    &&& sq.waiting == sp.waiting
}

/// Two steps that agree: the same outcome, or shifted states.
pub open spec fn steps_shifted(x: Step, y: Step) -> bool {
    match (x, y) {
        (Step::Next(a), Step::Next(b)) => shifted(a, b),
        (Step::Done(a), Step::Done(b)) => a == b,
        _ => false,
    }
}

/// Where the step on `^p` gives a result, the step on `p` gives one that
/// agrees with it.
pub open spec fn follows(rq: Option<Step>, rp: Option<Step>) -> bool {
    rq matches Some(x) ==> (rp matches Some(y) && steps_shifted(x, y))
}

proof fn lemma_index_shift(p: Seq<char>)
    ensures
        anchored_pattern(p).len() == p.len() + 1,
        anchored_pattern(p)[0] == '^',
        forall|i: int| 0 <= i < p.len() ==> anchored_pattern(p)[i + 1] == #[trigger] p[i],
{
    assert forall|i: int| 0 <= i < p.len() implies anchored_pattern(p)[i + 1] == #[trigger] p[i] by {
    }
}

proof fn lemma_skip_shift(p: Seq<char>, j: int)
    requires
        0 <= j <= p.len(),
    ensures
        anchored_pattern(p).skip(j + 1) == p.skip(j),
{
    assert(anchored_pattern(p).skip(j + 1) =~= p.skip(j));
}

proof fn lemma_subrange_shift(p: Seq<char>, a: int, b: int)
    requires
        0 <= a <= b <= p.len(),
    ensures
        anchored_pattern(p).subrange(a + 1, b + 1) == p.subrange(a, b),
{
    assert(anchored_pattern(p).subrange(a + 1, b + 1) =~= p.subrange(a, b));
}

proof fn lemma_byte_len_from_shift(p: Seq<char>, k: int)
    requires
        0 <= k,
    ensures
        byte_len_from(anchored_pattern(p), k + 1) == byte_len_from(p, k),
    decreases p.len() - k,
{
    if k < p.len() {
        lemma_byte_len_from_shift(p, k + 1);
    }
}

/// The anchor takes one byte.
proof fn lemma_byte_len_shift(p: Seq<char>)
    ensures
        byte_len(anchored_pattern(p)) == byte_len(p) + 1,
        byte_len(p) >= 0,
{
    lemma_byte_len_from_shift(p, 0);
    lemma_byte_len_from_nonneg(p, 0);
}

proof fn lemma_tail_shift(p: Seq<char>, pi: int)
    requires
        0 <= pi,
        p.len() > 0,
    ensures
        tail_is_optional(anchored_pattern(p), pi + 1) == tail_is_optional(p, pi),
{
    lemma_index_shift(p);
    if pi < p.len() {
        lemma_skip_shift(p, pi);
    }
}

/// The outcome after the last step agrees, wherever the run on `^p` has one.
proof fn lemma_final_outcome_shift(input: Seq<char>, p: Seq<char>, full: bool, sq: MatchState, sp: MatchState)
    requires
        shifted(sq, sp),
        p.len() > 0,
    ensures
        final_outcome(Subject { input, patt: anchored_pattern(p), full }, sq) is Some
            ==> final_outcome(Subject { input, patt: anchored_pattern(p), full }, sq)
            == final_outcome(Subject { input, patt: p, full }, sp),
{
    let q = anchored_pattern(p);
    lemma_index_shift(p);
    lemma_byte_len_shift(p);
    lemma_tail_shift(p, sp.pi as int);
    assert(q.last() == p.last());
}

proof fn lemma_literal_shift(input: Seq<char>, p: Seq<char>, full: bool, sq: MatchState, sp: MatchState)
    requires
        shifted(sq, sp),
        sp.pi < p.len() < usize::MAX,
        sp.ii < input.len(),
    ensures
        follows(
            literal_step(Subject { input, patt: anchored_pattern(p), full }, sq),
            literal_step(Subject { input, patt: p, full }, sp),
        ),
{
    let pi = sp.pi as int;
    lemma_index_shift(p);
    if p.len() - pi > 2 {
        lemma_skip_shift(p, pi + 1);
    }
}

proof fn lemma_bracket_shift(input: Seq<char>, p: Seq<char>, full: bool, sq: MatchState, sp: MatchState)
    requires
        shifted(sq, sp),
        sp.pi < p.len() < usize::MAX,
        sp.ii < input.len(),
    ensures
        follows(
            bracket_step(Subject { input, patt: anchored_pattern(p), full }, sq),
            bracket_step(Subject { input, patt: p, full }, sp),
        ),
{
    let pi = sp.pi as int;
    let q = anchored_pattern(p);
    lemma_index_shift(p);
    lemma_skip_shift(p, pi + 1);
    if let Some(e) = index_of(p.skip(pi + 1), ']') {
        lemma_index_of_from_range(p.skip(pi + 1), ']', 0);
        lemma_subrange_shift(p, pi + 1, pi + 1 + e);
        lemma_subrange_shift(p, pi, pi + e + 2);
    }
}

proof fn lemma_skip_backslashes_shift(p: Seq<char>, k: int)
    requires
        0 <= k,
    ensures
        skip_backslashes(anchored_pattern(p), k + 1) == match skip_backslashes(p, k) {
            Some(j) => Some(j + 1),
            None => None,
        },
        skip_backslashes(p, k) matches Some(j) ==> k <= j,
    decreases p.len() - k,
{
    lemma_index_shift(p);
    if k + 1 < p.len() && p[k + 1] == '\\' {
        lemma_skip_backslashes_shift(p, k + 1);
    }
}

proof fn lemma_escape_shift(
    fuel: nat,
    input: Seq<char>,
    p: Seq<char>,
    full: bool,
    sq: MatchState,
    sp: MatchState,
)
    requires
        shifted(sq, sp),
        sp.pi < p.len() < usize::MAX,
        sp.ii < input.len(),
    ensures
        follows(
            escape_step(fuel, Subject { input, patt: anchored_pattern(p), full }, sq),
            escape_step(fuel, Subject { input, patt: p, full }, sp),
        ),
{
    lemma_index_shift(p);
    lemma_skip_backslashes_shift(p, sp.pi as int);
    if let Some(k) = skip_backslashes(p, sp.pi as int) {
        if k + 2 <= p.len() {
            lemma_subrange_shift(p, k, k + 2);
            if p.len() - k > 2 {
                lemma_skip_shift(p, k + 1);
            }
        }
    }
}

proof fn lemma_similar_loop_shift(
    fuel: nat,
    prev: Seq<char>,
    p: Seq<char>,
    groups: Seq<Group>,
    cq: usize,
    cp: usize,
    sim: usize,
)
    requires
        cq == cp + 1,
        p.len() < usize::MAX,
    ensures
        similar_loop(fuel, prev, anchored_pattern(p), groups, cq, sim) is Some ==> similar_loop(
            fuel,
            prev,
            p,
            groups,
            cp,
            sim,
        ) == similar_loop(fuel, prev, anchored_pattern(p), groups, cq, sim),
    decreases fuel, 1int,
{
    lemma_index_shift(p);
    if fuel > 0 && cp < p.len() {
        let f = (fuel - 1) as nat;
        lemma_skip_shift(p, cp as int);
        if let Some(next) = next_pattern(p.skip(cp as int)) {
            if let Some(pl) = byte_len_usize(prev) {
                lemma_similar_next_shift(f, prev, p, groups, cq, cp, sim, next, pl);
                if next.len() >= 2 && is_ascii_digit(next[1]) {
                    let num = digit_value(next[1]);
                    if 0 < num <= groups.len() {
                        if let Some(k) = similar_spec(f, 0, prev, groups[num - 1].1, groups) {
                            if let Some(s1) = add_usize(sim as int, k as int) {
                                lemma_similar_next_shift(f, prev, p, groups, cq, cp, s1, next, pl);
                            }
                        }
                    }
                }
            }
        }
    }
}

proof fn lemma_similar_next_shift(
    fuel: nat,
    prev: Seq<char>,
    p: Seq<char>,
    groups: Seq<Group>,
    cq: usize,
    cp: usize,
    sim: usize,
    next: Seq<char>,
    prev_len: usize,
)
    requires
        cq == cp + 1,
        p.len() < usize::MAX,
    ensures
        similar_next(fuel, prev, anchored_pattern(p), groups, cq, sim, next, prev_len) is Some
            ==> similar_next(fuel, prev, p, groups, cp, sim, next, prev_len) == similar_next(
            fuel,
            prev,
            anchored_pattern(p),
            groups,
            cq,
            sim,
            next,
            prev_len,
        ),
    decreases fuel, 0int,
{
    lemma_index_shift(p);
    if fuel > 0 {
        let f = (fuel - 1) as nat;
        if let Some(nl) = byte_len_usize(next) {
            if cp + nl < p.len() {
                lemma_skip_shift(p, cp + nl);
            }
            if cq + prev_len <= usize::MAX {
                let aq = (cq + prev_len) as usize;
                let ap = (cp + prev_len) as usize;
                lemma_similar_loop_shift(f, prev, p, groups, aq, ap, sim);
                if sim < usize::MAX {
                    lemma_similar_loop_shift(f, prev, p, groups, aq, ap, (sim + 1) as usize);
                }
            }
            if cq + nl <= usize::MAX && sim < usize::MAX {
                lemma_similar_loop_shift(
                    f,
                    prev,
                    p,
                    groups,
                    (cq + nl) as usize,
                    (cp + nl) as usize,
                    (sim + 1) as usize,
                );
            }
        }
    }
}

proof fn lemma_similar_spec_shift(
    fuel: nat,
    prev: Seq<char>,
    p: Seq<char>,
    groups: Seq<Group>,
    pq: usize,
    pp: usize,
)
    requires
        pq == pp + 1,
        p.len() < usize::MAX,
    ensures
        similar_spec(fuel, pq, prev, anchored_pattern(p), groups) is Some ==> similar_spec(
            fuel,
            pp,
            prev,
            p,
            groups,
        ) == similar_spec(fuel, pq, prev, anchored_pattern(p), groups),
{
    if fuel > 0 && pq < usize::MAX {
        lemma_similar_loop_shift(
            (fuel - 1) as nat,
            prev,
            p,
            groups,
            (pq + 1) as usize,
            (pp + 1) as usize,
            0,
        );
    }
}

proof fn lemma_repeat_shift(
    fuel: nat,
    input: Seq<char>,
    p: Seq<char>,
    full: bool,
    sq: MatchState,
    sp: MatchState,
)
    requires
        shifted(sq, sp),
        sp.pi < p.len() < usize::MAX,
        sp.ii < input.len(),
    ensures
        follows(
            repeat_step(fuel, Subject { input, patt: anchored_pattern(p), full }, sq),
            repeat_step(fuel, Subject { input, patt: p, full }, sp),
        ),
{
    if fuel > 0 {
        lemma_similar_spec_shift((fuel - 1) as nat, sq.prev, p, sq.groups, sq.pi, sp.pi);
    }
}

proof fn lemma_open_groups_offset(
    rem: Seq<char>,
    i: int,
    n: int,
    g: Seq<Group>,
    w: Seq<usize>,
)
    ensures
        open_groups(rem, i, n, g, w) matches Some(t) ==> t.0 == 0 || (0 <= t.0 < rem.len()),
    decreases rem.len() - i,
{
    if 0 <= i < rem.len() {
        let e = rem[i];
        let g1 = if e == '(' {
            g.push((false, Seq::empty()))
        } else {
            g
        };
        let n1 = if e == '(' {
            n + 1
        } else {
            n
        };
        lemma_open_groups_offset(rem, i + 1, n1, g1, w);
        if e == ')' {
            if let Some(j) = crate::model::last_open_before(g1, g1.len() as int) {
                lemma_open_groups_offset(
                    rem,
                    i + 1,
                    if n1 > 1 {
                        n1 - 1
                    } else {
                        n1
                    },
                    g1.update(j, (true, g1[j].1)),
                    w.push(j as usize),
                );
            }
        }
    }
}

proof fn lemma_group_finish_shift(
    fuel: nat,
    input: Seq<char>,
    p: Seq<char>,
    full: bool,
    pq: usize,
    pp: usize,
    ii: usize,
    capt: Seq<char>,
    sim: usize,
    ii3: usize,
    g3: Seq<Group>,
    w3: Seq<usize>,
)
    requires
        pq == pp + 1,
    ensures
        follows(
            group_finish(fuel, Subject { input, patt: anchored_pattern(p), full }, pq, ii, capt, sim, ii3, g3, w3),
            group_finish(fuel, Subject { input, patt: p, full }, pp, ii, capt, sim, ii3, g3, w3),
        ),
{
}

proof fn lemma_group_body_shift(
    fuel: nat,
    input: Seq<char>,
    p: Seq<char>,
    full: bool,
    pq: usize,
    pp: usize,
    ii: usize,
    capt: Seq<char>,
    sim: usize,
    gopt: bool,
    g1: Seq<Group>,
    w1: Seq<usize>,
)
    requires
        pq == pp + 1,
    ensures
        follows(
            group_body(fuel, Subject { input, patt: anchored_pattern(p), full }, pq, ii, capt, sim, gopt, g1, w1),
            group_body(fuel, Subject { input, patt: p, full }, pp, ii, capt, sim, gopt, g1, w1),
        ),
{
    if fuel > 0 {
        let f = (fuel - 1) as nat;
        if index_of(capt, '(') is Some {
            if let Some((ok, ii2, g2, w2)) = layered_outer(
                f,
                input,
                split_on(capt, '('),
                0,
                ii,
                g1,
                w1,
            ) {
                lemma_group_finish_shift(f, input, p, full, pq, pp, ii, capt, sim, ii2, g2, w2);
            }
        } else if let Some(Some(n)) = alternative_len(f, input, split_on(capt, '|'), 0, ii, g1) {
            if let Some(ii2) = add_usize(ii as int, n as int) {
                lemma_group_finish_shift(f, input, p, full, pq, pp, ii, capt, sim, ii2, g1, w1);
            }
        }
    }
}

proof fn lemma_group_shift(
    fuel: nat,
    input: Seq<char>,
    p: Seq<char>,
    full: bool,
    sq: MatchState,
    sp: MatchState,
)
    requires
        shifted(sq, sp),
        sp.pi < p.len() < usize::MAX,
        sp.ii < input.len(),
    ensures
        follows(
            group_step(fuel, Subject { input, patt: anchored_pattern(p), full }, sq),
            group_step(fuel, Subject { input, patt: p, full }, sp),
        ),
{
    lemma_index_shift(p);
    if fuel > 0 {
        let f = (fuel - 1) as nat;
        let pi = sp.pi as int;
        let rem = p.skip(pi + 1);
        lemma_skip_shift(p, pi + 1);
        let g0 = sp.groups.push((false, Seq::empty()));
        lemma_open_groups_offset(rem, 0, 1, g0, sp.waiting);
        if let Some((cge, g1, w1)) = open_groups(rem, 0, 1, g0, sp.waiting) {
            let cbi = pi + cge + 1;
            lemma_subrange_shift(p, pi + 1, cbi);
            let capt = p.subrange(pi + 1, cbi);
            if capt.len() > 0 {
                lemma_similar_spec_shift(f, capt.drop_last(), p, g1, (cbi + 1) as usize, cbi as usize);
                if let Some(sim) = similar_spec(f, cbi as usize, capt.drop_last(), p, g1) {
                    let gopt = p.len() > cbi && p[cbi] == '?';
                    lemma_group_body_shift(f, input, p, full, sq.pi, sp.pi, sp.ii, capt, sim, gopt, g1, w1);
                }
                lemma_group_body_shift(f, input, p, full, sq.pi, sp.pi, sp.ii, capt, 0, p.len() > cbi && p[cbi] == '?', g1, w1);
            }
        }
    }
}

proof fn lemma_step_shift(
    fuel: nat,
    input: Seq<char>,
    p: Seq<char>,
    full: bool,
    sq: MatchState,
    sp: MatchState,
)
    requires
        shifted(sq, sp),
        sp.pi < p.len() < usize::MAX,
        sp.ii < input.len(),
    ensures
        follows(
            step(fuel, Subject { input, patt: anchored_pattern(p), full }, sq),
            step(fuel, Subject { input, patt: p, full }, sp),
        ),
{
    lemma_index_shift(p);
    if fuel > 0 {
        let f = (fuel - 1) as nat;
        lemma_literal_shift(input, p, full, sq, sp);
        lemma_bracket_shift(input, p, full, sq, sp);
        lemma_escape_shift(f, input, p, full, sq, sp);
        lemma_repeat_shift(f, input, p, full, sq, sp);
        lemma_group_shift(f, input, p, full, sq, sp);
    }
}

/// After the main loop: the run on `^p` checks the anchor in addition, so
/// where it succeeds, the run on `p` gives the same outcome.
proof fn lemma_finish_shift(
    fuel: nat,
    input: Seq<char>,
    p: Seq<char>,
    full: bool,
    sq: MatchState,
    sp: MatchState,
)
    requires
        shifted(sq, sp),
        p.len() > 0,
        p[0] != '^',
    ensures
        found(finish(fuel, Subject { input, patt: anchored_pattern(p), full }, sq)) ==> finish(
            fuel,
            Subject { input, patt: p, full },
            sp,
        ) == finish(fuel, Subject { input, patt: anchored_pattern(p), full }, sq),
{
    lemma_index_shift(p);
    lemma_final_outcome_shift(input, p, full, sq, sp);
}

proof fn lemma_scan_shift(
    fuel: nat,
    input: Seq<char>,
    p: Seq<char>,
    full: bool,
    sq: MatchState,
    sp: MatchState,
)
    requires
        shifted(sq, sp),
        0 < p.len() < usize::MAX,
        p[0] != '^',
    ensures
        found(scan(fuel, Subject { input, patt: anchored_pattern(p), full }, sq)) ==> scan(
            fuel,
            Subject { input, patt: p, full },
            sp,
        ) == scan(fuel, Subject { input, patt: anchored_pattern(p), full }, sq),
    decreases fuel,
{
    lemma_index_shift(p);
    if fuel > 0 {
        let f = (fuel - 1) as nat;
        let subq = Subject { input, patt: anchored_pattern(p), full };
        let subp = Subject { input, patt: p, full };
        if sp.pi < p.len() && sp.ii < input.len() {
            lemma_step_shift(f, input, p, full, sq, sp);
            if let Some(Step::Next(s2q)) = step(f, subq, sq) {
                if let Some(Step::Next(s2p)) = step(f, subp, sp) {
                    lemma_scan_shift(f, input, p, full, s2q, s2p);
                }
            }
        } else {
            lemma_finish_shift(f, input, p, full, sq, sp);
        }
    }
}

proof fn lemma_index_of_shift(p: Seq<char>, c: char, i: int)
    requires
        c != '^',
        0 <= i,
    ensures
        index_of_from(anchored_pattern(p), c, i + 1) == match index_of_from(p, c, i) {
            Some(j) => Some(j + 1),
            None => None,
        },
        index_of(anchored_pattern(p), c) == index_of_from(anchored_pattern(p), c, 1),
    decreases p.len() - i,
{
    lemma_index_shift(p);
    if i < p.len() && p[i] != c {
        lemma_index_of_shift(p, c, i + 1);
    }
}

/// Splitting `^p` at `c` gives the pieces of `p`, the first with `^` in
/// front; the first piece of `p` is a prefix of `p`, all of `p` when there
/// is only one piece.
proof fn lemma_split_shift(p: Seq<char>, c: char)
    requires
        c != '^',
    ensures
        split_on(p, c).len() >= 1,
        split_on(anchored_pattern(p), c) == split_on(p, c).update(
            0,
            anchored_pattern(split_on(p, c)[0]),
        ),
        split_on(p, c)[0].len() <= p.len(),
        split_on(p, c)[0] == p.take(split_on(p, c)[0].len() as int),
        split_on(p, c).len() == 1 ==> split_on(p, c)[0] == p,
    decreases p.len(),
{
    let q = anchored_pattern(p);
    if p.len() == 0 {
        assert(q.drop_last() =~= Seq::<char>::empty());
        assert(split_on(Seq::<char>::empty(), c) == seq![Seq::<char>::empty()]);
        assert(split_on(q, c) =~~= split_on(p, c).update(0, anchored_pattern(split_on(p, c)[0])));
    } else {
        let dl = p.drop_last();
        let l = p.last();
        lemma_split_shift(dl, c);
        assert(q.drop_last() =~= anchored_pattern(dl));
        assert(q.last() == l);
        let r0 = split_on(dl, c);
        let n = r0.len();
        if l == c {
            assert(split_on(q, c) =~~= split_on(p, c).update(0, anchored_pattern(split_on(p, c)[0])));
            assert(dl.take(r0[0].len() as int) =~= p.take(r0[0].len() as int));
        } else {
            let qr = split_on(anchored_pattern(dl), c);
            assert(qr.last() == if n == 1 {
                anchored_pattern(r0[0])
            } else {
                r0.last()
            });
            if n == 1 {
                assert(anchored_pattern(r0[0]).push(l) =~= anchored_pattern(r0[0].push(l)));
                assert(r0[0].push(l) =~= p);
                assert(split_on(q, c) =~~= split_on(p, c).update(0, anchored_pattern(split_on(p, c)[0])));
                assert(p.take(p.len() as int) =~= p);
            } else {
                assert(split_on(q, c) =~~= split_on(p, c).update(0, anchored_pattern(split_on(p, c)[0])));
                assert(dl.take(r0[0].len() as int) =~= p.take(r0[0].len() as int));
            }
        }
    }
}

proof fn lemma_first_alternative_same(
    fuel: nat,
    input: Seq<char>,
    qs: Seq<Seq<char>>,
    ps: Seq<Seq<char>>,
    k: int,
    full: bool,
    groups: Seq<Group>,
)
    requires
        qs.len() == ps.len(),
        k >= 1,
        forall|j: int| 1 <= j < ps.len() ==> qs[j] == ps[j],
    ensures
        first_alternative(fuel, input, qs, k, full, groups) == first_alternative(
            fuel,
            input,
            ps,
            k,
            full,
            groups,
        ),
    decreases fuel,
{
    if fuel > 0 {
        lemma_first_alternative_same((fuel - 1) as nat, input, qs, ps, k + 1, full, groups);
    }
}

proof fn lemma_first_alternative_shift(
    fuel: nat,
    input: Seq<char>,
    qs: Seq<Seq<char>>,
    ps: Seq<Seq<char>>,
    full: bool,
    groups: Seq<Group>,
)
    requires
        qs.len() == ps.len() >= 1,
        forall|j: int| 1 <= j < ps.len() ==> qs[j] == ps[j],
        qs[0] == anchored_pattern(ps[0]),
        ps[0].len() > 0 ==> ps[0][0] != '^',
        ps[0].len() < usize::MAX,
    ensures
        found(first_alternative(fuel, input, qs, 0, full, groups)) ==> (first_alternative(
            fuel,
            input,
            ps,
            0,
            full,
            groups,
        ) matches Some(o) ==> o.0),
    decreases fuel, 0int,
{
    if fuel > 0 {
        let f = (fuel - 1) as nat;
        if ps[0].len() > 0 {
            lemma_anchor_dropped(f, input, ps[0], full, groups);
        } else if f > 0 {
            assert(match_spec(f, input, ps[0], full, groups) is None);
        }
        lemma_first_alternative_same(f, input, qs, ps, 1, full, groups);
    }
}

/// The leading anchor: where `^p` matches a line, `p` matches it too (when
/// the matcher finishes on `p`). Here `p` does not itself begin with `^`.
pub proof fn lemma_anchor_dropped(
    fuel: nat,
    input: Seq<char>,
    p: Seq<char>,
    full: bool,
    groups: Seq<Group>,
)
    requires
        p.len() < usize::MAX,
        p.len() > 0 ==> p[0] != '^',
    ensures
        found(match_spec(fuel, input, anchored_pattern(p), full, groups)) ==> (match_spec(
            fuel,
            input,
            p,
            full,
            groups,
        ) matches Some(o) ==> o.0),
    decreases fuel, 1int,
{
    let q = anchored_pattern(p);
    lemma_index_shift(p);
    if p.len() == 0 {
        if fuel > 0 {
            assert(match_spec(fuel, input, p, full, groups) is None);
        }
    } else if fuel > 0 {
        let f = (fuel - 1) as nat;
        lemma_index_of_shift(p, ')', 0);
        lemma_index_of_shift(p, '|', 0);
        if index_of(p, ')') is None && index_of(p, '|') is Some {
            lemma_split_shift(p, '|');
            let ps = split_on(p, '|');
            if ps[0].len() > 0 {
                assert(ps[0][0] == p.take(ps[0].len() as int)[0]);
            }
            lemma_first_alternative_shift(f, input, split_on(q, '|'), ps, full, groups);
        } else if input.len() > 0 {
            lemma_scan_shift(
                f,
                input,
                p,
                full,
                state(1, 0, Seq::empty(), groups, Seq::empty()),
                state(0, 0, Seq::empty(), groups, Seq::empty()),
            );
        }
    }
}

} // verus!
