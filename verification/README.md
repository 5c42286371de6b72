# codecrafters_grep

A grep-like pattern matcher over the characters of a line, verified with
Verus.

- `src/model.rs` states, as spec functions, what the matcher computes step
  by step; `None` there marks the runs that panic or do not finish within a
  step budget.
- `src/matcher.rs` and `src/cursor.rs` hold the matcher, each function
  proved to compute its spec function; `src/patterns.rs`, `src/text.rs` and
  `src/classes.rs` hold the pieces it is built from.
- `src/lib.rs` and `src/utils.rs` give the functions on strings.
- `src/laws.rs` and `src/budget.rs` prove properties that hold for every
  input: a successful match reports the prefix it matched, the next
  sub-pattern is a piece of the pattern, a larger step budget never
  changes a result, alternatives match when one of them does, a pattern of
  plain characters matches the lines that begin with it, and `match_extra`
  moves past the repeats at the end of a pattern and otherwise backtracks
  to the last position from which the rest matches.
- `src/anchor.rs` proves that a pattern that matches with a leading `^`
  also matches without it.
- `app/` is the command line program: `grep -E PATTERN [FILE...]`.
