//! Properties that relate several calls, or all inputs, of the matcher.
use vstd::prelude::*;

use crate::matcher::{
    anchored, find_spans, LuaMatch, MAX_CAPTURES, lemma_order_match_from, match_from, open_start, pattern_start, search, span_of,
    starts_ordered, Capture, Found, Outcome, MAX_DEPTH,
};
use crate::pattern::{after_match, LuaPattern};
use crate::subst::{expand, gsub_from, gsub_reps, reps_fit, Piece};

verus! {

proof fn lemma_search_leftmost(s: Seq<u8>, p: Seq<u8>, k: int)
    requires
        0 <= k,
    ensures
        search(s, p, k) matches Found::At(st, _, _) ==> k <= st && forall|j: int|
            k <= j < st ==> #[trigger] match_from(
                s,
                p,
                j,
                pattern_start(p),
                Seq::<Capture>::empty(),
                MAX_DEPTH as nat,
            ) == Outcome::NoMatch,
    decreases s.len() + 1 - k,
{
    if k <= s.len() {
        match match_from(s, p, k, pattern_start(p), Seq::empty(), MAX_DEPTH as nat) {
            Outcome::NoMatch => {
                lemma_search_leftmost(s, p, k + 1);
            },
            _ => {},
        }
    }
}

/// The match found is the leftmost one: where the pattern is found from offset `init` and
/// the match starts at `st`, an attempt at any offset from `init` up to `st` fails to match.
pub proof fn law_leftmost_match(s: Seq<u8>, p: Seq<u8>, init: int)
    requires
        0 <= init,
        s.len() <= usize::MAX,
    ensures
        forall|j: int|
            find_spans(s, p, init) is Ok && find_spans(s, p, init)->Ok_0.len() > 0 && init <= j
                < find_spans(s, p, init)->Ok_0[0].start ==> #[trigger] match_from(
                s,
                p,
                j,
                pattern_start(p),
                Seq::<Capture>::empty(),
                MAX_DEPTH as nat,
            ) == Outcome::NoMatch,
{
    lemma_search_leftmost(s, p, init);
    if let Found::At(st, e, c) = search(s, p, init) {
        lemma_search_bounds(s, p, init);
    }
}

proof fn lemma_search_bounds(s: Seq<u8>, p: Seq<u8>, k: int)
    ensures
        search(s, p, k) matches Found::At(st, _, _) ==> 0 <= st <= s.len(),
    decreases s.len() + 1 - k,
{
    if 0 <= k <= s.len() {
        lemma_search_bounds(s, p, k + 1);
    }
}

/// Matching is deterministic: two pattern values with the same pattern bytes, each used to
/// look in the same subject from the same offset, hold the same current spans afterwards.
pub proof fn law_deterministic(
    a0: LuaPattern,
    a1: LuaPattern,
    b0: LuaPattern,
    b1: LuaPattern,
    s: Seq<u8>,
    init: int,
)
    requires
        a0.pattern() == b0.pattern(),
        after_match(a0, a1, s, init),
        after_match(b0, b1, s, init),
    ensures
        a1.count() == b1.count(),
        forall|i: int| 0 <= i < a1.count() ==> a1.spans()[i] == b1.spans()[i],
{
}

/// A pattern that starts with `^` matches only where the search starts: a match found
/// from offset `init` starts at `init`.
pub proof fn law_anchored_search(s: Seq<u8>, p: Seq<u8>, init: int)
    requires
        0 <= init <= s.len(),
        s.len() <= usize::MAX,
        anchored(p),
    ensures
        find_spans(s, p, init) is Ok && find_spans(s, p, init)->Ok_0.len() > 0 ==> find_spans(
            s,
            p,
            init,
        )->Ok_0[0].start == init,
{
}

proof fn lemma_search_order(s: Seq<u8>, p: Seq<u8>, k: int)
    requires
        0 <= k,
        s.len() <= usize::MAX,
    ensures
        search(s, p, k) matches Found::At(st, e, c) ==> st <= e && e <= s.len() && starts_ordered(
            c,
            st,
            e,
        ),
    decreases s.len() + 1 - k,
{
    if k <= s.len() {
        lemma_order_match_from(s, p, k, k, pattern_start(p), Seq::empty(), MAX_DEPTH as nat);
        lemma_search_order(s, p, k + 1);
    }
}

/// Captures are numbered in the left-to-right order of their opening parentheses, whatever
/// their nesting: in a match found, a capture with a higher number never starts before one
/// with a lower number.
pub proof fn law_capture_order(s: Seq<u8>, p: Seq<u8>, init: int)
    requires
        0 <= init,
        s.len() <= usize::MAX,
    ensures
        forall|i: int, j: int|
            find_spans(s, p, init) is Ok && 1 <= i < j < find_spans(s, p, init)->Ok_0.len()
                ==> (#[trigger] find_spans(s, p, init)->Ok_0[i]).start <= (
            #[trigger] find_spans(s, p, init)->Ok_0[j]).start,
{
    lemma_search_order(s, p, init);
    if let Found::At(st, e, c) = search(s, p, init) {
        if find_spans(s, p, init) is Ok {
            let v = find_spans(s, p, init)->Ok_0;
            assert forall|i: int, j: int| 1 <= i < j < v.len() implies v[i].start <= v[j].start by {
                assert(v[i] == span_of(c[i - 1]));
                assert(v[j] == span_of(c[j - 1]));
                assert(open_start(c[i - 1]) <= open_start(c[j - 1]));
            }
        }
    }
}

/// A match found has at most the allowed number of spans, and each capture lies inside
/// the whole match.
pub proof fn law_captures_within_match(s: Seq<u8>, p: Seq<u8>, init: int)
    requires
        0 <= init,
        s.len() <= usize::MAX,
    ensures
        find_spans(s, p, init) is Ok ==> find_spans(s, p, init)->Ok_0.len() <= MAX_CAPTURES + 1,
        forall|i: int|
            find_spans(s, p, init) is Ok && 1 <= i < find_spans(s, p, init)->Ok_0.len()
                ==> find_spans(s, p, init)->Ok_0[0].start <= (#[trigger] find_spans(
                s,
                p,
                init,
            )->Ok_0[i]).start <= find_spans(s, p, init)->Ok_0[i].end <= find_spans(
                s,
                p,
                init,
            )->Ok_0[0].end,
{
    lemma_search_order(s, p, init);
    lemma_search_bounds(s, p, init);
    if let Found::At(st, e, c) = search(s, p, init) {
        if find_spans(s, p, init) is Ok {
            let v = find_spans(s, p, init)->Ok_0;
            assert forall|i: int| 1 <= i < v.len() implies v[0].start <= (#[trigger] v[i]).start
                && v[i].start <= v[i].end && v[i].end <= v[0].end by {
                assert(v[i] == span_of(c[i - 1]));
                assert(!(c[i - 1] is Open));
                assert(st <= open_start(c[i - 1]) <= e);
            }
        }
    }
}

/// Replacements that are the template `ps` expanded against each match.
pub open spec fn template_fits(ps: Seq<Piece>, s: Seq<u8>) -> spec_fn(Seq<LuaMatch>, Seq<u8>) -> bool {
    |v: Seq<LuaMatch>, rep: Seq<u8>| rep == expand(ps, s, v, v.len() as int)
}

/// Substituting with a template is substituting with a lookup that expands the template
/// against the captures of each match: where every replacement is the template's expansion
/// for its match, the two substitutions give the same bytes.
pub proof fn law_template_is_lookup(
    s: Seq<u8>,
    p: Seq<u8>,
    ps: Seq<Piece>,
    reps: Seq<Seq<u8>>,
    pos: int,
)
    requires
        reps_fit(s, p, reps, pos, template_fits(ps, s)),
    ensures
        gsub_reps(s, p, reps, pos) == gsub_from(s, p, ps, pos),
    decreases s.len() + 1 - pos,
{
    if 0 <= pos <= s.len() {
        if let Ok(v) = find_spans(s, p, pos) {
            if v.len() > 0 && pos <= v[0].start <= v[0].end <= s.len() {
                let w = v[0];
                assert(reps[0] == expand(ps, s, v, v.len() as int));
                if w.end > w.start {
                    law_template_is_lookup(s, p, ps, reps.drop_first(), w.end as int);
                } else if w.start < s.len() {
                    law_template_is_lookup(s, p, ps, reps.drop_first(), w.start + 1);
                }
            }
        }
    }
}

} // verus!
