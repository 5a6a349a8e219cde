//! The backtracking matcher: its meaning as spec functions, and the code proved to follow them.
use vstd::prelude::*;

use crate::classes::{
    bracket_has, class_end, find_class_end, is_digit, item_ok, lemma_class_end_bounds,
    match_bracket_class, single_has, single_match, ESC,
};
use crate::errors::PatternError;

verus! {

/// How many explicit captures one match may hold.
pub const MAX_CAPTURES: usize = 32;

/// How deeply choice points and captures may nest in one attempt.
pub const MAX_DEPTH: usize = 200;

/// One explicit capture while a match is being tried.
#[derive(Debug, Clone, Copy, PartialEq, Eq)]
pub enum Capture {
    /// Opened at this offset, not closed yet.
    Open(usize),
    /// The zero-width marker of an empty `()`.
    Position(usize),
    /// A finished span, start and end.
    Closed(usize, usize),
}

/// What one attempt of the matcher comes to.
pub enum Outcome {
    NoMatch,
    /// The subject offset where the pattern ended, and the captures then.
    Matched(int, Seq<Capture>),
    Failed(PatternError),
}

/// The pattern byte at `i`, or 0 past its end.
pub open spec fn pat_at(p: Seq<u8>, i: int) -> u8 {
    if 0 <= i < p.len() {
        p[i]
    } else {
        0
    }
}

/// Index of the last capture below `k` that is still open, or -1.
pub open spec fn last_open(caps: Seq<Capture>, k: int) -> int
    decreases k,
{
    if k <= 0 {
        -1
    } else if caps[k - 1] is Open {
        k - 1
    } else {
        last_open(caps, k - 1)
    }
}

pub open spec fn open_start(c: Capture) -> usize {
    match c {
        Capture::Open(a) => a,
        Capture::Position(a) => a,
        Capture::Closed(a, _) => a,
    }
}

/// Scanning a balanced item from `i` with `depth` delimiters open: the offset just past
/// the closing byte that brings the count to zero.
pub open spec fn balance_end(s: Seq<u8>, i: int, x: u8, y: u8, depth: int) -> Option<int>
    decreases s.len() - i,
{
    if i < 0 || i >= s.len() {
        None
    } else if s[i] == y {
        if depth == 1 {
            Some(i + 1)
        } else {
            balance_end(s, i + 1, x, y, depth - 1)
        }
    } else if s[i] == x {
        balance_end(s, i + 1, x, y, depth + 1)
    } else {
        balance_end(s, i + 1, x, y, depth)
    }
}

/// The end of the longest run, from `i`, of bytes that match the item `p[pi..ep]`.
pub open spec fn run_end(s: Seq<u8>, i: int, p: Seq<u8>, pi: int, ep: int) -> int
    decreases s.len() - i,
{
    if 0 <= i < s.len() && single_has(s, i, p, pi, ep) {
        run_end(s, i + 1, p, pi, ep)
    } else {
        i
    }
}

/// The kinds of pattern item, told apart by their first bytes.
#[derive(PartialEq, Eq, Structural)]
pub enum ItemKind {
    OpenCapture,
    CloseCapture,
    EndAnchor,
    Balance,
    Frontier,
    BackReference,
    Single,
}

pub open spec fn item_kind(p: Seq<u8>, pi: int) -> ItemKind {
    if p[pi] == 40 {
        ItemKind::OpenCapture
    } else if p[pi] == 41 {
        ItemKind::CloseCapture
    } else if p[pi] == 36 && pi + 1 == p.len() {
        ItemKind::EndAnchor
    } else if p[pi] == ESC && pat_at(p, pi + 1) == 98 {
        ItemKind::Balance
    } else if p[pi] == ESC && pat_at(p, pi + 1) == 102 {
        ItemKind::Frontier
    } else if p[pi] == ESC && is_digit(pat_at(p, pi + 1)) {
        ItemKind::BackReference
    } else {
        ItemKind::Single
    }
}

fn kind_of(p: &[u8], pi: usize) -> (r: ItemKind)
    requires
        pi < p@.len(),
    ensures
        r == item_kind(p@, pi as int),
{
    let c = p[pi];
    let next: u8 = if pi + 1 < p.len() {
        p[pi + 1]
    } else {
        0
    };
    if c == 40 {
        ItemKind::OpenCapture
    } else if c == 41 {
        ItemKind::CloseCapture
    } else if c == 36 && pi + 1 == p.len() {
        ItemKind::EndAnchor
    } else if c == ESC && next == 98 {
        ItemKind::Balance
    } else if c == ESC && next == 102 {
        ItemKind::Frontier
    } else if c == ESC && 48 <= next && next <= 57 {
        ItemKind::BackReference
    } else {
        ItemKind::Single
    }
}

/// Matching the pattern from `pi` against the subject from `si`, with `depth` levels of
/// nesting left.
pub open spec fn match_from(
    s: Seq<u8>,
    p: Seq<u8>,
    si: int,
    pi: int,
    caps: Seq<Capture>,
    depth: nat,
) -> Outcome
    decreases depth, 0int, p.len() - pi,
{
    if depth == 0 {
        Outcome::Failed(PatternError::MatchDepthExceeded)
    } else if pi < 0 || pi >= p.len() {
        Outcome::Matched(si, caps)
    } else if item_kind(p, pi) == ItemKind::OpenCapture {
        if caps.len() >= MAX_CAPTURES {
            Outcome::Failed(PatternError::TooManyCaptures)
        } else if pat_at(p, pi + 1) == 41 {
            match_from(s, p, si, pi + 2, caps.push(Capture::Position(si as usize)), (depth - 1) as nat)
        } else {
            match_from(s, p, si, pi + 1, caps.push(Capture::Open(si as usize)), (depth - 1) as nat)
        }
    } else if item_kind(p, pi) == ItemKind::CloseCapture {
        let l = last_open(caps, caps.len() as int);
        if l < 0 {
            Outcome::Failed(PatternError::NoOpenCapture)
        } else {
            match_from(
                s,
                p,
                si,
                pi + 1,
                caps.update(l, Capture::Closed(open_start(caps[l]), si as usize)),
                (depth - 1) as nat,
            )
        }
    } else if item_kind(p, pi) == ItemKind::EndAnchor {
        if si == s.len() {
            Outcome::Matched(si, caps)
        } else {
            Outcome::NoMatch
        }
    } else if item_kind(p, pi) == ItemKind::Balance {
        if pi + 3 >= p.len() {
            Outcome::Failed(PatternError::MalformedBalance)
        } else if 0 <= si < s.len() && s[si] == p[pi + 2] {
            match balance_end(s, si + 1, p[pi + 2], p[pi + 3], 1) {
                Some(e) => match_from(s, p, e, pi + 4, caps, depth),
                None => Outcome::NoMatch,
            }
        } else {
            Outcome::NoMatch
        }
    } else if item_kind(p, pi) == ItemKind::Frontier {
        if pat_at(p, pi + 2) != 91 {
            Outcome::Failed(PatternError::MalformedFrontier)
        } else {
            match class_end(p, pi + 2) {
                Err(e) => Outcome::Failed(e),
                Ok(ep) => {
                    proof {
                        lemma_class_end_bounds(p, pi + 2);
                    }
                    let prev: u8 = if 0 < si <= s.len() {
                        s[si - 1]
                    } else {
                        0
                    };
                    let cur: u8 = if 0 <= si < s.len() {
                        s[si]
                    } else {
                        0
                    };
                    if !bracket_has(prev, p, pi + 2, ep - 1) && bracket_has(cur, p, pi + 2, ep - 1) {
                        match_from(s, p, si, ep, caps, depth)
                    } else {
                        Outcome::NoMatch
                    }
                },
            }
        }
    } else if item_kind(p, pi) == ItemKind::BackReference {
        let l = p[pi + 1] - 49;
        if l < 0 || l >= caps.len() || !(caps[l] is Closed) {
            Outcome::Failed(PatternError::InvalidCaptureIndex(Some(l as i8)))
        } else {
            let a = caps[l]->Closed_0 as int;
            let b = caps[l]->Closed_1 as int;
            let n = b - a;
            if si + n <= s.len() && s.subrange(si, si + n) == s.subrange(a, b) {
                match_from(s, p, si + n, pi + 2, caps, depth)
            } else {
                Outcome::NoMatch
            }
        }
    } else {
        match class_end(p, pi) {
            Err(e) => Outcome::Failed(e),
            Ok(ep) => {
                proof {
                    lemma_class_end_bounds(p, pi);
                }
                let suffix = pat_at(p, ep);
                if !single_has(s, si, p, pi, ep) {
                    if suffix == 42 || suffix == 63 || suffix == 45 {
                        match_from(s, p, si, ep + 1, caps, depth)
                    } else {
                        Outcome::NoMatch
                    }
                } else if suffix == 63 {
                    match match_from(s, p, si + 1, ep + 1, caps, (depth - 1) as nat) {
                        Outcome::NoMatch => match_from(s, p, si, ep + 1, caps, depth),
                        r => r,
                    }
                } else if suffix == 43 {
                    max_expand(s, p, si + 1, run_end(s, si + 1, p, pi, ep), ep, caps, (depth - 1) as nat)
                } else if suffix == 42 {
                    max_expand(s, p, si, run_end(s, si, p, pi, ep), ep, caps, (depth - 1) as nat)
                } else if suffix == 45 {
                    min_expand(s, p, si, pi, ep, caps, (depth - 1) as nat)
                } else {
                    match_from(s, p, si + 1, ep, caps, depth)
                }
            },
        }
    }
}

/// Greedy repetition: the rest of the pattern from `ep + 1` is tried after `k`, `k - 1`,
/// ..., `base` occurrences' worth of subject, longest first.
pub open spec fn max_expand(
    s: Seq<u8>,
    p: Seq<u8>,
    base: int,
    k: int,
    ep: int,
    caps: Seq<Capture>,
    depth: nat,
) -> Outcome
    decreases depth, 1int, k - base,
{
    match match_from(s, p, k, ep + 1, caps, depth) {
        Outcome::NoMatch => if k > base {
            max_expand(s, p, base, k - 1, ep, caps, depth)
        } else {
            Outcome::NoMatch
        },
        r => r,
    }
}

/// Lazy repetition: the rest of the pattern is tried after as few occurrences as possible.
pub open spec fn min_expand(
    s: Seq<u8>,
    p: Seq<u8>,
    k: int,
    pi: int,
    ep: int,
    caps: Seq<Capture>,
    depth: nat,
) -> Outcome
    decreases depth, 1int, s.len() - k,
{
    match match_from(s, p, k, ep + 1, caps, depth) {
        Outcome::NoMatch => if single_has(s, k, p, pi, ep) {
            min_expand(s, p, k + 1, pi, ep, caps, depth)
        } else {
            Outcome::NoMatch
        },
        r => r,
    }
}

/// The offsets that captures hold stay inside the subject; an open capture started at or
/// before `si`, and a closed one does not end before it starts.
pub open spec fn caps_ok(caps: Seq<Capture>, si: int, n: int) -> bool {
    &&& caps.len() <= MAX_CAPTURES
    &&& forall|i: int|
        0 <= i < caps.len() ==> match #[trigger] caps[i] {
            Capture::Open(a) => a <= si,
            Capture::Position(a) => a <= n,
            Capture::Closed(a, b) => a <= b <= n,
        }
}

/// What `do_match` promises about the outcome `o` of the spec, its result `r` and the
/// captures before (`c0`) and after (`c1`).
pub open spec fn follows(
    o: Outcome,
    r: Result<Option<usize>, PatternError>,
    c0: Seq<Capture>,
    c1: Seq<Capture>,
    si: int,
    n: int,
) -> bool {
    match o {
        Outcome::NoMatch => r == Ok::<Option<usize>, PatternError>(None) && c1 == c0,
        Outcome::Matched(e, c) => r == Ok::<Option<usize>, PatternError>(Some(e as usize)) && c1
            == c && si <= e <= n && caps_ok(c, e, n),
        Outcome::Failed(err) => r == Err::<Option<usize>, PatternError>(err),
    }
}

proof fn lemma_caps_ok_grow(caps: Seq<Capture>, si: int, sj: int, n: int)
    requires
        caps_ok(caps, si, n),
        si <= sj,
    ensures
        caps_ok(caps, sj, n),
{
    assert forall|i: int| 0 <= i < caps.len() implies match #[trigger] caps[i] {
        Capture::Open(a) => a <= sj,
        Capture::Position(a) => a <= n,
        Capture::Closed(a, b) => a <= b <= n,
    } by {
        match caps[i] {
            Capture::Open(a) => {},
            _ => {},
        }
    }
}

fn last_open_capture(caps: &Vec<Capture>) -> (r: Option<usize>)
    ensures
        match r {
            Some(l) => l as int == last_open(caps@, caps@.len() as int),
            None => last_open(caps@, caps@.len() as int) < 0,
        },
{
    let mut k = caps.len();
    while k > 0
        invariant
            k <= caps@.len(),
            last_open(caps@, caps@.len() as int) == last_open(caps@, k as int),
        decreases k,
    {
        if let Capture::Open(_) = caps[k - 1] {
            return Some(k - 1);
        }
        k = k - 1;
    }
    None
}

fn balance_scan(s: &[u8], i: usize, x: u8, y: u8) -> (r: Option<usize>)
    requires
        1 <= i <= s@.len(),
    ensures
        match balance_end(s@, i as int, x, y, 1) {
            Some(e) => r == Some(e as usize) && i < e <= s@.len(),
            None => r is None,
        },
{
    let mut k = i;
    let mut open: usize = 1;
    proof {
        lemma_balance_end_bounds(s@, i as int, x, y, 1);
    }
    while k < s.len()
        invariant
            i <= k <= s@.len(),
            1 <= open <= k - i + 1,
            1 <= i,
            balance_end(s@, i as int, x, y, 1) == balance_end(s@, k as int, x, y, open as int),
            forall|e: int| #[trigger] balance_end(s@, k as int, x, y, open as int) == Some(e) ==> k
                < e <= s@.len(),
        decreases s@.len() - k,
    {
        proof {
            lemma_balance_end_bounds(s@, k as int + 1, x, y, open as int - 1);
            lemma_balance_end_bounds(s@, k as int + 1, x, y, open as int + 1);
            lemma_balance_end_bounds(s@, k as int + 1, x, y, open as int);
        }
        if s[k] == y {
            if open == 1 {
                return Some(k + 1);
            }
            open = open - 1;
        } else if s[k] == x {
            open = open + 1;
        }
        k = k + 1;
    }
    None
}

proof fn lemma_balance_end_bounds(s: Seq<u8>, i: int, x: u8, y: u8, depth: int)
    ensures
        forall|e: int| #[trigger] balance_end(s, i, x, y, depth) == Some(e) ==> i < e <= s.len(),
    decreases s.len() - i,
{
    if 0 <= i < s.len() {
        lemma_balance_end_bounds(s, i + 1, x, y, depth - 1);
        lemma_balance_end_bounds(s, i + 1, x, y, depth + 1);
        lemma_balance_end_bounds(s, i + 1, x, y, depth);
    }
}

fn same_bytes(s: &[u8], a: usize, b: usize, n: usize) -> (r: bool)
    requires
        a + n <= s@.len(),
        b + n <= s@.len(),
    ensures
        r == (s@.subrange(a as int, a + n) == s@.subrange(b as int, b + n)),
{
    let mut j: usize = 0;
    let len = s.len();
    while j < n
        invariant
            j <= n,
            len == s@.len(),
            a + n <= s@.len(),
            b + n <= s@.len(),
            s@.subrange(a as int, a + j) == s@.subrange(b as int, b + j),
        decreases n - j,
    {
        if s[a + j] != s[b + j] {
            assert(s@.subrange(a as int, a + n)[j as int] != s@.subrange(b as int, b + n)[j as int]);
            return false;
        }
        assert(s@.subrange(a as int, a + j + 1) =~= s@.subrange(a as int, a + j).push(s@[a + j]));
        assert(s@.subrange(b as int, b + j + 1) =~= s@.subrange(b as int, b + j).push(s@[b + j]));
        j = j + 1;
    }
    true
}

fn scan_run(s: &[u8], i: usize, p: &[u8], pi: usize, ep: usize) -> (r: usize)
    requires
        i <= s@.len(),
        item_ok(p@, pi as int, ep as int),
    ensures
        r as int == run_end(s@, i as int, p@, pi as int, ep as int),
        i <= r <= s@.len(),
{
    let mut k = i;
    while k < s.len() && single_match(s, k, p, pi, ep)
        invariant
            i <= k <= s@.len(),
            item_ok(p@, pi as int, ep as int),
            run_end(s@, i as int, p@, pi as int, ep as int) == run_end(
                s@,
                k as int,
                p@,
                pi as int,
                ep as int,
            ),
        decreases s@.len() - k,
    {
        k = k + 1;
    }
    k
}

/// What one pattern item comes to: the offsets to go on from, or the final result.
pub enum Step {
    Next(usize, usize),
    Done(Result<Option<usize>, PatternError>),
}

/// A step taken at subject offset `si` and pattern offset `pi` agrees with the outcome `o`
/// of the whole attempt from there.
pub open spec fn step_ok(
    o: Outcome,
    st: Step,
    s: Seq<u8>,
    p: Seq<u8>,
    si: int,
    pi: int,
    c0: Seq<Capture>,
    c1: Seq<Capture>,
    depth: nat,
) -> bool {
    match st {
        Step::Next(a, b) => si <= a <= s.len() && pi < b <= p.len() && c1 == c0 && match_from(
            s,
            p,
            a as int,
            b as int,
            c0,
            depth,
        ) == o,
        Step::Done(r) => follows(o, r, c0, c1, si, s.len() as int),
    }
}

/// Runs the matcher from subject offset `si` and pattern offset `pi`; on a match the
/// captures are those of the match, otherwise they are as they were.
pub fn do_match(
    s: &[u8],
    p: &[u8],
    caps: &mut Vec<Capture>,
    si: usize,
    pi: usize,
    depth: usize,
) -> (r: Result<Option<usize>, PatternError>)
    requires
        si <= s@.len(),
        pi <= p@.len(),
        caps_ok(old(caps)@, si as int, s@.len() as int),
    ensures
        follows(
            match_from(s@, p@, si as int, pi as int, old(caps)@, depth as nat),
            r,
            old(caps)@,
            final(caps)@,
            si as int,
            s@.len() as int,
        ),
    decreases depth, 1int,
{
    if depth == 0 {
        return Err(PatternError::MatchDepthExceeded);
    }
    let ghost c0 = caps@;
    let ghost o = match_from(s@, p@, si as int, pi as int, c0, depth as nat);
    let ghost si0 = si as int;
    let ghost pi0 = pi as int;
    let plen = p.len();
    let slen = s.len();
    let mut sc = si;
    let mut pc = pi;
    loop
        invariant
            si0 == si,
            pi0 == pi,
            si0 <= sc <= slen,
            pc <= plen,
            plen == p@.len(),
            slen == s@.len(),
            depth > 0,
            caps@ == c0,
            c0 == old(caps)@,
            o == match_from(s@, p@, si0, pi0, c0, depth as nat),
            caps_ok(c0, sc as int, slen as int),
            match_from(s@, p@, sc as int, pc as int, c0, depth as nat) == o,
        decreases plen - pc,
    {
        if pc >= plen {
            return Ok(Some(sc));
        }
        let st = match kind_of(p, pc) {
            ItemKind::OpenCapture => step_open(s, p, caps, sc, pc, depth),
            ItemKind::CloseCapture => step_close(s, p, caps, sc, pc, depth),
            ItemKind::EndAnchor => step_end_anchor(s, p, caps, sc, pc, depth),
            ItemKind::Balance => step_balance(s, p, caps, sc, pc, depth),
            ItemKind::Frontier => step_frontier(s, p, caps, sc, pc, depth),
            ItemKind::BackReference => step_back_reference(s, p, caps, sc, pc, depth),
            ItemKind::Single => step_single(s, p, caps, sc, pc, depth),
        };
        match st {
            Step::Next(a, b) => {
                proof {
                    lemma_caps_ok_grow(c0, sc as int, a as int, slen as int);
                }
                sc = a;
                pc = b;
            },
            Step::Done(r) => {
                return r;
            },
        }
    }
}

fn step_open(s: &[u8], p: &[u8], caps: &mut Vec<Capture>, si: usize, pi: usize, depth: usize) -> (r:
    Step)
    requires
        si <= s@.len(),
        pi < p@.len(),
        depth > 0,
        caps_ok(old(caps)@, si as int, s@.len() as int),
        item_kind(p@, pi as int) == ItemKind::OpenCapture,
    ensures
        step_ok(
            match_from(s@, p@, si as int, pi as int, old(caps)@, depth as nat),
            r,
            s@,
            p@,
            si as int,
            pi as int,
            old(caps)@,
            final(caps)@,
            depth as nat,
        ),
    decreases depth, 0int,
{
    let ghost c0 = caps@;
    let ghost here = match_from(s@, p@, si as int, pi as int, c0, depth as nat);
    if caps.len() >= MAX_CAPTURES {
        return Step::Done(Err(PatternError::TooManyCaptures));
    }
    let plen = p.len();
    let position = plen - pi > 1 && p[pi + 1] == 41;
    let cap = if position {
        Capture::Position(si)
    } else {
        Capture::Open(si)
    };
    let next = if position {
        pi + 2
    } else {
        pi + 1
    };
    assert(here == match_from(s@, p@, si as int, next as int, c0.push(cap), (depth - 1) as nat));
    caps.push(cap);
    proof {
        assert forall|i: int| 0 <= i < caps@.len() implies match #[trigger] caps@[i] {
            Capture::Open(a) => a <= si,
            Capture::Position(a) => a <= s@.len(),
            Capture::Closed(a, b) => a <= b <= s@.len(),
        } by {
            if i < c0.len() {
                assert(caps@[i] == c0[i]);
            }
        }
    }
    let r = do_match(s, p, caps, si, next, depth - 1);
    if let Ok(None) = r {
        caps.pop();
        assert(caps@ =~= c0);
    }
    Step::Done(r)
}

fn step_close(s: &[u8], p: &[u8], caps: &mut Vec<Capture>, si: usize, pi: usize, depth: usize) -> (r:
    Step)
    requires
        si <= s@.len(),
        pi < p@.len(),
        depth > 0,
        caps_ok(old(caps)@, si as int, s@.len() as int),
        item_kind(p@, pi as int) == ItemKind::CloseCapture,
    ensures
        step_ok(
            match_from(s@, p@, si as int, pi as int, old(caps)@, depth as nat),
            r,
            s@,
            p@,
            si as int,
            pi as int,
            old(caps)@,
            final(caps)@,
            depth as nat,
        ),
    decreases depth, 0int,
{
    let ghost c0 = caps@;
    let ghost here = match_from(s@, p@, si as int, pi as int, c0, depth as nat);
    let plen = p.len();
    match last_open_capture(caps) {
        None => Step::Done(Err(PatternError::NoOpenCapture)),
        Some(l) => {
            proof {
                lemma_last_open_is_open(c0, c0.len() as int);
            }
            let start = match caps[l] {
                Capture::Open(a) => a,
                Capture::Position(a) => a,
                Capture::Closed(a, _) => a,
            };
            assert(here == match_from(
                s@,
                p@,
                si as int,
                pi + 1,
                c0.update(l as int, Capture::Closed(start, si)),
                (depth - 1) as nat,
            ));
            caps.set(l, Capture::Closed(start, si));
            proof {
                assert forall|i: int| 0 <= i < caps@.len() implies match #[trigger] caps@[i] {
                    Capture::Open(a) => a <= si,
                    Capture::Position(a) => a <= s@.len(),
                    Capture::Closed(a, b) => a <= b <= s@.len(),
                } by {
                    if i != l {
                        assert(caps@[i] == c0[i]);
                    } else {
                        assert(c0[i] == Capture::Open(start));
                    }
                }
            }
            let r = do_match(s, p, caps, si, pi + 1, depth - 1);
            if let Ok(None) = r {
                caps.set(l, Capture::Open(start));
                assert(caps@ =~= c0);
            }
            Step::Done(r)
        },
    }
}

fn step_end_anchor(
    s: &[u8],
    p: &[u8],
    caps: &mut Vec<Capture>,
    si: usize,
    pi: usize,
    depth: usize,
) -> (r: Step)
    requires
        si <= s@.len(),
        pi < p@.len(),
        depth > 0,
        caps_ok(old(caps)@, si as int, s@.len() as int),
        item_kind(p@, pi as int) == ItemKind::EndAnchor,
    ensures
        step_ok(
            match_from(s@, p@, si as int, pi as int, old(caps)@, depth as nat),
            r,
            s@,
            p@,
            si as int,
            pi as int,
            old(caps)@,
            final(caps)@,
            depth as nat,
        ),
{
    if si == s.len() {
        Step::Done(Ok(Some(si)))
    } else {
        Step::Done(Ok(None))
    }
}

fn step_balance(s: &[u8], p: &[u8], caps: &mut Vec<Capture>, si: usize, pi: usize, depth: usize) -> (r:
    Step)
    requires
        si <= s@.len(),
        pi < p@.len(),
        depth > 0,
        caps_ok(old(caps)@, si as int, s@.len() as int),
        item_kind(p@, pi as int) == ItemKind::Balance,
    ensures
        step_ok(
            match_from(s@, p@, si as int, pi as int, old(caps)@, depth as nat),
            r,
            s@,
            p@,
            si as int,
            pi as int,
            old(caps)@,
            final(caps)@,
            depth as nat,
        ),
{
    let plen = p.len();
    if plen - pi <= 3 {
        return Step::Done(Err(PatternError::MalformedBalance));
    }
    if si < s.len() && s[si] == p[pi + 2] {
        match balance_scan(s, si + 1, p[pi + 2], p[pi + 3]) {
            Some(e) => Step::Next(e, pi + 4),
            None => Step::Done(Ok(None)),
        }
    } else {
        Step::Done(Ok(None))
    }
}

fn step_frontier(s: &[u8], p: &[u8], caps: &mut Vec<Capture>, si: usize, pi: usize, depth: usize) -> (r:
    Step)
    requires
        si <= s@.len(),
        pi < p@.len(),
        depth > 0,
        caps_ok(old(caps)@, si as int, s@.len() as int),
        item_kind(p@, pi as int) == ItemKind::Frontier,
    ensures
        step_ok(
            match_from(s@, p@, si as int, pi as int, old(caps)@, depth as nat),
            r,
            s@,
            p@,
            si as int,
            pi as int,
            old(caps)@,
            final(caps)@,
            depth as nat,
        ),
{
    let plen = p.len();
    if !(plen - pi > 2 && p[pi + 2] == 91) {
        return Step::Done(Err(PatternError::MalformedFrontier));
    }
    proof {
        lemma_class_end_bounds(p@, pi + 2);
    }
    let ep = match find_class_end(p, pi + 2) {
        Ok(ep) => ep,
        Err(e) => {
            return Step::Done(Err(e));
        },
    };
    let prev: u8 = if si > 0 {
        s[si - 1]
    } else {
        0
    };
    let cur: u8 = if si < s.len() {
        s[si]
    } else {
        0
    };
    if !match_bracket_class(prev, p, pi + 2, ep - 1) && match_bracket_class(cur, p, pi + 2, ep - 1) {
        Step::Next(si, ep)
    } else {
        Step::Done(Ok(None))
    }
}

fn step_back_reference(
    s: &[u8],
    p: &[u8],
    caps: &mut Vec<Capture>,
    si: usize,
    pi: usize,
    depth: usize,
) -> (r: Step)
    requires
        si <= s@.len(),
        pi < p@.len(),
        depth > 0,
        caps_ok(old(caps)@, si as int, s@.len() as int),
        item_kind(p@, pi as int) == ItemKind::BackReference,
    ensures
        step_ok(
            match_from(s@, p@, si as int, pi as int, old(caps)@, depth as nat),
            r,
            s@,
            p@,
            si as int,
            pi as int,
            old(caps)@,
            final(caps)@,
            depth as nat,
        ),
{
    let plen = p.len();
    let d = p[pi + 1];
    if d == 48 || (d - 49) as usize >= caps.len() {
        return Step::Done(Err(PatternError::InvalidCaptureIndex(Some((d as i8) - 49))));
    }
    let l = (d - 49) as usize;
    match caps[l] {
        Capture::Closed(a, b) => {
            assert(a <= b <= s@.len()) by {
                assert(old(caps)@[l as int] == caps@[l as int]);
            }
            let n = b - a;
            if n <= s.len() - si && same_bytes(s, si, a, n) {
                Step::Next(si + n, pi + 2)
            } else {
                Step::Done(Ok(None))
            }
        },
        _ => Step::Done(Err(PatternError::InvalidCaptureIndex(Some((d as i8) - 49)))),
    }
}

fn step_single(s: &[u8], p: &[u8], caps: &mut Vec<Capture>, si: usize, pi: usize, depth: usize) -> (r:
    Step)
    requires
        si <= s@.len(),
        pi < p@.len(),
        depth > 0,
        caps_ok(old(caps)@, si as int, s@.len() as int),
        item_kind(p@, pi as int) == ItemKind::Single,
    ensures
        step_ok(
            match_from(s@, p@, si as int, pi as int, old(caps)@, depth as nat),
            r,
            s@,
            p@,
            si as int,
            pi as int,
            old(caps)@,
            final(caps)@,
            depth as nat,
        ),
    decreases depth, 0int,
{
    let ghost c0 = caps@;
    let ghost here = match_from(s@, p@, si as int, pi as int, c0, depth as nat);
    let plen = p.len();
    let slen = s.len();
    proof {
        lemma_class_end_bounds(p@, pi as int);
    }
    let ep = match find_class_end(p, pi) {
        Ok(ep) => ep,
        Err(e) => {
            return Step::Done(Err(e));
        },
    };
    let suffix: u8 = if ep < p.len() {
        p[ep]
    } else {
        0
    };
    if !single_match(s, si, p, pi, ep) {
        if suffix == 42 || suffix == 63 || suffix == 45 {
            Step::Next(si, ep + 1)
        } else {
            Step::Done(Ok(None))
        }
    } else if suffix == 63 {
        proof {
            lemma_caps_ok_grow(c0, si as int, si + 1, s@.len() as int);
        }
        let r = do_match(s, p, caps, si + 1, ep + 1, depth - 1);
        match r {
            Ok(None) => Step::Next(si, ep + 1),
            _ => Step::Done(r),
        }
    } else if suffix == 43 {
        let k = scan_run(s, si + 1, p, pi, ep);
        proof {
            lemma_caps_ok_grow(c0, si as int, si + 1, s@.len() as int);
        }
        assert(here == max_expand(s@, p@, si + 1, k as int, ep as int, c0, (depth - 1) as nat));
        Step::Done(max_expand_run(s, p, caps, si + 1, k, ep, depth - 1))
    } else if suffix == 42 {
        let k = scan_run(s, si, p, pi, ep);
        assert(here == max_expand(s@, p@, si as int, k as int, ep as int, c0, (depth - 1) as nat));
        Step::Done(max_expand_run(s, p, caps, si, k, ep, depth - 1))
    } else if suffix == 45 {
        assert(here == min_expand(s@, p@, si as int, pi as int, ep as int, c0, (depth - 1) as nat));
        Step::Done(min_expand_run(s, p, caps, si, pi, ep, depth - 1))
    } else {
        Step::Next(si + 1, ep)
    }
}

proof fn lemma_last_open_is_open(caps: Seq<Capture>, k: int)
    requires
        k <= caps.len(),
    ensures
        last_open(caps, k) >= 0 ==> last_open(caps, k) < k && caps[last_open(caps, k)] is Open,
        last_open(caps, k) >= 0 ==> caps[last_open(caps, k)] == Capture::Open(
            open_start(caps[last_open(caps, k)]),
        ),
    decreases k,
{
    if k > 0 && !(caps[k - 1] is Open) {
        lemma_last_open_is_open(caps, k - 1);
    }
}

fn max_expand_run(
    s: &[u8],
    p: &[u8],
    caps: &mut Vec<Capture>,
    base: usize,
    k: usize,
    ep: usize,
    depth: usize,
) -> (r: Result<Option<usize>, PatternError>)
    requires
        base <= k <= s@.len(),
        ep < p@.len(),
        caps_ok(old(caps)@, base as int, s@.len() as int),
    ensures
        follows(
            max_expand(s@, p@, base as int, k as int, ep as int, old(caps)@, depth as nat),
            r,
            old(caps)@,
            final(caps)@,
            base as int,
            s@.len() as int,
        ),
    decreases depth, 2int,
{
    let ghost c0 = caps@;
    let ghost o = max_expand(s@, p@, base as int, k as int, ep as int, c0, depth as nat);
    let mut i = k;
    let plen = p.len();
    loop
        invariant
            base <= i <= k <= s@.len(),
            ep < p@.len(),
            plen == p@.len(),
            caps@ == c0,
            c0 == old(caps)@,
            o == max_expand(s@, p@, base as int, k as int, ep as int, c0, depth as nat),
            caps_ok(c0, base as int, s@.len() as int),
            max_expand(s@, p@, base as int, i as int, ep as int, c0, depth as nat) == o,
        decreases i,
    {
        proof {
            lemma_caps_ok_grow(c0, base as int, i as int, s@.len() as int);
        }
        let r = do_match(s, p, caps, i, ep + 1, depth);
        assert(max_expand(s@, p@, base as int, i as int, ep as int, c0, depth as nat) == match match_from(s@, p@, i as int, ep + 1, c0, depth as nat) {
            Outcome::NoMatch => if i > base {
                max_expand(s@, p@, base as int, i - 1, ep as int, c0, depth as nat)
            } else {
                Outcome::NoMatch
            },
            r => r,
        });
        match r {
            Ok(None) => {
                if i == base {
                    return Ok(None);
                }
                i = i - 1;
            },
            _ => {
                return r;
            },
        }
    }
}

fn min_expand_run(
    s: &[u8],
    p: &[u8],
    caps: &mut Vec<Capture>,
    k: usize,
    pi: usize,
    ep: usize,
    depth: usize,
) -> (r: Result<Option<usize>, PatternError>)
    requires
        k <= s@.len(),
        ep < p@.len(),
        item_ok(p@, pi as int, ep as int),
        caps_ok(old(caps)@, k as int, s@.len() as int),
    ensures
        follows(
            min_expand(s@, p@, k as int, pi as int, ep as int, old(caps)@, depth as nat),
            r,
            old(caps)@,
            final(caps)@,
            k as int,
            s@.len() as int,
        ),
    decreases depth, 2int,
{
    let ghost c0 = caps@;
    let ghost o = min_expand(s@, p@, k as int, pi as int, ep as int, c0, depth as nat);
    let ghost k0 = k as int;
    let mut i = k;
    let plen = p.len();
    let slen = s.len();
    loop
        invariant
            k0 <= i <= s@.len(),
            ep < p@.len(),
            plen == p@.len(),
            slen == s@.len(),
            item_ok(p@, pi as int, ep as int),
            caps@ == c0,
            c0 == old(caps)@,
            k0 == k,
            o == min_expand(s@, p@, k as int, pi as int, ep as int, c0, depth as nat),
            caps_ok(c0, k0, s@.len() as int),
            min_expand(s@, p@, i as int, pi as int, ep as int, c0, depth as nat) == o,
        decreases s@.len() - i,
    {
        proof {
            lemma_caps_ok_grow(c0, k0, i as int, s@.len() as int);
        }
        let r = do_match(s, p, caps, i, ep + 1, depth);
        assert(min_expand(s@, p@, i as int, pi as int, ep as int, c0, depth as nat) == match match_from(s@, p@, i as int, ep + 1, c0, depth as nat) {
            Outcome::NoMatch => if single_has(s@, i as int, p@, pi as int, ep as int) {
                min_expand(s@, p@, i + 1, pi as int, ep as int, c0, depth as nat)
            } else {
                Outcome::NoMatch
            },
            r => r,
        });
        match r {
            Ok(None) => {
                if single_match(s, i, p, pi, ep) {
                    i = i + 1;
                } else {
                    return Ok(None);
                }
            },
            _ => {
                return r;
            },
        }
    }
}

} // verus!

verus! {

/// One span of a match: the whole match, or one capture.
#[derive(Debug, Clone, Copy, PartialEq, Eq)]
pub struct LuaMatch {
    pub start: usize,
    pub end: usize,
}

/// A pattern that starts with `^` is tried at the start offset only.
pub open spec fn anchored(p: Seq<u8>) -> bool {
    p.len() > 0 && p[0] == 94
}

pub open spec fn pattern_start(p: Seq<u8>) -> int {
    if anchored(p) {
        1
    } else {
        0
    }
}

/// Where the search driver stops.
pub enum Found {
    NotFound,
    /// Start and end of the whole match, and its captures.
    At(int, int, Seq<Capture>),
    Error(PatternError),
}

/// Trying the pattern at offsets `k`, `k + 1`, ... up to the subject's length, the first
/// attempt that does not fail to match decides.
pub open spec fn search(s: Seq<u8>, p: Seq<u8>, k: int) -> Found
    decreases s.len() + 1 - k,
{
    if k < 0 || k > s.len() {
        Found::NotFound
    } else {
        match match_from(s, p, k, pattern_start(p), Seq::empty(), MAX_DEPTH as nat) {
            Outcome::Matched(e, c) => Found::At(k, e, c),
            Outcome::Failed(err) => Found::Error(err),
            Outcome::NoMatch => if anchored(p) {
                Found::NotFound
            } else {
                search(s, p, k + 1)
            },
        }
    }
}

pub open spec fn span_of(c: Capture) -> LuaMatch {
    match c {
        Capture::Open(a) => LuaMatch { start: a, end: a },
        Capture::Position(a) => LuaMatch { start: a, end: a },
        Capture::Closed(a, b) => LuaMatch { start: a, end: b },
    }
}

pub open spec fn has_open(caps: Seq<Capture>) -> bool {
    exists|i: int| 0 <= i < caps.len() && #[trigger] caps[i] is Open
}

/// The spans of a match found from offset `init`: the whole match first, then each capture
/// in the order of its opening parenthesis; empty where there is no match.
pub open spec fn find_spans(s: Seq<u8>, p: Seq<u8>, init: int) -> Result<Seq<LuaMatch>, PatternError> {
    match search(s, p, init) {
        Found::NotFound => Ok(Seq::empty()),
        Found::Error(e) => Err(e),
        Found::At(st, en, c) => if has_open(c) {
            Err(PatternError::UnfinishedCapture)
        } else {
            Ok(seq![LuaMatch { start: st as usize, end: en as usize }] + c.map_values(
                |x: Capture| span_of(x),
            ))
        },
    }
}

/// Which spans of the match found from `init` are the zero-width marks of empty `()`
/// captures; empty where there is no match.
pub open spec fn find_positions(s: Seq<u8>, p: Seq<u8>, init: int) -> Seq<bool> {
    match search(s, p, init) {
        Found::At(_, _, c) => seq![false] + c.map_values(|x: Capture| x is Position),
        _ => Seq::empty(),
    }
}

/// Looks for the pattern in the subject from offset `init` on: the spans of the match
/// found, and which of them are position captures.
pub fn match_at(s: &[u8], p: &[u8], init: usize) -> (r: Result<(Vec<LuaMatch>, Vec<bool>), PatternError>)
    ensures
        match find_spans(s@, p@, init as int) {
            Ok(v) => r matches Ok((w, q)) && w@ == v && q@.len() == v.len() && (v.len() > 0
                ==> q@ == find_positions(s@, p@, init as int)) && w@.len() <= MAX_CAPTURES + 1
                && (w@.len() > 0 ==> init <= w@[0].start <= w@[0].end <= s@.len()),
            Err(e) => r == Err::<(Vec<LuaMatch>, Vec<bool>), PatternError>(e),
        },
{
    let slen = s.len();
    if init > slen {
        return Ok((Vec::new(), Vec::new()));
    }
    let anchor = p.len() > 0 && p[0] == 94;
    let ps: usize = if anchor {
        1
    } else {
        0
    };
    let mut k = init;
    loop
        invariant
            init <= k <= slen,
            slen == s@.len(),
            anchor == anchored(p@),
            ps == pattern_start(p@),
            search(s@, p@, k as int) == search(s@, p@, init as int),
        decreases slen - k,
    {
        let mut caps: Vec<Capture> = Vec::new();
        let ghost here = search(s@, p@, k as int);
        let r = do_match(s, p, &mut caps, k, ps, MAX_DEPTH);
        match r {
            Err(e) => {
                return Err(e);
            },
            Ok(Some(e)) => {
                assert(here == Found::At(k as int, e as int, caps@));
                return collect_spans(&caps, k, e);
            },
            Ok(None) => {
                if anchor || k >= slen {
                    proof {
                        if !anchor {
                            assert(search(s@, p@, k + 1) == Found::NotFound);
                        }
                    }
                    assert(here == Found::NotFound);
                    return Ok((Vec::new(), Vec::new()));
                }
                k = k + 1;
            },
        }
    }
}

fn collect_spans(caps: &Vec<Capture>, st: usize, en: usize) -> (r: Result<(Vec<LuaMatch>, Vec<bool>), PatternError>)
    requires
        caps@.len() <= MAX_CAPTURES,
    ensures
        has_open(caps@) ==> r == Err::<(Vec<LuaMatch>, Vec<bool>), PatternError>(PatternError::UnfinishedCapture),
        !has_open(caps@) ==> (r matches Ok((w, q)) && w@ == seq![LuaMatch { start: st, end: en }]
            + caps@.map_values(|x: Capture| span_of(x)) && w@.len() <= MAX_CAPTURES + 1 && q@
            == seq![false] + caps@.map_values(|x: Capture| x is Position)),
{
    let mut out: Vec<LuaMatch> = Vec::new();
    let mut pos: Vec<bool> = Vec::new();
    out.push(LuaMatch { start: st, end: en });
    pos.push(false);
    let mut i: usize = 0;
    while i < caps.len()
        invariant
            i <= caps@.len(),
            caps@.len() <= MAX_CAPTURES,
            out@ == seq![LuaMatch { start: st, end: en }] + caps@.subrange(0, i as int).map_values(
                |x: Capture| span_of(x),
            ),
            pos@ == seq![false] + caps@.subrange(0, i as int).map_values(|x: Capture| x is Position),
            forall|j: int| 0 <= j < i ==> !(#[trigger] caps@[j] is Open),
        decreases caps@.len() - i,
    {
        let c = caps[i];
        let sp = match c {
            Capture::Open(_) => {
                return Err(PatternError::UnfinishedCapture);
            },
            Capture::Position(a) => LuaMatch { start: a, end: a },
            Capture::Closed(a, b) => LuaMatch { start: a, end: b },
        };
        out.push(sp);
        pos.push(matches!(c, Capture::Position(_)));
        proof {
            assert(caps@.subrange(0, i + 1).map_values(|x: Capture| x is Position) =~= caps@.subrange(
                0,
                i as int,
            ).map_values(|x: Capture| x is Position).push(c is Position));
            assert(pos@ =~= seq![false] + caps@.subrange(0, i + 1).map_values(|x: Capture| x is Position));
            assert(caps@.subrange(0, i + 1) =~= caps@.subrange(0, i as int).push(c));
            assert(caps@.subrange(0, i + 1).map_values(|x: Capture| span_of(x)) =~= caps@.subrange(
                0,
                i as int,
            ).map_values(|x: Capture| span_of(x)).push(span_of(c)));
            assert(out@ =~= seq![LuaMatch { start: st, end: en }] + caps@.subrange(0, i + 1).map_values(
                |x: Capture| span_of(x),
            ));
        }
        i = i + 1;
    }
    assert(caps@.subrange(0, caps@.len() as int) =~= caps@);
    Ok((out, pos))
}

} // verus!

verus! {

/// At most the allowed number of captures, starting in the order of their indices, none
/// before `lo` nor after `si`.
pub open spec fn starts_ordered(caps: Seq<Capture>, lo: int, si: int) -> bool {
    &&& caps.len() <= MAX_CAPTURES
    &&& forall|i: int, j: int|
        0 <= i < j < caps.len() ==> open_start(#[trigger] caps[i]) <= open_start(#[trigger] caps[j])
    &&& forall|i: int| 0 <= i < caps.len() ==> lo <= open_start(#[trigger] caps[i]) <= si
    &&& forall|i: int|
        0 <= i < caps.len() && (#[trigger] caps[i] is Closed) ==> caps[i]->Closed_0
            <= caps[i]->Closed_1 <= si
}

proof fn lemma_ordered_grow(caps: Seq<Capture>, lo: int, si: int, sj: int)
    requires
        starts_ordered(caps, lo, si),
        si <= sj,
    ensures
        starts_ordered(caps, lo, sj),
{
}

proof fn lemma_run_end_bounds(s: Seq<u8>, i: int, p: Seq<u8>, pi: int, ep: int)
    ensures
        run_end(s, i, p, pi, ep) >= i,
        i <= s.len() ==> run_end(s, i, p, pi, ep) <= s.len(),
    decreases s.len() - i,
{
    if 0 <= i < s.len() && single_has(s, i, p, pi, ep) {
        lemma_run_end_bounds(s, i + 1, p, pi, ep);
    }
}

pub proof fn lemma_order_match_from(
    s: Seq<u8>,
    p: Seq<u8>,
    lo: int,
    si: int,
    pi: int,
    caps: Seq<Capture>,
    depth: nat,
)
    requires
        0 <= lo <= si <= s.len(),
        s.len() <= usize::MAX,
        starts_ordered(caps, lo, si),
    ensures
        match_from(s, p, si, pi, caps, depth) matches Outcome::Matched(e, c) ==> si <= e
            && starts_ordered(c, lo, e)
            && e <= s.len(),
    decreases depth, 0int, p.len() - pi,
{
    if depth == 0 || pi < 0 || pi >= p.len() {
    } else if item_kind(p, pi) == ItemKind::OpenCapture {
        if caps.len() < MAX_CAPTURES {
            let c = if pat_at(p, pi + 1) == 41 {
                Capture::Position(si as usize)
            } else {
                Capture::Open(si as usize)
            };
            let np = if pat_at(p, pi + 1) == 41 {
                pi + 2
            } else {
                pi + 1
            };
            assert(starts_ordered(caps.push(c), lo, si)) by {
                assert forall|i: int| 0 <= i < caps.len() implies caps.push(c)[i] == caps[i] by {}
            }
            assert(match_from(s, p, si, pi, caps, depth) == match_from(s, p, si, np, caps.push(c), (depth - 1) as nat));
            lemma_order_match_from(s, p, lo, si, np, caps.push(c), (depth - 1) as nat);
        }
    } else if item_kind(p, pi) == ItemKind::CloseCapture {
        let l = last_open(caps, caps.len() as int);
        lemma_last_open_is_open(caps, caps.len() as int);
        if l >= 0 {
            let c2 = caps.update(l, Capture::Closed(open_start(caps[l]), si as usize));
            assert(starts_ordered(c2, lo, si)) by {
                assert forall|i: int| 0 <= i < caps.len() && i != l implies c2[i] == caps[i] by {}
            }
            assert(match_from(s, p, si, pi, caps, depth) == match_from(s, p, si, pi + 1, c2, (depth - 1) as nat));
            lemma_order_match_from(s, p, lo, si, pi + 1, c2, (depth - 1) as nat);
        }
    } else if item_kind(p, pi) == ItemKind::EndAnchor {
    } else if item_kind(p, pi) == ItemKind::Balance {
        if pi + 3 < p.len() && 0 <= si < s.len() && s[si] == p[pi + 2] {
            lemma_balance_end_bounds(s, si + 1, p[pi + 2], p[pi + 3], 1);
            if let Some(e) = balance_end(s, si + 1, p[pi + 2], p[pi + 3], 1) {
                lemma_ordered_grow(caps, lo, si, e);
                assert(match_from(s, p, si, pi, caps, depth) == match_from(s, p, e, pi + 4, caps, depth));
                lemma_order_match_from(s, p, lo, e, pi + 4, caps, depth);
            }
        }
    } else if item_kind(p, pi) == ItemKind::Frontier {
        if pat_at(p, pi + 2) == 91 {
            lemma_class_end_bounds(p, pi + 2);
            if let Ok(ep) = class_end(p, pi + 2) {
                assert(match_from(s, p, si, pi, caps, depth) == match_from(s, p, si, ep, caps, depth)
                    || match_from(s, p, si, pi, caps, depth) == Outcome::NoMatch);
                lemma_order_match_from(s, p, lo, si, ep, caps, depth);
            }
        }
    } else if item_kind(p, pi) == ItemKind::BackReference {
        let l = p[pi + 1] - 49;
        if !(l < 0 || l >= caps.len() || !(caps[l] is Closed)) {
            let a = caps[l]->Closed_0 as int;
            let b = caps[l]->Closed_1 as int;
            let n = b - a;
            assert(n >= 0);
            if si + n <= s.len() && s.subrange(si, si + n) == s.subrange(a, b) {
                lemma_ordered_grow(caps, lo, si, si + n);
                assert(match_from(s, p, si, pi, caps, depth) == match_from(s, p, si + n, pi + 2, caps, depth));
                lemma_order_match_from(s, p, lo, si + n, pi + 2, caps, depth);
            }
        }
    } else {
        lemma_class_end_bounds(p, pi);
        if let Ok(ep) = class_end(p, pi) {
            let suffix = pat_at(p, ep);
            if !single_has(s, si, p, pi, ep) {
                if suffix == 42 || suffix == 63 || suffix == 45 {
                    lemma_order_match_from(s, p, lo, si, ep + 1, caps, depth);
                }
            } else {
                lemma_ordered_grow(caps, lo, si, si + 1);
                lemma_run_end_bounds(s, si, p, pi, ep);
                lemma_run_end_bounds(s, si + 1, p, pi, ep);
                if suffix == 63 {
                    lemma_order_match_from(s, p, lo, si + 1, ep + 1, caps, (depth - 1) as nat);
                    lemma_order_match_from(s, p, lo, si, ep + 1, caps, depth);
                } else if suffix == 43 {
                    lemma_order_max_expand(
                        s,
                        p,
                        lo,
                        si + 1,
                        run_end(s, si + 1, p, pi, ep),
                        ep,
                        caps,
                        (depth - 1) as nat,
                    );
                } else if suffix == 42 {
                    lemma_order_max_expand(
                        s,
                        p,
                        lo,
                        si,
                        run_end(s, si, p, pi, ep),
                        ep,
                        caps,
                        (depth - 1) as nat,
                    );
                } else if suffix == 45 {
                    lemma_order_min_expand(s, p, lo, si, pi, ep, caps, (depth - 1) as nat);
                } else {
                    lemma_order_match_from(s, p, lo, si + 1, ep, caps, depth);
                }
            }
        }
    }
}

proof fn lemma_order_max_expand(
    s: Seq<u8>,
    p: Seq<u8>,
    lo: int,
    base: int,
    k: int,
    ep: int,
    caps: Seq<Capture>,
    depth: nat,
)
    requires
        0 <= lo <= base <= k <= s.len(),
        s.len() <= usize::MAX,
        starts_ordered(caps, lo, base),
    ensures
        max_expand(s, p, base, k, ep, caps, depth) matches Outcome::Matched(e, c) ==> base <= e
            && starts_ordered(c, lo, e)
            && e <= s.len(),
    decreases depth, 1int, k - base,
{
    if k >= base {
        lemma_ordered_grow(caps, lo, base, k);
        lemma_order_match_from(s, p, lo, k, ep + 1, caps, depth);
    }
    if k > base {
        lemma_order_max_expand(s, p, lo, base, k - 1, ep, caps, depth);
    }
}

proof fn lemma_order_min_expand(
    s: Seq<u8>,
    p: Seq<u8>,
    lo: int,
    k: int,
    pi: int,
    ep: int,
    caps: Seq<Capture>,
    depth: nat,
)
    requires
        0 <= lo <= k <= s.len(),
        s.len() <= usize::MAX,
        starts_ordered(caps, lo, k),
    ensures
        min_expand(s, p, k, pi, ep, caps, depth) matches Outcome::Matched(e, c) ==> k <= e
            && starts_ordered(c, lo, e)
            && e <= s.len(),
    decreases depth, 1int, s.len() - k,
{
    lemma_order_match_from(s, p, lo, k, ep + 1, caps, depth);
    if single_has(s, k, p, pi, ep) {
        lemma_ordered_grow(caps, lo, k, k + 1);
        lemma_order_min_expand(s, p, lo, k + 1, pi, ep, caps, depth);
    }
}

} // verus!
