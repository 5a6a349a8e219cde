//! The pattern value: construction, matching, and access to the spans of the last match.
use vstd::prelude::*;
use vstd::slice::slice_subrange;
use vstd::string::StringSliceAdditionalSpecFns;
use vstd::utf8::valid_utf8;

use crate::errors::PatternError;
use crate::matcher::{find_positions, find_spans, match_at, LuaMatch};
use crate::validate::{check_pattern, pattern_check};

verus! {

/// How many spans a match can have: the whole match and each capture.
pub const MAX_SPANS: usize = 33;

/// The bytes of `b` that the span covers, or nothing where it does not lie inside `b`.
pub open spec fn byte_span(b: Seq<u8>, sp: LuaMatch) -> Seq<u8> {
    if sp.start <= sp.end <= b.len() {
        b.subrange(sp.start as int, sp.end as int)
    } else {
        Seq::empty()
    }
}

/// The text of a span: its bytes where they form whole characters, otherwise nothing.
pub open spec fn text_span(b: Seq<u8>, sp: LuaMatch) -> Seq<u8> {
    if valid_utf8(byte_span(b, sp)) {
        byte_span(b, sp)
    } else {
        Seq::empty()
    }
}

/// Relies on `core::str::from_utf8`: it accepts exactly the well-formed UTF-8 sequences,
/// and the text it returns is those bytes.
#[verifier::external_body]
fn utf8_of<'t>(b: &'t [u8]) -> (r: Option<&'t str>)
    ensures
        r is Some <==> valid_utf8(b@),
        r matches Some(t) ==> t.spec_bytes() == b@,
{
    core::str::from_utf8(b).ok()
}

/// The bytes of a span of `b` (see `byte_span`).
pub fn bytes_of_span<'t>(b: &'t [u8], sp: LuaMatch) -> (r: &'t [u8])
    ensures
        r@ == byte_span(b@, sp),
{
    if sp.start <= sp.end && sp.end <= b.len() {
        slice_subrange(b, sp.start, sp.end)
    } else {
        slice_subrange(b, 0, 0)
    }
}

/// The text of a span of `text` (see `text_span`).
pub fn text_of_span<'t>(text: &'t str, sp: LuaMatch) -> (r: &'t str)
    ensures
        r.spec_bytes() == text_span(text.spec_bytes(), sp),
{
    let b = bytes_of_span(text.as_bytes(), sp);
    match utf8_of(b) {
        Some(t) => t,
        None => {
            let e = utf8_of(slice_subrange(b, 0, 0)).unwrap_or(text);
            proof {
                assert(b@.subrange(0, 0) =~= Seq::<u8>::empty());
                assert(valid_utf8(Seq::<u8>::empty())) by {
                    reveal_with_fuel(valid_utf8, 1);
                }
            }
            e
        },
    }
}

/// A Lua pattern, with the spans of its last match.
pub struct LuaPattern<'a> {
    patt: &'a [u8],
    matches: Vec<LuaMatch>,
    positions: Vec<bool>,
    n_match: usize,
}

/// The spans kept after a match attempt that found `v` (empty: no match): the first
/// `v.len()` are `v`, the rest are left as they were.
pub open spec fn recorded(new: Seq<LuaMatch>, old: Seq<LuaMatch>, v: Seq<LuaMatch>) -> bool {
    &&& new.len() == old.len()
    &&& forall|i: int| 0 <= i < v.len() ==> new[i] == v[i]
    &&& forall|i: int| v.len() <= i < new.len() ==> new[i] == old[i]
}

/// The state of a pattern value after looking for it in `s` from offset `init`.
pub open spec fn after_match(before: LuaPattern, after: LuaPattern, s: Seq<u8>, init: int) -> bool {
    &&& after.positions().len() == before.positions().len()
    &&& match find_spans(s, before.pattern(), init) {
        Ok(v) => after.count() == v.len() && recorded(after.spans(), before.spans(), v) && forall|
            i: int,
        |
            0 <= i < v.len() ==> #[trigger] after.positions()[i] == find_positions(
                s,
                before.pattern(),
                init,
            )[i],
        Err(_) => after.count() == 0 && after.spans() == before.spans(),
    }
}

/// Whether the pattern matches somewhere in `s`, from offset `init` on.
pub open spec fn found_in(s: Seq<u8>, p: Seq<u8>, init: int) -> bool {
    find_spans(s, p, init) matches Ok(v) && v.len() > 0
}

impl<'a> LuaPattern<'a> {
    /// The pattern's bytes.
    pub closed spec fn pattern(&self) -> Seq<u8> {
        self.patt@
    }

    /// The spans of the last match; the first `count()` of them are current.
    pub closed spec fn spans(&self) -> Seq<LuaMatch> {
        self.matches@
    }

    /// Which spans of the last match are zero-width position captures (`()`).
    pub closed spec fn positions(&self) -> Seq<bool> {
        self.positions@
    }

    /// How many spans the last match produced: zero after no match.
    pub closed spec fn count(&self) -> nat {
        self.n_match as nat
    }

    pub closed spec fn wf(&self) -> bool {
        &&& self.matches@.len() == MAX_SPANS
        &&& self.positions@.len() == MAX_SPANS
        &&& self.n_match <= MAX_SPANS
        &&& pattern_check(self.patt@) is Ok
    }

    /// What a well-formed pattern value holds.
    pub proof fn lemma_wf(&self)
        requires
            self.wf(),
        ensures
            self.spans().len() == MAX_SPANS,
            self.positions().len() == MAX_SPANS,
            self.count() <= MAX_SPANS,
            pattern_check(self.pattern()) is Ok,
    {
    }

    /// Maybe create a new Lua pattern from a slice of bytes.
    pub fn from_bytes_try(bytes: &'a [u8]) -> (r: Result<LuaPattern<'a>, PatternError>)
        ensures
            match pattern_check(bytes@) {
                Ok(_) => r matches Ok(m) && m.wf() && m.pattern() == bytes@ && m.count() == 0,
                Err(e) => r matches Err(x) && x == e,
            },
    {
        match check_pattern(bytes) {
            Err(e) => Err(e),
            Ok(()) => {
                let mut matches: Vec<LuaMatch> = Vec::new();
                let mut positions: Vec<bool> = Vec::new();
                let mut i: usize = 0;
                while i < MAX_SPANS
                    invariant
                        i <= MAX_SPANS,
                        matches@.len() == i,
                        positions@.len() == i,
                    decreases MAX_SPANS - i,
                {
                    matches.push(LuaMatch { start: 0, end: 0 });
                    positions.push(false);
                    i = i + 1;
                }
                Ok(LuaPattern { patt: bytes, matches, positions, n_match: 0 })
            },
        }
    }

    /// Maybe create a new Lua pattern from a string.
    pub fn new_try(patt: &'a str) -> (r: Result<LuaPattern<'a>, PatternError>)
        ensures
            match pattern_check(patt.spec_bytes()) {
                Ok(_) => r matches Ok(m) && m.wf() && m.pattern() == patt.spec_bytes() && m.count()
                    == 0,
                Err(e) => r matches Err(x) && x == e,
            },
    {
        LuaPattern::from_bytes_try(patt.as_bytes())
    }

    /// Create a new Lua pattern from a string, which must be a valid pattern.
    pub fn new(patt: &'a str) -> (r: LuaPattern<'a>)
        requires
            pattern_check(patt.spec_bytes()) is Ok,
        ensures
            r.wf(),
            r.pattern() == patt.spec_bytes(),
            r.count() == 0,
    {
        match LuaPattern::new_try(patt) {
            Ok(m) => m,
            Err(_) => {
                proof {
                    assert(false);
                }
                LuaPattern { patt: patt.as_bytes(), matches: Vec::new(), positions: Vec::new(), n_match: 0 }
            },
        }
    }

    /// Create a new Lua pattern from a slice of bytes, which must be a valid pattern.
    pub fn from_bytes(bytes: &'a [u8]) -> (r: LuaPattern<'a>)
        requires
            pattern_check(bytes@) is Ok,
        ensures
            r.wf(),
            r.pattern() == bytes@,
            r.count() == 0,
    {
        match LuaPattern::from_bytes_try(bytes) {
            Ok(m) => m,
            Err(_) => {
                proof {
                    assert(false);
                }
                LuaPattern { patt: bytes, matches: Vec::new(), positions: Vec::new(), n_match: 0 }
            },
        }
    }

    /// Look for the pattern in `s` from offset `init` on, and keep the spans found. A match
    /// that would nest deeper than the matcher allows is reported as an error.
    pub fn try_match_at(&mut self, s: &[u8], init: usize) -> (r: Result<bool, PatternError>)
        requires
            old(self).wf(),
        ensures
            final(self).wf(),
            final(self).pattern() == old(self).pattern(),
            after_match(*old(self), *final(self), s@, init as int),
            match find_spans(s@, old(self).pattern(), init as int) {
                Ok(v) => r == Ok::<bool, PatternError>(v.len() > 0),
                Err(e) => r == Err::<bool, PatternError>(e),
            },
            r == Ok::<bool, PatternError>(true) ==> init <= final(self).spans()[0].start
                <= final(self).spans()[0].end <= s@.len(),
    {
        match match_at(s, self.patt, init) {
            Err(e) => {
                self.n_match = 0;
                Err(e)
            },
            Ok((v, q)) => {
                let ghost before = self.matches@;
                let mut i: usize = 0;
                while i < v.len()
                    invariant
                        i <= v@.len(),
                        v@.len() <= MAX_SPANS,
                        q@.len() == v@.len(),
                        self.positions@.len() == MAX_SPANS,
                        forall|j: int| 0 <= j < i ==> self.positions@[j] == q@[j],
                        self.patt == old(self).patt,
                        pattern_check(self.patt@) is Ok,
                        self.matches@.len() == MAX_SPANS,
                        before.len() == MAX_SPANS,
                        forall|j: int| 0 <= j < i ==> self.matches@[j] == v@[j],
                        forall|j: int| i <= j < MAX_SPANS ==> self.matches@[j] == before[j],
                    decreases v@.len() - i,
                {
                    self.matches.set(i, v[i]);
                    self.positions.set(i, q[i]);
                    i = i + 1;
                }
                self.n_match = v.len();
                Ok(v.len() > 0)
            },
        }
    }

    /// Match a slice of bytes with a pattern. The answer is a `bool`, so an attempt that
    /// nests deeper than the matcher allows answers `false` and keeps no spans, as no match
    /// does; `try_match_at` is the form that reports `MatchDepthExceeded` to the caller.
    pub fn matches_bytes(&mut self, s: &[u8]) -> (r: bool)
        requires
            old(self).wf(),
        ensures
            final(self).wf(),
            final(self).pattern() == old(self).pattern(),
            r == found_in(s@, old(self).pattern(), 0),
            after_match(*old(self), *final(self), s@, 0),
    {
        match self.try_match_at(s, 0) {
            Ok(b) => b,
            Err(_) => false,
        }
    }

    /// Match a string with a pattern (see `matches_bytes` for the depth limit).
    pub fn matches(&mut self, text: &str) -> (r: bool)
        requires
            old(self).wf(),
        ensures
            final(self).wf(),
            final(self).pattern() == old(self).pattern(),
            r == found_in(text.spec_bytes(), old(self).pattern(), 0),
            after_match(*old(self), *final(self), text.spec_bytes(), 0),
    {
        self.matches_bytes(text.as_bytes())
    }

    /// Get the nth span of the last match: 0 is the whole match, then the captures.
    pub fn capture(&self, i: usize) -> (r: core::ops::Range<usize>)
        requires
            self.wf(),
            i < MAX_SPANS,
        ensures
            r.start == self.spans()[i as int].start,
            r.end == self.spans()[i as int].end,
    {
        core::ops::Range { start: self.matches[i].start, end: self.matches[i].end }
    }

    /// The full match (same as `capture(0)`).
    pub fn range(&self) -> (r: core::ops::Range<usize>)
        requires
            self.wf(),
        ensures
            r.start == self.spans()[0].start,
            r.end == self.spans()[0].end,
    {
        self.capture(0)
    }

    /// The span index that `first_capture` reports: the first capture if there is one,
    /// else the whole match.
    pub open spec fn first_index(&self) -> int {
        if self.count() > 1 {
            1
        } else {
            0
        }
    }

    /// Get the 'first' capture of the match: `capture(1)` if the match has captures,
    /// otherwise the same as `range`.
    pub fn first_capture(&self) -> (r: core::ops::Range<usize>)
        requires
            self.wf(),
        ensures
            r.start == self.spans()[self.first_index()].start,
            r.end == self.spans()[self.first_index()].end,
    {
        let idx: usize = if self.n_match > 1 {
            1
        } else {
            0
        };
        self.capture(idx)
    }

    pub fn span(&self, i: usize) -> (r: LuaMatch)
        requires
            self.wf(),
            i < MAX_SPANS,
        ensures
            r == self.spans()[i as int],
    {
        self.matches[i]
    }

    pub fn num_matches(&self) -> (r: usize)
        ensures
            r == self.count(),
    {
        self.n_match
    }

    /// Match a string, returning the first capture (or the whole match) if successful.
    pub fn match_maybe<'t>(&mut self, text: &'t str) -> (r: Option<&'t str>)
        requires
            old(self).wf(),
        ensures
            final(self).wf(),
            final(self).pattern() == old(self).pattern(),
            after_match(*old(self), *final(self), text.spec_bytes(), 0),
            r is Some == found_in(text.spec_bytes(), old(self).pattern(), 0),
            r matches Some(t) ==> t.spec_bytes() == text_span(
                text.spec_bytes(),
                final(self).spans()[final(self).first_index()],
            ),
    {
        if self.matches(text) {
            let sp = self.span(if self.n_match > 1 {
                1
            } else {
                0
            });
            Some(text_of_span(text, sp))
        } else {
            None
        }
    }

    /// Match a string, returning its first two captures if it matches with exactly two.
    pub fn match_maybe_2<'t>(&mut self, text: &'t str) -> (r: Option<(&'t str, &'t str)>)
        requires
            old(self).wf(),
        ensures
            final(self).wf(),
            final(self).pattern() == old(self).pattern(),
            after_match(*old(self), *final(self), text.spec_bytes(), 0),
            r is Some == (found_in(text.spec_bytes(), old(self).pattern(), 0) && final(self).count()
                == 3),
            r matches Some(t) ==> t.0.spec_bytes() == text_span(
                text.spec_bytes(),
                final(self).spans()[1],
            ) && t.1.spec_bytes() == text_span(text.spec_bytes(), final(self).spans()[2]),
    {
        if self.matches(text) {
            if self.n_match != 3 {
                return None;
            }
            Some((text_of_span(text, self.span(1)), text_of_span(text, self.span(2))))
        } else {
            None
        }
    }

    /// Match a string, returning its first three captures if it matches with exactly three.
    pub fn match_maybe_3<'t>(&mut self, text: &'t str) -> (r: Option<(&'t str, &'t str, &'t str)>)
        requires
            old(self).wf(),
        ensures
            final(self).wf(),
            final(self).pattern() == old(self).pattern(),
            after_match(*old(self), *final(self), text.spec_bytes(), 0),
            r is Some == (found_in(text.spec_bytes(), old(self).pattern(), 0) && final(self).count()
                == 4),
            r matches Some(t) ==> t.0.spec_bytes() == text_span(
                text.spec_bytes(),
                final(self).spans()[1],
            ) && t.1.spec_bytes() == text_span(text.spec_bytes(), final(self).spans()[2])
                && t.2.spec_bytes() == text_span(text.spec_bytes(), final(self).spans()[3]),
    {
        if self.matches(text) {
            if self.n_match != 4 {
                return None;
            }
            Some(
                (
                    text_of_span(text, self.span(1)),
                    text_of_span(text, self.span(2)),
                    text_of_span(text, self.span(3)),
                ),
            )
        } else {
            None
        }
    }

    /// Match and collect all spans' texts into `vec`, which is cleared first.
    pub fn capture_into<'b>(&mut self, text: &'b str, vec: &mut Vec<&'b str>) -> (r: bool)
        requires
            old(self).wf(),
        ensures
            final(self).wf(),
            final(self).pattern() == old(self).pattern(),
            after_match(*old(self), *final(self), text.spec_bytes(), 0),
            r == found_in(text.spec_bytes(), old(self).pattern(), 0),
            r == (final(self).count() > 0),
            final(vec)@.len() == final(self).count(),
            forall|i: int|
                0 <= i < final(vec)@.len() ==> (#[trigger] final(vec)@[i]).spec_bytes()
                    == text_span(text.spec_bytes(), final(self).spans()[i]),
    {
        let found = self.matches(text);
        vec.clear();
        let n = self.n_match;
        let mut i: usize = 0;
        while i < n
            invariant
                self.wf(),
                n == self.count(),
                i <= n,
                vec@.len() == i,
                forall|j: int|
                    0 <= j < i ==> (#[trigger] vec@[j]).spec_bytes() == text_span(
                        text.spec_bytes(),
                        self.spans()[j],
                    ),
            decreases n - i,
        {
            vec.push(text_of_span(text, self.span(i)));
            i = i + 1;
        }
        found
    }

    /// Match and collect all spans' texts as a vector.
    pub fn captures<'b>(&mut self, text: &'b str) -> (r: Vec<&'b str>)
        requires
            old(self).wf(),
        ensures
            final(self).wf(),
            final(self).pattern() == old(self).pattern(),
            after_match(*old(self), *final(self), text.spec_bytes(), 0),
            r@.len() == final(self).count(),
            found_in(text.spec_bytes(), old(self).pattern(), 0) == (r@.len() > 0),
            forall|i: int|
                0 <= i < r@.len() ==> (#[trigger] r@[i]).spec_bytes() == text_span(
                    text.spec_bytes(),
                    final(self).spans()[i],
                ),
    {
        let mut res: Vec<&'b str> = Vec::new();
        self.capture_into(text, &mut res);
        res
    }

    /// Access to the spans' texts of the last match, without allocation.
    pub fn match_captures<'b, 'c>(&'c self, text: &'b str) -> (r: Captures<'a, 'b, 'c>)
        ensures
            r.pattern() == self,
            r.text() == text,
    {
        Captures { m: self, text }
    }

    /// An iterator over all matches in a string.
    pub fn gmatch<'b, 'c>(&'c mut self, text: &'b str) -> (r: GMatch<'a, 'b, 'c>)
        ensures
            r.position() == 0,
            r.text() == text,
            *r.pattern() == *old(self),
    {
        GMatch { m: self, text, pos: 0 }
    }

    /// A streaming iterator over the captures of all matches in a string.
    pub fn gmatch_captures<'b, 'c>(&'c mut self, text: &'b str) -> (r: GMatchCaptures<'a, 'b, 'c>)
        ensures
            r.position() == 0,
            r.text() == text,
            *r.pattern() == *old(self),
    {
        GMatchCaptures { m: self, text, pos: 0 }
    }

    /// An iterator over all matches in a slice of bytes.
    pub fn gmatch_bytes<'b>(&'a mut self, bytes: &'b [u8]) -> (r: GMatchBytes<'a, 'b>)
        ensures
            r.position() == 0,
            r.bytes() == bytes,
            *r.pattern() == *old(self),
    {
        GMatchBytes { m: self, bytes, pos: 0 }
    }
}

/// Where iteration goes on after a match `whole`: at its end, or one past it where the
/// match was empty, so that every step moves forward.
pub open spec fn next_position(whole: LuaMatch) -> int {
    if whole.end > whole.start || whole.end == usize::MAX {
        whole.end as int
    } else {
        whole.end + 1
    }
}

/// Low-overhead access to the texts of the spans of a string match.
pub struct Captures<'a, 'b, 'c> {
    m: &'c LuaPattern<'a>,
    text: &'b str,
}

impl<'a, 'b, 'c> Captures<'a, 'b, 'c> {
    pub closed spec fn pattern(&self) -> &'c LuaPattern<'a> {
        self.m
    }

    pub closed spec fn text(&self) -> &'b str {
        self.text
    }

    /// The text of span `i`: empty where the last match has no such span.
    pub fn get(&self, i: usize) -> (r: &'b str)
        requires
            self.pattern().wf(),
        ensures
            i < self.pattern().count() ==> r.spec_bytes() == text_span(
                self.text().spec_bytes(),
                self.pattern().spans()[i as int],
            ),
            i >= self.pattern().count() ==> r.spec_bytes() == Seq::<u8>::empty(),
    {
        let sp = if i < self.m.n_match {
            self.m.span(i)
        } else {
            LuaMatch { start: 1, end: 0 }
        };
        text_of_span(self.text, sp)
    }

    /// The text of span `i`, refused for a position capture, which marks an offset and
    /// holds no text.
    pub fn try_get(&self, i: usize) -> (r: Result<&'b str, PatternError>)
        requires
            self.pattern().wf(),
        ensures
            i < self.pattern().count() && self.pattern().positions()[i as int] ==> r
                == Err::<&'b str, PatternError>(PatternError::NoCaptureLength),
            !(i < self.pattern().count() && self.pattern().positions()[i as int]) ==> (r matches Ok(
                t,
            ) && t.spec_bytes() == (if i < self.pattern().count() {
                text_span(self.text().spec_bytes(), self.pattern().spans()[i as int])
            } else {
                Seq::<u8>::empty()
            })),
    {
        if i < self.m.n_match && self.m.positions[i] {
            Err(PatternError::NoCaptureLength)
        } else {
            Ok(self.get(i))
        }
    }

    /// Number of spans of the match.
    pub fn num_matches(&self) -> (r: usize)
        ensures
            r == self.pattern().count(),
    {
        self.m.n_match
    }
}

/// Low-overhead access to the bytes of the spans of a byte match.
pub struct ByteCaptures<'a, 'b> {
    m: &'a LuaPattern<'a>,
    bytes: &'b [u8],
}

impl<'a, 'b> ByteCaptures<'a, 'b> {
    pub closed spec fn pattern(&self) -> &'a LuaPattern<'a> {
        self.m
    }

    pub closed spec fn bytes(&self) -> &'b [u8] {
        self.bytes
    }

    pub fn new(m: &'a LuaPattern<'a>, bytes: &'b [u8]) -> (r: ByteCaptures<'a, 'b>)
        ensures
            r.pattern() == m,
            r.bytes() == bytes,
    {
        ByteCaptures { m, bytes }
    }

    /// The bytes of span `i`: empty where the last match has no such span.
    pub fn get(&self, i: usize) -> (r: &'b [u8])
        requires
            self.pattern().wf(),
        ensures
            i < self.pattern().count() ==> r@ == byte_span(
                self.bytes()@,
                self.pattern().spans()[i as int],
            ),
            i >= self.pattern().count() ==> r@ == Seq::<u8>::empty(),
    {
        let sp = if i < self.m.n_match {
            self.m.span(i)
        } else {
            LuaMatch { start: 1, end: 0 }
        };
        bytes_of_span(self.bytes, sp)
    }

    /// Number of spans of the match.
    pub fn num_matches(&self) -> (r: usize)
        ensures
            r == self.pattern().count(),
    {
        self.m.n_match
    }
}

/// Iterator over the texts of successive matches in a string (see `LuaPattern::gmatch`).
pub struct GMatch<'a, 'b, 'c> {
    m: &'c mut LuaPattern<'a>,
    text: &'b str,
    pos: usize,
}

impl<'a, 'b, 'c> GMatch<'a, 'b, 'c> {
    pub closed spec fn pattern(&self) -> &LuaPattern<'a> {
        &*self.m
    }

    pub closed spec fn text(&self) -> &'b str {
        self.text
    }

    /// The offset the next search starts from.
    pub closed spec fn position(&self) -> nat {
        self.pos as nat
    }

    /// The next match: the text of its first capture, or of the whole match where it has
    /// no captures.
    pub fn next(&mut self) -> (r: Option<&'b str>)
        requires
            old(self).pattern().wf(),
        ensures
            final(self).pattern().wf(),
            final(self).text() == old(self).text(),
            final(self).pattern().pattern() == old(self).pattern().pattern(),
            after_match(
                *old(self).pattern(),
                *final(self).pattern(),
                old(self).text().spec_bytes(),
                old(self).position() as int,
            ),
            r is Some == found_in(
                old(self).text().spec_bytes(),
                old(self).pattern().pattern(),
                old(self).position() as int,
            ),
            r matches Some(t) ==> t.spec_bytes() == text_span(
                old(self).text().spec_bytes(),
                final(self).pattern().spans()[final(self).pattern().first_index()],
            ) && final(self).position() == next_position(final(self).pattern().spans()[0]),
    {
        match self.m.try_match_at(self.text.as_bytes(), self.pos) {
            Ok(true) => {
                let whole = self.m.span(0);
                let item = text_of_span(self.text, self.m.span(
                    if self.m.n_match > 1 {
                        1
                    } else {
                        0
                    },
                ));
                self.pos = if whole.end > whole.start {
                    whole.end
                } else if whole.end < usize::MAX {
                    whole.end + 1
                } else {
                    whole.end
                };
                Some(item)
            },
            _ => None,
        }
    }
}

/// The spans of one match of `gmatch_captures`, with the text they index.
pub struct CapturesUnsafe<'b> {
    matches: Vec<LuaMatch>,
    text: &'b str,
}

impl<'b> CapturesUnsafe<'b> {
    pub closed spec fn spans(&self) -> Seq<LuaMatch> {
        self.matches@
    }

    pub closed spec fn text(&self) -> &'b str {
        self.text
    }

    /// The text of span `i`: empty where there is no such span.
    pub fn get(&self, i: usize) -> (r: &'b str)
        ensures
            i < self.spans().len() ==> r.spec_bytes() == text_span(
                self.text().spec_bytes(),
                self.spans()[i as int],
            ),
            i >= self.spans().len() ==> r.spec_bytes() == Seq::<u8>::empty(),
    {
        let sp = if i < self.matches.len() {
            self.matches[i]
        } else {
            LuaMatch { start: 1, end: 0 }
        };
        text_of_span(self.text, sp)
    }
}

/// Streaming iterator over the captures of successive matches in a string.
pub struct GMatchCaptures<'a, 'b, 'c> {
    m: &'c mut LuaPattern<'a>,
    text: &'b str,
    pos: usize,
}

impl<'a, 'b, 'c> GMatchCaptures<'a, 'b, 'c> {
    pub closed spec fn pattern(&self) -> &LuaPattern<'a> {
        &*self.m
    }

    pub closed spec fn text(&self) -> &'b str {
        self.text
    }

    pub closed spec fn position(&self) -> nat {
        self.pos as nat
    }

    /// The spans of the next match.
    pub fn next(&mut self) -> (r: Option<CapturesUnsafe<'b>>)
        requires
            old(self).pattern().wf(),
        ensures
            final(self).pattern().wf(),
            final(self).text() == old(self).text(),
            final(self).pattern().pattern() == old(self).pattern().pattern(),
            after_match(
                *old(self).pattern(),
                *final(self).pattern(),
                old(self).text().spec_bytes(),
                old(self).position() as int,
            ),
            r is Some == found_in(
                old(self).text().spec_bytes(),
                old(self).pattern().pattern(),
                old(self).position() as int,
            ),
            r matches Some(c) ==> c.text() == old(self).text() && find_spans(
                old(self).text().spec_bytes(),
                old(self).pattern().pattern(),
                old(self).position() as int,
            ) == Ok::<Seq<LuaMatch>, PatternError>(c.spans()) && final(self).position()
                == next_position(c.spans()[0]),
    {
        match self.m.try_match_at(self.text.as_bytes(), self.pos) {
            Ok(true) => {
                let n = self.m.n_match;
                let mut v: Vec<LuaMatch> = Vec::new();
                let mut i: usize = 0;
                while i < n
                    invariant
                        self.m.wf(),
                        n == self.m.count(),
                        i <= n,
                        v@ == self.m.spans().subrange(0, i as int),
                    decreases n - i,
                {
                    v.push(self.m.span(i));
                    assert(self.m.spans().subrange(0, i + 1) =~= self.m.spans().subrange(
                        0,
                        i as int,
                    ).push(self.m.spans()[i as int]));
                    i = i + 1;
                }
                proof {
                    if let Ok(w) = find_spans(self.text.spec_bytes(), self.m.pattern(), self.pos as int) {
                        assert(v@ =~= w);
                    }
                }
                let whole = v[0];
                self.pos = if whole.end > whole.start {
                    whole.end
                } else if whole.end < usize::MAX {
                    whole.end + 1
                } else {
                    whole.end
                };
                Some(CapturesUnsafe { matches: v, text: self.text })
            },
            _ => None,
        }
    }
}

/// Iterator over the bytes of successive matches in a byte slice.
pub struct GMatchBytes<'a, 'b> {
    m: &'a mut LuaPattern<'a>,
    bytes: &'b [u8],
    pos: usize,
}

impl<'a, 'b> GMatchBytes<'a, 'b> {
    pub closed spec fn pattern(&self) -> &LuaPattern<'a> {
        &*self.m
    }

    pub closed spec fn bytes(&self) -> &'b [u8] {
        self.bytes
    }

    pub closed spec fn position(&self) -> nat {
        self.pos as nat
    }

    /// The next match: the bytes of its first capture, or of the whole match.
    pub fn next(&mut self) -> (r: Option<&'b [u8]>)
        requires
            old(self).pattern().wf(),
        ensures
            final(self).pattern().wf(),
            final(self).bytes() == old(self).bytes(),
            final(self).pattern().pattern() == old(self).pattern().pattern(),
            after_match(
                *old(self).pattern(),
                *final(self).pattern(),
                old(self).bytes()@,
                old(self).position() as int,
            ),
            r is Some == found_in(
                old(self).bytes()@,
                old(self).pattern().pattern(),
                old(self).position() as int,
            ),
            r matches Some(t) ==> t@ == byte_span(
                old(self).bytes()@,
                final(self).pattern().spans()[final(self).pattern().first_index()],
            ) && final(self).position() == next_position(final(self).pattern().spans()[0]),
    {
        match self.m.try_match_at(self.bytes, self.pos) {
            Ok(true) => {
                let whole = self.m.span(0);
                let item = bytes_of_span(self.bytes, self.m.span(
                    if self.m.n_match > 1 {
                        1
                    } else {
                        0
                    },
                ));
                self.pos = if whole.end > whole.start {
                    whole.end
                } else if whole.end < usize::MAX {
                    whole.end + 1
                } else {
                    whole.end
                };
                Some(item)
            },
            _ => None,
        }
    }
}

} // verus!
