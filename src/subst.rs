//! Global substitution, with replacement templates holding capture references
//! (`%0` to `%9`) and `%%` for a literal `%`.
use vstd::prelude::*;
use vstd::slice::{slice_subrange, slice_to_vec};
use vstd::string::StringSliceAdditionalSpecFns;
use vstd::utf8::{decode_utf8, encode_utf8, valid_utf8};

use crate::matcher::{find_spans, LuaMatch};
use crate::pattern::{byte_span, bytes_of_span, ByteCaptures, Captures, LuaPattern, MAX_SPANS};

verus! {

/// One piece of a replacement template.
#[derive(Debug)]
pub enum Subst {
    /// Bytes copied as they are.
    Text(Vec<u8>),
    /// The bytes of span `n` of the match (0: the whole match).
    Capture(usize),
}

/// A template piece as a value.
pub enum Piece {
    Lit(Seq<u8>),
    Cap(int),
}

impl Subst {
    pub open spec fn piece(&self) -> Piece {
        match self {
            Subst::Text(v) => Piece::Lit(v@),
            Subst::Capture(n) => Piece::Cap(*n as int),
        }
    }

    pub fn new_text(text: &str) -> (r: Subst)
        ensures
            r.piece() == Piece::Lit(text.spec_bytes()),
    {
        Subst::Text(slice_to_vec(text.as_bytes()))
    }
}

pub open spec fn pieces_of(v: Seq<Subst>) -> Seq<Piece> {
    v.map_values(|x: Subst| x.piece())
}

/// Whether `c` may follow `%` in a template as a reference: `%` or a digit.
pub open spec fn is_ref_char(c: u8) -> bool {
    c == 37 || (48 <= c <= 57)
}

/// The pieces of the template `r` from `i` on, where the literal run in progress started
/// at `run`: each `%%` and `%d` is a piece of its own, the bytes between them are one
/// literal piece (left out where empty), and the last literal piece is always there.
pub open spec fn pieces_from(r: Seq<u8>, i: int, run: int) -> Seq<Piece>
    decreases r.len() - i,
{
    if i < 0 || i >= r.len() {
        seq![Piece::Lit(r.subrange(run, r.len() as int))]
    } else if r[i] == 37 && i + 1 < r.len() && is_ref_char(r[i + 1]) {
        let before = if i > run {
            seq![Piece::Lit(r.subrange(run, i))]
        } else {
            Seq::empty()
        };
        let this = if r[i + 1] == 37 {
            Piece::Lit(seq![37u8])
        } else {
            Piece::Cap(r[i + 1] - 48)
        };
        before.push(this) + pieces_from(r, i + 2, i + 2)
    } else {
        pieces_from(r, i + 1, run)
    }
}

pub open spec fn template_pieces(r: Seq<u8>) -> Seq<Piece> {
    pieces_from(r, 0, 0)
}

/// Splits a replacement template into its pieces.
pub fn generate_gsub_patterns(repl: &str) -> (r: Vec<Subst>)
    ensures
        pieces_of(r@) == template_pieces(repl.spec_bytes()),
{
    let b = repl.as_bytes();
    let len = b.len();
    let mut items: Vec<Subst> = Vec::new();
    let mut i: usize = 0;
    let mut run: usize = 0;
    while i < len
        invariant
            run <= i <= len,
            len == b@.len(),
            b@ == repl.spec_bytes(),
            pieces_of(items@) + pieces_from(b@, i as int, run as int) == template_pieces(b@),
        decreases len - i,
    {
        if b[i] == 37 && len - i > 1 && (b[i + 1] == 37 || (48 <= b[i + 1] && b[i + 1] <= 57)) {
            let ghost before_items = items@;
            let ghost before = if i > run {
                seq![Piece::Lit(b@.subrange(run as int, i as int))]
            } else {
                Seq::<Piece>::empty()
            };
            if i > run {
                items.push(Subst::Text(slice_to_vec(slice_subrange(b, run, i))));
            }
            assert(pieces_of(items@) =~= pieces_of(before_items) + before);
            let this = if b[i + 1] == 37 {
                let mut t: Vec<u8> = Vec::new();
                t.push(37u8);
                assert(t@ =~= seq![37u8]);
                Subst::Text(t)
            } else {
                Subst::Capture((b[i + 1] - 48) as usize)
            };
            items.push(this);
            proof {
                assert(this.piece() == (if b@[i + 1] == 37 {
                    Piece::Lit(seq![37u8])
                } else {
                    Piece::Cap(b@[i + 1] - 48)
                }));
                assert(pieces_of(items@) =~= pieces_of(before_items) + before.push(this.piece()));
                assert(pieces_of(items@) + pieces_from(b@, i + 2, i + 2) =~= pieces_of(before_items)
                    + (before.push(this.piece()) + pieces_from(b@, i + 2, i + 2)));
            }
            i = i + 2;
            run = i;
        } else {
            i = i + 1;
        }
    }
    let ghost before_items = items@;
    items.push(Subst::Text(slice_to_vec(slice_subrange(b, run, len))));
    assert(pieces_of(items@) =~= pieces_of(before_items) + pieces_from(b@, i as int, run as int));
    items
}

/// The bytes that one piece stands for, given a subject and the `n` spans of a match.
pub open spec fn piece_bytes(pc: Piece, s: Seq<u8>, spans: Seq<LuaMatch>, n: int) -> Seq<u8> {
    match pc {
        Piece::Lit(b) => b,
        Piece::Cap(i) => if 0 <= i < n {
            byte_span(s, spans[i])
        } else {
            Seq::empty()
        },
    }
}

/// The template expanded against a match: its pieces' bytes, one after another.
pub open spec fn expand(ps: Seq<Piece>, s: Seq<u8>, spans: Seq<LuaMatch>, n: int) -> Seq<u8>
    decreases ps.len(),
{
    if ps.len() == 0 {
        Seq::empty()
    } else {
        expand(ps.drop_last(), s, spans, n) + piece_bytes(ps.last(), s, spans, n)
    }
}

proof fn lemma_expand_same_spans(
    ps: Seq<Piece>,
    s: Seq<u8>,
    a: Seq<LuaMatch>,
    b: Seq<LuaMatch>,
    n: int,
)
    requires
        n <= a.len(),
        n <= b.len(),
        forall|i: int| 0 <= i < n ==> a[i] == b[i],
    ensures
        expand(ps, s, a, n) == expand(ps, s, b, n),
    decreases ps.len(),
{
    if ps.len() > 0 {
        lemma_expand_same_spans(ps.drop_last(), s, a, b, n);
    }
}

fn append_bytes(out: &mut Vec<u8>, b: &[u8])
    ensures
        final(out)@ == old(out)@ + b@,
{
    let mut i: usize = 0;
    while i < b.len()
        invariant
            i <= b@.len(),
            out@ == old(out)@ + b@.subrange(0, i as int),
        decreases b@.len() - i,
    {
        out.push(b[i]);
        assert(b@.subrange(0, i + 1) =~= b@.subrange(0, i as int).push(b@[i as int]));
        i = i + 1;
    }
    assert(b@.subrange(0, b@.len() as int) =~= b@);
}

/// Appends the template expanded against the last match of `m` on the subject `s`.
fn expand_into(out: &mut Vec<u8>, items: &Vec<Subst>, m: &LuaPattern, s: &[u8])
    requires
        m.wf(),
    ensures
        final(out)@ == old(out)@ + expand(pieces_of(items@), s@, m.spans(), m.count() as int),
{
    let n = m.num_matches();
    let mut j: usize = 0;
    while j < items.len()
        invariant
            j <= items@.len(),
            m.wf(),
            n == m.count(),
            out@ == old(out)@ + expand(
                pieces_of(items@.subrange(0, j as int)),
                s@,
                m.spans(),
                n as int,
            ),
        decreases items@.len() - j,
    {
        let ghost before = out@;
        proof {
            m.lemma_wf();
        }
        match &items[j] {
            Subst::Text(v) => {
                append_bytes(out, v.as_slice());
                assert(out@ =~= before + piece_bytes(items@[j as int].piece(), s@, m.spans(), n as int));
            },
            Subst::Capture(i) => {
                if *i < n && *i < MAX_SPANS {
                    append_bytes(out, bytes_of_span(s, m.span(*i)));
                }
                assert(out@ =~= before + piece_bytes(items@[j as int].piece(), s@, m.spans(), n as int));
            },
        }
        proof {
            let ps = pieces_of(items@.subrange(0, j + 1));
            assert(ps.drop_last() =~= pieces_of(items@.subrange(0, j as int)));
            assert(ps.last() == items@[j as int].piece());
            assert(out@ =~= before + piece_bytes(ps.last(), s@, m.spans(), n as int));
        }
        j = j + 1;
    }
    assert(items@.subrange(0, items@.len() as int) =~= items@);
}

/// Global substitution on bytes, from offset `pos` on: each match found in turn is
/// replaced by the template's expansion, and the search goes on at its end, or one byte
/// further where the match was empty (that byte is kept). Where no match is found, or the
/// matcher fails, the rest of the subject is kept as it is.
pub open spec fn gsub_from(s: Seq<u8>, p: Seq<u8>, ps: Seq<Piece>, pos: int) -> Seq<u8>
    decreases s.len() + 1 - pos,
{
    if pos < 0 || pos > s.len() {
        Seq::empty()
    } else {
        match find_spans(s, p, pos) {
            Ok(v) => if v.len() == 0 || !(pos <= v[0].start <= v[0].end <= s.len()) {
                s.subrange(pos, s.len() as int)
            } else {
                let w = v[0];
                let head = s.subrange(pos, w.start as int) + expand(ps, s, v, v.len() as int);
                if w.end > w.start {
                    head + gsub_from(s, p, ps, w.end as int)
                } else if w.start < s.len() {
                    head.push(s[w.start as int]) + gsub_from(s, p, ps, w.start + 1)
                } else {
                    head
                }
            },
            Err(_) => s.subrange(pos, s.len() as int),
        }
    }
}

/// Relies on `String::from_utf8_lossy`: well-formed UTF-8 comes back as the text it encodes.
#[verifier::external_body]
pub(crate) fn string_of(b: Vec<u8>) -> (r: String)
    ensures
        valid_utf8(b@) ==> r@ == decode_utf8(b@),
{
    String::from_utf8_lossy(&b).into_owned()
}

impl<'a> LuaPattern<'a> {
    /// Global substitution on bytes with the template pieces `items` (see `gsub_from`).
    pub fn gsub_bytes_items(&mut self, s: &[u8], items: &Vec<Subst>) -> (r: Vec<u8>)
        requires
            old(self).wf(),
        ensures
            final(self).wf(),
            final(self).pattern() == old(self).pattern(),
            r@ == gsub_from(s@, old(self).pattern(), pieces_of(items@), 0),
    {
        let ghost p = self.pattern();
        let ghost ps = pieces_of(items@);
        let len = s.len();
        let mut out: Vec<u8> = Vec::new();
        let mut pos: usize = 0;
        loop
            invariant
                self.wf(),
                self.pattern() == p,
                p == old(self).pattern(),
                ps == pieces_of(items@),
                len == s@.len(),
                pos <= len,
                out@ + gsub_from(s@, p, ps, pos as int) == gsub_from(s@, p, ps, 0),
            decreases len - pos,
        {
            let ghost here = gsub_from(s@, p, ps, pos as int);
            let ghost before = out@;
            match self.try_match_at(s, pos) {
                Ok(true) => {
                    let w = self.span(0);
                    assert(find_spans(s@, p, pos as int) is Ok);
                    let ghost v = find_spans(s@, p, pos as int)->Ok_0;
                    assert(self.count() == v.len());
                    proof {
                        self.lemma_wf();
                    }
                    append_bytes(&mut out, slice_subrange(s, pos, w.start));
                    expand_into(&mut out, items, self, s);
                    proof {
                        lemma_expand_same_spans(ps, s@, self.spans(), v, v.len() as int);
                    }
                    if w.end > w.start {
                        assert(out@ + gsub_from(s@, p, ps, w.end as int) =~= before + here);
                        pos = w.end;
                    } else if w.start < len {
                        out.push(s[w.start]);
                        assert(out@ + gsub_from(s@, p, ps, w.start + 1) =~= before + here);
                        pos = w.start + 1;
                    } else {
                        assert(out@ =~= before + here);
                        return out;
                    }
                },
                _ => {
                    append_bytes(&mut out, slice_subrange(s, pos, len));
                    assert(out@ =~= before + here);
                    return out;
                },
            }
        }
    }

    /// Globally substitute all matches with a replacement template, which may refer to
    /// the match's spans as `%0` to `%9`; `%%` stands for `%`.
    pub fn gsub(&mut self, text: &str, repl: &str) -> (r: String)
        requires
            old(self).wf(),
        ensures
            final(self).wf(),
            final(self).pattern() == old(self).pattern(),
            valid_utf8(
                gsub_from(
                    text.spec_bytes(),
                    old(self).pattern(),
                    template_pieces(repl.spec_bytes()),
                    0,
                ),
            ) ==> r@ == decode_utf8(
                gsub_from(
                    text.spec_bytes(),
                    old(self).pattern(),
                    template_pieces(repl.spec_bytes()),
                    0,
                ),
            ),
    {
        let items = generate_gsub_patterns(repl);
        let out = self.gsub_bytes_items(text.as_bytes(), &items);
        string_of(out)
    }
}

/// A replacement template, split once and applied to many matches.
pub struct Substitute {
    repl: Vec<Subst>,
}

impl Substitute {
    pub closed spec fn pieces(&self) -> Seq<Piece> {
        pieces_of(self.repl@)
    }

    pub fn new(repl: &str) -> (r: Substitute)
        ensures
            r.pieces() == template_pieces(repl.spec_bytes()),
    {
        Substitute { repl: generate_gsub_patterns(repl) }
    }

    /// The template expanded against the last match of `patt`, made on `text`.
    pub fn subst(&self, patt: &LuaPattern, text: &str) -> (r: String)
        requires
            patt.wf(),
        ensures
            valid_utf8(expand(self.pieces(), text.spec_bytes(), patt.spans(), patt.count() as int))
                ==> r@ == decode_utf8(
                expand(self.pieces(), text.spec_bytes(), patt.spans(), patt.count() as int),
            ),
    {
        let mut out: Vec<u8> = Vec::new();
        expand_into(&mut out, &self.repl, patt, text.as_bytes());
        assert(out@ =~= expand(self.pieces(), text.spec_bytes(), patt.spans(), patt.count() as int));
        string_of(out)
    }
}

} // verus!

verus! {

/// Global substitution from offset `pos` on, as in `gsub_from`, where the matches found
/// in turn are replaced by `reps[0]`, `reps[1]`, ... (by nothing once `reps` runs out).
pub open spec fn gsub_reps(s: Seq<u8>, p: Seq<u8>, reps: Seq<Seq<u8>>, pos: int) -> Seq<u8>
    decreases s.len() + 1 - pos,
{
    if pos < 0 || pos > s.len() {
        Seq::empty()
    } else {
        match find_spans(s, p, pos) {
            Ok(v) => if v.len() == 0 || !(pos <= v[0].start <= v[0].end <= s.len()) {
                s.subrange(pos, s.len() as int)
            } else {
                let w = v[0];
                let rep = if reps.len() > 0 {
                    reps[0]
                } else {
                    Seq::empty()
                };
                let head = s.subrange(pos, w.start as int) + rep;
                if w.end > w.start {
                    head + gsub_reps(s, p, reps.drop_first(), w.end as int)
                } else if w.start < s.len() {
                    head.push(s[w.start as int]) + gsub_reps(s, p, reps.drop_first(), w.start + 1)
                } else {
                    head
                }
            },
            Err(_) => s.subrange(pos, s.len() as int),
        }
    }
}

/// What the substitution loop has written (`out`) and where it stands (`pos`), after
/// using the replacements `reps`, agrees with `gsub_reps` for whatever replacements follow.
pub open spec fn gsub_progress(
    s: Seq<u8>,
    p: Seq<u8>,
    reps: Seq<Seq<u8>>,
    out: Seq<u8>,
    pos: int,
) -> bool {
    forall|tail: Seq<Seq<u8>>|
        #![trigger gsub_reps(s, p, tail, pos)]
        out + gsub_reps(s, p, tail, pos) == gsub_reps(s, p, reps + tail, 0)
}

proof fn lemma_progress_start(s: Seq<u8>, p: Seq<u8>)
    ensures
        gsub_progress(s, p, Seq::empty(), Seq::empty(), 0),
{
    assert forall|tail: Seq<Seq<u8>>| #![trigger gsub_reps(s, p, tail, 0)]
        Seq::<u8>::empty() + gsub_reps(s, p, tail, 0) == gsub_reps(
            s,
            p,
            Seq::<Seq<u8>>::empty() + tail,
            0,
        ) by {
        assert(Seq::<Seq<u8>>::empty() + tail =~= tail);
        assert(Seq::<u8>::empty() + gsub_reps(s, p, tail, 0) =~= gsub_reps(s, p, tail, 0));
    }
}

/// One match at `pos`, spanning `w` and replaced by `rep`: the loop may go on at `next`.
proof fn lemma_progress_step(
    s: Seq<u8>,
    p: Seq<u8>,
    reps: Seq<Seq<u8>>,
    out: Seq<u8>,
    pos: int,
    rep: Seq<u8>,
    out2: Seq<u8>,
    next: int,
)
    requires
        gsub_progress(s, p, reps, out, pos),
        0 <= pos <= s.len(),
        find_spans(s, p, pos) is Ok,
        find_spans(s, p, pos)->Ok_0.len() > 0,
        pos <= find_spans(s, p, pos)->Ok_0[0].start <= find_spans(s, p, pos)->Ok_0[0].end <= s.len(),
        ({
            let w = find_spans(s, p, pos)->Ok_0[0];
            if w.end > w.start {
                next == w.end && out2 == out + s.subrange(pos, w.start as int) + rep
            } else {
                w.start < s.len() && next == w.start + 1 && out2 == (out + s.subrange(
                    pos,
                    w.start as int,
                ) + rep).push(s[w.start as int])
            }
        }),
    ensures
        gsub_progress(s, p, reps.push(rep), out2, next),
{
    assert forall|tail: Seq<Seq<u8>>| #![trigger gsub_reps(s, p, tail, next)]
        out2 + gsub_reps(s, p, tail, next) == gsub_reps(s, p, reps.push(rep) + tail, 0) by {
        let t2 = seq![rep] + tail;
        assert(t2.drop_first() =~= tail);
        assert(reps.push(rep) + tail =~= reps + t2);
        assert(out + gsub_reps(s, p, t2, pos) == gsub_reps(s, p, reps + t2, 0));
        assert(out2 + gsub_reps(s, p, tail, next) =~= out + gsub_reps(s, p, t2, pos));
    }
}

/// The loop ends at `pos`, keeping the rest of the subject, or (`rep`) after a last empty
/// match at the very end.
proof fn lemma_progress_end(
    s: Seq<u8>,
    p: Seq<u8>,
    reps: Seq<Seq<u8>>,
    out: Seq<u8>,
    pos: int,
    out2: Seq<u8>,
)
    requires
        gsub_progress(s, p, reps, out, pos),
        0 <= pos <= s.len(),
        out2 == out + gsub_reps(s, p, Seq::empty(), pos),
    ensures
        out2 == gsub_reps(s, p, reps, 0),
{
    assert(reps + Seq::<Seq<u8>>::empty() =~= reps);
}

/// The replacements `reps` are, one for one, those that `fits` accepts for the successive
/// matches of the substitution from `pos` on (the iteration of `gsub_reps`): one per
/// match, no more.
pub open spec fn reps_fit(
    s: Seq<u8>,
    p: Seq<u8>,
    reps: Seq<Seq<u8>>,
    pos: int,
    fits: spec_fn(Seq<LuaMatch>, Seq<u8>) -> bool,
) -> bool
    decreases s.len() + 1 - pos,
{
    if pos < 0 || pos > s.len() {
        reps.len() == 0
    } else {
        match find_spans(s, p, pos) {
            Ok(v) => if v.len() == 0 || !(pos <= v[0].start <= v[0].end <= s.len()) {
                reps.len() == 0
            } else {
                let w = v[0];
                reps.len() > 0 && fits(v, reps[0]) && if w.end > w.start {
                    reps_fit(s, p, reps.drop_first(), w.end as int, fits)
                } else if w.start < s.len() {
                    reps_fit(s, p, reps.drop_first(), w.start + 1, fits)
                } else {
                    reps.len() == 1
                }
            },
            Err(_) => reps.len() == 0,
        }
    }
}

/// After using `reps`, any replacements that fit from `pos` on complete them to a fit
/// from the start.
pub open spec fn fit_progress(
    s: Seq<u8>,
    p: Seq<u8>,
    reps: Seq<Seq<u8>>,
    pos: int,
    fits: spec_fn(Seq<LuaMatch>, Seq<u8>) -> bool,
) -> bool {
    forall|tail: Seq<Seq<u8>>|
        #![trigger reps_fit(s, p, tail, pos, fits)]
        reps_fit(s, p, tail, pos, fits) ==> reps_fit(s, p, reps + tail, 0, fits)
}

proof fn lemma_fit_start(s: Seq<u8>, p: Seq<u8>, fits: spec_fn(Seq<LuaMatch>, Seq<u8>) -> bool)
    ensures
        fit_progress(s, p, Seq::empty(), 0, fits),
{
    assert forall|tail: Seq<Seq<u8>>| #![trigger reps_fit(s, p, tail, 0, fits)]
        reps_fit(s, p, tail, 0, fits) implies reps_fit(
            s,
            p,
            Seq::<Seq<u8>>::empty() + tail,
            0,
            fits,
        ) by {
        assert(Seq::<Seq<u8>>::empty() + tail =~= tail);
    }
}

proof fn lemma_fit_step(
    s: Seq<u8>,
    p: Seq<u8>,
    reps: Seq<Seq<u8>>,
    pos: int,
    rep: Seq<u8>,
    next: int,
    fits: spec_fn(Seq<LuaMatch>, Seq<u8>) -> bool,
)
    requires
        fit_progress(s, p, reps, pos, fits),
        0 <= pos <= s.len(),
        find_spans(s, p, pos) is Ok,
        find_spans(s, p, pos)->Ok_0.len() > 0,
        pos <= find_spans(s, p, pos)->Ok_0[0].start <= find_spans(s, p, pos)->Ok_0[0].end <= s.len(),
        fits(find_spans(s, p, pos)->Ok_0, rep),
        ({
            let w = find_spans(s, p, pos)->Ok_0[0];
            if w.end > w.start {
                next == w.end
            } else {
                w.start < s.len() && next == w.start + 1
            }
        }),
    ensures
        fit_progress(s, p, reps.push(rep), next, fits),
{
    assert forall|tail: Seq<Seq<u8>>| #![trigger reps_fit(s, p, tail, next, fits)]
        reps_fit(s, p, tail, next, fits) implies reps_fit(s, p, reps.push(rep) + tail, 0, fits) by {
        let t2 = seq![rep] + tail;
        assert(t2.drop_first() =~= tail);
        assert(t2[0] == rep);
        assert(reps_fit(s, p, t2, pos, fits));
        assert(reps.push(rep) + tail =~= reps + t2);
    }
}

/// The substitution stops at `pos` with the replacements `last` (none, or the one of a last
/// empty match at the very end).
proof fn lemma_fit_end(
    s: Seq<u8>,
    p: Seq<u8>,
    reps: Seq<Seq<u8>>,
    pos: int,
    last: Seq<Seq<u8>>,
    fits: spec_fn(Seq<LuaMatch>, Seq<u8>) -> bool,
)
    requires
        fit_progress(s, p, reps, pos, fits),
        reps_fit(s, p, last, pos, fits),
    ensures
        reps_fit(s, p, reps + last, 0, fits),
{
}

/// `lookup` turns some byte captures of `s` whose current spans are `v` into `rep`.
pub open spec fn byte_lookup_gives<F: Fn(ByteCaptures) -> Vec<u8>>(
    lookup: F,
    s: Seq<u8>,
    v: Seq<LuaMatch>,
    rep: Seq<u8>,
) -> bool {
    exists|c: ByteCaptures, o: Vec<u8>|
        #![trigger lookup.ensures((c,), o)]
        c.bytes()@ == s && c.pattern().count() == v.len() && (forall|i: int|
            0 <= i < v.len() ==> c.pattern().spans()[i] == v[i]) && lookup.ensures((c,), o) && o@
            == rep
}

pub open spec fn byte_fits<F: Fn(ByteCaptures) -> Vec<u8>>(lookup: F, s: Seq<u8>) -> spec_fn(
    Seq<LuaMatch>,
    Seq<u8>,
) -> bool {
    |v: Seq<LuaMatch>, rep: Seq<u8>| byte_lookup_gives(lookup, s, v, rep)
}

/// `lookup` turns some captures of a text with the bytes `s`, whose current spans are `v`,
/// into a string with the bytes `rep`.
pub open spec fn text_lookup_gives<F: Fn(Captures) -> String>(
    lookup: F,
    s: Seq<u8>,
    v: Seq<LuaMatch>,
    rep: Seq<u8>,
) -> bool {
    exists|c: Captures, o: String|
        #![trigger lookup.ensures((c,), o)]
        c.text().spec_bytes() == s && c.pattern().count() == v.len() && (forall|i: int|
            0 <= i < v.len() ==> c.pattern().spans()[i] == v[i]) && lookup.ensures((c,), o)
            && encode_utf8(o@) == rep
}

pub open spec fn text_fits<F: Fn(Captures) -> String>(lookup: F, s: Seq<u8>) -> spec_fn(
    Seq<LuaMatch>,
    Seq<u8>,
) -> bool {
    |v: Seq<LuaMatch>, rep: Seq<u8>| text_lookup_gives(lookup, s, v, rep)
}

impl<'a> LuaPattern<'a> {
    /// Global substitution on bytes, each match replaced by what `lookup` returns for its
    /// captures; the search goes on as in `gsub_from`.
    pub fn gsub_bytes_with<F>(&mut self, bytes: &[u8], lookup: F) -> (r: Vec<u8>) where
        F: Fn(ByteCaptures) -> Vec<u8>,

        requires
            old(self).wf(),
            forall|c: ByteCaptures| #[trigger] lookup.requires((c,)),
        ensures
            final(self).wf(),
            final(self).pattern() == old(self).pattern(),
            exists|reps: Seq<Seq<u8>>|
                reps_fit(bytes@, old(self).pattern(), reps, 0, byte_fits(lookup, bytes@)) && r@
                    == gsub_reps(bytes@, old(self).pattern(), reps, 0),
    {
        let len = bytes.len();
        let mut out: Vec<u8> = Vec::new();
        let mut pos: usize = 0;
        let ghost p = self.pattern();
        let ghost fits = byte_fits(lookup, bytes@);
        let ghost mut reps: Seq<Seq<u8>> = Seq::empty();
        proof {
            lemma_progress_start(bytes@, p);
            lemma_fit_start(bytes@, p, fits);
        }
        loop
            invariant
                self.wf(),
                self.pattern() == p,
                p == old(self).pattern(),
                fits == byte_fits(lookup, bytes@),
                len == bytes@.len(),
                pos <= len,
                forall|c: ByteCaptures| #[trigger] lookup.requires((c,)),
                gsub_progress(bytes@, p, reps, out@, pos as int),
                fit_progress(bytes@, p, reps, pos as int, fits),
            decreases len - pos,
        {
            let ghost before = out@;
            match self.try_match_at(bytes, pos) {
                Ok(true) => {
                    let w = self.span(0);
                    let ghost v = find_spans(bytes@, p, pos as int)->Ok_0;
                    append_bytes(&mut out, slice_subrange(bytes, pos, w.start));
                    let c = ByteCaptures::new(self, bytes);
                    let ghost gc = c;
                    let repl = lookup(c);
                    proof {
                        assert(byte_lookup_gives(lookup, bytes@, v, repl@));
                        assert(fits(v, repl@));
                    }
                    append_bytes(&mut out, repl.as_slice());
                    if w.end > w.start {
                        proof {
                            lemma_progress_step(bytes@, p, reps, before, pos as int, repl@, out@, w.end as int);
                            lemma_fit_step(bytes@, p, reps, pos as int, repl@, w.end as int, fits);
                            reps = reps.push(repl@);
                        }
                        pos = w.end;
                    } else if w.start < len {
                        out.push(bytes[w.start]);
                        proof {
                            lemma_progress_step(bytes@, p, reps, before, pos as int, repl@, out@, w.start + 1);
                            lemma_fit_step(bytes@, p, reps, pos as int, repl@, w.start + 1, fits);
                            reps = reps.push(repl@);
                        }
                        pos = w.start + 1;
                    } else {
                        proof {
                            let t = seq![repl@];
                            assert(before + gsub_reps(bytes@, p, t, pos as int) == gsub_reps(bytes@, p, reps + t, 0));
                            assert(out@ =~= before + gsub_reps(bytes@, p, t, pos as int));
                            assert(t.drop_first() =~= Seq::<Seq<u8>>::empty());
                            assert(reps_fit(bytes@, p, t, pos as int, fits));
                            lemma_fit_end(bytes@, p, reps, pos as int, t, fits);
                        }
                        return out;
                    }
                },
                _ => {
                    append_bytes(&mut out, slice_subrange(bytes, pos, len));
                    proof {
                        assert(out@ =~= before + gsub_reps(bytes@, p, Seq::empty(), pos as int));
                        lemma_progress_end(bytes@, p, reps, before, pos as int, out@);
                        assert(reps_fit(bytes@, p, Seq::empty(), pos as int, fits));
                        lemma_fit_end(bytes@, p, reps, pos as int, Seq::empty(), fits);
                        assert(reps + Seq::<Seq<u8>>::empty() =~= reps);
                    }
                    return out;
                },
            }
        }
    }

    /// Global substitution on a string, each match replaced by what `lookup` returns for its
    /// captures; the search goes on as in `gsub_from`.
    pub fn gsub_with<F>(&mut self, text: &str, lookup: F) -> (r: String) where
        F: Fn(Captures) -> String,

        requires
            old(self).wf(),
            forall|c: Captures| #[trigger] lookup.requires((c,)),
        ensures
            final(self).wf(),
            final(self).pattern() == old(self).pattern(),
            exists|reps: Seq<Seq<u8>>|
                reps_fit(
                    text.spec_bytes(),
                    old(self).pattern(),
                    reps,
                    0,
                    text_fits(lookup, text.spec_bytes()),
                ) && (valid_utf8(gsub_reps(text.spec_bytes(), old(self).pattern(), reps, 0)) ==> r@
                    == decode_utf8(gsub_reps(text.spec_bytes(), old(self).pattern(), reps, 0))),
    {
        let bytes = text.as_bytes();
        let len = bytes.len();
        let mut out: Vec<u8> = Vec::new();
        let mut pos: usize = 0;
        let ghost p = self.pattern();
        let ghost fits = text_fits(lookup, bytes@);
        let ghost mut reps: Seq<Seq<u8>> = Seq::empty();
        proof {
            lemma_progress_start(bytes@, p);
            lemma_fit_start(bytes@, p, fits);
        }
        loop
            invariant
                self.wf(),
                self.pattern() == p,
                p == old(self).pattern(),
                bytes@ == text.spec_bytes(),
                fits == text_fits(lookup, bytes@),
                len == bytes@.len(),
                pos <= len,
                forall|c: Captures| #[trigger] lookup.requires((c,)),
                gsub_progress(bytes@, p, reps, out@, pos as int),
                fit_progress(bytes@, p, reps, pos as int, fits),
            decreases len - pos,
        {
            let ghost before = out@;
            match self.try_match_at(bytes, pos) {
                Ok(true) => {
                    let w = self.span(0);
                    let ghost v = find_spans(bytes@, p, pos as int)->Ok_0;
                    append_bytes(&mut out, slice_subrange(bytes, pos, w.start));
                    let c = self.match_captures(text);
                    let ghost gc = c;
                    let repl = lookup(c);
                    let rb = repl.as_str().as_bytes();
                    proof {
                        assert(text_lookup_gives(lookup, bytes@, v, rb@));
                        assert(fits(v, rb@));
                    }
                    append_bytes(&mut out, rb);
                    if w.end > w.start {
                        proof {
                            lemma_progress_step(bytes@, p, reps, before, pos as int, rb@, out@, w.end as int);
                            lemma_fit_step(bytes@, p, reps, pos as int, rb@, w.end as int, fits);
                            reps = reps.push(rb@);
                        }
                        pos = w.end;
                    } else if w.start < len {
                        out.push(bytes[w.start]);
                        proof {
                            lemma_progress_step(bytes@, p, reps, before, pos as int, rb@, out@, w.start + 1);
                            lemma_fit_step(bytes@, p, reps, pos as int, rb@, w.start + 1, fits);
                            reps = reps.push(rb@);
                        }
                        pos = w.start + 1;
                    } else {
                        proof {
                            let t = seq![rb@];
                            assert(before + gsub_reps(bytes@, p, t, pos as int) == gsub_reps(bytes@, p, reps + t, 0));
                            assert(out@ =~= before + gsub_reps(bytes@, p, t, pos as int));
                            assert(t.drop_first() =~= Seq::<Seq<u8>>::empty());
                            assert(reps_fit(bytes@, p, t, pos as int, fits));
                            lemma_fit_end(bytes@, p, reps, pos as int, t, fits);
                        }
                        return string_of(out);
                    }
                },
                _ => {
                    append_bytes(&mut out, slice_subrange(bytes, pos, len));
                    proof {
                        assert(out@ =~= before + gsub_reps(bytes@, p, Seq::empty(), pos as int));
                        lemma_progress_end(bytes@, p, reps, before, pos as int, out@);
                        assert(reps_fit(bytes@, p, Seq::empty(), pos as int, fits));
                        lemma_fit_end(bytes@, p, reps, pos as int, Seq::empty(), fits);
                        assert(reps + Seq::<Seq<u8>>::empty() =~= reps);
                    }
                    return string_of(out);
                },
            }
        }
    }
}

} // verus!
