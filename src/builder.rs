//! Building pattern bytes at run time, from raw text and from escaped bytes.
use vstd::prelude::*;
use vstd::string::StringSliceAdditionalSpecFns;
use vstd::utf8::{decode_utf8, valid_utf8};

use crate::classes::{class_end, is_space, is_xdigit, single_has};
use crate::errors::PatternError;
use crate::matcher::{
    find_spans, has_open, item_kind, match_from, pattern_start, span_of, Capture, ItemKind,
    LuaMatch, Outcome, MAX_DEPTH,
};
use crate::subst::string_of;

verus! {

/// The bytes with a meaning of their own in a pattern: `^ $ ( ) % . [ ] * + - ?`.
pub open spec fn is_magic(c: u8) -> bool {
    c == 94 || c == 36 || c == 40 || c == 41 || c == 37 || c == 46 || c == 91 || c == 93 || c
        == 42 || c == 43 || c == 45 || c == 63
}

/// The bytes with each magic byte preceded by `%`, so that they stand for themselves.
pub open spec fn escaped(b: Seq<u8>) -> Seq<u8>
    decreases b.len(),
{
    if b.len() == 0 {
        Seq::empty()
    } else {
        let last = b.last();
        escaped(b.drop_last()) + if is_magic(last) {
            seq![37u8, last]
        } else {
            seq![last]
        }
    }
}

/// The value of a hexadecimal digit.
pub open spec fn hex_value(c: u8) -> u8 {
    if 48 <= c <= 57 {
        (c - 48) as u8
    } else if 97 <= c <= 102 {
        (c - 87) as u8
    } else {
        (c - 55) as u8
    }
}

/// The bytes written by the successive pairs of adjacent hexadecimal digits of `s` from
/// `i` on; other bytes are passed over.
pub open spec fn hex_pairs(s: Seq<u8>, i: int) -> Seq<u8>
    decreases s.len() - i,
{
    if i < 0 || i + 1 >= s.len() {
        Seq::empty()
    } else if is_xdigit(s[i]) && is_xdigit(s[i + 1]) {
        seq![(hex_value(s[i]) * 16 + hex_value(s[i + 1])) as u8] + hex_pairs(s, i + 2)
    } else {
        hex_pairs(s, i + 1)
    }
}

/// The upper-case hexadecimal digit of a value below 16.
pub open spec fn hex_digit(v: u8) -> u8 {
    if v < 10 {
        (48 + v) as u8
    } else {
        (55 + v) as u8
    }
}

/// Two upper-case hexadecimal digits for each byte.
pub open spec fn hex_text(b: Seq<u8>) -> Seq<u8>
    decreases b.len(),
{
    if b.len() == 0 {
        Seq::empty()
    } else {
        hex_text(b.drop_last()) + seq![hex_digit(b.last() / 16), hex_digit(b.last() % 16)]
    }
}

/// The length of the UTF-8 encoding of a white-space character (Unicode's White_Space
/// property) that starts at `i`, or 0 where none does.
pub open spec fn space_len(s: Seq<u8>, i: int) -> int {
    if is_space(s[i]) {
        1
    } else if i + 1 < s.len() && s[i] == 0xC2 && (s[i + 1] == 0x85 || s[i + 1] == 0xA0) {
        2
    } else if i + 2 < s.len() && ((s[i] == 0xE1 && s[i + 1] == 0x9A && s[i + 2] == 0x80) || (
    s[i] == 0xE2 && s[i + 1] == 0x80 && ((0x80 <= s[i + 2] && s[i + 2] <= 0x8A) || s[i + 2]
        == 0xA8 || s[i + 2] == 0xA9 || s[i + 2] == 0xAF)) || (s[i] == 0xE2 && s[i + 1] == 0x81
        && s[i + 2] == 0x9F) || (s[i] == 0xE3 && s[i + 1] == 0x80 && s[i + 2] == 0x80)) {
        3
    } else {
        0
    }
}

/// The first run of non-space characters of each line, one after another.
pub open spec fn first_words(s: Seq<u8>, i: int, in_word: bool, done: bool) -> Seq<u8>
    decreases s.len() - i,
{
    if i < 0 || i >= s.len() {
        Seq::empty()
    } else if s[i] == 10 {
        first_words(s, i + 1, false, false)
    } else if space_len(s, i) > 0 {
        first_words(s, i + space_len(s, i), false, done || in_word)
    } else if done {
        first_words(s, i + 1, false, true)
    } else {
        seq![s[i]] + first_words(s, i + 1, true, false)
    }
}

/// Builds pattern bytes, optionally escaping magic characters.
pub struct LuaPatternBuilder {
    bytes: Vec<u8>,
}

impl LuaPatternBuilder {
    /// The bytes gathered so far.
    pub closed spec fn content(&self) -> Seq<u8> {
        self.bytes@
    }

    /// Create a new, empty pattern builder.
    pub fn new() -> (r: LuaPatternBuilder)
        ensures
            r.content() == Seq::<u8>::empty(),
    {
        LuaPatternBuilder { bytes: Vec::new() }
    }

    fn push_all(&mut self, b: &[u8])
        ensures
            final(self).content() == old(self).content() + b@,
    {
        let mut i: usize = 0;
        while i < b.len()
            invariant
                i <= b@.len(),
                self.bytes@ == old(self).bytes@ + b@.subrange(0, i as int),
            decreases b@.len() - i,
        {
            self.bytes.push(b[i]);
            assert(b@.subrange(0, i + 1) =~= b@.subrange(0, i as int).push(b@[i as int]));
            i = i + 1;
        }
        assert(b@.subrange(0, b@.len() as int) =~= b@);
    }

    /// Add the bytes of a string as they are.
    pub fn text(&mut self, s: &str) -> (r: &mut Self)
        ensures
            r.content() == old(self).content() + s.spec_bytes(),
    {
        self.push_all(s.as_bytes());
        self
    }

    /// Add, for each line, its first run of non-space characters: a pattern can then be
    /// spread over lines, with comments after each part.
    pub fn text_lines(&mut self, lines: &str) -> (r: &mut Self)
        ensures
            r.content() == old(self).content() + first_words(
                lines.spec_bytes(),
                0,
                false,
                false,
            ),
    {
        let b = lines.as_bytes();
        let ghost start = self.bytes@;
        let mut i: usize = 0;
        let mut in_word = false;
        let mut done = false;
        while i < b.len()
            invariant
                i <= b@.len(),
                self.bytes@ + first_words(b@, i as int, in_word, done) == start + first_words(
                    b@,
                    0,
                    false,
                    false,
                ),
            decreases b@.len() - i,
        {
            let c = b[i];
            let ghost before = self.bytes@;
            let n = space_len_at(b, i);
            if c == 10 {
                in_word = false;
                done = false;
                i = i + 1;
            } else if n > 0 {
                done = done || in_word;
                in_word = false;
                i = i + n;
            } else if done {
                in_word = false;
                i = i + 1;
            } else {
                self.bytes.push(c);
                assert(self.bytes@ + first_words(b@, i + 1, true, false) =~= before + (seq![c]
                    + first_words(b@, i + 1, true, false)));
                in_word = true;
                i = i + 1;
            }
        }
        assert(self.bytes@ =~= self.bytes@ + first_words(b@, i as int, in_word, done));
        self
    }

    /// Add bytes, escaping the magic ones.
    pub fn bytes(&mut self, b: &[u8]) -> (r: &mut Self)
        ensures
            r.content() == old(self).content() + escaped(b@),
    {
        let ghost start = self.bytes@;
        let mut i: usize = 0;
        while i < b.len()
            invariant
                i <= b@.len(),
                self.bytes@ == start + escaped(b@.subrange(0, i as int)),
            decreases b@.len() - i,
        {
            let c = b[i];
            let magic = c == 94 || c == 36 || c == 40 || c == 41 || c == 37 || c == 46 || c == 91
                || c == 93 || c == 42 || c == 43 || c == 45 || c == 63;
            if magic {
                self.bytes.push(37);
            }
            self.bytes.push(c);
            proof {
                let t = b@.subrange(0, i + 1);
                assert(t.drop_last() =~= b@.subrange(0, i as int));
                assert(self.bytes@ =~= start + escaped(t));
            }
            i = i + 1;
        }
        assert(b@.subrange(0, b@.len() as int) =~= b@);
        self
    }

    /// Add escaped bytes given as a string of hexadecimal pairs.
    pub fn bytes_as_hex(&mut self, bs: &str) -> (r: &mut Self)
        ensures
            r.content() == old(self).content() + escaped(hex_pairs(bs.spec_bytes(), 0)),
    {
        let bb = LuaPatternBuilder::hex_to_bytes(bs);
        self.bytes(bb.as_slice())
    }

    /// Hand out the pattern, leaving the builder empty.
    pub fn build(&mut self) -> (r: Vec<u8>)
        ensures
            r@ == old(self).content(),
            final(self).content() == Seq::<u8>::empty(),
    {
        let mut v: Vec<u8> = Vec::new();
        core::mem::swap(&mut self.bytes, &mut v);
        v
    }

    /// The bytes written by the successive pairs of hexadecimal digits of a string.
    pub fn hex_to_bytes(s: &str) -> (r: Vec<u8>)
        ensures
            r@ == hex_pairs(s.spec_bytes(), 0),
    {
        let b = s.as_bytes();
        let len = b.len();
        let mut out: Vec<u8> = Vec::new();
        let mut i: usize = 0;
        while len - i > 1
            invariant
                i <= len,
                len == b@.len(),
                out@ + hex_pairs(b@, i as int) == hex_pairs(b@, 0),
            decreases len - i,
        {
            if is_hex(b[i]) && is_hex(b[i + 1]) {
                let v = hex_val(b[i]) * 16 + hex_val(b[i + 1]);
                let ghost before = out@;
                out.push(v);
                assert(out@ + hex_pairs(b@, i + 2) =~= before + hex_pairs(b@, i as int));
                i = i + 2;
            } else {
                i = i + 1;
            }
        }
        assert(out@ =~= out@ + hex_pairs(b@, i as int));
        out
    }

    /// Two upper-case hexadecimal digits for each byte.
    pub fn bytes_to_hex(s: &[u8]) -> (r: String)
        ensures
            valid_utf8(hex_text(s@)) ==> r@ == decode_utf8(hex_text(s@)),
    {
        let mut out: Vec<u8> = Vec::new();
        let mut i: usize = 0;
        while i < s.len()
            invariant
                i <= s@.len(),
                out@ == hex_text(s@.subrange(0, i as int)),
            decreases s@.len() - i,
        {
            let c = s[i];
            out.push(hex_char(c / 16));
            out.push(hex_char(c % 16));
            proof {
                let t = s@.subrange(0, i + 1);
                assert(t.drop_last() =~= s@.subrange(0, i as int));
                assert(out@ =~= hex_text(t));
            }
            i = i + 1;
        }
        assert(s@.subrange(0, s@.len() as int) =~= s@);
        string_of(out)
    }
}

fn space_len_at(s: &[u8], i: usize) -> (r: usize)
    requires
        i < s@.len(),
    ensures
        r == space_len(s@, i as int),
        i + r <= s@.len(),
{
    let len = s.len();
    let c = s[i];
    if c == 32 || (9 <= c && c <= 13) {
        1
    } else if len - i > 1 && c == 0xC2 && (s[i + 1] == 0x85 || s[i + 1] == 0xA0) {
        2
    } else if len - i > 2 && ((c == 0xE1 && s[i + 1] == 0x9A && s[i + 2] == 0x80) || (c == 0xE2
        && s[i + 1] == 0x80 && ((0x80 <= s[i + 2] && s[i + 2] <= 0x8A) || s[i + 2] == 0xA8 || s[i
        + 2] == 0xA9 || s[i + 2] == 0xAF)) || (c == 0xE2 && s[i + 1] == 0x81 && s[i + 2] == 0x9F)
        || (c == 0xE3 && s[i + 1] == 0x80 && s[i + 2] == 0x80)) {
        3
    } else {
        0
    }
}

fn is_hex(c: u8) -> (r: bool)
    ensures
        r == is_xdigit(c),
{
    (48 <= c && c <= 57) || (97 <= c && c <= 102) || (65 <= c && c <= 70)
}

fn hex_val(c: u8) -> (r: u8)
    requires
        is_xdigit(c),
    ensures
        r == hex_value(c),
        r < 16,
{
    if 48 <= c && c <= 57 {
        c - 48
    } else if 97 <= c && c <= 102 {
        c - 87
    } else {
        c - 55
    }
}

fn hex_char(v: u8) -> (r: u8)
    requires
        v < 16,
    ensures
        r == hex_digit(v),
{
    if v < 10 {
        48 + v
    } else {
        55 + v
    }
}

proof fn lemma_hex_text_shape(b: Seq<u8>)
    ensures
        hex_text(b).len() == 2 * b.len(),
        forall|j: int|
            0 <= j < b.len() ==> #[trigger] hex_text(b)[2 * j] == hex_digit(b[j] / 16) && hex_text(
                b,
            )[2 * j + 1] == hex_digit(b[j] % 16),
    decreases b.len(),
{
    if b.len() > 0 {
        lemma_hex_text_shape(b.drop_last());
        assert forall|j: int| 0 <= j < b.len() implies #[trigger] hex_text(b)[2 * j] == hex_digit(
            b[j] / 16,
        ) && hex_text(b)[2 * j + 1] == hex_digit(b[j] % 16) by {
            if j < b.len() - 1 {
                assert(b.drop_last()[j] == b[j]);
            }
        }
    }
}

proof fn lemma_hex_digit(x: u8)
    requires
        x < 16,
    ensures
        is_xdigit(hex_digit(x)),
        hex_value(hex_digit(x)) == x,
{
}

proof fn lemma_hex_pairs_of_text(b: Seq<u8>, j: int)
    requires
        0 <= j <= b.len(),
    ensures
        hex_pairs(hex_text(b), 2 * j) == b.subrange(j, b.len() as int),
    decreases b.len() - j,
{
    lemma_hex_text_shape(b);
    let h = hex_text(b);
    if j < b.len() {
        let x = b[j];
        lemma_hex_digit(x / 16);
        lemma_hex_digit(x % 16);
        assert(h[2 * j] == hex_digit(x / 16));
        assert(h[2 * j + 1] == hex_digit(x % 16));
        assert((x / 16) * 16 + x % 16 == x) by (nonlinear_arith);
        lemma_hex_pairs_of_text(b, j + 1);
        assert(2 * j + 2 == 2 * (j + 1));
        assert(b.subrange(j, b.len() as int) =~= seq![x] + b.subrange(j + 1, b.len() as int));
    } else {
        assert(b.subrange(j, b.len() as int) =~= Seq::<u8>::empty());
    }
}

/// Writing bytes as hexadecimal and reading the pairs back gives the bytes again.
pub proof fn law_hex_round_trip(b: Seq<u8>)
    ensures
        hex_pairs(hex_text(b), 0) == b,
{
    lemma_hex_pairs_of_text(b, 0);
    assert(b.subrange(0, b.len() as int) =~= b);
}

/// What one byte becomes in `escaped`.
pub open spec fn escape_piece(c: u8) -> Seq<u8> {
    if is_magic(c) {
        seq![37u8, c]
    } else {
        seq![c]
    }
}

proof fn lemma_escaped_single(c: u8)
    ensures
        escaped(seq![c]) == escape_piece(c),
{
    let t = seq![c];
    assert(t.drop_last() =~= Seq::<u8>::empty());
    assert(t.last() == c);
    assert(escaped(Seq::<u8>::empty()) == Seq::<u8>::empty());
    assert(escaped(t) == escaped(t.drop_last()) + escape_piece(c));
    assert(escaped(t) =~= escape_piece(c));
}

proof fn lemma_escaped_concat(a: Seq<u8>, b: Seq<u8>)
    ensures
        escaped(a + b) == escaped(a) + escaped(b),
    decreases b.len(),
{
    if b.len() == 0 {
        assert(a + b =~= a);
        assert(escaped(a) + escaped(b) =~= escaped(a));
    } else {
        lemma_escaped_concat(a, b.drop_last());
        assert((a + b).drop_last() =~= a + b.drop_last());
        assert((a + b).last() == b.last());
        assert(escaped(a + b) =~= escaped(a) + escaped(b));
    }
}

proof fn lemma_escaped_split(b: Seq<u8>, k: int)
    requires
        0 <= k < b.len(),
    ensures
        escaped(b) == escaped(b.subrange(0, k)) + escape_piece(b[k]) + escaped(
            b.subrange(k + 1, b.len() as int),
        ),
{
    let x = b.subrange(0, k);
    let y = b.subrange(k + 1, b.len() as int);
    assert(b =~= x + seq![b[k]] + y);
    lemma_escaped_concat(x + seq![b[k]], y);
    lemma_escaped_concat(x, seq![b[k]]);
    lemma_escaped_single(b[k]);
}

proof fn lemma_escaped_first(b: Seq<u8>)
    requires
        b.len() > 0,
    ensures
        escaped(b).len() > 0,
        escaped(b)[0] == 37 || !is_magic(escaped(b)[0]),
{
    lemma_escaped_split(b, 0);
    assert(escaped(b.subrange(0, 0)) =~= Seq::<u8>::empty());
}

proof fn lemma_escaped_matches_from(b: Seq<u8>, k: int, depth: nat)
    requires
        0 <= k <= b.len(),
        b.len() <= usize::MAX,
        depth > 0,
    ensures
        match_from(
            b,
            escaped(b),
            k,
            escaped(b.subrange(0, k)).len() as int,
            Seq::empty(),
            depth,
        ) == Outcome::Matched(b.len() as int, Seq::<Capture>::empty()),
    decreases b.len() - k,
{
    let p = escaped(b);
    let pos = escaped(b.subrange(0, k)).len() as int;
    if k == b.len() {
        assert(b.subrange(0, k) =~= b);
    } else {
        let c = b[k];
        let rest = b.subrange(k + 1, b.len() as int);
        lemma_escaped_split(b, k);
        lemma_escaped_concat(b.subrange(0, k), seq![c]);
        assert(b.subrange(0, k + 1) =~= b.subrange(0, k) + seq![c]);
        lemma_escaped_single(c);
        let next = pos + escape_piece(c).len();
        assert(escaped(b.subrange(0, k + 1)).len() == next);
        assert(p == escaped(b.subrange(0, k)) + escape_piece(c) + escaped(rest));
        if rest.len() > 0 {
            lemma_escaped_first(rest);
            assert(p[next] == escaped(rest)[0]);
        } else {
            assert(escaped(rest) =~= Seq::<u8>::empty());
            assert(next == p.len());
        }
        lemma_escaped_matches_from(b, k + 1, depth);
        if is_magic(c) {
            assert(p[pos] == 37 && p[pos + 1] == c);
            assert(item_kind(p, pos) == ItemKind::Single);
            assert(class_end(p, pos) == Ok::<int, PatternError>(pos + 2));
            assert(single_has(b, k, p, pos, pos + 2));
        } else {
            assert(p[pos] == c);
            assert(item_kind(p, pos) == ItemKind::Single);
            assert(class_end(p, pos) == Ok::<int, PatternError>(pos + 1));
            assert(single_has(b, k, p, pos, pos + 1));
        }
    }
}

/// Escaped bytes stand for themselves: the pattern that `bytes` adds for `b` matches `b`
/// from its first byte to its last, with no captures.
pub proof fn law_escaped_matches_itself(b: Seq<u8>)
    requires
        b.len() <= usize::MAX,
    ensures
        find_spans(b, escaped(b), 0) == Ok::<Seq<LuaMatch>, PatternError>(
            seq![LuaMatch { start: 0, end: b.len() as usize }],
        ),
{
    lemma_escaped_matches_from(b, 0, MAX_DEPTH as nat);
    assert(b.subrange(0, 0) =~= Seq::<u8>::empty());
    if b.len() > 0 {
        lemma_escaped_first(b);
    }
    assert(pattern_start(escaped(b)) == 0);
    let c = Seq::<Capture>::empty();
    assert(!has_open(c));
    assert(c.map_values(|x: Capture| span_of(x)) =~= Seq::<LuaMatch>::empty());
    assert(seq![LuaMatch { start: 0, end: b.len() as usize }] + c.map_values(|x: Capture| span_of(x))
        =~= seq![LuaMatch { start: 0, end: b.len() as usize }]);
}

} // verus!
