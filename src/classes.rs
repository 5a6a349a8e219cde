//! Byte classes: the built-in `%x` classes, bracket sets and single items.
use vstd::prelude::*;

use crate::errors::PatternError;

verus! {

/// The escape byte of the pattern language.
pub const ESC: u8 = 37;

pub open spec fn is_lower(c: u8) -> bool {
    97 <= c <= 122
}

pub open spec fn is_upper(c: u8) -> bool {
    65 <= c <= 90
}

pub open spec fn is_alpha(c: u8) -> bool {
    is_lower(c) || is_upper(c)
}

pub open spec fn is_digit(c: u8) -> bool {
    48 <= c <= 57
}

pub open spec fn is_alnum(c: u8) -> bool {
    is_alpha(c) || is_digit(c)
}

pub open spec fn is_space(c: u8) -> bool {
    c == 32 || (9 <= c <= 13)
}

pub open spec fn is_cntrl(c: u8) -> bool {
    c < 32 || c == 127
}

/// Printable and not a space.
pub open spec fn is_graph(c: u8) -> bool {
    33 <= c <= 126
}

pub open spec fn is_punct(c: u8) -> bool {
    is_graph(c) && !is_alnum(c)
}

pub open spec fn is_xdigit(c: u8) -> bool {
    is_digit(c) || (97 <= c <= 102) || (65 <= c <= 70)
}

pub open spec fn to_lower(c: u8) -> u8 {
    if is_upper(c) {
        (c + 32) as u8
    } else {
        c
    }
}

/// Whether `c` belongs to the class named by the letter `cl` (as in `%a`);
/// the upper-case letter names the complement. Any other byte stands for itself.
pub open spec fn class_has(c: u8, cl: u8) -> bool {
    let l = to_lower(cl);
    let res = if l == 97 {
        is_alpha(c)
    } else if l == 99 {
        is_cntrl(c)
    } else if l == 100 {
        is_digit(c)
    } else if l == 103 {
        is_graph(c)
    } else if l == 108 {
        is_lower(c)
    } else if l == 112 {
        is_punct(c)
    } else if l == 115 {
        is_space(c)
    } else if l == 117 {
        is_upper(c)
    } else if l == 119 {
        is_alnum(c)
    } else if l == 120 {
        is_xdigit(c)
    } else {
        c == cl
    };
    if is_class_letter(l) && is_upper(cl) {
        !res
    } else {
        res
    }
}

pub open spec fn is_class_letter(l: u8) -> bool {
    l == 97 || l == 99 || l == 100 || l == 103 || l == 108 || l == 112 || l == 115 || l == 117
        || l == 119 || l == 120
}

pub fn match_class(c: u8, cl: u8) -> (r: bool)
    ensures
        r == class_has(c, cl),
{
    let l: u8 = if 65 <= cl && cl <= 90 {
        cl + 32
    } else {
        cl
    };
    let res = if l == 97 {
        (97 <= c && c <= 122) || (65 <= c && c <= 90)
    } else if l == 99 {
        c < 32 || c == 127
    } else if l == 100 {
        48 <= c && c <= 57
    } else if l == 103 {
        33 <= c && c <= 126
    } else if l == 108 {
        97 <= c && c <= 122
    } else if l == 112 {
        33 <= c && c <= 126 && !((97 <= c && c <= 122) || (65 <= c && c <= 90) || (48 <= c
            && c <= 57))
    } else if l == 115 {
        c == 32 || (9 <= c && c <= 13)
    } else if l == 117 {
        65 <= c && c <= 90
    } else if l == 119 {
        (97 <= c && c <= 122) || (65 <= c && c <= 90) || (48 <= c && c <= 57)
    } else if l == 120 {
        (48 <= c && c <= 57) || (97 <= c && c <= 102) || (65 <= c && c <= 70)
    } else {
        return c == cl;
    };
    if 65 <= cl && cl <= 90 {
        !res
    } else {
        res
    }
}

/// Index of the `]` that closes a bracket set whose next member starts at `q`.
/// A member is one byte or an escape pair; the first member is always taken,
/// so a `]` there is literal.
pub open spec fn bracket_close(p: Seq<u8>, q: int) -> Result<int, PatternError>
    decreases p.len() - q,
{
    if q < 0 || q >= p.len() {
        Err(PatternError::UnfinishedCharClass)
    } else {
        let q2 = if p[q] == ESC && q + 1 < p.len() {
            q + 2
        } else {
            q + 1
        };
        if q2 < p.len() && p[q2] == 93 {
            Ok(q2)
        } else {
            bracket_close(p, q2)
        }
    }
}

/// Where the single-byte item starting at `pi` ends (its optional suffix follows).
pub open spec fn class_end(p: Seq<u8>, pi: int) -> Result<int, PatternError> {
    if p[pi] == ESC {
        if pi + 1 >= p.len() {
            Err(PatternError::EndsWithEscape)
        } else {
            Ok(pi + 2)
        }
    } else if p[pi] == 91 {
        let q = if pi + 1 < p.len() && p[pi + 1] == 94 {
            pi + 2
        } else {
            pi + 1
        };
        match bracket_close(p, q) {
            Ok(c) => Ok(c + 1),
            Err(e) => Err(e),
        }
    } else {
        Ok(pi + 1)
    }
}

pub proof fn lemma_bracket_close_bounds(p: Seq<u8>, q: int)
    requires
        0 <= q,
    ensures
        bracket_close(p, q) matches Ok(c) ==> q < c < p.len() && p[c] == 93,
        bracket_close(p, q) matches Err(e) ==> e == PatternError::UnfinishedCharClass,
    decreases p.len() - q,
{
    if q < p.len() {
        let q2 = if p[q] == ESC && q + 1 < p.len() {
            q + 2
        } else {
            q + 1
        };
        if !(q2 < p.len() && p[q2] == 93) {
            lemma_bracket_close_bounds(p, q2);
        }
    }
}

pub proof fn lemma_class_end_bounds(p: Seq<u8>, pi: int)
    requires
        0 <= pi < p.len(),
    ensures
        class_end(p, pi) matches Ok(e) ==> pi < e <= p.len(),
        p[pi] == 91 ==> (class_end(p, pi) matches Ok(e) ==> pi + 1 < e && p[e - 1] == 93),
{
    if p[pi] == 91 {
        let q = if pi + 1 < p.len() && p[pi + 1] == 94 {
            pi + 2
        } else {
            pi + 1
        };
        lemma_bracket_close_bounds(p, q);
    }
}

pub fn find_class_end(p: &[u8], pi: usize) -> (r: Result<usize, PatternError>)
    requires
        pi < p@.len(),
    ensures
        match class_end(p@, pi as int) {
            Ok(e) => r == Ok::<usize, PatternError>(e as usize),
            Err(e) => r == Err::<usize, PatternError>(e),
        },
{
    proof {
        lemma_class_end_bounds(p@, pi as int);
    }
    let len = p.len();
    if p[pi] == ESC {
        if pi + 1 >= len {
            Err(PatternError::EndsWithEscape)
        } else {
            Ok(pi + 2)
        }
    } else if p[pi] == 91 {
        let mut q: usize = if pi + 1 < len && p[pi + 1] == 94 {
            pi + 2
        } else {
            pi + 1
        };
        let ghost q0 = q as int;
        loop
            invariant
                q <= len + 1,
                len == p@.len(),
                pi < len,
                p@[pi as int] == 91,
                q0 == (if pi + 1 < len && p@[pi + 1] == 94 {
                    pi + 2
                } else {
                    pi + 1
                }),
                bracket_close(p@, q as int) == bracket_close(p@, q0),
            decreases len + 1 - q,
        {
            if q >= len {
                return Err(PatternError::UnfinishedCharClass);
            }
            let q2 = if p[q] == ESC && q + 1 < len {
                q + 2
            } else {
                q + 1
            };
            if q2 < len && p[q2] == 93 {
                return Ok(q2 + 1);
            }
            q = q2;
        }
    } else {
        Ok(pi + 1)
    }
}

/// Membership in a bracket set, scanning its members from `q` up to the closing `]` at `ec`.
pub open spec fn bracket_scan(c: u8, p: Seq<u8>, q: int, ec: int) -> bool
    decreases p.len() - q,
{
    if q >= ec || q < 0 || ec >= p.len() {
        false
    } else if p[q] == ESC {
        class_has(c, p[q + 1]) || bracket_scan(c, p, q + 2, ec)
    } else if p[q + 1] == 45 && q + 2 < ec {
        (p[q] <= c && c <= p[q + 2]) || bracket_scan(c, p, q + 3, ec)
    } else {
        p[q] == c || bracket_scan(c, p, q + 1, ec)
    }
}

/// Whether `c` is in the bracket set that opens at `op` and closes at `ec`.
pub open spec fn bracket_has(c: u8, p: Seq<u8>, op: int, ec: int) -> bool {
    if p[op + 1] == 94 {
        !bracket_scan(c, p, op + 2, ec)
    } else {
        bracket_scan(c, p, op + 1, ec)
    }
}

pub fn match_bracket_class(c: u8, p: &[u8], op: usize, ec: usize) -> (r: bool)
    requires
        op < ec < p@.len(),
    ensures
        r == bracket_has(c, p@, op as int, ec as int),
{
    let neg = p[op + 1] == 94;
    let mut q: usize = if neg {
        op + 2
    } else {
        op + 1
    };
    let ghost q0 = q as int;
    let mut found = false;
    while q < ec && !found
        invariant
            ec < p@.len(),
            q <= ec + 3,
            op < ec,
            neg == (p@[op + 1] == 94),
            q0 == (if neg {
                op + 2
            } else {
                op + 1
            }),
            bracket_scan(c, p@, q0, ec as int) == (found || bracket_scan(c, p@, q as int, ec as int)),
        decreases ec + 3 - q,
    {
        if p[q] == ESC {
            found = match_class(c, p[q + 1]);
            q = q + 2;
        } else if p[q + 1] == 45 && q + 2 < ec {
            found = p[q] <= c && c <= p[q + 2];
            q = q + 3;
        } else {
            found = p[q] == c;
            q = q + 1;
        }
    }
    if neg {
        !found
    } else {
        found
    }
}

/// Whether the subject byte at `si` matches the single item `p[pi..ep]`.
pub open spec fn single_has(s: Seq<u8>, si: int, p: Seq<u8>, pi: int, ep: int) -> bool {
    if si < 0 || si >= s.len() {
        false
    } else if p[pi] == 46 {
        true
    } else if p[pi] == ESC {
        class_has(s[si], p[pi + 1])
    } else if p[pi] == 91 {
        bracket_has(s[si], p, pi, ep - 1)
    } else {
        p[pi] == s[si]
    }
}

/// What `find_class_end` establishes of a well-formed item.
pub open spec fn item_ok(p: Seq<u8>, pi: int, ep: int) -> bool {
    &&& 0 <= pi < ep <= p.len()
    &&& p[pi] == ESC ==> pi + 1 < p.len()
    &&& p[pi] == 91 ==> pi + 1 < ep && p[ep - 1] == 93
}

pub fn single_match(s: &[u8], si: usize, p: &[u8], pi: usize, ep: usize) -> (r: bool)
    requires
        item_ok(p@, pi as int, ep as int),
    ensures
        r == single_has(s@, si as int, p@, pi as int, ep as int),
{
    if si >= s.len() {
        false
    } else if p[pi] == 46 {
        true
    } else if p[pi] == ESC {
        match_class(s[si], p[pi + 1])
    } else if p[pi] == 91 {
        match_bracket_class(s[si], p, pi, ep - 1)
    } else {
        p[pi] == s[si]
    }
}

} // verus!
