//! The checks made once, when a pattern is built, on the pattern's bytes alone.
use vstd::prelude::*;

use crate::classes::{class_end, find_class_end, is_digit, lemma_class_end_bounds, ESC};
use crate::errors::PatternError;
use crate::matcher::{pat_at, MAX_CAPTURES};

verus! {

/// The state of one capture as the pattern is read from left to right.
#[derive(Debug, Clone, Copy, PartialEq, Eq, Structural)]
pub enum Slot {
    Open,
    Position,
    Closed,
}

/// Index of the last slot below `k` that is still open, or -1.
pub open spec fn last_open_slot(lv: Seq<Slot>, k: int) -> int
    decreases k,
{
    if k <= 0 {
        -1
    } else if lv[k - 1] == Slot::Open {
        k - 1
    } else {
        last_open_slot(lv, k - 1)
    }
}

/// Reading the pattern from `q` with the captures `lv` seen so far: the first fault found,
/// if any.
pub open spec fn check_from(p: Seq<u8>, q: int, lv: Seq<Slot>) -> Result<(), PatternError>
    decreases p.len() - q,
{
    if q < 0 || q >= p.len() {
        if lv.contains(Slot::Open) {
            Err(PatternError::UnfinishedCapture)
        } else {
            Ok(())
        }
    } else if p[q] == 40 {
        if lv.len() >= MAX_CAPTURES {
            Err(PatternError::TooManyCaptures)
        } else if pat_at(p, q + 1) == 41 {
            check_from(p, q + 2, lv.push(Slot::Position))
        } else {
            check_from(p, q + 1, lv.push(Slot::Open))
        }
    } else if p[q] == 41 {
        let l = last_open_slot(lv, lv.len() as int);
        if l < 0 {
            Err(PatternError::NoOpenCapture)
        } else {
            check_from(p, q + 1, lv.update(l, Slot::Closed))
        }
    } else if p[q] == ESC {
        if q + 1 >= p.len() {
            Err(PatternError::EndsWithEscape)
        } else if p[q + 1] == 98 {
            if q + 3 >= p.len() {
                Err(PatternError::MalformedBalance)
            } else {
                check_from(p, q + 4, lv)
            }
        } else if p[q + 1] == 102 {
            if pat_at(p, q + 2) != 91 {
                Err(PatternError::MalformedFrontier)
            } else {
                match class_end(p, q + 2) {
                    Err(e) => Err(e),
                    Ok(ep) => {
                        proof {
                            lemma_class_end_bounds(p, q + 2);
                        }
                        check_from(p, ep, lv)
                    },
                }
            }
        } else if is_digit(p[q + 1]) {
            let l = p[q + 1] - 49;
            if l < 0 || l >= lv.len() || lv[l] != Slot::Closed {
                Err(PatternError::InvalidCaptureIndex(Some(l as i8)))
            } else {
                check_from(p, q + 2, lv)
            }
        } else {
            check_from(p, q + 2, lv)
        }
    } else if p[q] == 91 {
        match class_end(p, q) {
            Err(e) => Err(e),
            Ok(ep) => {
                proof {
                    lemma_class_end_bounds(p, q);
                }
                check_from(p, ep, lv)
            },
        }
    } else {
        check_from(p, q + 1, lv)
    }
}

/// The verdict on a whole pattern.
pub open spec fn pattern_check(p: Seq<u8>) -> Result<(), PatternError> {
    check_from(p, 0, Seq::empty())
}

/// Checks a pattern: every escape finished, bracket sets closed, `%b` and `%f` given what
/// they need, captures opened and closed in pairs and within bounds, and back-references
/// naming captures closed before them.
pub fn check_pattern(p: &[u8]) -> (r: Result<(), PatternError>)
    ensures
        r == pattern_check(p@),
{
    let plen = p.len();
    let mut lv: Vec<Slot> = Vec::new();
    let mut q: usize = 0;
    loop
        invariant
            q <= plen,
            plen == p@.len(),
            lv@.len() <= MAX_CAPTURES,
            check_from(p@, q as int, lv@) == pattern_check(p@),
        decreases plen - q,
    {
        let ghost here = check_from(p@, q as int, lv@);
        if q >= plen {
            let mut i: usize = 0;
            while i < lv.len()
                invariant
                    i <= lv@.len(),
                    q >= plen,
                    plen == p@.len(),
                    check_from(p@, q as int, lv@) == pattern_check(p@),
                    forall|j: int| 0 <= j < i ==> lv@[j] != Slot::Open,
                decreases lv@.len() - i,
            {
                if lv[i] == Slot::Open {
                    assert(lv@.contains(Slot::Open));
                    return Err(PatternError::UnfinishedCapture);
                }
                i = i + 1;
            }
            assert(!lv@.contains(Slot::Open));
            return Ok(());
        }
        let c = p[q];
        if c == 40 {
            if lv.len() >= MAX_CAPTURES {
                return Err(PatternError::TooManyCaptures);
            }
            if plen - q > 1 && p[q + 1] == 41 {
                assert(here == check_from(p@, q + 2, lv@.push(Slot::Position)));
                lv.push(Slot::Position);
                q = q + 2;
            } else {
                assert(here == check_from(p@, q + 1, lv@.push(Slot::Open)));
                lv.push(Slot::Open);
                q = q + 1;
            }
        } else if c == 41 {
            let mut k = lv.len();
            while k > 0 && lv[k - 1] != Slot::Open
                invariant
                    k <= lv@.len(),
                    last_open_slot(lv@, lv@.len() as int) == last_open_slot(lv@, k as int),
                decreases k,
            {
                k = k - 1;
            }
            if k == 0 {
                return Err(PatternError::NoOpenCapture);
            }
            assert(here == check_from(p@, q + 1, lv@.update(k - 1, Slot::Closed)));
            lv.set(k - 1, Slot::Closed);
            q = q + 1;
        } else if c == ESC {
            if plen - q <= 1 {
                return Err(PatternError::EndsWithEscape);
            }
            let d = p[q + 1];
            if d == 98 {
                if plen - q <= 3 {
                    return Err(PatternError::MalformedBalance);
                }
                q = q + 4;
            } else if d == 102 {
                if !(plen - q > 2 && p[q + 2] == 91) {
                    return Err(PatternError::MalformedFrontier);
                }
                proof {
                    lemma_class_end_bounds(p@, q + 2);
                }
                match find_class_end(p, q + 2) {
                    Err(e) => {
                        return Err(e);
                    },
                    Ok(ep) => {
                        assert(here == check_from(p@, ep as int, lv@));
                        q = ep;
                    },
                }
            } else if 48 <= d && d <= 57 {
                if d == 48 || (d - 49) as usize >= lv.len() || lv[(d - 49) as usize] != Slot::Closed {
                    return Err(PatternError::InvalidCaptureIndex(Some((d as i8) - 49)));
                }
                q = q + 2;
            } else {
                q = q + 2;
            }
        } else if c == 91 {
            proof {
                lemma_class_end_bounds(p@, q as int);
            }
            match find_class_end(p, q) {
                Err(e) => {
                    return Err(e);
                },
                Ok(ep) => {
                    assert(here == check_from(p@, ep as int, lv@));
                    q = ep;
                },
            }
        } else {
            q = q + 1;
        }
    }
}

} // verus!
