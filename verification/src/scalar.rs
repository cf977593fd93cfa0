//! The scalar classifiers: a per-character scan, a per-byte scan, and a
//! branchless per-byte scan without early exit.

use vstd::prelude::*;

verus! {

use crate::escape::escapable_byte;
use crate::escape::escapable_char;
use crate::escape::has_escapable_char;
use crate::escape::lemma_utf8_escape_equivalence;
use vstd::string::StringSliceAdditionalSpecFns;

/// Reference classifier: walks the decoded characters in order and stops
/// at the first one that a JSON encoder would have to escape.
pub fn simple_needs_escaping_str(s: &str) -> (r: bool)
    ensures
        r == has_escapable_char(s@),
{
    let chars = s.chars();
    for c in it: chars
        invariant
            it.seq() == s@,
            forall|i: int| 0 <= i < it.index() ==> !escapable_char(s@[i]),
    {
        let v = c as u32;
        if v < 0x20 || v == 0x22 || v == 0x5C {
            return true;
        }
    }
    false
}

/// Same answer as [`simple_needs_escaping_str`], computed over the raw
/// UTF-8 bytes instead of the decoded characters; stops at the first
/// escapable byte.
pub fn simple_needs_escaping_bytes(s: &str) -> (r: bool)
    ensures
        r == has_escapable_char(s@),
{
    let view = s.as_bytes();
    let n = view.len();
    let mut i: usize = 0;
    while i < n
        invariant
            n == view@.len(),
            view@ == s.spec_bytes(),
            i <= n,
            forall|j: int| 0 <= j < i ==> !escapable_byte(view@[j]),
        decreases n - i,
    {
        let b = view[i];
        if b < 0x20 || b == 0x22 || b == 0x5C {
            proof {
                lemma_utf8_escape_equivalence(s@);
                assert(escapable_byte(view@[i as int]));
            }
            return true;
        }
        i += 1;
    }
    proof {
        lemma_utf8_escape_equivalence(s@);
    }
    false
}

/// Same answer again, but OR-accumulated over every byte with no early
/// exit: the loop always walks the whole input.
pub fn branchless_needs_escaping(s: &str) -> (r: bool)
    ensures
        r == has_escapable_char(s@),
{
    let view = s.as_bytes();
    let n = view.len();
    let mut b = false;
    let mut i: usize = 0;
    while i < n
        invariant
            n == view@.len(),
            view@ == s.spec_bytes(),
            i <= n,
            b == exists|j: int| 0 <= j < i && escapable_byte(view@[j]),
        decreases n - i,
    {
        let c = view[i];
        b = b || (c < 0x20) || (c == 0x22) || (c == 0x5C);
        i += 1;
    }
    proof {
        lemma_utf8_escape_equivalence(s@);
    }
    b
}

} // verus!
