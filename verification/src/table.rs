//! The table-lookup classifier: a 256-entry boolean table, one entry per
//! byte value, scanned with no early exit.

use vstd::prelude::*;

verus! {

use crate::escape::escapable_byte;
use crate::escape::has_escapable_char;
use crate::escape::lemma_utf8_escape_equivalence;
use vstd::string::StringSliceAdditionalSpecFns;

/// Builds the classification table: entry `v` is `true` exactly when byte
/// value `v` is escapable in a JSON string literal.
pub fn json_quotable_character() -> (t: Vec<bool>)
    ensures
        t@.len() == 256,
        forall|v: int| 0 <= v < 256 ==> t@[v] == escapable_byte(v as u8),
{
    let mut t: Vec<bool> = Vec::new();
    let mut v: usize = 0;
    while v < 256
        invariant
            t@.len() == v,
            v <= 256,
            forall|j: int| 0 <= j < v ==> t@[j] == escapable_byte(j as u8),
        decreases 256 - v,
    {
        t.push(v < 0x20 || v == 0x22 || v == 0x5C);
        v += 1;
    }
    t
}

/// Same answer as the scalar classifiers, computed by looking every byte
/// up in the classification table and OR-accumulating the entries.
pub fn table_needs_escaping(s: &str) -> (r: bool)
    ensures
        r == has_escapable_char(s@),
{
    let table = json_quotable_character();
    let view = s.as_bytes();
    let n = view.len();
    let mut needs = false;
    let mut i: usize = 0;
    while i < n
        invariant
            n == view@.len(),
            view@ == s.spec_bytes(),
            i <= n,
            table@.len() == 256,
            forall|v: int| 0 <= v < 256 ==> table@[v] == escapable_byte(v as u8),
            needs == exists|j: int| 0 <= j < i && escapable_byte(view@[j]),
        decreases n - i,
    {
        let c = view[i];
        needs = needs || table[c as usize];
        i += 1;
    }
    proof {
        lemma_utf8_escape_equivalence(s@);
    }
    needs
}

} // verus!
