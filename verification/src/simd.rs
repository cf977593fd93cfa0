//! The windowed classifier: a 16-lane rendering of the vectorized scan.
//! Each 16-byte window is matched against a nibble-indexed lookup table
//! to catch the quote and the backslash, compared against 0x20 to catch
//! control bytes, and OR-ed into a 16-lane accumulator register; a final
//! window aligned to the end of the input covers a trailing remainder.

use vstd::prelude::*;

verus! {

use crate::escape::escapable_byte;
use crate::escape::has_escapable_byte;
use crate::escape::has_escapable_char;
use crate::escape::lemma_utf8_escape_equivalence;
use crate::scalar::simple_needs_escaping_bytes;

/// The constant 16-entry lookup table, indexed by a byte's low nibble.
/// Entry 2 holds the quote byte (0x22) and entry 12 the backslash byte
/// (0x5C), so comparing the looked-up entry with the byte itself isolates
/// exactly those two values. Entry 0 holds a sentinel that no byte with a
/// low nibble of 0 can equal; every other entry is zero.
pub open spec fn nibble_table(n: u8) -> u8 {
    if n == 0 {
        1
    } else if n == 2 {
        0x22
    } else if n == 12 {
        0x5C
    } else {
        0
    }
}

/// Whether any lane of the accumulator register is non-zero.
pub open spec fn register_hit(reg: Seq<u8>) -> bool {
    exists|j: int| 0 <= j < reg.len() && reg[j] != 0
}

/// The nibble-table comparison hits a byte exactly when that byte is the
/// quote or the backslash.
proof fn lemma_nibble_lookup(b: u8)
    ensures
        (nibble_table(b & 0xF) == b) == (b == 0x22 || b == 0x5C),
{
    assert(0x22u8 & 0xF == 2 && 0x5Cu8 & 0xF == 12 && (b == 1 ==> b & 0xF == 1) && (b == 0 ==> b
        & 0xF == 0) && b & 0xF < 16) by (bit_vector);
}

/// A bitwise OR of two bytes is zero exactly when both are zero.
proof fn lemma_or_nonzero(a: u8, b: u8)
    ensures
        (a | b == 0) == (a == 0 && b == 0),
{
    assert((a | b == 0) == (a == 0 && b == 0)) by (bit_vector);
}

/// Scanning one window further finds an escapable byte exactly when the
/// shorter prefix already had one or the window itself holds one.
proof fn lemma_take_extend_window(bs: Seq<u8>, i: int, w: int)
    requires
        0 <= i,
        0 <= w,
        i + w <= bs.len(),
    ensures
        has_escapable_byte(bs.take(i + w)) == (has_escapable_byte(bs.take(i)) || exists|l: int|
            i <= l < i + w && escapable_byte(bs[l])),
{
    let long = bs.take(i + w);
    let short = bs.take(i);
    if has_escapable_byte(long) {
        let k = choose|k: int| 0 <= k < long.len() && escapable_byte(long[k]);
        assert(long[k] == bs[k]);
        if k < i {
            assert(short[k] == bs[k]);
            assert(has_escapable_byte(short));
        }
    } else {
        if has_escapable_byte(short) {
            let k = choose|k: int| 0 <= k < short.len() && escapable_byte(short[k]);
            assert(long[k] == short[k]);
            assert(has_escapable_byte(long));
        }
        assert forall|l: int| i <= l < i + w implies !escapable_byte(bs[l]) by {
            assert(long[l] == bs[l]);
        }
    }
}

/// After the last full window, one window aligned to the end of the input
/// covers every byte the full windows missed, so together they decide the
/// whole input. Up to 15 bytes are examined twice, which is harmless
/// because the accumulation is an OR.
proof fn lemma_tail_window_covers(bs: Seq<u8>, i: int)
    requires
        16 <= bs.len(),
        bs.len() - 16 < i <= bs.len(),
    ensures
        has_escapable_byte(bs) == (has_escapable_byte(bs.take(i)) || exists|l: int|
            bs.len() - 16 <= l < bs.len() && escapable_byte(bs[l])),
{
    let prefix = bs.take(i);
    if has_escapable_byte(bs) {
        let k = choose|k: int| 0 <= k < bs.len() && escapable_byte(bs[k]);
        if k < i {
            assert(prefix[k] == bs[k]);
            assert(has_escapable_byte(prefix));
        }
    } else {
        if has_escapable_byte(prefix) {
            let k = choose|k: int| 0 <= k < prefix.len() && escapable_byte(prefix[k]);
            assert(prefix[k] == bs[k]);
        }
    }
}

/// Builds the 16-byte lookup register described by [`nibble_table`].
fn nibble_table_register() -> (rnt: Vec<u8>)
    ensures
        rnt@.len() == 16,
        forall|k: int| 0 <= k < 16 ==> rnt@[k] == nibble_table(k as u8),
{
    let mut rnt: Vec<u8> = Vec::new();
    rnt.push(1);
    rnt.push(0);
    rnt.push(0x22);
    rnt.push(0);
    rnt.push(0);
    rnt.push(0);
    rnt.push(0);
    rnt.push(0);
    rnt.push(0);
    rnt.push(0);
    rnt.push(0);
    rnt.push(0);
    rnt.push(0x5C);
    rnt.push(0);
    rnt.push(0);
    rnt.push(0);
    rnt
}

/// Builds a 16-lane accumulator register with every lane clear.
fn zero_register() -> (reg: Vec<u8>)
    ensures
        reg@.len() == 16,
        !register_hit(reg@),
{
    let mut reg: Vec<u8> = Vec::new();
    let mut k: usize = 0;
    while k < 16
        invariant
            reg@.len() == k,
            k <= 16,
            forall|j: int| 0 <= j < k ==> reg@[j] == 0,
        decreases 16 - k,
    {
        reg.push(0);
        k += 1;
    }
    reg
}

/// Scans the 16-byte window of `view` that starts at `p`, OR-ing each
/// lane's two comparisons (nibble-table hit, byte below 0x20) into the
/// accumulator register.
fn scan_window(view: &[u8], p: usize, rnt: &Vec<u8>, running: &mut Vec<u8>)
    requires
        p + 16 <= view@.len(),
        rnt@.len() == 16,
        forall|k: int| 0 <= k < 16 ==> rnt@[k] == nibble_table(k as u8),
        old(running)@.len() == 16,
    ensures
        final(running)@.len() == 16,
        register_hit(final(running)@) == (register_hit(old(running)@) || exists|l: int|
            p <= l < p + 16 && escapable_byte(view@[l])),
{
    let len = view.len();
    let mut j: usize = 0;
    while j < 16
        invariant
            len == view@.len(),
            p + 16 <= view@.len(),
            rnt@.len() == 16,
            forall|k: int| 0 <= k < 16 ==> rnt@[k] == nibble_table(k as u8),
            running@.len() == 16,
            j <= 16,
            register_hit(running@) == (register_hit(old(running)@) || exists|l: int|
                p <= l < p + j && escapable_byte(view@[l])),
        decreases 16 - j,
    {
        let b = view[p + j];
        proof {
            assert(b & 0xF < 16) by (bit_vector);
        }
        let nib = (b & 0xF) as usize;
        let looked = rnt[nib];
        let eq_mask: u8 = if looked == b {
            0xFF
        } else {
            0
        };
        let lt_mask: u8 = if b < 0x20 {
            0xFF
        } else {
            0
        };
        let prev = running[j];
        let ghost before = running@;
        running[j] = (prev | eq_mask) | lt_mask;
        proof {
            let merged = (prev | eq_mask) | lt_mask;
            lemma_or_nonzero(prev | eq_mask, lt_mask);
            lemma_or_nonzero(prev, eq_mask);
            lemma_nibble_lookup(b);
            assert(looked == nibble_table(b & 0xF));
            assert((merged != 0) == (prev != 0 || escapable_byte(view@[p + j])));
            assert(running@ == before.update(j as int, merged));
            assert(register_hit(running@) == (register_hit(before) || escapable_byte(
                view@[p + j],
            ))) by {
                if register_hit(before) {
                    let k = choose|k: int| 0 <= k < before.len() && before[k] != 0;
                    if k == j as int {
                        assert(running@[k] != 0);
                    } else {
                        assert(running@[k] == before[k]);
                    }
                    assert(register_hit(running@));
                } else if escapable_byte(view@[p + j]) {
                    assert(running@[j as int] != 0);
                    assert(register_hit(running@));
                } else {
                    if register_hit(running@) {
                        let k = choose|k: int| 0 <= k < running@.len() && running@[k] != 0;
                        assert(k == j as int ==> before[k] != 0);
                        assert(k != j as int ==> running@[k] == before[k]);
                        assert(register_hit(before));
                    }
                }
            }
            if exists|l: int| p <= l < p + j + 1 && escapable_byte(view@[l]) {
                let l0 = choose|l: int| p <= l < p + j + 1 && escapable_byte(view@[l]);
                if l0 < p + j {
                    assert(p <= l0 < p + j && escapable_byte(view@[l0]));
                }
            }
        }
        j += 1;
    }
}

/// OR-reduces the accumulator register to one boolean: whether any lane
/// is non-zero.
fn reduce_register(running: &Vec<u8>) -> (r: bool)
    requires
        running@.len() == 16,
    ensures
        r == register_hit(running@),
{
    let mut acc: u8 = 0;
    let mut j: usize = 0;
    while j < 16
        invariant
            running@.len() == 16,
            j <= 16,
            (acc != 0) == exists|k: int| 0 <= k < j && running@[k] != 0,
        decreases 16 - j,
    {
        let v = running[j];
        let ghost a0 = acc;
        proof {
            lemma_or_nonzero(acc, v);
        }
        acc = acc | v;
        proof {
            assert((acc != 0) == (a0 != 0 || v != 0));
            if v != 0 {
                assert(running@[j as int] != 0);
            }
            if a0 == 0 && v == 0 {
                assert forall|k: int| 0 <= k < j + 1 implies running@[k] == 0 by {
                    if k < j {
                        assert(!(exists|m: int| 0 <= m < j && running@[m] != 0));
                    }
                }
            }
        }
        j += 1;
    }
    acc != 0
}

/// Walks every full 16-byte window of `view` in order, then one final
/// window aligned to the end when the length is not a multiple of 16, and
/// reduces the accumulator register to the answer.
fn scan_windows(view: &[u8]) -> (r: bool)
    requires
        16 <= view@.len(),
    ensures
        r == has_escapable_byte(view@),
{
    let rnt = nibble_table_register();
    let mut running = zero_register();
    let n = view.len();
    let mut i: usize = 0;
    proof {
        assert(view@.take(0) =~= Seq::<u8>::empty());
    }
    while i < n - 15
        invariant
            16 <= n == view@.len(),
            rnt@.len() == 16,
            forall|k: int| 0 <= k < 16 ==> rnt@[k] == nibble_table(k as u8),
            running@.len() == 16,
            i <= n,
            register_hit(running@) == has_escapable_byte(view@.take(i as int)),
        decreases n - i,
    {
        scan_window(view, i, &rnt, &mut running);
        proof {
            lemma_take_extend_window(view@, i as int, 16);
        }
        i += 16;
    }
    if i < n {
        scan_window(view, n - 16, &rnt, &mut running);
        proof {
            lemma_tail_window_covers(view@, i as int);
        }
    } else {
        proof {
            assert(view@.take(n as int) =~= view@);
        }
    }
    reduce_register(&running)
}

/// Same answer as the scalar classifiers, computed over 16-byte windows
/// of the raw UTF-8 bytes. Inputs shorter than one window fall back to
/// the per-byte scan.
pub fn simd_needs_escaping(s: &str) -> (r: bool)
    ensures
        r == has_escapable_char(s@),
{
    if s.len() < 16 {
        return simple_needs_escaping_bytes(s);
    }
    let view = s.as_bytes();
    let r = scan_windows(view);
    proof {
        lemma_utf8_escape_equivalence(s@);
    }
    r
}

} // verus!
