use needs_escaping::branchless_needs_escaping;
use needs_escaping::simd_needs_escaping;
use needs_escaping::simple_needs_escaping_bytes;
use needs_escaping::simple_needs_escaping_str;
use needs_escaping::table_needs_escaping;

const BOUNDARY_LENGTHS: [usize; 8] = [0, 1, 15, 16, 17, 31, 32, 33];

fn ascii_with(len: usize, pos: usize, b: u8) -> String {
    let mut bytes = vec![b'a'; len];
    bytes[pos] = b;
    String::from_utf8(bytes).unwrap()
}

#[test]
fn boundary_lengths_clean() {
    for len in BOUNDARY_LENGTHS {
        let s = String::from_utf8(vec![b'a'; len]).unwrap();
        assert_eq!(simd_needs_escaping(&s), false);
        assert_eq!(simple_needs_escaping_str(&s), false);
        assert_eq!(simple_needs_escaping_bytes(&s), false);
        assert_eq!(branchless_needs_escaping(&s), false);
        assert_eq!(table_needs_escaping(&s), false);
    }
}

#[test]
fn boundary_lengths_with_quote_anywhere() {
    for len in BOUNDARY_LENGTHS {
        for pos in 0..len {
            let s = ascii_with(len, pos, b'"');
            assert_eq!(simd_needs_escaping(&s), true);
            assert_eq!(simple_needs_escaping_bytes(&s), true);
        }
    }
}

#[test]
fn boundary_lengths_with_backslash_anywhere() {
    for len in BOUNDARY_LENGTHS {
        for pos in 0..len {
            let s = ascii_with(len, pos, b'\\');
            assert_eq!(simd_needs_escaping(&s), true);
            assert_eq!(table_needs_escaping(&s), true);
        }
    }
}

#[test]
fn boundary_lengths_with_control_byte_anywhere() {
    for len in BOUNDARY_LENGTHS {
        for pos in 0..len {
            let s = ascii_with(len, pos, 0x1F);
            assert_eq!(simd_needs_escaping(&s), true);
            assert_eq!(branchless_needs_escaping(&s), true);
        }
    }
}

#[test]
fn tail_window_overlap_finds_late_match() {
    let s = ascii_with(17, 16, b'"');
    assert_eq!(simd_needs_escaping(&s), true);
    let s = ascii_with(31, 30, b'\\');
    assert_eq!(simd_needs_escaping(&s), true);
    let s = ascii_with(33, 32, 0x01);
    assert_eq!(simd_needs_escaping(&s), true);
}
