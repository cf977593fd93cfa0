use needs_escaping::branchless_needs_escaping;
use needs_escaping::simd_needs_escaping;
use needs_escaping::simple_needs_escaping_bytes;
use needs_escaping::simple_needs_escaping_str;
use needs_escaping::table_needs_escaping;

fn assert_all(s: &str, expected: bool) {
    assert_eq!(simple_needs_escaping_str(s), expected);
    assert_eq!(simple_needs_escaping_bytes(s), expected);
    assert_eq!(branchless_needs_escaping(s), expected);
    assert_eq!(table_needs_escaping(s), expected);
    assert_eq!(simd_needs_escaping(s), expected);
}

#[test]
fn bug1() {
    let s = "\u{80}  \u{80}\u{80}ࠀ\" ࠀ";
    assert_eq!(simple_needs_escaping_str(s), true);
    assert_eq!(simple_needs_escaping_bytes(s), true);
    assert_eq!(branchless_needs_escaping(s), true);
    assert_eq!(table_needs_escaping(s), true);
    assert_eq!(simd_needs_escaping(s), true);
}

#[test]
fn bug2() {
    let s = "    \u{80}ࠀࠀ ࠀ\\";
    assert_eq!(simple_needs_escaping_str(s), true);
    assert_eq!(simple_needs_escaping_bytes(s), true);
    assert_eq!(branchless_needs_escaping(s), true);
    assert_eq!(table_needs_escaping(s), true);
    assert_eq!(simd_needs_escaping(s), true);
}

#[test]
fn hello_world_is_clean() {
    assert_all("hello world", false);
}

#[test]
fn quote_needs_escaping() {
    assert_all("\"e", true);
}

#[test]
fn backslash_needs_escaping() {
    assert_all("\\e", true);
}

#[test]
fn multibyte_only_is_clean() {
    assert_all("\u{80}ࠀ漢字é\u{10348}", false);
}

#[test]
fn multibyte_with_quote_needs_escaping() {
    assert_all("ࠀ漢\"字é", true);
}

#[test]
fn empty_is_clean() {
    assert_all("", false);
}

#[test]
fn control_character_needs_escaping() {
    assert_all("abc\u{1f}def", true);
    assert_all("\u{0}", true);
    assert_all("line\nbreak", true);
}

#[test]
fn space_and_tilde_are_clean() {
    assert_all(" ", false);
    assert_all("~", false);
}

#[test]
fn repeated_calls_agree() {
    for s in ["hello world", "\"e", "\\e", "ࠀ漢\"字é", ""] {
        assert_eq!(simple_needs_escaping_str(s), simple_needs_escaping_str(s));
        assert_eq!(simple_needs_escaping_bytes(s), simple_needs_escaping_bytes(s));
        assert_eq!(branchless_needs_escaping(s), branchless_needs_escaping(s));
        assert_eq!(table_needs_escaping(s), table_needs_escaping(s));
        assert_eq!(simd_needs_escaping(s), simd_needs_escaping(s));
    }
}

#[test]
fn all_classifiers_agree_on_mixed_inputs() {
    let inputs = [
        "hello world",
        "\"e",
        "\\e",
        "",
        " ",
        "\u{80}ࠀ漢字é",
        "ࠀ漢\"字é",
        "a longer ascii string with no escapable characters in it at all",
        "a longer ascii string with one \\ escapable character in it....",
        "\u{1f}",
    ];
    for s in inputs {
        let expected = simple_needs_escaping_str(s);
        assert_eq!(simple_needs_escaping_bytes(s), expected);
        assert_eq!(branchless_needs_escaping(s), expected);
        assert_eq!(table_needs_escaping(s), expected);
        assert_eq!(simd_needs_escaping(s), expected);
    }
}
