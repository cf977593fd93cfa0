use needs_escaping::json_quotable_character;

#[test]
fn table_matches_escape_set() {
    let t = json_quotable_character();
    assert_eq!(t.len(), 256);
    for v in 0..256usize {
        let expected = v < 0x20 || v == 0x22 || v == 0x5C;
        assert_eq!(t[v], expected);
    }
}

#[test]
fn table_built_twice_agrees() {
    let a = json_quotable_character();
    let b = json_quotable_character();
    assert_eq!(a, b);
}
