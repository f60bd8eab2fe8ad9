use game_core::text::push_decimal;

fn render(v: i32) -> String {
    let mut s = String::new();
    push_decimal(&mut s, v);
    s
}

#[test]
fn decimal_matches_display() {
    for v in [0, 7, 10, 42, 99, 100, 12345, -1, -9, -10, -2024, i32::MAX, i32::MIN] {
        assert_eq!(render(v), v.to_string());
    }
}

#[test]
fn decimal_appends() {
    let mut s = String::from("x=");
    push_decimal(&mut s, -35);
    assert_eq!(s, "x=-35");
}
