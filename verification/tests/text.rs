use qproj::text::TextUtils;

#[test]
fn test_wrap_text() {
    let mut text = (0..100).map(|_| "a ").collect::<String>();
    println!("{}", text.wrap_text(80, 5));
    let text = "type `bevy_platform::time::Instant` did not register the `ReflectSerialize` or `ReflectSerializeWithRegistry` type data. For certain types, this may need to be registered manually using `register_type_data` (stack: `bevy_time::time::Time<bevy_time::real::Real>` -> `bevy_time::real::Real` -> `bevy_platform::time::Instant`)";
    println!("{}", text.to_string().wrap_text(80, 5));
}

#[test]
fn wrap_breaks_at_the_last_whitespace_once_over_tolerance() {
    let mut text = String::from("aaa bbb ccc");
    text.wrap_text(4, 0);
    assert_eq!(text, "aaa\nbbb\nccc");
}

#[test]
fn wrap_breaks_at_whitespace_within_tolerance() {
    let mut text = String::from("aaa bbb ccc");
    text.wrap_text(4, 5);
    assert_eq!(text, "aaa bbb\nccc");
}

#[test]
fn wrap_keeps_short_lines_and_existing_breaks() {
    let mut text = String::from("ab\ncd");
    text.wrap_text(10, 0);
    assert_eq!(text, "ab\ncd");
}

#[test]
fn wrap_without_whitespace_breaks_at_the_start() {
    let mut text = String::from("abcdef");
    text.wrap_text(2, 0);
    assert_eq!(text, "\nbcdef");
}

#[test]
fn wrap_returns_the_text() {
    let mut text = String::from("aaa bbb ccc");
    let wrapped = text.wrap_text(4, 0).clone();
    assert_eq!(wrapped, text);
    assert_eq!(wrapped.len(), 11);
}

#[test]
fn non_ascii_text_is_wrapped_by_characters() {
    let mut text = "héé wörld".to_string();
    text.wrap_text(80, 0);
    assert_eq!(text, "héé wörld");
    let mut text = "héé wörld".to_string();
    text.wrap_text(3, 0);
    assert_eq!(text, "héé\nwörld");
}

#[test]
fn a_huge_length_leaves_the_text_unchanged() {
    let mut text = "a b c d e f".to_string();
    text.wrap_text(usize::MAX, 0);
    assert_eq!(text, "a b c d e f");
}
