use grep_preview::parse::process_arg;

#[test]
fn parses_result_no_drive() {
    let (f, o) = process_arg("foo:10:20: something".to_string()).unwrap();
    assert_eq!(f, "foo");
    assert_eq!(o, 10);
}

#[test]
fn parses_result_with_drive_letter() {
    let (f, o) = process_arg("c:\\foo:10:20: something".to_string()).unwrap();
    assert_eq!(f, "c:\\foo");
    assert_eq!(o, 10);
}

#[test]
fn ignores_trailing_colon() {
    let (f, o) = process_arg("foo:10:20: something:".to_string()).unwrap();
    assert_eq!(f, "foo");
    assert_eq!(o, 10);
}

#[test]
fn ignores_embedded_colons() {
    let (f, o) = process_arg("foo:10:20: some:thing".to_string()).unwrap();
    assert_eq!(f, "foo");
    assert_eq!(o, 10);
}

#[test]
fn returns_none_if_missing_field() {
    assert!(process_arg("foo:10:".to_string()).is_none());
}

#[test]
fn returns_none_if_line_number_nonnumeric() {
    assert!(process_arg("foo:1x:20: something".to_string()).is_none());
}

#[test]
fn parses_zero_line_number() {
    let (f, o) = process_arg("foo:0:0: x".to_string()).unwrap();
    assert_eq!(f, "foo");
    assert_eq!(o, 0);
}

#[test]
fn accepts_plus_signed_line_number() {
    let (f, o) = process_arg("foo:+10:20: something".to_string()).unwrap();
    assert_eq!(f, "foo");
    assert_eq!(o, 10);
}

#[test]
fn returns_none_if_line_number_overflows() {
    assert!(process_arg("foo:99999999999999999999999:20: x".to_string()).is_none());
}

#[test]
fn returns_none_if_line_field_empty() {
    assert!(process_arg("foo::20: something".to_string()).is_none());
}

#[test]
fn returns_none_if_path_empty() {
    // The argument opens with the separator, so the reconstructed path
    // would be empty.
    assert!(process_arg(":10:20: x".to_string()).is_none());
}

#[test]
fn returns_none_on_empty_argument() {
    assert!(process_arg("".to_string()).is_none());
}

#[test]
fn forward_slash_is_no_drive_separator() {
    // The second fragment opens with '/', so no drive prefix is assumed and
    // the supposed line-number field is "/foo".
    assert!(process_arg("c:/foo:10:20: something".to_string()).is_none());
}

#[test]
fn drive_letter_with_exactly_four_fragments() {
    let (f, o) = process_arg("c:\\foo:10:20".to_string()).unwrap();
    assert_eq!(f, "c:\\foo");
    assert_eq!(o, 10);
}

#[test]
fn empty_fragments_still_count() {
    // ":::a" splits into four fragments, but the line field is empty.
    assert!(process_arg(":::a".to_string()).is_none());
}

#[test]
fn drive_letter_line_shift() {
    // With a drive prefix the line number is the third fragment, not the
    // second.
    let (f, o) = process_arg("x:\\dir\\file.rs:7:3: let y = 1;".to_string()).unwrap();
    assert_eq!(f, "x:\\dir\\file.rs");
    assert_eq!(o, 7);
}

#[test]
fn multibyte_first_fragment_is_no_drive() {
    // A one-character first fragment wider than one byte is not a drive
    // letter; the line field is then "\\foo", which is no numeral.
    assert!(process_arg("\u{e9}:\\foo:10:20: something".to_string()).is_none());
}
