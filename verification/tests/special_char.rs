use marki::SpecialChar;
#[test]
fn count_leading_bytes_empty() {
    assert_eq!(SpecialChar::Asterisk.count_leading_bytes(b""), 0);
}

#[test]
fn count_leading_bytes_none() {
    assert_eq!(SpecialChar::Asterisk.count_leading_bytes(b"abc"), 0);
}

#[test]
fn count_leading_bytes_short_run() {
    assert_eq!(SpecialChar::Backtick.count_leading_bytes(b"``code"), 2);
}

#[test]
fn count_leading_bytes_exact_boundary() {
    // Exactly 16 characters exercises the SSE2 fast-path boundary.
    let input = b"****************";
    assert_eq!(SpecialChar::Asterisk.count_leading_bytes(input), 16);
}

#[test]
fn count_leading_bytes_long_run() {
    let input = vec![SpecialChar::Hash.byte(); 100];
    assert_eq!(SpecialChar::Hash.count_leading_bytes(&input), 100);
}

#[test]
fn count_leading_bytes_partial_chunk() {
    let input = b"*****x**********";
    assert_eq!(SpecialChar::Asterisk.count_leading_bytes(input), 5);
}

#[test]
fn count_leading_bytes_tilde() {
    assert_eq!(SpecialChar::Tilde.count_leading_bytes(b"~~~rust"), 3);
}
