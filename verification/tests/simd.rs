use marki::simd::{ByteSet, ByteSliceExt};
#[test]
fn byte_set_find_basic() {
    let set = ByteSet::new(b"*_[\n");
    let input = b"hello world *bold*";
    assert_eq!(input.find_byte_set(0, &set), Some(12));
}

#[test]
fn byte_set_find_at_offset() {
    let set = ByteSet::new(b"*_");
    let input = b"hello *world* _foo_";
    assert_eq!(input.find_byte_set(7, &set), Some(12));
}

#[test]
fn byte_set_none() {
    let set = ByteSet::new(b"*_");
    let input = b"hello world";
    assert_eq!(input.find_byte_set(0, &set), None);
}

#[test]
fn byte_set_empty_input() {
    let set = ByteSet::new(b"*");
    assert_eq!(b"".find_byte_set(0, &set), None);
}

#[test]
fn byte_set_offset_past_end() {
    let set = ByteSet::new(b"*");
    assert_eq!(b"hello".find_byte_set(10, &set), None);
}

#[test]
fn find_single_byte() {
    let input = b"hello world\nfoo";
    assert_eq!(input.find_byte(0, b'\n'), Some(11));
    assert_eq!(input.find_byte(12, b'\n'), None);
}

#[test]
fn byte_set_long_input() {
    // Ensure SIMD path works across multiple 16-byte chunks.
    let mut input = [b'a'; 100];
    input[67] = b'*';
    let set = ByteSet::new(b"*_");
    assert_eq!(input.find_byte_set(0, &set), Some(67));
    assert_eq!(input.find_byte_set(68, &set), None);
}

#[test]
fn byte_set_all_8_needles() {
    let set = ByteSet::new(b"\n*_[!\\`]");
    let input = b"abcdefghijklmnop]qrs";
    assert_eq!(input.find_byte_set(0, &set), Some(16));
}

#[test]
fn byte_set_first_byte() {
    let set = ByteSet::new(b"*");
    assert_eq!(b"*hello".find_byte_set(0, &set), Some(0));
}

#[test]
fn byte_set_last_byte() {
    let set = ByteSet::new(b"*");
    assert_eq!(b"hello*".find_byte_set(0, &set), Some(5));
}
