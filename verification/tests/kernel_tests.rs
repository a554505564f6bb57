use sparser::sparser_kernels::{ffs, memmem, search, search_epi16, search_epi32, search_epi8};

fn window32(text: &str) -> Vec<u8> {
    let mut v = text.as_bytes().to_vec();
    v.truncate(32);
    v.resize(32, 0);
    v
}

#[test]
fn test_ffs() {
    assert!(ffs(1) == 1);
    assert!(ffs(16) == 5);
    assert!(ffs(64) == 7);
}

#[test]
fn test_ffs_zero_and_high_bits() {
    assert_eq!(ffs(0), 0);
    assert_eq!(ffs(2), 2);
    assert_eq!(ffs(3), 1);
    assert_eq!(ffs(i32::MIN), 32);
}

#[test]
fn test_search_epi32() {
    let req = window32("an i an interactive reference tool ");
    let base = window32("an ian ian ian ian ian ian ian i");
    let result = search_epi32(&req, &base);
    assert_eq!(result, 1);
}

#[test]
fn test_search_epi8() {
    let req = window32("an i an interactive reference tool ");
    let base = window32("nnnnnnnnnnnnnnnnnnnnnnnnnnnnnnnnnnnnn");
    let result = search_epi8(&req, &base);
    assert_eq!(result, 4);
}

#[test]
fn test_search_epi16() {
    let req = window32("an i an interactive reference tool ");
    let base = window32(&"an".repeat(16));
    let result = search_epi16(&req, &base);
    assert_eq!(result, 1);
}

#[test]
fn test_search_window_dispatch() {
    let reg = window32("an i an interactive reference to");
    // Four-byte needle at an aligned position.
    assert!(search(&reg, &b"an i".to_vec()));
    // "n i " starts at offset 1: present, but at no 4-aligned position.
    assert!(!search(&reg, &b"n i ".to_vec()));
    // Single byte anywhere.
    assert!(search(&reg, &b"v".to_vec()));
    assert!(!search(&reg, &b"z".to_vec()));
    // Two-byte needle at an even position.
    assert!(search(&reg, &b"an".to_vec()));
    // Unsupported width never matches.
    assert!(!search(&reg, &b"an int".to_vec()));
}

#[test]
fn test_memmem_finds_word() {
    let hay = b"hello world\n".to_vec();
    assert!(memmem(&hay, &b"world".to_vec()));
    assert!(!memmem(&hay, &b"xxxx".to_vec()));
}

#[test]
fn test_memmem_alignment_independent() {
    let hay = b"abcabcabcabcabcabcabcabcabcabcabc".to_vec();
    assert!(!memmem(&hay, &b"abcd".to_vec()));
    let hay2 = b"the quick brown fox jumps over lazy".to_vec();
    assert!(memmem(&hay2, &b"lazy".to_vec()));
}

#[test]
fn test_memmem_kernel_widths() {
    let hay = b"abcdefgh".to_vec();
    assert!(memmem(&hay, &b"a".to_vec()));
    assert!(memmem(&hay, &b"h".to_vec()));
    assert!(memmem(&hay, &b"de".to_vec()));
    assert!(memmem(&hay, &b"cdef".to_vec()));
    assert!(!memmem(&hay, &b"ba".to_vec()));
    // Needle longer than the haystack.
    assert!(!memmem(&b"ab".to_vec(), &b"abcd".to_vec()));
    // A needle at the very end, at an odd offset.
    assert!(memmem(&b"xabcd".to_vec(), &b"abcd".to_vec()));
}
