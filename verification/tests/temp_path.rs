use fd_passing::temp_path::{joined, with_number, with_random};

#[test]
fn name_with_number() {
    assert_eq!(with_number("test", 0), "test_0000000000000000");
    assert_eq!(with_number("test", 0x0123_4567_89ab_cdef), "test_0123456789abcdef");
    assert_eq!(with_number("", u64::MAX), "_ffffffffffffffff");
    assert_ne!(with_number("test", 1), with_number("test", 16));
}

#[test]
fn temp_path_buf_random() {
    let fname = with_random("test");
    assert!(fname.starts_with("test_"));
    assert_eq!(fname.len(), 21);
}

#[test]
fn random_names_differ() {
    assert_ne!(with_random("test"), with_random("test"));
}

#[test]
fn temp_path_buf_non_random() {
    let sock = joined(b"/tmp", b"test");
    assert_eq!(sock, b"/tmp/test");
}

#[test]
fn names_stay_in_the_directory() {
    assert_eq!(joined(b"/tmp", b"/etc/test"), b"/tmp//etc/test");
    assert_eq!(joined(b"", b""), b"/");
}
