use peek_seek::{ByteSection, PeekSeek};

#[test]
fn byte_section_basic_section_test() {
    let input = "hello world";
    let mut s = ByteSection::new(input.as_bytes());
    assert_eq!(&s.src[s.n..], s.slice_to_end());
    assert_eq!(&s.src[s.n..], &s[s.n..]);
    assert_eq!(&s[s.n..], input.as_bytes());
    assert_eq!(s.peek(), Some(b'h'));
    assert_eq!(s.next(), Some(b'h'));
    assert_eq!(s.n, 1);
    assert_eq!(&s.src[..s.n], b"h");
    for _ in 0..4 {
        s.next();
    }
    assert_eq!(s.peek(), Some(b' '));
    for _ in 0..10 {
        s.next();
    }
    assert_eq!(s.peek(), None);
    assert_eq!(s.n, input.len());
    assert_eq!(&s.src[..s.n], input.as_bytes());
    assert_eq!(s.src, input.as_bytes());
    assert_eq!(&s.src[s.n..], b"");
}

#[test]
fn skip_until_target_stops_before_space() {
    let mut s = ByteSection::new(b"hello world");
    assert_eq!(s.skip_until_target(b' '), 5);
    assert_eq!(s.n, 5);
    assert_eq!(s.peek(), Some(b' '));
}

#[test]
fn skip_until_target_absent_runs_to_end() {
    let mut s = ByteSection::new(b"hello");
    assert_eq!(s.skip_until_target(b'z'), 5);
    assert_eq!(s.n, 5);
    assert!(s.is_empty());
}

fn both_paths(src: &[u8], start: usize, target: u8) -> ((usize, usize), (usize, usize)) {
    let mut fast = ByteSection::new(src);
    fast.skip(start);
    let mut slow = ByteSection::new(src);
    slow.skip(start);
    let a = fast.skip_until_target(target);
    let b = slow.skip_until_fallback(target);
    ((a, fast.n), (b, slow.n))
}

#[test]
fn target_search_paths_agree() {
    let long: Vec<u8> = (0..100u8).collect();
    let cases: Vec<(&[u8], usize, u8)> = vec![
        (b"hello world", 0, b' '),
        (b"hello world", 0, b'h'),
        (b"hello world", 0, b'd'),
        (b"hello world", 0, b'z'),
        (b"hello world", 11, b'h'),
        (b"hello world", 3, b'o'),
        (b"", 0, b'a'),
        (&long, 0, 99),
        (&long, 0, 17),
        (&long, 20, 17),
        (&long, 5, 200),
    ];
    for (src, start, target) in cases {
        let (fast, slow) = both_paths(src, start, target);
        assert_eq!(fast, slow);
    }
    assert_eq!(both_paths(&long, 0, 99).0, (99, 99));
    assert_eq!(both_paths(&long, 20, 17).0, (80, 100));
    assert_eq!(both_paths(&long, 0, 17).0, (17, 17));
}

#[test]
fn take_clamps_to_remaining() {
    let mut s = ByteSection::new(b"abcdef");
    assert_eq!(s.take(2), b"ab");
    assert_eq!(s.n, 2);
    assert_eq!(s.take(10), b"cdef");
    assert_eq!(s.n, 6);
    assert_eq!(s.take(3), b"");
    assert_eq!(s.slice_from_start(), b"abcdef");
    assert_eq!(s.slice_to_end(), b"");
}

#[test]
fn skip_returns_count_advanced() {
    let mut s = ByteSection::new(b"abcdef");
    assert_eq!(s.skip(4), 4);
    assert_eq!(s.n, 4);
    assert_eq!(s.skip(4), 2);
    assert_eq!(s.n, 6);
    assert_eq!(s.skip(4), 0);
    assert_eq!(s.next(), None);
    assert_eq!(s.n, 6);
}

#[test]
fn skip_until_predicate_on_bytes() {
    let mut s = ByteSection::new(b"   let x");
    assert_eq!(s.skip_until(|c| c != b' '), 3);
    assert_eq!(s.peek(), Some(b'l'));
    assert_eq!(s.skip_until(|c| c == b'!'), 5);
    assert!(s.is_empty());
    assert_eq!(s.skip_until(|_| false), 0);
}

#[test]
fn check_and_peek_next_on_bytes() {
    let mut s = ByteSection::new(b"ab");
    assert!(!s.check_next(b'b'));
    assert_eq!(s.n, 0);
    assert!(s.peek_next(b'a'));
    assert_eq!(s.n, 0);
    assert!(s.check_next(b'a'));
    assert_eq!(s.n, 1);
    assert!(s.peek_next_pattern(|c| c == b'b'));
    assert!(!s.check_next_pattern(|c| c == b'x'));
    assert!(s.check_next_pattern(|c| c.is_ascii_lowercase()));
    assert!(!s.check_next(b'a'));
    assert!(!s.peek_next_pattern(|_| true));
    assert_eq!(s.n, 2);
}

#[test]
fn index_reads_from_absolute_start() {
    let mut s = ByteSection::new(b"hello");
    s.skip(3);
    assert_eq!(s[0], b'h');
    assert_eq!(&s[1..3], b"el");
    assert_eq!(&s[..2], b"he");
    assert_eq!(&s[..], b"hello");
}

#[test]
fn peek_then_next_agree_on_bytes() {
    let mut s = ByteSection::new(b"xyz");
    while !s.is_empty() {
        let before = s.n;
        let p = s.peek();
        assert_eq!(s.next(), p);
        assert_eq!(s.n, before + 1);
    }
    assert_eq!(s.peek(), None);
    assert_eq!(s.next(), None);
    assert_eq!(s.n, 3);
}
