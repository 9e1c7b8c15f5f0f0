use peek_seek::{ByteSection, CharSection, FalliblePeekSeek, PeekSeek, ScanError};

#[test]
fn char_section_basic_section_test() {
    let input = "hello world";
    let mut s = CharSection::new(input);
    assert_eq!(s.after(), input);
    assert_eq!(s.peek(), Some('h'));
    assert_eq!(s.next(), Some('h'));
    assert_eq!(s.n, 1);
    assert_eq!(&s.s[..s.n], "h");
    for _ in 0..4 {
        s.next();
    }
    assert_eq!(s.peek(), Some(' '));
    for _ in 0..10 {
        s.next();
    }
    assert_eq!(s.peek(), None);
    assert_eq!(s.n, input.len());
    assert_eq!(&s.s[..s.n], input);
    assert_eq!(s.after(), "");
}

#[test]
fn multibyte_char_advances_by_its_width() {
    let mut s = CharSection::new("éa");
    assert_eq!(s.next(), Some('é'));
    assert_eq!(s.n, 2);
    assert_eq!(s.peek(), Some('a'));
    assert_eq!(s.after(), "a");
}

#[test]
fn positions_follow_encoded_widths() {
    let input = "a\u{e9}\u{20ac}\u{1f600}b";
    let mut s = CharSection::new(input);
    let mut seen = 0;
    while let Some(c) = s.next() {
        seen += c.len_utf8();
        assert_eq!(s.n, seen);
        assert!(input.is_char_boundary(s.n));
        assert_eq!(&input[s.n..], s.after());
    }
    assert_eq!(s.n, input.len());
    assert!(s.is_empty());
}

#[test]
fn char_skip_and_skip_until() {
    let mut s = CharSection::new("ab\u{e9}cd");
    assert_eq!(s.skip(2), 2);
    assert_eq!(s.n, 2);
    assert_eq!(s.skip_until(|c| c == 'd'), 2);
    assert_eq!(s.n, 5);
    assert_eq!(s.peek(), Some('d'));
    assert_eq!(s.skip(10), 1);
    assert_eq!(s.skip(10), 0);
    assert_eq!(s.next(), None);
    assert_eq!(s.n, 6);
}

#[test]
fn expect_next_matches_and_mismatches() {
    let mut s = CharSection::new("hello");
    assert_eq!(s.expect_next('h'), Ok('h'));
    let mut t = CharSection::new("hello");
    assert_eq!(t.expect_next('x'), Err(ScanError::Unexpected('h')));
    let mut e = CharSection::new("");
    assert_eq!(e.expect(), Err(ScanError::EndOfInput));
    assert_eq!(e.expect_next('h'), Err(ScanError::EndOfInput));
}

#[test]
fn expect_and_pattern_consume() {
    let mut s = CharSection::new("ab");
    assert_eq!(s.expect(), Ok('a'));
    assert_eq!(s.expect_next_pattern(|c| c == 'z'), Err(ScanError::Unexpected('b')));
    assert_eq!(s.n, 2);
    assert_eq!(s.expect(), Err(ScanError::EndOfInput));
    let mut t = CharSection::new("q");
    assert_eq!(t.expect_next_pattern(|c| c.is_alphabetic()), Ok('q'));
    assert!(t.is_empty());
}

#[test]
fn byte_expect_reports_errors() {
    let mut s = ByteSection::new(b"hi");
    assert_eq!(s.expect_next(b'h'), Ok(b'h'));
    assert_eq!(s.expect_next(b'x'), Err(ScanError::Unexpected(b'i')));
    assert_eq!(s.n, 2);
    assert_eq!(s.expect(), Err(ScanError::EndOfInput));
    assert_eq!(s.expect_next_pattern(|_| true), Err(ScanError::EndOfInput));
}
