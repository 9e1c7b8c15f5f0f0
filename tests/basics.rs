use peek_seek::ByteSection;

#[test]
fn it_works() {
    assert_eq!(2 + 2, 4);
    let _ = ByteSection::new(b"");
}
