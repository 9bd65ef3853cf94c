use sgf_reader::codec::char2int;

#[test]
fn it_works() {
    assert_eq!(2 + 2, 4);
}

#[test]
fn library_is_linked() {
    assert_eq!(char2int('a'), Ok(0));
}
