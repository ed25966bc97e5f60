use json_reader::LevelReader;

#[test]
fn level_reader() {
    let mut r = LevelReader::new("{\"Records\":[{},{}]}".as_bytes().to_vec(), 2);

    assert_eq!(r.next().unwrap().unwrap(), "{}".as_bytes());
    assert_eq!(r.next().unwrap().unwrap(), "{}".as_bytes());
    assert!(r.next().is_none());
}
