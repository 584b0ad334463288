use protohackers::database::{parse_request, write_request, Database, Request, TooLong};

fn insert(key: &[u8], value: &[u8]) -> Request {
    Request { key: key.to_vec(), value: Some(value.to_vec()) }
}

fn retrieve(key: &[u8]) -> Request {
    Request { key: key.to_vec(), value: None }
}

#[test]
fn requests_are_split_at_the_first_equals() {
    assert_eq!(parse_request(b"foo=bar"), insert(b"foo", b"bar"));
    assert_eq!(parse_request(b"foo=bar=baz"), insert(b"foo", b"bar=baz"));
    assert_eq!(parse_request(b"foo="), insert(b"foo", b""));
    assert_eq!(parse_request(b"foo==="), insert(b"foo", b"=="));
    assert_eq!(parse_request(b"=foo"), insert(b"", b"foo"));
    assert_eq!(parse_request(b"="), insert(b"", b""));
    assert_eq!(parse_request(b"foo"), retrieve(b"foo"));
    assert_eq!(parse_request(b""), retrieve(b""));
}

#[test]
fn answers_are_key_equals_value() {
    assert_eq!(write_request(b"foo", b"bar"), Ok(b"foo=bar".to_vec()));
    assert_eq!(write_request(b"", b""), Ok(b"=".to_vec()));
    assert_eq!(write_request(b"k", b"a=b"), Ok(b"k=a=b".to_vec()));
    let key = vec![b'k'; 499];
    let value = vec![b'v'; 500];
    assert_eq!(write_request(&key, &value).unwrap().len(), 1000);
    let value = vec![b'v'; 501];
    assert_eq!(write_request(&key, &value), Err(TooLong));
    assert_eq!(write_request(&vec![0; 1001], b""), Err(TooLong));
}

#[test]
fn values_are_stored_and_given_back() {
    let mut database = Database::new(b"store 1.0".to_vec());
    assert_eq!(database.handle(retrieve(b"foo")), None);
    assert_eq!(database.handle(insert(b"foo", b"bar")), None);
    assert_eq!(database.handle(retrieve(b"foo")), Some((b"foo".to_vec(), b"bar".to_vec())));
    assert_eq!(database.handle(insert(b"foo", b"baz")), None);
    assert_eq!(database.handle(insert(b"", b"empty key")), None);
    assert_eq!(database.handle(insert(b"other", b"")), None);
    assert_eq!(database.handle(retrieve(b"foo")), Some((b"foo".to_vec(), b"baz".to_vec())));
    assert_eq!(database.handle(retrieve(b"")), Some((b"".to_vec(), b"empty key".to_vec())));
    assert_eq!(database.handle(retrieve(b"other")), Some((b"other".to_vec(), b"".to_vec())));
    assert_eq!(database.handle(retrieve(b"fo")), None);
}

#[test]
fn version_cannot_be_set() {
    let mut database = Database::new(b"store 1.0".to_vec());
    assert_eq!(
        database.handle(retrieve(b"version")),
        Some((b"version".to_vec(), b"store 1.0".to_vec()))
    );
    assert_eq!(database.handle(insert(b"version", b"mine")), None);
    assert_eq!(
        database.handle(parse_request(b"version")),
        Some((b"version".to_vec(), b"store 1.0".to_vec()))
    );
    assert_eq!(database.handle(insert(b"versio", b"n")), None);
    assert_eq!(database.handle(retrieve(b"versio")), Some((b"versio".to_vec(), b"n".to_vec())));
}
