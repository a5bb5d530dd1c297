use dhtshare::dht::DHT;

#[test]
fn write_then_read_returns_the_value() {
    let mut d = DHT::new();
    d.insert(String::from("k"), String::from("v"));
    assert_eq!(d.lookup("k"), Some(String::from("v")));
}

#[test]
fn never_stored_key_is_absent() {
    let d = DHT::new();
    assert_eq!(d.lookup("missing"), None);
    let mut d2 = DHT::new();
    d2.insert(String::from("present"), String::from("x"));
    assert_eq!(d2.lookup("absent"), None);
}

#[test]
fn insert_overwrites_existing_key() {
    let mut d = DHT::new();
    d.insert(String::from("k"), String::from("first"));
    d.insert(String::from("k"), String::from("second"));
    assert_eq!(d.lookup("k"), Some(String::from("second")));
}

#[test]
fn distinct_keys_do_not_interfere() {
    let mut d = DHT::new();
    d.insert(String::from("a"), String::from("1"));
    d.insert(String::from("b"), String::from("2"));
    d.insert(String::from("c"), String::from("3"));
    assert_eq!(d.lookup("a"), Some(String::from("1")));
    assert_eq!(d.lookup("b"), Some(String::from("2")));
    assert_eq!(d.lookup("c"), Some(String::from("3")));
}

#[test]
fn empty_key_and_value_are_ordinary_entries() {
    let mut d = DHT::new();
    d.insert(String::from(""), String::from(""));
    assert_eq!(d.lookup(""), Some(String::from("")));
}
