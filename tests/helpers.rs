use clickrtraining::label::{label_for, label_for_hash, label_words, peer_address, LABEL_WORD_LEN};
use clickrtraining::message::{classify, Incoming};
use clickrtraining::room_url::build_room_url;

#[test]
fn room_urls() {
    assert_eq!(build_room_url("https", "example.com", 443, "abc", "click"), "https://example.com:443/api/abc/click");
    assert_eq!(build_room_url("wss", "localhost", 8080, "r", "listen"), "wss://localhost:8080/api/r/listen");
    assert_eq!(build_room_url("http", "h", 0, "r", "click"), "http://h/api/r/click");
}

#[test]
fn labels_are_words_of_the_list() {
    let words = label_words().unwrap();
    assert!(!words.is_empty());
    assert!(words.iter().all(|w| w.chars().count() == LABEL_WORD_LEN));
    let a = label_for(&words, "10.0.0.1").unwrap();
    assert!(words.contains(&a));
    assert_ne!(a, "10.0.0.1");
    assert_eq!(label_for(&words, "10.0.0.1").unwrap(), a);
    let b = label_for_hash(&words, 12345).unwrap();
    assert!(words.contains(&b));
    assert_eq!(label_for_hash(&words, 12345).unwrap(), b);
    assert_eq!(label_for(&Vec::new(), "10.0.0.1"), None);
    assert_eq!(label_for_hash(&Vec::new(), 1), None);
}

#[test]
fn peer_addresses() {
    assert_eq!(peer_address(Some(String::from("1.2.3.4")), Some(String::from("5.6.7.8"))), "1.2.3.4");
    assert_eq!(peer_address(None, Some(String::from("5.6.7.8"))), "5.6.7.8");
    assert_eq!(peer_address(None, None), "");
}

#[test]
fn messages() {
    assert_eq!(classify("c"), Incoming::Click);
    assert_eq!(classify("h"), Incoming::Beat);
    assert_eq!(classify("cc"), Incoming::Beat);
    assert_eq!(classify(""), Incoming::Beat);
    assert_eq!(classify("s/bell"), Incoming::Sound(String::from("bell")));
    assert_eq!(classify("s/../bell.ogg"), Incoming::Beat);
    assert_eq!(classify("s/..bell.ogg"), Incoming::Sound(String::from("bellogg")));
    assert_eq!(classify("s/"), Incoming::Sound(String::new()));
    assert_eq!(classify("s/a/b"), Incoming::Beat);
    assert_eq!(classify("x/a"), Incoming::Beat);
}
