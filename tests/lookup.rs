use std::cmp::Ordering;
use symbol_names::encode::encode_name_list;
use symbol_names::lookup::{find_names, locate};
use symbol_names::order::compare_bytes;

fn pair(name: &str, value: &str) -> (String, String) {
    (name.to_string(), value.to_string())
}

fn table(entries: &[(&[u8], &[u8])]) -> Vec<(Vec<u8>, Vec<u8>)> {
    entries.iter().map(|(v, n)| (v.to_vec(), n.to_vec())).collect()
}

#[test]
fn compare_orders_bytes_lexicographically() {
    assert_eq!(compare_bytes(b"a", b"b"), Ordering::Less);
    assert_eq!(compare_bytes(b"b", b"a"), Ordering::Greater);
    assert_eq!(compare_bytes(b"ab", b"ab"), Ordering::Equal);
    assert_eq!(compare_bytes(b"ab", b"abc"), Ordering::Less);
    assert_eq!(compare_bytes(b"", b""), Ordering::Equal);
    assert_eq!(compare_bytes(b"\xff", b"\x01\x02"), Ordering::Greater);
}

#[test]
fn lookup_on_empty_table_is_empty() {
    let t: Vec<(Vec<u8>, Vec<u8>)> = Vec::new();
    assert!(find_names(b"x", &t).is_empty());
    assert!(find_names(b"", &t).is_empty());
}

#[test]
fn lookup_finds_first_and_last_entries() {
    let t = table(&[(b"a", b"first"), (b"c", b"mid"), (b"e", b"last")]);
    assert_eq!(find_names(b"a", &t), b"first".to_vec());
    assert_eq!(find_names(b"c", &t), b"mid".to_vec());
    assert_eq!(find_names(b"e", &t), b"last".to_vec());
}

#[test]
fn lookup_between_entries_is_empty() {
    let t = table(&[(b"a", b"first"), (b"c", b"mid"), (b"e", b"last")]);
    assert!(find_names(b"b", &t).is_empty());
    assert!(find_names(b"d", &t).is_empty());
    assert!(find_names(b"f", &t).is_empty());
    assert!(find_names(b"", &t).is_empty());
    assert!(find_names(b"ab", &t).is_empty());
}

#[test]
fn locate_gives_insertion_point() {
    let t = table(&[(b"a", b"1"), (b"c", b"2")]);
    assert_eq!(locate(b"c", &t), Ok(1));
    assert_eq!(locate(b"b", &t), Err(1));
    assert_eq!(locate(b"0", &t), Err(0));
    assert_eq!(locate(b"z", &t), Err(2));
}

#[test]
fn encoding_groups_by_value_and_sorts() {
    let pairs = vec![
        pair("beta", "β"),
        pair("alpha", "α"),
        pair("alt", "α"),
        pair("a", "a"),
    ];
    let t = encode_name_list(&pairs);
    assert_eq!(t.len(), 3);
    assert_eq!(t[0], (b"a".to_vec(), b"a".to_vec()));
    assert_eq!(t[1], ("α".as_bytes().to_vec(), b"alpha\0alt".to_vec()));
    assert_eq!(t[2], ("β".as_bytes().to_vec(), b"beta".to_vec()));
}

#[test]
fn encoded_values_strictly_increase() {
    let pairs = vec![pair("z", "zz"), pair("y", "z"), pair("x", "a"), pair("w", "z"), pair("v", "")];
    let t = encode_name_list(&pairs);
    for w in t.windows(2) {
        assert!(w[0].0 < w[1].0);
    }
    assert_eq!(t.len(), 4);
    assert_eq!(t[0], (Vec::new(), b"v".to_vec()));
    assert_eq!(t[2], (b"z".to_vec(), b"y\0w".to_vec()));
}

#[test]
fn encoding_is_idempotent() {
    let pairs = vec![pair("b", "2"), pair("a", "1"), pair("c", "2")];
    assert_eq!(encode_name_list(&pairs), encode_name_list(&pairs));
}

#[test]
fn encoding_of_nothing_is_empty() {
    assert!(encode_name_list(&Vec::new()).is_empty());
}

#[test]
fn every_pair_round_trips() {
    let pairs = vec![
        pair("arrow.r", "→"),
        pair("arrow.l", "←"),
        pair("to", "→"),
        pair("gets", "←"),
        pair("dot", "⋅"),
    ];
    let t = encode_name_list(&pairs);
    for (name, value) in &pairs {
        let blob = find_names(value.as_bytes(), &t);
        assert!(blob.split(|b| *b == 0).any(|n| n == name.as_bytes()));
    }
    assert_eq!(find_names("→".as_bytes(), &t), b"arrow.r\0to".to_vec());
}
