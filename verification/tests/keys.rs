use home_env_post::codec::{decode_key_set, encode_key_set};
use home_env_post::keyset::{KeyEntry, KeySet};

fn entry(kid: &str, alg: &str, material: &str) -> KeyEntry {
    KeyEntry {
        kid: kid.as_bytes().to_vec(),
        alg: alg.as_bytes().to_vec(),
        material: material.as_bytes().to_vec(),
    }
}

fn set_of(entries: Vec<KeyEntry>) -> KeySet {
    let mut ks = KeySet::new();
    for e in entries {
        ks.insert(e);
    }
    ks
}

#[test]
fn merge_disjoint_adds_sizes() {
    let a = set_of(vec![entry("k1", "RS256", "m1"), entry("k2", "RS256", "m2")]);
    let b = set_of(vec![entry("k3", "RS256", "m3")]);
    let m = a.merge(&b);
    assert_eq!(m.len(), a.len() + b.len());
    assert!(m.contains_kid(&b"k1".to_vec()));
    assert!(m.contains_kid(&b"k3".to_vec()));
}

#[test]
fn merge_repeated_identifier_replaces() {
    let a = set_of(vec![entry("k1", "RS256", "old"), entry("k2", "RS256", "m2")]);
    let b = set_of(vec![entry("k1", "RS256", "new")]);
    let m = a.merge(&b);
    assert_eq!(m.len(), a.len());
    let i = m.find(&b"k1".to_vec()).unwrap();
    assert_eq!(m.entry_at(i).material, b"new".to_vec());
}

#[test]
fn insert_overwrites_same_identifier() {
    let mut ks = KeySet::new();
    ks.insert(entry("k1", "RS256", "one"));
    ks.insert(entry("k1", "RS256", "two"));
    assert_eq!(ks.len(), 1);
    let i = ks.find(&b"k1".to_vec()).unwrap();
    assert_eq!(ks.entry_at(i).material, b"two".to_vec());
}

#[test]
fn save_load_round_trip() {
    let ks = set_of(vec![
        entry("alpha", "RS256", "MIIBIjANBg"),
        entry("beta", "RS256", "AQAB"),
    ]);
    let bytes = encode_key_set(&ks);
    let back = decode_key_set(&bytes).unwrap();
    assert_eq!(back.len(), ks.len());
    for i in 0..ks.len() {
        assert_eq!(back.entry_at(i).kid, ks.entry_at(i).kid);
        assert_eq!(back.entry_at(i).alg, ks.entry_at(i).alg);
        assert_eq!(back.entry_at(i).material, ks.entry_at(i).material);
    }
}

#[test]
fn empty_set_round_trip() {
    let ks = KeySet::new();
    let bytes = encode_key_set(&ks);
    let back = decode_key_set(&bytes).unwrap();
    assert_eq!(back.len(), 0);
}

#[test]
fn encoding_is_readable_json() {
    let ks = set_of(vec![entry("k1", "RS256", "m1")]);
    let text = String::from_utf8(encode_key_set(&ks)).unwrap();
    assert!(text.starts_with("{\n  \"keys\": ["));
    assert!(text.contains("\"kid\": \"k1\""));
    assert!(text.contains("\"alg\": \"RS256\""));
    assert!(text.contains("\"material\": \"m1\""));
    assert!(text.ends_with("}\n"));
}

#[test]
fn malformed_content_fails_to_parse() {
    assert!(decode_key_set(&b"".to_vec()).is_err());
    assert!(decode_key_set(&b"not json at all".to_vec()).is_err());
    assert!(decode_key_set(&b"{}".to_vec()).is_err());
    let ks = set_of(vec![entry("k1", "RS256", "m1")]);
    let mut truncated = encode_key_set(&ks);
    truncated.pop();
    assert!(decode_key_set(&truncated).is_err());
    let mut extended = encode_key_set(&ks);
    extended.push(b' ');
    assert!(decode_key_set(&extended).is_err());
}
