use home_env_post::cache::{
    make_system_identity, CacheAction, FetchOutcome, KeySetCache,
};
use home_env_post::codec::encode_key_set;
use home_env_post::credential::{Credential, VerificationError};
use home_env_post::keyset::{KeyEntry, KeySet};

fn entry(kid: &str, alg: &str, material: &str) -> KeyEntry {
    KeyEntry {
        kid: kid.as_bytes().to_vec(),
        alg: alg.as_bytes().to_vec(),
        material: material.as_bytes().to_vec(),
    }
}

#[test]
fn cache_miss_fetches_twice_and_saves_once() {
    let email = b"robot@example.gserviceaccount.com".to_vec();
    let (mut cache, first) = KeySetCache::new(email.clone());
    assert!(matches!(first, CacheAction::ReadCache));

    let mut fetches: Vec<Vec<u8>> = Vec::new();
    let mut writes = 0;

    let a = cache.on_cache_read(None);
    let identity = match a {
        CacheAction::Fetch { identity } => identity,
        _ => panic!("expected a fetch after a missing cache file"),
    };
    fetches.push(identity);
    let a = cache.on_fetch(FetchOutcome::Fetched(vec![entry("k1", "RS256", "m1")]));
    let identity = match a {
        CacheAction::Fetch { identity } => identity,
        _ => panic!("expected the second fetch"),
    };
    fetches.push(identity);
    let a = cache.on_fetch(FetchOutcome::Fetched(vec![entry("k2", "RS256", "m2")]));
    let content = match a {
        CacheAction::WriteCache { content } => content,
        _ => panic!("expected the write-back"),
    };
    writes += 1;
    let a = cache.on_save(true);
    assert!(matches!(a, CacheAction::Finish));

    assert_eq!(fetches.len(), 2);
    assert_eq!(fetches[0], email);
    assert_eq!(fetches[1], make_system_identity());
    assert_eq!(writes, 1);

    let (keys, write_failed) = cache.into_result().unwrap();
    assert!(!write_failed);
    assert_eq!(keys.len(), 2);
    assert!(keys.contains_kid(&b"k1".to_vec()));
    assert!(keys.contains_kid(&b"k2".to_vec()));
    assert_eq!(content, encode_key_set(&keys));
}

#[test]
fn cache_hit_fetches_nothing() {
    let mut ks = KeySet::new();
    ks.insert(entry("k9", "RS256", "m9"));
    let bytes = encode_key_set(&ks);

    let (mut cache, _) = KeySetCache::new(b"robot@example".to_vec());
    let a = cache.on_cache_read(Some(bytes));
    assert!(matches!(a, CacheAction::Finish));
    let (keys, write_failed) = cache.into_result().unwrap();
    assert!(!write_failed);
    assert_eq!(keys.len(), 1);
    assert!(keys.contains_kid(&b"k9".to_vec()));
}

#[test]
fn unparseable_cache_file_refetches_like_a_missing_one() {
    let (mut cache, _) = KeySetCache::new(b"robot@example".to_vec());
    let a = cache.on_cache_read(Some(b"{ truncated".to_vec()));
    match a {
        CacheAction::Fetch { identity } => assert_eq!(identity, b"robot@example".to_vec()),
        _ => panic!("an unparseable cache file must trigger the fetches"),
    }
}

#[test]
fn failed_fetch_is_fatal() {
    let (mut cache, _) = KeySetCache::new(b"robot@example".to_vec());
    cache.on_cache_read(None);
    let a = cache.on_fetch(FetchOutcome::NetworkFailed);
    assert!(matches!(a, CacheAction::Finish));
    assert!(cache.into_result().is_err());
}

#[test]
fn failed_write_back_still_yields_the_merged_set() {
    let (mut cache, _) = KeySetCache::new(b"robot@example".to_vec());
    cache.on_cache_read(None);
    cache.on_fetch(FetchOutcome::Fetched(vec![entry("k1", "RS256", "m1")]));
    cache.on_fetch(FetchOutcome::Fetched(vec![entry("k2", "RS256", "m2")]));
    cache.on_save(false);
    let (keys, write_failed) = cache.into_result().unwrap();
    assert!(write_failed);
    assert_eq!(keys.len(), 2);
}

#[test]
fn duplicate_identifier_across_providers_is_replaced_not_appended() {
    let (mut cache, _) = KeySetCache::new(b"robot@example".to_vec());
    cache.on_cache_read(None);
    cache.on_fetch(FetchOutcome::Fetched(vec![entry("shared", "RS256", "service")]));
    cache.on_fetch(FetchOutcome::Fetched(vec![entry("shared", "RS256", "system")]));
    cache.on_save(true);
    let (keys, _) = cache.into_result().unwrap();
    assert_eq!(keys.len(), 1);
    let i = keys.find(&b"shared".to_vec()).unwrap();
    assert_eq!(keys.entry_at(i).material, b"system".to_vec());
}

#[test]
fn verify_checks_in_order() {
    let mut ks = KeySet::new();
    ks.insert(entry("kid1", "RS256", "m"));

    let mut good = Credential::new(
        b"robot@example.gserviceaccount.com".to_vec(),
        b"kid1".to_vec(),
        b"PRIVATE".to_vec(),
    );
    good.add_public_keys(&ks);
    assert_eq!(good.verify(), Ok(()));

    let bad_identity = Credential::new(b"no-at-sign".to_vec(), b"kid1".to_vec(), b"P".to_vec());
    assert_eq!(bad_identity.verify(), Err(VerificationError::Identity));

    let mut no_key = Credential::new(b"a@b".to_vec(), b"other".to_vec(), b"P".to_vec());
    no_key.add_public_keys(&ks);
    assert_eq!(no_key.verify(), Err(VerificationError::NoMatchingKey));
}

#[test]
fn empty_private_key_never_verifies() {
    let mut ks = KeySet::new();
    ks.insert(entry("kid1", "RS256", "m"));
    let mut cred = Credential::new(b"a@b".to_vec(), b"kid1".to_vec(), Vec::new());
    cred.add_public_keys(&ks);
    assert_eq!(cred.verify(), Err(VerificationError::MissingPrivateKey));

    let empty_keys = Credential::new(b"a@b".to_vec(), b"kid1".to_vec(), Vec::new());
    assert!(empty_keys.verify().is_err());
}
