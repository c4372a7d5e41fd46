use sha2::Digest;
use ayame_spell::registry_lock::{
    hex, registry_cache_path, resolve, split_reference, verify_digest, LockedDictionary,
    RegistryLock,
};

fn locked(name: &str, version: &str) -> LockedDictionary {
    LockedDictionary {
        name: name.to_string(),
        version: version.to_string(),
        sha256: "ab".repeat(32),
        file: format!("dicts/{name}.txt"),
    }
}

#[test]
fn references_split_at_the_last_at_sign() {
    assert_eq!(split_reference("fixture@1.2.0"), ("fixture", Some("1.2.0")));
    assert_eq!(split_reference("fixture"), ("fixture", None));
    assert_eq!(split_reference("a@b@c"), ("a@b", Some("c")));
}

#[test]
fn lockfiles_are_sorted_and_deduplicated_before_saving() {
    let mut lock = RegistryLock::default();
    lock.upsert(locked("z-last", "1.0.0"));
    lock.upsert(locked("a-first", "1.2.0"));
    lock.upsert(locked("z-last", "2.0.0"));
    assert_eq!(lock.dictionaries.len(), 2);
    lock.prepare_save();
    let names: Vec<&str> = lock.dictionaries.iter().map(|d| d.name.as_str()).collect();
    assert_eq!(names, ["a-first", "z-last"]);
    assert_eq!(lock.get("z-last").unwrap().version, "2.0.0");
    assert!(lock.remove("a-first"));
    assert!(!lock.remove("a-first"));
    assert!(lock.get("a-first").is_none());
}

#[test]
fn digests_are_lowercase_hex_and_compared_case_insensitively() {
    assert_eq!(hex(&[0x00, 0xab, 0x10]), "00ab10");
    let bytes = b"fixture\n";
    let digest = hex(&sha2::Sha256::digest(bytes));
    assert_eq!(digest.len(), 64);
    assert!(verify_digest(bytes, &digest, "dict.txt").is_ok());
    assert!(verify_digest(bytes, &digest.to_uppercase(), "dict.txt").is_ok());
    let err = verify_digest(bytes, "00", "dict.txt").unwrap_err();
    assert!(err.contains("checksum mismatch for locked dictionary dict.txt"));
}

#[test]
fn locked_versions_are_resolved() {
    let mut lock = RegistryLock::default();
    lock.upsert(locked("en-base", "1.2.0"));
    let r = resolve(&lock, Some("/cache"), "en-base").unwrap();
    assert_eq!(r.name, "en-base");
    assert_eq!(r.version.as_deref(), Some("1.2.0"));
    assert!(resolve(&lock, Some("/cache"), "").is_err());
    assert!(resolve(&lock, Some("/cache"), "en-base@").is_err());
    assert!(registry_cache_path(None, "x").is_none());
}
