use simplearrayhash::{BuildError, HashSet};

fn keys_from(keys: &[&str]) -> Vec<Vec<u8>> {
    let mut out: Vec<Vec<u8>> = Vec::new();
    for k in keys.iter() {
        out.push(k.as_bytes().to_vec());
    }
    out
}

#[test]
fn set_test_basic() {
    let keys = keys_from(&["icdm", "idce", "sigmod", "sigir", "acl"]);
    let set = HashSet::new(&keys).unwrap();
    assert_eq!(set.len(), 5);
}

#[test]
fn set_test_get() {
    let keys = keys_from(&["icdm", "idce", "sigmod", "sigir", "acl"]);
    let set = HashSet::new(&keys).unwrap();
    for k in &keys {
        assert!(set.contains(k));
    }
    assert!(!set.contains("sigkdd".as_bytes()));
    assert!(!set.contains("idml".as_bytes()));
}

#[test]
fn test_get_with_empty_key() {
    let keys = keys_from(&["icdm", "idce", "", "sigmod", "sigir", "acl"]);
    let set = HashSet::new(&keys).unwrap();
    for k in &keys {
        assert!(set.contains(k));
    }
    assert!(!set.contains("sigkdd".as_bytes()));
    assert!(!set.contains("idml".as_bytes()));
}

#[test]
#[should_panic]
fn set_test_empty() {
    let keys = keys_from(&["icdm"]);
    HashSet::new(&keys[0..0]).unwrap();
}

#[test]
#[should_panic]
fn set_test_duplicate() {
    let keys = keys_from(&["icdm", "icdm"]);
    HashSet::new(&keys).unwrap();
}

#[test]
fn set_empty_error_value() {
    let keys: Vec<Vec<u8>> = Vec::new();
    match HashSet::new(&keys) {
        Err(e) => assert_eq!(e, BuildError::EmptyInput),
        Ok(_) => panic!("empty input was accepted"),
    }
}

#[test]
fn set_duplicate_error_value() {
    let keys = keys_from(&["icdm", "icdm"]);
    match HashSet::new(&keys) {
        Err(e) => assert_eq!(e, BuildError::DuplicateKey),
        Ok(_) => panic!("duplicate keys were accepted"),
    }
}

#[test]
fn set_duplicate_nonadjacent() {
    let keys = keys_from(&["icdm", "sigmod", "acl", "icdm"]);
    match HashSet::new(&keys) {
        Err(e) => assert_eq!(e, BuildError::DuplicateKey),
        Ok(_) => panic!("duplicate keys were accepted"),
    }
}

#[test]
fn set_never_empty_after_build() {
    let keys = keys_from(&["icdm"]);
    let set = HashSet::new(&keys).unwrap();
    assert!(!set.is_empty());
    assert_eq!(set.len(), 1);
}
