use simplearrayhash::{BuildError, HashMap};

fn records_from(keys: &[&str]) -> Vec<(Vec<u8>, usize)> {
    let mut records: Vec<(Vec<u8>, usize)> = Vec::new();
    for (i, k) in keys.iter().enumerate() {
        records.push((k.as_bytes().to_vec(), i));
    }
    records
}

#[test]
fn map_test_basic() {
    let keys = vec!["icdm", "idce", "", "sigmod", "sigir", "acl"];
    let records = records_from(&keys);
    let map = HashMap::new(records).unwrap();
    assert_eq!(map.len(), 6);
}

#[test]
fn map_test_get() {
    let keys = vec!["icdm", "idce", "", "sigmod", "sigir", "acl"];
    let records = records_from(&keys);
    let map = HashMap::new(records.clone()).unwrap();
    for (k, v) in &records {
        assert_eq!(*map.get(k).unwrap(), *v);
    }
    assert_eq!(map.get("sigkdd".as_bytes()), None);
    assert_eq!(map.get("idml".as_bytes()), None);
}

#[test]
fn test_get_mut() {
    let keys = vec!["icdm", "idce", "", "sigmod", "sigir", "acl"];
    let records = records_from(&keys);
    let mut map = HashMap::new(records.clone()).unwrap();
    for (k, v) in &records {
        *map.get_mut(k).unwrap() = v * 3;
    }
    for (k, v) in &records {
        assert_eq!(*map.get(k).unwrap(), v * 3);
    }
}

#[test]
#[should_panic]
fn map_test_empty() {
    let records: Vec<(Vec<u8>, usize)> = Vec::new();
    HashMap::new(records).unwrap();
}

#[test]
#[should_panic]
fn map_test_duplicate() {
    let keys = vec!["icdm", "icdm"];
    let records = records_from(&keys);
    HashMap::new(records).unwrap();
}

#[test]
fn map_scenario_five_keys() {
    let keys = vec!["icdm", "idce", "sigmod", "sigir", "acl"];
    let records = records_from(&keys);
    let map = HashMap::new(records).unwrap();
    assert_eq!(map.get("idce".as_bytes()), Some(&1));
    assert_eq!(map.get("sigkdd".as_bytes()), None);
    assert_eq!(map.len(), 5);
}

#[test]
fn map_empty_error_value() {
    let records: Vec<(Vec<u8>, usize)> = Vec::new();
    match HashMap::new(records) {
        Err(e) => assert_eq!(e, BuildError::EmptyInput),
        Ok(_) => panic!("empty input was accepted"),
    }
}

#[test]
fn map_duplicate_error_value() {
    let keys = vec!["icdm", "icdm"];
    let records = records_from(&keys);
    match HashMap::new(records) {
        Err(e) => assert_eq!(e, BuildError::DuplicateKey),
        Ok(_) => panic!("duplicate keys were accepted"),
    }
}

#[test]
fn map_duplicate_nonadjacent() {
    let keys = vec!["icdm", "sigmod", "acl", "icdm"];
    let records = records_from(&keys);
    match HashMap::new(records) {
        Err(e) => assert_eq!(e, BuildError::DuplicateKey),
        Ok(_) => panic!("duplicate keys were accepted"),
    }
}

#[test]
fn map_empty_string_key() {
    let keys = vec!["", "icdm"];
    let records = records_from(&keys);
    let map = HashMap::new(records).unwrap();
    assert_eq!(map.get("".as_bytes()), Some(&0));
    assert_eq!(map.get("icdm".as_bytes()), Some(&1));
    assert!(map.contains_key("".as_bytes()));
    assert!(!map.contains_key("idml".as_bytes()));
}

#[test]
fn map_mutation_isolation() {
    let keys = vec!["icdm", "idce", "sigmod"];
    let records = records_from(&keys);
    let mut map = HashMap::new(records).unwrap();
    *map.get_mut("idce".as_bytes()).unwrap() = 41;
    assert_eq!(map.get("idce".as_bytes()), Some(&41));
    assert_eq!(map.get("icdm".as_bytes()), Some(&0));
    assert_eq!(map.get("sigmod".as_bytes()), Some(&2));
    assert_eq!(map.len(), 3);
}

#[test]
fn map_get_mut_absent() {
    let keys = vec!["icdm"];
    let records = records_from(&keys);
    let mut map = HashMap::new(records).unwrap();
    assert!(map.get_mut("sigir".as_bytes()).is_none());
    assert_eq!(map.get("icdm".as_bytes()), Some(&0));
}

#[test]
fn map_never_empty_after_build() {
    let keys = vec!["icdm"];
    let records = records_from(&keys);
    let map = HashMap::new(records).unwrap();
    assert!(!map.is_empty());
    assert_eq!(map.len(), 1);
}
