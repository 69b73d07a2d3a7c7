use target_resolve::catalog::Catalog;

fn sample() -> Catalog<u32> {
    let mut c: Catalog<u32> = Catalog::new();
    c.insert(String::from("x86_64-ios"), 2);
    c.insert(String::from("aarch64-ios"), 1);
    c.insert(String::from("m-ios"), 3);
    c
}

#[test]
fn keys_come_out_sorted_regardless_of_insertion_order() {
    let c = sample();
    assert_eq!(c.len(), 3);
    assert_eq!(c.keys(), vec!["aarch64-ios", "m-ios", "x86_64-ios"]);
}

#[test]
fn get_finds_each_inserted_entry() {
    let c = sample();
    assert_eq!(c.get("aarch64-ios"), Some(&1));
    assert_eq!(c.get("m-ios"), Some(&3));
    assert_eq!(c.get("x86_64-ios"), Some(&2));
    assert_eq!(c.get("bogus"), None);
    assert_eq!(c.get(""), None);
}

#[test]
fn insert_replaces_an_existing_key() {
    let mut c = sample();
    c.insert(String::from("m-ios"), 9);
    assert_eq!(c.len(), 3);
    assert_eq!(c.get("m-ios"), Some(&9));
    assert_eq!(c.keys(), vec!["aarch64-ios", "m-ios", "x86_64-ios"]);
}

#[test]
fn key_at_and_value_at_walk_in_key_order() {
    let c = sample();
    assert_eq!(c.key_at(0), "aarch64-ios");
    assert_eq!(c.key_at(1), "m-ios");
    assert_eq!(c.key_at(2), "x86_64-ios");
    assert_eq!(c.value_at(0), &1);
    assert_eq!(c.value_at(1), &3);
    assert_eq!(c.value_at(2), &2);
}

#[test]
fn empty_catalog_has_nothing() {
    let c: Catalog<u32> = Catalog::new();
    assert_eq!(c.len(), 0);
    assert_eq!(c.get("anything"), None);
    assert!(c.keys().is_empty());
}
