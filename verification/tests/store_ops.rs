use crate_metadata_updater::keys::StructuredKey;
use crate_metadata_updater::store::{to_set, Store, StoreOutcome};

fn skey(package_name: &str, version: &str) -> StructuredKey {
    StructuredKey { package_name: String::from(package_name), version: String::from(version) }
}

fn strings(values: &[&str]) -> Vec<String> {
    values.iter().map(|v| String::from(*v)).collect()
}

#[test]
fn read_of_missing_record_is_none() {
    let store = Store::new();
    assert!(store.read(&skey("rust/serde", "1.0.136")).is_none());
}

#[test]
fn write_then_read_returns_record() {
    let mut store = Store::new();
    let prev = store.write_record(
        &skey("rust/serde", "1.0.136"),
        &String::from("serde-build"),
        &strings(&["rust/proc-macro2:1.0.36"]),
    );
    assert!(prev.is_none());
    let rec = store.read(&skey("rust/serde", "1.0.136")).unwrap();
    assert_eq!(rec.build_project_name, Some(String::from("serde-build")));
    assert_eq!(rec.dependencies, Some(strings(&["rust/proc-macro2:1.0.36"])));
    assert_eq!(rec.consumers, None);
}

#[test]
fn write_returns_previous_record_state() {
    let mut store = Store::new();
    let k = skey("rust/serde", "1.0.136");
    store.write_record(&k, &String::from("old-build"), &strings(&["rust/a:1"]));
    let prev = store.write_record(&k, &String::from("new-build"), &strings(&["rust/b:2"])).unwrap();
    assert_eq!(prev.build_project_name, Some(String::from("old-build")));
    assert_eq!(prev.dependencies, Some(strings(&["rust/a:1"])));
    let rec = store.read(&k).unwrap();
    assert_eq!(rec.build_project_name, Some(String::from("new-build")));
    assert_eq!(rec.dependencies, Some(strings(&["rust/b:2"])));
}

#[test]
fn write_with_no_deps_deletes_attribute() {
    let mut store = Store::new();
    let k = skey("rust/serde", "1.0.136");
    store.write_record(&k, &String::from("build"), &strings(&["rust/a:1"]));
    store.write_record(&k, &String::from("build"), &Vec::new());
    let rec = store.read(&k).unwrap();
    assert_eq!(rec.dependencies, None);
}

#[test]
fn write_dedups_dependency_set() {
    let mut store = Store::new();
    let k = skey("rust/serde", "1.0.136");
    store.write_record(&k, &String::from("build"), &strings(&["rust/a:1", "rust/b:2", "rust/a:1"]));
    let rec = store.read(&k).unwrap();
    assert_eq!(rec.dependencies, Some(strings(&["rust/a:1", "rust/b:2"])));
}

#[test]
fn add_consumer_to_missing_record_fails_condition() {
    let mut store = Store::new();
    let out = store.add_consumer(&skey("rust/serde", "1.0.136"), &String::from("rust/app:0.1.0"));
    assert!(matches!(out, StoreOutcome::ConditionFailed));
    assert!(store.read(&skey("rust/serde", "1.0.136")).is_none());
}

#[test]
fn add_consumer_creates_and_keeps_set_semantics() {
    let mut store = Store::new();
    let k = skey("rust/serde", "1.0.136");
    store.write_record(&k, &String::from("build"), &Vec::new());
    let out = store.add_consumer(&k, &String::from("rust/app:0.1.0"));
    assert!(matches!(out, StoreOutcome::Success));
    let out2 = store.add_consumer(&k, &String::from("rust/app:0.1.0"));
    assert!(matches!(out2, StoreOutcome::Success));
    let rec = store.read(&k).unwrap();
    assert_eq!(rec.consumers, Some(strings(&["rust/app:0.1.0"])));
}

#[test]
fn remove_last_consumer_deletes_attribute() {
    let mut store = Store::new();
    let k = skey("rust/serde", "1.0.136");
    store.write_record(&k, &String::from("build"), &Vec::new());
    store.add_consumer(&k, &String::from("rust/app:0.1.0"));
    let out = store.remove_consumer(&k, &String::from("rust/app:0.1.0"));
    assert!(matches!(out, StoreOutcome::Success));
    let rec = store.read(&k).unwrap();
    assert_eq!(rec.consumers, None);
}

#[test]
fn remove_consumer_keeps_the_others() {
    let mut store = Store::new();
    let k = skey("rust/serde", "1.0.136");
    store.write_record(&k, &String::from("build"), &Vec::new());
    store.add_consumer(&k, &String::from("rust/app:0.1.0"));
    store.add_consumer(&k, &String::from("rust/tool:2.0.0"));
    store.remove_consumer(&k, &String::from("rust/app:0.1.0"));
    let rec = store.read(&k).unwrap();
    assert_eq!(rec.consumers, Some(strings(&["rust/tool:2.0.0"])));
}

#[test]
fn remove_consumer_from_missing_record_fails_condition() {
    let mut store = Store::new();
    let out = store.remove_consumer(&skey("rust/serde", "1.0.136"), &String::from("rust/app:0.1.0"));
    assert!(matches!(out, StoreOutcome::ConditionFailed));
}

#[test]
fn to_set_keeps_first_occurrences() {
    let deduped = to_set(&strings(&["a", "b", "a", "c", "b"]));
    assert_eq!(deduped, strings(&["a", "b", "c"]));
}
