use crate_metadata_updater::keys::{PackageKey, StructuredKey};
use crate_metadata_updater::manifest::{CrateHelper, Dependency};
use crate_metadata_updater::store::{Record, Store, StoreOutcome};
use crate_metadata_updater::updater::{
    link_outcome, link_request, rebuild_decision, removal_outcome, BuildDetails,
    CrateMetadataUpdater,
};

fn skey(package_name: &str, version: &str) -> StructuredKey {
    StructuredKey { package_name: String::from(package_name), version: String::from(version) }
}

fn strings(values: &[&str]) -> Vec<String> {
    values.iter().map(|v| String::from(*v)).collect()
}

fn dep(name: &str, version: Option<&str>) -> Dependency {
    Dependency { name: String::from(name), version: version.map(String::from) }
}

fn manifest(name: &str, version: &str, dependencies: Vec<Dependency>) -> CrateHelper {
    CrateHelper { name: String::from(name), version: String::from(version), dependencies }
}

fn details(project: &str) -> BuildDetails {
    BuildDetails { build_project_name: String::from(project) }
}

#[test]
fn untracked_dependency_is_noop() {
    let mut u = CrateMetadataUpdater::new(Store::new());
    let r = u.update_metadata(details("pkg-build"), manifest(
        "pkg",
        "1.0.0",
        vec![dep("serde", Some("1.0.136"))],
    ));
    assert!(r.is_ok());
    assert!(u.store.read(&skey("rust/serde", "1.0.136")).is_none());
    let p = u.store.read(&skey("rust/pkg", "1.0.0")).unwrap();
    assert_eq!(p.build_project_name, Some(String::from("pkg-build")));
    assert_eq!(p.dependencies, None);
    assert!(u.triggered.is_empty());
}

#[test]
fn unversioned_dependency_is_skipped_entirely() {
    let mut store = Store::new();
    store.write_record(&skey("rust/serde", "1.0.136"), &String::from("serde-build"), &Vec::new());
    let mut u = CrateMetadataUpdater::new(store);
    let r = u.update_metadata(details("pkg-build"), manifest(
        "pkg",
        "1.0.0",
        vec![dep("serde", None)],
    ));
    assert!(r.is_ok());
    let d = u.store.read(&skey("rust/serde", "1.0.136")).unwrap();
    assert_eq!(d.consumers, None);
    let p = u.store.read(&skey("rust/pkg", "1.0.0")).unwrap();
    assert_eq!(p.dependencies, None);
}

#[test]
fn tracked_edge_is_bidirectional_after_one_run() {
    let mut store = Store::new();
    store.write_record(&skey("rust/serde", "1.0.136"), &String::from("serde-build"), &Vec::new());
    let mut u = CrateMetadataUpdater::new(store);
    let r = u.update_metadata(details("pkg-build"), manifest(
        "pkg",
        "1.0.0",
        vec![dep("serde", Some("1.0.136"))],
    ));
    assert!(r.is_ok());
    let d = u.store.read(&skey("rust/serde", "1.0.136")).unwrap();
    assert_eq!(d.consumers, Some(strings(&["rust/pkg:1.0.0"])));
    let p = u.store.read(&skey("rust/pkg", "1.0.0")).unwrap();
    assert_eq!(p.dependencies, Some(strings(&["rust/serde:1.0.136"])));
}

#[test]
fn stale_edge_is_cleaned_up() {
    let mut store = Store::new();
    store.write_record(&skey("rust/d1", "1.0"), &String::from("d1-build"), &Vec::new());
    store.write_record(&skey("rust/d2", "2.0"), &String::from("d2-build"), &Vec::new());
    let mut u = CrateMetadataUpdater::new(store);
    u.update_metadata(details("pkg-build"), manifest(
        "pkg",
        "1.0.0",
        vec![dep("d1", Some("1.0")), dep("d2", Some("2.0"))],
    ))
    .unwrap();
    u.update_metadata(details("pkg-build"), manifest(
        "pkg",
        "1.0.0",
        vec![dep("d1", Some("1.0"))],
    ))
    .unwrap();
    let d1 = u.store.read(&skey("rust/d1", "1.0")).unwrap();
    assert_eq!(d1.consumers, Some(strings(&["rust/pkg:1.0.0"])));
    let d2 = u.store.read(&skey("rust/d2", "2.0")).unwrap();
    assert_eq!(d2.consumers, None);
    let p = u.store.read(&skey("rust/pkg", "1.0.0")).unwrap();
    assert_eq!(p.dependencies, Some(strings(&["rust/d1:1.0"])));
}

#[test]
fn empty_dependency_set_deletes_attribute() {
    let mut store = Store::new();
    store.write_record(&skey("rust/d1", "1.0"), &String::from("d1-build"), &Vec::new());
    let mut u = CrateMetadataUpdater::new(store);
    u.update_metadata(details("pkg-build"), manifest(
        "pkg",
        "1.0.0",
        vec![dep("d1", Some("1.0"))],
    ))
    .unwrap();
    u.update_metadata(details("pkg-build"), manifest("pkg", "1.0.0", Vec::new())).unwrap();
    let p = u.store.read(&skey("rust/pkg", "1.0.0")).unwrap();
    assert_eq!(p.dependencies, None);
    let d1 = u.store.read(&skey("rust/d1", "1.0")).unwrap();
    assert_eq!(d1.consumers, None);
}

#[test]
fn cascade_triggers_valid_consumer_once() {
    let mut store = Store::new();
    store.write_record(&skey("rust/pkg", "1.0.0"), &String::from("pkg-build"), &Vec::new());
    store.write_record(
        &skey("rust/consumer", "0.3.0"),
        &String::from("proj-consumer"),
        &strings(&["rust/pkg:1.0.0"]),
    );
    store.add_consumer(&skey("rust/pkg", "1.0.0"), &String::from("rust/consumer:0.3.0"));
    let mut u = CrateMetadataUpdater::new(store);
    let r = u.update_metadata(details("pkg-build"), manifest("pkg", "1.0.0", Vec::new()));
    assert!(r.is_ok());
    assert_eq!(u.triggered, strings(&["proj-consumer"]));
}

#[test]
fn cascade_skips_consumer_that_moved_on() {
    let mut store = Store::new();
    store.write_record(&skey("rust/pkg", "1.0.0"), &String::from("pkg-build"), &Vec::new());
    store.write_record(
        &skey("rust/consumer", "0.3.0"),
        &String::from("proj-consumer"),
        &strings(&["rust/other:9.9.9"]),
    );
    store.add_consumer(&skey("rust/pkg", "1.0.0"), &String::from("rust/consumer:0.3.0"));
    let mut u = CrateMetadataUpdater::new(store);
    let r = u.update_metadata(details("pkg-build"), manifest("pkg", "1.0.0", Vec::new()));
    assert!(r.is_ok());
    assert!(u.triggered.is_empty());
}

#[test]
fn cascade_skips_consumer_without_build_project() {
    let rec = Record {
        build_project_name: None,
        dependencies: Some(strings(&["rust/pkg:1.0.0"])),
        consumers: None,
    };
    assert!(rebuild_decision(&String::from("rust/pkg:1.0.0"), &Some(rec)).is_none());
}

#[test]
fn update_twice_leaves_same_store_state() {
    let mut store = Store::new();
    store.write_record(&skey("rust/serde", "1.0.136"), &String::from("serde-build"), &Vec::new());
    let mut u = CrateMetadataUpdater::new(store);
    u.update_metadata(details("pkg-build"), manifest(
        "pkg",
        "1.0.0",
        vec![dep("serde", Some("1.0.136"))],
    ))
    .unwrap();
    let d_after_one = u.store.read(&skey("rust/serde", "1.0.136")).unwrap();
    let p_after_one = u.store.read(&skey("rust/pkg", "1.0.0")).unwrap();
    u.update_metadata(details("pkg-build"), manifest(
        "pkg",
        "1.0.0",
        vec![dep("serde", Some("1.0.136"))],
    ))
    .unwrap();
    let d_after_two = u.store.read(&skey("rust/serde", "1.0.136")).unwrap();
    let p_after_two = u.store.read(&skey("rust/pkg", "1.0.0")).unwrap();
    assert_eq!(d_after_one.build_project_name, d_after_two.build_project_name);
    assert_eq!(d_after_one.dependencies, d_after_two.dependencies);
    assert_eq!(d_after_one.consumers, d_after_two.consumers);
    assert_eq!(p_after_one.build_project_name, p_after_two.build_project_name);
    assert_eq!(p_after_one.dependencies, p_after_two.dependencies);
    assert_eq!(p_after_one.consumers, p_after_two.consumers);
}

#[test]
fn corrupt_stored_dependency_key_is_fatal() {
    let mut store = Store::new();
    store.write_record(
        &skey("rust/pkg", "1.0.0"),
        &String::from("pkg-build"),
        &strings(&["not a parsable key"]),
    );
    let mut u = CrateMetadataUpdater::new(store);
    let r = u.update_metadata(details("pkg-build"), manifest("pkg", "1.0.0", Vec::new()));
    assert!(r.is_err());
    assert!(r.unwrap_err().msg.contains("unexpected format"));
}

#[test]
fn link_request_skips_unversioned() {
    assert!(link_request(&dep("serde", None)).is_none());
    let k = link_request(&dep("serde", Some("1.0.136"))).unwrap();
    assert_eq!(k.build_system, "rust");
    assert_eq!(k.name, "serde");
    assert_eq!(k.version, "1.0.136");
}

#[test]
fn link_outcome_maps_store_answers() {
    let ok = link_outcome(String::from("rust/serde:1.0.136"), StoreOutcome::Success);
    assert_eq!(ok.unwrap(), Some(String::from("rust/serde:1.0.136")));
    let skipped = link_outcome(String::from("rust/serde:1.0.136"), StoreOutcome::ConditionFailed);
    assert_eq!(skipped.unwrap(), None);
    let failed = link_outcome(
        String::from("rust/serde:1.0.136"),
        StoreOutcome::Failure(String::from("throttled")),
    );
    assert!(failed.is_err());
}

#[test]
fn removal_outcome_treats_condition_failure_as_done() {
    assert!(removal_outcome(StoreOutcome::Success).is_ok());
    assert!(removal_outcome(StoreOutcome::ConditionFailed).is_ok());
    assert!(removal_outcome(StoreOutcome::Failure(String::from("throttled"))).is_err());
}

#[test]
fn rebuild_decision_checks_dependency_and_project() {
    let fq = String::from("rust/pkg:1.0.0");
    assert!(rebuild_decision(&fq, &None).is_none());
    let still = Record {
        build_project_name: Some(String::from("proj")),
        dependencies: Some(strings(&["rust/pkg:1.0.0"])),
        consumers: None,
    };
    assert_eq!(rebuild_decision(&fq, &Some(still)), Some(String::from("proj")));
    let moved_on = Record {
        build_project_name: Some(String::from("proj")),
        dependencies: Some(strings(&["rust/other:2.0.0"])),
        consumers: None,
    };
    assert!(rebuild_decision(&fq, &Some(moved_on)).is_none());
    let no_deps = Record {
        build_project_name: Some(String::from("proj")),
        dependencies: None,
        consumers: None,
    };
    assert!(rebuild_decision(&fq, &Some(no_deps)).is_none());
}

#[test]
fn package_key_from_crate_uses_manifest_identity() {
    let k = PackageKey::from_crate(manifest("pkg", "1.0.0", Vec::new()));
    assert_eq!(k.build_system, "rust");
    assert_eq!(k.name, "pkg");
    assert_eq!(k.version, "1.0.0");
    assert_eq!(k.to_fq_key(), "rust/pkg:1.0.0");
}
