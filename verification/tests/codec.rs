use crate_metadata_updater::errors::Error;
use crate_metadata_updater::keys::{get_encoded_primary_key, PackageKey};
use crate_metadata_updater::updater::BuildDetails;

fn key(build_system: &str, name: &str, version: &str) -> PackageKey {
    PackageKey {
        build_system: String::from(build_system),
        name: String::from(name),
        version: String::from(version),
    }
}

#[test]
fn to_fq_key_formats() {
    assert_eq!(key("rust", "serde", "1.0.136").to_fq_key(), "rust/serde:1.0.136");
}

#[test]
fn from_fq_key_parses_plain_key() {
    let k = PackageKey::from_fq_key(&String::from("rust/serde:1.0.136")).unwrap();
    assert_eq!(k.build_system, "rust");
    assert_eq!(k.name, "serde");
    assert_eq!(k.version, "1.0.136");
}

#[test]
fn encode_then_decode_round_trips() {
    let fq = key("rust", "tokio", "1.17.0").to_fq_key();
    let back = PackageKey::from_fq_key(&fq).unwrap();
    assert_eq!(back.build_system, "rust");
    assert_eq!(back.name, "tokio");
    assert_eq!(back.version, "1.17.0");
    assert_eq!(back.to_fq_key(), fq);
}

#[test]
fn from_fq_key_is_greedy() {
    let k = PackageKey::from_fq_key(&String::from("a/b/c:d:e")).unwrap();
    assert_eq!(k.build_system, "a/b");
    assert_eq!(k.name, "c:d");
    assert_eq!(k.version, "e");
}

#[test]
fn decode_of_parsable_key_loses_nothing() {
    let original = String::from("eco/name/extra:ver:2");
    let k = PackageKey::from_fq_key(&original).unwrap();
    assert_eq!(k.to_fq_key(), original);
}

#[test]
fn from_fq_key_rejects_malformed() {
    for bad in ["", "abc", "a/b", "a:b", "/a:b", "a/:b", "a/b:", "ab:c", "/:", "://", "a:b/c"] {
        assert!(PackageKey::from_fq_key(&String::from(bad)).is_err(), "{bad:?}");
    }
}

#[test]
fn from_fq_key_accepts_version_with_slash() {
    let k = PackageKey::from_fq_key(&String::from("a/b:c/d")).unwrap();
    assert_eq!(k.build_system, "a");
    assert_eq!(k.name, "b");
    assert_eq!(k.version, "c/d");
}

#[test]
fn structured_key_splits_at_version() {
    let s = key("rust", "serde", "1.0.136").structured_key();
    assert_eq!(s.package_name, "rust/serde");
    assert_eq!(s.version, "1.0.136");
}

#[test]
fn get_encoded_primary_key_formats() {
    let fq = get_encoded_primary_key(&String::from("serde"), &String::from("1.0.136"));
    assert_eq!(fq, "rust/serde:1.0.136");
}

#[test]
fn encoded_primary_key_decodes_to_same_parts() {
    let fq = get_encoded_primary_key(&String::from("serde"), &String::from("1.0.136"));
    let k = PackageKey::from_fq_key(&fq).unwrap();
    assert_eq!(k.build_system, "rust");
    assert_eq!(k.name, "serde");
    assert_eq!(k.version, "1.0.136");
}

#[test]
fn build_details_takes_project_before_colon() {
    let d = BuildDetails::from_build_id(&String::from("my-project:3e4c1a"));
    assert_eq!(d.build_project_name, "my-project");
}

#[test]
fn build_details_keeps_whole_id_without_colon() {
    let d = BuildDetails::from_build_id(&String::from("my-project"));
    assert_eq!(d.build_project_name, "my-project");
}

#[test]
fn build_details_stops_at_first_colon() {
    let d = BuildDetails::from_build_id(&String::from("a:b:c"));
    assert_eq!(d.build_project_name, "a");
}

#[test]
fn error_with_msg_keeps_message() {
    let e = Error::with_msg(String::from("something went wrong"));
    assert_eq!(e.msg, "something went wrong");
}
