//! Keys, digests, JSON and the other small tools.

use fkst_framework::delivery_index::{
    encode_index_part, make_dead_due_index_key, make_index_key, parse_dead_due_index_key,
    parse_index_key,
};
use fkst_framework::delivery_router::stable_hex_hash;
use fkst_framework::digest::{fnv1a64, sha256, stable_digest, FNV_OFFSET};
use fkst_framework::fingerprint::{normalize_for_fingerprint, normalize_token};
use fkst_framework::json::{parse_json, print_json, same_json, Json};
use fkst_framework::numeral::{decimal_text, hex_text, parse_unsigned, signed_text};
use fkst_framework::paths::{join_path, path_key_text, rebase_glob, trim_front_slashes};
use fkst_framework::runtime_key::{
    encode_runtime_key_part_v3, runtime_key, runtime_key_v3, RuntimeKeyPart,
};
use fkst_framework::utf8_text::cut_text;

#[test]
fn sha256_of_known_texts() {
    assert_eq!(
        hex_text(&sha256(b"")),
        "e3b0c44298fc1c149afbf4c8996fb92427ae41e4649b934ca495991b7852b855"
    );
    assert_eq!(
        hex_text(&sha256(b"abc")),
        "ba7816bf8f01cfea414140de5dae2223b00361a396177a9cb410ff61f20015ad"
    );
    assert_eq!(
        hex_text(&sha256(b"abcdbcdecdefdefgefghfghighijhijkijkljklmklmnlmnomnopnopq")),
        "248d6a61d20638b8e5c026930c3e6039a33ce45964ff2167f6ecedd419db06c1"
    );
    assert_eq!(
        stable_hex_hash("abc"),
        "ba7816bf8f01cfea414140de5dae2223"
    );
    assert_eq!(stable_digest(b"abc"), hex_text(&sha256(b"abc")));
}

#[test]
fn fnv_of_known_texts() {
    assert_eq!(fnv1a64(FNV_OFFSET, b""), 0xcbf2_9ce4_8422_2325);
    assert_eq!(fnv1a64(FNV_OFFSET, b"a"), 0xaf63_dc4c_8601_ec8c);
}

#[test]
fn index_keys_come_back() {
    let key = make_index_key("pkg.worker", 42, "delivery/one");
    let parsed = parse_index_key(&key).unwrap();
    assert_eq!(parsed.due_ms, 42);
    assert_eq!(parsed.delivery_id, "delivery/one");

    let key = make_dead_due_index_key("pkg.worker", 43, "delivery/two");
    let parsed = parse_dead_due_index_key(&key).unwrap();
    assert_eq!(parsed.due_ms, 43);
    assert_eq!(parsed.delivery_id, "delivery/two");
    assert!(parse_index_key("nothing").is_none());
}

#[test]
fn index_keys_are_ordered_by_time() {
    let early = make_dead_due_index_key("z", 9, "b");
    let late = make_dead_due_index_key("a", 10, "a");
    assert!(early < late);
    assert_ne!(encode_index_part("a b"), encode_index_part("a_b"));
}

#[test]
fn runtime_keys_escape_their_parts() {
    assert_eq!(
        runtime_key(&vec!["delivery", "a/b", "next_worker"]),
        "delivery/a_x2Fb/next__worker"
    );
    assert_eq!(encode_runtime_key_part_v3("a:b"), "a_3A_b");
    assert_ne!(
        runtime_key_v3(&vec![RuntimeKeyPart::Raw("d"), RuntimeKeyPart::Escaped("a/b")]),
        runtime_key_v3(&vec![RuntimeKeyPart::Raw("d"), RuntimeKeyPart::Escaped("a:b")])
    );
}

#[test]
fn json_comes_back_as_it_was_printed() {
    let text = br#"{"a":[1,-2,true,null,"x"],"b":{"c":"d"}}"#;
    let value = parse_json(text).unwrap();

    assert_eq!(print_json(&value), text.to_vec());
    assert_eq!(value.get("b").unwrap().text_at("c"), Some("d".to_string()));
    assert!(matches!(value.get("a").unwrap(), Json::Array(items) if items.len() == 5));
    assert!(parse_json(b"{not json").is_none());
}

#[test]
fn json_objects_are_the_same_in_any_order() {
    let one = parse_json(br#"{"a": 1, "b": 2}"#).unwrap();
    let two = parse_json(br#"{"b": 2, "a": 1}"#).unwrap();
    assert!(same_json(&one, &two));
    assert!(!same_json(&one, &parse_json(br#"{"a": 1}"#).unwrap()));
}

#[test]
fn fractions_are_carried_through() {
    let value = parse_json(b"1.5").unwrap();
    assert!(matches!(value, Json::Fraction(_)));
}

#[test]
fn fingerprints_put_marks_for_what_changes() {
    assert_ne!(normalize_token("2026-06-11T09:52:37Z"), "2026-06-11T09:52:37Z");
    assert_eq!(
        normalize_for_fingerprint("at 2026-06-11T09:52:37Z"),
        normalize_for_fingerprint("at 2027-01-01T00:00:00Z")
    );
}

#[test]
fn numerals() {
    assert_eq!(decimal_text(0), "0");
    assert_eq!(decimal_text(u64::MAX), "18446744073709551615");
    assert_eq!(signed_text(i64::MIN), "-9223372036854775808");
    assert_eq!(parse_unsigned("+7"), Some(7));
    assert_eq!(parse_unsigned("18446744073709551616"), None);
    assert_eq!(parse_unsigned(""), None);
}

#[test]
fn texts_are_cut_between_characters() {
    assert_eq!(cut_text("aé", 2), "a");
    assert_eq!(cut_text("aé", 3), "aé");
}

#[test]
fn paths() {
    assert_eq!(join_path("/srv", "a"), "/srv/a");
    assert_eq!(join_path("/srv/", "a"), "/srv/a");
    assert_eq!(join_path("/srv", "/a"), "/a");
    assert_eq!(trim_front_slashes("//a/b"), "a/b");
    assert_eq!(rebase_glob("/in/*.txt", "/in", "/real"), "/real/*.txt");
    assert!(path_key_text("/a/b") < path_key_text("/a-b"));
}
