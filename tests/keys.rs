use dozer_core::keys::{
    format_decimal, format_epoch_id, format_padded, join, name_under_dir, parse_slice_epoch,
    parse_u64, processor_prefix, record_store_prefix, slice_key,
};
use dozer_core::node::NodeHandle;

#[test]
fn epoch_ids_have_twenty_digits() {
    assert_eq!(format_epoch_id(42), "00000000000000000042");
    assert_eq!(format_epoch_id(0), "00000000000000000000");
    assert_eq!(format_epoch_id(u64::MAX), "18446744073709551615");
    assert_eq!(format_padded(12345, 3), "345");
    assert_eq!(format_decimal(0), "0");
    assert_eq!(format_decimal(65535), "65535");
}

#[test]
fn key_layout() {
    assert_eq!(record_store_prefix("p"), "p/record_store");
    assert_eq!(slice_key("p", 7), "p/record_store/00000000000000000007");
    assert_eq!(processor_prefix("p/", 2), "p/00000000000000000002");
    assert_eq!(join("", "x"), "x");
    assert_eq!(join("a", "b"), "a/b");
}

#[test]
fn slice_keys_sort_by_epoch() {
    let mut epochs = [10u64, 9, 100, 1, u64::MAX, 0];
    let mut keys: Vec<String> = epochs.iter().map(|e| slice_key("p", *e)).collect();
    keys.sort();
    epochs.sort();
    let parsed: Vec<u64> = keys
        .iter()
        .map(|k| parse_slice_epoch(k, "p/record_store").unwrap())
        .collect();
    assert_eq!(parsed, epochs.to_vec());
}

#[test]
fn parsing_u64() {
    assert_eq!(parse_u64("00000000000000000042"), Some(42));
    assert_eq!(parse_u64("+7"), Some(7));
    assert_eq!(parse_u64("18446744073709551615"), Some(u64::MAX));
    assert_eq!(parse_u64("18446744073709551616"), None);
    assert_eq!(parse_u64(""), None);
    assert_eq!(parse_u64("+"), None);
    assert_eq!(parse_u64("-1"), None);
    assert_eq!(parse_u64("1a"), None);
}

#[test]
fn names_under_a_directory() {
    assert_eq!(
        name_under_dir("p/record_store/001", "p/record_store"),
        Some("001".to_string())
    );
    assert_eq!(name_under_dir("p/record_storex/001", "p/record_store"), None);
    assert_eq!(name_under_dir("q/record_store/001", "p/record_store"), None);
    assert_eq!(parse_slice_epoch("p/record_store/abc", "p/record_store"), None);
}

#[test]
fn node_handle_string_form() {
    assert_eq!(NodeHandle::new(Some(1), "id".to_string()).to_key_string(), "1-id");
    assert_eq!(NodeHandle::new(None, "id".to_string()).to_key_string(), "id");
}
