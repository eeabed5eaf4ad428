use rust_kv_store::storage::order::{compare_bytes, compare_keys, KeyOrder};

#[test]
fn keys_compare_as_strings_do() {
    let keys = ["", "a", "a0", "a10", "a2", "b", "ä", "z", "\u{10FFFF}"];
    for a in keys {
        for b in keys {
            let expected = match a.cmp(b) {
                std::cmp::Ordering::Less => KeyOrder::Less,
                std::cmp::Ordering::Equal => KeyOrder::Equal,
                std::cmp::Ordering::Greater => KeyOrder::Greater,
            };
            assert_eq!(compare_keys(&a.to_string(), &b.to_string()), expected);
        }
    }
}

#[test]
fn a_prefix_is_before_its_extensions() {
    assert_eq!(compare_bytes(b"ab", b"abc"), KeyOrder::Less);
    assert_eq!(compare_bytes(b"abc", b"ab"), KeyOrder::Greater);
    assert_eq!(compare_bytes(b"", b""), KeyOrder::Equal);
    assert_eq!(compare_bytes(&[0xFF], &[0x00, 0xFF]), KeyOrder::Greater);
}
