use euv_app::versions::{
    decimal_string, parse_active_pointer, pointer_temp_name, version_name, versions_to_remove,
    ACTIVE_LINK, VERSION_PREFIX,
};

#[test]
fn version_names() {
    assert_eq!(version_name(1700000000000), "v_1700000000000");
    assert_eq!(version_name(0), "v_0");
    assert_eq!(decimal_string(u128::MAX), u128::MAX.to_string());
    assert_eq!(decimal_string(10), "10");
    assert!(version_name(5).starts_with(VERSION_PREFIX));
    assert_eq!(ACTIVE_LINK, "active");
}

#[test]
fn distinct_timestamps_distinct_names() {
    assert_ne!(version_name(1), version_name(10));
    assert_ne!(version_name(12), version_name(21));
}

#[test]
fn pointer_text_parsing() {
    assert_eq!(parse_active_pointer("  v_1\n"), Some("v_1".to_string()));
    assert_eq!(parse_active_pointer("   \n\t"), None);
    assert_eq!(parse_active_pointer(""), None);
    assert_eq!(parse_active_pointer("\u{3000}v_2\u{a0}"), Some("v_2".to_string()));
}

#[test]
fn pointer_round_trip() {
    for t in [0u128, 7, 1_700_000_000_123] {
        let name = version_name(t);
        assert_eq!(parse_active_pointer(&name), Some(name.clone()));
    }
}

#[test]
fn temp_pointer_name() {
    assert_eq!(pointer_temp_name(42), ".active_tmp_42");
}

fn entries(list: &[(&str, bool)]) -> Vec<(String, bool)> {
    list.iter().map(|(n, d)| (n.to_string(), *d)).collect()
}

#[test]
fn cleanup_removes_all_but_newest_old_version() {
    let e = entries(&[
        ("v_3", true),
        ("v_1", true),
        ("v_2", true),
        ("active", false),
        ("v_4", false),
        ("v_5", true),
        ("other", true),
    ]);
    assert_eq!(versions_to_remove(&e, "v_5"), vec!["v_1".to_string(), "v_2".to_string()]);
}

#[test]
fn cleanup_never_removes_current_or_single_old() {
    let e = entries(&[("v_1", true), ("v_2", true)]);
    assert_eq!(versions_to_remove(&e, "v_2"), Vec::<String>::new());
    assert_eq!(versions_to_remove(&e, "v_9"), vec!["v_1".to_string()]);
    assert_eq!(versions_to_remove(&Vec::new(), "v_1"), Vec::<String>::new());
}

#[test]
fn cleanup_orders_by_timestamp() {
    let e = entries(&[("v_10", true), ("v_9", true), ("v_100", true)]);
    assert_eq!(versions_to_remove(&e, "v_0"), vec!["v_9".to_string(), "v_10".to_string()]);
}

#[test]
fn cleanup_keeps_most_recent_old_version() {
    let e = entries(&[("v_9", true), ("v_10", true), ("v_11", true), ("active", false)]);
    assert_eq!(versions_to_remove(&e, "v_11"), vec!["v_9".to_string()]);
    let t = entries(&[("v_1700000000000", true), ("v_999999999999", true), ("v_1700000000001", true)]);
    assert_eq!(
        versions_to_remove(&t, "v_1700000000001"),
        vec!["v_999999999999".to_string()]
    );
    assert_eq!(
        versions_to_remove(&t, "v_2"),
        vec!["v_999999999999".to_string(), "v_1700000000000".to_string()]
    );
}
