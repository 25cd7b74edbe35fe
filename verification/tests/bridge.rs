use euv_app::bridge::{resolve_bridge_group_permissions, BridgeGroup, Permission};

const GROUPS: [BridgeGroup; 13] = [
    BridgeGroup::Camera,
    BridgeGroup::Microphone,
    BridgeGroup::Location,
    BridgeGroup::Storage,
    BridgeGroup::Bluetooth,
    BridgeGroup::Contacts,
    BridgeGroup::Calendar,
    BridgeGroup::Phone,
    BridgeGroup::Sms,
    BridgeGroup::Sensors,
    BridgeGroup::Nfc,
    BridgeGroup::Notifications,
    BridgeGroup::All,
];

#[test]
fn resolves_camera_group() {
    let r = resolve_bridge_group_permissions("camera").unwrap();
    assert_eq!(r, vec!["android.permission.CAMERA".to_string()]);
}

#[test]
fn resolves_case_insensitively_and_audio_alias() {
    let r = resolve_bridge_group_permissions("AUDIO").unwrap();
    assert_eq!(r, vec!["android.permission.RECORD_AUDIO".to_string()]);
    let r = resolve_bridge_group_permissions("MicroPhone").unwrap();
    assert_eq!(r, vec!["android.permission.RECORD_AUDIO".to_string()]);
}

#[test]
fn resolves_location_in_order() {
    let r = resolve_bridge_group_permissions("location").unwrap();
    assert_eq!(
        r,
        vec![
            "android.permission.ACCESS_FINE_LOCATION".to_string(),
            "android.permission.ACCESS_COARSE_LOCATION".to_string(),
            "android.permission.ACCESS_BACKGROUND_LOCATION".to_string(),
            "android.permission.ACCESS_MEDIA_LOCATION".to_string(),
        ]
    );
}

#[test]
fn resolves_all_group() {
    let r = resolve_bridge_group_permissions("all").unwrap();
    assert_eq!(r.len(), 36);
    assert_eq!(r[0], "android.permission.CAMERA");
    assert_eq!(r[35], "android.permission.PROCESS_OUTGOING_CALLS");
}

#[test]
fn unknown_group_is_an_error_with_lowercased_name() {
    assert_eq!(
        resolve_bridge_group_permissions("Foo"),
        Err("Unknown bridge group: foo".to_string())
    );
    assert_eq!(
        resolve_bridge_group_permissions(""),
        Err("Unknown bridge group: ".to_string())
    );
}

#[test]
fn group_names_round_trip() {
    for g in GROUPS {
        assert_eq!(BridgeGroup::from_name(g.name()), Ok(g));
        assert_eq!(BridgeGroup::from_name(&g.to_string().to_uppercase()), Ok(g));
        assert_eq!(g.name().parse::<BridgeGroup>(), Ok(g));
    }
}

#[test]
fn from_lowercase_name_is_exact() {
    assert_eq!(BridgeGroup::from_lowercase_name("sms"), Ok(BridgeGroup::Sms));
    assert_eq!(
        BridgeGroup::from_lowercase_name("SMS"),
        Err("Unknown bridge group: SMS".to_string())
    );
}

#[test]
fn all_group_is_disjoint_union_of_the_others() {
    let all: Vec<Permission> = BridgeGroup::All.permission_list();
    let mut seen: Vec<Permission> = Vec::new();
    for g in GROUPS.iter().take(12) {
        for p in g.permission_list() {
            assert!(all.contains(&p));
            assert!(!seen.contains(&p));
            seen.push(p);
        }
    }
    assert_eq!(seen.len(), all.len());
}

#[test]
fn permission_names_are_distinct() {
    let names = BridgeGroup::All.permissions();
    for i in 0..names.len() {
        for j in 0..i {
            assert_ne!(names[i], names[j]);
        }
    }
}
