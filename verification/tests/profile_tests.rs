use linuxblaster_control::profile::ProfileEntry;
use linuxblaster_control::{BlasterXG6, DeviceError, FeatureType};

fn fresh() -> BlasterXG6 {
    BlasterXG6::new().expect("the default catalog validates")
}

fn entry(name: &str, value: FeatureType) -> ProfileEntry {
    ProfileEntry { name: name.to_string(), value }
}

#[test]
fn snapshot_holds_only_non_defaults() {
    let mut d = fresh();
    assert!(d.snapshot_sparse().is_empty());
    d.set_feature("Surround", Some(true)).unwrap();
    d.set_slider("EQ 1kHz", 225).unwrap();
    let snap = d.snapshot_sparse();
    let names: Vec<&str> = snap.iter().map(|e| e.name.as_str()).collect();
    // the cascade enabled the suite and the equalizer as well
    assert_eq!(names, vec!["SBX", "Surround", "Equalizer", "EQ 1kHz"]);
    for e in &snap {
        match e.value {
            FeatureType::Toggle(b) => assert!(b),
            FeatureType::Slider(c) => assert_eq!(c, 225),
        }
    }
}

#[test]
fn snapshot_then_replay_reproduces_the_state() {
    let mut d = fresh();
    d.set_feature("Scout Mode", Some(true)).unwrap();
    d.set_feature("Scout Mode", Some(false)).unwrap();
    d.set_feature("Dialog+", Some(true)).unwrap();
    d.set_slider("Dialog+ Slider", 6550).unwrap();
    d.set_slider("EQ 250Hz", -325).unwrap();
    let configured = d.features.clone();
    let snap = d.snapshot_sparse();
    d.reset().unwrap();
    assert!(d.snapshot_sparse().is_empty());
    d.apply_profile(&snap).unwrap();
    assert_eq!(d.features, configured);
}

#[test]
fn replay_reestablishes_invariants() {
    // a profile that names only a slider still enables the features the
    // slider depends on
    let mut d = fresh();
    let snap = vec![entry("Crystalizer Slider", FeatureType::Slider(4000))];
    d.apply_profile(&snap).unwrap();
    assert_eq!(d.get_feature("SBX").unwrap().value, FeatureType::Toggle(true));
    assert_eq!(d.get_feature("Crystalizer").unwrap().value, FeatureType::Toggle(true));
    assert_eq!(d.get_feature("Crystalizer Slider").unwrap().value, FeatureType::Slider(4000));
}

#[test]
fn unknown_name_fails_whole_load_before_any_mutation() {
    let mut d = fresh();
    let before = d.features.clone();
    let snap = vec![
        entry("SBX", FeatureType::Toggle(true)),
        entry("Unknown Feature", FeatureType::Toggle(true)),
    ];
    assert_eq!(d.apply_profile(&snap).unwrap_err(), DeviceError::NotFound);
    // nothing was applied, not even the valid record before the bad one
    assert_eq!(d.features, before);
    assert_eq!(d.get_feature("SBX").unwrap().value, FeatureType::Toggle(false));
}

#[test]
fn kind_mismatch_fails_whole_load() {
    let mut d = fresh();
    let before = d.features.clone();
    let snap = vec![
        entry("Surround", FeatureType::Toggle(true)),
        entry("Bass", FeatureType::Slider(5000)),
    ];
    assert_eq!(d.apply_profile(&snap).unwrap_err(), DeviceError::WrongKind);
    assert_eq!(d.features, before);
}

#[test]
fn out_of_range_slider_fails_whole_load() {
    let mut d = fresh();
    let before = d.features.clone();
    let snap = vec![
        entry("Surround", FeatureType::Toggle(true)),
        entry("Bass Slider", FeatureType::Slider(i32::MAX)),
    ];
    assert_eq!(d.apply_profile(&snap).unwrap_err(), DeviceError::Malformed);
    assert_eq!(d.features, before);
}

#[test]
fn replay_reenables_what_a_disabled_suite_left_behind() {
    // disabling a suite deliberately leaves dependent sliders at their
    // stored positions; replaying such a snapshot re-enables what the
    // slider depends on, so the snapshot round trip holds only of states
    // whose non-zero sliders still have their dependencies enabled
    let mut d = fresh();
    d.set_slider("Bass Slider", 500).unwrap();
    d.set_feature("SBX", Some(false)).unwrap();
    let snap = d.snapshot_sparse();
    d.reset().unwrap();
    d.apply_profile(&snap).unwrap();
    assert_eq!(d.get_feature("Bass Slider").unwrap().value, FeatureType::Slider(500));
    // the replayed state differs from the saved one exactly here
    assert_eq!(d.get_feature("SBX").unwrap().value, FeatureType::Toggle(true));
    assert_eq!(d.get_feature("Bass").unwrap().value, FeatureType::Toggle(true));
}

#[test]
fn disabled_toggle_records_replay_too() {
    let mut d = fresh();
    d.set_feature("Bass", Some(true)).unwrap();
    let snap = vec![entry("Bass", FeatureType::Toggle(false))];
    d.apply_profile(&snap).unwrap();
    assert_eq!(d.get_feature("Bass").unwrap().value, FeatureType::Toggle(false));
}
