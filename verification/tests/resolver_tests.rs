use linuxblaster_control::{BlasterXG6, DeviceError, FeatureType, Payload};

fn fresh() -> BlasterXG6 {
    BlasterXG6::new().expect("the default catalog validates")
}

fn toggle_state(d: &BlasterXG6, name: &str) -> bool {
    d.get_feature(name).unwrap().value.as_bool().unwrap()
}

fn slider_state(d: &BlasterXG6, name: &str) -> i32 {
    d.get_feature(name).unwrap().value.as_centi().unwrap()
}

fn assert_channel_frame(p: &Payload, idx: u8, float: f32) {
    assert_eq!(p.data.len(), 65);
    assert_eq!(p.commit.len(), 65);
    assert_eq!(&p.data[0..7], &[0x00, 0x5a, 0x12, 0x07, 0x01, 0x96, idx]);
    assert_eq!(&p.data[7..11], &float.to_le_bytes());
    assert_eq!(&p.commit[0..7], &[0x00, 0x5a, 0x11, 0x03, 0x01, 0x96, idx]);
}

#[test]
fn enabling_enables_transitive_dependencies() {
    let mut d = fresh();
    // the surround strength slider depends on both the effect toggle and
    // the whole suite
    d.set_slider("Surround Slider", 4200).unwrap();
    assert!(toggle_state(&d, "SBX"));
    assert!(toggle_state(&d, "Surround"));
    assert_eq!(slider_state(&d, "Surround Slider"), 4200);
}

#[test]
fn enabling_a_toggle_enables_its_dependency() {
    let mut d = fresh();
    d.set_feature("Crystalizer", Some(true)).unwrap();
    assert!(toggle_state(&d, "SBX"));
    assert!(toggle_state(&d, "Crystalizer"));
}

#[test]
fn disabling_cascades_over_enabled_toggle_dependents() {
    let mut d = fresh();
    d.set_feature("Surround", Some(true)).unwrap();
    d.set_feature("Crystalizer", Some(true)).unwrap();
    d.set_slider("Crystalizer Slider", 6000).unwrap();
    // disabling the suite turns the dependent toggles off ...
    d.set_feature("SBX", Some(false)).unwrap();
    assert!(!toggle_state(&d, "SBX"));
    assert!(!toggle_state(&d, "Surround"));
    assert!(!toggle_state(&d, "Crystalizer"));
    // ... but dependent sliders keep their stored positions
    assert_eq!(slider_state(&d, "Crystalizer Slider"), 6000);
}

#[test]
fn exclusive_pair_never_reads_both_enabled() {
    let mut d = fresh();
    d.set_feature("SBX", Some(true)).unwrap();
    d.set_feature("Scout Mode", Some(true)).unwrap();
    assert!(!toggle_state(&d, "SBX"));
    assert!(toggle_state(&d, "Scout Mode"));
    // and the other way round
    d.set_feature("SBX", Some(true)).unwrap();
    assert!(toggle_state(&d, "SBX"));
    assert!(!toggle_state(&d, "Scout Mode"));
}

#[test]
fn exclusion_cascades_over_the_partners_dependents() {
    let mut d = fresh();
    d.set_feature("Equalizer", Some(true)).unwrap();
    assert!(toggle_state(&d, "SBX"));
    d.set_feature("Scout Mode", Some(true)).unwrap();
    assert!(!toggle_state(&d, "SBX"));
    assert!(!toggle_state(&d, "Equalizer"));
    assert!(toggle_state(&d, "Scout Mode"));
}

#[test]
fn toggling_without_explicit_value_inverts() {
    let mut d = fresh();
    d.set_feature("Scout Mode", None).unwrap();
    assert!(toggle_state(&d, "Scout Mode"));
    d.set_feature("Scout Mode", None).unwrap();
    assert!(!toggle_state(&d, "Scout Mode"));
}

#[test]
fn enabling_equalizer_from_rest_sends_two_frame_pairs() {
    let mut d = fresh();
    let frames = d.set_feature("Equalizer", Some(true)).unwrap();
    assert!(toggle_state(&d, "Equalizer"));
    assert!(toggle_state(&d, "SBX"));
    assert_eq!(frames.len(), 2);
    // the dependency goes out first: the suite toggle in its own family
    assert_eq!(&frames[0].data[0..8], &[0x00, 0x5a, 0x26, 0x05, 0x07, 0x01, 0x00, 0x01]);
    assert_eq!(&frames[0].commit[0..7], &[0x00, 0x5a, 0x26, 0x03, 0x08, 0xff, 0xff]);
    // then the equalizer toggle as a channel-family encoding of 1.0
    assert_channel_frame(&frames[1], 0x09, 1.0);
}

#[test]
fn setting_band_slider_enables_suite_and_equalizer_first() {
    let mut d = fresh();
    let frames = d.set_slider("EQ 31Hz", 350).unwrap();
    assert!(toggle_state(&d, "SBX"));
    assert!(toggle_state(&d, "Equalizer"));
    assert_eq!(slider_state(&d, "EQ 31Hz"), 350);
    assert_eq!(frames.len(), 3);
    assert_eq!(frames[0].data[2], 0x26); // the suite toggle
    assert_channel_frame(&frames[1], 0x09, 1.0); // the equalizer toggle
    // the band itself carries exactly 3.5 in its float segment
    assert_channel_frame(&frames[2], 0x0b, 3.5);
}

#[test]
fn redundant_dependency_frames_are_not_sent() {
    let mut d = fresh();
    d.set_feature("SBX", Some(true)).unwrap();
    let frames = d.set_feature("Bass", Some(true)).unwrap();
    // the suite is already enabled: only the effect's own frame pair goes out
    assert_eq!(frames.len(), 1);
    assert_channel_frame(&frames[0], 0x18, 1.0);
}

#[test]
fn unknown_feature_reports_not_found() {
    let mut d = fresh();
    assert_eq!(d.set_feature("No Such Feature", Some(true)).unwrap_err(), DeviceError::NotFound);
    assert_eq!(d.set_slider("No Such Feature", 100).unwrap_err(), DeviceError::NotFound);
    assert!(d.get_feature("No Such Feature").is_err());
    assert!(d.get_dependencies("No Such Feature").is_none());
}

#[test]
fn kind_mismatch_reports_wrong_kind() {
    let mut d = fresh();
    assert_eq!(d.set_feature("Bass Slider", Some(true)).unwrap_err(), DeviceError::WrongKind);
    assert_eq!(d.set_slider("Bass", 100).unwrap_err(), DeviceError::WrongKind);
    // a failed request changes nothing
    assert!(!toggle_state(&d, "Bass"));
    assert_eq!(slider_state(&d, "Bass Slider"), 0);
}

#[test]
fn dependency_and_dependent_lookups() {
    let d = fresh();
    let deps = d.get_dependencies("EQ Pre-Amp").unwrap();
    assert_eq!(deps, vec!["SBX".to_string(), "Equalizer".to_string()]);
    let dependents = d.get_dependents("Equalizer");
    assert_eq!(dependents.len(), 11);
    assert!(dependents.contains(&"EQ Pre-Amp".to_string()));
    assert!(dependents.contains(&"EQ 31Hz".to_string()));
    assert!(dependents.contains(&"EQ 16kHz".to_string()));
    assert!(d.get_dependents("Output Mode").is_empty());
}

#[test]
fn ten_band_eq_snapshot() {
    let mut d = fresh();
    assert_eq!(d.get_ten_band_eq().unwrap(), vec![0i32; 11]);
    d.set_slider("EQ Pre-Amp", -150).unwrap();
    d.set_slider("EQ 62Hz", 475).unwrap();
    let bands = d.get_ten_band_eq().unwrap();
    assert_eq!(bands.len(), 11);
    assert_eq!(bands[0], -150);
    assert_eq!(bands[2], 475);
    assert!(bands[1] == 0 && bands[3..].iter().all(|&b| b == 0));
}

#[test]
fn reset_returns_every_feature_to_default() {
    let mut d = fresh();
    d.set_feature("Output Mode", Some(true)).unwrap();
    d.set_slider("Bass Slider", 8000).unwrap();
    d.set_slider("EQ 4kHz", -900).unwrap();
    let frames = d.reset().unwrap();
    assert!(!frames.is_empty());
    for f in &d.features {
        match f.value {
            FeatureType::Toggle(b) => assert!(!b, "{} should be off", f.name),
            FeatureType::Slider(c) => assert_eq!(c, 0, "{} should be zero", f.name),
        }
    }
}

#[test]
fn no_toggle_stays_enabled_with_a_disabled_dependency() {
    let mut d = fresh();
    let check = |d: &BlasterXG6| {
        for f in &d.features {
            if f.value == FeatureType::Toggle(true) {
                for dep in &f.dependencies {
                    assert_eq!(
                        d.get_feature(dep).unwrap().value,
                        FeatureType::Toggle(true),
                        "{} is enabled but its dependency {} is not",
                        f.name,
                        dep
                    );
                }
            }
        }
    };
    d.set_feature("Equalizer", Some(true)).unwrap();
    check(&d);
    d.set_slider("Smart Volume Special", 777).unwrap();
    check(&d);
    d.set_feature("Scout Mode", Some(true)).unwrap();
    check(&d);
    d.set_feature("Surround", Some(true)).unwrap();
    check(&d);
    d.set_feature("SBX", Some(false)).unwrap();
    check(&d);
    d.reset().unwrap();
    check(&d);
}

#[test]
fn value_kinds_never_change() {
    let mut d = fresh();
    let kinds: Vec<bool> =
        d.features.iter().map(|f| matches!(f.value, FeatureType::Toggle(_))).collect();
    d.set_feature("Smart Volume", Some(true)).unwrap();
    d.set_slider("Smart Volume Special", 123).unwrap();
    d.set_feature("SBX", Some(false)).unwrap();
    d.reset().unwrap();
    let after: Vec<bool> =
        d.features.iter().map(|f| matches!(f.value, FeatureType::Toggle(_))).collect();
    assert_eq!(kinds, after);
}
