use linuxblaster_control::{default_features, EqBand, Equalizer, FeatureType, Format, SoundFeature};

#[test]
fn test_sound_feature_ids() {
    assert_eq!(SoundFeature::SurroundSound.id(), 0x00);
    assert_eq!(SoundFeature::Crystalizer.id(), 0x07);
    assert_eq!(SoundFeature::Bass.id(), 0x18);
    assert_eq!(SoundFeature::SmartVolume.id(), 0x04);
    assert_eq!(SoundFeature::DialogPlus.id(), 0x02);
    assert_eq!(SoundFeature::NightMode.id(), 0x06);
    assert_eq!(SoundFeature::LoudMode.id(), 0x06); // Same ID as NightMode
    assert_eq!(SoundFeature::Equalizer.id(), 0x09);

    let band = EqBand {
        value: 0,
        feature_id: 0x0b,
    };
    assert_eq!(SoundFeature::EqBand(band).id(), 0x0b);
}

#[test]
fn test_equalizer_bands() {
    let eq = Equalizer::default();
    let bands = eq.bands();
    assert_eq!(bands.len(), 10);

    // Test all 10 EQ band feature IDs in sequence
    let expected_ids =
        [0x0b, 0x0c, 0x0d, 0x0e, 0x0f, 0x10, 0x11, 0x12, 0x13, 0x14];
    for (i, expected_id) in expected_ids.iter().enumerate() {
        assert_eq!(
            bands[i].feature_id, *expected_id,
            "Band {i} should have feature_id {expected_id}"
        );
    }
}

#[test]
fn test_set_eq_band_conversion() {
    // Test u8 to dB conversion: (value / 100.0) * 24.0 - 12.0
    // 0 -> -12.0 dB
    let db_0 = (0.0f32 / 100.0).mul_add(24.0, -12.0);
    assert_eq!(db_0, -12.0);

    // 50 -> 0.0 dB
    let db_50 = (50.0f32 / 100.0).mul_add(24.0, -12.0);
    assert_eq!(db_50, 0.0);

    // 100 -> +12.0 dB
    let db_100 = (100.0f32 / 100.0).mul_add(24.0, -12.0);
    assert_eq!(db_100, 12.0);

    // Test some intermediate values
    let db_25 = (25.0f32 / 100.0).mul_add(24.0, -12.0);
    assert_eq!(db_25, -6.0);

    let db_75 = (75.0f32 / 100.0).mul_add(24.0, -12.0);
    assert_eq!(db_75, 6.0);
}

#[test]
fn catalog_defaults() {
    let features = default_features();
    assert_eq!(features.len(), 26);
    for f in &features {
        match f.value {
            FeatureType::Toggle(b) => assert!(!b, "{} should default to off", f.name),
            FeatureType::Slider(c) => assert_eq!(c, 0, "{} should default to zero", f.name),
        }
    }
    let sbx = features.iter().find(|f| f.name == "SBX").unwrap();
    assert_eq!(sbx.id, Format::Global(0x01));
    assert!(sbx.dependencies.is_empty());
    let eq = features.iter().find(|f| f.name == "Equalizer").unwrap();
    assert_eq!(eq.id, Format::SBX(0x09));
    assert_eq!(eq.dependencies, vec!["SBX".to_string()]);
    let band = features.iter().find(|f| f.name == "EQ 31Hz").unwrap();
    assert_eq!(band.id, Format::SBX(0x0b));
    assert_eq!(band.dependencies, vec!["SBX".to_string(), "Equalizer".to_string()]);
    let out = features.iter().find(|f| f.name == "Output Mode").unwrap();
    assert_eq!(out.id, Format::Routing(0x05));
}

#[test]
fn feature_value_accessors() {
    let t = FeatureType::Toggle(true);
    assert_eq!(t.as_bool(), Some(true));
    assert_eq!(t.as_centi(), None);
    let s = FeatureType::Slider(-250);
    assert_eq!(s.as_bool(), None);
    assert_eq!(s.as_centi(), Some(-250));
}
