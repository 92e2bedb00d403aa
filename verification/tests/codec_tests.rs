use linuxblaster_control::{create_payload, decode_channel_value, format_hex, value_to_bytes};
use linuxblaster_control::{DeviceError, Format};

#[test]
fn test_value_to_bytes() {
    assert_eq!(value_to_bytes(0), 0.0f32.to_le_bytes());
    assert_eq!(value_to_bytes(100), 1.0f32.to_le_bytes());
    assert_eq!(value_to_bytes(50), 0.5f32.to_le_bytes());
}

#[test]
fn test_value_to_bytes_edge_cases() {
    // Test boundary values for value_to_bytes
    assert_eq!(value_to_bytes(0), 0.0f32.to_le_bytes());
    assert_eq!(value_to_bytes(100), 1.0f32.to_le_bytes());
    assert_eq!(value_to_bytes(1), 0.01f32.to_le_bytes());
    assert_eq!(value_to_bytes(99), 0.99f32.to_le_bytes());
    assert_eq!(value_to_bytes(50), 0.5f32.to_le_bytes());
}

#[test]
fn channel_frame_layout() {
    // Crystalizer toggle index, enabled: the wire carries 10000/10000 = 1.0
    let p = create_payload(&Format::SBX(0x07), 10000).unwrap();
    assert_eq!(p.data.len(), 65);
    assert_eq!(p.commit.len(), 65);
    assert_eq!(p.data[0], 0x00);
    assert_eq!(p.data[1], 0x5a);
    assert_eq!(p.data[2], 0x12);
    assert_eq!(p.data[3], 0x07);
    assert_eq!(p.data[4], 0x01);
    assert_eq!(p.data[5], 0x96);
    assert_eq!(p.data[6], 0x07);
    assert_eq!(&p.data[7..11], &1.0f32.to_le_bytes());
    assert!(p.data[11..].iter().all(|&b| b == 0));
    assert_eq!(p.commit[0], 0x00);
    assert_eq!(p.commit[1], 0x5a);
    assert_eq!(p.commit[2], 0x11);
    assert_eq!(p.commit[3], 0x03);
    assert_eq!(p.commit[4], 0x01);
    assert_eq!(p.commit[5], 0x96);
    assert_eq!(p.commit[6], 0x07);
    assert!(p.commit[7..].iter().all(|&b| b == 0));
}

#[test]
fn channel_frame_scaling_conventions() {
    // an equalizer band index carries the value unscaled: 3.5 dB
    let eq = create_payload(&Format::SBX(0x0b), 350).unwrap();
    assert_eq!(&eq.data[7..11], &3.5f32.to_le_bytes());
    // the pre-amp index is unscaled too
    let pre = create_payload(&Format::SBX(0x0a), -600).unwrap();
    assert_eq!(&pre.data[7..11], &(-6.0f32).to_le_bytes());
    // any other channel index is divided by one hundred: 75 % becomes 0.75
    let sl = create_payload(&Format::SBX(0x01), 7500).unwrap();
    assert_eq!(&sl.data[7..11], &0.75f32.to_le_bytes());
    // a value that is not exactly representable still rounds as the
    // device's own float type would
    let odd = create_payload(&Format::SBX(0x01), 3333).unwrap();
    assert_eq!(&odd.data[7..11], &0.3333f32.to_le_bytes());
}

#[test]
fn global_frame_layout() {
    let on = create_payload(&Format::Global(0x01), 10000).unwrap();
    assert_eq!(on.data[0], 0x00);
    assert_eq!(on.data[1], 0x5a);
    assert_eq!(on.data[2], 0x26);
    assert_eq!(on.data[3], 0x05);
    assert_eq!(on.data[4], 0x07);
    assert_eq!(on.data[5], 0x01);
    assert_eq!(on.data[6], 0x00);
    assert_eq!(on.data[7], 0x01);
    assert!(on.data[8..].iter().all(|&b| b == 0));
    assert_eq!(on.commit[1], 0x5a);
    assert_eq!(on.commit[2], 0x26);
    assert_eq!(on.commit[3], 0x03);
    assert_eq!(on.commit[4], 0x08);
    assert_eq!(on.commit[5], 0xff);
    assert_eq!(on.commit[6], 0xff);
    let off = create_payload(&Format::Global(0x02), 0).unwrap();
    assert_eq!(off.data[5], 0x02);
    assert_eq!(off.data[7], 0x00);
}

#[test]
fn routing_frame_layout() {
    let on = create_payload(&Format::Routing(0x05), 10000).unwrap();
    assert_eq!(on.data[1], 0x5a);
    assert_eq!(on.data[2], 0x2c);
    assert_eq!(on.data[3], 0x05);
    assert_eq!(on.data[4], 0x00);
    assert_eq!(on.data[5], 0x04);
    let off = create_payload(&Format::Routing(0x05), 0).unwrap();
    assert_eq!(off.data[5], 0x02);
    assert_eq!(on.commit[2], 0x2c);
    assert_eq!(on.commit[3], 0x01);
    assert_eq!(on.commit[4], 0x01);
    assert_eq!(on.commit[5], 0x00);
}

#[test]
fn color_family_is_unimplemented() {
    assert_eq!(create_payload(&Format::RGB(0x00), 10000), Err(DeviceError::Unimplemented));
    assert_eq!(create_payload(&Format::RGB(0x07), 0), Err(DeviceError::Unimplemented));
}

#[test]
fn codec_round_trip_recovers_centiunits() {
    // decoding the float segment and reversing the index-dependent scaling
    // reproduces the original value exactly
    for &idx in &[0x0au8, 0x0b, 0x14] {
        for &centi in &[0i32, 1, -1, 350, -1200, 1200, 777, 12345, -98765, 8388608, -8388608] {
            let p = create_payload(&Format::SBX(idx), centi).unwrap();
            let got = decode_channel_value(p.data[7], p.data[8], p.data[9], p.data[10], idx);
            assert_eq!(got, Some(centi as i64), "band index {idx}, value {centi}");
        }
    }
    for &idx in &[0x00u8, 0x01, 0x07, 0x19, 0xff] {
        for &centi in &[0i32, 1, -1, 10000, 7500, 3333, 250000, -250000] {
            let p = create_payload(&Format::SBX(idx), centi).unwrap();
            let got = decode_channel_value(p.data[7], p.data[8], p.data[9], p.data[10], idx);
            assert_eq!(got, Some(centi as i64), "effect index {idx}, value {centi}");
        }
    }
}

#[test]
fn hex_rendering() {
    assert_eq!(format_hex(&[]), "[]");
    assert_eq!(format_hex(&[0x00]), "[0x00]");
    assert_eq!(format_hex(&[0x00, 0x5a, 0x12, 0xff]), "[0x00, 0x5a, 0x12, 0xff]");
    let p = create_payload(&Format::Global(0x01), 10000).unwrap();
    assert_eq!(
        format_hex(&p.data[..8]),
        "[0x00, 0x5a, 0x26, 0x05, 0x07, 0x01, 0x00, 0x01]"
    );
}

#[test]
fn encoded_floats_match_reference_bit_patterns() {
    // spot checks against the platform float type, across both scalings
    let cases: &[(u8, i32, f32)] = &[
        (0x0b, 350, 3.5),
        (0x0b, -1200, -12.0),
        (0x0b, 1, 0.01),
        (0x01, 10000, 1.0),
        (0x01, 5000, 0.5),
        (0x01, 1, 0.0001),
        (0x01, -1234, -0.1234),
    ];
    for &(idx, centi, expected) in cases {
        let p = create_payload(&Format::SBX(idx), centi).unwrap();
        assert_eq!(
            &p.data[7..11],
            &expected.to_le_bytes(),
            "index {idx}, value {centi}"
        );
    }
}
