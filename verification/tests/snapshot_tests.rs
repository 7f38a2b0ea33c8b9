use grif_scene::codec::{decode_fixed, encode_fixed, parse_snapshot, serialize_snapshot};
use grif_scene::scene::{LightKind, SceneWorld};
use grif_scene::snapshot::{attach_snapshot, save_payload, ColorRgba, LightRec};

#[test]
fn payload_is_26_point_lights_one_unit_apart() {
    let lights = save_payload();
    assert_eq!(lights.len(), 26);
    for (i, l) in lights.iter().enumerate() {
        assert_eq!(l.kind, LightKind::Point);
        assert_eq!((l.x, l.y, l.z), (i as u32, 5, 0));
        assert_eq!(l.color, ColorRgba { red: 1, green: 1, blue: 0, alpha: 1 });
        // Positions are exact in single-precision floating point too.
        assert_eq!(l.x as f32, i as f32);
        assert_eq!(l.y as f32, 5.0f32);
        assert_eq!(l.z as f32, 0.0f32);
    }
}

#[test]
fn round_trip_reconstructs_the_payload_exactly() {
    let lights = save_payload();
    let bytes = serialize_snapshot(&lights);
    let back = parse_snapshot(&bytes).expect("a serialized snapshot must parse");
    assert_eq!(back, lights);
    for (a, b) in lights.iter().zip(back.iter()) {
        assert_eq!(a.x as f32, b.x as f32, "positions round-trip exactly");
        assert_eq!(a.color.red as f32, b.color.red as f32, "colors round-trip exactly");
    }
}

#[test]
fn serialized_snapshot_is_readable_text() {
    let lights = save_payload();
    let bytes = serialize_snapshot(&lights);
    let text = String::from_utf8(bytes).expect("the snapshot is text");
    let mut lines = text.lines();
    assert_eq!(lines.next(), Some("lights 0000000026"));
    assert_eq!(
        lines.next(),
        Some("p 0000000000 0000000005 0000000000 0000000001 0000000001 0000000000 0000000001"),
    );
}

#[test]
fn round_trip_covers_every_light_kind() {
    let lights = vec![
        LightRec {
            kind: LightKind::Point,
            x: 1,
            y: 2,
            z: 3,
            color: ColorRgba { red: 4, green: 5, blue: 6, alpha: 7 },
        },
        LightRec {
            kind: LightKind::Directional,
            x: 0,
            y: 0,
            z: 0,
            color: ColorRgba { red: 0, green: 0, blue: 0, alpha: 0 },
        },
        LightRec {
            kind: LightKind::Spot,
            x: u32::MAX,
            y: 4294967295,
            z: 12345,
            color: ColorRgba { red: 255, green: 128, blue: 1, alpha: 99 },
        },
    ];
    let bytes = serialize_snapshot(&lights);
    assert_eq!(parse_snapshot(&bytes), Some(lights));
}

#[test]
fn parse_rejects_garbage() {
    assert_eq!(parse_snapshot(&b"not a snapshot at all".to_vec()), None);
    assert_eq!(parse_snapshot(&Vec::new()), None);
}

#[test]
fn parse_rejects_truncation_and_tampering() {
    let bytes = serialize_snapshot(&save_payload());
    let mut truncated = bytes.clone();
    truncated.pop();
    assert_eq!(parse_snapshot(&truncated), None, "a short file is refused");
    let mut wrong_kind = bytes.clone();
    wrong_kind[18] = b'x';
    assert_eq!(parse_snapshot(&wrong_kind), None, "an unknown kind is refused");
    let mut wrong_digit = bytes;
    wrong_digit[20] = b'?';
    assert_eq!(parse_snapshot(&wrong_digit), None, "a non-digit is refused");
}

#[test]
fn attach_spawns_one_light_entity_per_record() {
    let lights = save_payload();
    let mut w = SceneWorld::new();
    let existing = w.spawn(None, None, false, false, false);
    let first = attach_snapshot(&mut w, &lights);
    assert_eq!(first, existing + 1);
    assert_eq!(w.num_entities(), 27);
    for k in 0..26 {
        assert!(w.alive[first + k]);
        assert_eq!(w.light[first + k], Some(LightKind::Point));
        assert!(!w.generated[first + k]);
    }
}

#[test]
fn fixed_width_decimal_codec() {
    let e = encode_fixed(26, 10);
    assert_eq!(e, b"0000000026".to_vec());
    assert_eq!(encode_fixed(u32::MAX, 10), b"4294967295".to_vec());
    assert_eq!(decode_fixed(&e, 0, 10), Some(26));
    assert_eq!(decode_fixed(&b"00x0000026".to_vec(), 0, 10), None);
}
