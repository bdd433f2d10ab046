use bag2rrd::mappings::laserscan::{parse_laserscan, LaserScan};
use bag2rrd::wire::{DecodeError, Field};

fn scan_payload(ranges: &[f32]) -> Vec<u8> {
    let mut data = Vec::new();
    data.extend_from_slice(&0u32.to_le_bytes()); // seq
    data.extend_from_slice(&0u32.to_le_bytes()); // stamp sec
    data.extend_from_slice(&0u32.to_le_bytes()); // stamp nsec
    data.extend_from_slice(&0u32.to_le_bytes()); // frame_id len
    data.extend_from_slice(&(-1.0f32).to_le_bytes());
    data.extend_from_slice(&1.0f32.to_le_bytes());
    data.extend_from_slice(&0.1f32.to_le_bytes());
    data.extend_from_slice(&0.0f32.to_le_bytes());
    data.extend_from_slice(&0.0f32.to_le_bytes());
    data.extend_from_slice(&0.1f32.to_le_bytes());
    data.extend_from_slice(&10.0f32.to_le_bytes());
    data.extend_from_slice(&(ranges.len() as u32).to_le_bytes());
    data.extend_from_slice(&0u32.to_le_bytes());
    for r in ranges {
        data.extend_from_slice(&r.to_le_bytes());
    }
    data
}

/// The points of a scan: a range within the bounds gives a point on its ray,
/// any other range a point that is not a number.
fn points(scan: &LaserScan) -> Vec<(f32, f32)> {
    let angle_min = f32::from_bits(scan.angle_min);
    let angle_increment = f32::from_bits(scan.angle_increment);
    let range_min = f32::from_bits(scan.range_min);
    let range_max = f32::from_bits(scan.range_max);
    scan.ranges
        .iter()
        .enumerate()
        .map(|(i, bits)| {
            let r = f32::from_bits(*bits);
            if r.is_finite() && r >= range_min && r <= range_max {
                let angle = angle_min + i as f32 * angle_increment;
                (r * angle.cos(), r * angle.sin())
            } else {
                (f32::NAN, f32::NAN)
            }
        })
        .collect()
}

#[test]
fn test_parse_laserscan() {
    let ranges_len = 10;
    let ranges: Vec<f32> =
        (0..ranges_len).map(|i| if i % 2 == 0 { 1.0f32 } else { f32::NAN }).collect();
    let data = scan_payload(&ranges);

    let points = points(&parse_laserscan(&data).unwrap());

    assert_eq!(points.len(), 10);
    assert!(points[0].0.is_finite() && points[0].1.is_finite());
    assert!(points[1].0.is_nan() || points[1].1.is_nan());
}

#[test]
fn scan_fields_are_read_in_order() {
    let scan = parse_laserscan(&scan_payload(&[0.5, 2.5])).unwrap();
    assert_eq!(
        scan,
        LaserScan {
            angle_min: (-1.0f32).to_bits(),
            angle_increment: 0.1f32.to_bits(),
            range_min: 0.1f32.to_bits(),
            range_max: 10.0f32.to_bits(),
            ranges: vec![0.5f32.to_bits(), 2.5f32.to_bits()],
        }
    );
}

#[test]
fn scan_cut_short_names_the_field() {
    let payload = scan_payload(&[0.5, 2.5]);
    let expected = [
        (15, Field::FrameIdLength),
        (19, Field::AngleMin),
        (23, Field::AngleMax),
        (27, Field::AngleIncrement),
        (35, Field::RangeMin),
        (39, Field::RangeMin),
        (43, Field::RangeMax),
        (47, Field::RangeCount),
        (51, Field::IntensityCount),
        (52, Field::Range),
        (59, Field::Range),
    ];
    for (len, field) in expected {
        assert_eq!(parse_laserscan(&payload[..len]).err(), Some(DecodeError::Truncated(field)));
    }
    assert!(parse_laserscan(&payload[..60]).is_ok());
}
