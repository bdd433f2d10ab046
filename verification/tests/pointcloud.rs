use bag2rrd::mappings::pointcloud::{
    is_finite_f32, parse_fields, parse_pointcloud2, read_color_at, read_f32_le_at, PointCloud,
};
use bag2rrd::wire::{DecodeError, Field};

fn cloud_payload(
    fields: &[(&str, u32)],
    big_endian: bool,
    point_step: u32,
    height: u32,
    width: u32,
    points: &[u8],
) -> Vec<u8> {
    let mut data = Vec::new();
    data.extend_from_slice(&0u32.to_le_bytes());
    data.extend_from_slice(&0u32.to_le_bytes());
    data.extend_from_slice(&0u32.to_le_bytes());
    data.extend_from_slice(&0u32.to_le_bytes());
    data.extend_from_slice(&height.to_le_bytes());
    data.extend_from_slice(&width.to_le_bytes());
    data.extend_from_slice(&(fields.len() as u32).to_le_bytes());
    for (name, offset) in fields {
        data.extend_from_slice(&(name.len() as u32).to_le_bytes());
        data.extend_from_slice(name.as_bytes());
        data.extend_from_slice(&offset.to_le_bytes());
        data.push(7);
        data.extend_from_slice(&1u32.to_le_bytes());
    }
    data.push(big_endian as u8);
    data.extend_from_slice(&point_step.to_le_bytes());
    data.extend_from_slice(&(point_step * width).to_le_bytes());
    data.extend_from_slice(&(points.len() as u32).to_le_bytes());
    data.extend_from_slice(points);
    data.push(1);
    data
}

fn point(x: f32, y: f32, z: f32, rgb: u32) -> Vec<u8> {
    let mut p = Vec::new();
    p.extend_from_slice(&x.to_le_bytes());
    p.extend_from_slice(&y.to_le_bytes());
    p.extend_from_slice(&z.to_le_bytes());
    p.extend_from_slice(&f32::from_bits(rgb).to_le_bytes());
    p
}

#[test]
fn test_parse_pointcloud2() {
    let mut data = Vec::new();
    data.extend_from_slice(&0u32.to_le_bytes()); // seq
    data.extend_from_slice(&0u32.to_le_bytes()); // stamp sec
    data.extend_from_slice(&0u32.to_le_bytes()); // stamp nsec
    data.extend_from_slice(&0u32.to_le_bytes()); // frame_id len
    data.extend_from_slice(&1u32.to_le_bytes());
    data.extend_from_slice(&4u32.to_le_bytes());
    let fields = vec![("x", 0u32, 7u8, 1u32), ("y", 4u32, 7, 1), ("z", 8u32, 7, 1), ("rgb", 12u32, 7, 1)];
    data.extend_from_slice(&(fields.len() as u32).to_le_bytes());
    for (name, offset, datatype, count) in fields {
        data.extend_from_slice(&(name.len() as u32).to_le_bytes());
        data.extend_from_slice(name.as_bytes());
        data.extend_from_slice(&offset.to_le_bytes());
        data.extend_from_slice(&datatype.to_le_bytes());
        data.extend_from_slice(&count.to_le_bytes());
    }
    data.extend_from_slice(&0u8.to_le_bytes());
    data.extend_from_slice(&16u32.to_le_bytes());
    data.extend_from_slice(&64u32.to_le_bytes());
    let points_data_len = 4 * 16;
    data.extend_from_slice(&(points_data_len as u32).to_le_bytes());
    for i in 0..4 {
        let x = i as f32;
        let y = (i + 1) as f32;
        let z = (i + 2) as f32;
        let rgb = ((i as u32) << 16) | ((i as u32) << 8) | i as u32;
        let rgb_f32 = f32::from_bits(rgb);
        data.extend_from_slice(&x.to_le_bytes());
        data.extend_from_slice(&y.to_le_bytes());
        data.extend_from_slice(&z.to_le_bytes());
        data.extend_from_slice(&rgb_f32.to_le_bytes());
    }
    data.extend_from_slice(&1u8.to_le_bytes());

    let cloud = parse_pointcloud2(&data).unwrap();
    let positions = cloud.positions;
    let colors = cloud.colors;

    assert_eq!(positions.len(), 4);
    assert_eq!(colors.as_ref().unwrap().len(), 4);
    assert_eq!(positions[0], [0.0f32.to_bits(), 1.0f32.to_bits(), 2.0f32.to_bits()]);
    assert_eq!(colors.as_ref().unwrap()[0], [0, 0, 0]);
    assert_eq!(positions[3], [3.0f32.to_bits(), 4.0f32.to_bits(), 5.0f32.to_bits()]);
    assert_eq!(colors.as_ref().unwrap()[3], [3, 3, 3]);
}

#[test]
fn colours_are_red_green_blue_from_the_packed_word() {
    let mut points = point(1.0, 2.0, 3.0, 0x00_11_22_33);
    points.extend(point(4.0, 5.0, 6.0, 0xff_aa_bb_cc));
    let payload =
        cloud_payload(&[("x", 0), ("y", 4), ("z", 8), ("rgba", 12)], false, 16, 1, 2, &points);
    let cloud = parse_pointcloud2(&payload).unwrap();
    assert_eq!(cloud.colors, Some(vec![[0x11, 0x22, 0x33], [0xaa, 0xbb, 0xcc]]));
}

#[test]
fn points_that_are_not_finite_are_left_out_with_their_colour() {
    let mut points = point(1.0, 2.0, 3.0, 1);
    points.extend(point(f32::NAN, 2.0, 3.0, 2));
    points.extend(point(1.0, f32::INFINITY, 3.0, 3));
    points.extend(point(1.0, 2.0, f32::NEG_INFINITY, 4));
    points.extend(point(-7.5, 0.0, 1e-40, 5));
    let payload =
        cloud_payload(&[("x", 0), ("y", 4), ("z", 8), ("rgb", 12)], false, 16, 1, 5, &points);
    let cloud = parse_pointcloud2(&payload).unwrap();
    assert_eq!(
        cloud.positions,
        vec![
            [1.0f32.to_bits(), 2.0f32.to_bits(), 3.0f32.to_bits()],
            [(-7.5f32).to_bits(), 0.0f32.to_bits(), 1e-40f32.to_bits()],
        ]
    );
    assert_eq!(cloud.colors, Some(vec![[0, 0, 1], [0, 0, 5]]));
}

#[test]
fn cloud_without_colour_field_has_no_colours() {
    let points = point(1.0, 2.0, 3.0, 0);
    let payload = cloud_payload(&[("z", 8), ("y", 4), ("x", 0)], false, 16, 1, 1, &points);
    let cloud = parse_pointcloud2(&payload).unwrap();
    assert_eq!(cloud.positions.len(), 1);
    assert_eq!(cloud.colors, None);
}

#[test]
fn big_endian_cloud_and_cloud_without_xyz_have_no_points() {
    let points = point(1.0, 2.0, 3.0, 0);
    let empty = PointCloud { positions: vec![], colors: None };
    let payload = cloud_payload(&[("x", 0), ("y", 4), ("z", 8)], true, 16, 1, 1, &points);
    assert_eq!(parse_pointcloud2(&payload), Ok(empty.clone()));
    let payload = cloud_payload(&[("x", 0), ("y", 4), ("rgb", 12)], false, 16, 1, 1, &points);
    assert_eq!(parse_pointcloud2(&payload), Ok(empty));
}

#[test]
fn points_stop_where_the_data_ends() {
    let mut points = point(1.0, 2.0, 3.0, 0);
    points.extend(point(4.0, 5.0, 6.0, 0));
    points.extend_from_slice(&[0; 15]);
    let payload = cloud_payload(&[("x", 0), ("y", 4), ("z", 8)], false, 16, 10, 10, &points);
    assert_eq!(parse_pointcloud2(&payload).unwrap().positions.len(), 2);
}

#[test]
fn field_beyond_the_point_is_a_decode_error() {
    let points = point(1.0, 2.0, 3.0, 0);
    let payload = cloud_payload(&[("x", 0), ("y", 4), ("z", 13)], false, 16, 1, 1, &points);
    assert_eq!(parse_pointcloud2(&payload), Err(DecodeError::Truncated(Field::PointZ)));
    let payload =
        cloud_payload(&[("x", 0), ("y", 4), ("z", 8), ("rgb", 14)], false, 16, 1, 1, &points);
    assert_eq!(parse_pointcloud2(&payload), Err(DecodeError::Truncated(Field::PointColor)));
    let payload = cloud_payload(&[("x", 0), ("y", 4), ("z", 8)], false, 0, 1, 1, &points);
    assert_eq!(parse_pointcloud2(&payload), Err(DecodeError::Truncated(Field::PointX)));
}

#[test]
fn cloud_cut_short_names_the_field() {
    let points = point(1.0, 2.0, 3.0, 0);
    let payload = cloud_payload(&[("x", 0), ("y", 4), ("z", 8)], false, 16, 1, 1, &points);
    let expected = [
        (15, Field::FrameIdLength),
        (19, Field::Height),
        (23, Field::Width),
        (27, Field::FieldCount),
        (31, Field::FieldNameLength),
        (31 + 0, Field::FieldNameLength),
        (32 - 1 + 1, Field::FieldName),
        (36, Field::FieldOffset),
        (37 - 1 + 0, Field::FieldOffset),
        (37, Field::FieldDatatype),
        (41, Field::FieldRepeat),
    ];
    for (len, field) in expected {
        assert_eq!(parse_pointcloud2(&payload[..len]).err(), Some(DecodeError::Truncated(field)));
    }
    let after_fields = 28 + 3 * 14;
    assert_eq!(
        parse_pointcloud2(&payload[..after_fields]).err(),
        Some(DecodeError::Truncated(Field::Endianness))
    );
    assert_eq!(
        parse_pointcloud2(&payload[..after_fields + 4]).err(),
        Some(DecodeError::Truncated(Field::Step))
    );
    assert_eq!(
        parse_pointcloud2(&payload[..after_fields + 8]).err(),
        Some(DecodeError::Truncated(Field::RowStep))
    );
    assert_eq!(
        parse_pointcloud2(&payload[..after_fields + 12]).err(),
        Some(DecodeError::Truncated(Field::DataLength))
    );
    assert_eq!(
        parse_pointcloud2(&payload[..after_fields + 13 + 15]).err(),
        Some(DecodeError::Truncated(Field::Data))
    );
    assert!(parse_pointcloud2(&payload[..after_fields + 13 + 16]).is_ok());
}

#[test]
fn field_descriptions_are_read_one_after_another() {
    let payload = cloud_payload(&[("x", 0), ("intensity", 16)], false, 16, 1, 0, &[]);
    let mut cursor = 24;
    let fields = parse_fields(&payload, &mut cursor).unwrap();
    assert_eq!(fields.len(), 2);
    assert_eq!((fields[0].name.as_str(), fields[0].offset, fields[0].datatype, fields[0].count), ("x", 0, 7, 1));
    assert_eq!(fields[1].name, "intensity");
    assert_eq!(fields[1].offset, 16);
    assert_eq!(cursor, 24 + 4 + (4 + 1 + 9) + (4 + 9 + 9));
}

#[test]
fn finite_floats_are_those_with_an_exponent_not_all_ones() {
    for x in [0.0f32, -0.0, 1.0, -1.5, f32::MAX, f32::MIN, f32::MIN_POSITIVE, 1e-45] {
        assert!(is_finite_f32(x.to_bits()));
    }
    for x in [f32::NAN, f32::INFINITY, f32::NEG_INFINITY] {
        assert!(!is_finite_f32(x.to_bits()));
    }
    assert!(!is_finite_f32(0xffc0_0001));
}

#[test]
fn floats_and_colours_are_read_at_an_offset() {
    let data = [9, 0x33, 0x22, 0x11, 0xff, 7];
    assert_eq!(read_f32_le_at(&data, 1, Field::PointX), Ok(0xff11_2233));
    assert_eq!(read_f32_le_at(&data, 3, Field::PointY), Err(DecodeError::Truncated(Field::PointY)));
    assert_eq!(read_color_at(&data, 1), Ok([0x11, 0x22, 0x33]));
    assert_eq!(read_color_at(&data, 3), Err(DecodeError::Truncated(Field::PointColor)));
    assert_eq!(read_color_at(&data, usize::MAX), Err(DecodeError::Truncated(Field::PointColor)));
}
