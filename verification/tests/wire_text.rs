use bag2rrd::names::{compare_bytes, order_by_key, Standing};
use bag2rrd::paths::{
    map_frame_to_path, map_topic_to_path, normalize_path, split_once_equals,
    strip_leading_slashes,
};
use bag2rrd::text::{bytes_eq, contains_ignore_case, decimal, str_eq};
use bag2rrd::wire::{
    has_bytes, parse_quaternion, parse_vector3, read_bool, read_f32_le, read_f64_le, read_i8,
    read_string, read_u16_le, read_u32_le, read_u64_le, read_u8, skip_bytes, skip_header,
    DecodeError, Field,
};

#[test]
fn numbers_are_little_endian() {
    let data = [0x01, 0x02, 0x03, 0x04, 0x05, 0x06, 0x07, 0x08, 0xff];
    let mut c = 0;
    assert_eq!(read_u8(&data, &mut c, Field::Data), Ok(1));
    assert_eq!(c, 1);
    let mut c = 0;
    assert_eq!(read_u16_le(&data, &mut c, Field::Data), Ok(0x0201));
    assert_eq!(c, 2);
    let mut c = 0;
    assert_eq!(read_u32_le(&data, &mut c, Field::Data), Ok(0x0403_0201));
    assert_eq!(c, 4);
    let mut c = 0;
    assert_eq!(read_u64_le(&data, &mut c, Field::Data), Ok(0x0807_0605_0403_0201));
    assert_eq!(c, 8);
    let mut c = 1;
    assert_eq!(read_f32_le(&data, &mut c, Field::Data), Ok(0x0504_0302));
    let mut c = 1;
    assert_eq!(read_f64_le(&data, &mut c, Field::Data), Ok(0xff08_0706_0504_0302));
    assert_eq!(c, 9);
    let mut c = 8;
    assert_eq!(read_i8(&data, &mut c, Field::Status), Ok(-1));
    let mut c = 0;
    assert_eq!(read_i8(&[0x80], &mut c, Field::Status), Ok(-128));
    let mut c = 0;
    assert_eq!(read_i8(&[0x7f], &mut c, Field::Status), Ok(127));
    let mut c = 0;
    assert_eq!(read_bool(&[2], &mut c, Field::Endianness), Ok(true));
    let mut c = 0;
    assert_eq!(read_bool(&[0], &mut c, Field::Endianness), Ok(false));
}

#[test]
fn greatest_numbers_fit() {
    let data = [0xff; 8];
    let mut c = 0;
    assert_eq!(read_u16_le(&data, &mut c, Field::Data), Ok(u16::MAX));
    let mut c = 0;
    assert_eq!(read_u32_le(&data, &mut c, Field::Data), Ok(u32::MAX));
    let mut c = 0;
    assert_eq!(read_u64_le(&data, &mut c, Field::Data), Ok(u64::MAX));
}

#[test]
fn reader_at_the_end_leaves_the_cursor_and_names_the_field() {
    let data = [1, 2, 3];
    let mut c = 1;
    assert_eq!(read_u32_le(&data, &mut c, Field::Width), Err(DecodeError::Truncated(Field::Width)));
    assert_eq!(c, 1);
    let mut c = 3;
    assert_eq!(read_u8(&data, &mut c, Field::Height), Err(DecodeError::Truncated(Field::Height)));
    let mut c = 17;
    assert_eq!(read_u16_le(&data, &mut c, Field::Step), Err(DecodeError::Truncated(Field::Step)));
    assert_eq!(c, 17);
    let mut c = usize::MAX;
    assert_eq!(read_u64_le(&data, &mut c, Field::Data), Err(DecodeError::Truncated(Field::Data)));
    assert!(has_bytes(&data, 1, 2));
    assert!(has_bytes(&data, 3, 0));
    assert!(!has_bytes(&data, 1, 3));
    assert!(!has_bytes(&data, 4, 0));
    assert!(!has_bytes(&data, 1, usize::MAX));
}

#[test]
fn skipping_stops_at_the_end() {
    let data = [0; 10];
    let mut c = 2;
    skip_bytes(&data, &mut c, 5);
    assert_eq!(c, 7);
    skip_bytes(&data, &mut c, 3);
    assert_eq!(c, 10);
    skip_bytes(&data, &mut c, 1);
    assert_eq!(c, 10);
    let mut c = 4;
    skip_bytes(&data, &mut c, usize::MAX);
    assert_eq!(c, 10);
    let mut c = 12;
    skip_bytes(&data, &mut c, 1);
    assert_eq!(c, 12);
}

#[test]
fn strings_have_a_length_and_lossy_text() {
    let mut data = vec![3, 0, 0, 0];
    data.extend_from_slice("a\u{e9}".as_bytes());
    data.extend_from_slice(&[2, 0, 0, 0, b'x', 0xff, 9, 0, 0, 0, b'y']);
    let mut c = 0;
    assert_eq!(read_string(&data, &mut c, Field::FrameIdLength, Field::FrameId), Ok("a\u{e9}".to_string()));
    assert_eq!(c, 7);
    assert_eq!(read_string(&data, &mut c, Field::FrameIdLength, Field::FrameId), Ok("x\u{fffd}".to_string()));
    assert_eq!(c, 13);
    assert_eq!(
        read_string(&data, &mut c, Field::FrameIdLength, Field::FrameId),
        Err(DecodeError::Truncated(Field::FrameId))
    );
    assert_eq!(c, 13);
    let mut c = 15;
    assert_eq!(
        read_string(&data, &mut c, Field::FrameIdLength, Field::FrameId),
        Err(DecodeError::Truncated(Field::FrameIdLength))
    );
}

#[test]
fn header_is_passed_over_whether_or_not_the_frame_is_all_there() {
    let mut data = vec![0; 12];
    data.extend_from_slice(&4u32.to_le_bytes());
    data.extend_from_slice(b"base");
    data.push(1);
    assert_eq!(skip_header(&data, 0), Ok(20));
    assert_eq!(skip_header(&data[..18], 0), Ok(18));
    assert_eq!(skip_header(&data[..15], 0), Err(DecodeError::Truncated(Field::FrameIdLength)));
    assert_eq!(skip_header(&[], 0), Err(DecodeError::Truncated(Field::FrameIdLength)));
}

#[test]
fn vectors_and_quaternions_are_bit_patterns() {
    let values = [1.5f64, -2.0, 0.0, 1e300];
    let data: Vec<u8> = values.iter().flat_map(|v| v.to_le_bytes()).collect();
    let mut c = 0;
    assert_eq!(
        parse_vector3(&data, &mut c, Field::Translation),
        Ok([1.5f64.to_bits(), (-2.0f64).to_bits(), 0.0f64.to_bits()])
    );
    assert_eq!(c, 24);
    assert_eq!(
        parse_vector3(&data, &mut c, Field::Translation),
        Err(DecodeError::Truncated(Field::Translation))
    );
    assert_eq!(c, 24);
    let mut c = 0;
    assert_eq!(
        parse_quaternion(&data, &mut c, Field::Rotation),
        Ok([1.5f64.to_bits(), (-2.0f64).to_bits(), 0.0f64.to_bits(), 1e300f64.to_bits()])
    );
    assert_eq!(c, 32);
}

#[test]
fn decimal_numbers_are_padded_with_zeros() {
    assert_eq!(decimal(0, 4), "0000");
    assert_eq!(decimal(7, 4), "0007");
    assert_eq!(decimal(1234, 4), "1234");
    assert_eq!(decimal(12345, 4), "12345");
    assert_eq!(decimal(0, 1), "0");
    assert_eq!(decimal(0, 0), "");
    assert_eq!(decimal(90, 1), "90");
    assert_eq!(decimal(u64::MAX, 1), "18446744073709551615");
}

#[test]
fn strings_and_bytes_compare_and_search() {
    assert!(str_eq("abc", "abc"));
    assert!(!str_eq("abc", "abd"));
    assert!(!str_eq("abc", "ab"));
    assert!(str_eq("", ""));
    assert!(bytes_eq(&[1, 2], &[1, 2]));
    assert!(!bytes_eq(&[1, 2], &[2, 1]));
    assert!(contains_ignore_case(b"xxPnGxx", b"png"));
    assert!(!contains_ignore_case(b"xxPnxGxx", b"png"));
    assert!(contains_ignore_case(b"abc", b""));
    assert!(!contains_ignore_case(b"png", b"PNG"));
}

#[test]
fn mapping_entries_are_cut_at_the_first_equals_sign() {
    assert_eq!(split_once_equals("a=b=c"), Some(("a", "b=c")));
    assert_eq!(split_once_equals("=b"), Some(("", "b")));
    assert_eq!(split_once_equals("a="), Some(("a", "")));
    assert_eq!(split_once_equals("abc"), None);
    assert_eq!(split_once_equals("\u{e9}t\u{e9}=\u{fc}"), Some(("\u{e9}t\u{e9}", "\u{fc}")));
}

#[test]
fn frames_and_topics_are_mapped_to_paths() {
    let table = vec!["base_link=/world/base".to_string(), "nothing".to_string(), "base_link=/second".to_string(), "cam=/c".to_string()];
    assert_eq!(map_frame_to_path("base_link", "world", &table), "/world/base");
    assert_eq!(map_frame_to_path("cam", "world", &table), "/c");
    assert_eq!(map_frame_to_path("lidar", "world", &table), "/world/lidar");
    assert_eq!(map_frame_to_path("lidar", "map", &vec![]), "/map/lidar");
    assert_eq!(map_topic_to_path("cam", &table), Some("/c".to_string()));
    assert_eq!(map_topic_to_path("/cam", &table), None);
}

#[test]
fn topics_become_entity_paths() {
    assert_eq!(normalize_path("/camera/image"), "/camera/image");
    assert_eq!(normalize_path("camera/image"), "/camera/image");
    assert_eq!(normalize_path(""), "/");
    assert_eq!(strip_leading_slashes("/scan"), "scan");
    assert_eq!(strip_leading_slashes("///scan/a"), "scan/a");
    assert_eq!(strip_leading_slashes("scan/"), "scan/");
    assert_eq!(strip_leading_slashes("//"), "");
    assert_eq!(strip_leading_slashes(""), "");
}

#[test]
fn keys_are_put_in_dictionary_order() {
    assert_eq!(compare_bytes(b"abc", b"abd"), Standing::Before);
    assert_eq!(compare_bytes(b"abc", b"ab"), Standing::After);
    assert_eq!(compare_bytes(b"", b"a"), Standing::Before);
    assert_eq!(compare_bytes(b"abc", b"abc"), Standing::Same);
    assert_eq!(compare_bytes(b"\xff", b"a"), Standing::After);
    let keys = vec![("b", "a"), ("a", "z"), ("b", ""), ("a", "b"), ("a", "z"), ("", "q")];
    assert_eq!(order_by_key(&keys), vec![5, 3, 1, 4, 2, 0]);
    assert_eq!(order_by_key(&vec![]), Vec::<usize>::new());
}
