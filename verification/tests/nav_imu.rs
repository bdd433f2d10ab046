use bag2rrd::mappings::imu::{parse_ros_imu, ImuData};
use bag2rrd::mappings::nav::{
    parse_header, parse_odometry, parse_path, parse_pose_stamped, Header, Odometry, Path, Pose,
    PoseStamped,
};
use bag2rrd::mappings::{decode, Decoded};
use bag2rrd::convert::Category;
use bag2rrd::wire::{DecodeError, Field};

fn header(stamp: f64, frame: &str) -> Vec<u8> {
    let mut p = Vec::new();
    p.extend_from_slice(&5u32.to_le_bytes());
    p.extend_from_slice(&stamp.to_le_bytes());
    p.extend_from_slice(&(frame.len() as u32).to_le_bytes());
    p.extend_from_slice(frame.as_bytes());
    p
}

fn floats(values: &[f64]) -> Vec<u8> {
    values.iter().flat_map(|v| v.to_le_bytes()).collect()
}

fn bits3(v: [f64; 3]) -> [u64; 3] {
    [v[0].to_bits(), v[1].to_bits(), v[2].to_bits()]
}

fn bits4(v: [f64; 4]) -> [u64; 4] {
    [v[0].to_bits(), v[1].to_bits(), v[2].to_bits(), v[3].to_bits()]
}

fn pose() -> Pose {
    Pose { position: bits3([1.0, 2.0, 3.0]), orientation: bits4([0.0, 0.0, 0.0, 1.0]) }
}

fn pose_bytes() -> Vec<u8> {
    floats(&[1.0, 2.0, 3.0, 0.0, 0.0, 0.0, 1.0])
}

#[test]
fn header_has_a_stamp_and_a_frame() {
    let payload = header(12.5, "odom");
    let mut cursor = 0;
    assert_eq!(
        parse_header(&payload, &mut cursor),
        Ok(Header { stamp: 12.5f64.to_bits(), frame_id: "odom".to_string() })
    );
    assert_eq!(cursor, payload.len());
    let mut cursor = 0;
    assert_eq!(parse_header(&payload[..11], &mut cursor), Err(DecodeError::Truncated(Field::Stamp)));
    let mut cursor = 0;
    assert_eq!(
        parse_header(&payload[..15], &mut cursor),
        Err(DecodeError::Truncated(Field::FrameIdLength))
    );
    let mut cursor = 0;
    assert_eq!(parse_header(&payload[..19], &mut cursor), Err(DecodeError::Truncated(Field::FrameId)));
}

#[test]
fn odometry_is_read_without_its_covariance() {
    let mut payload = header(1.0, "odom");
    payload.extend_from_slice(&9u32.to_le_bytes());
    payload.extend_from_slice(b"base_link");
    payload.extend(pose_bytes());
    let expected = Odometry {
        header: Header { stamp: 1.0f64.to_bits(), frame_id: "odom".to_string() },
        child_frame_id: "base_link".to_string(),
        pose: pose(),
    };
    assert_eq!(parse_odometry(&payload), Ok(expected.clone()));
    payload.extend_from_slice(&[0; 288]);
    assert_eq!(parse_odometry(&payload), Ok(expected));
    let cut = payload.len() - 288 - 1;
    assert_eq!(parse_odometry(&payload[..cut]), Err(DecodeError::Truncated(Field::Orientation)));
    assert_eq!(parse_odometry(&payload[..cut - 32]), Err(DecodeError::Truncated(Field::Position)));
    assert_eq!(parse_odometry(&payload[..22]), Err(DecodeError::Truncated(Field::ChildFrameIdLength)));
    assert_eq!(parse_odometry(&payload[..26]), Err(DecodeError::Truncated(Field::ChildFrameId)));
}

#[test]
fn path_holds_as_many_poses_as_it_says() {
    let mut payload = header(1.0, "map");
    payload.extend_from_slice(&2u32.to_le_bytes());
    payload.extend(header(2.0, "a"));
    payload.extend(pose_bytes());
    payload.extend(header(3.0, "b"));
    payload.extend(pose_bytes());
    let expected = Path {
        header: Header { stamp: 1.0f64.to_bits(), frame_id: "map".to_string() },
        poses: vec![
            PoseStamped {
                header: Header { stamp: 2.0f64.to_bits(), frame_id: "a".to_string() },
                pose: pose(),
            },
            PoseStamped {
                header: Header { stamp: 3.0f64.to_bits(), frame_id: "b".to_string() },
                pose: pose(),
            },
        ],
    };
    assert_eq!(parse_path(&payload), Ok(expected));
    assert_eq!(
        parse_path(&payload[..payload.len() - 1]),
        Err(DecodeError::Truncated(Field::Orientation))
    );
    assert_eq!(parse_path(&payload[..22]), Err(DecodeError::Truncated(Field::PoseCount)));
    let mut none = header(1.0, "map");
    none.extend_from_slice(&0u32.to_le_bytes());
    assert_eq!(parse_path(&none).unwrap().poses.len(), 0);
}

#[test]
fn stamped_pose_is_read_at_the_cursor() {
    let mut payload = vec![0xee; 3];
    payload.extend(header(2.0, "a"));
    payload.extend(pose_bytes());
    let mut cursor = 3;
    let got = parse_pose_stamped(&payload, &mut cursor).unwrap();
    assert_eq!(got.header.frame_id, "a");
    assert_eq!(got.pose, pose());
    assert_eq!(cursor, payload.len());
}

#[test]
fn imu_fields_skip_the_covariances() {
    let mut payload = vec![0; 12];
    payload.extend_from_slice(&3u32.to_le_bytes());
    payload.extend_from_slice(b"imu");
    payload.extend(floats(&[0.1, 0.2, 0.3, 0.9]));
    payload.extend_from_slice(&[0xaa; 72]);
    payload.extend(floats(&[1.0, 2.0, 3.0]));
    payload.extend_from_slice(&[0xbb; 72]);
    payload.extend(floats(&[4.0, 5.0, 6.0]));
    assert_eq!(
        parse_ros_imu(&payload),
        Ok(ImuData {
            orientation: bits4([0.1, 0.2, 0.3, 0.9]),
            angular_velocity: bits3([1.0, 2.0, 3.0]),
            linear_acceleration: bits3([4.0, 5.0, 6.0]),
        })
    );
    let n = payload.len();
    assert_eq!(parse_ros_imu(&payload[..n - 1]), Err(DecodeError::Truncated(Field::LinearAcceleration)));
    assert_eq!(parse_ros_imu(&payload[..n - 24 - 72 - 1]), Err(DecodeError::Truncated(Field::AngularVelocity)));
    assert_eq!(parse_ros_imu(&payload[..19 + 31]), Err(DecodeError::Truncated(Field::Orientation)));
    assert_eq!(parse_ros_imu(&payload[..15]), Err(DecodeError::Truncated(Field::FrameIdLength)));
}

#[test]
fn decode_goes_by_the_category() {
    let mut odom = header(1.0, "odom");
    odom.extend_from_slice(&1u32.to_le_bytes());
    odom.extend_from_slice(b"b");
    odom.extend(pose_bytes());
    assert!(matches!(decode(Category::Odometry, &odom), Ok(Decoded::Odometry(_))));
    let mut stamped = header(2.0, "a");
    stamped.extend(pose_bytes());
    assert!(matches!(decode(Category::PoseStamped, &stamped), Ok(Decoded::PoseStamped(_))));
    assert!(matches!(decode(Category::Tf, &[]), Ok(Decoded::Tf(ref v)) if v.is_empty()));
    assert!(matches!(decode(Category::TfStatic, &[]), Ok(Decoded::TfStatic(_))));
    assert!(matches!(
        decode(Category::NavSatFix, &[]),
        Err(DecodeError::Truncated(Field::FrameIdLength))
    ));
    assert!(matches!(decode(Category::Image, &[]), Err(DecodeError::Truncated(Field::SequenceNumber))));
    assert!(matches!(
        decode(Category::CompressedImage, &[]),
        Err(DecodeError::Truncated(Field::FormatLength))
    ));
    assert!(matches!(decode(Category::PointCloud, &[]), Err(_)));
    assert!(matches!(decode(Category::LaserScan, &[]), Err(_)));
    assert!(matches!(decode(Category::Path, &[]), Err(DecodeError::Truncated(Field::Stamp))));
}
