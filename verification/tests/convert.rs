use bag2rrd::convert::{
    classify, first_pass, is_unit, part_file_name, passes_filters, replace_slashes,
    segment_recording_id, tmp_file_name, within_window, Admission, Category, ChunkFault, ConfigError, ConnectionTable,
    ConvertOptions, Converter, Finish, FirstPass, FlushJob, OpenTarget, Stats,
};
use bag2rrd::mappings::images::RgbImage;
use bag2rrd::mappings::tf::TfMode;
use bag2rrd::mappings::{decode, Decoded};
use bag2rrd::wire::{DecodeError, Field};
use bag2rrd::rrd_writer::init_recording;

fn options() -> ConvertOptions {
    ConvertOptions {
        bag_path: "data/run 1.bag".to_string(),
        output_path: "out/scene.rrd".to_string(),
        include_topics: vec![],
        exclude_topics: vec![],
        start_time: None,
        end_time: None,
        dry_run: false,
        show_progress: false,
        segment_size: None,
        scan_as_lines: false,
        gps_origin: None,
        gps_path: true,
        gps_geoid: None,
        segment_bytes: None,
        flush_workers: 2,
        root_frame: "world".to_string(),
        frame_mappings: vec![],
        topic_renames: vec![],
        tf_buffer: 30_000_000_000,
        tf_mode: TfMode::Nearest,
        metadata: vec![],
        tolerate_corruption: false,
    }
}

fn connections() -> ConnectionTable {
    let mut table = ConnectionTable::new();
    table.insert(0, "/camera/image_raw", "sensor_msgs/Image");
    table.insert(1, "/tf", "tf2_msgs/TFMessage");
    table.insert(2, "/gps/fix", "sensor_msgs/NavSatFix");
    table.insert(3, "/diagnostics", "diagnostic_msgs/DiagnosticArray");
    table
}

fn converter(options: ConvertOptions, records: u64) -> Converter {
    let pass = FirstPass { session_start: 1_000, total_msgs: records };
    Converter::new(options, connections(), pass, Some("scene"), Some("rrd")).unwrap()
}

fn image_payload(width: u32, height: u32, encoding: &str, data: &[u8]) -> Vec<u8> {
    let mut p = Vec::new();
    p.extend_from_slice(&1u32.to_le_bytes());
    p.extend_from_slice(&0u64.to_le_bytes());
    p.extend_from_slice(&3u32.to_le_bytes());
    p.extend_from_slice(b"cam");
    p.extend_from_slice(&height.to_le_bytes());
    p.extend_from_slice(&width.to_le_bytes());
    p.extend_from_slice(&(encoding.len() as u32).to_le_bytes());
    p.extend_from_slice(encoding.as_bytes());
    p.push(0);
    p.extend_from_slice(&(width * 3).to_le_bytes());
    p.extend_from_slice(&(data.len() as u32).to_le_bytes());
    p.extend_from_slice(data);
    p
}

/// Feeds one record through the converter as the program does: receive,
/// decode, complete.
fn feed(conv: &mut Converter, conn: u32, time: u64, payload: &[u8]) -> (Admission, Option<FlushJob>) {
    let admission = conv.receive(conn, time, payload.len() as u64);
    let flush = match &admission {
        Admission::Dispatch { category, .. } => {
            let decoded = decode(*category, payload).is_ok();
            conv.complete(decoded)
        }
        _ => None,
    };
    (admission, flush)
}

#[test]
fn zero_thresholds_and_zero_workers_are_refused_before_anything_runs() {
    let mut o = options();
    o.segment_size = Some(0);
    o.segment_bytes = Some(0);
    o.flush_workers = 0;
    assert_eq!(o.validate(), Err(ConfigError::ZeroSegmentSize));
    o.segment_size = Some(3);
    assert_eq!(o.validate(), Err(ConfigError::ZeroSegmentBytes));
    o.segment_bytes = None;
    assert_eq!(o.validate(), Err(ConfigError::ZeroFlushWorkers));
    let pass = FirstPass { session_start: 0, total_msgs: 0 };
    assert_eq!(
        Converter::new(o.clone(), connections(), pass, None, None).err(),
        Some(ConfigError::ZeroFlushWorkers)
    );
    o.flush_workers = 1;
    assert_eq!(o.validate(), Ok(()));
}

#[test]
fn corrupt_chunk_is_skipped_only_where_that_is_tolerated() {
    let mut o = options();
    assert_eq!(o.on_corrupt_chunk(), ChunkFault::Abort);
    o.tolerate_corruption = true;
    assert_eq!(o.on_corrupt_chunk(), ChunkFault::Skip);
}

#[test]
fn segmentation_needs_a_threshold_and_is_off_in_a_dry_run() {
    let mut o = options();
    assert!(!o.segmentation_enabled());
    o.segment_bytes = Some(10);
    assert!(o.segmentation_enabled());
    o.dry_run = true;
    assert!(!o.segmentation_enabled());
}

#[test]
fn message_types_fall_into_their_categories() {
    assert_eq!(classify("sensor_msgs/Image"), Category::Image);
    assert_eq!(classify("sensor_msgs/CompressedImage"), Category::CompressedImage);
    assert_eq!(classify("sensor_msgs/PointCloud2"), Category::PointCloud);
    assert_eq!(classify("sensor_msgs/LaserScan"), Category::LaserScan);
    assert_eq!(classify("sensor_msgs/NavSatFix"), Category::NavSatFix);
    assert_eq!(classify("tf2_msgs/TFMessage"), Category::Tf);
    assert_eq!(classify("tf/tfMessage"), Category::Tf);
    assert_eq!(classify("tf2_msgs/TFMessageStatic"), Category::TfStatic);
    assert_eq!(classify("tf/tfMessageStatic"), Category::TfStatic);
    assert_eq!(classify("nav_msgs/Odometry"), Category::Odometry);
    assert_eq!(classify("geometry_msgs/PoseStamped"), Category::PoseStamped);
    assert_eq!(classify("nav_msgs/Path"), Category::Path);
    assert_eq!(classify("sensor_msgs/Imu"), Category::Other);
    assert!(is_unit(Category::Image) && is_unit(Category::NavSatFix) && is_unit(Category::LaserScan));
    assert!(!is_unit(Category::Tf) && !is_unit(Category::Odometry) && !is_unit(Category::Path));
}

#[test]
fn window_bounds_are_inclusive() {
    assert!(within_window(Some(5), Some(10), 5));
    assert!(within_window(Some(5), Some(10), 10));
    assert!(!within_window(Some(5), Some(10), 4));
    assert!(!within_window(Some(5), Some(10), 11));
    assert!(within_window(None, Some(10), 0));
    assert!(within_window(Some(5), None, u64::MAX));
    assert!(within_window(Some(-3), None, 0));
    assert!(!within_window(None, Some(-1), 0));
    assert!(within_window(Some(7), Some(7), 7));
}

#[test]
fn record_at_start_or_end_of_the_window_is_kept() {
    let mut o = options();
    o.start_time = Some(2_000);
    o.end_time = Some(5_000);
    let mut conv = converter(o, 4);
    let payload = image_payload(1, 1, "rgb8", &[1, 2, 3]);
    assert!(matches!(feed(&mut conv, 0, 1_000 + 1_999, &payload).0, Admission::Filtered));
    assert!(matches!(feed(&mut conv, 0, 1_000 + 2_000, &payload).0, Admission::Dispatch { .. }));
    assert!(matches!(feed(&mut conv, 0, 1_000 + 5_000, &payload).0, Admission::Dispatch { .. }));
    assert!(matches!(feed(&mut conv, 0, 1_000 + 5_001, &payload).0, Admission::Filtered));
    assert_eq!(conv.stats().kept_msgs, 2);
}

#[test]
fn topic_filters_keep_included_and_drop_excluded() {
    let mut o = options();
    assert!(passes_filters(&o, "/a", 0));
    o.include_topics = vec!["/a".to_string(), "/b".to_string()];
    o.exclude_topics = vec!["/b".to_string()];
    assert!(passes_filters(&o, "/a", 0));
    assert!(!passes_filters(&o, "/b", 0));
    assert!(!passes_filters(&o, "/c", 0));
}

#[test]
fn first_pass_finds_the_earliest_time_whatever_the_order() {
    assert_eq!(first_pass(&[]), FirstPass { session_start: 0, total_msgs: 0 });
    assert_eq!(first_pass(&[7]), FirstPass { session_start: 7, total_msgs: 1 });
    assert_eq!(first_pass(&[9, 4, 6, 4, 12]), FirstPass { session_start: 4, total_msgs: 5 });
}

#[test]
fn part_names_count_from_one_with_four_digits() {
    assert_eq!(part_file_name("scene", 0, "rrd"), "scene_part0001.rrd");
    assert_eq!(part_file_name("scene", 41, "rrd"), "scene_part0042.rrd");
    assert_eq!(part_file_name("scene", 9_999, "rrd"), "scene_part10000.rrd");
    assert_eq!(tmp_file_name("data/run 1.bag", 2, "rrd"), "bag2rrd_tmp_data_run 1.bag_0003.rrd");
    assert_eq!(segment_recording_id("a.bag", 11), "bag2rrd:a.bag:segment:12");
    assert_eq!(replace_slashes("/a//b\u{e9}/c_"), "_a__b\u{e9}_c_");
    assert_eq!(replace_slashes(""), "");
    assert_eq!(init_recording(Some("a.bag")), "bag2rrd:a.bag");
    assert_eq!(init_recording(None), "bag2rrd");
}

#[test]
fn unit_threshold_gives_parts_rounded_up() {
    for (k, m) in [(3usize, 0u64), (3, 1), (3, 3), (3, 7), (1, 4), (5, 10), (4, 9)] {
        let mut o = options();
        o.segment_size = Some(k);
        let mut conv = converter(o, 3 * m + 2);
        let image = image_payload(1, 1, "rgb8", &[1, 2, 3]);
        let mut jobs: Vec<u64> = Vec::new();
        for i in 0..m {
            // a transform and an unconverted record between the images: neither is a unit
            assert!(feed(&mut conv, 1, 1_000 + i, &[]).1.is_none());
            assert!(feed(&mut conv, 3, 1_000 + i, &[1]).1.is_none());
            if let Some(job) = feed(&mut conv, 0, 1_000 + i, &image).1 {
                jobs.push(job.part_index);
            }
        }
        let end = conv.finish();
        let expected = (m + k as u64 - 1) / k as u64;
        match end {
            Finish::Segmented { last, total_jobs } => {
                assert_eq!(total_jobs, expected);
                if let Some(job) = last {
                    jobs.push(job.part_index);
                }
            }
            other => panic!("unexpected end {:?}", other),
        }
        assert_eq!(jobs, (1..=expected).collect::<Vec<u64>>());
    }
}

#[test]
fn either_threshold_rotates() {
    let mut o = options();
    o.segment_size = Some(100);
    o.segment_bytes = Some(10);
    let mut conv = converter(o, 3);
    let twelve = image_payload(2, 2, "rgb8", &[0; 12]);
    let len = twelve.len() as u128;
    assert!(len >= 10);
    let (admission, flush) = feed(&mut conv, 0, 1_000, &twelve);
    match admission {
        Admission::Dispatch { category, topic, relative_time, open } => {
            assert_eq!(category, Category::Image);
            assert_eq!(topic, "/camera/image_raw");
            assert_eq!(relative_time, 0);
            assert_eq!(
                open,
                Some(OpenTarget::Segment {
                    recording_id: "bag2rrd:data/run 1.bag:segment:1".to_string(),
                    part_index: 1,
                    tmp_name: "bag2rrd_tmp_data_run 1.bag_0001.rrd".to_string(),
                    final_name: "scene_part0001.rrd".to_string(),
                })
            );
        }
        other => panic!("unexpected admission {:?}", other),
    }
    assert_eq!(
        flush,
        Some(FlushJob {
            part_index: 1,
            tmp_name: "bag2rrd_tmp_data_run 1.bag_0001.rrd".to_string(),
            final_name: "scene_part0001.rrd".to_string(),
            raw_bytes_in_part: len,
        })
    );
    // the next record opens the next part
    match feed(&mut conv, 1, 1_001, &[]).0 {
        Admission::Dispatch { open: Some(OpenTarget::Segment { part_index, .. }), .. } => {
            assert_eq!(part_index, 2)
        }
        other => panic!("unexpected admission {:?}", other),
    }
}

#[test]
fn transforms_add_bytes_but_no_units() {
    let mut o = options();
    o.segment_size = Some(1);
    o.segment_bytes = Some(1_000_000);
    let mut conv = converter(o, 3);
    assert!(feed(&mut conv, 1, 1_000, &[]).1.is_none());
    assert!(feed(&mut conv, 1, 1_001, &[]).1.is_none());
    // a part that holds no unit is not published at the end
    assert_eq!(conv.finish(), Finish::Segmented { last: None, total_jobs: 0 });
}

#[test]
fn truncated_record_is_skipped_and_the_run_goes_on() {
    let mut conv = converter(options(), 10);
    let good = image_payload(1, 1, "rgb8", &[1, 2, 3]);
    let mut truncated = good.clone();
    truncated.truncate(good.len() - 2);
    for i in 0..10u64 {
        let payload = if i == 4 { &truncated } else { &good };
        let step = conv.process(0, 1_000 + i, payload);
        assert!(matches!(step.admission, Admission::Dispatch { .. }));
        match step.decoded {
            Some(Ok(Decoded::Image(image))) => {
                assert!(i != 4);
                assert_eq!(image, RgbImage { width: 1, height: 1, pixels: vec![1, 2, 3] });
            }
            Some(Err(e)) => {
                assert_eq!(i, 4);
                assert_eq!(e, DecodeError::Truncated(Field::Data));
            }
            other => panic!("unexpected outcome {:?}", other),
        }
        assert!(step.flush.is_none());
        assert!(!conv.has_pending());
    }
    let stats = conv.stats();
    assert_eq!(stats.kept_msgs, 9);
    assert_eq!(stats.skipped, 1);
    assert_eq!(stats.images, 9);
    assert_eq!(stats.raw_bytes, 9 * good.len() as u128);
    assert_eq!(conv.remaining(), 0);
    assert_eq!(conv.finish(), Finish::Single);
}

#[test]
fn counts_of_an_ordinary_run() {
    let mut conv = converter(options(), 6);
    let image = image_payload(1, 1, "mono8", &[9]);
    let first = feed(&mut conv, 0, 1_000, &image).0;
    assert!(matches!(
        first,
        Admission::Dispatch { open: Some(OpenTarget::Single { ref recording_id }), .. }
            if recording_id == "bag2rrd:data/run 1.bag"
    ));
    assert!(matches!(feed(&mut conv, 9, 1_001, &[]).0, Admission::Unresolved));
    assert!(matches!(feed(&mut conv, 3, 1_002, &[]).0, Admission::SkippedType { open: None }));
    assert!(matches!(feed(&mut conv, 1, 1_003, &[]).0, Admission::Dispatch { open: None, .. }));
    assert!(matches!(feed(&mut conv, 2, 1_004, &[1, 2]).0, Admission::Dispatch { .. }));
    assert_eq!(
        conv.stats(),
        Stats {
            images: 1,
            compressed_images: 0,
            pointclouds: 0,
            laserscans: 0,
            gps_fixes: 0,
            skipped_type: 1,
            skipped: 1,
            filtered_out: 1,
            kept_msgs: 2,
            total_msgs: 6,
            raw_bytes: image.len() as u128,
        }
    );
    assert_eq!(conv.topics(), &vec!["/camera/image_raw", "/diagnostics", "/tf", "/gps/fix"]);
    assert_eq!(conv.remaining(), 1);
    assert!(!conv.has_pending());
}

#[test]
fn one_call_does_what_the_three_steps_do() {
    let mut o = options();
    o.segment_size = Some(2);
    let mut by_steps = converter(o.clone(), 6);
    let mut at_once = converter(o, 6);
    let image = image_payload(1, 1, "rgb8", &[1, 2, 3]);
    let records: Vec<(u32, &[u8])> =
        vec![(0, &image), (9, &[]), (3, &[]), (0, &image[..5]), (0, &image), (1, &[])];
    for (i, (conn, payload)) in records.iter().enumerate() {
        let (admission, flush) = feed(&mut by_steps, *conn, 1_000 + i as u64, payload);
        let step = at_once.process(*conn, 1_000 + i as u64, payload);
        assert_eq!(step.admission, admission);
        assert_eq!(step.flush, flush);
        assert_eq!(step.decoded.is_some(), matches!(admission, Admission::Dispatch { .. }));
        assert_eq!(at_once.stats(), by_steps.stats());
    }
    assert_eq!(at_once.stats().kept_msgs, 3);
    assert_eq!(at_once.finish(), by_steps.finish());
}

#[test]
fn dry_run_counts_and_opens_nothing() {
    let mut o = options();
    o.dry_run = true;
    o.segment_size = Some(1);
    let mut conv = converter(o, 3);
    assert!(matches!(feed(&mut conv, 0, 1_000, &[]).0, Admission::DryRun));
    assert!(matches!(feed(&mut conv, 3, 1_000, &[]).0, Admission::DryRun));
    assert!(matches!(feed(&mut conv, 8, 1_000, &[]).0, Admission::Unresolved));
    assert_eq!(conv.stats().kept_msgs, 2);
    assert_eq!(conv.stats().filtered_out, 1);
    assert_eq!(conv.finish(), Finish::DryRun);
}

#[test]
fn run_without_kept_records_has_nothing_to_flush() {
    let mut o = options();
    o.include_topics = vec!["/nothing".to_string()];
    let mut conv = converter(o, 1);
    assert!(matches!(feed(&mut conv, 0, 1_000, &[]).0, Admission::Filtered));
    assert_eq!(conv.finish(), Finish::NothingKept);
}

#[test]
fn part_naming_falls_back_to_out_and_rrd() {
    let mut o = options();
    o.segment_size = Some(1);
    let pass = FirstPass { session_start: 0, total_msgs: 1 };
    let mut conv = Converter::new(o, connections(), pass, None, None).unwrap();
    let image = image_payload(1, 1, "rgb8", &[1, 2, 3]);
    let flush = feed(&mut conv, 0, 0, &image).1.unwrap();
    assert_eq!(flush.final_name, "out_part0001.rrd");
}
