use bag2rrd::flush::{FlushTally, SizeMonitor, Stability};
use bag2rrd::rosbags_io::{Survey, TopicStat};
use bag2rrd::schema::supported_mappings;
use bag2rrd::validate::{check_entities, check_file, Entity, EntityFault, FileFault};

#[test]
fn file_is_stable_after_enough_unchanged_polls() {
    let mut w = Stability::new(3);
    assert!(!w.observe(Some(10)));
    assert!(!w.observe(Some(10)));
    assert!(!w.observe(Some(12)));
    assert!(!w.observe(Some(12)));
    assert!(!w.observe(None));
    assert!(!w.observe(Some(12)));
    assert!(!w.observe(Some(12)));
    assert!(!w.is_stable());
    assert!(w.observe(Some(12)));
    assert!(w.is_stable());
    assert_eq!(w, Stability { last_size: 12, stable_count: 3, needed: 3 });
    assert!(w.observe(Some(99)));
    assert_eq!(w.last_size, 12);
}

#[test]
fn empty_file_counts_as_unchanged_from_the_first_poll() {
    let mut w = Stability::new(2);
    assert!(!w.observe(Some(0)));
    assert!(w.observe(Some(0)));
    assert!(Stability::new(0).is_stable());
}

#[test]
fn tally_counts_results_of_any_kind() {
    let mut t = FlushTally::new(3);
    assert!(!t.all_reported());
    t.record(true);
    t.record(false);
    assert!(!t.all_reported());
    t.record(true);
    assert!(t.all_reported());
    assert_eq!(t, FlushTally { submitted: 3, completed: 3, failed: 1 });
    assert!(FlushTally::new(0).all_reported());
}

#[test]
fn monitor_reports_growth() {
    let mut m = SizeMonitor::new();
    assert_eq!(m.observe(0), None);
    assert_eq!(m.observe(100), Some(100));
    assert_eq!(m.observe(100), None);
    assert_eq!(m.observe(250), Some(150));
    assert_eq!(m.observe(200), Some(0));
    assert_eq!(m.last_size, 200);
}

#[test]
fn output_file_must_be_a_file_of_eight_bytes_or_more() {
    assert_eq!(check_file(false, 100, 64), Err(FileFault::NotAFile));
    assert_eq!(check_file(true, 0, 0), Err(FileFault::Empty));
    assert_eq!(check_file(true, 7, 7), Err(FileFault::TooSmall));
    assert_eq!(check_file(true, 8, 8), Ok(()));
    assert_eq!(check_file(true, 1_000_000, 64), Ok(()));
}

#[test]
fn test_validate_rrd_mock() {
    // Test valid case
    let entities = vec![
        Entity { path: "/gps/points".to_string(), times: vec![1, 2, 3] },
        Entity { path: "/odom".to_string(), times: vec![1, 2, 3] },
    ];
    let result = check_entities(&entities);
    assert!(result.is_empty());

    // Test invalid entity path
    let entities_bad = vec![
        Entity { path: "/gps/points".to_string(), times: vec![1, 2, 3] },
        Entity { path: "odom".to_string(), times: vec![1, 2, 3] }, // missing leading slash
    ];
    let result_bad = check_entities(&entities_bad);
    assert!(!result_bad.is_empty());

    // Test non-monotonic timestamps
    let entities_mono = vec![Entity { path: "/gps/points".to_string(), times: vec![1, 3, 2] }];
    let result_mono = check_entities(&entities_mono);
    assert!(!result_mono.is_empty());
}

#[test]
fn entity_paths_and_times_are_checked() {
    let good = vec![
        Entity { path: "/gps/points".to_string(), times: vec![1, 2, 3] },
        Entity { path: "/odom".to_string(), times: vec![1, 2, 2] },
    ];
    assert_eq!(check_entities(&good), vec![]);
    let bad_path = vec![
        Entity { path: "/gps/points".to_string(), times: vec![1, 2, 3] },
        Entity { path: "odom".to_string(), times: vec![1, 2, 3] },
    ];
    assert_eq!(check_entities(&bad_path), vec![EntityFault::NoLeadingSlash { entity: 1 }]);
    let back = vec![Entity { path: "/gps/points".to_string(), times: vec![1, 3, 2] }];
    assert_eq!(check_entities(&back), vec![EntityFault::TimeGoesBack { entity: 0, at: 2 }]);
    let many = vec![
        Entity { path: "".to_string(), times: vec![] },
        Entity { path: "a b".to_string(), times: vec![5, 4, 3, 3, 9, 1] },
    ];
    assert_eq!(
        check_entities(&many),
        vec![
            EntityFault::NoLeadingSlash { entity: 0 },
            EntityFault::NoLeadingSlash { entity: 1 },
            EntityFault::HasSpace { entity: 1 },
            EntityFault::TimeGoesBack { entity: 1, at: 1 },
            EntityFault::TimeGoesBack { entity: 1, at: 2 },
            EntityFault::TimeGoesBack { entity: 1, at: 5 },
        ]
    );
}

#[test]
fn schema_lists_the_nine_conversions() {
    let table = supported_mappings();
    assert_eq!(table.len(), 9);
    assert_eq!(table[0].source, "sensor_msgs/Image");
    assert_eq!(table[0].archetype, "Image/DepthImage");
    assert_eq!(table[0].since, "v0.1.0");
    assert_eq!(table[4].source, "sensor_msgs/NavSatFix");
    assert_eq!(table[8].archetype, "LineStrips3D");
    assert!(table.iter().any(|m| m.source == "/tf, /tf_static" && m.since == "v0.3.0"));
}

#[test]
fn survey_counts_by_topic() {
    let mut s = Survey::new();
    s.observe(Some(("/b", "B")), 50);
    s.observe(None, 1);
    s.observe(Some(("/a", "A")), 40);
    s.observe(Some(("/b", "other")), 70);
    s.observe(Some(("/b", "B")), 45);
    assert_eq!(
        s.topics(),
        &vec![
            TopicStat { topic: "/b".to_string(), ty: "B".to_string(), count: 3, first: 45, last: 70 },
            TopicStat { topic: "/a".to_string(), ty: "A".to_string(), count: 1, first: 40, last: 40 },
        ]
    );
    assert_eq!(s.earliest(), Some(40));
    assert_eq!(s.latest(), 70);
    assert_eq!(s.total(), 9);
    let empty = Survey::new();
    assert_eq!((empty.earliest(), empty.latest(), empty.total()), (None, 0, 0));
}
