use bag2rrd::mappings::tf::{
    parse_tf_message, parse_tf_mode, EdgeTransform, Hop, InvalidTfMode, Pick, StaticIngest,
    TfGraph, TfMode, TfSample, TransformStamped,
};
use bag2rrd::wire::{DecodeError, Field};
use nalgebra::{Isometry3, Quaternion, Translation3, UnitQuaternion};

const SECOND: i64 = 1_000_000_000;

fn sample_to_isometry(sample: &TfSample) -> Isometry3<f64> {
    let trans = Translation3::new(
        f64::from_bits(sample.trans[0]),
        f64::from_bits(sample.trans[1]),
        f64::from_bits(sample.trans[2]),
    );
    let quat = UnitQuaternion::from_quaternion(Quaternion::new(
        f64::from_bits(sample.quat[3]),
        f64::from_bits(sample.quat[0]),
        f64::from_bits(sample.quat[1]),
        f64::from_bits(sample.quat[2]),
    ));
    Isometry3::from_parts(trans, quat)
}

fn normalized(mut tf: TransformStamped) -> TransformStamped {
    let quat = UnitQuaternion::from_quaternion(Quaternion::new(
        f64::from_bits(tf.rotation[3]),
        f64::from_bits(tf.rotation[0]),
        f64::from_bits(tf.rotation[1]),
        f64::from_bits(tf.rotation[2]),
    ));
    let q = quat.quaternion();
    tf.rotation = [q.i.to_bits(), q.j.to_bits(), q.k.to_bits(), q.w.to_bits()];
    tf
}

fn hop_isometry(tr: &EdgeTransform, at: i64) -> Isometry3<f64> {
    let iso = match tr.pick {
        Pick::Single(s) => sample_to_isometry(&s),
        Pick::Between { before, after } => {
            let t = (at - before.t) as f64 / (after.t - before.t) as f64;
            let b = sample_to_isometry(&before);
            let a = sample_to_isometry(&after);
            let trans = b.translation.vector + t * (a.translation.vector - b.translation.vector);
            let rot = b.rotation.slerp(&a.rotation, t);
            Isometry3::from_parts(Translation3::from(trans), rot)
        }
    };
    if tr.inverted {
        iso.inverse()
    } else {
        iso
    }
}

fn compose(hops: &[Hop], at: i64) -> Isometry3<f64> {
    let mut iso = Isometry3::identity();
    for hop in hops {
        iso = hop_isometry(&hop.transform, at) * iso;
    }
    iso
}

fn ingest_tf_payload(graph: &mut TfGraph, ts: i64, payload: &[u8], buffer: i64) {
    let transforms: Vec<TransformStamped> =
        parse_tf_message(payload).unwrap().into_iter().map(normalized).collect();
    graph.ingest_tf_msg(ts, &transforms, buffer);
}

fn ingest_static_payload(graph: &mut TfGraph, payload: &[u8]) -> Result<Vec<StaticIngest>, DecodeError> {
    let transforms: Vec<TransformStamped> =
        parse_tf_message(payload)?.into_iter().map(normalized).collect();
    Ok(graph.ingest_tf_static_msg(&transforms))
}

fn create_tf_payload() -> Vec<u8> {
    let mut data = Vec::new();
    data.extend_from_slice(&0u32.to_le_bytes()); // seq
    data.extend_from_slice(&0u64.to_le_bytes()); // stamp
    let frame_id = b"parent";
    data.extend_from_slice(&(frame_id.len() as u32).to_le_bytes());
    data.extend_from_slice(frame_id);
    let child = b"child";
    data.extend_from_slice(&(child.len() as u32).to_le_bytes());
    data.extend_from_slice(child);
    data.extend_from_slice(&1.0f64.to_le_bytes());
    data.extend_from_slice(&0.0f64.to_le_bytes());
    data.extend_from_slice(&0.0f64.to_le_bytes());
    data.extend_from_slice(&0.0f64.to_le_bytes());
    data.extend_from_slice(&0.0f64.to_le_bytes());
    data.extend_from_slice(&0.0f64.to_le_bytes());
    data.extend_from_slice(&1.0f64.to_le_bytes());
    data
}

fn create_tf_static_payload(parent: &str, child: &str, trans: [f64; 3], quat: [f64; 4]) -> Vec<u8> {
    let mut data = Vec::new();
    data.extend_from_slice(&0u32.to_le_bytes());
    data.extend_from_slice(&0u64.to_le_bytes());
    data.extend_from_slice(&(parent.len() as u32).to_le_bytes());
    data.extend_from_slice(parent.as_bytes());
    data.extend_from_slice(&(child.len() as u32).to_le_bytes());
    data.extend_from_slice(child.as_bytes());
    for &t in &trans {
        data.extend_from_slice(&t.to_le_bytes());
    }
    for &q in &quat {
        data.extend_from_slice(&q.to_le_bytes());
    }
    data
}

fn sample(t: i64, x: f64) -> TfSample {
    TfSample {
        t,
        trans: [x.to_bits(), 0.0f64.to_bits(), 0.0f64.to_bits()],
        quat: [0.0f64.to_bits(), 0.0f64.to_bits(), 0.0f64.to_bits(), 1.0f64.to_bits()],
    }
}

#[test]
fn tf_test_quaternion_normalization() {
    let mut graph = TfGraph::new();
    let payload = create_tf_payload();
    ingest_tf_payload(&mut graph, 0, &payload, 30 * SECOND);
    let mut seen = 0;
    for edge in graph.dynamic_edges() {
        for sample in &edge.samples {
            let q: Vec<f64> = sample.quat.iter().map(|b| f64::from_bits(*b)).collect();
            let norm = (q[0] * q[0] + q[1] * q[1] + q[2] * q[2] + q[3] * q[3]).sqrt();
            assert!((norm - 1.0).abs() < 1e-6);
            seen += 1;
        }
    }
    assert_eq!(seen, 1);
}

#[test]
fn test_resolve_simple_chain() {
    let mut graph = TfGraph::new();
    let payload_ab = create_tf_static_payload("A", "B", [1.0, 0.0, 0.0], [0.0, 0.0, 0.0, 1.0]);
    ingest_static_payload(&mut graph, &payload_ab).unwrap();
    let payload_bc = create_tf_static_payload("B", "C", [0.0, 1.0, 0.0], [0.0, 0.0, 0.0, 1.0]);
    ingest_static_payload(&mut graph, &payload_bc).unwrap();
    let hops = graph.resolve("C", "A", 0, TfMode::Nearest).unwrap();
    let iso = compose(&hops, 0);
    let trans = iso.translation.vector;
    assert!((trans.x - 1.0).abs() < 1e-6);
    assert!((trans.y - 1.0).abs() < 1e-6);
    assert!((trans.z - 0.0).abs() < 1e-6);
}

#[test]
fn test_cycle_detection() {
    let mut graph = TfGraph::new();
    let payload_ab = create_tf_static_payload("A", "B", [1.0, 0.0, 0.0], [0.0, 0.0, 0.0, 1.0]);
    ingest_static_payload(&mut graph, &payload_ab).unwrap();
    let payload_ba = create_tf_static_payload("B", "A", [-1.0, 0.0, 0.0], [0.0, 0.0, 0.0, 1.0]);
    assert!(ingest_static_payload(&mut graph, &payload_ba).is_ok());
    assert!(graph.static_sample("B", "A").is_none());
}

#[test]
fn static_cycle_is_rejected_and_edges_unchanged() {
    let mut graph = TfGraph::new();
    assert_eq!(graph.ingest_static("A", "B", sample(0, 1.0)), StaticIngest::Stored);
    assert_eq!(graph.ingest_static("B", "A", sample(0, -1.0)), StaticIngest::WouldCycle);
    assert_eq!(graph.static_edges().len(), 1);
    assert_eq!(graph.static_edges()[0].parent, "A");
    assert_eq!(graph.static_edges()[0].child, "B");
    assert_eq!(graph.static_sample("A", "B"), Some(sample(0, 1.0)));
}

#[test]
fn static_cycle_through_a_chain_is_rejected() {
    let mut graph = TfGraph::new();
    assert_eq!(graph.ingest_static("A", "B", sample(0, 1.0)), StaticIngest::Stored);
    assert_eq!(graph.ingest_static("B", "C", sample(0, 1.0)), StaticIngest::Stored);
    assert_eq!(graph.ingest_static("D", "A", sample(0, 1.0)), StaticIngest::Stored);
    assert!(graph.would_create_cycle("C", "D"));
    assert!(!graph.would_create_cycle("D", "C"));
    assert_eq!(graph.ingest_static("C", "D", sample(0, 1.0)), StaticIngest::WouldCycle);
    assert_eq!(graph.ingest_static("A", "C", sample(0, 1.0)), StaticIngest::Stored);
    assert_eq!(graph.ingest_static("X", "X", sample(0, 1.0)), StaticIngest::WouldCycle);
    assert_eq!(graph.static_edges().len(), 4);
}

#[test]
fn static_edge_is_never_overwritten() {
    let mut graph = TfGraph::new();
    assert_eq!(graph.ingest_static("A", "B", sample(0, 1.0)), StaticIngest::Stored);
    assert_eq!(graph.ingest_static("A", "B", sample(0, 2.0)), StaticIngest::AlreadyPresent);
    assert_eq!(graph.static_sample("A", "B"), Some(sample(0, 1.0)));
}

#[test]
fn interpolation_is_halfway_at_half_time() {
    let mut graph = TfGraph::new();
    graph.ingest_dynamic("A", "B", sample(0, 0.0), 30 * SECOND);
    graph.ingest_dynamic("A", "B", sample(10 * SECOND, 10.0), 30 * SECOND);
    let hops = graph.resolve("B", "A", 5 * SECOND, TfMode::Interpolate).unwrap();
    assert_eq!(hops.len(), 1);
    assert_eq!(
        hops[0].transform,
        EdgeTransform {
            inverted: false,
            fixed: false,
            pick: Pick::Between { before: sample(0, 0.0), after: sample(10 * SECOND, 10.0) },
        }
    );
    let iso = compose(&hops, 5 * SECOND);
    assert!((iso.translation.vector.x - 5.0).abs() < 1e-9);
}

#[test]
fn interpolation_uses_the_one_side_that_exists() {
    let mut graph = TfGraph::new();
    graph.ingest_dynamic("A", "B", sample(2 * SECOND, 2.0), 30 * SECOND);
    graph.ingest_dynamic("A", "B", sample(4 * SECOND, 4.0), 30 * SECOND);
    let early = graph.get_edge_transform("A", "B", SECOND, TfMode::Interpolate).unwrap();
    assert_eq!(early.pick, Pick::Single(sample(2 * SECOND, 2.0)));
    let late = graph.get_edge_transform("A", "B", 9 * SECOND, TfMode::Interpolate).unwrap();
    assert_eq!(late.pick, Pick::Single(sample(4 * SECOND, 4.0)));
    let on = graph.get_edge_transform("A", "B", 4 * SECOND, TfMode::Interpolate).unwrap();
    assert_eq!(on.pick, Pick::Single(sample(4 * SECOND, 4.0)));
}

#[test]
fn retention_drops_samples_older_than_the_buffer() {
    let mut graph = TfGraph::new();
    let buffer = 30 * SECOND;
    graph.ingest_dynamic("A", "B", sample(60 * SECOND, 1.0), buffer);
    graph.ingest_dynamic("A", "B", sample(69 * SECOND, 2.0), buffer);
    graph.ingest_dynamic("A", "B", sample(70 * SECOND, 3.0), buffer);
    graph.ingest_dynamic("C", "D", sample(50 * SECOND, 4.0), buffer);
    graph.ingest_dynamic("A", "B", sample(100 * SECOND, 5.0), buffer);
    assert_eq!(
        graph.dynamic_samples("A", "B").unwrap(),
        &vec![sample(70 * SECOND, 3.0), sample(100 * SECOND, 5.0)]
    );
    assert_eq!(graph.dynamic_samples("C", "D").unwrap(), &Vec::<TfSample>::new());
}

#[test]
fn exact_mode_needs_a_sample_at_that_time() {
    let mut graph = TfGraph::new();
    graph.ingest_dynamic("A", "B", sample(0, 0.0), 30 * SECOND);
    graph.ingest_dynamic("A", "B", sample(10 * SECOND, 10.0), 30 * SECOND);
    assert!(graph.resolve("B", "A", 5 * SECOND, TfMode::Exact).is_none());
    let hops = graph.resolve("B", "A", 10 * SECOND, TfMode::Exact).unwrap();
    assert_eq!(hops[0].transform.pick, Pick::Single(sample(10 * SECOND, 10.0)));
}

#[test]
fn nearest_takes_the_first_of_the_closest() {
    let mut graph = TfGraph::new();
    graph.ingest_dynamic("A", "B", sample(0, 0.0), 30 * SECOND);
    graph.ingest_dynamic("A", "B", sample(10 * SECOND, 10.0), 30 * SECOND);
    let tr = graph.get_edge_transform("A", "B", 5 * SECOND, TfMode::Nearest).unwrap();
    assert_eq!(tr.pick, Pick::Single(sample(0, 0.0)));
    let tr = graph.get_edge_transform("A", "B", 6 * SECOND, TfMode::Nearest).unwrap();
    assert_eq!(tr.pick, Pick::Single(sample(10 * SECOND, 10.0)));
}

#[test]
fn reverse_hops_are_inverted() {
    let mut graph = TfGraph::new();
    graph.ingest_static("A", "B", sample(0, 1.0));
    graph.ingest_dynamic("C", "B", sample(0, 3.0), 30 * SECOND);
    let hops = graph.resolve("A", "C", 0, TfMode::Nearest).unwrap();
    assert_eq!(hops.len(), 2);
    assert_eq!((hops[0].from.as_str(), hops[0].to.as_str()), ("C", "B"));
    assert!(!hops[0].transform.inverted && !hops[0].transform.fixed);
    assert_eq!((hops[1].from.as_str(), hops[1].to.as_str()), ("B", "A"));
    assert!(hops[1].transform.inverted && hops[1].transform.fixed);
    let iso = compose(&hops, 0);
    assert!((iso.translation.vector.x - 2.0).abs() < 1e-9);
}

#[test]
fn resolve_of_unconnected_frames_is_none_and_of_one_frame_is_empty() {
    let mut graph = TfGraph::new();
    graph.ingest_static("A", "B", sample(0, 1.0));
    graph.ingest_static("C", "D", sample(0, 1.0));
    assert!(graph.resolve("D", "A", 0, TfMode::Nearest).is_none());
    assert!(graph.find_path("A", "D").is_none());
    assert_eq!(graph.resolve("Q", "Q", 0, TfMode::Nearest).unwrap().len(), 0);
}

#[test]
fn tf_message_cut_short_is_a_decode_error() {
    let mut payload = create_tf_payload();
    payload.truncate(payload.len() - 1);
    assert_eq!(parse_tf_message(&payload).err(), Some(DecodeError::Truncated(Field::Rotation)));
    assert_eq!(
        parse_tf_message(&payload[..14]).err(),
        Some(DecodeError::Truncated(Field::FrameIdLength))
    );
    assert_eq!(parse_tf_message(&payload[..18]).err(), Some(DecodeError::Truncated(Field::FrameId)));
    assert_eq!(parse_tf_message(&[]).unwrap().len(), 0);
}

#[test]
fn tf_message_holds_transforms_one_after_another() {
    let mut payload = create_tf_static_payload("A", "B", [1.0, 2.0, 3.0], [0.0, 0.0, 0.0, 1.0]);
    payload.extend(create_tf_static_payload("B", "C", [4.0, 5.0, 6.0], [0.0, 0.0, 1.0, 0.0]));
    let transforms = parse_tf_message(&payload).unwrap();
    assert_eq!(transforms.len(), 2);
    assert_eq!(transforms[0].frame_id, "A");
    assert_eq!(transforms[0].child_frame_id, "B");
    assert_eq!(transforms[1].frame_id, "B");
    assert_eq!(transforms[1].child_frame_id, "C");
    assert_eq!(transforms[1].translation, [4.0f64.to_bits(), 5.0f64.to_bits(), 6.0f64.to_bits()]);
    assert_eq!(
        transforms[1].rotation,
        [0.0f64.to_bits(), 0.0f64.to_bits(), 1.0f64.to_bits(), 0.0f64.to_bits()]
    );
}

#[test]
fn tf_mode_names() {
    assert_eq!(parse_tf_mode("nearest"), Ok(TfMode::Nearest));
    assert_eq!(parse_tf_mode("interpolate"), Ok(TfMode::Interpolate));
    assert_eq!(parse_tf_mode("none"), Ok(TfMode::Exact));
    assert_eq!(parse_tf_mode("Nearest"), Err(InvalidTfMode));
    assert_eq!(parse_tf_mode(""), Err(InvalidTfMode));
}

#[test]
fn among_chains_of_one_length_the_edges_decide_by_the_order_of_their_keys() {
    let mut graph = TfGraph::new();
    graph.ingest_dynamic("C", "D", sample(0, 1.0), 30 * SECOND);
    graph.ingest_dynamic("A", "C", sample(0, 1.0), 30 * SECOND);
    graph.ingest_dynamic("B", "D", sample(0, 1.0), 30 * SECOND);
    graph.ingest_dynamic("A", "B", sample(0, 1.0), 30 * SECOND);
    let path = graph.find_path("A", "D").unwrap();
    assert_eq!(
        path,
        vec![("A".to_string(), "B".to_string()), ("B".to_string(), "D".to_string())]
    );
    let back = graph.find_path("D", "A").unwrap();
    assert_eq!(
        back,
        vec![("D".to_string(), "B".to_string()), ("B".to_string(), "A".to_string())]
    );
}

#[test]
fn static_edges_are_tried_before_time_sampled_ones() {
    let mut graph = TfGraph::new();
    graph.ingest_dynamic("A", "B", sample(0, 1.0), 30 * SECOND);
    graph.ingest_dynamic("B", "D", sample(0, 1.0), 30 * SECOND);
    graph.ingest_static("Z", "D", sample(0, 1.0));
    graph.ingest_static("A", "Z", sample(0, 1.0));
    let path = graph.find_path("A", "D").unwrap();
    assert_eq!(
        path,
        vec![("A".to_string(), "Z".to_string()), ("Z".to_string(), "D".to_string())]
    );
}

#[test]
fn shortest_chain_is_found() {
    let mut graph = TfGraph::new();
    graph.ingest_static("A", "B", sample(0, 1.0));
    graph.ingest_static("B", "C", sample(0, 1.0));
    graph.ingest_static("C", "D", sample(0, 1.0));
    graph.ingest_dynamic("D", "A", sample(0, 1.0), 30 * SECOND);
    let path = graph.find_path("A", "D").unwrap();
    assert_eq!(path, vec![("A".to_string(), "D".to_string())]);
    let hops = graph.resolve("D", "A", 0, TfMode::Nearest).unwrap();
    assert_eq!(hops.len(), 1);
    assert!(hops[0].transform.inverted);
}
