//! The conversion run: which records are kept, how the output is cut into
//! numbered parts, and what is counted.
//!
//! The library decides and decodes; the caller reads the records and writes
//! what was decoded. Times are integer nanoseconds.

use std::collections::HashMap;
use vstd::prelude::*;
use vstd::string::*;
use crate::mappings::tf::TfMode;
use crate::mappings::{decode, decoded_of, Decoded};
use crate::wire::{viewed, DecodeError};
use crate::rrd_writer::{init_recording, recording_name};
use crate::text::{decimal, lemma_padded_spells, str_eq, zero_padded};

verus! {

broadcast use vstd::std_specs::hash::group_hash_axioms;

/// What a conversion run is asked to do.
#[derive(Clone, Debug)]
pub struct ConvertOptions {
    /// Path of the input container.
    pub bag_path: String,
    /// Path of the output file.
    pub output_path: String,
    /// Keep only these topics; empty keeps all.
    pub include_topics: Vec<String>,
    /// Drop these topics.
    pub exclude_topics: Vec<String>,
    /// Keep records from this time on, counted from the first record.
    pub start_time: Option<i64>,
    /// Keep records up to this time, counted from the first record.
    pub end_time: Option<i64>,
    /// Count what would be kept, and write nothing.
    pub dry_run: bool,
    pub show_progress: bool,
    /// Start a new part after this many image-like records.
    pub segment_size: Option<usize>,
    pub scan_as_lines: bool,
    pub gps_origin: Option<String>,
    pub gps_path: bool,
    pub gps_geoid: Option<String>,
    /// Start a new part after this many payload bytes.
    pub segment_bytes: Option<u64>,
    /// How many workers publish finished parts.
    pub flush_workers: usize,
    pub root_frame: String,
    /// Frame names mapped to entity paths, each as `FRAME=/path`.
    pub frame_mappings: Vec<String>,
    /// Topics mapped to entity paths, each as `TOPIC=/path`.
    pub topic_renames: Vec<String>,
    /// How long time-sampled transforms are kept.
    pub tf_buffer: i64,
    pub tf_mode: TfMode,
    pub metadata: Vec<String>,
    /// Skip a chunk of the container that cannot be read, instead of giving
    /// up.
    pub tolerate_corruption: bool,
}

/// What is done about a chunk of the container that cannot be read.
#[derive(Clone, Copy, Debug, PartialEq, Eq, Structural)]
pub enum ChunkFault {
    /// The chunk is skipped and the run goes on.
    Skip,
    /// The run ends with the error.
    Abort,
}

/// A configuration that no run can start with.
#[derive(Clone, Copy, Debug, PartialEq, Eq, Structural)]
pub enum ConfigError {
    /// The unit threshold is zero.
    ZeroSegmentSize,
    /// The byte threshold is zero.
    ZeroSegmentBytes,
    /// There is no flush worker.
    ZeroFlushWorkers,
}

/// What `validate` answers: the first of the three faults, in this order.
pub open spec fn config_fault(
    segment_size: Option<usize>,
    segment_bytes: Option<u64>,
    flush_workers: usize,
) -> Option<ConfigError> {
    if segment_size == Some(0usize) {
        Some(ConfigError::ZeroSegmentSize)
    } else if segment_bytes == Some(0u64) {
        Some(ConfigError::ZeroSegmentBytes)
    } else if flush_workers == 0 {
        Some(ConfigError::ZeroFlushWorkers)
    } else {
        None
    }
}

impl ConvertOptions {
    /// The options have no fault.
    pub open spec fn valid(&self) -> bool {
        config_fault(self.segment_size, self.segment_bytes, self.flush_workers) is None
    }

    /// The output is cut into parts: a threshold is set and the run is not a
    /// dry run.
    pub open spec fn segmented(&self) -> bool {
        (self.segment_size is Some || self.segment_bytes is Some) && !self.dry_run
    }

    /// Checks the options before anything is processed.
    pub fn validate(&self) -> (r: Result<(), ConfigError>)
        ensures
            match r {
                Ok(_) => self.valid(),
                Err(e) => config_fault(self.segment_size, self.segment_bytes, self.flush_workers)
                    == Some(e),
            },
    {
        if let Some(size) = self.segment_size {
            if size == 0 {
                return Err(ConfigError::ZeroSegmentSize);
            }
        }
        if let Some(bytes) = self.segment_bytes {
            if bytes == 0 {
                return Err(ConfigError::ZeroSegmentBytes);
            }
        }
        if self.flush_workers == 0 {
            return Err(ConfigError::ZeroFlushWorkers);
        }
        Ok(())
    }

    /// What is done about a chunk that cannot be read: it is skipped where
    /// corruption is tolerated, and ends the run otherwise.
    pub fn on_corrupt_chunk(&self) -> (r: ChunkFault)
        ensures
            r == if self.tolerate_corruption {
                ChunkFault::Skip
            } else {
                ChunkFault::Abort
            },
    {
        if self.tolerate_corruption {
            ChunkFault::Skip
        } else {
            ChunkFault::Abort
        }
    }

    /// Whether the output is cut into parts.
    pub fn segmentation_enabled(&self) -> (r: bool)
        ensures
            r == self.segmented(),
    {
        (self.segment_size.is_some() || self.segment_bytes.is_some()) && !self.dry_run
    }
}

/// The kinds of message that the run knows.
#[derive(Clone, Copy, Debug, PartialEq, Eq, Hash, Structural)]
pub enum Category {
    Image,
    CompressedImage,
    PointCloud,
    LaserScan,
    NavSatFix,
    /// Time-sampled transforms.
    Tf,
    /// Static transforms.
    TfStatic,
    Odometry,
    PoseStamped,
    Path,
    /// A type that is not converted.
    Other,
}

/// The category of the message type named `message_type`.
pub open spec fn category_of(message_type: Seq<char>) -> Category {
    if message_type == "sensor_msgs/Image"@ {
        Category::Image
    } else if message_type == "sensor_msgs/CompressedImage"@ {
        Category::CompressedImage
    } else if message_type == "sensor_msgs/PointCloud2"@ {
        Category::PointCloud
    } else if message_type == "sensor_msgs/LaserScan"@ {
        Category::LaserScan
    } else if message_type == "sensor_msgs/NavSatFix"@ {
        Category::NavSatFix
    } else if message_type == "tf2_msgs/TFMessage"@ || message_type == "tf/tfMessage"@ {
        Category::Tf
    } else if message_type == "tf2_msgs/TFMessageStatic"@ || message_type == "tf/tfMessageStatic"@ {
        Category::TfStatic
    } else if message_type == "nav_msgs/Odometry"@ {
        Category::Odometry
    } else if message_type == "geometry_msgs/PoseStamped"@ {
        Category::PoseStamped
    } else if message_type == "nav_msgs/Path"@ {
        Category::Path
    } else {
        Category::Other
    }
}

/// Whether a record of this category counts towards the unit threshold: the
/// image-like ones do, transforms and poses do not.
pub open spec fn counts_as_unit(category: Category) -> bool {
    category == Category::Image || category == Category::CompressedImage || category
        == Category::PointCloud || category == Category::LaserScan || category
        == Category::NavSatFix
}

/// The category of a message type.
pub fn classify(message_type: &str) -> (c: Category)
    ensures
        c == category_of(message_type@),
{
    if str_eq(message_type, "sensor_msgs/Image") {
        Category::Image
    } else if str_eq(message_type, "sensor_msgs/CompressedImage") {
        Category::CompressedImage
    } else if str_eq(message_type, "sensor_msgs/PointCloud2") {
        Category::PointCloud
    } else if str_eq(message_type, "sensor_msgs/LaserScan") {
        Category::LaserScan
    } else if str_eq(message_type, "sensor_msgs/NavSatFix") {
        Category::NavSatFix
    } else if str_eq(message_type, "tf2_msgs/TFMessage") || str_eq(message_type, "tf/tfMessage") {
        Category::Tf
    } else if str_eq(message_type, "tf2_msgs/TFMessageStatic") || str_eq(
        message_type,
        "tf/tfMessageStatic",
    ) {
        Category::TfStatic
    } else if str_eq(message_type, "nav_msgs/Odometry") {
        Category::Odometry
    } else if str_eq(message_type, "geometry_msgs/PoseStamped") {
        Category::PoseStamped
    } else if str_eq(message_type, "nav_msgs/Path") {
        Category::Path
    } else {
        Category::Other
    }
}

/// Whether this category counts towards the unit threshold.
pub fn is_unit(category: Category) -> (r: bool)
    ensures
        r == counts_as_unit(category),
{
    match category {
        Category::Image => true,
        Category::CompressedImage => true,
        Category::PointCloud => true,
        Category::LaserScan => true,
        Category::NavSatFix => true,
        _ => false,
    }
}

/// The names as sequences of characters.
pub open spec fn name_views(names: Seq<String>) -> Seq<Seq<char>> {
    Seq::new(names.len(), |i: int| names[i]@)
}

/// Whether `names` holds `name`.
pub fn holds_name(names: &Vec<String>, name: &str) -> (r: bool)
    ensures
        r == name_views(names@).contains(name@),
{
    let mut i: usize = 0;
    while i < names.len()
        invariant
            i <= names@.len(),
            forall|k: int| 0 <= k < i ==> names@[k]@ != name@,
        decreases names@.len() - i,
    {
        if str_eq(names[i].as_str(), name) {
            assert(name_views(names@)[i as int] == name@);
            return true;
        }
        i = i + 1;
    }
    assert forall|k: int| 0 <= k < name_views(names@).len() implies name_views(names@)[k]
        != name@ by {
        assert(name_views(names@)[k] == names@[k]@);
    }
    false
}

/// The time `relative_time` lies between the bounds, each bound counted in
/// and a missing bound leaving its side open.
pub open spec fn in_window(start: Option<i64>, end: Option<i64>, relative_time: u64) -> bool {
    &&& match start {
        Some(s) => s <= relative_time,
        None => true,
    }
    &&& match end {
        Some(e) => relative_time <= e,
        None => true,
    }
}

/// A record on `topic` at `relative_time` passes the filters: the topic is
/// among those included, where any are named, and not among those excluded,
/// and the time lies in the window.
pub open spec fn keeps(
    included: Seq<Seq<char>>,
    excluded: Seq<Seq<char>>,
    start: Option<i64>,
    end: Option<i64>,
    topic: Seq<char>,
    relative_time: u64,
) -> bool {
    &&& included.len() == 0 || included.contains(topic)
    &&& !excluded.contains(topic)
    &&& in_window(start, end, relative_time)
}

/// A record at exactly the start or exactly the end of the window is in it,
/// as far as the other bound allows.
pub proof fn lemma_window_bounds_inclusive(start: Option<i64>, end: Option<i64>, t: u64)
    ensures
        start == Some(t as i64) && t <= i64::MAX ==> (in_window(start, end, t) <==> (end is Some
            ==> t <= end->0)),
        end == Some(t as i64) && t <= i64::MAX ==> (in_window(start, end, t) <==> (start is Some
            ==> start->0 <= t)),
        start == Some(t as i64) && end == Some(t as i64) && t <= i64::MAX ==> in_window(
            start,
            end,
            t,
        ),
{
}

/// Whether `relative_time` lies in the window.
pub fn within_window(start: Option<i64>, end: Option<i64>, relative_time: u64) -> (r: bool)
    ensures
        r == in_window(start, end, relative_time),
{
    if let Some(s) = start {
        if s > 0 && relative_time < s as u64 {
            return false;
        }
    }
    if let Some(e) = end {
        if e < 0 || relative_time > e as u64 {
            return false;
        }
    }
    true
}

/// Whether a record passes the filters of `options`.
pub fn passes_filters(options: &ConvertOptions, topic: &str, relative_time: u64) -> (r: bool)
    ensures
        r == keeps(
            name_views(options.include_topics@),
            name_views(options.exclude_topics@),
            options.start_time,
            options.end_time,
            topic@,
            relative_time,
        ),
{
    if options.include_topics.len() != 0 && !holds_name(&options.include_topics, topic) {
        return false;
    }
    if holds_name(&options.exclude_topics, topic) {
        return false;
    }
    within_window(options.start_time, options.end_time, relative_time)
}

/// The least of `times`, or zero where there are none.
pub open spec fn least_time(times: Seq<u64>) -> u64
    decreases times.len(),
{
    if times.len() == 0 {
        0
    } else if times.len() == 1 {
        times[0]
    } else {
        let rest = least_time(times.drop_last());
        if times.last() < rest {
            times.last()
        } else {
            rest
        }
    }
}

/// The least time is one of the times and none is below it.
pub proof fn lemma_least_time(times: Seq<u64>)
    requires
        times.len() > 0,
    ensures
        times.contains(least_time(times)),
        forall|i: int| 0 <= i < times.len() ==> least_time(times) <= times[i],
    decreases times.len(),
{
    if times.len() == 1 {
        assert(times[0] == least_time(times));
    } else {
        let front = times.drop_last();
        lemma_least_time(front);
        let i = choose|i: int| 0 <= i < front.len() && front[i] == least_time(front);
        assert(times[i] == front[i]);
        assert(times[times.len() - 1] == times.last());
        assert forall|k: int| 0 <= k < times.len() implies least_time(times) <= times[k] by {
            if k < front.len() {
                assert(front[k] == times[k]);
            }
        }
    }
}

/// What the first pass over the records finds: the time of the earliest
/// record, from which all times are counted, and the number of records.
/// No filter plays a part in it.
#[derive(Clone, Copy, Debug, PartialEq, Eq)]
pub struct FirstPass {
    pub session_start: u64,
    pub total_msgs: u64,
}

/// The first pass over the times of all message records.
pub fn first_pass(times: &[u64]) -> (r: FirstPass)
    ensures
        r.session_start == least_time(times@),
        r.total_msgs == times@.len(),
        times@.len() > 0 ==> times@.contains(r.session_start),
        forall|i: int| 0 <= i < times@.len() ==> r.session_start <= times@[i],
{
    proof {
        if times@.len() > 0 {
            lemma_least_time(times@);
        }
    }
    let mut start: u64 = 0;
    let mut i: usize = 0;
    while i < times.len()
        invariant
            i <= times@.len(),
            start == least_time(times@.take(i as int)),
        decreases times@.len() - i,
    {
        assert(times@.take(i + 1).drop_last() =~= times@.take(i as int));
        if i == 0 || times[i] < start {
            start = times[i];
        }
        i = i + 1;
    }
    assert(times@.take(i as int) =~= times@);
    FirstPass { session_start: start, total_msgs: times.len() as u64 }
}

/// `s` with every slash replaced by an underscore.
pub open spec fn without_slashes(s: Seq<char>) -> Seq<char> {
    Seq::new(
        s.len(),
        |i: int|
            if s[i] == '/' {
                '_'
            } else {
                s[i]
            },
    )
}

/// `s` with each slash replaced by an underscore.
pub fn replace_slashes(s: &str) -> (r: String)
    ensures
        r@ == without_slashes(s@),
{
    let n = s.unicode_len();
    let mut out = String::new();
    let mut i: usize = 0;
    while i < n
        invariant
            i <= n,
            n == s@.len(),
            out@ == without_slashes(s@).subrange(0, i as int),
        decreases n - i,
    {
        let ghost before = out@;
        if s.get_char(i) == '/' {
            proof {
                reveal_strlit("_");
            }
            out.append("_");
            assert(out@ =~= before.push('_'));
        } else {
            out.append(s.substring_char(i, i + 1));
            assert(s@.subrange(i as int, i + 1) =~= seq![s@[i as int]]);
            assert(out@ =~= before.push(s@[i as int]));
        }
        assert(out@ =~= without_slashes(s@).subrange(0, i + 1));
        i = i + 1;
    }
    assert(out@ =~= without_slashes(s@));
    out
}

/// The file name of part `index`, counted from zero: the stem, `_part`, the
/// part's number from one with at least four digits, a dot and the extension.
pub open spec fn part_name(stem: Seq<char>, index: nat, ext: Seq<char>) -> Seq<char> {
    stem + "_part"@ + zero_padded(index + 1, 4) + "."@ + ext
}

/// The name of the temporary file in which part `index` is written before it
/// is published: unique for each input and part.
pub open spec fn tmp_name(bag: Seq<char>, index: nat, ext: Seq<char>) -> Seq<char> {
    "bag2rrd_tmp_"@ + without_slashes(bag) + "_"@ + zero_padded(index + 1, 4) + "."@ + ext
}

/// The recording identifier of part `index`, counted from zero.
pub open spec fn segment_recording(bag: Seq<char>, index: nat) -> Seq<char> {
    recording_name(Some(bag + ":segment:"@ + zero_padded(index + 1, 1)))
}

/// Two texts that differ only in a middle part differ.
proof fn lemma_middle_differs(
    before: Seq<char>,
    a: Seq<char>,
    b: Seq<char>,
    after: Seq<char>,
)
    requires
        a != b,
    ensures
        before + a + after != before + b + after,
{
    let x = before + a + after;
    let y = before + b + after;
    if x == y {
        assert(a.len() == b.len()) by {
            assert(x.len() == before.len() + a.len() + after.len());
            assert(y.len() == before.len() + b.len() + after.len());
        }
        assert(a =~= b) by {
            assert forall|i: int| 0 <= i < a.len() implies a[i] == b[i] by {
                assert(x[before.len() + i] == a[i]);
                assert(y[before.len() + i] == b[i]);
            }
        }
    }
}

/// No two parts of an output share a file name, and no two parts of an input
/// share a temporary file name.
pub proof fn lemma_part_names_differ(
    stem: Seq<char>,
    bag: Seq<char>,
    ext: Seq<char>,
    i: nat,
    j: nat,
)
    requires
        i != j,
    ensures
        part_name(stem, i, ext) != part_name(stem, j, ext),
        tmp_name(bag, i, ext) != tmp_name(bag, j, ext),
{
    lemma_padded_spells(i + 1, 4);
    lemma_padded_spells(j + 1, 4);
    let a = zero_padded(i + 1, 4);
    let b = zero_padded(j + 1, 4);
    assert(a != b);
    lemma_middle_differs(stem + "_part"@, a, b, "."@ + ext);
    assert(part_name(stem, i, ext) =~= (stem + "_part"@) + a + ("."@ + ext));
    assert(part_name(stem, j, ext) =~= (stem + "_part"@) + b + ("."@ + ext));
    lemma_middle_differs("bag2rrd_tmp_"@ + without_slashes(bag) + "_"@, a, b, "."@ + ext);
    assert(tmp_name(bag, i, ext) =~= ("bag2rrd_tmp_"@ + without_slashes(bag) + "_"@) + a + ("."@
        + ext));
    assert(tmp_name(bag, j, ext) =~= ("bag2rrd_tmp_"@ + without_slashes(bag) + "_"@) + b + ("."@
        + ext));
}

/// The file name of part `index`, counted from zero.
pub fn part_file_name(stem: &str, index: u64, ext: &str) -> (name: String)
    requires
        index < u64::MAX,
    ensures
        name@ == part_name(stem@, index as nat, ext@),
{
    let number = decimal(index + 1, 4);
    String::from_str(stem).concat("_part").concat(number.as_str()).concat(".").concat(ext)
}

/// The name of the temporary file of part `index`, counted from zero.
pub fn tmp_file_name(bag: &str, index: u64, ext: &str) -> (name: String)
    requires
        index < u64::MAX,
    ensures
        name@ == tmp_name(bag@, index as nat, ext@),
{
    let number = decimal(index + 1, 4);
    let flat = replace_slashes(bag);
    String::from_str("bag2rrd_tmp_").concat(flat.as_str()).concat("_").concat(
        number.as_str(),
    ).concat(".").concat(ext)
}

/// The recording identifier of part `index`, counted from zero.
pub fn segment_recording_id(bag: &str, index: u64) -> (id: String)
    requires
        index < u64::MAX,
    ensures
        id@ == segment_recording(bag@, index as nat),
{
    let number = decimal(index + 1, 1);
    let own = String::from_str(bag).concat(":segment:").concat(number.as_str());
    init_recording(Some(own.as_str()))
}

/// The part of the output that is being filled, as far as rotation goes.
pub struct SegmentModel {
    /// How many parts were closed.
    pub closed_parts: nat,
    /// A part is open.
    pub open: bool,
    /// Units in the open part.
    pub units: nat,
    /// Payload bytes in the open part.
    pub bytes: nat,
}

/// A part is to be closed: the units have reached the unit threshold, or the
/// bytes the byte threshold. One of the two is enough.
pub open spec fn rotation_due(
    units: nat,
    bytes: nat,
    unit_threshold: Option<nat>,
    byte_threshold: Option<nat>,
) -> bool {
    ||| unit_threshold is Some && unit_threshold->0 > 0 && units >= unit_threshold->0
    ||| byte_threshold is Some && byte_threshold->0 > 0 && bytes >= byte_threshold->0
}

/// The segment after a record that passed the filters: a part is open; a
/// decoded record has added its bytes and, where it counts as one, a unit; and
/// the part is closed again where rotation is due.
pub open spec fn segment_after(
    m: SegmentModel,
    unit_threshold: Option<nat>,
    byte_threshold: Option<nat>,
    decoded: bool,
    unit: bool,
    len: nat,
) -> SegmentModel {
    let units = if decoded && unit {
        m.units + 1
    } else {
        m.units
    };
    let bytes = if decoded {
        m.bytes + len
    } else {
        m.bytes
    };
    if rotation_due(units, bytes, unit_threshold, byte_threshold) {
        SegmentModel { closed_parts: m.closed_parts + 1, open: false, units: 0, bytes: 0 }
    } else {
        SegmentModel { closed_parts: m.closed_parts, open: true, units, bytes }
    }
}

/// A record as the segment sees it: whether it was decoded, whether it counts
/// as a unit, and its length.
pub struct Passed {
    pub decoded: bool,
    pub unit: bool,
    pub len: nat,
}

/// The segment after the records `records`, in their order, from no part at
/// all.
pub open spec fn segment_run(
    unit_threshold: Option<nat>,
    byte_threshold: Option<nat>,
    records: Seq<Passed>,
) -> SegmentModel
    decreases records.len(),
{
    if records.len() == 0 {
        SegmentModel { closed_parts: 0, open: false, units: 0, bytes: 0 }
    } else {
        segment_after(
            segment_run(unit_threshold, byte_threshold, records.drop_last()),
            unit_threshold,
            byte_threshold,
            records.last().decoded,
            records.last().unit,
            records.last().len,
        )
    }
}

/// How many parts a run emits that ends in the state `m`: those closed, and
/// the open one where it holds a unit.
pub open spec fn parts_emitted(m: SegmentModel) -> nat {
    if m.open && m.units > 0 {
        m.closed_parts + 1
    } else {
        m.closed_parts
    }
}

/// How many of the records count towards the unit threshold.
pub open spec fn qualifying(records: Seq<Passed>) -> nat
    decreases records.len(),
{
    if records.len() == 0 {
        0
    } else {
        qualifying(records.drop_last()) + if records.last().decoded && records.last().unit {
            1nat
        } else {
            0nat
        }
    }
}

proof fn lemma_unit_run(k: nat, records: Seq<Passed>)
    requires
        k > 0,
    ensures
        ({
            let m = segment_run(Some(k), None, records);
            let q = qualifying(records);
            &&& m.closed_parts == q / k
            &&& m.units == q % k
            &&& (m.units > 0 ==> m.open)
        }),
    decreases records.len(),
{
    if records.len() != 0 {
        let front = records.drop_last();
        lemma_unit_run(k, front);
        let before = segment_run(Some(k), None, front);
        let q = qualifying(front);
        let last = records.last();
        assert(q == k * (q / k) + q % k) by (nonlinear_arith)
            requires
                k > 0,
        ;
        assert(q % k < k) by (nonlinear_arith)
            requires
                k > 0,
        ;
        if last.decoded && last.unit {
            if before.units + 1 >= k {
                assert((q + 1) / k == q / k + 1 && (q + 1) % k == 0) by (nonlinear_arith)
                    requires
                        k > 0,
                        q % k + 1 == k,
                        q == k * (q / k) + q % k,
                ;
            } else {
                assert((q + 1) / k == q / k && (q + 1) % k == q % k + 1) by (nonlinear_arith)
                    requires
                        k > 0,
                        q % k + 1 < k,
                        q == k * (q / k) + q % k,
                ;
            }
        }
    }
}

/// With only a unit threshold `k`, the number of parts is the number of
/// qualifying records divided by `k`, rounded up.
pub proof fn lemma_part_count(k: nat, records: Seq<Passed>)
    requires
        k > 0,
    ensures
        parts_emitted(segment_run(Some(k), None, records)) == (qualifying(records) + k - 1) / (
        k as int),
{
    lemma_unit_run(k, records);
    let q = qualifying(records);
    assert(q == k * (q / k) + q % k && q % k < k) by (nonlinear_arith)
        requires
            k > 0,
    ;
    if q % k > 0 {
        assert((q + k - 1) / (k as int) == q / k + 1) by (nonlinear_arith)
            requires
                k > 0,
                0 < q % k < k,
                q == k * (q / k) + q % k,
        ;
    } else {
        assert((q + k - 1) / (k as int) == q / k) by (nonlinear_arith)
            requires
                k > 0,
                q % k == 0,
                q == k * (q / k) + q % k,
        ;
    }
}

/// A part is closed as soon as either threshold is met, whatever the other
/// is.
pub proof fn lemma_either_threshold_rotates(
    units: nat,
    bytes: nat,
    unit_threshold: Option<nat>,
    byte_threshold: Option<nat>,
)
    ensures
        byte_threshold is Some && byte_threshold->0 > 0 && bytes >= byte_threshold->0
            ==> rotation_due(units, bytes, unit_threshold, byte_threshold),
        unit_threshold is Some && unit_threshold->0 > 0 && units >= unit_threshold->0
            ==> rotation_due(units, bytes, unit_threshold, byte_threshold),
{
}

/// A declared connection: the topic and the message type of the records that
/// refer to it.
#[derive(Clone, Debug)]
pub struct Connection {
    pub topic: String,
    pub message_type: String,
}

/// The connections of a container by their identifiers: filled once, before
/// any message is processed.
pub struct ConnectionTable {
    by_id: HashMap<u32, Connection>,
}

impl ConnectionTable {
    /// Topic and message type of each connection.
    pub closed spec fn view(&self) -> Map<u32, (Seq<char>, Seq<char>)> {
        Map::new(
            |id: u32| self.by_id@.contains_key(id),
            |id: u32| (self.by_id@[id].topic@, self.by_id@[id].message_type@),
        )
    }

    /// A table without connections.
    pub fn new() -> (t: ConnectionTable)
        ensures
            t@ == Map::<u32, (Seq<char>, Seq<char>)>::empty(),
    {
        let t = ConnectionTable { by_id: HashMap::new() };
        assert(t@ =~= Map::<u32, (Seq<char>, Seq<char>)>::empty());
        t
    }

    /// Declares the connection `id`. A later declaration of the same
    /// identifier takes the place of an earlier one.
    pub fn insert(&mut self, id: u32, topic: &str, message_type: &str)
        ensures
            final(self)@ == old(self)@.insert(id, (topic@, message_type@)),
    {
        self.by_id.insert(
            id,
            Connection { topic: topic.to_owned(), message_type: message_type.to_owned() },
        );
        assert(self@ =~= old(self)@.insert(id, (topic@, message_type@)));
    }

    /// The connection `id`, if it was declared.
    pub fn get(&self, id: u32) -> (r: Option<&Connection>)
        ensures
            match r {
                Some(c) => self@.contains_key(id) && self@[id] == (c.topic@, c.message_type@),
                None => !self@.contains_key(id),
            },
    {
        self.by_id.get(&id)
    }
}

/// What the run has counted.
#[derive(Clone, Copy, Debug, PartialEq, Eq)]
pub struct Stats {
    pub images: u64,
    pub compressed_images: u64,
    pub pointclouds: u64,
    pub laserscans: u64,
    pub gps_fixes: u64,
    /// Records of a type that is not converted.
    pub skipped_type: u64,
    /// Records whose payload could not be decoded.
    pub skipped: u64,
    /// Records whose connection was never declared.
    pub filtered_out: u64,
    /// Records decoded and written, or, in a dry run, records that passed the
    /// filters.
    pub kept_msgs: u64,
    /// All message records of the container.
    pub total_msgs: u64,
    /// Payload bytes of the records decoded and written.
    pub raw_bytes: u128,
}

/// An output that is to be opened before the record at hand is written.
#[derive(Clone, Debug, PartialEq, Eq)]
pub enum OpenTarget {
    /// The one output of a run that is not cut into parts, at the output
    /// path.
    Single { recording_id: String },
    /// A part, written to a temporary file of the name `tmp_name`.
    Segment { recording_id: String, part_index: u64, tmp_name: String, final_name: String },
}

/// A finished part that is to be published: its temporary file is to be
/// renamed to its final name.
#[derive(Clone, Debug, PartialEq, Eq)]
pub struct FlushJob {
    /// The part's number, from one.
    pub part_index: u64,
    pub tmp_name: String,
    pub final_name: String,
    pub raw_bytes_in_part: u128,
}

/// What is to be done with a record.
#[derive(Clone, Debug, PartialEq, Eq)]
pub enum Admission {
    /// Its connection was never declared: counted as filtered out.
    Unresolved,
    /// A filter dropped it.
    Filtered,
    /// Dry run: counted as kept, nothing to decode or write.
    DryRun,
    /// Its type is not converted: counted, nothing to decode. An output may
    /// have to be opened all the same.
    SkippedType { open: Option<OpenTarget> },
    /// It is to be decoded and written, after opening `open` where there is
    /// one; `complete` is to be told how the decoding went.
    Dispatch { category: Category, topic: String, relative_time: u64, open: Option<OpenTarget> },
}

/// The kinds of admission.
#[derive(Clone, Copy, Debug, PartialEq, Eq, Structural)]
pub enum AdmissionKind {
    Unresolved,
    Filtered,
    DryRun,
    SkippedType,
    Dispatch,
}

/// How the run ends.
#[derive(Clone, Debug, PartialEq, Eq)]
pub enum Finish {
    /// Nothing was written.
    DryRun,
    /// The output was cut into parts: the last part where it holds a unit, and
    /// the number of parts of the whole run.
    Segmented { last: Option<FlushJob>, total_jobs: u64 },
    /// The one output is to be flushed and closed.
    Single,
    /// No record was kept and no output opened.
    NothingKept,
}

/// A record that was received and is being decoded.
#[derive(Clone, Copy, Debug, PartialEq, Eq)]
pub struct Pending {
    pub category: Category,
    pub len: u64,
}

/// The changing part of a run.
pub struct RunState {
    /// Records handed in so far.
    pub processed: nat,
    pub stats: Stats,
    /// The topics of the records that passed the filters, each once, in the
    /// order of their first record.
    pub topics: Seq<Seq<char>>,
    pub segment: SegmentModel,
    /// The one output of a run without parts is open.
    pub single_open: bool,
    pub pending: Option<Pending>,
}

/// `topics` with `topic` added at the end where it was missing.
pub open spec fn noted(topics: Seq<Seq<char>>, topic: Seq<char>) -> Seq<Seq<char>> {
    if topics.contains(topic) {
        topics
    } else {
        topics.push(topic)
    }
}

/// The counts after one more record of `category` with `len` payload bytes was
/// decoded and written.
pub open spec fn stats_kept(stats: Stats, category: Category, len: u64) -> Stats {
    let counted = Stats {
        kept_msgs: (stats.kept_msgs + 1) as u64,
        raw_bytes: (stats.raw_bytes + len) as u128,
        ..stats
    };
    match category {
        Category::Image => Stats { images: (stats.images + 1) as u64, ..counted },
        Category::CompressedImage => Stats {
            compressed_images: (stats.compressed_images + 1) as u64,
            ..counted
        },
        Category::PointCloud => Stats { pointclouds: (stats.pointclouds + 1) as u64, ..counted },
        Category::LaserScan => Stats { laserscans: (stats.laserscans + 1) as u64, ..counted },
        Category::NavSatFix => Stats { gps_fixes: (stats.gps_fixes + 1) as u64, ..counted },
        _ => counted,
    }
}

/// The state after the pending record of `s` was decoded or failed to decode:
/// a decoded record is counted as kept, under its category and with its
/// bytes; one that failed to decode is counted as skipped and nothing else.
/// Where the output is cut into parts, the segment goes on as `segment_after`
/// says.
pub open spec fn state_completed(options: ConvertOptions, s: RunState, decoded: bool) -> RunState {
    let p = s.pending->0;
    RunState {
        stats: if decoded {
            stats_kept(s.stats, p.category, p.len)
        } else {
            Stats { skipped: (s.stats.skipped + 1) as u64, ..s.stats }
        },
        segment: if options.segmented() {
            segment_after(
                s.segment,
                unit_threshold_of(options),
                byte_threshold_of(options),
                decoded,
                counts_as_unit(p.category),
                p.len as nat,
            )
        } else {
            s.segment
        },
        pending: None,
        ..s
    }
}

/// What is made of a record: unresolved without a declared connection;
/// filtered where a filter drops it; then counted only, in a dry run; then
/// skipped where its type is not converted; else dispatched.
pub open spec fn kind_of(
    options: ConvertOptions,
    connections: Map<u32, (Seq<char>, Seq<char>)>,
    session_start: u64,
    conn_id: u32,
    time: u64,
) -> AdmissionKind {
    if !connections.contains_key(conn_id) {
        AdmissionKind::Unresolved
    } else if !keeps(
        name_views(options.include_topics@),
        name_views(options.exclude_topics@),
        options.start_time,
        options.end_time,
        connections[conn_id].0,
        (time - session_start) as u64,
    ) {
        AdmissionKind::Filtered
    } else if options.dry_run {
        AdmissionKind::DryRun
    } else if category_of(connections[conn_id].1) == Category::Other {
        AdmissionKind::SkippedType
    } else {
        AdmissionKind::Dispatch
    }
}

/// A record of a declared connection whose topic the topic filters let through
/// is not filtered when its time, counted from the first record, is exactly the
/// start or exactly the end of the window and within the other bound.
pub proof fn lemma_boundary_record_kept(
    options: ConvertOptions,
    connections: Map<u32, (Seq<char>, Seq<char>)>,
    session_start: u64,
    conn_id: u32,
    time: u64,
)
    requires
        connections.contains_key(conn_id),
        time >= session_start,
        keeps(
            name_views(options.include_topics@),
            name_views(options.exclude_topics@),
            None,
            None,
            connections[conn_id].0,
            (time - session_start) as u64,
        ),
        ({
            let t = time - session_start;
            ||| options.start_time == Some(t as i64) && t <= i64::MAX && (options.end_time is Some
                ==> t <= options.end_time->0)
            ||| options.end_time == Some(t as i64) && t <= i64::MAX && (options.start_time is Some
                ==> options.start_time->0 <= t)
        }),
    ensures
        kind_of(options, connections, session_start, conn_id, time) != AdmissionKind::Unresolved,
        kind_of(options, connections, session_start, conn_id, time) != AdmissionKind::Filtered,
{
    lemma_window_bounds_inclusive(
        options.start_time,
        options.end_time,
        (time - session_start) as u64,
    );
}

/// The state after a record was received: it is counted as handed in; an
/// unresolved one is counted as filtered out; one that passed the filters has
/// its topic noted and, outside a dry run, an output opened; a dispatched one is
/// pending.
pub open spec fn state_received(
    options: ConvertOptions,
    connections: Map<u32, (Seq<char>, Seq<char>)>,
    session_start: u64,
    s: RunState,
    conn_id: u32,
    time: u64,
    len: u64,
) -> RunState {
    let step = RunState { processed: s.processed + 1, ..s };
    let kind = kind_of(options, connections, session_start, conn_id, time);
    let topic = connections[conn_id].0;
    let opened = RunState {
        topics: noted(s.topics, topic),
        segment: if options.segmented() {
            SegmentModel { open: true, ..s.segment }
        } else {
            s.segment
        },
        single_open: s.single_open || !options.segmented(),
        ..step
    };
    match kind {
        AdmissionKind::Unresolved => RunState {
            stats: Stats { filtered_out: (s.stats.filtered_out + 1) as u64, ..s.stats },
            ..step
        },
        AdmissionKind::Filtered => step,
        AdmissionKind::DryRun => RunState {
            stats: Stats { kept_msgs: (s.stats.kept_msgs + 1) as u64, ..s.stats },
            topics: noted(s.topics, topic),
            ..step
        },
        AdmissionKind::SkippedType => RunState {
            stats: Stats { skipped_type: (s.stats.skipped_type + 1) as u64, ..s.stats },
            ..opened
        },
        AdmissionKind::Dispatch => RunState {
            pending: Some(Pending { category: category_of(connections[conn_id].1), len }),
            ..opened
        },
    }
}

/// The state after a record was received and, where it was dispatched,
/// completed by how its payload decodes.
pub open spec fn state_processed(
    options: ConvertOptions,
    connections: Map<u32, (Seq<char>, Seq<char>)>,
    session_start: u64,
    s: RunState,
    record: Record,
) -> RunState {
    let received = state_received(
        options,
        connections,
        session_start,
        s,
        record.conn_id,
        record.time,
        record.payload.len() as u64,
    );
    if kind_of(options, connections, session_start, record.conn_id, record.time)
        == AdmissionKind::Dispatch {
        state_completed(
            options,
            received,
            decoded_of(category_of(connections[record.conn_id].1), record.payload) is Ok,
        )
    } else {
        received
    }
}

/// A dispatched record whose payload cannot be decoded is counted as skipped
/// and as nothing else, and the run goes on with no record pending.
pub proof fn lemma_undecodable_is_skipped(
    options: ConvertOptions,
    connections: Map<u32, (Seq<char>, Seq<char>)>,
    session_start: u64,
    s: RunState,
    record: Record,
)
    requires
        kind_of(options, connections, session_start, record.conn_id, record.time)
            == AdmissionKind::Dispatch,
        decoded_of(category_of(connections[record.conn_id].1), record.payload) is Err,
    ensures
        ({
            let after = state_processed(options, connections, session_start, s, record);
            &&& after.stats == (Stats { skipped: (s.stats.skipped + 1) as u64, ..s.stats })
            &&& after.pending is None
            &&& after.processed == s.processed + 1
        }),
{
}

/// A message record as plain values.
pub struct Record {
    pub conn_id: u32,
    pub time: u64,
    pub payload: Seq<u8>,
}

/// The state after the records `records`, in their order, from the state `s`.
pub open spec fn state_after_all(
    options: ConvertOptions,
    connections: Map<u32, (Seq<char>, Seq<char>)>,
    session_start: u64,
    s: RunState,
    records: Seq<Record>,
) -> RunState
    decreases records.len(),
{
    if records.len() == 0 {
        s
    } else {
        state_processed(
            options,
            connections,
            session_start,
            state_after_all(options, connections, session_start, s, records.drop_last()),
            records.last(),
        )
    }
}

/// A record as the segment sees it, where the segment sees it at all: a
/// dispatched record by how it decodes, and a record of a type that is not
/// converted as one that added nothing.
pub open spec fn as_passed(
    options: ConvertOptions,
    connections: Map<u32, (Seq<char>, Seq<char>)>,
    session_start: u64,
    record: Record,
) -> Option<Passed> {
    match kind_of(options, connections, session_start, record.conn_id, record.time) {
        AdmissionKind::Dispatch => Some(
            Passed {
                decoded: decoded_of(category_of(connections[record.conn_id].1), record.payload)
                    is Ok,
                unit: counts_as_unit(category_of(connections[record.conn_id].1)),
                len: record.payload.len() as u64 as nat,
            },
        ),
        AdmissionKind::SkippedType => Some(Passed { decoded: false, unit: false, len: 0 }),
        _ => None,
    }
}

/// The records that the segment sees, in their order.
pub open spec fn all_passed(
    options: ConvertOptions,
    connections: Map<u32, (Seq<char>, Seq<char>)>,
    session_start: u64,
    records: Seq<Record>,
) -> Seq<Passed>
    decreases records.len(),
{
    if records.len() == 0 {
        Seq::empty()
    } else {
        let front = all_passed(options, connections, session_start, records.drop_last());
        match as_passed(options, connections, session_start, records.last()) {
            Some(p) => front.push(p),
            None => front,
        }
    }
}

/// The state in which a run starts.
pub open spec fn initial_state(total_msgs: u64) -> RunState {
    RunState {
        processed: 0,
        stats: Stats {
            images: 0,
            compressed_images: 0,
            pointclouds: 0,
            laserscans: 0,
            gps_fixes: 0,
            skipped_type: 0,
            skipped: 0,
            filtered_out: 0,
            kept_msgs: 0,
            total_msgs,
            raw_bytes: 0,
        },
        topics: Seq::<Seq<char>>::empty(),
        segment: SegmentModel { closed_parts: 0, open: false, units: 0, bytes: 0 },
        single_open: false,
        pending: None,
    }
}

/// After a step of the segment no rotation is due: where one was, the part was
/// closed.
proof fn lemma_never_left_due(
    m: SegmentModel,
    unit_threshold: Option<nat>,
    byte_threshold: Option<nat>,
    decoded: bool,
    unit: bool,
    len: nat,
)
    ensures
        ({
            let after = segment_after(m, unit_threshold, byte_threshold, decoded, unit, len);
            !rotation_due(after.units, after.bytes, unit_threshold, byte_threshold)
        }),
{
}

proof fn lemma_run_never_due(
    unit_threshold: Option<nat>,
    byte_threshold: Option<nat>,
    records: Seq<Passed>,
)
    ensures
        ({
            let m = segment_run(unit_threshold, byte_threshold, records);
            !rotation_due(m.units, m.bytes, unit_threshold, byte_threshold)
        }),
    decreases records.len(),
{
    if records.len() != 0 {
        lemma_never_left_due(
            segment_run(unit_threshold, byte_threshold, records.drop_last()),
            unit_threshold,
            byte_threshold,
            records.last().decoded,
            records.last().unit,
            records.last().len,
        );
    }
}

/// In a run whose output is cut into parts, the segment goes as `segment_run`
/// says of the records that it sees.
pub proof fn lemma_run_segment(
    options: ConvertOptions,
    connections: Map<u32, (Seq<char>, Seq<char>)>,
    session_start: u64,
    total_msgs: u64,
    records: Seq<Record>,
)
    requires
        options.segmented(),
    ensures
        state_after_all(
            options,
            connections,
            session_start,
            initial_state(total_msgs),
            records,
        ).segment == segment_run(
            unit_threshold_of(options),
            byte_threshold_of(options),
            all_passed(options, connections, session_start, records),
        ),
        state_after_all(
            options,
            connections,
            session_start,
            initial_state(total_msgs),
            records,
        ).pending is None,
    decreases records.len(),
{
    if records.len() != 0 {
        let front = records.drop_last();
        let last = records.last();
        lemma_run_segment(options, connections, session_start, total_msgs, front);
        let passed_front = all_passed(options, connections, session_start, front);
        lemma_run_never_due(
            unit_threshold_of(options),
            byte_threshold_of(options),
            passed_front,
        );
        match as_passed(options, connections, session_start, last) {
            Some(p) => {
                assert(passed_front.push(p).drop_last() =~= passed_front);
            },
            None => {},
        }
    }
}

/// With only a unit threshold `k` set, a run emits as many parts as the
/// number of its decoded image-like records divided by `k`, rounded up.
pub proof fn lemma_run_part_count(
    options: ConvertOptions,
    connections: Map<u32, (Seq<char>, Seq<char>)>,
    session_start: u64,
    total_msgs: u64,
    records: Seq<Record>,
    k: usize,
)
    requires
        options.segment_size == Some(k),
        k > 0,
        options.segment_bytes is None,
        !options.dry_run,
    ensures
        parts_emitted(
            state_after_all(
                options,
                connections,
                session_start,
                initial_state(total_msgs),
                records,
            ).segment,
        ) == (qualifying(all_passed(options, connections, session_start, records)) + k - 1) / (
        k as int),
{
    lemma_run_segment(options, connections, session_start, total_msgs, records);
    lemma_part_count(k as nat, all_passed(options, connections, session_start, records));
}

/// What one record came to.
#[derive(Clone, Debug)]
pub struct Step {
    /// What was to be done with the record.
    pub admission: Admission,
    /// For a dispatched record, what its payload decoded to.
    pub decoded: Option<Result<Decoded, DecodeError>>,
    /// The part that the record filled, to be published once the record is
    /// written.
    pub flush: Option<FlushJob>,
}

/// The run, from the first record of the second pass to its end.
pub struct Converter {
    options: ConvertOptions,
    connections: ConnectionTable,
    stem: String,
    ext: String,
    session_start: u64,
    processed: u64,
    stats: Stats,
    topics: Vec<String>,
    closed_parts: u64,
    open: bool,
    units: u64,
    bytes: u128,
    single_open: bool,
    pending: Option<Pending>,
}

/// The unit threshold as a number of units.
pub open spec fn unit_threshold_of(options: ConvertOptions) -> Option<nat> {
    match options.segment_size {
        Some(n) => Some(n as nat),
        None => None,
    }
}

/// The byte threshold as a number of bytes.
pub open spec fn byte_threshold_of(options: ConvertOptions) -> Option<nat> {
    match options.segment_bytes {
        Some(n) => Some(n as nat),
        None => None,
    }
}

impl Converter {
    /// The options of the run.
    pub closed spec fn options(&self) -> ConvertOptions {
        self.options
    }

    /// The connections of the container.
    pub closed spec fn connections(&self) -> Map<u32, (Seq<char>, Seq<char>)> {
        self.connections@
    }

    /// The time of the earliest record.
    pub closed spec fn session_start(&self) -> u64 {
        self.session_start
    }

    /// Stem and extension of the names of the parts.
    pub closed spec fn part_naming(&self) -> (Seq<char>, Seq<char>) {
        (self.stem@, self.ext@)
    }

    /// The changing part of the run.
    pub closed spec fn state(&self) -> RunState {
        RunState {
            processed: self.processed as nat,
            stats: self.stats,
            topics: name_views(self.topics@),
            segment: SegmentModel {
                closed_parts: self.closed_parts as nat,
                open: self.open,
                units: self.units as nat,
                bytes: self.bytes as nat,
            },
            single_open: self.single_open,
            pending: self.pending,
        }
    }

    /// The run is well formed: what was counted is no more than what was
    /// handed in, and that no more than the first pass found.
    pub closed spec fn wf(&self) -> bool {
        &&& self.options.valid()
        &&& self.processed <= self.stats.total_msgs
        &&& self.stats.kept_msgs + self.stats.skipped + self.stats.skipped_type
            + self.stats.filtered_out + (if self.pending is Some {
            1int
        } else {
            0int
        }) <= self.processed
        &&& self.stats.images <= self.stats.kept_msgs
        &&& self.stats.compressed_images <= self.stats.kept_msgs
        &&& self.stats.pointclouds <= self.stats.kept_msgs
        &&& self.stats.laserscans <= self.stats.kept_msgs
        &&& self.stats.gps_fixes <= self.stats.kept_msgs
        &&& self.stats.raw_bytes <= self.stats.kept_msgs * 0x1_0000_0000_0000_0000
        &&& self.bytes <= self.stats.raw_bytes
        &&& self.units <= self.stats.kept_msgs
        &&& self.closed_parts + (if self.open {
            1int
        } else {
            0int
        }) <= self.processed
        &&& (self.units > 0 || self.bytes > 0 ==> self.open)
        &&& (self.open ==> self.options.segmented())
        &&& (self.single_open ==> !self.options.segmented() && !self.options.dry_run)
        &&& (self.pending is Some ==> !self.options.dry_run && (self.open || self.single_open))
    }

    /// What `receive` makes of the record.
    pub open spec fn admission_kind(&self, conn_id: u32, time: u64) -> AdmissionKind {
        kind_of(self.options(), self.connections(), self.session_start(), conn_id, time)
    }

    /// The state after `receive`.
    pub open spec fn received(&self, conn_id: u32, time: u64, len: u64) -> RunState {
        state_received(
            self.options(),
            self.connections(),
            self.session_start(),
            self.state(),
            conn_id,
            time,
            len,
        )
    }

    /// `target` is the output that a record opens when none is open.
    pub open spec fn is_target(&self, target: OpenTarget) -> bool {
        let bag = self.options().bag_path@;
        let index = self.state().segment.closed_parts;
        match target {
            OpenTarget::Single { recording_id } => {
                &&& !self.options().segmented()
                &&& recording_id@ == recording_name(Some(bag))
            },
            OpenTarget::Segment { recording_id, part_index, tmp_name, final_name } => {
                &&& self.options().segmented()
                &&& part_index == index + 1
                &&& recording_id@ == segment_recording(bag, index)
                &&& tmp_name@ == self::tmp_name(bag, index, self.part_naming().1)
                &&& final_name@ == part_name(self.part_naming().0, index, self.part_naming().1)
            },
        }
    }

    /// `open` is what a record that passed the filters has to open: the
    /// target, where no output is open, and nothing otherwise.
    pub open spec fn opens(&self, open: Option<OpenTarget>) -> bool {
        let is_open = if self.options().segmented() {
            self.state().segment.open
        } else {
            self.state().single_open
        };
        match open {
            Some(target) => !is_open && self.is_target(target),
            None => is_open,
        }
    }

    /// Starts the second pass. `stem` and `ext` are the file stem and the
    /// extension of the output path, from which the parts are named; in their
    /// absence they are `out` and `rrd`.
    pub fn new(
        options: ConvertOptions,
        connections: ConnectionTable,
        pass: FirstPass,
        stem: Option<&str>,
        ext: Option<&str>,
    ) -> (r: Result<Converter, ConfigError>)
        ensures
            match r {
                Ok(c) => {
                    &&& options.valid()
                    &&& c.wf()
                    &&& c.options() == options
                    &&& c.connections() == connections@
                    &&& c.session_start() == pass.session_start
                    &&& c.part_naming() == (
                        match stem {
                            Some(s) => s@,
                            None => "out"@,
                        },
                        match ext {
                            Some(e) => e@,
                            None => "rrd"@,
                        },
                    )
                    &&& c.state() == initial_state(pass.total_msgs)
                },
                Err(e) => config_fault(
                    options.segment_size,
                    options.segment_bytes,
                    options.flush_workers,
                ) == Some(e),
            },
    {
        match options.validate() {
            Ok(_) => {},
            Err(e) => {
                return Err(e);
            },
        }
        let stem = match stem {
            Some(s) => String::from_str(s),
            None => String::from_str("out"),
        };
        let ext = match ext {
            Some(e) => String::from_str(e),
            None => String::from_str("rrd"),
        };
        let c = Converter {
            options,
            connections,
            stem,
            ext,
            session_start: pass.session_start,
            processed: 0,
            stats: Stats {
                images: 0,
                compressed_images: 0,
                pointclouds: 0,
                laserscans: 0,
                gps_fixes: 0,
                skipped_type: 0,
                skipped: 0,
                filtered_out: 0,
                kept_msgs: 0,
                total_msgs: pass.total_msgs,
                raw_bytes: 0,
            },
            topics: Vec::new(),
            closed_parts: 0,
            open: false,
            units: 0,
            bytes: 0,
            single_open: false,
            pending: None,
        };
        assert(name_views(c.topics@) =~= Seq::<Seq<char>>::empty());
        Ok(c)
    }

    /// What was counted so far.
    pub fn stats(&self) -> (s: Stats)
        ensures
            s == self.state().stats,
    {
        self.stats
    }

    /// The topics of the records that passed the filters.
    pub fn topics(&self) -> (t: &Vec<String>)
        ensures
            name_views(t@) == self.state().topics,
    {
        &self.topics
    }

    /// The options of the run.
    pub fn get_options(&self) -> (o: &ConvertOptions)
        ensures
            *o == self.options(),
    {
        &self.options
    }

    /// How many records may still be handed in: those that the first pass
    /// counted, less those handed in.
    pub fn remaining(&self) -> (n: u64)
        requires
            self.wf(),
        ensures
            n == self.state().stats.total_msgs - self.state().processed,
    {
        self.stats.total_msgs - self.processed
    }

    /// Whether a record was received and `complete` has not been told of it.
    pub fn has_pending(&self) -> (b: bool)
        ensures
            b == (self.state().pending is Some),
    {
        self.pending.is_some()
    }

    /// The time of the earliest record.
    pub fn start_time(&self) -> (t: u64)
        ensures
            t == self.session_start(),
    {
        self.session_start
    }

    fn note_topic(&mut self, topic: &str)
        ensures
            final(self).state() == (RunState {
                topics: noted(old(self).state().topics, topic@),
                ..old(self).state()
            }),
            final(self).options() == old(self).options(),
            final(self).connections() == old(self).connections(),
            final(self).session_start() == old(self).session_start(),
            final(self).part_naming() == old(self).part_naming(),
            final(self).wf() == old(self).wf(),
    {
        if !holds_name(&self.topics, topic) {
            self.topics.push(topic.to_owned());
            assert(name_views(self.topics@) =~= name_views(old(self).topics@).push(topic@));
        }
    }

    fn open_output(&mut self) -> (open: Option<OpenTarget>)
        requires
            old(self).wf(),
            !old(self).options().dry_run,
            old(self).state().segment.closed_parts < old(self).state().processed,
        ensures
            old(self).opens(open),
            final(self).state() == (RunState {
                segment: if old(self).options().segmented() {
                    SegmentModel { open: true, ..old(self).state().segment }
                } else {
                    old(self).state().segment
                },
                single_open: old(self).state().single_open || !old(self).options().segmented(),
                ..old(self).state()
            }),
            final(self).options() == old(self).options(),
            final(self).connections() == old(self).connections(),
            final(self).session_start() == old(self).session_start(),
            final(self).part_naming() == old(self).part_naming(),
    {
        if self.options.segmentation_enabled() {
            if self.open {
                None
            } else {
                let index = self.closed_parts;
                let target = OpenTarget::Segment {
                    recording_id: segment_recording_id(self.options.bag_path.as_str(), index),
                    part_index: index + 1,
                    tmp_name: tmp_file_name(
                        self.options.bag_path.as_str(),
                        index,
                        self.ext.as_str(),
                    ),
                    final_name: part_file_name(self.stem.as_str(), index, self.ext.as_str()),
                };
                self.open = true;
                Some(target)
            }
        } else {
            if self.single_open {
                None
            } else {
                let target = OpenTarget::Single {
                    recording_id: init_recording(Some(self.options.bag_path.as_str())),
                };
                self.single_open = true;
                Some(target)
            }
        }
    }

    /// Takes the next message record of the second pass, with the identifier
    /// of its connection, its time and the length of its payload, and says what
    /// is to be done with it.
    ///
    /// The record is one of those of the first pass: there is one left to hand
    /// in, and its time is not before the first. No record is pending.
    pub fn receive(&mut self, conn_id: u32, time: u64, len: u64) -> (r: Admission)
        requires
            old(self).wf(),
            old(self).state().pending is None,
            old(self).state().processed < old(self).state().stats.total_msgs,
            time >= old(self).session_start(),
        ensures
            final(self).wf(),
            final(self).options() == old(self).options(),
            final(self).connections() == old(self).connections(),
            final(self).session_start() == old(self).session_start(),
            final(self).part_naming() == old(self).part_naming(),
            final(self).state() == old(self).received(conn_id, time, len),
            match r {
                Admission::Unresolved => old(self).admission_kind(conn_id, time)
                    == AdmissionKind::Unresolved,
                Admission::Filtered => old(self).admission_kind(conn_id, time)
                    == AdmissionKind::Filtered,
                Admission::DryRun => old(self).admission_kind(conn_id, time)
                    == AdmissionKind::DryRun,
                Admission::SkippedType { open } => {
                    &&& old(self).admission_kind(conn_id, time) == AdmissionKind::SkippedType
                    &&& old(self).opens(open)
                },
                Admission::Dispatch { category, topic, relative_time, open } => {
                    &&& old(self).admission_kind(conn_id, time) == AdmissionKind::Dispatch
                    &&& category == category_of(old(self).connections()[conn_id].1)
                    &&& topic@ == old(self).connections()[conn_id].0
                    &&& relative_time == time - old(self).session_start()
                    &&& old(self).opens(open)
                },
            },
    {
        self.processed = self.processed + 1;
        let (topic, category) = match self.connections.get(conn_id) {
            Some(c) => (c.topic.clone(), classify(c.message_type.as_str())),
            None => {
                self.stats.filtered_out = self.stats.filtered_out + 1;
                return Admission::Unresolved;
            },
        };
        let relative_time: u64 = time - self.session_start;
        if !passes_filters(&self.options, topic.as_str(), relative_time) {
            return Admission::Filtered;
        }
        self.note_topic(topic.as_str());
        if self.options.dry_run {
            self.stats.kept_msgs = self.stats.kept_msgs + 1;
            return Admission::DryRun;
        }
        let open = self.open_output();
        match category {
            Category::Other => {
                self.stats.skipped_type = self.stats.skipped_type + 1;
                Admission::SkippedType { open }
            },
            _ => {
                self.pending = Some(Pending { category, len });
                Admission::Dispatch { category, topic, relative_time, open }
            },
        }
    }
}

impl Converter {
    /// The job that publishes the open part.
    pub open spec fn is_job(&self, job: FlushJob) -> bool {
        let bag = self.options().bag_path@;
        let index = self.state().segment.closed_parts;
        &&& job.part_index == index + 1
        &&& job.tmp_name@ == tmp_name(bag, index, self.part_naming().1)
        &&& job.final_name@ == part_name(self.part_naming().0, index, self.part_naming().1)
    }

    /// The state after `complete`.
    pub open spec fn completed(&self, decoded: bool) -> RunState {
        state_completed(self.options(), self.state(), decoded)
    }

    fn make_job(&self) -> (job: FlushJob)
        requires
            self.state().segment.closed_parts < u64::MAX,
        ensures
            self.is_job(job),
            job.raw_bytes_in_part == self.state().segment.bytes,
    {
        let index = self.closed_parts;
        FlushJob {
            part_index: index + 1,
            tmp_name: tmp_file_name(self.options.bag_path.as_str(), index, self.ext.as_str()),
            final_name: part_file_name(self.stem.as_str(), index, self.ext.as_str()),
            raw_bytes_in_part: self.bytes,
        }
    }

    /// Tells the run how the decoding of the pending record went, after the
    /// record was written where it could be decoded. A failure to decode never
    /// ends the run: the record is counted as skipped. Where the part is full
    /// now, the job that publishes it is returned, and the next record opens
    /// the next part.
    pub fn complete(&mut self, decoded: bool) -> (flush: Option<FlushJob>)
        requires
            old(self).wf(),
            old(self).state().pending is Some,
        ensures
            final(self).wf(),
            final(self).options() == old(self).options(),
            final(self).connections() == old(self).connections(),
            final(self).session_start() == old(self).session_start(),
            final(self).part_naming() == old(self).part_naming(),
            final(self).state() == old(self).completed(decoded),
            match flush {
                Some(job) => {
                    &&& old(self).is_job(job)
                    &&& final(self).state().segment.closed_parts
                        == old(self).state().segment.closed_parts + 1
                    &&& job.raw_bytes_in_part == old(self).state().segment.bytes + (if decoded {
                        old(self).state().pending->0.len as int
                    } else {
                        0
                    })
                },
                None => final(self).state().segment.closed_parts
                    == old(self).state().segment.closed_parts,
            },
    {
        let p = match self.pending {
            Some(p) => p,
            None => {
                return None;
            },
        };
        self.pending = None;
        let segmented = self.options.segmentation_enabled();
        if decoded {
            assert((self.stats.kept_msgs + 1) * 0x1_0000_0000_0000_0000
                == self.stats.kept_msgs * 0x1_0000_0000_0000_0000 + 0x1_0000_0000_0000_0000)
                by (nonlinear_arith);
            self.stats.kept_msgs = self.stats.kept_msgs + 1;
            self.stats.raw_bytes = self.stats.raw_bytes + p.len as u128;
            match p.category {
                Category::Image => {
                    self.stats.images = self.stats.images + 1;
                },
                Category::CompressedImage => {
                    self.stats.compressed_images = self.stats.compressed_images + 1;
                },
                Category::PointCloud => {
                    self.stats.pointclouds = self.stats.pointclouds + 1;
                },
                Category::LaserScan => {
                    self.stats.laserscans = self.stats.laserscans + 1;
                },
                Category::NavSatFix => {
                    self.stats.gps_fixes = self.stats.gps_fixes + 1;
                },
                _ => {},
            }
            if segmented {
                if is_unit(p.category) {
                    self.units = self.units + 1;
                }
                self.bytes = self.bytes + p.len as u128;
            }
        } else {
            self.stats.skipped = self.stats.skipped + 1;
        }
        if !segmented {
            return None;
        }
        let by_units = match self.options.segment_size {
            Some(size) => size > 0 && self.units >= size as u64,
            None => false,
        };
        let by_bytes = match self.options.segment_bytes {
            Some(bytes) => bytes > 0 && self.bytes >= bytes as u128,
            None => false,
        };
        if by_units || by_bytes {
            let job = self.make_job();
            self.closed_parts = self.closed_parts + 1;
            self.open = false;
            self.units = 0;
            self.bytes = 0;
            Some(job)
        } else {
            None
        }
    }

    /// How the run ends, as `finish` says it.
    pub open spec fn ends_as(&self, end: Finish) -> bool {
        let seg = self.state().segment;
        if self.options().dry_run {
            end == Finish::DryRun
        } else if self.options().segmented() {
            match end {
                Finish::Segmented { last, total_jobs } => {
                    &&& total_jobs == parts_emitted(seg)
                    &&& match last {
                        Some(job) => seg.open && seg.units > 0 && self.is_job(job)
                            && job.raw_bytes_in_part == seg.bytes,
                        None => !(seg.open && seg.units > 0),
                    }
                },
                _ => false,
            }
        } else if self.state().single_open {
            end == Finish::Single
        } else {
            end == Finish::NothingKept
        }
    }

    /// Ends the run. Where the output is cut into parts, the open part is
    /// published if it holds at least one unit; a part without a unit is
    /// dropped.
    pub fn finish(&mut self) -> (end: Finish)
        requires
            old(self).wf(),
            old(self).state().pending is None,
        ensures
            final(self).wf(),
            old(self).ends_as(end),
            final(self).options() == old(self).options(),
            final(self).connections() == old(self).connections(),
            final(self).session_start() == old(self).session_start(),
            final(self).part_naming() == old(self).part_naming(),
            final(self).state() == (RunState {
                segment: SegmentModel {
                    closed_parts: parts_emitted(old(self).state().segment),
                    open: false,
                    units: 0,
                    bytes: 0,
                },
                single_open: false,
                ..old(self).state()
            }),
    {
        if self.options.dry_run {
            return Finish::DryRun;
        }
        if self.options.segmentation_enabled() {
            let last = if self.open && self.units > 0 {
                let job = self.make_job();
                self.closed_parts = self.closed_parts + 1;
                Some(job)
            } else {
                None
            };
            self.open = false;
            self.units = 0;
            self.bytes = 0;
            return Finish::Segmented { last, total_jobs: self.closed_parts };
        }
        if self.single_open {
            self.single_open = false;
            Finish::Single
        } else {
            Finish::NothingKept
        }
    }
}

impl Converter {
    /// Takes the next message record of the second pass and does all that is
    /// to be done with it: says what is to be done, decodes the payload of a
    /// dispatched record, and counts the record by how the decoding went. A
    /// payload that cannot be decoded is counted as skipped, and the run goes
    /// on.
    ///
    /// The record is one of those of the first pass: there is one left to hand
    /// in, and its time is not before the first. No record is pending.
    pub fn process(&mut self, conn_id: u32, time: u64, payload: &[u8]) -> (step: Step)
        requires
            old(self).wf(),
            old(self).state().pending is None,
            old(self).state().processed < old(self).state().stats.total_msgs,
            time >= old(self).session_start(),
        ensures
            final(self).wf(),
            final(self).state().pending is None,
            final(self).options() == old(self).options(),
            final(self).connections() == old(self).connections(),
            final(self).session_start() == old(self).session_start(),
            final(self).part_naming() == old(self).part_naming(),
            final(self).state() == state_processed(
                old(self).options(),
                old(self).connections(),
                old(self).session_start(),
                old(self).state(),
                (Record { conn_id, time, payload: payload@ }),
            ),
            match step.admission {
                Admission::Unresolved => old(self).admission_kind(conn_id, time)
                    == AdmissionKind::Unresolved,
                Admission::Filtered => old(self).admission_kind(conn_id, time)
                    == AdmissionKind::Filtered,
                Admission::DryRun => old(self).admission_kind(conn_id, time)
                    == AdmissionKind::DryRun,
                Admission::SkippedType { open } => {
                    &&& old(self).admission_kind(conn_id, time) == AdmissionKind::SkippedType
                    &&& old(self).opens(open)
                },
                Admission::Dispatch { category, topic, relative_time, open } => {
                    &&& old(self).admission_kind(conn_id, time) == AdmissionKind::Dispatch
                    &&& category == category_of(old(self).connections()[conn_id].1)
                    &&& topic@ == old(self).connections()[conn_id].0
                    &&& relative_time == time - old(self).session_start()
                    &&& old(self).opens(open)
                },
            },
            match step.decoded {
                Some(r) => {
                    &&& old(self).admission_kind(conn_id, time) == AdmissionKind::Dispatch
                    &&& viewed(r) == decoded_of(
                        category_of(old(self).connections()[conn_id].1),
                        payload@,
                    )
                },
                None => old(self).admission_kind(conn_id, time) != AdmissionKind::Dispatch,
            },
            match step.flush {
                Some(job) => {
                    &&& old(self).is_job(job)
                    &&& final(self).state().segment.closed_parts
                        == old(self).state().segment.closed_parts + 1
                },
                None => final(self).state().segment.closed_parts
                    == old(self).state().segment.closed_parts,
            },
    {
        let admission = self.receive(conn_id, time, payload.len() as u64);
        let category = match &admission {
            Admission::Dispatch { category, .. } => *category,
            _ => {
                return Step { admission, decoded: None, flush: None };
            },
        };
        let decoded = decode(category, payload);
        let flush = self.complete(decoded.is_ok());
        Step { admission, decoded: Some(decoded), flush }
    }
}

} // verus!
