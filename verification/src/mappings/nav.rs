//! Odometry, stamped poses and paths: the fields of their messages. Numbers
//! are the bit patterns of 64-bit floats.

use vstd::prelude::*;
use crate::wire::{
    advanced, bits_at, fits, le_u32, le_u64, parse_quaternion, parse_vector3, read_f64_le,
    read_string, read_u32_le, skip_bytes, string_at, DecodeError, Field,
};

verus! {

/// A message header: the time stamp and the frame that the message speaks of.
#[derive(Clone, Debug, PartialEq, Eq)]
pub struct Header {
    pub stamp: u64,
    pub frame_id: String,
}

/// A position `[x, y, z]` and an orientation quaternion `[x, y, z, w]`.
#[derive(Clone, Copy, Debug, PartialEq, Eq)]
pub struct Pose {
    pub position: [u64; 3],
    pub orientation: [u64; 4],
}

/// The pose of the frame `child_frame_id` in the frame of the header.
#[derive(Clone, Debug, PartialEq, Eq)]
pub struct Odometry {
    pub header: Header,
    pub child_frame_id: String,
    pub pose: Pose,
}

/// A pose in the frame of its header.
#[derive(Clone, Debug, PartialEq, Eq)]
pub struct PoseStamped {
    pub header: Header,
    pub pose: Pose,
}

/// A sequence of stamped poses.
#[derive(Clone, Debug, PartialEq, Eq)]
pub struct Path {
    pub header: Header,
    pub poses: Vec<PoseStamped>,
}

/// A header as plain values.
pub struct HeaderView {
    pub stamp: u64,
    pub frame_id: Seq<char>,
}

/// A pose as plain values.
pub struct PoseView {
    pub position: Seq<u64>,
    pub orientation: Seq<u64>,
}

/// An odometry message as plain values.
pub struct OdometryView {
    pub header: HeaderView,
    pub child_frame_id: Seq<char>,
    pub pose: PoseView,
}

/// A stamped pose as plain values.
pub struct PoseStampedView {
    pub header: HeaderView,
    pub pose: PoseView,
}

/// A path as plain values.
pub struct PathView {
    pub header: HeaderView,
    pub poses: Seq<PoseStampedView>,
}

impl View for Header {
    type V = HeaderView;

    open spec fn view(&self) -> HeaderView {
        HeaderView { stamp: self.stamp, frame_id: self.frame_id@ }
    }
}

impl View for Pose {
    type V = PoseView;

    open spec fn view(&self) -> PoseView {
        PoseView { position: self.position@, orientation: self.orientation@ }
    }
}

impl View for Odometry {
    type V = OdometryView;

    open spec fn view(&self) -> OdometryView {
        OdometryView {
            header: self.header@,
            child_frame_id: self.child_frame_id@,
            pose: self.pose@,
        }
    }
}

impl View for PoseStamped {
    type V = PoseStampedView;

    open spec fn view(&self) -> PoseStampedView {
        PoseStampedView { header: self.header@, pose: self.pose@ }
    }
}

/// The views of the poses.
pub open spec fn pose_views(poses: Seq<PoseStamped>) -> Seq<PoseStampedView> {
    Seq::new(poses.len(), |i: int| poses[i]@)
}

impl View for Path {
    type V = PathView;

    open spec fn view(&self) -> PathView {
        PathView { header: self.header@, poses: pose_views(self.poses@) }
    }
}

/// The header at `pos` and the position after it: four bytes of sequence
/// number, passed over; the stamp, eight bytes; the frame name, a string.
pub open spec fn header_at(s: Seq<u8>, pos: int) -> Result<(HeaderView, int), DecodeError> {
    let at = advanced(s, pos, 4);
    if !fits(s, at, 8) {
        Err(DecodeError::Truncated(Field::Stamp))
    } else {
        match string_at(s, at + 8, Field::FrameIdLength, Field::FrameId) {
            Err(e) => Err(e),
            Ok((frame_id, next)) => Ok((HeaderView { stamp: le_u64(s, at) as u64, frame_id }, next)),
        }
    }
}

/// The pose at `pos`: position, then orientation, 56 bytes in all.
pub open spec fn pose_at(s: Seq<u8>, pos: int) -> Result<PoseView, DecodeError> {
    match bits_at(s, pos, 3, Field::Position) {
        Err(e) => Err(e),
        Ok(position) => match bits_at(s, pos + 24, 4, Field::Orientation) {
            Err(e) => Err(e),
            Ok(orientation) => Ok(PoseView { position, orientation }),
        },
    }
}

/// The stamped pose at `pos` and the position after it.
pub open spec fn pose_stamped_at(s: Seq<u8>, pos: int) -> Result<
    (PoseStampedView, int),
    DecodeError,
> {
    match header_at(s, pos) {
        Err(e) => Err(e),
        Ok((header, at)) => match pose_at(s, at) {
            Err(e) => Err(e),
            Ok(pose) => Ok((PoseStampedView { header, pose }, at + 56)),
        },
    }
}

/// The odometry message that `s` holds: header, child frame, pose. The
/// covariance that follows the pose is not looked at.
pub open spec fn odometry_of(s: Seq<u8>) -> Result<OdometryView, DecodeError> {
    match header_at(s, 0) {
        Err(e) => Err(e),
        Ok((header, after_header)) => match string_at(
            s,
            after_header,
            Field::ChildFrameIdLength,
            Field::ChildFrameId,
        ) {
            Err(e) => Err(e),
            Ok((child_frame_id, after_child)) => match pose_at(s, after_child) {
                Err(e) => Err(e),
                Ok(pose) => Ok(OdometryView { header, child_frame_id, pose }),
            },
        },
    }
}

/// `count` stamped poses in a row from `pos` on.
pub open spec fn poses_from(s: Seq<u8>, pos: int, count: nat) -> Result<
    Seq<PoseStampedView>,
    DecodeError,
>
    decreases count,
{
    if count == 0 {
        Ok(Seq::empty())
    } else {
        match pose_stamped_at(s, pos) {
            Err(e) => Err(e),
            Ok((first, next)) => match poses_from(s, next, (count - 1) as nat) {
                Err(e) => Err(e),
                Ok(rest) => Ok(seq![first] + rest),
            },
        }
    }
}

/// The path that `s` holds: header, the number of poses, the poses.
pub open spec fn path_of(s: Seq<u8>) -> Result<PathView, DecodeError> {
    match header_at(s, 0) {
        Err(e) => Err(e),
        Ok((header, at)) => if !fits(s, at, 4) {
            Err(DecodeError::Truncated(Field::PoseCount))
        } else {
            match poses_from(s, at + 4, le_u32(s, at) as nat) {
                Err(e) => Err(e),
                Ok(poses) => Ok(PathView { header, poses }),
            }
        },
    }
}

/// Reads a message header.
pub fn parse_header(payload: &[u8], cursor: &mut usize) -> (r: Result<Header, DecodeError>)
    ensures
        match r {
            Ok(h) => header_at(payload@, *old(cursor) as int) == Ok::<
                (HeaderView, int),
                DecodeError,
            >((h@, *final(cursor) as int)),
            Err(e) => header_at(payload@, *old(cursor) as int) == Err::<
                (HeaderView, int),
                DecodeError,
            >(e),
        },
{
    skip_bytes(payload, cursor, 4);
    let stamp = match read_f64_le(payload, cursor, Field::Stamp) {
        Ok(v) => v,
        Err(e) => {
            return Err(e);
        },
    };
    let frame_id = match read_string(payload, cursor, Field::FrameIdLength, Field::FrameId) {
        Ok(v) => v,
        Err(e) => {
            return Err(e);
        },
    };
    Ok(Header { stamp, frame_id })
}

/// Reads a pose.
pub fn parse_pose(payload: &[u8], cursor: &mut usize) -> (r: Result<Pose, DecodeError>)
    ensures
        match r {
            Ok(p) => pose_at(payload@, *old(cursor) as int) == Ok::<PoseView, DecodeError>(p@)
                && *final(cursor) == *old(cursor) + 56,
            Err(e) => pose_at(payload@, *old(cursor) as int) == Err::<PoseView, DecodeError>(e),
        },
{
    let position = match parse_vector3(payload, cursor, Field::Position) {
        Ok(v) => v,
        Err(e) => {
            return Err(e);
        },
    };
    let orientation = match parse_quaternion(payload, cursor, Field::Orientation) {
        Ok(v) => v,
        Err(e) => {
            return Err(e);
        },
    };
    Ok(Pose { position, orientation })
}

/// Reads a pose with its covariance, of which only the pose is kept.
pub fn parse_pose_with_covariance(payload: &[u8], cursor: &mut usize) -> (r: Result<
    Pose,
    DecodeError,
>)
    ensures
        match r {
            Ok(p) => pose_at(payload@, *old(cursor) as int) == Ok::<PoseView, DecodeError>(p@),
            Err(e) => pose_at(payload@, *old(cursor) as int) == Err::<PoseView, DecodeError>(e),
        },
{
    let pose = match parse_pose(payload, cursor) {
        Ok(v) => v,
        Err(e) => {
            return Err(e);
        },
    };
    skip_bytes(payload, cursor, 288);
    Ok(pose)
}

/// Reads a stamped pose.
pub fn parse_pose_stamped(payload: &[u8], cursor: &mut usize) -> (r: Result<
    PoseStamped,
    DecodeError,
>)
    ensures
        match r {
            Ok(p) => pose_stamped_at(payload@, *old(cursor) as int) == Ok::<
                (PoseStampedView, int),
                DecodeError,
            >((p@, *final(cursor) as int)),
            Err(e) => pose_stamped_at(payload@, *old(cursor) as int) == Err::<
                (PoseStampedView, int),
                DecodeError,
            >(e),
        },
{
    let header = match parse_header(payload, cursor) {
        Ok(v) => v,
        Err(e) => {
            return Err(e);
        },
    };
    let pose = match parse_pose(payload, cursor) {
        Ok(v) => v,
        Err(e) => {
            return Err(e);
        },
    };
    Ok(PoseStamped { header, pose })
}

/// Reads an odometry message.
pub fn parse_odometry(payload: &[u8]) -> (r: Result<Odometry, DecodeError>)
    ensures
        crate::wire::viewed(r) == odometry_of(payload@),
{
    let mut cursor: usize = 0;
    let header = match parse_header(payload, &mut cursor) {
        Ok(v) => v,
        Err(e) => {
            return Err(e);
        },
    };
    let child_frame_id = match read_string(
        payload,
        &mut cursor,
        Field::ChildFrameIdLength,
        Field::ChildFrameId,
    ) {
        Ok(v) => v,
        Err(e) => {
            return Err(e);
        },
    };
    let pose = match parse_pose_with_covariance(payload, &mut cursor) {
        Ok(v) => v,
        Err(e) => {
            return Err(e);
        },
    };
    Ok(Odometry { header, child_frame_id, pose })
}

/// Reads a path message.
pub fn parse_path(payload: &[u8]) -> (r: Result<Path, DecodeError>)
    ensures
        crate::wire::viewed(r) == path_of(payload@),
{
    let mut cursor: usize = 0;
    let header = match parse_header(payload, &mut cursor) {
        Ok(v) => v,
        Err(e) => {
            return Err(e);
        },
    };
    let count = match read_u32_le(payload, &mut cursor, Field::PoseCount) {
        Ok(v) => v,
        Err(e) => {
            return Err(e);
        },
    };
    let ghost first = cursor as int;
    let mut poses: Vec<PoseStamped> = Vec::new();
    let mut i: u32 = 0;
    while i < count
        invariant
            i <= count,
            path_of(payload@) == match poses_from(payload@, first, count as nat) {
                Ok(all) => Ok::<PathView, DecodeError>(PathView { header: header@, poses: all }),
                Err(e) => Err(e),
            },
            poses_from(payload@, first, count as nat) == match poses_from(
                payload@,
                cursor as int,
                (count - i) as nat,
            ) {
                Ok(rest) => Ok::<Seq<PoseStampedView>, DecodeError>(pose_views(poses@) + rest),
                Err(e) => Err(e),
            },
        decreases count - i,
    {
        let ghost done = pose_views(poses@);
        let ghost at = cursor as int;
        match parse_pose_stamped(payload, &mut cursor) {
            Ok(pose) => {
                proof {
                    match poses_from(payload@, cursor as int, (count - i - 1) as nat) {
                        Ok(rest) => {
                            assert(done + (seq![pose@] + rest) =~= done.push(pose@) + rest);
                        },
                        Err(_) => {},
                    }
                }
                poses.push(pose);
                assert(pose_views(poses@) =~= done.push(pose@));
            },
            Err(e) => {
                assert(poses_from(payload@, at, (count - i) as nat) == Err::<
                    Seq<PoseStampedView>,
                    DecodeError,
                >(e));
                return Err(e);
            },
        }
        i = i + 1;
    }
    proof {
        assert(pose_views(poses@) + Seq::<PoseStampedView>::empty() =~= pose_views(poses@));
    }
    Ok(Path { header, poses })
}

} // verus!
