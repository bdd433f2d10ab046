//! One module for each kind of message that is decoded, and the transform
//! graph.

use vstd::prelude::*;
use crate::convert::Category;
use crate::wire::{viewed, DecodeError};

pub mod geoid;
pub mod gps;
pub mod images;
pub mod imu;
pub mod laserscan;
pub mod nav;
pub mod pointcloud;
pub mod tf;

verus! {

/// A decoded payload.
#[derive(Clone, Debug)]
pub enum Decoded {
    Image(images::RgbImage),
    CompressedImage(images::RgbImage),
    PointCloud(pointcloud::PointCloud),
    LaserScan(laserscan::LaserScan),
    NavSatFix(gps::NavSatFix),
    /// Time-sampled transforms.
    Tf(Vec<tf::TransformStamped>),
    /// Static transforms.
    TfStatic(Vec<tf::TransformStamped>),
    Odometry(nav::Odometry),
    PoseStamped(nav::PoseStamped),
    Path(nav::Path),
}

/// A decoded payload as plain values.
pub enum DecodedView {
    Image(images::RgbImageView),
    CompressedImage(images::RgbImageView),
    PointCloud(pointcloud::PointCloudView),
    LaserScan(laserscan::LaserScanView),
    NavSatFix(gps::NavSatFix),
    Tf(Seq<tf::TransformStampedView>),
    TfStatic(Seq<tf::TransformStampedView>),
    Odometry(nav::OdometryView),
    PoseStamped(nav::PoseStampedView),
    Path(nav::PathView),
}

impl View for Decoded {
    type V = DecodedView;

    open spec fn view(&self) -> DecodedView {
        match *self {
            Decoded::Image(v) => DecodedView::Image(v@),
            Decoded::CompressedImage(v) => DecodedView::CompressedImage(v@),
            Decoded::PointCloud(v) => DecodedView::PointCloud(v@),
            Decoded::LaserScan(v) => DecodedView::LaserScan(v@),
            Decoded::NavSatFix(v) => DecodedView::NavSatFix(v),
            Decoded::Tf(v) => DecodedView::Tf(tf::transform_views(v@)),
            Decoded::TfStatic(v) => DecodedView::TfStatic(tf::transform_views(v@)),
            Decoded::Odometry(v) => DecodedView::Odometry(v@),
            Decoded::PoseStamped(v) => DecodedView::PoseStamped(v@),
            Decoded::Path(v) => DecodedView::Path(v@),
        }
    }
}

/// What the payload `s` of a record of `category` decodes to: each category
/// by the layout of its own module.
pub open spec fn decoded_of(category: Category, s: Seq<u8>) -> Result<DecodedView, DecodeError>
    recommends
        category != Category::Other,
{
    match category {
        Category::Image => match images::raw_rgb_of(s) {
            Ok(v) => Ok(DecodedView::Image(v)),
            Err(e) => Err(e),
        },
        Category::CompressedImage => match images::compressed_rgb_of(s) {
            Ok(v) => Ok(DecodedView::CompressedImage(v)),
            Err(e) => Err(e),
        },
        Category::PointCloud => match pointcloud::cloud_of(s) {
            Ok(v) => Ok(DecodedView::PointCloud(v)),
            Err(e) => Err(e),
        },
        Category::LaserScan => match laserscan::scan_of(s) {
            Ok(v) => Ok(DecodedView::LaserScan(v)),
            Err(e) => Err(e),
        },
        Category::NavSatFix => match gps::navsatfix_of(s) {
            Ok(v) => Ok(DecodedView::NavSatFix(v)),
            Err(e) => Err(e),
        },
        Category::Tf => match tf::transforms_from(s, 0) {
            Ok(v) => Ok(DecodedView::Tf(v)),
            Err(e) => Err(e),
        },
        Category::TfStatic => match tf::transforms_from(s, 0) {
            Ok(v) => Ok(DecodedView::TfStatic(v)),
            Err(e) => Err(e),
        },
        Category::Odometry => match nav::odometry_of(s) {
            Ok(v) => Ok(DecodedView::Odometry(v)),
            Err(e) => Err(e),
        },
        Category::PoseStamped => match nav::pose_stamped_at(s, 0) {
            Ok((v, _)) => Ok(DecodedView::PoseStamped(v)),
            Err(e) => Err(e),
        },
        Category::Path => match nav::path_of(s) {
            Ok(v) => Ok(DecodedView::Path(v)),
            Err(e) => Err(e),
        },
        Category::Other => arbitrary(),
    }
}

/// Decodes the payload of a record of `category`, which is one that is
/// converted.
pub fn decode(category: Category, payload: &[u8]) -> (r: Result<Decoded, DecodeError>)
    requires
        category != Category::Other,
    ensures
        viewed(r) == decoded_of(category, payload@),
{
    match category {
        Category::Image => match images::decode_image(payload) {
            Ok(v) => Ok(Decoded::Image(v)),
            Err(e) => Err(e),
        },
        Category::CompressedImage => match images::decode_compressed(payload) {
            Ok(v) => Ok(Decoded::CompressedImage(v)),
            Err(e) => Err(e),
        },
        Category::PointCloud => match pointcloud::parse_pointcloud2(payload) {
            Ok(v) => Ok(Decoded::PointCloud(v)),
            Err(e) => Err(e),
        },
        Category::LaserScan => match laserscan::parse_laserscan(payload) {
            Ok(v) => Ok(Decoded::LaserScan(v)),
            Err(e) => Err(e),
        },
        Category::NavSatFix => match gps::parse_navsatfix(payload) {
            Ok(v) => Ok(Decoded::NavSatFix(v)),
            Err(e) => Err(e),
        },
        Category::Tf => match tf::parse_tf_message(payload) {
            Ok(v) => Ok(Decoded::Tf(v)),
            Err(e) => Err(e),
        },
        Category::TfStatic => match tf::parse_tf_message(payload) {
            Ok(v) => Ok(Decoded::TfStatic(v)),
            Err(e) => Err(e),
        },
        Category::Odometry => match nav::parse_odometry(payload) {
            Ok(v) => Ok(Decoded::Odometry(v)),
            Err(e) => Err(e),
        },
        Category::PoseStamped => {
            let mut cursor: usize = 0;
            match nav::parse_pose_stamped(payload, &mut cursor) {
                Ok(v) => Ok(Decoded::PoseStamped(v)),
                Err(e) => Err(e),
            }
        },
        Category::Path => match nav::parse_path(payload) {
            Ok(v) => Ok(Decoded::Path(v)),
            Err(e) => Err(e),
        },
        Category::Other => vstd::pervasive::unreached(),
    }
}

} // verus!
