//! Conversion of recorded sensor logs into a time-coherent scene: payload
//! decoding, record filtering, output segmentation and the frame transform
//! graph, with the behaviour of each stated as a contract.

use vstd::prelude::*;

pub mod convert;
pub mod flush;
pub mod graph;
pub mod mappings;
pub mod names;
pub mod paths;
pub mod rosbags_io;
pub mod rrd_writer;
pub mod schema;
pub mod text;
pub mod validate;
pub mod wire;

pub use convert::ConvertOptions;
pub use mappings::tf::{TfGraph, TfMode, TfSample};

verus! {

/// The crate's version, as `major.minor.patch`.
pub fn version() -> (v: &'static str)
    ensures
        v@ == "0.3.0"@,
{
    "0.3.0"
}

} // verus!
