//! The names under which recordings are opened.

use vstd::prelude::*;

verus! {

/// The name of a recording: the application's name, followed by a colon and
/// the recording's own identifier where it has one.
pub open spec fn recording_name(recording_id: Option<Seq<char>>) -> Seq<char> {
    match recording_id {
        Some(id) => "bag2rrd:"@ + id,
        None => "bag2rrd"@,
    }
}

/// Names the recording that is about to be opened. Opening it is the caller's
/// part.
pub fn init_recording(recording_id: Option<&str>) -> (name: String)
    ensures
        name@ == recording_name(
            match recording_id {
                Some(id) => Some(id@),
                None => None,
            },
        ),
{
    match recording_id {
        Some(id) => String::from_str("bag2rrd:").concat(id),
        None => String::from_str("bag2rrd"),
    }
}

} // verus!
