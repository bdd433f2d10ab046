//! Laser scans: the fields of their messages. Angles and ranges are the bit
//! patterns of 32-bit floats.

use vstd::prelude::*;
use crate::wire::{
    advanced, fits, header_end, le_u32, read_f32_le, read_u32_le, skip_bytes, skip_header,
    DecodeError, Field,
};

verus! {

/// A laser scan: the angle of the first range, the angle from one range to
/// the next, the bounds of a valid range, and the ranges.
#[derive(Clone, Debug, PartialEq, Eq)]
pub struct LaserScan {
    pub angle_min: u32,
    pub angle_increment: u32,
    pub range_min: u32,
    pub range_max: u32,
    pub ranges: Vec<u32>,
}

/// A laser scan as plain values.
pub struct LaserScanView {
    pub angle_min: u32,
    pub angle_increment: u32,
    pub range_min: u32,
    pub range_max: u32,
    pub ranges: Seq<u32>,
}

impl View for LaserScan {
    type V = LaserScanView;

    open spec fn view(&self) -> LaserScanView {
        LaserScanView {
            angle_min: self.angle_min,
            angle_increment: self.angle_increment,
            range_min: self.range_min,
            range_max: self.range_max,
            ranges: self.ranges@,
        }
    }
}

/// The scan that starts at `pos`, after the header: the least angle, the
/// greatest, the increment; eight bytes of timing, passed over; the least and
/// the greatest range; the number of ranges and the number of intensities;
/// then the ranges.
pub open spec fn scan_body(s: Seq<u8>, pos: int) -> Result<LaserScanView, DecodeError> {
    if !fits(s, pos, 4) {
        Err(DecodeError::Truncated(Field::AngleMin))
    } else if !fits(s, pos + 4, 4) {
        Err(DecodeError::Truncated(Field::AngleMax))
    } else if !fits(s, pos + 8, 4) {
        Err(DecodeError::Truncated(Field::AngleIncrement))
    } else {
        let at = advanced(s, pos + 12, 8);
        if !fits(s, at, 4) {
            Err(DecodeError::Truncated(Field::RangeMin))
        } else if !fits(s, at + 4, 4) {
            Err(DecodeError::Truncated(Field::RangeMax))
        } else if !fits(s, at + 8, 4) {
            Err(DecodeError::Truncated(Field::RangeCount))
        } else if !fits(s, at + 12, 4) {
            Err(DecodeError::Truncated(Field::IntensityCount))
        } else if !fits(s, at + 16, 4 * le_u32(s, at + 8)) {
            Err(DecodeError::Truncated(Field::Range))
        } else {
            Ok(
                LaserScanView {
                    angle_min: le_u32(s, pos) as u32,
                    angle_increment: le_u32(s, pos + 8) as u32,
                    range_min: le_u32(s, at) as u32,
                    range_max: le_u32(s, at + 4) as u32,
                    ranges: Seq::new(
                        le_u32(s, at + 8) as nat,
                        |i: int| le_u32(s, at + 16 + 4 * i) as u32,
                    ),
                },
            )
        }
    }
}

/// The scan that `s` holds.
pub open spec fn scan_of(s: Seq<u8>) -> Result<LaserScanView, DecodeError> {
    match header_end(s, 0) {
        Err(e) => Err(e),
        Ok(at) => scan_body(s, at),
    }
}

/// Reads a laser scan message.
pub fn parse_laserscan(payload: &[u8]) -> (r: Result<LaserScan, DecodeError>)
    ensures
        crate::wire::viewed(r) == scan_of(payload@),
{
    let mut cursor = match skip_header(payload, 0) {
        Ok(at) => at,
        Err(e) => {
            return Err(e);
        },
    };
    let angle_min = match read_f32_le(payload, &mut cursor, Field::AngleMin) {
        Ok(v) => v,
        Err(e) => {
            return Err(e);
        },
    };
    match read_f32_le(payload, &mut cursor, Field::AngleMax) {
        Ok(_) => {},
        Err(e) => {
            return Err(e);
        },
    }
    let angle_increment = match read_f32_le(payload, &mut cursor, Field::AngleIncrement) {
        Ok(v) => v,
        Err(e) => {
            return Err(e);
        },
    };
    skip_bytes(payload, &mut cursor, 8);
    let range_min = match read_f32_le(payload, &mut cursor, Field::RangeMin) {
        Ok(v) => v,
        Err(e) => {
            return Err(e);
        },
    };
    let range_max = match read_f32_le(payload, &mut cursor, Field::RangeMax) {
        Ok(v) => v,
        Err(e) => {
            return Err(e);
        },
    };
    let count = match read_u32_le(payload, &mut cursor, Field::RangeCount) {
        Ok(v) => v,
        Err(e) => {
            return Err(e);
        },
    };
    match read_u32_le(payload, &mut cursor, Field::IntensityCount) {
        Ok(_) => {},
        Err(e) => {
            return Err(e);
        },
    }
    let ghost first = cursor as int;
    if ((payload.len() - cursor) as u64) < 4 * (count as u64) {
        return Err(DecodeError::Truncated(Field::Range));
    }
    let mut ranges: Vec<u32> = Vec::new();
    let mut i: u32 = 0;
    while i < count
        invariant
            i <= count,
            cursor == first + 4 * i,
            ranges@.len() == i,
            fits(payload@, first, 4 * count),
            forall|k: int| 0 <= k < i ==> ranges@[k] == le_u32(payload@, first + 4 * k),
        decreases count - i,
    {
        let r = match read_f32_le(payload, &mut cursor, Field::Range) {
            Ok(v) => v,
            Err(e) => {
                return Err(e);
            },
        };
        ranges.push(r);
        i = i + 1;
    }
    let scan = LaserScan { angle_min, angle_increment, range_min, range_max, ranges };
    proof {
        let expected = scan_of(payload@);
        assert(expected is Ok);
        assert(scan@.ranges =~= expected->Ok_0.ranges);
    }
    Ok(scan)
}

} // verus!
