//! Inertial measurements: the fields of their messages. Numbers are the bit
//! patterns of 64-bit floats.

use vstd::prelude::*;
use crate::wire::{
    advanced, bits_at, header_end, parse_quaternion, parse_vector3, skip_bytes, skip_header,
    DecodeError, Field,
};

verus! {

/// An inertial measurement: orientation `[x, y, z, w]`, angular velocity and
/// linear acceleration `[x, y, z]`.
#[derive(Clone, Copy, Debug, PartialEq, Eq)]
pub struct ImuData {
    pub orientation: [u64; 4],
    pub angular_velocity: [u64; 3],
    pub linear_acceleration: [u64; 3],
}

/// An inertial measurement as plain values.
pub struct ImuDataView {
    pub orientation: Seq<u64>,
    pub angular_velocity: Seq<u64>,
    pub linear_acceleration: Seq<u64>,
}

impl View for ImuData {
    type V = ImuDataView;

    open spec fn view(&self) -> ImuDataView {
        ImuDataView {
            orientation: self.orientation@,
            angular_velocity: self.angular_velocity@,
            linear_acceleration: self.linear_acceleration@,
        }
    }
}

/// The measurement that `s` holds: after the header the orientation, then,
/// each after 72 bytes of covariance that are passed over, the angular
/// velocity and the linear acceleration.
pub open spec fn imu_of(s: Seq<u8>) -> Result<ImuDataView, DecodeError> {
    match header_end(s, 0) {
        Err(e) => Err(e),
        Ok(at_orientation) => match bits_at(s, at_orientation, 4, Field::Orientation) {
            Err(e) => Err(e),
            Ok(orientation) => {
                let at_velocity = advanced(s, at_orientation + 32, 72);
                match bits_at(s, at_velocity, 3, Field::AngularVelocity) {
                    Err(e) => Err(e),
                    Ok(angular_velocity) => {
                        let at_acceleration = advanced(s, at_velocity + 24, 72);
                        match bits_at(s, at_acceleration, 3, Field::LinearAcceleration) {
                            Err(e) => Err(e),
                            Ok(linear_acceleration) => Ok(
                                ImuDataView { orientation, angular_velocity, linear_acceleration },
                            ),
                        }
                    },
                }
            },
        },
    }
}

/// Reads an inertial measurement message.
pub fn parse_ros_imu(payload: &[u8]) -> (r: Result<ImuData, DecodeError>)
    ensures
        crate::wire::viewed(r) == imu_of(payload@),
{
    let mut cursor = match skip_header(payload, 0) {
        Ok(at) => at,
        Err(e) => {
            return Err(e);
        },
    };
    let orientation = match parse_quaternion(payload, &mut cursor, Field::Orientation) {
        Ok(v) => v,
        Err(e) => {
            return Err(e);
        },
    };
    skip_bytes(payload, &mut cursor, 72);
    let angular_velocity = match parse_vector3(payload, &mut cursor, Field::AngularVelocity) {
        Ok(v) => v,
        Err(e) => {
            return Err(e);
        },
    };
    skip_bytes(payload, &mut cursor, 72);
    let linear_acceleration = match parse_vector3(payload, &mut cursor, Field::LinearAcceleration) {
        Ok(v) => v,
        Err(e) => {
            return Err(e);
        },
    };
    Ok(ImuData { orientation, angular_velocity, linear_acceleration })
}

} // verus!
