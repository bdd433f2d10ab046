//! Satellite fixes: the fields of a fix message and the names of the
//! positioning services that its service mask holds.

use vstd::prelude::*;
use crate::wire::{
    fits, header_end, le_u16, le_u64, read_f64_le, read_i8, read_u16_le, signed_byte, skip_header,
    DecodeError, Field,
};

verus! {

/// A satellite fix. Latitude, longitude and altitude are the bit patterns of
/// 64-bit floats.
#[derive(Clone, Copy, Debug, PartialEq, Eq)]
pub struct NavSatFix {
    pub latitude: u64,
    pub longitude: u64,
    pub altitude: u64,
    /// The fix status; below zero there is no fix.
    pub status: i8,
    /// The mask of positioning services.
    pub service: u16,
}

/// The status and the service mask of a fix.
#[derive(Clone, Copy, Debug, PartialEq, Eq)]
pub struct Status {
    pub status: i8,
    pub service: u16,
}

/// The fix that `s` holds: after the header, one signed byte of status, a
/// 16-bit service mask, then latitude, longitude and altitude.
pub open spec fn navsatfix_of(s: Seq<u8>) -> Result<NavSatFix, DecodeError> {
    match header_end(s, 0) {
        Err(e) => Err(e),
        Ok(at) => if !fits(s, at, 1) {
            Err(DecodeError::Truncated(Field::Status))
        } else if !fits(s, at + 1, 2) {
            Err(DecodeError::Truncated(Field::Service))
        } else if !fits(s, at + 3, 8) {
            Err(DecodeError::Truncated(Field::Latitude))
        } else if !fits(s, at + 11, 8) {
            Err(DecodeError::Truncated(Field::Longitude))
        } else if !fits(s, at + 19, 8) {
            Err(DecodeError::Truncated(Field::Altitude))
        } else {
            Ok(
                NavSatFix {
                    latitude: le_u64(s, at + 3) as u64,
                    longitude: le_u64(s, at + 11) as u64,
                    altitude: le_u64(s, at + 19) as u64,
                    status: signed_byte(s[at]) as i8,
                    service: le_u16(s, at + 1) as u16,
                },
            )
        },
    }
}

/// Reads the status byte and the service mask of a fix.
pub fn parse_status(payload: &[u8], cursor: &mut usize) -> (r: Result<Status, DecodeError>)
    ensures
        match r {
            Ok(st) => {
                &&& fits(payload@, *old(cursor) as int, 3)
                &&& *final(cursor) == *old(cursor) + 3
                &&& st.status == signed_byte(payload@[*old(cursor) as int])
                &&& st.service == le_u16(payload@, *old(cursor) + 1)
            },
            Err(e) => {
                &&& !fits(payload@, *old(cursor) as int, 3)
                &&& e == if fits(payload@, *old(cursor) as int, 1) {
                    DecodeError::Truncated(Field::Service)
                } else {
                    DecodeError::Truncated(Field::Status)
                }
            },
        },
{
    let status = match read_i8(payload, cursor, Field::Status) {
        Ok(v) => v,
        Err(e) => {
            return Err(e);
        },
    };
    let service = match read_u16_le(payload, cursor, Field::Service) {
        Ok(v) => v,
        Err(e) => {
            return Err(e);
        },
    };
    Ok(Status { status, service })
}

/// Reads a satellite fix message.
pub fn parse_navsatfix(payload: &[u8]) -> (r: Result<NavSatFix, DecodeError>)
    ensures
        r == navsatfix_of(payload@),
{
    let mut cursor = match skip_header(payload, 0) {
        Ok(at) => at,
        Err(e) => {
            return Err(e);
        },
    };
    let st = match parse_status(payload, &mut cursor) {
        Ok(st) => st,
        Err(e) => {
            return Err(e);
        },
    };
    let latitude = match read_f64_le(payload, &mut cursor, Field::Latitude) {
        Ok(v) => v,
        Err(e) => {
            return Err(e);
        },
    };
    let longitude = match read_f64_le(payload, &mut cursor, Field::Longitude) {
        Ok(v) => v,
        Err(e) => {
            return Err(e);
        },
    };
    let altitude = match read_f64_le(payload, &mut cursor, Field::Altitude) {
        Ok(v) => v,
        Err(e) => {
            return Err(e);
        },
    };
    Ok(NavSatFix { latitude, longitude, altitude, status: st.status, service: st.service })
}

/// The parts joined, with `sep` between each two.
pub open spec fn joined(parts: Seq<Seq<char>>, sep: Seq<char>) -> Seq<char>
    decreases parts.len(),
{
    if parts.len() == 0 {
        Seq::empty()
    } else if parts.len() == 1 {
        parts[0]
    } else {
        joined(parts.drop_last(), sep) + sep + parts.last()
    }
}

/// `name` alone where the bit `bit` is set in `service`, else nothing.
pub open spec fn if_served(service: u16, bit: u16, name: Seq<char>) -> Seq<Seq<char>> {
    if service & bit != 0 {
        seq![name]
    } else {
        Seq::empty()
    }
}

/// The names of the services in the mask: bit 1 is GPS, 2 GLONASS, 4 COMPASS,
/// 8 GALILEO, in this order.
pub open spec fn service_list(service: u16) -> Seq<Seq<char>> {
    if_served(service, 1, "GPS"@) + if_served(service, 2, "GLONASS"@) + if_served(
        service,
        4,
        "COMPASS"@,
    ) + if_served(service, 8, "GALILEO"@)
}

fn add_name(out: String, Ghost(parts): Ghost<Seq<Seq<char>>>, set: bool, name: &str) -> (r: String)
    requires
        out@ == joined(parts, ", "@),
        (out@.len() == 0) == (parts.len() == 0),
        name@.len() > 0,
    ensures
        r@ == joined(
            if set {
                parts.push(name@)
            } else {
                parts
            },
            ", "@,
        ),
        (r@.len() == 0) == ((if set {
            parts.push(name@)
        } else {
            parts
        }).len() == 0),
{
    if !set {
        return out;
    }
    let ghost more = parts.push(name@);
    assert(more.drop_last() =~= parts);
    if out.as_str().is_empty() {
        assert(joined(more, ", "@) =~= name@);
        String::from_str(name)
    } else {
        let r = out.concat(", ").concat(name);
        assert(r@ =~= joined(more, ", "@));
        r
    }
}

/// The names of the positioning services in a service mask, separated by a
/// comma and a blank.
pub fn get_service_names(service: u16) -> (names: String)
    ensures
        names@ == joined(service_list(service), ", "@),
{
    proof {
        reveal_strlit("GPS");
        reveal_strlit("GLONASS");
        reveal_strlit("COMPASS");
        reveal_strlit("GALILEO");
    }
    let ghost none = Seq::<Seq<char>>::empty();
    let ghost a = if_served(service, 1, "GPS"@);
    let ghost b = a + if_served(service, 2, "GLONASS"@);
    let ghost c = b + if_served(service, 4, "COMPASS"@);
    let ghost d = c + if_served(service, 8, "GALILEO"@);
    let out = String::new();
    let out = add_name(out, Ghost(none), service & 1 != 0, "GPS");
    assert(a =~= if service & 1 != 0 {
        none.push("GPS"@)
    } else {
        none
    });
    let out = add_name(out, Ghost(a), service & 2 != 0, "GLONASS");
    assert(b =~= if service & 2 != 0 {
        a.push("GLONASS"@)
    } else {
        a
    });
    let out = add_name(out, Ghost(b), service & 4 != 0, "COMPASS");
    assert(c =~= if service & 4 != 0 {
        b.push("COMPASS"@)
    } else {
        b
    });
    let out = add_name(out, Ghost(c), service & 8 != 0, "GALILEO");
    assert(d =~= if service & 8 != 0 {
        c.push("GALILEO"@)
    } else {
        c
    });
    out
}

} // verus!
