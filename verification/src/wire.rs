//! Little-endian field readers over a message payload.
//!
//! A reader takes the payload and a cursor. On success it returns the field and
//! moves the cursor past it; where the payload ends too early it returns
//! [`DecodeError::Truncated`] tagged with the field it was asked for and leaves
//! the cursor where it was. Floating-point fields are returned as their
//! IEEE-754 bit patterns.

use vstd::prelude::*;
use vstd::utf8::{decode_utf8, valid_utf8};

verus! {

/// The field of a message that a reader was working on.
#[derive(Clone, Copy, Debug, PartialEq, Eq, Structural)]
pub enum Field {
    SequenceNumber,
    Stamp,
    FrameIdLength,
    FrameId,
    ChildFrameIdLength,
    ChildFrameId,
    Height,
    Width,
    EncodingLength,
    Encoding,
    Endianness,
    Step,
    RowStep,
    DataLength,
    Data,
    FormatLength,
    Format,
    Status,
    Service,
    Latitude,
    Longitude,
    Altitude,
    Orientation,
    AngularVelocity,
    LinearAcceleration,
    AngleMin,
    AngleMax,
    AngleIncrement,
    RangeMin,
    RangeMax,
    RangeCount,
    IntensityCount,
    Range,
    FieldCount,
    FieldNameLength,
    FieldName,
    FieldOffset,
    FieldDatatype,
    FieldRepeat,
    PointX,
    PointY,
    PointZ,
    PointColor,
    Translation,
    Rotation,
    Position,
    PoseCount,
}

/// Why a payload could not be decoded.
#[derive(Clone, Copy, Debug, PartialEq, Eq, Structural)]
pub enum DecodeError {
    /// The payload ends before the field is complete.
    Truncated(Field),
    /// An image whose height or width is zero or above 10000.
    InvalidDimensions,
    /// A compressed image with nothing after its format string.
    NoData,
    /// A raw image in an encoding other than rgb8, bgr8, rgba8, mono8, mono16.
    UnsupportedEncoding,
    /// A compressed image whose format names neither PNG nor JPEG.
    UnsupportedFormat,
    /// The PNG or JPEG decoder rejected the image file.
    CodecRejected,
}

/// `n` bytes are present in `s` from position `pos` on.
pub open spec fn fits(s: Seq<u8>, pos: int, n: int) -> bool {
    0 <= pos && 0 <= n && pos + n <= s.len()
}

/// The 16-bit little-endian number at `pos`.
pub open spec fn le_u16(s: Seq<u8>, pos: int) -> int {
    s[pos] as int + 256 * (s[pos + 1] as int)
}

/// The 32-bit little-endian number at `pos`.
pub open spec fn le_u32(s: Seq<u8>, pos: int) -> int {
    le_u16(s, pos) + 65536 * le_u16(s, pos + 2)
}

/// The 64-bit little-endian number at `pos`.
pub open spec fn le_u64(s: Seq<u8>, pos: int) -> int {
    le_u32(s, pos) + 4294967296 * le_u32(s, pos + 4)
}

/// The byte `b` read as a two's-complement signed number.
pub open spec fn signed_byte(b: u8) -> int {
    if b < 128 {
        b as int
    } else {
        b as int - 256
    }
}

/// Where the cursor stands after moving `n` bytes forward from `pos`: it stops
/// at the end of the payload.
pub open spec fn advanced(s: Seq<u8>, pos: int, n: int) -> int {
    if pos + n <= s.len() {
        pos + n
    } else if pos <= s.len() {
        s.len() as int
    } else {
        pos
    }
}

/// What a reader of an `n`-byte field returns: on success the cursor has moved
/// by `n` and the field was present; otherwise the error names `field` and the
/// cursor has not moved.
pub open spec fn read_outcome<T>(
    r: Result<T, DecodeError>,
    s: Seq<u8>,
    before: int,
    after: int,
    n: int,
    field: Field,
) -> bool {
    match r {
        Ok(_) => fits(s, before, n) && after == before + n,
        Err(e) => !fits(s, before, n) && after == before && e == DecodeError::Truncated(field),
    }
}

/// `n` bytes are left in `payload` at `cursor`.
pub fn has_bytes(payload: &[u8], cursor: usize, n: usize) -> (b: bool)
    ensures
        b == fits(payload@, cursor as int, n as int),
        b ==> cursor + n <= usize::MAX,
{
    cursor <= payload.len() && n <= payload.len() - cursor
}

/// Moves the cursor `n` bytes forward without reading, stopping at the end of
/// the payload.
pub fn skip_bytes(payload: &[u8], cursor: &mut usize, n: usize)
    ensures
        *final(cursor) as int == advanced(payload@, *old(cursor) as int, n as int),
{
    let len: usize = payload.len();
    let at: usize = *cursor;
    if at <= len {
        *cursor = if n <= len - at {
            at + n
        } else {
            len
        };
    }
}

/// Reads one byte.
pub fn read_u8(payload: &[u8], cursor: &mut usize, field: Field) -> (r: Result<u8, DecodeError>)
    ensures
        read_outcome(r, payload@, *old(cursor) as int, *final(cursor) as int, 1, field),
        r is Ok ==> r->Ok_0 == payload@[*old(cursor) as int],
{
    if !has_bytes(payload, *cursor, 1) {
        return Err(DecodeError::Truncated(field));
    }
    let val = payload[*cursor];
    *cursor = *cursor + 1;
    Ok(val)
}

/// Reads one byte as a flag: any value but zero is `true`.
pub fn read_bool(payload: &[u8], cursor: &mut usize, field: Field) -> (r: Result<
    bool,
    DecodeError,
>)
    ensures
        read_outcome(r, payload@, *old(cursor) as int, *final(cursor) as int, 1, field),
        r is Ok ==> r->Ok_0 == (payload@[*old(cursor) as int] != 0),
{
    match read_u8(payload, cursor, field) {
        Ok(val) => Ok(val != 0),
        Err(e) => Err(e),
    }
}

/// Reads one byte as a signed number.
pub fn read_i8(payload: &[u8], cursor: &mut usize, field: Field) -> (r: Result<i8, DecodeError>)
    ensures
        read_outcome(r, payload@, *old(cursor) as int, *final(cursor) as int, 1, field),
        r is Ok ==> r->Ok_0 as int == signed_byte(payload@[*old(cursor) as int]),
{
    match read_u8(payload, cursor, field) {
        Ok(val) => {
            if val < 128 {
                Ok(val as i8)
            } else {
                Ok((val as i16 - 256) as i8)
            }
        },
        Err(e) => Err(e),
    }
}

/// Reads a 16-bit little-endian number.
pub fn read_u16_le(payload: &[u8], cursor: &mut usize, field: Field) -> (r: Result<
    u16,
    DecodeError,
>)
    ensures
        read_outcome(r, payload@, *old(cursor) as int, *final(cursor) as int, 2, field),
        r is Ok ==> r->Ok_0 as int == le_u16(payload@, *old(cursor) as int),
{
    if !has_bytes(payload, *cursor, 2) {
        return Err(DecodeError::Truncated(field));
    }
    let at: usize = *cursor;
    let val: u16 = payload[at] as u16 + 256 * (payload[at + 1] as u16);
    *cursor = at + 2;
    Ok(val)
}

/// Reads a 32-bit little-endian number.
pub fn read_u32_le(payload: &[u8], cursor: &mut usize, field: Field) -> (r: Result<
    u32,
    DecodeError,
>)
    ensures
        read_outcome(r, payload@, *old(cursor) as int, *final(cursor) as int, 4, field),
        r is Ok ==> r->Ok_0 as int == le_u32(payload@, *old(cursor) as int),
{
    if !has_bytes(payload, *cursor, 4) {
        return Err(DecodeError::Truncated(field));
    }
    let at: usize = *cursor;
    let lo: u32 = payload[at] as u32 + 256 * (payload[at + 1] as u32);
    let hi: u32 = payload[at + 2] as u32 + 256 * (payload[at + 3] as u32);
    *cursor = at + 4;
    Ok(lo + 65536 * hi)
}

/// Reads a 64-bit little-endian number.
pub fn read_u64_le(payload: &[u8], cursor: &mut usize, field: Field) -> (r: Result<
    u64,
    DecodeError,
>)
    ensures
        read_outcome(r, payload@, *old(cursor) as int, *final(cursor) as int, 8, field),
        r is Ok ==> r->Ok_0 as int == le_u64(payload@, *old(cursor) as int),
{
    if !has_bytes(payload, *cursor, 8) {
        return Err(DecodeError::Truncated(field));
    }
    let at: usize = *cursor;
    let a: u64 = payload[at] as u64 + 256 * (payload[at + 1] as u64);
    let b: u64 = payload[at + 2] as u64 + 256 * (payload[at + 3] as u64);
    let c: u64 = payload[at + 4] as u64 + 256 * (payload[at + 5] as u64);
    let d: u64 = payload[at + 6] as u64 + 256 * (payload[at + 7] as u64);
    *cursor = at + 8;
    Ok((a + 65536 * b) + 4294967296 * (c + 65536 * d))
}

/// Reads a 32-bit float and returns its bit pattern.
pub fn read_f32_le(payload: &[u8], cursor: &mut usize, field: Field) -> (r: Result<
    u32,
    DecodeError,
>)
    ensures
        read_outcome(r, payload@, *old(cursor) as int, *final(cursor) as int, 4, field),
        r is Ok ==> r->Ok_0 as int == le_u32(payload@, *old(cursor) as int),
{
    read_u32_le(payload, cursor, field)
}

/// Reads a 64-bit float and returns its bit pattern.
pub fn read_f64_le(payload: &[u8], cursor: &mut usize, field: Field) -> (r: Result<
    u64,
    DecodeError,
>)
    ensures
        read_outcome(r, payload@, *old(cursor) as int, *final(cursor) as int, 8, field),
        r is Ok ==> r->Ok_0 as int == le_u64(payload@, *old(cursor) as int),
{
    read_u64_le(payload, cursor, field)
}

/// The text that a lossy UTF-8 decoding makes of `bytes`: the characters that
/// the bytes encode, with the replacement character U+FFFD wherever they
/// encode none.
pub uninterp spec fn utf8_lossy(bytes: Seq<u8>) -> Seq<char>;

/// Decodes bytes as UTF-8 with `String::from_utf8_lossy`, which puts U+FFFD in
/// the place of each invalid sequence. Believed of it: the result depends on
/// the bytes alone, and valid UTF-8 is decoded as it stands.
#[verifier::external_body]
fn string_from_utf8_lossy(bytes: &[u8]) -> (s: String)
    ensures
        s@ == utf8_lossy(bytes@),
        valid_utf8(bytes@) ==> s@ == decode_utf8(bytes@),
{
    String::from_utf8_lossy(bytes).into_owned()
}

/// The result of a parser with the parsed value replaced by its view.
pub open spec fn viewed<T: View>(r: Result<T, DecodeError>) -> Result<T::V, DecodeError> {
    match r {
        Ok(x) => Ok(x@),
        Err(e) => Err(e),
    }
}

/// The string at `pos`: a 32-bit length, then that many bytes of text. Gives the
/// text and the position after it.
pub open spec fn string_at(s: Seq<u8>, pos: int, length_field: Field, field: Field) -> Result<
    (Seq<char>, int),
    DecodeError,
> {
    if !fits(s, pos, 4) {
        Err(DecodeError::Truncated(length_field))
    } else if !fits(s, pos + 4, le_u32(s, pos)) {
        Err(DecodeError::Truncated(field))
    } else {
        Ok(
            (
                utf8_lossy(s.subrange(pos + 4, pos + 4 + le_u32(s, pos))),
                pos + 4 + le_u32(s, pos),
            ),
        )
    }
}

/// Reads a string: a 32-bit length, then that many bytes, decoded as UTF-8
/// with U+FFFD for what is not.
pub fn read_string(payload: &[u8], cursor: &mut usize, length_field: Field, field: Field) -> (r:
    Result<String, DecodeError>)
    ensures
        match r {
            Ok(text) => string_at(payload@, *old(cursor) as int, length_field, field) == Ok::<
                (Seq<char>, int),
                DecodeError,
            >((text@, *final(cursor) as int)),
            Err(e) => string_at(payload@, *old(cursor) as int, length_field, field) == Err::<
                (Seq<char>, int),
                DecodeError,
            >(e) && *final(cursor) == *old(cursor),
        },
{
    let start: usize = *cursor;
    let len = match read_u32_le(payload, cursor, length_field) {
        Ok(len) => len as usize,
        Err(e) => {
            return Err(e);
        },
    };
    if !has_bytes(payload, *cursor, len) {
        *cursor = start;
        return Err(DecodeError::Truncated(field));
    }
    let from: usize = *cursor;
    let text = string_from_utf8_lossy(&payload[from..from + len]);
    *cursor = from + len;
    Ok(text)
}

/// The position after a message header that starts at `pos`: a sequence number
/// and a time stamp, twelve bytes that are passed over unread, then the frame
/// name as a 32-bit length and that many bytes, passed over too. Only the
/// length itself has to be there.
pub open spec fn header_end(s: Seq<u8>, pos: int) -> Result<int, DecodeError> {
    let at = advanced(s, pos, 12);
    if !fits(s, at, 4) {
        Err(DecodeError::Truncated(Field::FrameIdLength))
    } else {
        Ok(advanced(s, at + 4, le_u32(s, at)))
    }
}

/// Passes over a message header and gives the position after it.
pub fn skip_header(payload: &[u8], cursor: usize) -> (r: Result<usize, DecodeError>)
    ensures
        match r {
            Ok(end) => header_end(payload@, cursor as int) == Ok::<int, DecodeError>(end as int),
            Err(e) => header_end(payload@, cursor as int) == Err::<int, DecodeError>(e),
        },
{
    let mut at: usize = cursor;
    skip_bytes(payload, &mut at, 12);
    let len = match read_u32_le(payload, &mut at, Field::FrameIdLength) {
        Ok(len) => len as usize,
        Err(e) => {
            return Err(e);
        },
    };
    skip_bytes(payload, &mut at, len);
    Ok(at)
}

/// `count` 64-bit floats in a row at `pos`, as their bit patterns, or the
/// news that `field` is cut short.
pub open spec fn bits_at(s: Seq<u8>, pos: int, count: int, field: Field) -> Result<
    Seq<u64>,
    DecodeError,
> {
    if !fits(s, pos, 8 * count) {
        Err(DecodeError::Truncated(field))
    } else {
        Ok(Seq::new(count as nat, |i: int| le_u64(s, pos + 8 * i) as u64))
    }
}

/// Reads three 64-bit floats, `x`, `y`, `z`, and returns their bit patterns.
pub fn parse_vector3(payload: &[u8], cursor: &mut usize, field: Field) -> (r: Result<
    [u64; 3],
    DecodeError,
>)
    ensures
        match r {
            Ok(v) => bits_at(payload@, *old(cursor) as int, 3, field) == Ok::<
                Seq<u64>,
                DecodeError,
            >(v@) && *final(cursor) == *old(cursor) + 24,
            Err(e) => bits_at(payload@, *old(cursor) as int, 3, field) == Err::<
                Seq<u64>,
                DecodeError,
            >(e) && *final(cursor) == *old(cursor),
        },
{
    if !has_bytes(payload, *cursor, 24) {
        return Err(DecodeError::Truncated(field));
    }
    let ghost start = *cursor as int;
    let x = match read_u64_le(payload, cursor, field) {
        Ok(x) => x,
        Err(e) => {
            return Err(e);
        },
    };
    let y = match read_u64_le(payload, cursor, field) {
        Ok(y) => y,
        Err(e) => {
            return Err(e);
        },
    };
    let z = match read_u64_le(payload, cursor, field) {
        Ok(z) => z,
        Err(e) => {
            return Err(e);
        },
    };
    let v = [x, y, z];
    assert(v@ =~= Seq::new(3, |i: int| le_u64(payload@, start + 8 * i) as u64));
    Ok(v)
}

/// Reads four 64-bit floats, `x`, `y`, `z`, `w`, and returns their bit patterns.
pub fn parse_quaternion(payload: &[u8], cursor: &mut usize, field: Field) -> (r: Result<
    [u64; 4],
    DecodeError,
>)
    ensures
        match r {
            Ok(v) => bits_at(payload@, *old(cursor) as int, 4, field) == Ok::<
                Seq<u64>,
                DecodeError,
            >(v@) && *final(cursor) == *old(cursor) + 32,
            Err(e) => bits_at(payload@, *old(cursor) as int, 4, field) == Err::<
                Seq<u64>,
                DecodeError,
            >(e) && *final(cursor) == *old(cursor),
        },
{
    if !has_bytes(payload, *cursor, 32) {
        return Err(DecodeError::Truncated(field));
    }
    let ghost start = *cursor as int;
    let x = match read_u64_le(payload, cursor, field) {
        Ok(x) => x,
        Err(e) => {
            return Err(e);
        },
    };
    let y = match read_u64_le(payload, cursor, field) {
        Ok(y) => y,
        Err(e) => {
            return Err(e);
        },
    };
    let z = match read_u64_le(payload, cursor, field) {
        Ok(z) => z,
        Err(e) => {
            return Err(e);
        },
    };
    let w = match read_u64_le(payload, cursor, field) {
        Ok(w) => w,
        Err(e) => {
            return Err(e);
        },
    };
    let v = [x, y, z, w];
    assert(v@ =~= Seq::new(4, |i: int| le_u64(payload@, start + 8 * i) as u64));
    Ok(v)
}

} // verus!
