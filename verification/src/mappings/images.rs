//! Raw and compressed images: the fields of their messages, and the pixels as
//! 24-bit RGB.

use vstd::prelude::*;
use vstd::string::*;
use vstd::utf8::encode_utf8;
use crate::text::{contains_ignore_case, contains_lower, str_eq};
use crate::wire::{
    fits, le_u32, read_string, read_u32_le, read_u8, skip_bytes, string_at, DecodeError, Field,
};

verus! {

/// A raw image as its message holds it.
#[derive(Clone, Debug, PartialEq, Eq)]
pub struct RosImage<'a> {
    pub width: usize,
    pub height: usize,
    pub encoding: String,
    pub data: &'a [u8],
}

/// A raw image as plain values.
pub struct RosImageView {
    pub width: int,
    pub height: int,
    pub encoding: Seq<char>,
    pub data: Seq<u8>,
}

impl<'a> View for RosImage<'a> {
    type V = RosImageView;

    open spec fn view(&self) -> RosImageView {
        RosImageView {
            width: self.width as int,
            height: self.height as int,
            encoding: self.encoding@,
            data: self.data@,
        }
    }
}

/// The image that starts at the height field at `pos`: height, width, the
/// encoding as a string, one byte of endianness, the row step, then the length
/// of the data and the data. An image with a side of zero or of more than
/// 10000 is refused once all of it was read.
pub open spec fn image_body(s: Seq<u8>, pos: int) -> Result<RosImageView, DecodeError> {
    if !fits(s, pos, 4) {
        Err(DecodeError::Truncated(Field::Height))
    } else if !fits(s, pos + 4, 4) {
        Err(DecodeError::Truncated(Field::Width))
    } else {
        match string_at(s, pos + 8, Field::EncodingLength, Field::Encoding) {
            Err(e) => Err(e),
            Ok((encoding, at)) => if !fits(s, at, 1) {
                Err(DecodeError::Truncated(Field::Endianness))
            } else if !fits(s, at + 1, 4) {
                Err(DecodeError::Truncated(Field::Step))
            } else if !fits(s, at + 5, 4) {
                Err(DecodeError::Truncated(Field::DataLength))
            } else if !fits(s, at + 9, le_u32(s, at + 5)) {
                Err(DecodeError::Truncated(Field::Data))
            } else {
                let height = le_u32(s, pos);
                let width = le_u32(s, pos + 4);
                if height == 0 || width == 0 || height > 10000 || width > 10000 {
                    Err(DecodeError::InvalidDimensions)
                } else {
                    Ok(
                        RosImageView {
                            width,
                            height,
                            encoding,
                            data: s.subrange(at + 9, at + 9 + le_u32(s, at + 5)),
                        },
                    )
                }
            },
        }
    }
}

/// The raw image that `s` holds: a header of sequence number, stamp and frame
/// name, each of which has to be there, then the image.
pub open spec fn image_of(s: Seq<u8>) -> Result<RosImageView, DecodeError> {
    if !fits(s, 0, 4) {
        Err(DecodeError::Truncated(Field::SequenceNumber))
    } else if !fits(s, 4, 8) {
        Err(DecodeError::Truncated(Field::Stamp))
    } else {
        match string_at(s, 12, Field::FrameIdLength, Field::FrameId) {
            Err(e) => Err(e),
            Ok((_, at)) => image_body(s, at),
        }
    }
}

/// Reads a raw image message.
pub fn parse_ros_image<'a>(payload: &'a [u8]) -> (r: Result<RosImage<'a>, DecodeError>)
    ensures
        crate::wire::viewed(r) == image_of(payload@),
{
    let mut cursor: usize = 0;
    match read_u32_le(payload, &mut cursor, Field::SequenceNumber) {
        Ok(_) => {},
        Err(e) => {
            return Err(e);
        },
    }
    if !crate::wire::has_bytes(payload, cursor, 8) {
        return Err(DecodeError::Truncated(Field::Stamp));
    }
    skip_bytes(payload, &mut cursor, 8);
    match read_string(payload, &mut cursor, Field::FrameIdLength, Field::FrameId) {
        Ok(_) => {},
        Err(e) => {
            return Err(e);
        },
    }
    let height = match read_u32_le(payload, &mut cursor, Field::Height) {
        Ok(v) => v as usize,
        Err(e) => {
            return Err(e);
        },
    };
    let width = match read_u32_le(payload, &mut cursor, Field::Width) {
        Ok(v) => v as usize,
        Err(e) => {
            return Err(e);
        },
    };
    let encoding = match read_string(payload, &mut cursor, Field::EncodingLength, Field::Encoding) {
        Ok(v) => v,
        Err(e) => {
            return Err(e);
        },
    };
    match read_u8(payload, &mut cursor, Field::Endianness) {
        Ok(_) => {},
        Err(e) => {
            return Err(e);
        },
    }
    match read_u32_le(payload, &mut cursor, Field::Step) {
        Ok(_) => {},
        Err(e) => {
            return Err(e);
        },
    }
    let data_len = match read_u32_le(payload, &mut cursor, Field::DataLength) {
        Ok(v) => v as usize,
        Err(e) => {
            return Err(e);
        },
    };
    if !crate::wire::has_bytes(payload, cursor, data_len) {
        return Err(DecodeError::Truncated(Field::Data));
    }
    let data = &payload[cursor..cursor + data_len];
    if height == 0 || width == 0 || height > 10000 || width > 10000 {
        return Err(DecodeError::InvalidDimensions);
    }
    Ok(RosImage { width, height, encoding, data })
}

/// A compressed image as its message holds it: the name of the format and the
/// image file.
#[derive(Clone, Debug, PartialEq, Eq)]
pub struct CompressedImage<'a> {
    pub format: String,
    pub data: &'a [u8],
}

/// A compressed image as plain values.
pub struct CompressedImageView {
    pub format: Seq<char>,
    pub data: Seq<u8>,
}

impl<'a> View for CompressedImage<'a> {
    type V = CompressedImageView;

    open spec fn view(&self) -> CompressedImageView {
        CompressedImageView { format: self.format@, data: self.data@ }
    }
}

/// The compressed image that `s` holds: the format as a string at the very
/// start, then at least one byte of data up to the end.
pub open spec fn compressed_of(s: Seq<u8>) -> Result<CompressedImageView, DecodeError> {
    match string_at(s, 0, Field::FormatLength, Field::Format) {
        Err(e) => Err(e),
        Ok((format, at)) => if at >= s.len() {
            Err(DecodeError::NoData)
        } else {
            Ok(CompressedImageView { format, data: s.subrange(at, s.len() as int) })
        },
    }
}

/// Reads a compressed image message.
pub fn parse_ros_compressed<'a>(payload: &'a [u8]) -> (r: Result<CompressedImage<'a>, DecodeError>)
    ensures
        crate::wire::viewed(r) == compressed_of(payload@),
{
    let mut cursor: usize = 0;
    let format = match read_string(payload, &mut cursor, Field::FormatLength, Field::Format) {
        Ok(v) => v,
        Err(e) => {
            return Err(e);
        },
    };
    if cursor >= payload.len() {
        return Err(DecodeError::NoData);
    }
    let data = &payload[cursor..payload.len()];
    Ok(CompressedImage { format, data })
}

/// The pixel layouts of raw images that are understood.
#[derive(Clone, Copy, Debug, PartialEq, Eq, Structural)]
pub enum Encoding {
    Rgb8,
    Bgr8,
    Rgba8,
    Mono8,
    Mono16,
}

/// The layout that `name` names.
pub open spec fn encoding_named(name: Seq<char>) -> Option<Encoding> {
    if name == "rgb8"@ {
        Some(Encoding::Rgb8)
    } else if name == "bgr8"@ {
        Some(Encoding::Bgr8)
    } else if name == "rgba8"@ {
        Some(Encoding::Rgba8)
    } else if name == "mono8"@ {
        Some(Encoding::Mono8)
    } else if name == "mono16"@ {
        Some(Encoding::Mono16)
    } else {
        None
    }
}

/// The layout that `name` names, if it is one that is understood.
pub fn encoding_of(name: &str) -> (r: Option<Encoding>)
    ensures
        r == encoding_named(name@),
{
    if str_eq(name, "rgb8") {
        Some(Encoding::Rgb8)
    } else if str_eq(name, "bgr8") {
        Some(Encoding::Bgr8)
    } else if str_eq(name, "rgba8") {
        Some(Encoding::Rgba8)
    } else if str_eq(name, "mono8") {
        Some(Encoding::Mono8)
    } else if str_eq(name, "mono16") {
        Some(Encoding::Mono16)
    } else {
        None
    }
}

/// The pixels of `data` as red, green, blue, one byte each.
///
/// `rgb8` is taken as it is. `bgr8` has the first and third byte of each full
/// triple exchanged. `rgba8` loses the fourth byte of each full group of four.
/// `mono8` has each byte three times. `mono16`, little-endian, has the high
/// byte of each full pair three times.
pub open spec fn rgb24_of(encoding: Encoding, data: Seq<u8>) -> Seq<u8> {
    match encoding {
        Encoding::Rgb8 => data,
        Encoding::Bgr8 => Seq::new(
            data.len(),
            |i: int|
                if i < 3 * (data.len() / 3) {
                    data[3 * (i / 3) + (2 - i % 3)]
                } else {
                    data[i]
                },
        ),
        Encoding::Rgba8 => Seq::new(3 * (data.len() / 4), |i: int| data[4 * (i / 3) + i % 3]),
        Encoding::Mono8 => Seq::new(3 * data.len(), |i: int| data[i / 3]),
        Encoding::Mono16 => Seq::new(3 * (data.len() / 2), |i: int| data[2 * (i / 3) + 1]),
    }
}

fn swap_red_blue(data: &[u8]) -> (out: Vec<u8>)
    ensures
        out@ == rgb24_of(Encoding::Bgr8, data@),
{
    let len: usize = data.len();
    let full: usize = len / 3;
    let mut out: Vec<u8> = Vec::new();
    let mut k: usize = 0;
    while k < full
        invariant
            k <= full,
            full == len / 3,
            len == data@.len(),
            out@.len() == 3 * k,
            forall|i: int| 0 <= i < 3 * k ==> out@[i] == data@[3 * (i / 3) + (2 - i % 3)],
        decreases full - k,
    {
        out.push(data[3 * k + 2]);
        out.push(data[3 * k + 1]);
        out.push(data[3 * k]);
        k = k + 1;
    }
    let mut i: usize = 3 * full;
    while i < len
        invariant
            3 * full <= i <= len,
            full == len / 3,
            len == data@.len(),
            out@.len() == i,
            forall|j: int|
                0 <= j < i ==> out@[j] == if j < 3 * full {
                    data@[3 * (j / 3) + (2 - j % 3)]
                } else {
                    data@[j]
                },
        decreases len - i,
    {
        out.push(data[i]);
        i = i + 1;
    }
    assert(out@ =~= rgb24_of(Encoding::Bgr8, data@));
    out
}

fn drop_alpha(data: &[u8]) -> (out: Vec<u8>)
    ensures
        out@ == rgb24_of(Encoding::Rgba8, data@),
{
    let len: usize = data.len();
    let full: usize = len / 4;
    let mut out: Vec<u8> = Vec::new();
    let mut k: usize = 0;
    while k < full
        invariant
            k <= full,
            full == len / 4,
            len == data@.len(),
            out@.len() == 3 * k,
            forall|i: int| 0 <= i < 3 * k ==> out@[i] == data@[4 * (i / 3) + i % 3],
        decreases full - k,
    {
        out.push(data[4 * k]);
        out.push(data[4 * k + 1]);
        out.push(data[4 * k + 2]);
        k = k + 1;
    }
    assert(out@ =~= rgb24_of(Encoding::Rgba8, data@));
    out
}

fn grey_to_rgb(data: &[u8], stride: usize) -> (out: Vec<u8>)
    requires
        stride == 1 || stride == 2,
    ensures
        out@ == rgb24_of(
            if stride == 1 {
                Encoding::Mono8
            } else {
                Encoding::Mono16
            },
            data@,
        ),
{
    let len: usize = data.len();
    let full: usize = len / stride;
    let mut out: Vec<u8> = Vec::new();
    let mut k: usize = 0;
    while k < full
        invariant
            k <= full,
            stride == 1 || stride == 2,
            full == len / stride,
            len == data@.len(),
            out@.len() == 3 * k,
            forall|i: int| 0 <= i < 3 * k ==> out@[i] == data@[stride * (i / 3) + stride - 1],
        decreases full - k,
    {
        let grey = data[stride * k + stride - 1];
        out.push(grey);
        out.push(grey);
        out.push(grey);
        k = k + 1;
    }
    assert(out@ =~= rgb24_of(
        if stride == 1 {
            Encoding::Mono8
        } else {
            Encoding::Mono16
        },
        data@,
    ));
    out
}

/// The pixels of `data` as 24-bit RGB.
pub fn to_rgb24(encoding: Encoding, data: &[u8]) -> (out: Vec<u8>)
    ensures
        out@ == rgb24_of(encoding, data@),
{
    match encoding {
        Encoding::Rgb8 => vstd::slice::slice_to_vec(data),
        Encoding::Bgr8 => swap_red_blue(data),
        Encoding::Rgba8 => drop_alpha(data),
        Encoding::Mono8 => grey_to_rgb(data, 1),
        Encoding::Mono16 => grey_to_rgb(data, 2),
    }
}

/// An image of `width` by `height` pixels, three bytes each.
#[derive(Clone, Debug, PartialEq, Eq)]
pub struct RgbImage {
    pub width: u32,
    pub height: u32,
    pub pixels: Vec<u8>,
}

/// An image as plain values.
pub struct RgbImageView {
    pub width: u32,
    pub height: u32,
    pub pixels: Seq<u8>,
}

impl View for RgbImage {
    type V = RgbImageView;

    open spec fn view(&self) -> RgbImageView {
        RgbImageView { width: self.width, height: self.height, pixels: self.pixels@ }
    }
}

/// The pixels of the raw image that `s` holds: as `image_of` reads it, and in
/// an encoding that is understood.
pub open spec fn raw_rgb_of(s: Seq<u8>) -> Result<RgbImageView, DecodeError> {
    match image_of(s) {
        Err(e) => Err(e),
        Ok(image) => match encoding_named(image.encoding) {
            None => Err(DecodeError::UnsupportedEncoding),
            Some(encoding) => Ok(
                RgbImageView {
                    width: image.width as u32,
                    height: image.height as u32,
                    pixels: rgb24_of(encoding, image.data),
                },
            ),
        },
    }
}

/// Decodes a raw image message into RGB pixels.
pub fn decode_image(payload: &[u8]) -> (r: Result<RgbImage, DecodeError>)
    ensures
        crate::wire::viewed(r) == raw_rgb_of(payload@),
{
    let image = match parse_ros_image(payload) {
        Ok(v) => v,
        Err(e) => {
            return Err(e);
        },
    };
    let encoding = match encoding_of(image.encoding.as_str()) {
        Some(v) => v,
        None => {
            return Err(DecodeError::UnsupportedEncoding);
        },
    };
    Ok(
        RgbImage {
            width: image.width as u32,
            height: image.height as u32,
            pixels: to_rgb24(encoding, image.data),
        },
    )
}

/// The image file formats that are decoded.
#[derive(Clone, Copy, Debug, PartialEq, Eq, Structural)]
pub enum Codec {
    Png,
    Jpeg,
}

/// The letters `png`.
pub open spec fn png_letters() -> Seq<u8> {
    seq![112u8, 110u8, 103u8]
}

/// The letters `jpg`.
pub open spec fn jpg_letters() -> Seq<u8> {
    seq![106u8, 112u8, 103u8]
}

/// The letters `jpeg`.
pub open spec fn jpeg_letters() -> Seq<u8> {
    seq![106u8, 112u8, 101u8, 103u8]
}

/// The file format that the format string names: PNG where it holds `png`,
/// else JPEG where it holds `jpg` or `jpeg`, in letters of either case.
pub open spec fn codec_named(format: Seq<char>) -> Option<Codec> {
    let bytes = encode_utf8(format);
    if contains_lower(bytes, png_letters()) {
        Some(Codec::Png)
    } else if contains_lower(bytes, jpg_letters()) || contains_lower(bytes, jpeg_letters()) {
        Some(Codec::Jpeg)
    } else {
        None
    }
}

/// The file format that a format string names.
pub fn codec_of(format: &str) -> (r: Option<Codec>)
    ensures
        r == codec_named(format@),
{
    let bytes = format.as_bytes();
    let png: Vec<u8> = vec![112u8, 110u8, 103u8];
    let jpg: Vec<u8> = vec![106u8, 112u8, 103u8];
    let jpeg: Vec<u8> = vec![106u8, 112u8, 101u8, 103u8];
    assert(png@ =~= png_letters());
    assert(jpg@ =~= jpg_letters());
    assert(jpeg@ =~= jpeg_letters());
    if contains_ignore_case(bytes, png.as_slice()) {
        Some(Codec::Png)
    } else if contains_ignore_case(bytes, jpg.as_slice()) || contains_ignore_case(
        bytes,
        jpeg.as_slice(),
    ) {
        Some(Codec::Jpeg)
    } else {
        None
    }
}

/// The image that the image file `data` holds in the format `codec`, as
/// 24-bit RGB, or nothing where `data` is no such file.
pub uninterp spec fn decoded_rgb8(codec: Codec, data: Seq<u8>) -> Option<RgbImageView>;

/// Decodes an image file with `image::load_from_memory_with_format` and turns
/// it into 24-bit RGB with `DynamicImage::to_rgb8`. Believed of them: the
/// outcome depends on the format and the bytes alone.
#[verifier::external_body]
fn decode_rgb8(data: &[u8], codec: Codec) -> (r: Option<RgbImage>)
    ensures
        match r {
            Some(image) => decoded_rgb8(codec, data@) == Some(image@),
            None => decoded_rgb8(codec, data@) is None,
        },
{
    let format = match codec {
        Codec::Png => image::ImageFormat::Png,
        Codec::Jpeg => image::ImageFormat::Jpeg,
    };
    let rgb = image::load_from_memory_with_format(data, format).ok()?.to_rgb8();
    Some(RgbImage { width: rgb.width(), height: rgb.height(), pixels: rgb.into_raw() })
}

/// What becomes of a compressed image once the decoder has answered: the
/// image, or the news that the decoder rejected the file.
pub fn codec_outcome(decoded: Option<RgbImage>) -> (r: Result<RgbImage, DecodeError>)
    ensures
        match decoded {
            Some(image) => r == Ok::<RgbImage, DecodeError>(image),
            None => r == Err::<RgbImage, DecodeError>(DecodeError::CodecRejected),
        },
{
    match decoded {
        Some(image) => Ok(image),
        None => Err(DecodeError::CodecRejected),
    }
}

/// The pixels of the compressed image that `s` holds: as `compressed_of`
/// reads it, in a format that is decoded, and as the decoder decodes the file.
pub open spec fn compressed_rgb_of(s: Seq<u8>) -> Result<RgbImageView, DecodeError> {
    match compressed_of(s) {
        Err(e) => Err(e),
        Ok(c) => match codec_named(c.format) {
            None => Err(DecodeError::UnsupportedFormat),
            Some(codec) => match decoded_rgb8(codec, c.data) {
                Some(image) => Ok(image),
                None => Err(DecodeError::CodecRejected),
            },
        },
    }
}

/// Decodes a compressed image message into RGB pixels.
pub fn decode_compressed(payload: &[u8]) -> (r: Result<RgbImage, DecodeError>)
    ensures
        crate::wire::viewed(r) == compressed_rgb_of(payload@),
{
    let compressed = match parse_ros_compressed(payload) {
        Ok(v) => v,
        Err(e) => {
            return Err(e);
        },
    };
    let codec = match codec_of(compressed.format.as_str()) {
        Some(v) => v,
        None => {
            return Err(DecodeError::UnsupportedFormat);
        },
    };
    codec_outcome(decode_rgb8(compressed.data, codec))
}

} // verus!
