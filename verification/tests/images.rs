use bag2rrd::mappings::images::{
    codec_of, codec_outcome, decode_compressed, decode_image, encoding_of, parse_ros_compressed,
    parse_ros_image, to_rgb24, Codec, Encoding, RgbImage,
};
use bag2rrd::wire::{DecodeError, Field};

fn image_payload(width: u32, height: u32, encoding: &str, data: &[u8]) -> Vec<u8> {
    let mut p = Vec::new();
    p.extend_from_slice(&1u32.to_le_bytes());
    p.extend_from_slice(&0u64.to_le_bytes());
    p.extend_from_slice(&3u32.to_le_bytes());
    p.extend_from_slice(b"cam");
    p.extend_from_slice(&height.to_le_bytes());
    p.extend_from_slice(&width.to_le_bytes());
    p.extend_from_slice(&(encoding.len() as u32).to_le_bytes());
    p.extend_from_slice(encoding.as_bytes());
    p.push(0);
    p.extend_from_slice(&(width * 3).to_le_bytes());
    p.extend_from_slice(&(data.len() as u32).to_le_bytes());
    p.extend_from_slice(data);
    p
}

fn compressed_payload(format: &str, data: &[u8]) -> Vec<u8> {
    let mut p = Vec::new();
    p.extend_from_slice(&(format.len() as u32).to_le_bytes());
    p.extend_from_slice(format.as_bytes());
    p.extend_from_slice(data);
    p
}

fn crc32(bytes: &[u8]) -> u32 {
    let mut crc: u32 = 0xffff_ffff;
    for &b in bytes {
        crc ^= b as u32;
        for _ in 0..8 {
            crc = if crc & 1 != 0 { (crc >> 1) ^ 0xedb8_8320 } else { crc >> 1 };
        }
    }
    !crc
}

fn adler32(bytes: &[u8]) -> u32 {
    let (mut a, mut b) = (1u32, 0u32);
    for &x in bytes {
        a = (a + x as u32) % 65521;
        b = (b + a) % 65521;
    }
    (b << 16) | a
}

fn chunk(kind: &[u8; 4], body: &[u8]) -> Vec<u8> {
    let mut c = Vec::new();
    c.extend_from_slice(&(body.len() as u32).to_be_bytes());
    c.extend_from_slice(kind);
    c.extend_from_slice(body);
    let mut checked = kind.to_vec();
    checked.extend_from_slice(body);
    c.extend_from_slice(&crc32(&checked).to_be_bytes());
    c
}

/// A PNG file of 2 by 1 pixels, the first red and the second blue, with its
/// data stored without compression.
fn tiny_png() -> Vec<u8> {
    let mut png = vec![0x89, b'P', b'N', b'G', 0x0d, 0x0a, 0x1a, 0x0a];
    let mut header = Vec::new();
    header.extend_from_slice(&2u32.to_be_bytes());
    header.extend_from_slice(&1u32.to_be_bytes());
    header.extend_from_slice(&[8, 2, 0, 0, 0]);
    png.extend(chunk(b"IHDR", &header));
    let raw = [0u8, 255, 0, 0, 0, 0, 255];
    let mut z = vec![0x78, 0x01, 0x01];
    z.extend_from_slice(&(raw.len() as u16).to_le_bytes());
    z.extend_from_slice(&(!(raw.len() as u16)).to_le_bytes());
    z.extend_from_slice(&raw);
    z.extend_from_slice(&adler32(&raw).to_be_bytes());
    png.extend(chunk(b"IDAT", &z));
    png.extend(chunk(b"IEND", &[]));
    png
}

#[test]
fn raw_image_fields_are_read() {
    let payload = image_payload(2, 1, "rgb8", &[1, 2, 3, 4, 5, 6]);
    let image = parse_ros_image(&payload).unwrap();
    assert_eq!(image.width, 2);
    assert_eq!(image.height, 1);
    assert_eq!(image.encoding, "rgb8");
    assert_eq!(image.data, &[1, 2, 3, 4, 5, 6]);
}

#[test]
fn raw_image_cut_short_names_the_field() {
    let payload = image_payload(2, 1, "rgb8", &[1, 2, 3, 4, 5, 6]);
    let expected = [
        (3, Field::SequenceNumber),
        (11, Field::Stamp),
        (15, Field::FrameIdLength),
        (18, Field::FrameId),
        (22, Field::Height),
        (26, Field::Width),
        (30, Field::EncodingLength),
        (34, Field::Encoding),
        (34 + 0, Field::Encoding),
        (35, Field::Endianness),
        (39, Field::Step),
        (43, Field::DataLength),
        (49, Field::Data),
    ];
    for (len, field) in expected {
        assert_eq!(parse_ros_image(&payload[..len]).err(), Some(DecodeError::Truncated(field)));
    }
    assert!(parse_ros_image(&payload[..50]).is_ok());
}

#[test]
fn image_sides_must_be_between_one_and_ten_thousand() {
    for (w, h) in [(0, 1), (1, 0), (10_001, 1), (1, 10_001)] {
        let payload = image_payload(w, h, "rgb8", &[]);
        assert_eq!(parse_ros_image(&payload).err(), Some(DecodeError::InvalidDimensions));
    }
    assert!(parse_ros_image(&image_payload(10_000, 10_000, "rgb8", &[])).is_ok());
}

#[test]
fn encodings_are_told_by_name() {
    assert_eq!(encoding_of("rgb8"), Some(Encoding::Rgb8));
    assert_eq!(encoding_of("bgr8"), Some(Encoding::Bgr8));
    assert_eq!(encoding_of("rgba8"), Some(Encoding::Rgba8));
    assert_eq!(encoding_of("mono8"), Some(Encoding::Mono8));
    assert_eq!(encoding_of("mono16"), Some(Encoding::Mono16));
    assert_eq!(encoding_of("RGB8"), None);
    assert_eq!(encoding_of("bayer_rggb8"), None);
}

#[test]
fn pixels_become_rgb() {
    assert_eq!(to_rgb24(Encoding::Rgb8, &[1, 2, 3, 4]), vec![1, 2, 3, 4]);
    assert_eq!(to_rgb24(Encoding::Bgr8, &[1, 2, 3, 4, 5, 6, 7, 8]), vec![3, 2, 1, 6, 5, 4, 7, 8]);
    assert_eq!(to_rgb24(Encoding::Rgba8, &[1, 2, 3, 4, 5, 6, 7, 8, 9]), vec![1, 2, 3, 5, 6, 7]);
    assert_eq!(to_rgb24(Encoding::Mono8, &[7, 9]), vec![7, 7, 7, 9, 9, 9]);
    assert_eq!(to_rgb24(Encoding::Mono16, &[0x34, 0x12, 0xff, 0x80, 0x01]), vec![0x12, 0x12, 0x12, 0x80, 0x80, 0x80]);
    assert_eq!(to_rgb24(Encoding::Bgr8, &[]), Vec::<u8>::new());
}

#[test]
fn raw_image_decodes_to_rgb_or_is_refused() {
    let payload = image_payload(1, 2, "bgr8", &[1, 2, 3, 4, 5, 6]);
    assert_eq!(
        decode_image(&payload),
        Ok(RgbImage { width: 1, height: 2, pixels: vec![3, 2, 1, 6, 5, 4] })
    );
    let payload = image_payload(1, 1, "yuv422", &[1, 2]);
    assert_eq!(decode_image(&payload), Err(DecodeError::UnsupportedEncoding));
}

#[test]
fn compressed_image_fields_are_read() {
    let payload = compressed_payload("jpeg", &[1, 2, 3]);
    let image = parse_ros_compressed(&payload).unwrap();
    assert_eq!(image.format, "jpeg");
    assert_eq!(image.data, &[1, 2, 3]);
    assert_eq!(parse_ros_compressed(&payload[..3]).err(), Some(DecodeError::Truncated(Field::FormatLength)));
    assert_eq!(parse_ros_compressed(&payload[..7]).err(), Some(DecodeError::Truncated(Field::Format)));
    assert_eq!(parse_ros_compressed(&payload[..8]).err(), Some(DecodeError::NoData));
}

#[test]
fn codec_is_found_in_the_format_string() {
    assert_eq!(codec_of("png"), Some(Codec::Png));
    assert_eq!(codec_of("rgb8; PNG compressed"), Some(Codec::Png));
    assert_eq!(codec_of("bgr8; jpeg compressed bgr8"), Some(Codec::Jpeg));
    assert_eq!(codec_of("JPG"), Some(Codec::Jpeg));
    assert_eq!(codec_of("jpeg and png"), Some(Codec::Png));
    assert_eq!(codec_of("tiff"), None);
    assert_eq!(codec_of("pn"), None);
    assert_eq!(codec_of(""), None);
}

#[test]
fn png_file_is_decoded_to_its_pixels() {
    let payload = compressed_payload("png", &tiny_png());
    assert_eq!(
        decode_compressed(&payload),
        Ok(RgbImage { width: 2, height: 1, pixels: vec![255, 0, 0, 0, 0, 255] })
    );
}

#[test]
fn broken_image_file_and_unknown_format_are_decode_errors() {
    let mut png = tiny_png();
    png.truncate(20);
    assert_eq!(decode_compressed(&compressed_payload("png", &png)), Err(DecodeError::CodecRejected));
    assert_eq!(decode_compressed(&compressed_payload("jpeg", &tiny_png())), Err(DecodeError::CodecRejected));
    assert_eq!(decode_compressed(&compressed_payload("webp", &tiny_png())), Err(DecodeError::UnsupportedFormat));
    assert_eq!(codec_outcome(None), Err(DecodeError::CodecRejected));
    let image = RgbImage { width: 1, height: 1, pixels: vec![1, 2, 3] };
    assert_eq!(codec_outcome(Some(image.clone())), Ok(image));
}

#[test]
fn jpeg_file_is_decoded_to_its_size_and_nearly_its_pixels() {
    let (width, height) = (16u32, 8u32);
    let pixels: Vec<u8> = (0..width * height).flat_map(|_| [200u8, 40, 90]).collect();
    let mut file = Vec::new();
    image::codecs::jpeg::JpegEncoder::new_with_quality(&mut file, 95)
        .encode(&pixels, width, height, image::ExtendedColorType::Rgb8)
        .unwrap();
    let decoded = decode_compressed(&compressed_payload("image/JPEG; bgr8", &file)).unwrap();
    assert_eq!((decoded.width, decoded.height), (width, height));
    assert_eq!(decoded.pixels.len(), pixels.len());
    for (got, want) in decoded.pixels.iter().zip(pixels.iter()) {
        assert!((*got as i32 - *want as i32).abs() <= 6);
    }
    // the same file is no PNG
    assert_eq!(decode_compressed(&compressed_payload("png", &file)), Err(DecodeError::CodecRejected));
}
