use bag2rrd::mappings::geoid::{parse_grid, raw_value, GeoidError, GeoidGrid};
use bag2rrd::mappings::gps::{get_service_names, parse_navsatfix, NavSatFix};
use bag2rrd::wire::{DecodeError, Field};

fn fix_payload(frame: &str, status: i8, service: u16, lat: f64, lon: f64, alt: f64) -> Vec<u8> {
    let mut data = Vec::new();
    data.extend_from_slice(&7u32.to_le_bytes());
    data.extend_from_slice(&1u32.to_le_bytes());
    data.extend_from_slice(&2u32.to_le_bytes());
    data.extend_from_slice(&(frame.len() as u32).to_le_bytes());
    data.extend_from_slice(frame.as_bytes());
    data.extend_from_slice(&status.to_le_bytes());
    data.extend_from_slice(&service.to_le_bytes());
    data.extend_from_slice(&lat.to_le_bytes());
    data.extend_from_slice(&lon.to_le_bytes());
    data.extend_from_slice(&alt.to_le_bytes());
    data
}

/// The correction in metres at a latitude and longitude, as the program
/// computes it from a grid of quarter degrees.
fn correction(grid: &GeoidGrid, lat: f64, lon: f64) -> Result<f64, GeoidError> {
    let row = ((lat + 90.0) / 0.25) as usize;
    let column = ((lon + 180.0) / 0.25) as usize;
    Ok((raw_value(grid, row, column)? as f64 - 1000.0) / 100.0)
}

#[test]
fn test_geoid_correction() {
    let text = b"P2\n# a grid of three by two\n3 2\n65535\n1000 1100 900\n-250 4000 1001\n";
    let grid = parse_grid(text).unwrap();
    assert_eq!(correction(&grid, -90.0, -180.0), Ok(0.0));
    assert_eq!(correction(&grid, -90.0, -179.7), Ok(1.0));
    assert_eq!(correction(&grid, -89.7, -179.5), Ok(0.01));
    assert_eq!(correction(&grid, -89.75, -180.0), Ok(-12.5));
    assert_eq!(correction(&grid, 45.0, -75.0), Err(GeoidError::OutOfBounds));
}

#[test]
fn grid_file_is_read_line_by_line() {
    let text = b"P2\r\n\n  # comment\nalone\n 4\t3 extra\n# more\n   \n 255 \n1 2 x 3\n+4 -5 6.5\n\n7 2147483647 2147483648 -2147483648 8";
    assert_eq!(
        parse_grid(text),
        Ok(GeoidGrid {
            width: 4,
            height: 3,
            binary: false,
            data: vec![1, 2, 3, 4, -5, 7, 2147483647, -2147483648, 8],
        })
    );
}

#[test]
fn grid_file_faults() {
    assert_eq!(parse_grid(b""), Err(GeoidError::NoMagic));
    assert_eq!(parse_grid(b"P3\n1 1\n255\n0\n"), Err(GeoidError::BadMagic));
    assert_eq!(parse_grid(b"P2 \n1 1\n255\n0\n"), Err(GeoidError::BadMagic));
    assert_eq!(parse_grid(b"\nP2\n"), Err(GeoidError::BadMagic));
    assert_eq!(parse_grid(b"P2\n1 x\n255\n0\n"), Err(GeoidError::BadNumber));
    assert_eq!(parse_grid(b"P2\n-1 1\n255\n0\n"), Err(GeoidError::BadNumber));
    assert_eq!(parse_grid(b"P2\n1 1\n255 0\n0\n"), Err(GeoidError::BadNumber));
    assert_eq!(parse_grid(b"P2\n1 99999999999999999999999\n255\n"), Err(GeoidError::BadNumber));
    // without a line of two numbers the grid has no cells
    assert_eq!(
        parse_grid(b"P2\n17\n"),
        Ok(GeoidGrid { width: 0, height: 0, binary: false, data: vec![] })
    );
    let binary = parse_grid(b"P5\n2 2\n255\n\x01\x02\x03\x04").unwrap();
    assert_eq!(binary, GeoidGrid { width: 2, height: 2, binary: true, data: vec![] });
    assert_eq!(raw_value(&binary, 0, 0), Err(GeoidError::BinaryUnsupported));
    assert_eq!(raw_value(&binary, 2, 0), Err(GeoidError::OutOfBounds));
    let short = parse_grid(b"P2\n2 2\n255\n1 2 3\n").unwrap();
    assert_eq!(raw_value(&short, 0, 0), Err(GeoidError::Incomplete));
    assert_eq!(raw_value(&short, 0, 2), Err(GeoidError::OutOfBounds));
    let full = parse_grid(b"P2\n2 2\n255\n1 2 3 4 5\n").unwrap();
    assert_eq!(raw_value(&full, 1, 0), Ok(3));
    assert_eq!(raw_value(&full, 1, 1), Ok(4));
}

#[test]
fn test_get_service_names() {
    assert_eq!(get_service_names(0), "");
    assert_eq!(get_service_names(1), "GPS");
    assert_eq!(get_service_names(2), "GLONASS");
    assert_eq!(get_service_names(4), "COMPASS");
    assert_eq!(get_service_names(8), "GALILEO");
    assert_eq!(get_service_names(1 | 2), "GPS, GLONASS");
    assert_eq!(get_service_names(1 | 4 | 8), "GPS, COMPASS, GALILEO");
}

#[test]
fn service_names_ignore_higher_bits() {
    assert_eq!(get_service_names(16), "");
    assert_eq!(get_service_names(0xffff), "GPS, GLONASS, COMPASS, GALILEO");
}

#[test]
fn navsatfix_fields_are_read_in_order() {
    let payload = fix_payload("gps", -1, 0x0105, 46.7821, -71.274, 90.0);
    assert_eq!(
        parse_navsatfix(&payload),
        Ok(NavSatFix {
            latitude: 46.7821f64.to_bits(),
            longitude: (-71.274f64).to_bits(),
            altitude: 90.0f64.to_bits(),
            status: -1,
            service: 0x0105,
        })
    );
}

#[test]
fn navsatfix_cut_short_names_the_field() {
    let payload = fix_payload("gps", 0, 1, 1.0, 2.0, 3.0);
    assert_eq!(parse_navsatfix(&payload[..12]), Err(DecodeError::Truncated(Field::FrameIdLength)));
    assert_eq!(parse_navsatfix(&payload[..17]), Err(DecodeError::Truncated(Field::Status)));
    assert_eq!(parse_navsatfix(&payload[..20]), Err(DecodeError::Truncated(Field::Service)));
    assert_eq!(parse_navsatfix(&payload[..29]), Err(DecodeError::Truncated(Field::Latitude)));
    assert_eq!(parse_navsatfix(&payload[..37]), Err(DecodeError::Truncated(Field::Longitude)));
    assert_eq!(parse_navsatfix(&payload[..45]), Err(DecodeError::Truncated(Field::Altitude)));
    assert!(parse_navsatfix(&payload[..46]).is_ok());
}
