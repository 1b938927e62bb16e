use pcx::DecodingError;
use pcx::header::Header;
use pcx::header::Version;

fn make_header(
    version: u8,
    encoding: u8,
    depth: u8,
    width: u16,
    height: u16,
    planes: u8,
    lane_length: u16,
    palette16: &[u8],
) -> Vec<u8> {
    let mut h = vec![0u8; 128];
    h[0] = 0x0A;
    h[1] = version;
    h[2] = encoding;
    h[3] = depth;
    h[8] = ((width - 1) % 256) as u8;
    h[9] = ((width - 1) / 256) as u8;
    h[10] = ((height - 1) % 256) as u8;
    h[11] = ((height - 1) / 256) as u8;
    h[12] = 44;
    h[13] = 1; // 300 dpi
    h[14] = 44;
    h[15] = 1;
    for (i, &b) in palette16.iter().enumerate() {
        h[16 + i] = b;
    }
    h[65] = planes;
    h[66] = (lane_length % 256) as u8;
    h[67] = (lane_length / 256) as u8;
    h[68] = 1; // palette kind
    h
}

#[test]
fn fuzzer_test_case() {
    let data: Vec<u8> = vec![0xa, 0x0, 0x0, 0x0, 0x0, 0x0, 0x0, 0x0, 0xff, 0xff, 0xff, 0xff];

    // Check that it loads without panic.
    assert!(Header::load(&data).is_err());
}

#[test]
fn header_write_load_round_trip() {
    let mut v = Vec::new();
    pcx::header::write(&mut v, true, (10, 20), (300, 300)).unwrap();
    assert_eq!(v.len(), 128);
    let h = Header::load(&v).unwrap();
    assert_eq!(h.size, (10, 20));
    assert_eq!(h.start, (0, 0));
    assert_eq!(h.dpi, (300, 300));
    assert_eq!(h.number_of_color_planes, 1);
    assert_eq!(h.bit_depth, 8);
    assert_eq!(h.version, Version::V5);
    assert!(h.is_compressed);
    assert_eq!(h.lane_length, 10);
    assert_eq!(h.palette_length(), Some(256));

    let mut v2 = Vec::new();
    pcx::header::write(&mut v2, false, (11, 7), (100, 100)).unwrap();
    let h2 = Header::load(&v2).unwrap();
    assert_eq!(h2.size, (11, 7));
    assert_eq!(h2.number_of_color_planes, 3);
    assert_eq!(h2.lane_length, 12); // width rounded up to even
    assert_eq!(h2.lane_padding(), 1);
    assert_eq!(h2.lane_proper_length(), 11);
    assert_eq!(h2.palette_length(), None);
}

#[test]
fn header_write_rejects_bad_sizes() {
    let mut v = Vec::new();
    assert_eq!(
        pcx::header::write(&mut v, false, (0xFFFF, 5), (300, 300)),
        Err(DecodingError::InvalidInput)
    );
    assert_eq!(
        pcx::header::write(&mut v, false, (0, 5), (300, 300)),
        Err(DecodingError::InvalidInput)
    );
    assert_eq!(
        pcx::header::write(&mut v, true, (5, 0), (300, 300)),
        Err(DecodingError::InvalidInput)
    );
    assert!(v.is_empty());
}

#[test]
fn header_error_variants() {
    assert_eq!(Header::load(&vec![]).unwrap_err(), DecodingError::UnexpectedEof);
    assert_eq!(Header::load(&vec![0x00]).unwrap_err(), DecodingError::NotPcx);
    assert_eq!(Header::load(&vec![0x0A]).unwrap_err(), DecodingError::UnexpectedEof);
    assert_eq!(
        Header::load(&vec![0x0A, 9]).unwrap_err(),
        DecodingError::UnknownVersion(9)
    );
    assert_eq!(
        Header::load(&vec![0x0A, 5, 2]).unwrap_err(),
        DecodingError::UnknownEncoding(2)
    );
    assert_eq!(
        Header::load(&vec![0x0A, 5, 1, 3]).unwrap_err(),
        DecodingError::InvalidBitsPerPlane(3)
    );

    // the image window must not be inverted
    let mut inverted = make_header(5, 1, 8, 1, 1, 1, 2, &[]);
    inverted[4] = 5; // x start beyond x end
    assert_eq!(Header::load(&inverted).unwrap_err(), DecodingError::InvalidDimensions);

    // a window spanning the full 16-bit range would overflow the width
    let mut too_wide = make_header(5, 1, 8, 1, 1, 1, 2, &[]);
    too_wide[8] = 0xFF;
    too_wide[9] = 0xFF;
    assert_eq!(Header::load(&too_wide).unwrap_err(), DecodingError::InvalidDimensions);

    // two planes of eight bits is not a supported format
    let bad_combo = make_header(5, 1, 8, 4, 1, 2, 8, &[]);
    assert_eq!(
        Header::load(&bad_combo).unwrap_err(),
        DecodingError::UnsupportedColorFormat
    );

    // the lane must hold at least one row of one plane
    let short_lane = make_header(5, 1, 8, 4, 1, 1, 3, &[]);
    assert_eq!(Header::load(&short_lane).unwrap_err(), DecodingError::InvalidLaneLength);

    // a header cut off in the middle
    let cut = make_header(5, 1, 8, 4, 1, 1, 4, &[])[..50].to_vec();
    assert_eq!(Header::load(&cut).unwrap_err(), DecodingError::UnexpectedEof);
}

#[test]
fn palette_length_table() {
    // every supported format and the palette size it implies
    let cases: [(u8, u8, Option<u16>); 8] = [
        (1, 1, Some(2)),
        (1, 2, Some(4)),
        (1, 4, Some(16)),
        (1, 8, Some(256)),
        (2, 1, Some(4)),
        (3, 1, Some(8)),
        (4, 1, Some(16)),
        (3, 8, None),
    ];
    for &(planes, depth, expected) in cases.iter() {
        let bytes = make_header(5, 1, depth, 8, 1, planes, 8, &[]);
        let h = Header::load(&bytes).unwrap();
        assert_eq!(h.palette_length(), expected);
    }
}
