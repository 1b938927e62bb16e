use pcx::DecodingError;
use pcx::Reader;
use pcx::WriterRgb;

fn make_header(
    encoding: u8,
    depth: u8,
    width: u16,
    height: u16,
    planes: u8,
    lane_length: u16,
    palette16: &[u8],
) -> Vec<u8> {
    let mut h = vec![0u8; 128];
    h[0] = 0x0A;
    h[1] = 5;
    h[2] = encoding;
    h[3] = depth;
    h[8] = ((width - 1) % 256) as u8;
    h[9] = ((width - 1) / 256) as u8;
    h[10] = ((height - 1) % 256) as u8;
    h[11] = ((height - 1) / 256) as u8;
    for (i, &b) in palette16.iter().enumerate() {
        h[16 + i] = b;
    }
    h[65] = planes;
    h[66] = (lane_length % 256) as u8;
    h[67] = (lane_length / 256) as u8;
    h[68] = 1;
    h
}

#[test]
fn green_square_run_codes() {
    // a 5x5 RGB image where every pixel is (0, 255, 0): the width rounds
    // up to lane length 6, so each lane carries one padding zero, and the
    // run codes must break at every lane boundary
    let width: u16 = 5;
    let height: u16 = 5;
    let r = vec![0u8; 5];
    let g = vec![255u8; 5];
    let b = vec![0u8; 5];
    let mut writer = WriterRgb::new(Vec::new(), (width, height), (300, 300)).unwrap();
    for _ in 0..height {
        writer.write_row_from_separate(&r, &g, &b).unwrap();
    }
    let data = writer.finish().unwrap();

    // the compressed form, lane by lane: the first red lane flushes its
    // first five zeros as the run code 0xC5, 0x00 at the lane boundary and
    // carries the padding zero into the next run
    let mut expected = vec![0xC5, 0x00, 0x00, 0xC5, 0xFF, 0xC6, 0x00];
    for _ in 0..4 {
        expected.extend_from_slice(&[0xC6, 0x00, 0x00, 0xC5, 0xFF, 0xC6, 0x00]);
    }
    expected.push(0x00);
    assert_eq!(&data[128..], &expected[..]);

    // no run code carries a count above 63
    let mut i = 128;
    while i < data.len() {
        if data[i] >= 0xC0 {
            assert!(data[i] - 0xC0 <= 63);
            i += 2;
        } else {
            i += 1;
        }
    }

    // all 75 bytes come back as written
    let mut reader = Reader::new(data).unwrap();
    let mut rr = vec![0u8; 5];
    let mut gg = vec![0u8; 5];
    let mut bb = vec![0u8; 5];
    for _ in 0..height {
        reader.next_row_rgb(&mut rr, &mut gg, &mut bb).unwrap();
        assert_eq!(rr, r);
        assert_eq!(gg, g);
        assert_eq!(bb, b);
    }
}

#[test]
fn packed_two_bit_single_pixel() {
    // a 1x1 paletted image with bit depth 2 and one plane: palette length
    // 4, single pixel index 3, stored raw in the top two bits of its byte
    let palette16 = [1u8, 2, 3, 4, 5, 6, 7, 8, 9, 10, 11, 12];
    let mut file = make_header(0, 2, 1, 1, 1, 2, &palette16);
    file.push(0xC0); // index 3, most significant bits first
    file.push(0x00); // lane padding
    let mut reader = Reader::new(file).unwrap();
    assert!(reader.is_paletted());
    assert_eq!(reader.palette_length(), Some(4));
    let mut row = vec![0u8; 1];
    reader.next_row_paletted(&mut row).unwrap();
    assert_eq!(row[0], 3);
    let mut pal = vec![0u8; 12];
    assert_eq!(reader.read_palette(&mut pal).unwrap(), 4);
    assert_eq!(pal, palette16.to_vec());
}

#[test]
fn packed_four_bit_row() {
    // 3 pixels of 4 bits each: two indices per byte, the last byte only
    // half used
    let mut file = make_header(0, 4, 3, 1, 1, 2, &[]);
    file.push(0xAB);
    file.push(0xC0);
    let mut reader = Reader::new(file).unwrap();
    assert_eq!(reader.palette_length(), Some(16));
    let mut row = vec![0u8; 3];
    reader.next_row_paletted(&mut row).unwrap();
    assert_eq!(row, vec![0xA, 0xB, 0xC]);
}

#[test]
fn planar_one_bit_row() {
    // 4 pixels from three one-bit planes: the bit of plane 0 is the low
    // bit of the palette index
    let mut file = make_header(0, 1, 4, 1, 3, 2, &[]);
    file.push(0xA0); // plane 0: pixels 0 and 2
    file.push(0x00); // padding after the first lane
    file.push(0xC0); // plane 1: pixels 0 and 1
    file.push(0x00); // padding after the second lane
    file.push(0x60); // plane 2: pixels 1 and 2; last lane, no padding read
    let mut reader = Reader::new(file).unwrap();
    assert_eq!(reader.palette_length(), Some(8));
    let mut row = vec![0u8; 4];
    reader.next_row_paletted(&mut row).unwrap();
    assert_eq!(row, vec![3, 6, 5, 0]);
}

#[test]
fn monochrome_palette_is_black_and_white() {
    let mut file = make_header(0, 1, 8, 1, 1, 2, &[]);
    file.push(0xAA); // pixels 1, 0, 1, 0, ...
    file.push(0x00);
    let mut reader = Reader::new(file).unwrap();
    assert_eq!(reader.palette_length(), Some(2));
    let mut row = vec![0u8; 8];
    reader.next_row_paletted(&mut row).unwrap();
    assert_eq!(row, vec![1, 0, 1, 0, 1, 0, 1, 0]);
    let mut pal = vec![0u8; 6];
    assert_eq!(reader.read_palette(&mut pal).unwrap(), 2);
    assert_eq!(pal, vec![0, 0, 0, 255, 255, 255]);
}

#[test]
fn reader_usage_errors() {
    // calling the RGB entry point on a paletted image, and the other way
    // around, and handing buffers of the wrong size
    let mut file = make_header(0, 8, 2, 1, 1, 2, &[]);
    file.extend_from_slice(&[7, 7]);
    let mut reader = Reader::new(file).unwrap();
    let mut r = vec![0u8; 2];
    let mut g = vec![0u8; 2];
    let mut b = vec![0u8; 2];
    assert_eq!(
        reader.next_row_rgb(&mut r, &mut g, &mut b),
        Err(DecodingError::InvalidInput)
    );
    let mut wrong = vec![0u8; 3];
    assert_eq!(reader.next_row_paletted(&mut wrong), Err(DecodingError::InvalidInput));
    let mut row = vec![0u8; 2];
    reader.next_row_paletted(&mut row).unwrap();
    assert_eq!(row, vec![7, 7]);

    let mut rgb_file = make_header(0, 8, 2, 1, 3, 2, &[]);
    rgb_file.extend_from_slice(&[1, 2, 3, 4, 5, 6]);
    let mut rgb_reader = Reader::new(rgb_file).unwrap();
    let mut row2 = vec![0u8; 2];
    assert_eq!(rgb_reader.next_row_paletted(&mut row2), Err(DecodingError::InvalidInput));
    let mut short = vec![0u8; 1];
    assert_eq!(
        rgb_reader.next_row_rgb(&mut short, &mut g, &mut b),
        Err(DecodingError::InvalidInput)
    );
    rgb_reader.next_row_rgb(&mut r, &mut g, &mut b).unwrap();
    assert_eq!(r, vec![1, 2]);
    assert_eq!(g, vec![3, 4]);
    assert_eq!(b, vec![5, 6]);
}

#[test]
fn truncated_pixel_data_errors() {
    // a compressed file whose pixel data is cut off inside a run code
    let mut file = make_header(1, 8, 4, 2, 3, 4, &[]);
    file.push(0xC4); // run code missing its value byte
    let mut reader = Reader::new(file).unwrap();
    let mut r = vec![0u8; 4];
    let mut g = vec![0u8; 4];
    let mut b = vec![0u8; 4];
    assert_eq!(
        reader.next_row_rgb(&mut r, &mut g, &mut b),
        Err(DecodingError::UnexpectedEof)
    );

    // a raw file with too few pixel bytes
    let mut raw = make_header(0, 8, 4, 2, 1, 4, &[]);
    raw.extend_from_slice(&[1, 2]);
    let mut raw_reader = Reader::new(raw).unwrap();
    let mut row = vec![0u8; 4];
    assert_eq!(raw_reader.next_row_paletted(&mut row), Err(DecodingError::UnexpectedEof));
}

#[test]
fn missing_palette_marker() {
    // a 256-color image whose trailing block does not start with the
    // marker byte
    let mut file = make_header(0, 8, 2, 1, 1, 2, &[]);
    file.extend_from_slice(&[1, 2]);
    file.extend_from_slice(&vec![0u8; 769]);
    let reader = Reader::new(file).unwrap();
    let mut pal = vec![0u8; 768];
    assert_eq!(reader.read_palette(&mut pal).unwrap_err(), DecodingError::InvalidData);

    // no room for a palette at all
    let mut short = make_header(0, 8, 2, 1, 1, 2, &[]);
    short.extend_from_slice(&[1, 2]);
    let short_reader = Reader::new(short).unwrap();
    let mut pal2 = vec![0u8; 768];
    assert_eq!(
        short_reader.read_palette(&mut pal2).unwrap_err(),
        DecodingError::InvalidData
    );
}

#[test]
fn malformed_streams_never_panic() {
    // arbitrary byte soup must come back as an error or a value, never a
    // panic, from the header loader and the row readers
    let mut soup: Vec<u8> = Vec::new();
    let mut state: u32 = 0x12345678;
    for _ in 0..4096 {
        state = state.wrapping_mul(1664525).wrapping_add(1013904223);
        soup.push((state >> 24) as u8);
    }
    for len in [0usize, 1, 2, 3, 11, 12, 64, 127, 128, 129, 200, 4096] {
        let slice = soup[..len].to_vec();
        match Reader::new(slice) {
            Ok(mut reader) => {
                let w = reader.width() as usize;
                let mut a = vec![0u8; w];
                let mut b = vec![0u8; w];
                let mut c = vec![0u8; w];
                let _ = reader.next_row_rgb(&mut a, &mut b, &mut c);
                let _ = reader.next_row_paletted(&mut a);
                let mut pal = vec![0u8; 768];
                let _ = reader.read_palette(&mut pal);
            },
            Err(_) => {},
        }
    }
}
