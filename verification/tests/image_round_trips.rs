use pcx::Reader;
use pcx::WriterPaletted;
use pcx::WriterRgb;

fn round_trip_rgb(width: u16, height: u16) {
    let mut writer = WriterRgb::new(Vec::new(), (width, height), (300, 300)).unwrap();

    let r: Vec<u8> = vec![88; width as usize];
    let g: Vec<u8> = (0..width).map(|v| (v & 0xFF) as u8).collect();
    let mut b: Vec<u8> = vec![88; width as usize];
    for y in 0..height {
        for x in 0..width {
            b[x as usize] = (y & 0xFF) as u8;
        }

        writer.write_row_from_separate(&r, &g, &b).unwrap();
    }
    let data = writer.finish().unwrap();

    let mut reader = Reader::new(data).unwrap();
    assert_eq!(reader.dimensions(), (width, height));
    assert_eq!(reader.is_paletted(), false);
    assert_eq!(reader.palette_length(), None);

    let mut r: Vec<u8> = vec![0; width as usize];
    let mut g: Vec<u8> = vec![0; width as usize];
    let mut b: Vec<u8> = vec![0; width as usize];

    for y in 0..height {
        reader.next_row_rgb(&mut r, &mut g, &mut b).unwrap();

        for x in 0..width {
            assert_eq!(r[x as usize], 88);
            assert_eq!(g[x as usize], (x & 0xFF) as u8);
            assert_eq!(b[x as usize], (y & 0xFF) as u8);
        }
    }
}

fn round_trip_paletted(width: u16, height: u16) {
    let palette: Vec<u8> = (0..256 * 3).map(|v| (v % 0xFF) as u8).collect();

    let mut writer = WriterPaletted::new(Vec::new(), (width, height), (300, 300)).unwrap();

    let mut p: Vec<u8> = vec![88; width as usize];
    for y in 0..height {
        for x in 0..width {
            p[x as usize] = (y & 0xFF) as u8;
        }

        writer.write_row(&p).unwrap();
    }

    let data = writer.write_palette(&palette).unwrap();

    let mut reader = Reader::new(data).unwrap();
    assert_eq!(reader.dimensions(), (width, height));
    assert!(reader.is_paletted());
    assert_eq!(reader.palette_length(), Some(256));

    let mut p: Vec<u8> = vec![0; width as usize];

    for y in 0..height {
        reader.next_row_paletted(&mut p).unwrap();

        for x in 0..width {
            assert_eq!(p[x as usize], (y & 0xFF) as u8);
        }
    }

    let mut palette_read = vec![0; 3 * 256];
    assert_eq!(reader.read_palette(&mut palette_read).unwrap(), 256);
    assert_eq!(&palette[..], &palette_read[..]);
}

#[test]
fn small_round_trip() {
    for width in 1..40 {
        for height in 1..40 {
            round_trip_rgb(width, height);
            round_trip_paletted(width, height);
        }
    }
}

#[test]
fn large_round_trip_rgb() {
    round_trip_rgb(0xFFFF - 1, 1);
    round_trip_rgb(1, 0xFFFF);
}

#[test]
fn large_round_trip_paletted() {
    round_trip_paletted(0xFFFF - 1, 1);
    round_trip_paletted(1, 0xFFFF);
}

#[test]
fn interleaved_round_trip() {
    // the interleaved entry point must agree with the separate one
    let width: u16 = 7;
    let height: u16 = 5;
    let mut writer = WriterRgb::new(Vec::new(), (width, height), (100, 100)).unwrap();
    for y in 0..height {
        let mut rgb = Vec::new();
        for x in 0..width {
            rgb.push((x + 1) as u8);
            rgb.push((y + 1) as u8);
            rgb.push((x * y) as u8);
        }
        writer.write_row_from_interleaved(&rgb).unwrap();
    }
    let data = writer.finish().unwrap();

    let mut reader = Reader::new(data).unwrap();
    assert_eq!(reader.dimensions(), (width, height));
    let mut r: Vec<u8> = vec![0; width as usize];
    let mut g: Vec<u8> = vec![0; width as usize];
    let mut b: Vec<u8> = vec![0; width as usize];
    for y in 0..height {
        reader.next_row_rgb(&mut r, &mut g, &mut b).unwrap();
        for x in 0..width {
            assert_eq!(r[x as usize], (x + 1) as u8);
            assert_eq!(g[x as usize], (y + 1) as u8);
            assert_eq!(b[x as usize], (x * y) as u8);
        }
    }
}

#[test]
fn writer_enforces_row_count() {
    // too many rows, a wrong buffer size, and an early finish are usage
    // errors, each reported without touching the stream state
    let mut writer = WriterRgb::new(Vec::new(), (4, 2), (100, 100)).unwrap();
    let row = vec![0u8; 4];
    let short = vec![0u8; 3];
    assert_eq!(
        writer.write_row_from_separate(&short, &row, &row),
        Err(pcx::DecodingError::InvalidInput)
    );
    writer.write_row_from_separate(&row, &row, &row).unwrap();
    let unfinished = WriterRgb::new(Vec::new(), (4, 2), (100, 100)).unwrap();
    assert_eq!(unfinished.finish().unwrap_err(), pcx::DecodingError::InvalidInput);
    writer.write_row_from_separate(&row, &row, &row).unwrap();
    assert_eq!(
        writer.write_row_from_separate(&row, &row, &row),
        Err(pcx::DecodingError::InvalidInput)
    );
    writer.finish().unwrap();
}

#[test]
fn paletted_writer_rejects_bad_palettes() {
    let mut writer = WriterPaletted::new(Vec::new(), (2, 1), (100, 100)).unwrap();
    writer.write_row(&[1, 2]).unwrap();
    // not a whole number of colors
    let mut writer2 = WriterPaletted::new(Vec::new(), (2, 1), (100, 100)).unwrap();
    writer2.write_row(&[1, 2]).unwrap();
    assert_eq!(
        writer2.write_palette(&[0, 0, 0, 0]).unwrap_err(),
        pcx::DecodingError::InvalidInput
    );
    // longer than 256 colors
    let mut writer3 = WriterPaletted::new(Vec::new(), (2, 1), (100, 100)).unwrap();
    writer3.write_row(&[1, 2]).unwrap();
    assert_eq!(
        writer3.write_palette(&vec![0u8; 771]).unwrap_err(),
        pcx::DecodingError::InvalidInput
    );
    // a short palette is zero-filled
    let data = writer.write_palette(&[10, 20, 30]).unwrap();
    let mut reader = Reader::new(data).unwrap();
    let mut row = vec![0u8; 2];
    reader.next_row_paletted(&mut row).unwrap();
    let mut palette = vec![0u8; 768];
    assert_eq!(reader.read_palette(&mut palette).unwrap(), 256);
    assert_eq!(&palette[0..3], &[10, 20, 30]);
    assert_eq!(&palette[3..6], &[0, 0, 0]);
}

#[test]
fn writer_rejects_bad_sizes() {
    assert_eq!(
        WriterRgb::new(Vec::new(), (0xFFFF, 1), (100, 100)).err().unwrap(),
        pcx::DecodingError::InvalidInput
    );
    assert_eq!(
        WriterRgb::new(Vec::new(), (0, 1), (100, 100)).err().unwrap(),
        pcx::DecodingError::InvalidInput
    );
    assert_eq!(
        WriterPaletted::new(Vec::new(), (1, 0), (100, 100)).err().unwrap(),
        pcx::DecodingError::InvalidInput
    );
}
