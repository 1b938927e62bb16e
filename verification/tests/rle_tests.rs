use pcx::rle::Compressor;
use pcx::rle::Decompressor;

fn round_trip(data: &[u8]) {
    let mut compressor = Compressor::new(Vec::new(), 8);
    compressor.write(data);
    let compressed = compressor.finish();

    let mut decompressor = Decompressor::new(compressed);
    let result = decompressor.read_to_end().unwrap();
    assert_eq!(result.len(), data.len());
    assert_eq!(result, data);
}

fn round_trip_one_by_one(data: &[u8]) {
    let mut compressor = Compressor::new(Vec::new(), 16);
    for &d in data {
        compressor.write(&[d]);
    }
    let compressed = compressor.finish();

    let mut decompressor = Decompressor::new(compressed);
    let mut result = Vec::new();
    for _ in 0..data.len() {
        result.push(decompressor.read_u8().unwrap());
    }
    assert_eq!(result, data);
}

#[test]
fn rle_round_trip_1() {
    let data = [
        0, 1, 2, 3, 5, 5, 5, 128, 128, 128, 7, 7, 255, 7, 255, 255, 254, 0, 0, 0, 4, 4, 177,
        177, 4, 177, 177,
    ];
    round_trip_one_by_one(&data);
    round_trip(&data);
}

#[test]
fn rle_round_trip_2() {
    let mut data = vec![0u8, 1, 2];
    for _ in 0..582 {
        data.push(7);
    }
    round_trip(&data);
    round_trip_one_by_one(&data);
}

#[test]
fn round_trip_1() {
    let data = [
        0, 1, 2, 3, 5, 5, 5, 128, 128, 128, 7, 7, 255, 7, 255, 255, 254, 0, 0, 0, 4, 4, 177,
        177, 4, 177, 177,
    ];
    round_trip_one_by_one(&data);
    round_trip(&data);
}

#[test]
fn round_trip_2() {
    let mut data = vec![0u8, 1, 2];
    for _ in 0..582 {
        data.push(7);
    }
    round_trip(&data);
    round_trip_one_by_one(&data);
}

#[test]
fn rle_round_trip_empty() {
    round_trip(&[]);
    round_trip_one_by_one(&[]);
}

#[test]
fn rle_round_trip_high_bytes() {
    // values in the run-code range 0xC0..=0xFF must survive as well
    let data = [
        0xC0, 0xC0, 0xC1, 0xFF, 0xFF, 0xFF, 0xFE, 0xC5, 0x00, 0xC0, 0xFF, 0xFF, 0xC0, 0xC0,
        0xC0, 0xC0,
    ];
    round_trip(&data);
    round_trip_one_by_one(&data);
}

#[test]
fn rle_round_trip_all_same() {
    let data = vec![42u8; 1000];
    round_trip(&data);
    round_trip_one_by_one(&data);
}

#[test]
fn rle_run_codes_stay_bounded() {
    // a long run of one value: every emitted run code must carry a count
    // of at most 63, so no code byte above 0xC0 + 63 - 1 = 0xFE appears
    let data = vec![9u8; 500];
    let mut compressor = Compressor::new(Vec::new(), 1000);
    compressor.write(&data);
    let compressed = compressor.finish();
    let mut i = 0;
    while i < compressed.len() {
        let byte = compressed[i];
        if byte >= 0xC0 {
            assert!(byte - 0xC0 <= 63);
            assert!(byte - 0xC0 >= 1);
            i += 2;
        } else {
            i += 1;
        }
    }
    let mut decompressor = Decompressor::new(compressed);
    assert_eq!(decompressor.read_to_end().unwrap(), data);
}

#[test]
fn rle_truncated_run_code_is_an_error() {
    // a run code whose value byte is missing must surface as an error
    let mut decompressor = Decompressor::new(vec![0x05, 0xC3]);
    assert_eq!(
        decompressor.read_to_end(),
        Err(pcx::DecodingError::UnexpectedEof)
    );
}

#[test]
fn rle_decompress_known_codes() {
    // 0xC3, 7 is a run of three sevens; 0x41 is the literal 0x41
    let mut decompressor = Decompressor::new(vec![0xC3, 7, 0x41]);
    assert_eq!(decompressor.read_to_end().unwrap(), vec![7, 7, 7, 0x41]);
}
