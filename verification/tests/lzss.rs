use madoua_kr::lzss::{compress, decompress};

#[test]
fn decompress_literal_run() {
    // [len=3][A B C][end]
    let (out, consumed) = decompress(&[0x03, 0xAA, 0xBB, 0xCC, 0x00], 0);
    assert_eq!(out, vec![0xAA, 0xBB, 0xCC]);
    assert_eq!(consumed, 5);
}

#[test]
fn decompress_backref_rle_overlap() {
    // 리터럴 1바이트 [0x11], 그다음 dist=0(직전 바이트) len=3 백레퍼런스 → 0x11 반복.
    // ctrl 0x80 = backref len=(0)+3, dist byte 0x00 = distance 1.
    let (out, _) = decompress(&[0x01, 0x11, 0x80, 0x00, 0x00], 0);
    assert_eq!(out, vec![0x11, 0x11, 0x11, 0x11]);
}

#[test]
fn decompress_pre_buffer_reads_zero() {
    // 첫 토큰이 백레퍼런스면 버퍼가 비어 있어 src<0 → 0x00으로 채운다.
    let (out, _) = decompress(&[0x80, 0x00, 0x00], 0);
    assert_eq!(out, vec![0x00, 0x00, 0x00]);
}

#[test]
fn compress_is_lossless_roundtrip() {
    let cases: &[&[u8]] = &[
        &[],
        &[0x42],
        &[1, 2, 3, 4, 5],
        &[7, 7, 7, 7, 7, 7, 7, 7, 7, 7], // RLE
        &[1, 2, 3, 1, 2, 3, 1, 2, 3, 9, 9, 1, 2, 3],
        &[0u8; 300],  // 긴 0 런 (백레퍼런스 chaining)
        &[0xAB; 130], // MAX_MATCH 경계
    ];
    for data in cases {
        let comp = compress(data);
        let (dec, _) = decompress(&comp, 0);
        assert_eq!(&dec, data, "round-trip mismatch for {data:?}");
    }
}

#[test]
fn compress_output_ends_with_terminator() {
    let comp = compress(&[1, 2, 3]);
    assert_eq!(*comp.last().unwrap(), 0x00);
}

#[test]
fn zero_bytes_before_the_start_are_used() {
    assert_eq!(compress(&[0, 0, 0, 0]), [0x81, 0x00, 0x00]);
    assert_eq!(compress(&[5, 0, 0, 0]), [0x01, 0x05, 0x80, 0x03, 0x00]);
    assert_eq!(compress(&[0; 300]).len(), 7);
}

#[test]
fn sources_in_the_data_are_preferred() {
    assert_eq!(
        compress(&[0, 0, 0, 0, 0, 9, 0, 0, 0, 0, 8]),
        [0x82, 0x00, 0x01, 0x09, 0x81, 0x05, 0x01, 0x08, 0x00]
    );
    assert_eq!(compress(&[7, 7, 7, 7, 7]), [0x01, 0x07, 0x81, 0x00, 0x00]);
}
