use madoua_kr::bps::{create_bps, encode_number, SOURCE_READ, TARGET_READ};

fn decode_number(input: &[u8], cursor: &mut usize) -> u64 {
    let mut data = 0u64;
    let mut shift = 1u64;
    loop {
        let x = input[*cursor];
        *cursor += 1;
        data += ((x & 0x7f) as u64) * shift;
        if x & 0x80 != 0 {
            break;
        }
        shift <<= 7;
        data += shift;
    }
    data
}

fn apply_bps(source: &[u8], patch: &[u8]) -> Result<Vec<u8>, String> {
    if !(patch.len() >= 16) {
        return Err("patch too short".to_string());
    }
    if !(&patch[0..4] == b"BPS1") {
        return Err("bad BPS magic".to_string());
    }
    let stored_patch_crc =
        u32::from_le_bytes(patch[patch.len() - 4..patch.len()].try_into().unwrap());
    if !(crc32fast::hash(&patch[..patch.len() - 4]) == stored_patch_crc) {
        return Err("patch CRC mismatch".to_string());
    }

    let mut cursor = 4usize;
    let source_size = decode_number(patch, &mut cursor) as usize;
    let target_size = decode_number(patch, &mut cursor) as usize;
    let metadata_size = decode_number(patch, &mut cursor) as usize;
    cursor += metadata_size;
    if !(source.len() == source_size) {
        return Err("source size mismatch".to_string());
    }

    let body_end = patch.len() - 12;
    let mut target = Vec::with_capacity(target_size);
    while cursor < body_end {
        let action = decode_number(patch, &mut cursor);
        let command = action & 3;
        let len = ((action >> 2) + 1) as usize;
        match command {
            SOURCE_READ => {
                let start = target.len();
                target.extend_from_slice(&source[start..start + len]);
            }
            TARGET_READ => {
                target.extend_from_slice(&patch[cursor..cursor + len]);
                cursor += len;
            }
            _ => return Err("unexpected copy action in minimal test decoder".to_string()),
        }
    }
    if !(target.len() == target_size) {
        return Err("target size mismatch".to_string());
    }

    let source_crc = u32::from_le_bytes(patch[body_end..body_end + 4].try_into().unwrap());
    let target_crc = u32::from_le_bytes(patch[body_end + 4..body_end + 8].try_into().unwrap());
    if !(crc32fast::hash(source) == source_crc) {
        return Err("source CRC mismatch".to_string());
    }
    if !(crc32fast::hash(&target) == target_crc) {
        return Err("target CRC mismatch".to_string());
    }
    Ok(target)
}

#[test]
fn number_encoding_matches_bps_roundtrip() {
    for value in [0, 1, 2, 127, 128, 129, 16_383, 16_384, 1_000_000] {
        let mut encoded = Vec::new();
        encode_number(value, &mut encoded);
        let mut cursor = 0usize;
        assert_eq!(decode_number(&encoded, &mut cursor), value);
        assert_eq!(cursor, encoded.len());
    }
}

#[test]
fn bps_patch_roundtrips_target() {
    let source = b"abcdefghijabcdefghij";
    let target = b"abcXYZghijabcQQQghij!";
    let patch = create_bps(source, target, b"test").unwrap();
    assert_eq!(&patch[0..4], b"BPS1");
    assert_eq!(apply_bps(source, &patch).unwrap(), target);
}

#[test]
fn bps_patch_rejects_wrong_source() {
    let source = b"abcdefghij";
    let target = b"abcXYZghij";
    let patch = create_bps(source, target, &[]).unwrap();
    let err = apply_bps(b"abcdxfghij", &patch).unwrap_err();
    assert!(err.to_string().contains("source CRC mismatch"));
}
