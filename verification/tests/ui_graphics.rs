use madoua_kr::lzss::{compress, decompress};
use madoua_kr::pointers::SLOT1_BASE;
use madoua_kr::ui_graphics::{
    blob_by_name, get_index, retype_button, set_index, ui_blob, BG_INDEX, COMPASS_INTERIOR_BOX,
    DEFAULT_INTERIOR_BOX, INK_INDEX, TILE_BYTES, UI_BLOB_COUNT,
};
use madoua_kr::ui_labels::{
    build_relocated_ui_resource_bank, ui_label_set, UI_LABEL_COUNT, UI_RELOCATED_COUNT,
};

#[test]
fn tile_codec_roundtrips_index() {
    let mut tile = [0u8; TILE_BYTES];
    for y in 0..8 {
        for x in 0..8 {
            set_index(&mut tile, x, y, ((x + y * 8) % 16) as u8);
        }
    }
    for y in 0..8 {
        for x in 0..8 {
            assert_eq!(get_index(&tile, x, y), ((x + y * 8) % 16) as u8);
        }
    }
}

#[test]
fn inventory_sizes_are_consistent() {
    for blob in (0..UI_BLOB_COUNT).map(ui_blob) {
        assert_eq!(
            blob.uncompressed_len,
            blob.tiles * TILE_BYTES,
            "{} uncompressed_len must equal tiles*32",
            blob.name
        );
    }
}

#[test]
fn ui_labels_match_blob_button_counts() {
    for set in (0..UI_LABEL_COUNT + UI_RELOCATED_COUNT).map(ui_label_set) {
        let blob = blob_by_name(set.blob.name).expect("UI_LABELS blob must exist");
        assert_eq!(
            set.labels.len(),
            blob.tiles / 6,
            "{}: label count must equal button count",
            blob.name
        );
        for label in &set.labels {
            let n = label.chars().count();
            // 24px 버튼: 2글자는 중앙정렬, 3글자는 xs 명시 x위치(예: 일기N)로만 허용.
            assert!(
                n <= 2 || (n == 3 && set.xs.is_some()),
                "{}: label '{label}' exceeds 2 glyphs without xs",
                blob.name
            );
            if let Some(xs) = &set.xs {
                assert_eq!(
                    xs.len(),
                    n,
                    "{}: label '{label}' glyphs {n} != xs {}",
                    blob.name,
                    xs.len()
                );
            }
        }
    }
}

#[test]
fn relocated_resource_bank_has_valid_table_descriptors_and_streams() {
    let save_raw = vec![0x11; 192];
    let flee_raw = (0..384).map(|i| (i % 251) as u8).collect::<Vec<_>>();
    let save = compress(&save_raw);
    let flee = compress(&flee_raw);
    let (bank, save_stream, flee_stream) =
        build_relocated_ui_resource_bank(&save, &flee).unwrap();

    assert_eq!(&bank[0..4], &[0x42, 0x30, 0x37, 0x07]);
    assert_eq!(u16::from_le_bytes([bank[4], bank[5]]), 0x4010);
    let flee_desc = flee_stream - 3;
    assert_eq!(
        u16::from_le_bytes([bank[6], bank[7]]),
        SLOT1_BASE + flee_desc as u16
    );
    assert_eq!(&bank[save_stream - 3..save_stream], &[0x02, 0xC0, 0x07]);
    assert_eq!(&bank[flee_stream - 3..flee_stream], &[0x02, 0x00, 0x07]);
    assert_eq!(decompress(&bank, save_stream).0, save_raw);
    assert_eq!(decompress(&bank, flee_stream).0, flee_raw);
}

#[test]
fn retype_clears_interior_and_stamps_ink() {
    // 6타일(1버튼) 버퍼를 임의 인덱스로 채운 뒤 retype: 내부 박스는 BG, 스탬프한 획은 INK.
    let mut buf = vec![0x00u8; 6 * TILE_BYTES];
    for t in 0..6 {
        for y in 0..8 {
            for x in 0..8 {
                set_index(&mut buf[t * TILE_BYTES..(t + 1) * TILE_BYTES], x, y, 7);
            }
        }
    }
    // 전 픽셀이 켜진 글리프 하나 → 스탬프 영역이 INK가 된다.
    let glyph = [0xFFu8; 8];
    retype_button(
        &mut buf,
        &[0, 1, 2, 3, 4, 5],
        &[glyph],
        None,
        DEFAULT_INTERIOR_BOX,
    );

    // interior_box 안의 한 픽셀은 BG 또는 INK(원래 7이 아님).
    let (r0, _r1, c0, _c1) = DEFAULT_INTERIOR_BOX;
    let ti = (c0 / 8) * 2 + (r0 / 8);
    let v = get_index(&buf[ti * TILE_BYTES..(ti + 1) * TILE_BYTES], c0 % 8, r0 % 8);
    assert!(
        v == BG_INDEX || v == INK_INDEX,
        "interior must be retyped, got {v}"
    );

    // 프레임 영역(col0,row0)은 손대지 않음(여전히 7).
    assert_eq!(
        get_index(&buf[0..TILE_BYTES], 0, 0),
        7,
        "frame corner preserved"
    );
}

#[test]
fn compass_retype_clears_full_jp_height_and_preserves_side_frames() {
    let compass = blob_by_name("compass").expect("compass inventory");
    assert_eq!(compass.interior_box, COMPASS_INTERIOR_BOX);

    let mut buf = vec![0x00u8; 6 * TILE_BYTES];
    for t in 0..6 {
        for y in 0..8 {
            for x in 0..8 {
                set_index(&mut buf[t * TILE_BYTES..(t + 1) * TILE_BYTES], x, y, 7);
            }
        }
    }
    retype_button(
        &mut buf,
        &[0, 1, 2, 3, 4, 5],
        &[],
        None,
        compass.interior_box,
    );

    for gy in 3..13 {
        for gx in 4..20 {
            let ti = (gx / 8) * 2 + (gy / 8);
            assert_eq!(
                get_index(&buf[ti * TILE_BYTES..(ti + 1) * TILE_BYTES], gx % 8, gy % 8),
                BG_INDEX,
                "compass interior must be cleared at ({gx},{gy})"
            );
        }
        for gx in [3usize, 20] {
            let ti = (gx / 8) * 2 + (gy / 8);
            assert_eq!(
                get_index(&buf[ti * TILE_BYTES..(ti + 1) * TILE_BYTES], gx % 8, gy % 8),
                7,
                "compass side frame must be preserved at ({gx},{gy})"
            );
        }
    }
}

#[test]
fn default_retype_clears_full_source_bounds_and_preserves_outer_band() {
    let mut buf = vec![0x00u8; 6 * TILE_BYTES];
    for t in 0..6 {
        for y in 0..8 {
            for x in 0..8 {
                set_index(&mut buf[t * TILE_BYTES..(t + 1) * TILE_BYTES], x, y, 7);
            }
        }
    }
    retype_button(
        &mut buf,
        &[0, 1, 2, 3, 4, 5],
        &[],
        None,
        DEFAULT_INTERIOR_BOX,
    );

    for gy in 3..13 {
        for gx in 3..21 {
            let ti = (gx / 8) * 2 + (gy / 8);
            assert_eq!(
                get_index(&buf[ti * TILE_BYTES..(ti + 1) * TILE_BYTES], gx % 8, gy % 8),
                BG_INDEX,
                "default interior must be cleared at ({gx},{gy})"
            );
        }
        for gx in [2usize, 21] {
            let ti = (gx / 8) * 2 + (gy / 8);
            assert_eq!(
                get_index(&buf[ti * TILE_BYTES..(ti + 1) * TILE_BYTES], gx % 8, gy % 8),
                7,
                "default outer band must be preserved at ({gx},{gy})"
            );
        }
    }
}

#[test]
fn blocks_say_what_they_are_for() {
    let texts: Vec<(&str, &str)> = (0..UI_BLOB_COUNT)
        .map(|i| (ui_blob(i).jp, ui_blob(i).ko_hint))
        .collect();
    assert_eq!(texts[0], ("東西南北", "동/서/남/북"));
    assert_eq!(texts[3], ("セーブ", "저장"));
    assert_eq!(texts[7], ("(커서)", "(원본 유지)"));
}
