use madoua_kr::glyph;
use madoua_kr::patching::{ensure_all_writes_tracked, write_checked, write_free};
use madoua_kr::pointers::{cutscene_pointer_for_physical, region_pointer_for_physical};
use madoua_kr::rom::{
    expanded_source, install_ko_hook, install_ko_prefix2_hook, patch_money_glyph,
    relocate_cutscene_entry, relocate_region_entry, require_canonical_crc,
    validate_translation_source, EXPANDED_ROM_SIZE, JP_CRC32, POC2_SCRIPT_EDIT,
};
use madoua_kr::script::{ScriptEntry, ScriptKind};
use madoua_kr::tracked_rom::TrackedRom;
use madoua_kr::translation::{EncodedOverride, TranslationSource};

/// The handler for one prefix, assembled.
const SINGLE_PREFIX_HANDLER: [u8; 65] = [
    0xFE, 0xA3, 0xC2, 0x3E, 0x9A, 0x1A, 0x13, 0xD5, 0xE5, 0x6F, 0x26, 0x00,
    0x29, 0x29, 0x29, 0x11, 0x00, 0x40, 0x19, 0xEB, 0xE1, 0xC5, 0x06, 0x08,
    0x1A, 0x36, 0x00, 0xCB, 0x41, 0x28, 0x01, 0x77, 0x36, 0xFF, 0x23, 0x36,
    0x00, 0xCB, 0x49, 0x28, 0x01, 0x77, 0x23, 0x36, 0x00, 0xCB, 0x51, 0x28,
    0x01, 0x77, 0x23, 0x36, 0x00, 0xCB, 0x59, 0x28, 0x01, 0x77, 0x23, 0x13,
    0x10, 0xDA, 0xC1, 0xD1, 0xC9,
];

/// The handler for several prefixes, assembled.
const MULTI_PREFIX_HANDLER: [u8; 126] = [
    0xFE, 0xA3, 0x38, 0x74, 0xFE, 0xA7, 0x30, 0x70, 0xD6, 0xA3, 0x07, 0x07,
    0x07, 0x07, 0xCB, 0xA1, 0xCB, 0xA9, 0xB1, 0x4F, 0x1A, 0x13, 0xC5, 0xF5,
    0x79, 0xE6, 0x30, 0x0F, 0x0F, 0x0F, 0x0F, 0x47, 0x79, 0xE6, 0x8F, 0x4F,
    0xF1, 0xD5, 0xE5, 0x3D, 0x6F, 0x26, 0x00, 0x78, 0xB7, 0x28, 0x06, 0x11,
    0xFA, 0x00, 0x19, 0x10, 0xFD, 0x29, 0x29, 0x29, 0x11, 0x00, 0x40, 0x19,
    0xEB, 0xE1, 0x3A, 0xFE, 0xFF, 0xF5, 0x3E, 0x20, 0x32, 0xFE, 0xFF, 0xC5,
    0x06, 0x08, 0x1A, 0x36, 0x00, 0xCB, 0x41, 0x28, 0x01, 0x77, 0x36, 0xFF,
    0x23, 0x36, 0x00, 0xCB, 0x49, 0x28, 0x01, 0x77, 0x23, 0x36, 0x00, 0xCB,
    0x51, 0x28, 0x01, 0x77, 0x23, 0x36, 0x00, 0xCB, 0x59, 0x28, 0x01, 0x77,
    0x23, 0x13, 0x10, 0xDA, 0xC1, 0xF1, 0x32, 0xFE, 0xFF, 0xD1, 0xC1, 0xC9,
    0x3D, 0xD5, 0xEB, 0xC3, 0x41, 0x9A,
];

/// `call $B726`
const HANDLER_CALL: [u8; 3] = [0xCD, 0x26, 0xB7];

/// `jp $B726`
const HANDLER_JUMP: [u8; 3] = [0xC3, 0x26, 0xB7];

fn synthetic_poc_rom() -> Vec<u8> {
    // 글리프 뱅크가 bank 32(0x80000)로 옮겨졌으므로 1MB 확장 ROM으로 만든다.
    let mut data = vec![0xFF; EXPANDED_ROM_SIZE];
    data[glyph::HOOK_CALL_SITE..glyph::HOOK_CALL_SITE + 3].copy_from_slice(&[0xCD, 0x3E, 0x9A]);
    data[glyph::GLYPH_RENDER_HOOK_SITE..glyph::GLYPH_RENDER_HOOK_SITE + 3]
        .copy_from_slice(&glyph::GLYPH_RENDER_HOOK_ORIG);
    data[POC2_SCRIPT_EDIT..POC2_SCRIPT_EDIT + 2].copy_from_slice(&[0x10, 0x11]);
    data[glyph::FONT_BASE..glyph::FONT_BASE + glyph::GLYPH_BYTES]
        .copy_from_slice(&[0xAA; glyph::GLYPH_BYTES]);
    data
}

#[test]
fn canonical_crc_accepted() {
    require_canonical_crc(JP_CRC32, false).unwrap();
}

#[test]
fn noncanonical_crc_rejected_without_override() {
    assert!(require_canonical_crc(0xDEAD_BEEF, false).is_err());
}

#[test]
fn noncanonical_crc_allowed_with_override() {
    require_canonical_crc(0xDEAD_BEEF, true).unwrap();
}

#[test]
fn no_glyph_source_size_unchanged() {
    let src = vec![0xFF; EXPANDED_ROM_SIZE / 2];
    assert_eq!(expanded_source(src, false).len(), EXPANDED_ROM_SIZE / 2);
}

#[test]
fn glyph_build_expands_source() {
    let src = vec![0xFF; EXPANDED_ROM_SIZE / 2];
    assert_eq!(expanded_source(src, true).len(), EXPANDED_ROM_SIZE);
}

#[test]
fn poc2_writes_are_tracked_and_labelled() {
    let data = synthetic_poc_rom();
    let original = data.clone();
    let mut rom = TrackedRom::new(data);

    write_free(
        &mut rom,
        "poc2 ko glyph bank",
        glyph::KO_BANK_PHYS,
        &glyph::POC_GA,
    )
    .unwrap();
    install_ko_hook(&mut rom, &SINGLE_PREFIX_HANDLER, &HANDLER_CALL).unwrap();
    write_checked(
        &mut rom,
        "poc2 script edit",
        POC2_SCRIPT_EDIT,
        &[0x10, 0x11],
        &[glyph::KO_PREFIX, 0x00],
    )
    .unwrap();

    ensure_all_writes_tracked(&rom, &original).unwrap();
    let labels: Vec<&str> = rom
        .write_reports()
        .iter()
        .map(|w| w.label.as_str())
        .collect();
    assert_eq!(
        labels,
        vec![
            "poc2 ko glyph bank",
            "poc ko handler",
            "poc hook call-site",
            "poc2 script edit"
        ]
    );
}

#[test]
fn poc2_fixed_writes_are_tracked_and_labelled() {
    let data = synthetic_poc_rom();
    let original = data.clone();
    let mut rom = TrackedRom::new(data);

    write_free(
        &mut rom,
        "poc2 fixed ko glyph bank",
        glyph::KO_BANK_PHYS,
        &glyph::POC_GA,
    )
    .unwrap();
    install_ko_prefix2_hook(&mut rom, &MULTI_PREFIX_HANDLER, &HANDLER_JUMP).unwrap();
    write_checked(
        &mut rom,
        "poc2 fixed script edit",
        POC2_SCRIPT_EDIT,
        &[0x10, 0x11],
        &[glyph::KO_PREFIX, 0x01],
    )
    .unwrap();

    ensure_all_writes_tracked(&rom, &original).unwrap();
    let labels: Vec<&str> = rom
        .write_reports()
        .iter()
        .map(|w| w.label.as_str())
        .collect();
    assert_eq!(
        labels,
        vec![
            "poc2 fixed ko glyph bank",
            "ko glyph hook handler",
            "ko glyph render hook",
            "poc2 fixed script edit"
        ]
    );
}

#[test]
fn checked_write_fails_on_wrong_base_bytes() {
    let mut data = synthetic_poc_rom();
    data[POC2_SCRIPT_EDIT] = 0x99;
    let mut rom = TrackedRom::new(data);

    let err = write_checked(
        &mut rom,
        "bad script edit",
        POC2_SCRIPT_EDIT,
        &[0x10, 0x11],
        &[glyph::KO_PREFIX, 0x00],
    )
    .unwrap_err();
    assert!(err.to_string().contains("expectation failed"));
}

#[test]
fn free_write_fails_on_nonfree_region() {
    let mut data = synthetic_poc_rom();
    data[glyph::KO_BANK_PHYS] = 0x00;
    let mut rom = TrackedRom::new(data);

    let err =
        write_free(&mut rom, "glyph bank", glyph::KO_BANK_PHYS, &glyph::POC_GA).unwrap_err();
    assert!(err.to_string().contains("expectation failed"));
}

#[test]
fn build_like_translation_writes_are_tracked() {
    let mut data = synthetic_poc_rom();
    data[0x120..0x124].copy_from_slice(&[0x10, 0x11, 0x12, 0x00]);
    let original = data.clone();
    let mut rom = TrackedRom::new(data);

    write_free(
        &mut rom,
        "build ko glyph bank",
        glyph::KO_BANK_PHYS,
        &[0x11; glyph::GLYPH_BYTES * 2],
    )
    .unwrap();
    install_ko_prefix2_hook(&mut rom, &MULTI_PREFIX_HANDLER, &HANDLER_JUMP).unwrap();
    write_checked(
        &mut rom,
        "translation cutscene/002",
        0x120,
        &[0x10, 0x11, 0x12, 0x00],
        &[glyph::KO_PREFIX, 0x01, glyph::KO_PREFIX, 0x02],
    )
    .unwrap();

    ensure_all_writes_tracked(&rom, &original).unwrap();
}

#[test]
fn money_glyph_patch_replaces_kanji_with_hangul_and_is_tracked() {
    let mut data = vec![0xFF; 0x20000];
    data[glyph::MONEY_KANJI_GLYPH_ADDR..glyph::MONEY_KANJI_GLYPH_ADDR + glyph::GLYPH_BYTES]
        .copy_from_slice(&glyph::MONEY_KANJI_JP);
    let original = data.clone();
    let mut rom = TrackedRom::new(data);

    patch_money_glyph(&mut rom).unwrap();

    assert_eq!(
        &rom[glyph::MONEY_KANJI_GLYPH_ADDR..glyph::MONEY_KANJI_GLYPH_ADDR + glyph::GLYPH_BYTES],
        &glyph::MONEY_GLYPH_KO_GEUM,
        "money glyph should become hangul 금"
    );
    ensure_all_writes_tracked(&rom, &original).unwrap();
    assert_eq!(
        rom.write_reports()
            .iter()
            .map(|w| w.label.as_str())
            .collect::<Vec<_>>(),
        vec!["money kanji 金 → hangul 금"]
    );
}

#[test]
fn money_glyph_patch_fails_on_already_patched_rom() {
    // 입력이 JP 원본이 아니면(이미 금) 안전쓰기가 실패해야 한다.
    let mut data = vec![0xFF; 0x20000];
    data[glyph::MONEY_KANJI_GLYPH_ADDR..glyph::MONEY_KANJI_GLYPH_ADDR + glyph::GLYPH_BYTES]
        .copy_from_slice(&glyph::MONEY_GLYPH_KO_GEUM);
    let mut rom = TrackedRom::new(data);

    let err = patch_money_glyph(&mut rom).unwrap_err();
    assert!(err.to_string().contains("expectation failed"));
}

#[test]
fn cutscene_relocation_writes_data_and_pointer() {
    let mut data = synthetic_poc_rom();
    data[0x1B166..0x1B168].copy_from_slice(&0xA68Cu16.to_le_bytes());
    data[0x1A68C..0x1A68F].copy_from_slice(&[0x10, 0x11, 0x00]);
    let original = data.clone();
    let mut rom = TrackedRom::new(data);
    let entry = ScriptEntry {
        id: "cutscene/002".to_string(),
        kind: ScriptKind::Cutscene,
        region: None,
        index: 2,
        slot: 2,
        offset: 0x1A68C,
        len: 3,
        bytes_hex: "10 11 00".to_string(),
        source_crc32: String::new(),
        jp_preview: String::new(),
        ko: String::new(),
        skip: false,
    };
    let mut cursor = glyph::KO_CUTSCENE_RELOC_START;

    relocate_cutscene_entry(
        &mut rom,
        &entry,
        &[glyph::KO_PREFIX, 0x01, glyph::KO_PREFIX, 0x02, 0x00],
        &mut cursor,
    )
    .unwrap();

    assert_eq!(
        &rom[0x1B166..0x1B168],
        &cutscene_pointer_for_physical(glyph::KO_CUTSCENE_RELOC_START)
            .unwrap()
            .to_le_bytes()
    );
    assert_eq!(
        &rom[glyph::KO_CUTSCENE_RELOC_START..glyph::KO_CUTSCENE_RELOC_START + 5],
        &[glyph::KO_PREFIX, 0x01, glyph::KO_PREFIX, 0x02, 0x00]
    );
    ensure_all_writes_tracked(&rom, &original).unwrap();
}

#[test]
fn translation_source_guard_rejects_mismatched_bytes() {
    let entry = ScriptEntry {
        id: "cutscene/002".to_string(),
        kind: ScriptKind::Cutscene,
        region: None,
        index: 2,
        slot: 2,
        offset: 0x1A68C,
        len: 3,
        bytes_hex: "10 11 00".to_string(),
        source_crc32: String::new(),
        jp_preview: String::new(),
        ko: String::new(),
        skip: false,
    };
    let encoded = EncodedOverride {
        id: entry.id.clone(),
        bytes: vec![glyph::KO_PREFIX, 0x01, 0x00],
        source: Some(TranslationSource {
            bytes: vec![0x10, 0x12, 0x00],
            crc32: None,
        }),
    };

    let err = validate_translation_source(&entry, &encoded).unwrap_err();
    assert!(err.to_string().contains("source bytes do not match"));
}

#[test]
fn region_relocation_writes_data_and_pointer() {
    let mut data = synthetic_poc_rom();
    data[0x1A069] = 0x15;
    data[0x1A06A] = 0x07;
    data[0x1C02E..0x1C030].copy_from_slice(&0x4800u16.to_le_bytes());
    data[0x1C802..0x1C804].copy_from_slice(&0x4030u16.to_le_bytes());
    data[0x1C030..0x1C032].copy_from_slice(&[0x10, 0x00]);
    let original = data.clone();
    let mut rom = TrackedRom::new(data);
    let entry = ScriptEntry {
        id: "region/0/001".to_string(),
        kind: ScriptKind::Region,
        region: Some(0),
        index: 1,
        slot: 1,
        offset: 0x1C030,
        len: 2,
        bytes_hex: "10 00".to_string(),
        source_crc32: String::new(),
        jp_preview: String::new(),
        ko: String::new(),
        skip: false,
    };
    let mut cursor = 0x1FE00;

    relocate_region_entry(
        &mut rom,
        &entry,
        &[glyph::KO_PREFIX, 0x01, glyph::KO_PREFIX, 0x02, 0x00],
        &mut cursor,
    )
    .unwrap();

    assert_eq!(
        &rom[0x1C802..0x1C804],
        &region_pointer_for_physical(rom.data(), 0, 0x1FE00)
            .unwrap()
            .to_le_bytes()
    );
    assert_eq!(
        &rom[0x1FE00..0x1FE05],
        &[glyph::KO_PREFIX, 0x01, glyph::KO_PREFIX, 0x02, 0x00]
    );
    ensure_all_writes_tracked(&rom, &original).unwrap();
}
