use madoua_kr::build_rom::{
    build_rom, font_has_glyphs_of, repack_cutscenes, BuildOutput, HookCode,
};
use madoua_kr::build_ui::{build_ui, check_patched_blocks};
use madoua_kr::font::{GlyphFont, Raster};
use madoua_kr::glyph;
use madoua_kr::header::TmrSegaHeader;
use madoua_kr::lzss::{compress, decompress};
use madoua_kr::pointers::{
    read_u16_le, region_bank_base, region_pointer_offset, region_string_count,
    slot_pointer_to_physical, CUTSCENE_COUNT, CUTSCENE_POINTER_TABLE, REGION_COUNT,
    REGION_LOC_TABLE, SLOT1_BASE, SLOT2_BASE,
};
use madoua_kr::poc::{poc2_fixed_patch, poc2_patch, poc3_fixed_patch, poc3_patch, poc_patch};
use madoua_kr::rom::EXPANDED_ROM_SIZE;
use madoua_kr::script::{extract_entries, raw_entry_bytes, read_script_bytes, ScriptEntry};
use madoua_kr::tracked_rom::TrackedRom;
use madoua_kr::translation::{
    load_translation_plan, TranslationInput, TranslationOverride, TranslationPlan,
};
use madoua_kr::ui_graphics::{ui_blob, UiBlob, UI_BLOB_COUNT};
use madoua_kr::ui_labels::{
    font_has_ui_labels, retype_blob, ui_label_set, AssetLoads, FLEE_ASSET_LOAD_ORIG, FLEE_ASSET_LOAD_SITE,
    SAVE_ASSET_LOAD_ORIG, SAVE_ASSET_LOAD_SITE,
};
use madoua_kr::ui_report::preview_retype;

const SHOP_START: usize = 0x25BB7;
const CUTSCENE_TEXT: usize = 0x1A66D;

/// A stream that decodes to zero bytes, of middling length.
fn zero_stream(len: usize, step: usize) -> Vec<u8> {
    let mut stream = Vec::new();
    let mut left = len;
    while left > 0 {
        if left < 3 {
            stream.push(left as u8);
            stream.extend(vec![0u8; left]);
            left = 0;
        } else {
            let n = left.min(step);
            stream.push(0x80 | (n - 3) as u8);
            stream.push(0x00);
            left -= n;
        }
    }
    stream.push(0x00);
    stream
}

fn put(rom: &mut [u8], at: usize, bytes: &[u8]) {
    rom[at..at + bytes.len()].copy_from_slice(bytes);
}

/// A ROM that has everything a build looks for.
fn synthetic_rom() -> Vec<u8> {
    let mut rom = vec![0xFFu8; EXPANDED_ROM_SIZE / 2];
    rom[0x7FFF] = 0x7C;
    put(&mut rom, glyph::HOOK_CALL_SITE, &[0xCD, 0x3E, 0x9A]);
    put(
        &mut rom,
        glyph::GLYPH_RENDER_HOOK_SITE,
        &glyph::GLYPH_RENDER_HOOK_ORIG,
    );
    put(
        &mut rom,
        glyph::MONEY_KANJI_GLYPH_ADDR,
        &glyph::MONEY_KANJI_JP,
    );
    put(&mut rom, SAVE_ASSET_LOAD_SITE, &SAVE_ASSET_LOAD_ORIG);
    put(&mut rom, FLEE_ASSET_LOAD_SITE, &FLEE_ASSET_LOAD_ORIG);
    for region in 0..REGION_COUNT {
        let base = (16 + region) * 0x4000;
        put(
            &mut rom,
            REGION_LOC_TABLE + region * 2,
            &[0, 16 + region as u8],
        );
        put(&mut rom, base + 4, &0x4010u16.to_le_bytes());
        let count = region_string_count(region);
        for i in 0..count {
            let at = 0x10 + 2 * count + 3 * i;
            let ptr = if (region, i) == (3, 37) {
                0xC8BF
            } else {
                SLOT1_BASE + at as u16
            };
            put(&mut rom, base + 0x10 + 2 * i, &ptr.to_le_bytes());
            put(&mut rom, base + at, &[0x10, 0x11 + region as u8, 0x00]);
        }
    }
    for i in 0..CUTSCENE_COUNT {
        let at = CUTSCENE_TEXT + 4 * i;
        let ptr = SLOT2_BASE + (at - 0x18000) as u16;
        put(
            &mut rom,
            CUTSCENE_POINTER_TABLE + 2 * i,
            &ptr.to_le_bytes(),
        );
        put(&mut rom, at, &[0x10, 0x11, 0x12, 0x00]);
    }
    // The text that the trials replace.
    put(&mut rom, 0x1A694, &[0x10, 0x11]);
    put(&mut rom, 0x1A697, &[0x4F, 0x59, 0x15, 0x16]);
    for i in 0..12 {
        put(
            &mut rom,
            SHOP_START + 5 * i,
            &[0x10, 0x11, 0x12, 0x13, 0x00],
        );
    }
    for i in 0..UI_BLOB_COUNT {
        let blob = ui_blob(i);
        let step = if blob.uncompressed_len > 400 || i == 7 { 8 } else { 4 };
        put(
            &mut rom,
            blob.compressed_addr,
            &zero_stream(blob.uncompressed_len, step),
        );
    }
    rom
}

/// A font in which every character is one line of pixels.
fn line_font(chars: &[char]) -> GlyphFont {
    GlyphFont {
        rasters: chars
            .iter()
            .map(|&ch| Raster {
                ch,
                width: 8,
                height: 1,
                coverage: vec![0xFF; 8],
            })
            .collect(),
        threshold: 128,
        x_off: 0,
        y_off: 0,
    }
}

fn label_chars() -> Vec<char> {
    (0..9)
        .flat_map(|i| ui_label_set(i).labels)
        .flat_map(|label| label.chars().collect::<Vec<char>>())
        .collect()
}

fn translation(id: &str, ko: &str) -> TranslationOverride {
    TranslationOverride {
        id: id.to_string(),
        jp: String::new(),
        bytes_hex: String::new(),
        source_crc32: String::new(),
        ko: ko.to_string(),
        status: String::new(),
        notes: String::new(),
        skip: false,
    }
}

fn plan_of(entries: Vec<TranslationOverride>) -> TranslationPlan {
    load_translation_plan(&[TranslationInput {
        path: "t.json".to_string(),
        entries,
    }])
    .unwrap()
}

fn loads() -> AssetLoads {
    AssetLoads {
        save: [0x21, 0x00, 0x2C],
        flee: [0x21, 0x01, 0x2C],
    }
}

fn code() -> HookCode {
    HookCode {
        handler: vec![0xC9; 126],
        jump: [0xC3, 0x26, 0xB7],
        loads: loads(),
    }
}

fn build(source: Vec<u8>, entries: Vec<TranslationOverride>) -> Result<BuildOutput, String> {
    let plan = plan_of(entries);
    let mut chars = plan.encoding.glyph_chars().to_vec();
    chars.extend(label_chars());
    let font = line_font(&chars);
    assert!(font_has_glyphs_of(&font, plan.encoding.glyph_chars()));
    assert!(font_has_ui_labels(&font));
    build_rom(source, &plan, Some(&font), &code()).map_err(|e| e.to_string())
}

fn three_texts() -> Vec<TranslationOverride> {
    vec![
        translation("region/0/002", "마도마[end]"),
        translation("cutscene/001", "도마[br]마도[end]"),
        translation("shop/00", "마,[end]"),
    ]
}

fn region_text(rom: &[u8], region: usize, index: usize) -> Vec<u8> {
    let at = region_pointer_offset(rom, region, index).unwrap();
    let ptr = read_u16_le(rom, at).unwrap();
    let base = region_bank_base(rom, region).unwrap();
    let offset = slot_pointer_to_physical(base, ptr, SLOT1_BASE).unwrap();
    read_script_bytes(rom, offset).unwrap()
}

fn cutscene_text(rom: &[u8], index: usize) -> Vec<u8> {
    let ptr = read_u16_le(rom, CUTSCENE_POINTER_TABLE + 2 * index).unwrap();
    let offset = slot_pointer_to_physical(0x18000, ptr, SLOT2_BASE).unwrap();
    read_script_bytes(rom, offset).unwrap()
}

#[test]
fn a_build_moves_texts_and_they_read_back() {
    let source = synthetic_rom();
    let built = build(source.clone(), three_texts()).unwrap();
    let rom = &built.rom;
    assert_eq!(rom.len(), EXPANDED_ROM_SIZE);
    assert_eq!(built.translations, 3);
    assert_eq!(built.relocated_regions, 11);
    assert_eq!(built.relocated_cutscenes, 168);
    assert_eq!(built.ui_labels, 9);
    assert_eq!(built.glyphs, 3);

    assert_eq!(region_bank_base(rom, 0).unwrap(), 33 * 0x4000);
    assert_eq!(
        region_text(rom, 0, 2),
        [0xA3, 0x01, 0xA3, 0x02, 0xA3, 0x01, 0x00]
    );
    assert_eq!(region_text(rom, 0, 3), region_text(&source, 0, 3));
    assert_eq!(region_text(rom, 10, 4), region_text(&source, 10, 4));
    let money = region_pointer_offset(rom, 3, 37).unwrap();
    assert_eq!(read_u16_le(rom, money).unwrap(), 0xC8BF);

    assert_eq!(
        cutscene_text(rom, 1),
        [0xA3, 0x02, 0xA3, 0x01, 0xFF, 0xA3, 0x01, 0xA3, 0x02, 0x00]
    );
    assert_eq!(cutscene_text(rom, 100), cutscene_text(&source, 100));

    assert_eq!(
        &rom[SHOP_START..SHOP_START + 5],
        &[0xA3, 0x01, 0xA3, 0x03, 0x00]
    );
}

#[test]
fn a_build_puts_glyphs_handler_and_header_in() {
    let built = build(synthetic_rom(), three_texts()).unwrap();
    let rom = &built.rom;
    let line = [0, 0, 0, 0xFF, 0, 0, 0, 0];
    assert_eq!(&rom[0x80000..0x80008], &line);
    assert_eq!(&rom[0x80008..0x80010], &line);
    assert_eq!(&rom[0x80010..0x80018], &glyph::KO_COMMA);
    assert_eq!(rom[0x80018], 0xFF);
    assert_eq!(&rom[0x1B726..0x1B726 + 126], &[0xC9; 126]);
    assert_eq!(
        &rom[glyph::GLYPH_RENDER_HOOK_SITE..glyph::GLYPH_RENDER_HOOK_SITE + 3],
        &[0xC3, 0x26, 0xB7]
    );
    assert_eq!(rom[0x7FFF], 0x72);
    assert_eq!(
        &rom[glyph::MONEY_KANJI_GLYPH_ADDR..glyph::MONEY_KANJI_GLYPH_ADDR + 8],
        &glyph::MONEY_GLYPH_KO_GEUM
    );
    let stored = u16::from_le_bytes([rom[0x7FFA], rom[0x7FFB]]);
    assert_eq!(stored, TmrSegaHeader::compute_checksum(rom));
    check_patched_blocks(rom).unwrap();
    assert_eq!(
        &rom[SAVE_ASSET_LOAD_SITE..SAVE_ASSET_LOAD_SITE + 3],
        &[0x21, 0x00, 0x2C]
    );
}

#[test]
fn a_build_without_glyphs_keeps_the_size() {
    let source = synthetic_rom();
    let plan = plan_of(Vec::new());
    let built = build_rom(source.clone(), &plan, None, &code()).unwrap();
    assert_eq!(built.rom.len(), source.len());
    assert_eq!(
        (built.glyphs, built.relocated_regions, built.ui_labels),
        (0, 0, 0)
    );
    assert_eq!(built.rom[0x7FFF], 0x7C);
    assert_eq!(
        &built.rom[glyph::MONEY_KANJI_GLYPH_ADDR..glyph::MONEY_KANJI_GLYPH_ADDR + 8],
        &glyph::MONEY_GLYPH_KO_GEUM
    );
}

#[test]
fn a_build_of_untouched_scripts_extracts_the_same_regions() {
    let source = synthetic_rom();
    let before: Vec<ScriptEntry> = extract_entries(&source).unwrap();
    let built = build(source, vec![translation("shop/01", "마도[end]")]).unwrap();
    let after = extract_entries(&built.rom).unwrap();
    assert_eq!(before.len(), after.len());
    for (a, b) in before.iter().zip(&after) {
        assert_eq!(a.id, b.id);
        if a.id != "shop/01" {
            assert_eq!(a.bytes_hex, b.bytes_hex, "{}", a.id);
        }
    }
}

#[test]
fn a_build_refuses_unknown_scripts() {
    let err = build(
        synthetic_rom(),
        vec![translation("region/99/000", "마[end]")],
    )
    .unwrap_err();
    assert_eq!(err, "알 수 없는 translation id: region/99/000");
}

#[test]
fn a_build_refuses_shop_texts_of_another_length() {
    let err = build(
        synthetic_rom(),
        vec![translation("shop/02", "마도마[end]")],
    )
    .unwrap_err();
    assert_eq!(
        err,
        "shop/02: shop 문자열은 relocation 전까지 원본 길이와 정확히 같아야 함 (7 != 5)"
    );
}

#[test]
fn a_build_refuses_a_source_that_has_changed() {
    let mut entry = translation("region/1/000", "마[end]");
    entry.bytes_hex = "10 99 00".to_string();
    let err = build(synthetic_rom(), vec![entry]).unwrap_err();
    assert_eq!(
        err,
        "region/1/000: translation source bytes do not match current ROM extract"
    );
}

#[test]
fn a_build_refuses_cutscenes_that_do_not_fit() {
    let long = format!("{}[end]", "마".repeat(2500));
    let err = build(
        synthetic_rom(),
        vec![translation("cutscene/000", &long)],
    )
    .unwrap_err();
    assert_eq!(err, "cutscene repack: 문자열 000이 세그먼트를 초과");

    let half = format!("{}[end]", "마".repeat(900));
    let err = build(
        synthetic_rom(),
        vec![
            translation("cutscene/000", &half),
            translation("cutscene/001", &half),
            translation("cutscene/002", &half),
        ],
    )
    .unwrap_err();
    assert_eq!(err, "cutscene repack: bank 6 자유공간 초과");
}

#[test]
fn a_build_refuses_regions_that_do_not_fit_in_a_bank() {
    let long = format!("{}[end]", "마".repeat(8200));
    let err = build(
        synthetic_rom(),
        vec![translation("region/0/000", &long)],
    )
    .unwrap_err();
    assert!(err.starts_with("region 0 대사 bin("), "{err}");
    assert!(err.ends_with("B)이 16KB 뱅크를 초과"), "{err}");
}

#[test]
fn interface_labels_alone_can_be_built() {
    let font = line_font(&label_chars());
    let built = build_ui(synthetic_rom(), &font, &loads()).unwrap();
    assert_eq!(built.patched, 9);
    assert_eq!(built.rom.len(), EXPANDED_ROM_SIZE);
    check_patched_blocks(&built.rom).unwrap();
    let blob = ui_label_set(0).blob;
    let (tiles, _) = decompress(&built.rom, blob.compressed_addr);
    assert_eq!(tiles.len(), blob.uncompressed_len);
    assert!(tiles.iter().any(|&b| b != 0));
}

#[test]
fn broken_blocks_are_found() {
    let mut rom = synthetic_rom();
    let blob = ui_label_set(2).blob;
    rom[blob.compressed_addr] = 0x00;
    let err = check_patched_blocks(&rom).unwrap_err();
    assert_eq!(
        err.to_string(),
        format!("{}: 패치 후 디컴프 크기 불일치", blob.name)
    );
}

#[test]
fn trials_show_their_glyphs() {
    let handler = [0xC9u8; 65];
    let call = [0xCD, 0x26, 0xB7];
    let jump = [0xC3, 0x26, 0xB7];
    let rom = poc2_patch(synthetic_rom(), &handler, &call).unwrap();
    assert_eq!(&rom[0x80000..0x80008], &glyph::POC_GA);
    assert_eq!(&rom[0x1A694..0x1A696], &[0xA3, 0x00]);
    assert_eq!(&rom[glyph::HOOK_CALL_SITE..glyph::HOOK_CALL_SITE + 3], &call);

    let rom = poc2_fixed_patch(synthetic_rom(), &handler, &jump).unwrap();
    assert_eq!(&rom[0x1A694..0x1A696], &[0xA3, 0x01]);
    assert_eq!(
        &rom[glyph::GLYPH_RENDER_HOOK_SITE..glyph::GLYPH_RENDER_HOOK_SITE + 3],
        &jump
    );

    let word = ['마', '도'];
    let font = line_font(&word);
    let rom = poc3_patch(synthetic_rom(), &word, &font, &handler, &call).unwrap();
    assert_eq!(&rom[0x1A697..0x1A69B], &[0xA3, 0x00, 0xA3, 0x01]);
    assert_eq!(rom[0x80003], 0xFF);
    assert_eq!(rom[0x8000B], 0xFF);
    let rom = poc3_fixed_patch(synthetic_rom(), &word, &font, &handler, &jump).unwrap();
    assert_eq!(&rom[0x1A697..0x1A69B], &[0xA3, 0x01, 0xA3, 0x02]);
}

#[test]
fn a_trial_on_another_text_is_refused() {
    let mut rom = synthetic_rom();
    rom[0x1A694] = 0x99;
    let err = poc2_patch(rom, &[0xC9], &[0xCD, 0x26, 0xB7]).unwrap_err();
    assert!(err.to_string().contains("expectation failed"));
}

#[test]
fn one_glyph_can_be_replaced() {
    let source = synthetic_rom();
    let trial = poc_patch(source.clone(), 0x3A).unwrap();
    let at = glyph::FONT_BASE + 0x3A * 8;
    assert_eq!(trial.offset, at);
    assert_eq!(trial.before, &source[at..at + 8]);
    assert_eq!(&trial.rom[at..at + 8], &glyph::POC_GA);
    assert_eq!(&trial.rom[..at], &source[..at]);
    let err = poc_patch(source, 0x20_0000).unwrap_err();
    assert_eq!(err.to_string(), "폰트 슬롯이 ROM 범위를 벗어남");
}

#[test]
fn extracted_scripts_end_with_the_end_code() {
    let rom = synthetic_rom();
    for e in extract_entries(&rom).unwrap() {
        let bytes = raw_entry_bytes(&e).unwrap();
        assert_eq!(bytes, &rom[e.offset..e.offset + e.len]);
        if e.id == "region/3/025" {
            assert_eq!((e.offset, e.len), (0, 0));
        } else {
            assert_eq!(bytes.last(), Some(&0x00));
        }
    }
}

fn assert_labels_show(rom: &[u8], source: &[u8], font: &GlyphFont) {
    let label = |i: usize| {
        let set = ui_label_set(i);
        retype_blob(source, &set.blob, &set.labels, set.xs.as_deref(), font).unwrap()
    };
    for i in 0..7 {
        let (tiles, _) = decompress(rom, ui_label_set(i).blob.compressed_addr);
        assert_eq!(tiles, label(i));
    }
    let (save, used) = decompress(rom, 0xB0013);
    assert_eq!(save, label(7));
    assert_eq!(decompress(rom, 0xB0016 + used).0, label(8));
    for i in 7..9 {
        let at = ui_label_set(i).blob.compressed_addr;
        let (_, used) = decompress(source, at);
        assert_eq!(&rom[at..at + used], &source[at..at + used]);
    }
    assert_eq!(&rom[0x1A2F5..0x1A2F8], &[0x21, 0x00, 0x2C]);
    assert_eq!(&rom[0x1A33E..0x1A341], &[0x21, 0x01, 0x2C]);
}

#[test]
fn labels_show_in_a_build() {
    let source = synthetic_rom();
    let mut chars = label_chars();
    chars.extend("마도,".chars());
    let font = line_font(&chars);
    let built = build_ui(source.clone(), &font, &loads()).unwrap();
    assert_labels_show(&built.rom, &source, &font);
    let built = build_rom(source.clone(), &plan_of(three_texts()), Some(&font), &code()).unwrap();
    assert_labels_show(&built.rom, &source, &font);
}

#[test]
fn shop_texts_stand_in_a_build_without_glyphs() {
    let source = synthetic_rom();
    let plan = plan_of(vec![translation("shop/00", "あいうえ[end]")]);
    let built = build_rom(source, &plan, None, &code()).unwrap();
    assert_eq!(built.glyphs, 0);
    let text = &plan.encoded[0].bytes;
    assert_eq!(&built.rom[SHOP_START..SHOP_START + text.len()], &text[..]);
}

#[test]
fn cutscenes_fit_in_a_short_rom() {
    let mut rom = TrackedRom::new(vec![0x55; 0x1B2B2]);
    assert_eq!(repack_cutscenes(&mut rom, &[], &[]).unwrap(), 0xA8);
    assert!(rom.data()[0x1B162..].iter().all(|&b| b == 0));
    assert!(rom.data()[..0x1B162].iter().all(|&b| b == 0x55));
}

#[test]
fn new_labels_can_be_previewed() {
    let rom = synthetic_rom();
    let font = line_font(&label_chars());
    let set = ui_label_set(0);
    let preview = preview_retype(&rom, &set.blob, &set.labels, &font).unwrap();
    assert_eq!(preview.tiles, retype_blob(&rom, &set.blob, &set.labels, None, &font).unwrap());
    assert_eq!(preview.recompressed, compress(&preview.tiles).len());
    assert_eq!(preview.consumed, decompress(&rom, set.blob.compressed_addr).1);
    assert_eq!(preview.in_place, preview.recompressed <= preview.consumed);
    let err = preview_retype(&rom, &set.blob, &[], &font).unwrap_err();
    assert_eq!(err.to_string(), "buttons_map: 라벨 0개 != 버튼 1개");
}

#[test]
fn a_box_may_be_empty_or_tall() {
    let rom = zero_stream(192, 4);
    let font = line_font(&['가']);
    let blob = UiBlob {
        name: "one",
        compressed_addr: 0,
        uncompressed_len: 192,
        tiles: 11,
        jp: "",
        ko_hint: "",
        interior_box: (30, 30, 0, 99),
    };
    let labels = ["가".to_string()];
    let tiles = retype_blob(&rom, &blob, &labels, None, &font).unwrap();
    assert!(tiles.iter().any(|&b| b != 0));
    let tall = UiBlob { interior_box: (0, 48, 0, 8), ..blob };
    assert!(retype_blob(&rom, &tall, &labels, None, &font).is_ok());
}
