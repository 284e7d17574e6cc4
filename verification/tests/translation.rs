use madoua_kr::glyph;
use madoua_kr::ko_text::{code_for_rank, encode_translation_text, KoEncoding, MONEY_TEXT_BYTE};
use madoua_kr::raw_text::{load_raw_stage_entries, RawInput, RawTextEntry};
use madoua_kr::shop_layout::{validate_shop_layout, validate_visible_line_ceiling};
use madoua_kr::stage::{
    check_stage, validate_no_japanese_residue, StageTranslationEntry, StagedEntry,
};
use madoua_kr::surfaces::{
    check_money_sources, check_surface_catalog, check_surfaces, find_exact_glyph_matches,
    require_surfaces_ready, slot2_logical_address, SurfaceCatalog, SurfaceEntry,
};
use madoua_kr::tags::{check_control_tags, control_tag_counts, find_tags};
use madoua_kr::terms::{
    check_term_usage, check_terms, check_terms_file, TermEntry, TermsFile,
};
use madoua_kr::translation::{
    load_human_review_preview_plan, load_translation_plan, require_source_metadata,
    validate_korean_punctuation, EncodedOverride, TranslationInput, TranslationOverride,
    TranslationSource,
};

/// The control tags of a text with their counts.
fn tag_counts(text: &str) -> Vec<(Vec<char>, u128)> {
    let chars: Vec<char> = text.chars().collect();
    control_tag_counts(&find_tags(&chars))
}

/// A translated script of which only the name and the text are given.
fn translation(id: &str, ko: &str) -> TranslationOverride {
    TranslationOverride {
        id: id.to_string(),
        jp: String::new(),
        bytes_hex: String::new(),
        source_crc32: String::new(),
        ko: ko.to_string(),
        status: String::new(),
        notes: String::new(),
        skip: false,
    }
}

/// A file with one translated script.
fn one_file(entry: TranslationOverride) -> Vec<TranslationInput> {
    vec![TranslationInput {
        path: "translation.json".to_string(),
        entries: vec![entry],
    }]
}

/// A script of a stage of which only the name and the texts are given.
fn staged(id: &str, jp: &str, ko: &str) -> StageTranslationEntry {
    StageTranslationEntry {
        id: id.to_string(),
        kind: None,
        region: None,
        index: None,
        offset: None,
        len: None,
        jp: jp.to_string(),
        bytes_hex: String::new(),
        source_crc32: String::new(),
        ko: ko.to_string(),
        status: "needs_review".to_string(),
        notes: "test".to_string(),
        skip: false,
    }
}

/// A raw script of which only the name and the text are given.
fn raw(id: &str, jp: &str) -> RawTextEntry {
    RawTextEntry {
        id: id.to_string(),
        kind: None,
        region: None,
        index: None,
        offset: None,
        len: None,
        jp: jp.to_string(),
        bytes_hex: String::new(),
        source_crc32: String::new(),
    }
}

/// A term that refers to one script.
fn spell(jp: &str, ko: &str, reference: &str) -> TermEntry {
    TermEntry {
        category: "spell".to_string(),
        jp: jp.to_string(),
        ko: ko.to_string(),
        status: "approved_series".to_string(),
        source: String::new(),
        notes: String::new(),
        aliases: Vec::new(),
        refs: vec![reference.to_string()],
        match_refs_only: false,
    }
}

/// A list of terms.
fn terms_file(entries: Vec<TermEntry>) -> TermsFile {
    TermsFile {
        format: "madoua-terms-v1".to_string(),
        entries,
    }
}

/// The raw scripts of one file.
fn raw_stage(entries: Vec<RawTextEntry>) -> Vec<RawTextEntry> {
    let files = [RawInput {
        path: "raw/region_00.json".to_string(),
        entries,
    }];
    load_raw_stage_entries(&files, "raw").unwrap()
}

/// A file of the stage for review with one script.
fn batch(entry: StageTranslationEntry) -> Vec<StagedEntry> {
    vec![StagedEntry {
        path: "needs_review/batch.json".to_string(),
        entry,
    }]
}

/// The raw shop scripts.
fn shop_raws(count: usize, jp: &str, bytes_hex: &str) -> Vec<RawTextEntry> {
    let entries = (0..count)
        .map(|i| RawTextEntry {
            kind: Some("shop".to_string()),
            index: Some(i),
            offset: Some("0x25BB7".to_string()),
            len: Some(23),
            bytes_hex: bytes_hex.to_string(),
            source_crc32: "00000000".to_string(),
            ..raw(&format!("shop/{i:02}"), jp)
        })
        .collect();
    let files = [RawInput {
        path: "raw/shop.json".to_string(),
        entries,
    }];
    load_raw_stage_entries(&files, "raw").unwrap()
}

/// A catalog of shop texts and the money sign, as far as it has been looked at.
fn surface_catalog(shop_count: usize) -> SurfaceCatalog {
    let mut surfaces: Vec<SurfaceEntry> = (0..shop_count)
        .map(|i| SurfaceEntry {
            id: format!("shop/{i:02}"),
            kind: "shop_text".to_string(),
            source_ref: Some(format!("shop/{i:02}")),
            policy: "fixed_len_only".to_string(),
            status: "blocked_until_policy".to_string(),
            risks: vec!["money_placeholder".to_string()],
            notes: "length-fixed shop surface".to_string(),
        })
        .collect();
    surfaces.push(SurfaceEntry {
        id: "hud/money-unit".to_string(),
        kind: "hud_or_graphics_text".to_string(),
        source_ref: None,
        policy: "inventory_required".to_string(),
        status: "unverified".to_string(),
        risks: vec!["fresh_scene_required".to_string()],
        notes: "requires fresh-scene inventory".to_string(),
    });
    SurfaceCatalog {
        format: "madoua-surface-inventory-v1".to_string(),
        surfaces,
    }
}

/// A catalog that is ready for a release.
fn ready_surface_catalog(shop_count: usize) -> SurfaceCatalog {
    let mut surfaces: Vec<SurfaceEntry> = (0..shop_count)
        .map(|i| SurfaceEntry {
            id: format!("shop/{i:02}"),
            kind: "shop_text".to_string(),
            source_ref: Some(format!("shop/{i:02}")),
            policy: "fixed_len_only".to_string(),
            status: "verified".to_string(),
            risks: Vec::new(),
            notes: "length-fixed shop surface has release evidence".to_string(),
        })
        .collect();
    surfaces.push(SurfaceEntry {
        id: "hud/money-unit".to_string(),
        kind: "hud_or_graphics_text".to_string(),
        source_ref: None,
        policy: "normal_text".to_string(),
        status: "verified".to_string(),
        risks: Vec::new(),
        notes: "money unit runtime path has release evidence".to_string(),
    });
    SurfaceCatalog {
        format: "madoua-surface-inventory-v1".to_string(),
        surfaces,
    }
}

#[test]
fn source_metadata_required_rejects_source_less_entry() {
    let encoded = vec![EncodedOverride {
        id: "region/0/000".to_string(),
        bytes: vec![1, 2],
        source: None,
    }];
    assert!(require_source_metadata(&encoded).is_err());
}

#[test]
fn source_metadata_required_accepts_entry_with_source() {
    let encoded = vec![EncodedOverride {
        id: "region/0/000".to_string(),
        bytes: vec![1, 2],
        source: Some(TranslationSource {
            bytes: vec![1, 2],
            crc32: None,
        }),
    }];
    require_source_metadata(&encoded).unwrap();
}

#[test]
fn encodes_hangul_with_frequency_mapping_and_jp_controls() {
    let encoding = KoEncoding::from_texts(&["마도마".to_string()]).unwrap();
    assert_eq!(encoding.glyph_chars(), &['마', '도']);

    let bytes = encode_translation_text("お[br]마도[end]", &encoding).unwrap();
    assert_eq!(
        bytes,
        vec![
            0x13,
            0xFF,
            glyph::KO_PREFIX,
            0x01,
            glyph::KO_PREFIX,
            0x02,
            0x00
        ]
    );
}

#[test]
fn western_comma_and_tilde_use_dynamic_glyphs_without_reordering_hangul() {
    let encoding = KoEncoding::from_texts(&["마도마,~".to_string()]).unwrap();
    assert_eq!(encoding.glyph_chars(), &['마', '도', ',', '~']);

    let bytes = encode_translation_text("마,도~[end]", &encoding).unwrap();
    assert_eq!(
        bytes,
        vec![
            glyph::KO_PREFIX,
            0x01,
            glyph::KO_PREFIX,
            0x03,
            glyph::KO_PREFIX,
            0x02,
            glyph::KO_PREFIX,
            0x04,
            0x00
        ]
    );
}

#[test]
fn korean_punctuation_policy_rejects_japanese_and_multi_cell_forms() {
    assert!(validate_korean_punctuation("x", "하지만、[end]").is_err());
    assert!(validate_korean_punctuation("x", "끝났다。[end]").is_err());
    assert!(validate_korean_punctuation("x", "그래서〜[end]").is_err());
    assert!(validate_korean_punctuation("x", "잠깐...[end]").is_err());
    validate_korean_punctuation("x", "하지만, 잠깐… 정말~[end]").unwrap();
}

#[test]
fn visible_line_ceiling_accepts_twenty_tiles_and_rejects_twenty_one() {
    let twenty = format!("{}[end]", "가".repeat(20));
    let twenty_one = format!("{}[end]", "가".repeat(21));
    validate_visible_line_ceiling("region/test", &twenty, 20).unwrap();
    let err = validate_visible_line_ceiling("region/test", &twenty_one, 20).unwrap_err();
    assert!(err.to_string().contains("exceeds 20 tiles"));
}

#[test]
fn shop_layout_accepts_exact_anchor_and_price_padding_preservation() {
    let raw = [0x2A, 0x2A, 0xFF, 0x0C, 0x01, 0x01, 0x22, 0x00];
    let encoded = [0xA3, 0x01, 0xFF, 0x0C, 0x01, 0x01, 0xA3, 0x02];
    let mut encoded = encoded.to_vec();
    encoded.push(0x00);

    let mut raw = raw.to_vec();
    raw.insert(raw.len() - 1, 0x01);
    validate_shop_layout(
        "shop/test",
        "ふふ[br]金　　あ　[end]",
        "가[br][money]　　나[end]",
        &raw,
        &encoded,
        9,
    )
    .unwrap();
}

#[test]
fn shop_layout_rejects_moved_money_anchor() {
    let raw = [0x2A, 0xFF, 0x0C, 0x01, 0x01, 0x22, 0x00];
    let encoded = [0x2A, 0xFF, 0x01, 0x0C, 0x01, 0x01, 0x00];

    let err = validate_shop_layout(
        "shop/test",
        "ふ[br]金　　あ[end]",
        "후[br]　[money]　　[end]",
        &raw,
        &encoded,
        raw.len(),
    )
    .unwrap_err();
    assert!(err.to_string().contains("money moved right"));
}

#[test]
fn shop_layout_rejects_shorter_fixed_length_translation() {
    let raw = [0x2A, 0xFF, 0x0C, 0x01, 0x01, 0x22, 0x00];
    let encoded = [0x2A, 0xFF, 0x0C, 0x01, 0x22, 0x00];

    let err = validate_shop_layout(
        "shop/test",
        "ふ[br]金　　あ[end]",
        "후[br][money]　아[end]",
        &raw,
        &encoded,
        raw.len(),
    )
    .unwrap_err();
    assert!(err.to_string().contains("preserve exact source len"));
}

#[test]
fn rejects_unknown_control_tag() {
    let encoding = KoEncoding::from_texts(&[]).unwrap();
    assert!(encode_translation_text("[bad]", &encoding).is_err());
}

#[test]
fn multi_prefix_assigns_prefix_by_frequency_rank() {
    // rank 0..249 → prefix 0xA3, 250..499 → 0xA4. base = 0x01 + rank%250.
    assert_eq!(code_for_rank(0), [glyph::KO_PREFIXES[0], 0x01]);
    assert_eq!(code_for_rank(249), [glyph::KO_PREFIXES[0], 0xFA]);
    assert_eq!(code_for_rank(250), [glyph::KO_PREFIXES[1], 0x01]);
    assert_eq!(code_for_rank(500), [glyph::KO_PREFIXES[2], 0x01]);
    // glyph# 복원: prefix_index*PER + (base-1) == rank
    for rank in [0usize, 1, 249, 250, 499, 500, 734] {
        let [p, b] = code_for_rank(rank);
        let pidx = glyph::KO_PREFIXES.iter().position(|&x| x == p).unwrap();
        assert_eq!(pidx * glyph::PER_PREFIX + (b as usize - 1), rank);
    }
}

#[test]
fn defer_glyph_cap_accepts_over_capacity_and_keeps_length() {
    // 다중 프리픽스 용량(1000) 초과 distinct 한글: enforce는 실패, defer는 통과.
    let n = glyph::KO_MULTI_PREFIX_CAP as u32 + 100;
    let over: String = (0..n)
        .map(|i| char::from_u32(0xAC00 + i).unwrap())
        .collect();
    let texts = vec![over.clone()];

    assert!(KoEncoding::from_texts(&texts).is_err());
    let encoding = KoEncoding::from_texts_capped(&texts, false).unwrap();
    assert_eq!(encoding.glyph_count(), n as usize);

    // 초과분도 prefix가 순환 배정돼 인코딩되고, 한글은 code 값과 무관하게 2바이트다.
    let bytes = encode_translation_text(&over, &encoding).unwrap();
    assert_eq!(bytes.len(), n as usize * 2 + 1); // 각 음절 2바이트 + 말미 0x00
}

#[test]
fn money_glyph_inventory_finds_all_exact_matches() {
    let mut rom = vec![0u8; 0x20000];
    let glyph = [0x10, 0x28, 0x7C, 0x92, 0x7C, 0x10, 0x54, 0xFE];
    rom[0x19B55..0x19B55 + glyph::GLYPH_BYTES].copy_from_slice(&glyph);
    rom[0x1A000..0x1A000 + glyph::GLYPH_BYTES].copy_from_slice(&glyph);

    assert_eq!(
        find_exact_glyph_matches(&rom, &glyph),
        vec![0x19B55, 0x1A000]
    );
    assert_eq!(slot2_logical_address(0x19B55), 0x9B55);
    assert_eq!(slot2_logical_address(0x1A000), 0xA000);
}

#[test]
fn semantic_money_token_encodes_as_original_price_anchor() {
    let encoding = KoEncoding::from_texts(&["[money][end]".to_string()]).unwrap();
    let bytes = encode_translation_text("[money][end]", &encoding).unwrap();
    assert_eq!(bytes, vec![MONEY_TEXT_BYTE, 0x00]);
    assert_eq!(tag_counts("[money][br][end]"), tag_counts("金[br][end]"));
}

#[test]
fn literal_money_kanji_is_rejected_as_korean_residue() {
    let mut entry = staged("shop/test", "", "金이　모자라요[end]");
    entry.status = "needs_human_review".to_string();
    let err = validate_no_japanese_residue(&entry).unwrap_err();
    assert!(err.to_string().contains("Japanese residue '金'"));
}

#[test]
fn full_format_preserves_source_guard() {
    let plan = load_translation_plan(&one_file(TranslationOverride {
        jp: "ほのおで[br]とても[br]あついよ。[wait][end]".to_string(),
        bytes_hex: "2C 27 13 FC 21 FF 22 21 31 FF 0F 20 10 34 0E FD 00".to_string(),
        source_crc32: "F23A4069".to_string(),
        status: "done".to_string(),
        notes: "test".to_string(),
        ..translation("region/0/001", "마도[br]마도[br]마도[wait][end]")
    }))
    .unwrap();
    assert_eq!(plan.encoded.len(), 1);
    let source = plan.encoded[0].source.as_ref().unwrap();
    assert_eq!(source.bytes.len(), 17);
    assert_eq!(source.crc32, Some(0xF23A_4069));
}

#[test]
fn rejects_source_crc_mismatch() {
    let err = load_translation_plan(&one_file(TranslationOverride {
        bytes_hex: "01 00".to_string(),
        source_crc32: "00000000".to_string(),
        ..translation("cutscene/002", "마도[end]")
    }))
    .unwrap_err();
    assert!(err.to_string().contains("source_crc32 mismatch"));
}

#[test]
fn rejects_control_tag_mismatch_when_jp_is_present() {
    let err = load_translation_plan(&one_file(TranslationOverride {
        jp: "お[br]ば[end]".to_string(),
        ..translation("cutscene/002", "마도[end]")
    }))
    .unwrap_err();
    assert!(err.to_string().contains("control tag mismatch"));
}

#[test]
fn rejects_reordered_control_tags_even_when_counts_match() {
    let err = check_control_tags(
        "cutscene/reordered",
        "お[br]ば[wait][end]",
        "마[wait]도[br][end]",
    )
    .unwrap_err();
    assert!(err.to_string().contains("control tag order mismatch"));
}

#[test]
fn preview_plan_checks_status() {
    let candidate = |status: &str| {
        one_file(TranslationOverride {
            status: status.to_string(),
            ..translation("cutscene/002", "마도[end]")
        })
    };
    let preview = load_human_review_preview_plan(&candidate("needs_human_review")).unwrap();
    assert_eq!(preview.encoded.len(), 1);
    let err = load_human_review_preview_plan(&candidate("needs_review")).unwrap_err();
    assert!(err
        .to_string()
        .contains("requires status=needs_human_review"));
}

#[test]
fn check_terms_accepts_raw_stage_refs_and_aliases() {
    let raws = raw_stage(vec![raw(
        "region/1/00E",
        "『ダイア[br]　　キュート』の　じゅもん[wait][end]",
    )]);
    let terms = terms_file(vec![TermEntry {
        aliases: vec!["ダイヤキュート".to_string()],
        ..spell("ダイアキュート", "다이아큐트", "region/1/00E")
    }]);
    check_terms_file(&terms).unwrap();
    check_terms(&terms, &raws).unwrap();
}

#[test]
fn check_terms_rejects_missing_or_stale_refs() {
    let raws = raw_stage(vec![raw("region/0/003", "ファイヤー[end]")]);
    let terms = terms_file(vec![spell("アイスストーム", "아이스스톰", "region/0/003")]);
    check_terms_file(&terms).unwrap();
    let err = check_terms(&terms, &raws).unwrap_err();
    assert!(err.to_string().contains("does not contain"));
}

#[test]
fn check_stage_accepts_needs_review_entry_with_stable_term() {
    let raws = raw_stage(vec![RawTextEntry {
        kind: Some("region".to_string()),
        region: Some(0),
        index: Some(3),
        offset: Some("0x1C066".to_string()),
        len: Some(6),
        bytes_hex: "61 74 47 69 82 00".to_string(),
        source_crc32: "364851B1".to_string(),
        ..raw("region/0/003", "ファイヤー[end]")
    }]);
    let list = batch(StageTranslationEntry {
        kind: Some("region".to_string()),
        region: Some(0),
        index: Some(3),
        offset: Some("0x1C066".to_string()),
        len: Some(6),
        bytes_hex: "61 74 47 69 82 00".to_string(),
        source_crc32: "364851B1".to_string(),
        notes: "stable spell term".to_string(),
        ..staged("region/0/003", "ファイヤー[end]", "파이어[end]")
    });
    let terms = terms_file(vec![spell("ファイヤー", "파이어", "region/0/003")]);
    let stage = Some("needs_review".to_string());
    check_stage(&list, &stage, "needs_review", &raws, &terms.entries, false).unwrap();
}

#[test]
fn stable_ref_only_term_avoids_substring_collisions() {
    let terms = terms_file(vec![TermEntry {
        category: "character".to_string(),
        jp: "リン".to_string(),
        ko: "린".to_string(),
        status: "project_decision".to_string(),
        source: String::new(),
        notes: String::new(),
        aliases: Vec::new(),
        refs: vec!["region/6/03D".to_string()],
        match_refs_only: true,
    }]);
    check_term_usage(
        &terms.entries,
        "region/0/007",
        "ヒーリング[end]",
        "힐링[end]",
    )
    .unwrap();
    check_term_usage(
        &terms.entries,
        "region/6/03D",
        "リンちゃん[end]",
        "린이야[end]",
    )
    .unwrap();
    let err = check_term_usage(
        &terms.entries,
        "region/6/03D",
        "リンちゃん[end]",
        "요정이야[end]",
    )
    .unwrap_err();
    assert!(err.to_string().contains("must use 린"));
}

/// The raw script and the term of the stage tests.
fn fire() -> (Vec<RawTextEntry>, TermsFile) {
    let raws = raw_stage(vec![RawTextEntry {
        bytes_hex: "61 74 47 69 82 00".to_string(),
        source_crc32: "364851B1".to_string(),
        ..raw("region/0/003", "ファイヤー[end]")
    }]);
    let terms = terms_file(vec![spell("ファイヤー", "파이어", "region/0/003")]);
    (raws, terms)
}

#[test]
fn check_stage_rejects_protected_field_change() {
    let (raws, terms) = fire();
    let list = batch(StageTranslationEntry {
        bytes_hex: "61 74 47 69 82 00".to_string(),
        source_crc32: "364851B1".to_string(),
        notes: "bad protected field".to_string(),
        ..staged("region/0/003", "ヒーリング[end]", "파이어[end]")
    });
    let stage = Some("needs_review".to_string());
    let err =
        check_stage(&list, &stage, "needs_review", &raws, &terms.entries, false).unwrap_err();
    assert!(err.to_string().contains("protected field mismatch"));
}

#[test]
fn check_stage_rejects_stable_term_drift() {
    let (raws, terms) = fire();
    let list = batch(StageTranslationEntry {
        bytes_hex: "61 74 47 69 82 00".to_string(),
        source_crc32: "364851B1".to_string(),
        notes: "term drift".to_string(),
        ..staged("region/0/003", "ファイヤー[end]", "불꽃[end]")
    });
    let stage = Some("needs_review".to_string());
    let err =
        check_stage(&list, &stage, "needs_review", &raws, &terms.entries, false).unwrap_err();
    assert!(err.to_string().contains("stable term"));
}

#[test]
fn check_surfaces_accepts_complete_shop_coverage_and_unverified_hud() {
    let raws = shop_raws(12, "金[end]", "0C 00");
    let catalog = surface_catalog(12);
    check_surface_catalog(&catalog).unwrap();
    check_surfaces(&catalog.surfaces, &raws).unwrap();
}

#[test]
fn check_surfaces_rejects_missing_shop_surface() {
    let raws = shop_raws(12, "金[end]", "0C 00");
    let catalog = surface_catalog(11);
    check_surface_catalog(&catalog).unwrap();
    let err = check_surfaces(&catalog.surfaces, &raws).unwrap_err();
    assert!(err.to_string().contains("shop/11"));
}

#[test]
fn check_surfaces_release_readiness_rejects_blockers() {
    let raws = shop_raws(12, "金[end]", "0C 00");
    let catalog = surface_catalog(12);
    let report = check_surfaces(&catalog.surfaces, &raws).unwrap();
    let err = require_surfaces_ready(&report).unwrap_err();
    let err = err.to_string();
    assert!(err.contains("surface release readiness failed"));
    assert!(err.contains("shop/00"));
    assert!(err.contains("hud/money-unit"));
}

#[test]
fn check_surfaces_release_readiness_accepts_verified_catalog() {
    let raws = shop_raws(12, "金[end]", "0C 00");
    let catalog = ready_surface_catalog(12);
    let report = check_surfaces(&catalog.surfaces, &raws).unwrap();
    require_surfaces_ready(&report).unwrap();
}

#[test]
fn check_money_sources_accepts_shop_money_byte_and_font_candidate() {
    let raws = shop_raws(12, "金[end]", "0C 00");
    let mut rom = vec![0u8; glyph::FONT_BASE + glyph::GLYPH_BYTES * 16];
    let off = glyph::FONT_BASE + glyph::font_index(MONEY_TEXT_BYTE) * glyph::GLYPH_BYTES;
    rom[off..off + glyph::GLYPH_BYTES]
        .copy_from_slice(&[0x18, 0x7E, 0x3C, 0xFF, 0x18, 0x3C, 0x66, 0x00]);
    let duplicate = off + glyph::GLYPH_BYTES * 3;
    rom[duplicate..duplicate + glyph::GLYPH_BYTES]
        .copy_from_slice(&[0x18, 0x7E, 0x3C, 0xFF, 0x18, 0x3C, 0x66, 0x00]);
    let report = check_money_sources(&rom, &raws).unwrap();
    assert_eq!(report.exact_matches, vec![off, duplicate]);
}

#[test]
fn check_money_sources_rejects_shop_without_money_byte() {
    let raws = shop_raws(12, "ふふふ[end]", "2A 2A 2A 00");
    let mut rom = vec![0u8; glyph::FONT_BASE + glyph::GLYPH_BYTES * 16];
    let off = glyph::FONT_BASE + glyph::font_index(MONEY_TEXT_BYTE) * glyph::GLYPH_BYTES;
    rom[off..off + glyph::GLYPH_BYTES]
        .copy_from_slice(&[0x18, 0x7E, 0x3C, 0xFF, 0x18, 0x3C, 0x66, 0x00]);
    let err = check_money_sources(&rom, &raws).unwrap_err();
    assert!(err.to_string().contains("money text byte"));
}
