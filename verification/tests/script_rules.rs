use madoua_kr::font::{GlyphFont, Raster};
use madoua_kr::glyph;
use madoua_kr::mapper::SegaMapper;
use madoua_kr::pointers::{
    cutscene_pointer_offset, find_largest_ff_run, physical_to_slot_pointer, read_u16_le,
    region_pointer_offset, slot_pointer_to_physical,
};
use madoua_kr::rom::compare_source;
use madoua_kr::scan::{
    byte_frequency, count_files, format_byte_ranges, summarize_prefix, survey_free_space,
    ScriptRange,
};
use madoua_kr::script::{
    describe_extract, entry, raw_entry_bytes, read_script_bytes, stage_entry, validate_counts,
    validate_entries_against_rom, validate_extract, ScriptEntry, ScriptKind,
};
use madoua_kr::script_bins::{
    build_region_repack_bin, build_slot_tabled_bin, entries_for_kind, verify_slot_tabled_bin,
};
use madoua_kr::script_callers::physical_to_debug_logical;
use madoua_kr::stage_files::{
    complete_stage_dir, named_stage_dir, raw_stage_dir, raw_stage_file, stage_name_for_path,
    StageDir,
};
use madoua_kr::surfaces::refuse_if_blocked;
use madoua_kr::terms::{validate_term_entry, TermEntry};
use madoua_kr::translation::{
    compare_source_crc32, load_translation_overrides, parse_optional_crc32, TranslationInput,
    TranslationOverride, TranslationSource,
};
use madoua_kr::ui_report::split_labels;
use madoua_kr::z80::{check_handler_room, ko_handler_call, ko_handler_jump, ko_handler_program, Op};

fn shop(index: usize, bytes: &[u8]) -> ScriptEntry {
    entry(ScriptKind::Shop, None, index, 2, 0x100 + 16 * index, bytes)
}

fn translation(id: &str) -> TranslationOverride {
    TranslationOverride {
        id: id.to_string(),
        jp: String::new(),
        bytes_hex: String::new(),
        source_crc32: String::new(),
        ko: String::new(),
        status: String::new(),
        notes: String::new(),
        skip: false,
    }
}

#[test]
fn scripts_that_do_not_end_are_refused() {
    let message = |rom: &[u8], at: usize| read_script_bytes(rom, at).unwrap_err().to_string();
    assert_eq!(message(&[1], 1), "script offset out of ROM: 0x00001");
    assert_eq!(message(&[1, 2], 0), "unterminated script at 0x00000");
    assert_eq!(message(&[1, 0xFE], 0), "flags op at EOF: 0x00001");
}

#[test]
fn entries_describe_their_bytes() {
    let e = entry(ScriptKind::Region, Some(3), 0x2A, 1, 0x1C030, &[0x10, 0x00]);
    assert_eq!(e.id, "region/3/02A");
    assert_eq!(e.bytes_hex, "10 00");
    assert_eq!(e.len, 2);
    assert_eq!(e.source_crc32, format!("{:08X}", crc32fast::hash(&[0x10, 0x00])));
    assert_eq!(raw_entry_bytes(&e).unwrap(), [0x10, 0x00]);
    assert_eq!(entry(ScriptKind::Cutscene, None, 7, 2, 0, &[]).id, "cutscene/007");
    assert_eq!(shop(3, &[0]).id, "shop/03");
    let s = stage_entry(&e);
    assert_eq!((s.offset.as_str(), s.status.as_str(), s.ko.as_str()), ("0x1C030", "untranslated", ""));
}

#[test]
fn extracts_are_held_against_their_counts_and_rom() {
    let list = vec![shop(0, &[0x11, 0x00]), shop(1, &[0x12, 0x00])];
    let file = describe_extract(list, "a.gg", 9, 0xAB, "m".to_string());
    assert_eq!(file.rom.crc32, "000000AB");
    assert_eq!((file.counts.total, file.counts.shop, file.counts.regions), (2, 2, 0));
    validate_extract(&file).unwrap();
    let mut rom = vec![0u8; 0x200];
    rom[0x100..0x102].copy_from_slice(&[0x11, 0x00]);
    rom[0x110..0x112].copy_from_slice(&[0x12, 0x00]);
    validate_entries_against_rom(&file.entries, &rom).unwrap();
    rom[0x110] = 0x13;
    assert!(validate_entries_against_rom(&file.entries, &rom).is_err());
    let mut counts = file.counts;
    counts.total = 3;
    assert_eq!(
        validate_counts(&counts, &file.entries).unwrap_err().to_string(),
        "count mismatch: total 3 vs entries 2"
    );
    let mut other = describe_extract(Vec::new(), "a.gg", 9, 0xAB, String::new());
    other.format = "x".to_string();
    assert_eq!(
        validate_extract(&other).unwrap_err().to_string(),
        "지원하지 않는 extract format: x"
    );
}

#[test]
fn selections_are_sorted_and_complete() {
    let list = vec![shop(1, &[0]), shop(0, &[0])];
    let found = entries_for_kind(&list, ScriptKind::Shop, 2).unwrap();
    assert_eq!(found.iter().map(|e| e.index).collect::<Vec<_>>(), [0, 1]);
    assert_eq!(
        entries_for_kind(&list, ScriptKind::Shop, 3).unwrap_err().to_string(),
        "Shop count mismatch: 2 vs 3"
    );
    let list = vec![shop(2, &[0]), shop(0, &[0])];
    assert_eq!(
        entries_for_kind(&list, ScriptKind::Shop, 2).unwrap_err().to_string(),
        "Shop index mismatch at position 1: 2"
    );
}

#[test]
fn raw_files_hold_untranslated_scripts() {
    let list: Vec<ScriptEntry> = (0..12).rev().map(|i| shop(i, &[0x10, 0x00])).collect();
    let file = raw_stage_file(&list, 12).unwrap();
    assert_eq!((file.name.as_str(), file.description.as_str()), ("shop.json", "shop raw extract"));
    assert_eq!(file.entries.len(), 12);
    assert_eq!(file.entries[0].id, "shop/00");
    assert_eq!(
        raw_stage_file(&list, 3).unwrap_err().to_string(),
        "region 3 count mismatch: 0 vs 44"
    );
}

#[test]
fn stages_are_found_by_name() {
    let dirs = |names: &[&str]| names.iter().map(|n| n.to_string()).collect::<Vec<_>>();
    assert_eq!(
        stage_name_for_path(&dirs(&["raw", "x", "complete", "y"])),
        Some("complete".to_string())
    );
    assert_eq!(stage_name_for_path(&dirs(&["x"])), None);
    assert_eq!(complete_stage_dir("p", Some("complete"), true, true).unwrap(), StageDir::Itself);
    assert_eq!(complete_stage_dir("p", Some("q"), true, true).unwrap(), StageDir::UnderScripts);
    assert_eq!(raw_stage_dir("p", None, false, true).unwrap(), StageDir::Direct);
    assert!(complete_stage_dir("p", None, false, false).unwrap_err().to_string().contains("scripts/complete"));
    assert!(raw_stage_dir("p", None, false, false).unwrap_err().to_string().contains("scripts/raw"));
    assert_eq!(
        named_stage_dir("p", None, "needs_human_review", false, false).unwrap_err().to_string(),
        "p is not a needs_human_review translation input; pass that stage directly or its workflow root"
    );
}

#[test]
fn pointers_lead_there_and_back() {
    for offset in [0x18000usize, 0x19ABC, 0x1BFFF] {
        let ptr = physical_to_slot_pointer(0x18000, offset, 0x8000).unwrap();
        assert_eq!(slot_pointer_to_physical(0x18000, ptr, 0x8000).unwrap(), offset);
    }
    assert_eq!(
        physical_to_slot_pointer(0x18000, 0x1C000, 0x8000).unwrap_err().to_string(),
        "physical offset 0x1C000 outside bank base 0x18000"
    );
    assert_eq!(
        slot_pointer_to_physical(0, 0x3FFF, 0x4000).unwrap_err().to_string(),
        "slot pointer $3FFF below slot base $4000"
    );
    assert!(read_u16_le(&[1], 0).is_err());
    assert!(cutscene_pointer_offset(168).is_err());
    assert_eq!(
        region_pointer_offset(&[], 11, 0).unwrap_err().to_string(),
        "region out of range: 11"
    );
    assert_eq!(find_largest_ff_run(&[0xFF, 0, 0xFF, 0xFF, 0], 0, 5), Some((2, 4)));
    assert_eq!(find_largest_ff_run(&[0], 0, 1), None);
    for offset in [0usize, 0x4001, 0x7FFFF] {
        let (bank, at) = SegaMapper::physical_to_bank(offset);
        assert_eq!(SegaMapper::bank_range(bank).start + at as usize, offset);
    }
}

#[test]
fn repacked_banks_need_a_pointer_for_each_string() {
    let err = build_region_repack_bin(&[vec![0]], &[], 0x10).unwrap_err();
    assert_eq!(err.to_string(), "build_region_repack_bin: strings(1) != orig_pointers(0)");
    let err = build_region_repack_bin(&[vec![1; 0xC000], vec![1]], &[0, 0], 0x10).unwrap_err();
    assert_eq!(err.to_string(), "region repack 포인터 오버플로우: 0x10014");
}

#[test]
fn bytes_are_counted_and_listed() {
    let range = |file: &str, offset: usize, len: usize| ScriptRange {
        file: file.to_string(),
        offset,
        len,
    };
    let freq = byte_frequency(&[5, 5, 7], &[range("a", 0, 2), range("b", 1, 2)]).unwrap();
    let summary = summarize_prefix(&freq);
    assert_eq!(summary.total, 4);
    assert_eq!(summary.used, [5, 7]);
    assert_eq!(summary.free.len(), 254);
    assert_eq!(summary.free_safe.len(), 248);
    assert_eq!(summary.top, [(5, 3), (7, 1)]);
    assert_eq!(count_files(&[range("a", 0, 0), range("b", 0, 0), range("a", 1, 0)]), 2);
    assert!(byte_frequency(&[1], &[range("a", 0, 2)]).is_err());
    assert!(byte_frequency(&[1], &[range("a", usize::MAX, 1)]).is_err());
    assert_eq!(format_byte_ranges(&[]), "(none)");
    assert_eq!(format_byte_ranges(&[9, 1, 2, 3, 0xFF, 2]), "01-03, 09, FF");
}

#[test]
fn free_space_is_surveyed() {
    let survey = survey_free_space(&[0xFF, 0xFF, 1, 0, 0, 0, 1, 0xFF], 2);
    assert_eq!((survey.ones.count, survey.ones.total), (1, 2));
    assert_eq!((survey.zeros.count, survey.zeros.total), (1, 3));
    assert_eq!(survey.total, 5);
    assert_eq!(survey.zeros.longest[0].offset, 3);
}

#[test]
fn glyph_cells_are_centred_and_cut_off() {
    let font = |width: usize, height: usize, x_off: i32, y_off: i32| GlyphFont {
        rasters: vec![Raster { ch: '가', width, height, coverage: vec![200; width * height] }],
        threshold: 128,
        x_off,
        y_off,
    };
    assert_eq!(font(2, 2, 0, 0).render('가'), [0, 0, 0, 0x18, 0x18, 0, 0, 0]);
    assert_eq!(font(1, 1, 0, 0).render('가'), [0, 0, 0, 0x10, 0, 0, 0, 0]);
    assert_eq!(font(10, 10, 0, 0).render('가'), [0xFF; 8]);
    assert_eq!(font(2, 2, 4, -4).render('가'), [0x01, 0, 0, 0, 0, 0, 0, 0]);
    assert_eq!(font(0, 0, 0, 0).render('가'), [0; 8]);
    assert_eq!(font(1, 1, 0, 0).find('나'), None);
    let faint = GlyphFont {
        rasters: vec![Raster { ch: '가', width: 1, height: 1, coverage: vec![127] }],
        threshold: 128,
        x_off: 0,
        y_off: 0,
    };
    assert_eq!(faint.render('가'), [0; 8]);
    assert!(glyph::to_ascii(&[0x80; 8]).starts_with("#.......\n"));
}

#[test]
fn sources_are_compared() {
    let source = TranslationSource { bytes: vec![1, 0], crc32: Some(5) };
    compare_source("x", &[1, 0], 5, &source).unwrap();
    assert_eq!(
        compare_source("x", &[1, 0], 6, &source).unwrap_err().to_string(),
        "x: translation source CRC32 mismatch: metadata 00000005 vs ROM 00000006"
    );
    assert!(compare_source("x", &[2, 0], 5, &source).is_err());
    compare_source_crc32("x", 1, 1).unwrap();
    assert_eq!(
        compare_source_crc32("x", 1, 2).unwrap_err().to_string(),
        "x source_crc32 mismatch: metadata 00000001 vs bytes 00000002"
    );
    assert_eq!(parse_optional_crc32(" ").unwrap(), None);
    assert_eq!(parse_optional_crc32("$0000000a").unwrap(), Some(10));
    assert!(parse_optional_crc32("12").is_err());
}

#[test]
fn names_of_translations_are_unique() {
    let file = |path: &str, ids: &[&str]| TranslationInput {
        path: path.to_string(),
        entries: ids.iter().map(|id| translation(id)).collect(),
    };
    let list = load_translation_overrides(&[file("a", &["x"]), file("b", &["y"])]).unwrap();
    assert_eq!(list.len(), 2);
    assert_eq!(
        load_translation_overrides(&[file("a", &["x"]), file("b", &["x"])]).unwrap_err().to_string(),
        "중복 translation id: x (a and b)"
    );
    assert_eq!(
        load_translation_overrides(&[file("a", &[" "])]).unwrap_err().to_string(),
        "a: 빈 translation id"
    );
}

#[test]
fn terms_are_checked() {
    let term = || TermEntry {
        category: "c".to_string(),
        jp: "j".to_string(),
        ko: "k".to_string(),
        status: "tentative".to_string(),
        source: String::new(),
        notes: String::new(),
        aliases: Vec::new(),
        refs: vec!["r".to_string()],
        match_refs_only: false,
    };
    validate_term_entry(&term()).unwrap();
    let message = |t: TermEntry| validate_term_entry(&t).unwrap_err().to_string();
    assert_eq!(message(TermEntry { category: " ".into(), ..term() }), "j: 빈 category");
    assert_eq!(message(TermEntry { jp: " ".into(), ..term() }), "빈 jp 용어");
    assert_eq!(message(TermEntry { ko: "".into(), ..term() }), "j: 빈 ko 용어");
    assert!(message(TermEntry { refs: vec![], ..term() }).starts_with("j: raw refs가"));
    assert!(validate_term_entry(&TermEntry { status: "x".into(), ..term() }).is_err());
}

#[test]
fn small_rules() {
    assert_eq!(split_labels("가, 나 ,"), ["가", "나", ""]);
    assert_eq!(physical_to_debug_logical(0x1A01C), (6, "slot2", 0xA01C));
    assert_eq!(physical_to_debug_logical(0x100), (0, "slot0", 0x100));
    refuse_if_blocked("p:\n", &[]).unwrap();
    let err = refuse_if_blocked("p:\n", &["a".to_string(), "b".to_string()]).unwrap_err();
    assert_eq!(err.to_string(), "p:\na\nb");
    assert_eq!(ko_handler_call(), Op::Call(0xB726));
    assert_eq!(ko_handler_jump(), Op::Jp(0xB726));
    assert_eq!(ko_handler_program().last(), Some(&Op::Ret));
    check_handler_room(&[0; 256]).unwrap();
    assert_eq!(
        check_handler_room(&[0; 257]).unwrap_err().to_string(),
        "한글 글리프 훅 핸들러가 예약 공간(256B)을 초과: 257B"
    );
}

#[test]
fn a_changed_byte_behind_the_table_is_found() {
    let entries: Vec<ScriptEntry> = (0..3)
        .map(|i| entry(ScriptKind::Region, Some(0), i, 1, 0x100, &[0x10 + i as u8, 0x00]))
        .collect();
    let refs: Vec<&ScriptEntry> = entries.iter().collect();
    let bin = build_slot_tabled_bin(&refs, 0x4000, 0x10).unwrap();
    verify_slot_tabled_bin(&bin, &refs, 0x4000, 0x10).unwrap();
    for at in 6..bin.len() {
        let mut other = bin.clone();
        other[at] ^= 0x01;
        assert!(verify_slot_tabled_bin(&other, &refs, 0x4000, 0x10).is_err());
    }
}
