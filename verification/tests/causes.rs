use madoua_kr::error::PatchError;
use madoua_kr::hexbytes::parse_hex_bytes;
use madoua_kr::ko_text::{encode_translation_text, KoEncoding};
use madoua_kr::parse::read_uint;
use madoua_kr::pointers::{read_u16_le, region_table_addr, REGION_LOC_TABLE};
use madoua_kr::runtime_probe::{
    parse_address, parse_crc32, validate_probe_requirement, ProbeRequirement,
};
use madoua_kr::runtime_scene::{validate_runtime_scene, RuntimeScene};
use madoua_kr::script::{entry, extract_shop, raw_entry_bytes, ScriptEntry, ScriptKind};
use madoua_kr::stage::{validate_stage_entry, StageTranslationEntry};
use madoua_kr::raw_text::RawTextEntry;
use madoua_kr::translation::{
    load_translation_plan, parse_optional_crc32, source_guard, TranslationInput,
    TranslationOverride,
};

const BAD_DIGIT: &str = "invalid digit found in string";

/// The message of an error and those of what led to it.
fn chain(e: PatchError) -> Vec<String> {
    let mut lines = vec![e.to_string()];
    lines.extend(e.causes().iter().cloned());
    lines
}

fn chars(s: &str) -> Vec<char> {
    s.chars().collect()
}

#[test]
fn numbers_fail_with_the_words_of_std() {
    for s in ["", "+", "-", "-1", "zz", "1z", "1FF", "100", "1000z", "FFFz", "가", "+가", "  1"] {
        assert_eq!(
            read_uint(&chars(s), 16, 0xFF).unwrap_err().to_string(),
            u8::from_str_radix(s, 16).unwrap_err().to_string(),
            "{s}"
        );
    }
    for s in ["", "+", "4294967296", "42949672960z", "z4294967296", "1 "] {
        assert_eq!(
            read_uint(&chars(s), 10, 0xFFFF_FFFF).unwrap_err().to_string(),
            s.parse::<u32>().unwrap_err().to_string(),
            "{s}"
        );
    }
    assert_eq!(read_uint(&chars("+7F"), 16, 0xFF).unwrap(), 0x7F);
}

#[test]
fn numbers_are_causes() {
    assert_eq!(
        chain(parse_hex_bytes("00 0G").unwrap_err()),
        ["invalid byte token: 0G", BAD_DIGIT]
    );
    assert_eq!(
        chain(parse_hex_bytes("000").unwrap_err()),
        ["invalid byte token: 000"]
    );
    assert_eq!(
        chain(parse_crc32("0000000G").unwrap_err()),
        ["CRC32 파싱 실패: 0000000G", BAD_DIGIT]
    );
    assert_eq!(
        chain(parse_optional_crc32("0000000G").unwrap_err()),
        ["CRC32 파싱 실패: 0000000G", BAD_DIGIT]
    );
    assert_eq!(
        chain(parse_address("$").unwrap_err()),
        ["hex 파싱 실패: $", "cannot parse integer from empty string"]
    );
    assert_eq!(
        chain(parse_address("4294967296").unwrap_err()),
        [
            "decimal 파싱 실패: 4294967296",
            "number too large to fit in target type"
        ]
    );
    assert_eq!(chain(parse_address(" ").unwrap_err()), ["빈 숫자"]);
    let none = KoEncoding::from_texts(&[]).unwrap();
    assert_eq!(
        chain(encode_translation_text("[raw:zz]", &none).unwrap_err()),
        ["hex 파싱 실패: zz", BAD_DIGIT]
    );
}

fn probe(address: &str) -> ProbeRequirement {
    ProbeRequirement {
        id: "p".to_string(),
        kind: "logical_read_bp".to_string(),
        memory_type: Some("smsMemory".to_string()),
        address: Some(address.to_string()),
        end: None,
        value: None,
        value_len: None,
        value_mask: None,
        pc_min: None,
        pc_max: None,
        install_phase: None,
        bank_snapshot: None,
        valid_when: None,
        notes: "n".to_string(),
    }
}

#[test]
fn probes_say_why_a_number_is_refused() {
    let fault = |p: ProbeRequirement| chain(validate_probe_requirement("s", &p).unwrap_err());
    assert_eq!(
        fault(probe("0xZZ")),
        ["s: probe p address 파싱 실패: 0xZZ", "hex 파싱 실패: 0xZZ", BAD_DIGIT]
    );
    assert_eq!(
        fault(ProbeRequirement { end: Some(" ".to_string()), ..probe("1") }),
        ["s: probe p end 파싱 실패:  ", "빈 숫자"]
    );
    let on_bank = |s: &str| ProbeRequirement {
        bank_snapshot: Some(s.to_string()),
        valid_when: Some("slot1=1".to_string()),
        ..probe("1")
    };
    assert_eq!(
        fault(on_bank("smsMemory:q:2")),
        [
            "s: probe p bank_snapshot address 파싱 실패: q",
            "decimal 파싱 실패: q",
            BAD_DIGIT
        ]
    );
}

#[test]
fn scenes_say_why_a_checksum_is_refused() {
    let scene = RuntimeScene {
        id: "s".to_string(),
        status: "active".to_string(),
        rom: Some("r".to_string()),
        screenshot: Some("p.png".to_string()),
        frames: None,
        replay: None,
        expected_crc32: Some("12".to_string()),
        candidate_route: None,
        probe_requirements: Vec::new(),
        notes: "n".to_string(),
    };
    assert_eq!(
        chain(validate_runtime_scene(&scene).unwrap_err()),
        ["s expected_crc32", "CRC32는 8자리 hex여야 함: 12"]
    );
}

#[test]
fn scripts_say_why_they_cannot_be_read() {
    let e = ScriptEntry {
        bytes_hex: "1".to_string(),
        ..entry(ScriptKind::Shop, None, 0, 2, 0, &[0])
    };
    assert_eq!(
        chain(raw_entry_bytes(&e).unwrap_err()),
        ["shop/00 bytes_hex", "invalid byte token: 1"]
    );
    assert_eq!(
        chain(extract_shop(&[]).unwrap_err()),
        ["shop 00 at 0x25BB7", "script offset out of ROM: 0x25BB7"]
    );
    let mut rom = vec![0u8; REGION_LOC_TABLE + 2];
    rom[REGION_LOC_TABLE + 1] = 0x40;
    assert_eq!(
        chain(region_table_addr(&rom, 0).unwrap_err()),
        [
            "region 0 resource pointer".to_string(),
            read_u16_le(&rom, 0x40 * 0x4000 + 4).unwrap_err().to_string()
        ]
    );
}

fn override_of(ko: &str, bytes_hex: &str, source_crc32: &str) -> TranslationOverride {
    TranslationOverride {
        id: "shop/00".to_string(),
        jp: String::new(),
        bytes_hex: bytes_hex.to_string(),
        source_crc32: source_crc32.to_string(),
        ko: ko.to_string(),
        status: String::new(),
        notes: String::new(),
        skip: false,
    }
}

#[test]
fn translations_say_why_they_are_refused() {
    assert_eq!(
        chain(source_guard(&override_of("가", "0G", "")).unwrap_err()),
        ["shop/00 bytes_hex", "invalid byte token: 0G", BAD_DIGIT]
    );
    assert_eq!(
        chain(source_guard(&override_of("가", "00", "1")).unwrap_err()),
        ["shop/00 source_crc32", "CRC32는 8자리 hex여야 함: 1"]
    );
    let plan = load_translation_plan(&[TranslationInput {
        path: "t.json".to_string(),
        entries: vec![override_of("가龘", "", "")],
    }]);
    let Err(e) = plan else {
        panic!("a character without a code must be refused");
    };
    let lines = chain(e);
    assert_eq!(lines[0], "shop/00 인코딩 실패");
    assert!(lines[1].starts_with("지원하지 않는 문자 '龘'"));
    assert_eq!(lines.len(), 2);
}

#[test]
fn stages_say_why_a_source_is_refused() {
    let staged = StageTranslationEntry {
        id: "region/0/003".to_string(),
        kind: None,
        region: None,
        index: None,
        offset: None,
        len: None,
        jp: "あ[br]い[end]".to_string(),
        bytes_hex: "10 11".to_string(),
        source_crc32: "00000000".to_string(),
        ko: "가[br]나[end]".to_string(),
        status: "needs_review".to_string(),
        notes: "test".to_string(),
        skip: false,
    };
    let raw = RawTextEntry {
        id: staged.id.clone(),
        kind: None,
        region: None,
        index: None,
        offset: None,
        len: None,
        jp: staged.jp.clone(),
        bytes_hex: staged.bytes_hex.clone(),
        source_crc32: staged.source_crc32.clone(),
    };
    let stage = Some("needs_review".to_string());
    let encoding = KoEncoding::from_texts(&[staged.ko.clone()]).unwrap();
    let lines = chain(
        validate_stage_entry("p.json", &stage, &staged, &raw, &[], &encoding).unwrap_err(),
    );
    assert_eq!(lines[0], "region/0/003: source/control validation failed");
    assert_eq!(
        lines[1],
        format!(
            "region/0/003 source_crc32 mismatch: metadata 00000000 vs bytes {:08X}",
            crc32fast::hash(&[0x10, 0x11])
        )
    );
    assert_eq!(lines.len(), 2);
}
