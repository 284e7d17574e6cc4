use madoua_kr::hexbytes::parse_hex_bytes;
use madoua_kr::jp_text::{decode_preview, encode_jp_char};
use madoua_kr::mapper::BANK_SIZE;
use madoua_kr::pointers::{
    cutscene_pointer_for_physical, cutscene_pointer_offset, region_bank_base_for_region,
    region_pointer_for_physical, region_pointer_offset, region_relocation_start,
    region_table_addr, slot_pointer_to_physical, CUTSCENE_POINTER_TABLE, REGION_LOC_TABLE,
    SLOT1_BASE, SLOT2_BASE,
};
use madoua_kr::script::{read_script_bytes, ScriptEntry, ScriptKind};
use madoua_kr::script_bins::{
    build_region_repack_bin, build_slot_tabled_bin, build_tabled_bin, verify_slot_tabled_bin,
    verify_tabled_bin,
};
use madoua_kr::script_callers::{scan_script_callers, Decoded, Immediate};

/// A decoded `LD r, n`.
fn load(register: &str, value: u16) -> Decoded {
    Decoded::Instruction {
        length: 2,
        text: format!("LD {register}, ${value:02X}"),
        immediate: Some(Immediate {
            register: register.to_string(),
            value,
            wide: false,
        }),
    }
}

/// A decoded jump or call.
fn branch(text: &str) -> Decoded {
    Decoded::Instruction {
        length: 3,
        text: text.to_string(),
        immediate: None,
    }
}

#[test]
fn flags_param_zero_does_not_terminate_script() {
    let rom = [0xFE, 0x00, 0x10, 0x00];
    assert_eq!(read_script_bytes(&rom, 0).unwrap(), rom);
}

#[test]
fn decodes_controls_and_dakuten_pairs() {
    let bytes = [0xFC, 0x14, 0xFF, 0xFE, 0x2A, 0x00];
    assert_eq!(decode_preview(&bytes), "が[br][flags]<$2A>[end]");
}

#[test]
fn computes_region_table_address_from_resource_table() {
    let mut rom = vec![0xFF; 0x20000];
    rom[REGION_LOC_TABLE] = 0x15;
    rom[REGION_LOC_TABLE + 1] = 0x07;
    let bank_base = 0x07 * BANK_SIZE;
    rom[bank_base + 4 + 0x15 * 2..bank_base + 6 + 0x15 * 2]
        .copy_from_slice(&0x4826u16.to_le_bytes());
    assert_eq!(region_table_addr(&rom, 0).unwrap(), 0x1C826);
}

#[test]
fn slot_pointer_conversion_respects_slot_base() {
    assert_eq!(
        slot_pointer_to_physical(0x18000, 0xA66D, SLOT2_BASE).unwrap(),
        0x1A66D
    );
    assert_eq!(cutscene_pointer_for_physical(0x1B790).unwrap(), 0xB790);
    assert_eq!(
        cutscene_pointer_offset(2).unwrap(),
        CUTSCENE_POINTER_TABLE + 4
    );
}

#[test]
fn region_pointer_helpers_resolve_resource_table() {
    let mut rom = vec![0xFF; 0x20000];
    rom[REGION_LOC_TABLE] = 0x15;
    rom[REGION_LOC_TABLE + 1] = 0x07;
    let bank_base = 0x07 * BANK_SIZE;
    rom[bank_base + 4 + 0x15 * 2..bank_base + 6 + 0x15 * 2]
        .copy_from_slice(&0x4800u16.to_le_bytes());
    rom[bank_base + 0x0800..bank_base + 0x0802].copy_from_slice(&0x4030u16.to_le_bytes());

    assert_eq!(region_bank_base_for_region(&rom, 0).unwrap(), bank_base);
    assert_eq!(
        region_pointer_offset(&rom, 0, 0).unwrap(),
        bank_base + 0x0800
    );
    assert_eq!(
        region_pointer_for_physical(&rom, 0, bank_base + 0x3E6C).unwrap(),
        0x7E6C
    );
}

#[test]
fn region_relocation_start_uses_largest_ff_run_in_region_bank() {
    let mut rom = vec![0x00; 0x20000];
    rom[REGION_LOC_TABLE] = 0x15;
    rom[REGION_LOC_TABLE + 1] = 0x07;
    let bank_base = 0x07 * BANK_SIZE;
    rom[bank_base + 4 + 0x15 * 2..bank_base + 6 + 0x15 * 2]
        .copy_from_slice(&0x4800u16.to_le_bytes());
    rom[bank_base + 0x0100..bank_base + 0x0110].fill(0xFF);
    rom[bank_base + 0x0300..bank_base + 0x0330].fill(0xFF);

    assert_eq!(
        region_relocation_start(&rom, 0).unwrap(),
        bank_base + 0x0300
    );
}

#[test]
fn script_caller_scan_finds_bank6_slot2_anchors() {
    let mut rom = vec![0x00; BANK_SIZE * 7];
    let start = 6 * BANK_SIZE + 0x2018;
    rom[start..start + 10].copy_from_slice(&[
        0x3E, 0x02, // LD A,$02
        0x0E, 0x0F, // LD C,$0F
        0xCD, 0xE0, 0x98, // CALL $98E0
        0xC3, 0x0D, 0xA0, // JP $A00D
    ]);

    let mut decoded: Vec<Decoded> = rom
        .iter()
        .map(|_| Decoded::Instruction {
            length: 1,
            text: "NOP".to_string(),
            immediate: None,
        })
        .collect();
    decoded[start] = load("A", 0x02);
    decoded[start + 2] = load("C", 0x0F);
    decoded[start + 4] = branch("CALL $98E0");
    decoded[start + 7] = branch("JP $A00D");

    let hits = scan_script_callers(&rom, &decoded, 1);

    assert_eq!(hits.len(), 2);
    assert_eq!(hits[0].routine.name, "runScript");
    assert_eq!(hits[0].opcode, "CALL");
    assert_eq!(hits[0].physical, start + 4);
    assert_eq!(hits[0].bank, 6);
    assert_eq!(hits[0].slot, "slot2");
    assert_eq!(hits[0].logical, 0xA01C);
    assert!(
        hits[0]
            .immediate_clues
            .iter()
            .any(|clue| clue.ends_with("LD A, $02"))
    );
    assert!(
        hits[0]
            .immediate_clues
            .iter()
            .any(|clue| clue.ends_with("LD C, $0F"))
    );

    assert_eq!(hits[1].routine.name, "runTabledScript");
    assert_eq!(hits[1].opcode, "JP");
    assert_eq!(hits[1].physical, start + 7);
    assert_eq!(hits[1].logical, 0xA01F);
}

#[test]
fn slot_tabled_bin_roundtrips_entry_bytes_and_empty_entries() {
    let entries = vec![
        ScriptEntry {
            id: "region/0/000".to_string(),
            kind: ScriptKind::Region,
            region: Some(0),
            index: 0,
            slot: 1,
            offset: 0x100,
            len: 2,
            bytes_hex: "01 00".to_string(),
            source_crc32: String::new(),
            jp_preview: String::new(),
            ko: String::new(),
            skip: false,
        },
        ScriptEntry {
            id: "region/0/001".to_string(),
            kind: ScriptKind::Region,
            region: Some(0),
            index: 1,
            slot: 1,
            offset: 0,
            len: 0,
            bytes_hex: String::new(),
            source_crc32: String::new(),
            jp_preview: String::new(),
            ko: String::new(),
            skip: false,
        },
        ScriptEntry {
            id: "region/0/002".to_string(),
            kind: ScriptKind::Region,
            region: Some(0),
            index: 2,
            slot: 1,
            offset: 0x102,
            len: 3,
            bytes_hex: "10 FD 00".to_string(),
            source_crc32: String::new(),
            jp_preview: String::new(),
            ko: String::new(),
            skip: false,
        },
    ];
    let refs: Vec<&ScriptEntry> = entries.iter().collect();
    let bin = build_slot_tabled_bin(&refs, SLOT1_BASE, 0x10).unwrap();
    assert_eq!(&bin[..6], &[0x16, 0x40, 0x18, 0x40, 0x18, 0x40]);
    assert_eq!(&bin[6..], &[0x01, 0x00, 0x10, 0xFD, 0x00]);
    verify_slot_tabled_bin(&bin, &refs, SLOT1_BASE, 0x10).unwrap();
}

#[test]
fn tabled_bin_roundtrips_entry_bytes() {
    let entries = vec![
        ScriptEntry {
            id: "cutscene/000".to_string(),
            kind: ScriptKind::Cutscene,
            region: None,
            index: 0,
            slot: 2,
            offset: 0x200,
            len: 2,
            bytes_hex: "01 00".to_string(),
            source_crc32: String::new(),
            jp_preview: String::new(),
            ko: String::new(),
            skip: false,
        },
        ScriptEntry {
            id: "cutscene/001".to_string(),
            kind: ScriptKind::Cutscene,
            region: None,
            index: 1,
            slot: 2,
            offset: 0x202,
            len: 3,
            bytes_hex: "10 FD 00".to_string(),
            source_crc32: String::new(),
            jp_preview: String::new(),
            ko: String::new(),
            skip: false,
        },
    ];
    let refs: Vec<&ScriptEntry> = entries.iter().collect();
    let bin = build_tabled_bin(&refs).unwrap();
    assert_eq!(&bin[..4], &[0x04, 0x00, 0x06, 0x00]);
    assert_eq!(&bin[4..], &[0x01, 0x00, 0x10, 0xFD, 0x00]);
    verify_tabled_bin(&bin, &refs).unwrap();
}

#[test]
fn parse_hex_bytes_rejects_bad_tokens() {
    assert_eq!(parse_hex_bytes("0A ff").unwrap(), vec![0x0A, 0xFF]);
    assert!(parse_hex_bytes("0AF").is_err());
    assert!(parse_hex_bytes("GG").is_err());
}

#[test]
fn encodes_preview_jp_chars_back_to_bytes() {
    assert_eq!(encode_jp_char('お').unwrap(), vec![0x13]);
    assert_eq!(encode_jp_char('ば').unwrap(), vec![0xFC, 0x28]);
    assert_eq!(encode_jp_char('ヴ').unwrap(), vec![0xFC, 0x76]);
}

#[test]
fn repack_bin_preserves_special_empty_pointer() {
    let strings = vec![vec![0x10u8, 0x00], Vec::new(), vec![0x11u8, 0x00]];
    let orig = vec![0x4020u16, 0xC8BF, 0x4030];
    let bin = build_region_repack_bin(&strings, &orig, 0x10).unwrap();
    let e0 = u16::from_le_bytes([bin[0], bin[1]]);
    let e1 = u16::from_le_bytes([bin[2], bin[3]]);
    let e2 = u16::from_le_bytes([bin[4], bin[5]]);
    // 빈 엔트리는 원본 WRAM 포인터를 보존한다.
    assert_eq!(e1, 0xC8BF, "빈 엔트리는 원본 특수 포인터를 보존해야 함");
    // 비-빈 엔트리는 테이블(6바이트) 뒤 문자열을 가리킨다.
    // SLOT1_BASE(0x4000)+offset(0x10)+table_len(6) = 0x4016.
    assert_eq!(e0, 0x4016);
    assert_eq!(e2, 0x4018); // idx0 문자열 2바이트 뒤

    // slot1 in-bank 포인터를 빈 엔트리로 주면 실패해야 한다(안전 가드).
    let bad = build_region_repack_bin(&[Vec::new()], &[0x4500u16], 0x10);
    assert!(bad.is_err(), "slot1 in-bank 빈 포인터는 거부돼야 함");
}
