use madoua_kr::bps::{create_bps, emit_action, frame_bps};
use madoua_kr::header::{HeaderError, TmrSegaHeader};
use madoua_kr::hexbytes::{hex_bytes, parse_hex_bytes};
use madoua_kr::jp_text::{decode_preview, encode_jp_char};
use madoua_kr::ko_text::{encode_translation_text, parse_text, KoEncoding, TextToken};
use madoua_kr::order::stable_order;
use madoua_kr::parse::{join, parse_uint, space, split, trim, utf8_width, words};
use madoua_kr::rom::{describe_rom, rom_info, JP_CRC32, JP_MD5};
use madoua_kr::script::source_crc32;
use madoua_kr::tags::check_control_tags;
use madoua_kr::text::text;
use madoua_kr::tracked_rom::{Expect, TrackedRom};

fn chars(s: &str) -> Vec<char> {
    s.chars().collect()
}

fn strings(list: Vec<Vec<char>>) -> Vec<String> {
    list.into_iter().map(|w| w.into_iter().collect()).collect()
}

#[test]
fn white_space_is_that_of_the_standard_library() {
    for code in 0..=0x10FFFFu32 {
        if let Some(c) = char::from_u32(code) {
            assert_eq!(space(c), c.is_whitespace(), "{code:X}");
            assert_eq!(utf8_width(c), c.len_utf8(), "{code:X}");
        }
    }
}

#[test]
fn trimming_and_splitting_agree_with_the_standard_library() {
    for s in ["", " ", "a", "  a b\u{3000}c\t", "\u{3000}金\n\n가 나", ";a;;b", ";"] {
        let list = chars(s);
        assert_eq!(trim(&list).iter().collect::<String>(), s.trim());
        let want: Vec<String> = s.split_whitespace().map(str::to_string).collect();
        assert_eq!(strings(words(&list)), want);
        let want: Vec<String> = s.split(';').map(str::to_string).collect();
        assert_eq!(strings(split(&list, ';')), want);
        assert_eq!(join(&want, ";"), s);
    }
}

#[test]
fn numbers_read_as_in_the_standard_library() {
    for s in ["", "+", "-1", "0", "+7", "++7", "12", "fF", "0x1", "100000000", "4294967295", "g"] {
        assert_eq!(
            parse_uint(&chars(s), 10, u32::MAX as u64).map(|v| v as u32),
            s.parse::<u32>().ok(),
            "{s}"
        );
        assert_eq!(
            parse_uint(&chars(s), 16, u32::MAX as u64).map(|v| v as u32),
            u32::from_str_radix(s, 16).ok(),
            "{s}"
        );
    }
}

#[test]
fn messages_are_formatted_as_in_the_standard_library() {
    let s = text("a").dec(0).lit("/").dec(1234).lit("/").hex(0xAB, 4).lit("/").hex(0x12345, 2);
    assert_eq!(s.finish(), format!("a{}/{}/{:04X}/{:02X}", 0, 1234, 0xAB, 0x12345));
    let s = text("").dec_pad(7, 2).lit(" ").dec_pad(123, 2).lit(" ").hex_join(&[1, 0xFF], " ");
    assert_eq!(s.finish(), format!("{:02} {:02} 01 FF", 7, 123));
}

#[test]
fn sorting_is_stable() {
    let keys = [3u128, 1, 2, 1, 3, 0];
    let mut want: Vec<usize> = (0..keys.len()).collect();
    want.sort_by_key(|&i| keys[i]);
    assert_eq!(stable_order(&keys), want);
    assert!(stable_order(&[]).is_empty());
}

#[test]
fn checksums_are_those_of_the_outside_crates() {
    assert_eq!(source_crc32(b"123456789"), "CBF43926");
    assert_eq!(source_crc32(b""), "");
    assert_eq!(rom_info(b"").md5, "d41d8cd98f00b204e9800998ecf8427e");
    assert_eq!(rom_info(b"abc").md5, "900150983cd24fb0d6963f7d28e17f72");
    assert_eq!(rom_info(b"123456789").crc32, 0xCBF4_3926);
}

#[test]
fn the_canonical_rom_is_told_by_checksum_and_digest() {
    assert!(describe_rom(b"x", JP_CRC32, JP_MD5.to_string()).jp_match);
    assert!(!describe_rom(b"x", JP_CRC32, "0".to_string()).jp_match);
    assert!(!describe_rom(b"x", 1, JP_MD5.to_string()).jp_match);
    assert!(describe_rom(b"x", 1, String::new()).header.is_none());
    let mut rom = vec![0u8; 0x8000];
    rom[0x7FF0..0x7FF8].copy_from_slice(b"TMR SEGA");
    rom[0x7FFA..0x7FFC].copy_from_slice(&[0x34, 0x12]);
    rom[0x7FFF] = 0x7C;
    let header = rom_info(&rom).header.unwrap();
    assert!(header.magic_ok);
    assert_eq!((header.checksum, header.region, header.size_code), (0x1234, 7, 0xC));
}

#[test]
fn strings_are_shown_with_quotes_in_tag_messages() {
    let err = check_control_tags("x", "お[br][end]", "마[end]").unwrap_err();
    assert_eq!(
        err.to_string(),
        "x control tag mismatch: jp {\"br\": 1, \"end\": 1} vs ko {\"end\": 1}"
    );
    let err = check_control_tags("x", "お[br][wait]", "마[wait][br]").unwrap_err();
    assert_eq!(
        err.to_string(),
        "x control tag order mismatch: jp [\"br\", \"wait\"] vs ko [\"wait\", \"br\"]"
    );
    check_control_tags("x", "お[br]", "").unwrap();
}

#[test]
fn header_errors_say_what_is_wrong() {
    assert!(matches!(
        TmrSegaHeader::parse(&[0u8; 16]),
        Err(HeaderError::TooSmall { required: 0x8000, got: 16 })
    ));
    assert!(matches!(
        TmrSegaHeader::parse(&vec![1u8; 0x8000]),
        Err(HeaderError::InvalidMagic { got: [1, 1, 1, 1, 1, 1, 1, 1] })
    ));
}

#[test]
fn a_refused_write_changes_nothing() {
    let mut rom = TrackedRom::new(vec![0u8; 16]);
    rom.write("a", 4, &[1, 2, 3]).unwrap();
    assert!(rom.write("b", 6, &[9]).is_err());
    assert!(rom.write("c", 15, &[9, 9]).is_err());
    assert!(rom.write_expect("d", 0, &[9], &Expect::Bytes(&[1])).is_err());
    assert_eq!(rom.data(), &[0, 0, 0, 0, 1, 2, 3, 0, 0, 0, 0, 0, 0, 0, 0, 0]);
    assert_eq!(rom.write_reports().len(), 1);
    assert_eq!(rom.into_data().len(), 16);
}

#[test]
fn hexadecimal_bytes_round_trip() {
    let all: Vec<u8> = (0..=255).collect();
    assert_eq!(parse_hex_bytes(&hex_bytes(&all)).unwrap(), all);
    assert_eq!(hex_bytes(&[]), "");
    assert!(parse_hex_bytes("").unwrap().is_empty());
}

#[test]
fn japanese_characters_round_trip() {
    let mut seen = 0;
    for code in 0..=0xFFFFu32 {
        let Some(ch) = char::from_u32(code) else { continue };
        if let Some(bytes) = encode_jp_char(ch) {
            assert_eq!(decode_preview(&bytes), ch.to_string());
            seen += 1;
        }
    }
    assert!(seen > 100);
}

#[test]
fn tags_are_read_and_refused() {
    assert_eq!(
        parse_text("가[money][br][wait][end][flags:$2A][raw:0x10]").unwrap(),
        vec![
            TextToken::Char('가'),
            TextToken::Money,
            TextToken::Br,
            TextToken::Wait,
            TextToken::End,
            TextToken::Flags(0x2A),
            TextToken::Raw(0x10),
        ]
    );
    let message = |s: &str| parse_text(s).unwrap_err().to_string();
    assert_eq!(message("[what]"), "알 수 없는 control tag: [what]");
    assert_eq!(message("[]"), "빈 control tag");
    assert!(message("[raw:zz]").starts_with("hex 파싱 실패"));
}

#[test]
fn texts_without_a_code_are_refused() {
    let encoding = KoEncoding::from_texts(&["마".to_string()]).unwrap();
    let err = encode_translation_text("도[end]", &encoding).unwrap_err();
    assert_eq!(err.to_string(), "인코딩에 없는 KO 글리프: 도");
    assert!(encode_translation_text("\u{1F600}", &encoding).is_err());
    assert_eq!(encode_translation_text("마", &encoding).unwrap(), [0xA3, 0x01, 0x00]);
    assert_eq!(encoding.code_for('마'), Some([0xA3, 0x01]));
    assert_eq!(encoding.code_for('도'), None);
}

#[test]
fn patches_are_framed_with_their_checksums() {
    let frame = frame_bps(b"abcd", b"abcd", b"", 0x0403_0201, 0x0807_0605).unwrap();
    assert_eq!(
        frame,
        [b'B', b'P', b'S', b'1', 0x84, 0x84, 0x80, 0x8C, 1, 2, 3, 4, 5, 6, 7, 8]
    );
    let patch = create_bps(b"abcd", b"abcd", b"").unwrap();
    let n = patch.len();
    assert_eq!(&patch[n - 4..], &crc32fast::hash(&patch[..n - 4]).to_le_bytes());
    let mut out = Vec::new();
    let err = emit_action(1, 0, &mut out).unwrap_err();
    assert_eq!(err.to_string(), "BPS action length must be nonzero");
    assert!(out.is_empty());
}
