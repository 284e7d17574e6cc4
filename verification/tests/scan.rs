use madoua_kr::scan::{byte_frequency, find_runs, parse_startmsg_ranges, ByteRun, ScriptRange};

#[test]
fn parses_startmsg_ranges() {
    let text = "#STARTMSG(0x1C03E, 2, 1)\n#STARTMSG(123, 4, 0)";
    let ranges = parse_startmsg_ranges(text, "script.txt");
    assert_eq!(
        ranges,
        vec![
            ScriptRange {
                file: "script.txt".to_string(),
                offset: 0x1C03E,
                len: 2,
            },
            ScriptRange {
                file: "script.txt".to_string(),
                offset: 123,
                len: 4,
            }
        ]
    );
}

#[test]
fn finds_runs_at_boundaries() {
    let data = [0xFF, 0xFF, 0x01, 0x00, 0x00, 0x00];
    assert_eq!(
        find_runs(&data, 0xFF, 2),
        vec![ByteRun {
            value: 0xFF,
            offset: 0,
            len: 2,
        }]
    );
    assert_eq!(
        find_runs(&data, 0x00, 3),
        vec![ByteRun {
            value: 0x00,
            offset: 3,
            len: 3,
        }]
    );
}

#[test]
fn tallies_bytes_from_ranges() {
    let rom = [0x10, 0x20, 0x10, 0x30];
    let ranges = [ScriptRange {
        file: "x".to_string(),
        offset: 1,
        len: 3,
    }];
    let freq = byte_frequency(&rom, &ranges).unwrap();
    assert_eq!(freq.get(&0x10), Some(&1));
    assert_eq!(freq.get(&0x20), Some(&1));
    assert_eq!(freq.get(&0x30), Some(&1));
}

#[test]
fn ranges_that_are_too_long_are_refused() {
    let range = |offset: usize, len: usize| ScriptRange {
        file: "a.txt".to_string(),
        offset,
        len,
    };
    let rom = [1u8, 2, 2];
    let err = byte_frequency(&rom, &[range(0, usize::MAX), range(0, usize::MAX)]).unwrap_err();
    assert!(err.to_string().starts_with("a.txt range out of ROM: 0x0..0x"));
    let err = byte_frequency(&rom, &[range(0, 3), range(2, usize::MAX)]).unwrap_err();
    assert!(err.to_string().starts_with("range overflow: a.txt 0x2+"));
}

#[test]
fn overlapping_ranges_count_twice() {
    let range = |offset: usize, len: usize| ScriptRange {
        file: "a.txt".to_string(),
        offset,
        len,
    };
    let freq = byte_frequency(&[1, 2, 2], &[range(0, 3), range(1, 2), range(3, 0)]).unwrap();
    assert_eq!((freq.get(&1), freq.get(&2), freq.get(&3)), (Some(&1), Some(&4), None));
    assert_eq!(freq.values().sum::<usize>(), 5);
}
