use madoua_kr::runtime_events::{
    evaluate_probe_hit_validity, mapper_slot_snapshot_byte, parse_compact_hex_bytes,
    parse_condition_value, probe_matches_event, EmucapEvent, EmucapEventSnapshot,
};
use madoua_kr::runtime_gate::check_probe_event_report;
use madoua_kr::runtime_probe::{
    emucap_breakpoint_request, ensure_value_fits_len, parse_address, parse_crc32,
    validate_bank_snapshot, validate_probe_requirement, ProbeRequirement,
};
use madoua_kr::runtime_report::{
    build_probe_event_report, require_event_files, select_report_scenes, EmucapPollEvents,
    EventFile,
};
use madoua_kr::runtime_scene::{
    build_runtime_probe_plan, check_evidence, check_runtime_scene_manifest, check_screenshot,
    compare_evidence, compare_screenshot, require_frames, scene_frames, validate_candidate_route,
    validate_runtime_scene, CandidateRoute, CandidateRouteAction, RuntimeScene, RuntimeSceneManifest,
};

fn probe() -> ProbeRequirement {
    ProbeRequirement {
        id: "p".to_string(),
        kind: "logical_read_bp".to_string(),
        memory_type: Some("smsMemory".to_string()),
        address: Some("0x100".to_string()),
        end: None,
        value: None,
        value_len: None,
        value_mask: None,
        pc_min: None,
        pc_max: None,
        install_phase: None,
        bank_snapshot: None,
        valid_when: None,
        notes: "n".to_string(),
    }
}

fn some(s: &str) -> Option<String> {
    Some(s.to_string())
}

fn event(address: u32) -> EmucapEvent {
    EmucapEvent {
        address: Some(address),
        breakpoint_id: None,
        frame: None,
        kind: some("read"),
        value: None,
        pc: None,
        snapshot: Vec::new(),
    }
}

fn snapshot(address: u32, hex: &str) -> EmucapEventSnapshot {
    EmucapEventSnapshot {
        address,
        hex: hex.to_string(),
        memory_type: "smsMemory".to_string(),
    }
}

fn fault(p: &ProbeRequirement) -> String {
    validate_probe_requirement("s", p).unwrap_err().to_string()
}

fn scene(probes: Vec<ProbeRequirement>) -> RuntimeScene {
    RuntimeScene {
        id: "s".to_string(),
        status: "pending".to_string(),
        rom: None,
        screenshot: None,
        frames: None,
        replay: None,
        expected_crc32: None,
        notes: "n".to_string(),
        candidate_route: None,
        probe_requirements: probes,
    }
}

fn manifest(scenes: Vec<RuntimeScene>) -> RuntimeSceneManifest {
    RuntimeSceneManifest {
        format: "madoua-runtime-scenes-v1".to_string(),
        scenes,
    }
}

fn route(actions: Vec<CandidateRouteAction>) -> CandidateRoute {
    CandidateRoute {
        tool: "emucap".to_string(),
        start: "reset".to_string(),
        actions,
        evidence_screenshot: "a.png".to_string(),
        evidence_crc32: "089856CA".to_string(),
        expected_text_ref: "cutscene/005".to_string(),
    }
}

fn action(op: &str, frames: Option<u32>, buttons: &[&str], count: Option<u32>) -> CandidateRouteAction {
    CandidateRouteAction {
        op: op.to_string(),
        frames,
        buttons: buttons.iter().map(|b| b.to_string()).collect(),
        count,
    }
}

#[test]
fn addresses_have_three_marks() {
    for s in ["0x1F", "0X1f", "$1F", "31", " 31 "] {
        assert_eq!(parse_address(s).unwrap(), 31, "{s}");
    }
    assert_eq!(parse_address(" ").unwrap_err().to_string(), "빈 숫자");
    assert_eq!(parse_address("0xG").unwrap_err().to_string(), "hex 파싱 실패: 0xG");
    assert_eq!(parse_address("1F").unwrap_err().to_string(), "decimal 파싱 실패: 1F");
    assert!(parse_address("4294967296").is_err());
    assert_eq!(parse_crc32("GGGGGGGG").unwrap_err().to_string(), "CRC32 파싱 실패: GGGGGGGG");
}

#[test]
fn probes_are_checked_field_by_field() {
    validate_probe_requirement("s", &probe()).unwrap();
    assert!(fault(&ProbeRequirement { id: " ".into(), ..probe() }).contains("id가"));
    assert_eq!(
        fault(&ProbeRequirement { kind: "k".into(), ..probe() }),
        "s: unsupported probe requirement kind k"
    );
    assert!(fault(&ProbeRequirement { notes: "".into(), ..probe() }).contains("notes가"));
    assert_eq!(
        fault(&ProbeRequirement { memory_type: None, ..probe() }),
        "s: probe p requires memory_type"
    );
    assert_eq!(
        fault(&ProbeRequirement { memory_type: some("x"), ..probe() }),
        "s: probe p unsupported memory_type x"
    );
    assert_eq!(
        fault(&ProbeRequirement { address: None, ..probe() }),
        "s: probe p requires address"
    );
    assert_eq!(
        fault(&ProbeRequirement { value_len: Some(2), ..probe() }),
        "s: probe p value filter fields require value"
    );
    assert_eq!(
        fault(&ProbeRequirement { value: some("1"), value_len: Some(5), ..probe() }),
        "s: probe p value_len must be 1..=4"
    );
    assert_eq!(
        fault(&ProbeRequirement { value: some("256"), ..probe() }),
        "s: probe p value must fit 1 byte(s)"
    );
    assert_eq!(
        fault(&ProbeRequirement { pc_min: some("1"), ..probe() }),
        "s: probe p pc filter fields require pc_max"
    );
    assert_eq!(
        fault(&ProbeRequirement { pc_min: some("2"), pc_max: some("1"), ..probe() }),
        "s: probe p pc_max must be >= pc_min"
    );
    assert_eq!(
        fault(&ProbeRequirement { install_phase: some("x"), ..probe() }),
        "s: probe p unsupported install_phase x"
    );
    assert_eq!(
        fault(&ProbeRequirement { bank_snapshot: some("smsMemory:1:1"), ..probe() }),
        "s: probe p bank_snapshot requires valid_when"
    );
}

#[test]
fn values_fit_their_length() {
    let p = probe();
    for (len, max) in [(0u8, 0u32), (1, 0xFF), (2, 0xFFFF), (3, 0xFF_FFFF), (4, u32::MAX)] {
        ensure_value_fits_len("s", &p, "value", max, len).unwrap();
        if max < u32::MAX {
            assert!(ensure_value_fits_len("s", &p, "value", max + 1, len).is_err());
        }
    }
}

#[test]
fn recorded_memory_has_three_parts() {
    let p = probe();
    validate_bank_snapshot("s", &p, "smsMemory:0xFFFE:2").unwrap();
    let message = |s: &str| validate_bank_snapshot("s", &p, s).unwrap_err().to_string();
    for s in ["", "smsMemory:1", "smsMemory:1:2:3", ":1:2", "smsMemory::2"] {
        assert!(message(s).ends_with("memory_type:address:length"), "{s}");
    }
    assert!(message("x:1:2").ends_with("must be smsMemory"));
    assert!(message("smsMemory:x:2").contains("address 파싱 실패: x"));
    assert!(message("smsMemory:1:x").contains("length 파싱 실패: x"));
    assert!(message("smsMemory:1:0").ends_with("length must be > 0"));
}

#[test]
fn a_probe_without_a_breakpoint_has_no_request() {
    assert!(emucap_breakpoint_request(&ProbeRequirement {
        kind: "route_replay".into(),
        ..probe()
    })
    .is_none());
    let p = ProbeRequirement { value: some("1"), ..probe() };
    let request = emucap_breakpoint_request(&p).unwrap();
    assert_eq!(request.args.end, "0x100");
    assert_eq!(request.args.value_len, Some(1));
    assert!(request.args.pause_on_hit);
}

#[test]
fn events_match_by_kind_place_and_value() {
    let p = ProbeRequirement { end: some("0x102"), ..probe() };
    assert!(probe_matches_event(&p, &event(0x102)).unwrap());
    assert!(!probe_matches_event(&p, &event(0x103)).unwrap());
    assert!(!probe_matches_event(&p, &EmucapEvent { kind: some("exec"), ..event(0x100) }).unwrap());
    assert!(!probe_matches_event(&p, &EmucapEvent { address: None, ..event(0x100) }).unwrap());
    let p = ProbeRequirement { value: some("0x12"), value_mask: some("0xF0"), ..probe() };
    assert!(probe_matches_event(&p, &EmucapEvent { value: Some(0x1F), ..event(0x100) }).unwrap());
    assert!(!probe_matches_event(&p, &EmucapEvent { value: Some(0x22), ..event(0x100) }).unwrap());
    assert!(!probe_matches_event(&p, &event(0x100)).unwrap());
    let p = ProbeRequirement { address: some("zz"), ..probe() };
    assert!(probe_matches_event(&p, &event(0x100)).is_err());
}

#[test]
fn compact_digits_are_read_in_pairs() {
    assert_eq!(parse_compact_hex_bytes(" 00aF ").unwrap(), [0x00, 0xAF]);
    assert_eq!(parse_compact_hex_bytes("+5").unwrap(), [5]);
    assert!(parse_compact_hex_bytes("").unwrap().is_empty());
    assert_eq!(
        parse_compact_hex_bytes("123").unwrap_err().to_string(),
        "snapshot hex length must be even: 123"
    );
    assert!(parse_compact_hex_bytes("zz").unwrap_err().to_string().contains("파싱 실패"));
    assert!(parse_compact_hex_bytes("é").unwrap_err().to_string().contains("파싱 실패"));
}

#[test]
fn memory_is_read_only_as_far_as_needed() {
    let with = |list: &[(u32, &str)]| EmucapEvent {
        snapshot: list.iter().map(|r| snapshot(r.0, r.1)).collect(),
        ..event(0)
    };
    let cut = with(&[(0xFFFE, "a가")]);
    assert_eq!(
        mapper_slot_snapshot_byte(&cut, 1).unwrap_err().to_string(),
        "snapshot hex 파싱 실패: a가"
    );
    assert_eq!(mapper_slot_snapshot_byte(&cut, 0).unwrap(), None);
    let behind = with(&[(0xFFFE, "07"), (0xFFFF, "a가")]);
    assert_eq!(mapper_slot_snapshot_byte(&behind, 1).unwrap(), Some(7));
    assert!(mapper_slot_snapshot_byte(&behind, 2).is_err());
    let far = with(&[(u32::MAX, "0011")]);
    assert_eq!(mapper_slot_snapshot_byte(&far, 1).unwrap(), None);
}

#[test]
fn banks_are_read_from_recorded_memory() {
    let e = EmucapEvent {
        snapshot: vec![snapshot(0x100, "0102"), snapshot(0xFFFE, "0709")],
        ..event(0)
    };
    assert_eq!(mapper_slot_snapshot_byte(&e, 1).unwrap(), Some(7));
    assert_eq!(mapper_slot_snapshot_byte(&e, 2).unwrap(), Some(9));
    assert_eq!(mapper_slot_snapshot_byte(&e, 0).unwrap(), None);
    assert_eq!(mapper_slot_snapshot_byte(&event(0), 1).unwrap(), None);
}

#[test]
fn conditions_are_judged() {
    let e = EmucapEvent { snapshot: vec![snapshot(0xFFFE, "0709")], ..event(0x100) };
    let judge = |when: &str| {
        let p = ProbeRequirement { valid_when: some(when), ..probe() };
        let v = evaluate_probe_hit_validity(&p, &e).unwrap();
        (v.matched, v.detail)
    };
    assert_eq!(judge("  "), (None, None));
    assert_eq!(
        judge("bank 6"),
        (None, some("valid_when has no machine-parsed bank condition: bank 6"))
    );
    assert_eq!(
        judge("slot1=0x07, then; slot2=8"),
        (Some(false), some("slot1=0x07 matched; slot2=0x09 expected 0x08"))
    );
    assert_eq!(judge("slot2=$09"), (Some(true), some("slot2=0x09 matched")));
    let p = ProbeRequirement { valid_when: some("slot1=1"), ..probe() };
    let v = evaluate_probe_hit_validity(&p, &event(0x100)).unwrap();
    assert_eq!(v.detail, some("slot1=missing expected 0x01"));
    assert_eq!(
        parse_condition_value("0x100").unwrap_err().to_string(),
        "valid_when 값이 1바이트를 초과함: 0x100"
    );
    assert_eq!(parse_condition_value("").unwrap_err().to_string(), "빈 숫자");
}

#[test]
fn reports_count_hits_and_the_rest() {
    let p = ProbeRequirement { valid_when: some("slot1=7"), ..probe() };
    let m = manifest(vec![scene(vec![p])]);
    let files = [EventFile {
        path: "e.json".to_string(),
        events: EmucapPollEvents {
            dropped: Some(2),
            events: vec![
                EmucapEvent { snapshot: vec![snapshot(0xFFFE, "07")], ..event(0x100) },
                event(0x100),
                event(0x200),
            ],
        },
    }];
    let report = build_probe_event_report(&m, "m.json", &files, None).unwrap();
    assert_eq!((report.total_events, report.matched_events, report.dropped_events), (3, 2, 2));
    assert_eq!(report.unmatched_events.len(), 1);
    assert_eq!(report.unmatched_events[0].address, Some(0x200));
    let s = &report.scenes[0];
    assert_eq!((s.hit_count, s.valid_hit_count, s.invalid_hit_count), (2, 1, 1));
    assert_eq!(report.event_files, ["e.json"]);

    let err = build_probe_event_report(&m, "m.json", &[], None).unwrap_err();
    assert_eq!(err.to_string(), "event 파일을 하나 이상 지정해야 함");
    let err = build_probe_event_report(&m, "m.json", &files, Some("other")).unwrap_err();
    assert_eq!(err.to_string(), "runtime scene not found: other");
    assert!(require_event_files(0).is_err());
    assert_eq!(select_report_scenes(&m, Some("s")).unwrap().len(), 1);
}

#[test]
fn plans_need_scenes() {
    let m = manifest(vec![scene(vec![probe()])]);
    let plan = build_runtime_probe_plan(&m, "m.json", None, None).unwrap();
    assert_eq!(plan.scenes[0].scene.id, "s");
    let err = build_runtime_probe_plan(&m, "m.json", Some("x"), None).unwrap_err();
    assert_eq!(err.to_string(), "runtime scene not found: x");
    let err = build_runtime_probe_plan(&manifest(vec![]), "m.json", None, None).unwrap_err();
    assert_eq!(err.to_string(), "runtime scene manifest has no pending scenes");
    let err = check_runtime_scene_manifest(&manifest(vec![])).unwrap_err();
    assert_eq!(err.to_string(), "runtime scene manifest scenes가 비어 있음");
    let other = RuntimeSceneManifest { format: "x".to_string(), scenes: vec![] };
    let err = check_runtime_scene_manifest(&other).unwrap_err();
    assert_eq!(err.to_string(), "지원하지 않는 runtime scene manifest format: x");
}

#[test]
fn scenes_are_checked() {
    let message = |s: RuntimeScene| validate_runtime_scene(&s).unwrap_err().to_string();
    let good = || scene(vec![probe()]);
    validate_runtime_scene(&good()).unwrap();
    assert_eq!(message(RuntimeScene { id: "".into(), ..good() }), "빈 runtime scene id");
    assert!(message(RuntimeScene { status: "x".into(), ..good() }).ends_with("status x"));
    assert!(message(RuntimeScene { notes: "".into(), ..good() }).contains("notes가"));
    let active = || RuntimeScene {
        status: "active".into(),
        rom: some("r"),
        screenshot: some("s"),
        ..good()
    };
    validate_runtime_scene(&active()).unwrap();
    assert!(message(RuntimeScene { screenshot: None, ..active() }).contains("screenshot"));
    assert_eq!(message(RuntimeScene { frames: Some(0), ..active() }), "s: frames must be > 0");
    assert_eq!(
        message(RuntimeScene { expected_crc32: some("1"), ..active() }),
        "s expected_crc32"
    );
}

#[test]
fn routes_are_checked_step_by_step() {
    let message = |r: CandidateRoute| validate_candidate_route("s", &r).unwrap_err().to_string();
    let step = || action("step", Some(1), &[], None);
    validate_candidate_route("s", &route(vec![step()])).unwrap();
    assert!(message(CandidateRoute { tool: "x".into(), ..route(vec![step()]) }).contains("tool x"));
    assert!(message(CandidateRoute { start: "".into(), ..route(vec![step()]) }).contains("start가"));
    assert!(message(route(vec![])).contains("actions가"));
    assert_eq!(
        message(CandidateRoute { evidence_crc32: "1".into(), ..route(vec![step()]) }),
        "s candidate_route evidence_crc32"
    );
    assert!(message(CandidateRoute { evidence_screenshot: "a.gif".into(), ..route(vec![step()]) })
        .ends_with("PNG path"));
    assert_eq!(
        message(route(vec![step(), action("step", None, &[], None)])),
        "s: route action 1 step requires frames"
    );
    assert_eq!(
        message(route(vec![action("step", Some(0), &[], None)])),
        "s: route action 0 frames must be > 0"
    );
    assert_eq!(
        message(route(vec![action("tap", None, &["two"], Some(0))])),
        "s: route action 0 count must be > 0"
    );
    assert_eq!(
        message(route(vec![action("press", Some(1), &[], None)])),
        "s: route action 0 press requires buttons"
    );
    assert_eq!(
        message(route(vec![action("jump", None, &[], None)])),
        "s: route action 0 unsupported op jump"
    );
}

#[test]
fn pictures_are_checked() {
    let r = route(vec![action("step", Some(1), &[], None)]);
    assert_eq!(
        check_evidence("s", &r, b"GIF").unwrap_err().to_string(),
        "s: candidate_route evidence_screenshot is not a PNG: a.png"
    );
    compare_evidence("s", &r, 0x0898_56CA).unwrap();
    assert_eq!(
        compare_evidence("s", &r, 1).unwrap_err().to_string(),
        "s: candidate_route evidence_screenshot CRC32 mismatch: expected 089856CA, got 00000001: a.png"
    );
    assert_eq!(
        check_screenshot(b"", "p", None).unwrap_err().to_string(),
        "screenshot이 비어 있음: p"
    );
    assert_eq!(check_screenshot(b"123456789", "p", Some("CBF43926")).unwrap(), 0xCBF4_3926);
    assert_eq!(
        compare_screenshot(1, Some("00000002")).unwrap_err().to_string(),
        "screenshot CRC32 mismatch: expected 00000002, got 00000001"
    );
}

#[test]
fn recorded_memory_matters_only_for_conditions_on_banks() {
    let odd = |address: u32| EmucapEvent {
        snapshot: vec![snapshot(0xFFFE, "a가")],
        ..event(address)
    };
    let files = |e: EmucapEvent| {
        [EventFile {
            path: "e.json".to_string(),
            events: EmucapPollEvents { dropped: None, events: vec![e] },
        }]
    };
    let on_bank = manifest(vec![scene(vec![ProbeRequirement {
        valid_when: some("slot1=7"),
        ..probe()
    }])]);
    let report = build_probe_event_report(&on_bank, "m.json", &files(odd(0x200)), None).unwrap();
    assert_eq!((report.matched_events, report.unmatched_events.len()), (0, 1));
    let err = build_probe_event_report(&on_bank, "m.json", &files(odd(0x100)), None).unwrap_err();
    assert_eq!(err.to_string(), "snapshot hex 파싱 실패: a가");

    let plain = manifest(vec![scene(vec![ProbeRequirement { valid_when: None, ..probe() }])]);
    let report = build_probe_event_report(&plain, "m.json", &files(odd(0x100)), None).unwrap();
    assert_eq!(report.matched_events, 1);
}

#[test]
fn counts_are_added_up_only_where_they_decide() {
    let m = manifest(vec![scene(vec![probe()])]);
    let files = [EventFile {
        path: "e.json".to_string(),
        events: EmucapPollEvents { dropped: Some(1), events: vec![event(0x100)] },
    }];
    let mut report = build_probe_event_report(&m, "m.json", &files, None).unwrap();
    let first = build_probe_event_report(&m, "m.json", &files, None).unwrap();
    report.scenes.extend(first.scenes);
    for s in &mut report.scenes {
        s.valid_hit_count = usize::MAX;
    }
    let err = check_probe_event_report(&report, Some("s"), 0, &[], false, false, false).unwrap_err();
    assert_eq!(err.to_string(), "probe summary has dropped events: 1");
    let err = check_probe_event_report(&report, None, 0, &[], false, false, true).unwrap_err();
    assert_eq!(err.to_string(), "probe summary has 2 scenes; pass --scene to choose one");
}

#[test]
fn runs_have_frames() {
    assert_eq!(scene_frames(&scene(Vec::new())), 980);
    let short = RuntimeScene { frames: Some(7), ..scene(Vec::new()) };
    assert_eq!(scene_frames(&short), 7);
    require_frames(1).unwrap();
    assert_eq!(require_frames(0).unwrap_err().to_string(), "--frames must be > 0");
}
