use madoua_kr::runtime_events::{probe_matches_event, EmucapEvent, EmucapEventSnapshot};
use madoua_kr::runtime_gate::check_probe_event_report;
use madoua_kr::runtime_probe::{parse_crc32, validate_probe_requirement, ProbeRequirement};
use madoua_kr::runtime_report::{
    build_probe_event_report, EmucapPollEvents, EventFile, ProbeEventReport, ProbeEventSummary,
    SceneEventSummary, UnmatchedProbeEvent,
};
use madoua_kr::runtime_scene::{
    build_runtime_probe_plan, check_evidence, ensure_all_runtime_scenes_active,
    validate_candidate_route, validate_runtime_scene, CandidateRoute, CandidateRouteAction,
    RuntimeScene, RuntimeSceneManifest,
};

#[test]
fn parse_crc32_accepts_common_hex_forms() {
    assert_eq!(parse_crc32("EDC0A75F").unwrap(), 0xEDC0_A75F);
    assert_eq!(parse_crc32("0xEDC0A75F").unwrap(), 0xEDC0_A75F);
    assert_eq!(parse_crc32("$EDC0A75F").unwrap(), 0xEDC0_A75F);
}

#[test]
fn parse_crc32_rejects_wrong_width() {
    let err = parse_crc32("A75F").unwrap_err();
    assert!(err.to_string().contains("8자리"));
}

#[test]
fn runtime_scene_manifest_accepts_active_and_pending_scenes() {
    let manifest = RuntimeSceneManifest {
        format: "madoua-runtime-scenes-v1".to_string(),
        scenes: vec![
            RuntimeScene {
                id: "boot_intro_complete".to_string(),
                status: "active".to_string(),
                rom: Some("out/madoua_build_workflow_complete.gg".to_string()),
                screenshot: Some("out/emu/build_workflow_complete_f980.png".to_string()),
                frames: Some(980),
                replay: None,
                expected_crc32: Some("BB5EE302".to_string()),
                notes: "boot gate".to_string(),
                candidate_route: None,
                probe_requirements: Vec::new(),
            },
            RuntimeScene {
                id: "shop_money_fresh_scene".to_string(),
                status: "pending".to_string(),
                rom: None,
                screenshot: None,
                frames: None,
                replay: None,
                expected_crc32: None,
                notes: "needs replay".to_string(),
                candidate_route: Some(CandidateRoute {
                    tool: "emucap".to_string(),
                    start: "reset".to_string(),
                    actions: vec![
                        CandidateRouteAction {
                            op: "step".to_string(),
                            frames: Some(604),
                            buttons: vec![],
                            count: None,
                        },
                        CandidateRouteAction {
                            op: "tap".to_string(),
                            frames: None,
                            buttons: vec!["two".to_string()],
                            count: Some(45),
                        },
                    ],
                    evidence_screenshot: "out/emu/example.png".to_string(),
                    evidence_crc32: "089856CA".to_string(),
                    expected_text_ref: "cutscene/005".to_string(),
                }),
                probe_requirements: Vec::new(),
            },
        ],
    };

    for scene in &manifest.scenes {
        validate_runtime_scene(scene).unwrap();
    }
}

#[test]
fn runtime_scene_manifest_rejects_active_scene_without_rom() {
    let scene = RuntimeScene {
        id: "bad".to_string(),
        status: "active".to_string(),
        rom: None,
        screenshot: Some("out/s.png".to_string()),
        frames: Some(980),
        replay: None,
        expected_crc32: None,
        notes: "missing rom".to_string(),
        candidate_route: None,
        probe_requirements: Vec::new(),
    };

    let err = validate_runtime_scene(&scene).unwrap_err();
    assert!(err.to_string().contains("requires rom"));
}

#[test]
fn runtime_scene_manifest_release_readiness_rejects_pending() {
    let manifest = RuntimeSceneManifest {
        format: "madoua-runtime-scenes-v1".to_string(),
        scenes: vec![
            RuntimeScene {
                id: "boot_intro_complete".to_string(),
                status: "active".to_string(),
                rom: Some("out/madoua_build_workflow_complete.gg".to_string()),
                screenshot: Some("out/emu/build_workflow_complete_f980.png".to_string()),
                frames: Some(980),
                replay: None,
                expected_crc32: None,
                notes: "boot gate".to_string(),
                candidate_route: None,
                probe_requirements: Vec::new(),
            },
            RuntimeScene {
                id: "shop_money_fresh_scene".to_string(),
                status: "pending".to_string(),
                rom: None,
                screenshot: None,
                frames: None,
                replay: None,
                expected_crc32: None,
                notes: "needs replay".to_string(),
                candidate_route: None,
                probe_requirements: vec![
                    ProbeRequirement {
                        id: "shop-money-byte-read".to_string(),
                        kind: "logical_read_bp".to_string(),
                        memory_type: Some("smsMemory".to_string()),
                        address: Some("0x9BC6".to_string()),
                        end: None,
                        value: Some("0x0C".to_string()),
                        value_len: None,
                        value_mask: None,
                        pc_min: None,
                        pc_max: None,
                        install_phase: None,
                        bank_snapshot: Some("smsMemory:0xFFFE:2".to_string()),
                        valid_when: Some("slot2=0x09".to_string()),
                        notes: "shop money byte read in bank 9".to_string(),
                    },
                ],
            },
        ],
    };

    for scene in &manifest.scenes {
        validate_runtime_scene(scene).unwrap();
    }
    let err = ensure_all_runtime_scenes_active(&manifest).unwrap_err();
    assert!(err.to_string().contains("shop_money_fresh_scene"));
}

#[test]
fn runtime_scene_manifest_release_readiness_accepts_all_active() {
    let manifest = RuntimeSceneManifest {
        format: "madoua-runtime-scenes-v1".to_string(),
        scenes: vec![
            RuntimeScene {
                id: "boot_intro_complete".to_string(),
                status: "active".to_string(),
                rom: Some("out/madoua_build_workflow_complete.gg".to_string()),
                screenshot: Some("out/emu/build_workflow_complete_f980.png".to_string()),
                frames: Some(980),
                replay: None,
                expected_crc32: None,
                notes: "boot gate".to_string(),
                candidate_route: None,
                probe_requirements: Vec::new(),
            },
        ],
    };

    for scene in &manifest.scenes {
        validate_runtime_scene(scene).unwrap();
    }
    ensure_all_runtime_scenes_active(&manifest).unwrap();
}

#[test]
fn runtime_scene_manifest_rejects_bad_candidate_route() {
    let route = CandidateRoute {
        tool: "emucap".to_string(),
        start: "reset".to_string(),
        actions: vec![CandidateRouteAction {
            op: "tap".to_string(),
            frames: None,
            buttons: Vec::new(),
            count: Some(1),
        }],
        evidence_screenshot: "out/emu/example.png".to_string(),
        evidence_crc32: "089856CA".to_string(),
        expected_text_ref: "cutscene/005".to_string(),
    };

    let err = validate_candidate_route("bad_route", &route).unwrap_err();
    assert!(err.to_string().contains("requires buttons"));
}

#[test]
fn runtime_scene_manifest_rejects_candidate_route_without_evidence() {
    let route = CandidateRoute {
        tool: "emucap".to_string(),
        start: "reset".to_string(),
        actions: vec![CandidateRouteAction {
            op: "step".to_string(),
            frames: Some(60),
            buttons: Vec::new(),
            count: None,
        }],
        evidence_screenshot: String::new(),
        evidence_crc32: "089856CA".to_string(),
        expected_text_ref: "cutscene/005".to_string(),
    };

    let err = validate_candidate_route("missing_evidence", &route).unwrap_err();
    assert!(err.to_string().contains("evidence_screenshot"));
}

#[test]
fn runtime_scene_manifest_rejects_pending_without_route_or_probe() {
    let scene = RuntimeScene {
        id: "pending".to_string(),
        status: "pending".to_string(),
        rom: None,
        screenshot: None,
        frames: None,
        replay: None,
        expected_crc32: None,
        notes: "missing route and probe".to_string(),
        candidate_route: None,
        probe_requirements: Vec::new(),
    };

    let err = validate_runtime_scene(&scene).unwrap_err();
    assert!(
        err.to_string()
            .contains("candidate_route or probe_requirements")
    );
}

#[test]
fn runtime_scene_manifest_accepts_logical_read_probe() {
    let probe = ProbeRequirement {
        id: "region-relocated-read".to_string(),
        kind: "logical_read_bp".to_string(),
        memory_type: Some("smsMemory".to_string()),
        address: Some("0x7E6C".to_string()),
        end: None,
        value: Some("0xA3".to_string()),
        value_len: None,
        value_mask: None,
        pc_min: None,
        pc_max: None,
        install_phase: None,
        bank_snapshot: Some("smsMemory:0xFFFE:2".to_string()),
        valid_when: Some("slot1=0x07".to_string()),
        notes: "region relocated first byte".to_string(),
    };

    validate_probe_requirement("region_text_fresh_scene", &probe).unwrap();
}

#[test]
fn runtime_scene_manifest_accepts_logical_exec_probe() {
    let probe = ProbeRequirement {
        id: "region-table-dispatch-a041-exec".to_string(),
        kind: "logical_exec_bp".to_string(),
        memory_type: Some("smsMemory".to_string()),
        address: Some("0xA041".to_string()),
        end: None,
        value: None,
        value_len: None,
        value_mask: None,
        pc_min: None,
        pc_max: None,
        install_phase: None,
        bank_snapshot: Some("smsMemory:0xFFFE:2".to_string()),
        valid_when: Some("slot2=0x06".to_string()),
        notes: "region table dispatch route-discovery anchor".to_string(),
    };

    validate_probe_requirement("region_text_fresh_scene", &probe).unwrap();
}

#[test]
fn runtime_scene_manifest_rejects_value_filter_on_logical_exec_probe() {
    let probe = ProbeRequirement {
        id: "bad-exec-filter".to_string(),
        kind: "logical_exec_bp".to_string(),
        memory_type: Some("smsMemory".to_string()),
        address: Some("0xA041".to_string()),
        end: None,
        value: Some("0xCD".to_string()),
        value_len: None,
        value_mask: None,
        pc_min: None,
        pc_max: None,
        install_phase: None,
        bank_snapshot: Some("smsMemory:0xFFFE:2".to_string()),
        valid_when: Some("slot2=0x06".to_string()),
        notes: "exec probes should not carry data value filters".to_string(),
    };

    let err = validate_probe_requirement("region_text_fresh_scene", &probe).unwrap_err();
    assert!(err.to_string().contains("does not support value filters"));
}

#[test]
fn runtime_scene_manifest_accepts_range_probe() {
    let probe = ProbeRequirement {
        id: "shop-money-main-font-glyph-read".to_string(),
        kind: "logical_read_bp".to_string(),
        memory_type: Some("smsMemory".to_string()),
        address: Some("0x9B55".to_string()),
        end: Some("0x9B5C".to_string()),
        value: None,
        value_len: None,
        value_mask: None,
        pc_min: None,
        pc_max: None,
        install_phase: None,
        bank_snapshot: Some("smsMemory:0xFFFE:2".to_string()),
        valid_when: Some("slot2=0x06".to_string()),
        notes: "fresh shop proof for the main-font money glyph source range".to_string(),
    };

    validate_probe_requirement("shop_money_fresh_scene", &probe).unwrap();
}

#[test]
fn runtime_scene_manifest_accepts_pc_filtered_probe() {
    let probe = ProbeRequirement {
        id: "route-search-shop-money-range".to_string(),
        kind: "logical_read_bp".to_string(),
        memory_type: Some("smsMemory".to_string()),
        address: Some("0x9BC6".to_string()),
        end: Some("0x9CC0".to_string()),
        value: Some("0x0C".to_string()),
        value_len: None,
        value_mask: None,
        pc_min: Some("0x8000".to_string()),
        pc_max: Some("0x8FFF".to_string()),
        install_phase: None,
        bank_snapshot: Some("smsMemory:0xFFFE:2".to_string()),
        valid_when: Some("slot2=0x09".to_string()),
        notes: "route-search range filtered away from font decode reads".to_string(),
    };

    validate_probe_requirement("shop_money_fresh_scene", &probe).unwrap();
}

#[test]
fn runtime_scene_manifest_accepts_masked_vram_write_probe() {
    let probe = ProbeRequirement {
        id: "shop-money-vram-nametable-low-byte-write".to_string(),
        kind: "vram_write_bp".to_string(),
        memory_type: Some("smsVideoRam".to_string()),
        address: Some("0x3800".to_string()),
        end: Some("0x3EFF".to_string()),
        value: Some("0x0060".to_string()),
        value_len: Some(2),
        value_mask: Some("0x00FF".to_string()),
        pc_min: None,
        pc_max: None,
        install_phase: Some("after_scene_reached".to_string()),
        bank_snapshot: None,
        valid_when: None,
        notes: "deferred classifier for nametable writes of a candidate tile low byte"
            .to_string(),
    };

    validate_probe_requirement("shop_money_fresh_scene", &probe).unwrap();
}

#[test]
fn runtime_scene_manifest_rejects_reversed_range_probe() {
    let probe = ProbeRequirement {
        id: "bad-range".to_string(),
        kind: "logical_read_bp".to_string(),
        memory_type: Some("smsMemory".to_string()),
        address: Some("0x9B5C".to_string()),
        end: Some("0x9B55".to_string()),
        value: None,
        value_len: None,
        value_mask: None,
        pc_min: None,
        pc_max: None,
        install_phase: None,
        bank_snapshot: None,
        valid_when: None,
        notes: "range end before start must fail".to_string(),
    };

    let err = validate_probe_requirement("shop_money_fresh_scene", &probe).unwrap_err();
    assert!(err.to_string().contains("end must be >= address"));
}

#[test]
fn runtime_probe_plan_exports_emucap_breakpoint_args() {
    let manifest = RuntimeSceneManifest {
        format: "madoua-runtime-scenes-v1".to_string(),
        scenes: vec![
            RuntimeScene {
                id: "shop_money_fresh_scene".to_string(),
                status: "pending".to_string(),
                rom: None,
                screenshot: None,
                frames: None,
                replay: None,
                expected_crc32: None,
                notes: "needs fresh shop proof".to_string(),
                candidate_route: None,
                probe_requirements: vec![
                    ProbeRequirement {
                        id: "shop-00-money-byte-read".to_string(),
                        kind: "logical_read_bp".to_string(),
                        memory_type: Some("smsMemory".to_string()),
                        address: Some("0x9BC6".to_string()),
                        end: None,
                        value: Some("0x0C".to_string()),
                        value_len: None,
                        value_mask: None,
                        pc_min: None,
                        pc_max: None,
                        install_phase: None,
                        bank_snapshot: Some("smsMemory:0xFFFE:2".to_string()),
                        valid_when: Some("slot2=0x09".to_string()),
                        notes: "shop/00 money byte read is valid only when slot 2 maps bank 9.".to_string(),
                    },
                ],
            },
        ],
    };

    for scene in &manifest.scenes {
        validate_runtime_scene(scene).unwrap();
    }
    let plan = build_runtime_probe_plan(
        &manifest,
        "assets/qa/runtime_scenes.json",
        Some("shop_money_fresh_scene"),
        None,
    )
    .unwrap();
    let request = plan.scenes[0].probes[0]
        .emucap_set_breakpoint
        .as_ref()
        .unwrap();

    assert_eq!(plan.format, "madoua-emucap-probe-plan-v1");
    assert_eq!(plan.fresh_start_required, true);
    assert_eq!(
        request.tool,
        "set_breakpoint"
    );
    assert_eq!(
        request.args.kind,
        "read"
    );
    assert_eq!(
        request.args.memory_type,
        "smsMemory"
    );
    assert_eq!(
        request.args.start,
        "0x9BC6"
    );
    assert_eq!(
        request.args.value,
        Some("0x0C")
    );
    assert_eq!(
        request.args.snapshot.as_ref().unwrap()[0],
        "smsMemory:0xFFFE:2"
    );
}

#[test]
fn runtime_probe_plan_exports_exec_breakpoint_args() {
    let manifest = RuntimeSceneManifest {
        format: "madoua-runtime-scenes-v1".to_string(),
        scenes: vec![
            RuntimeScene {
                id: "region_text_fresh_scene".to_string(),
                status: "pending".to_string(),
                rom: None,
                screenshot: None,
                frames: None,
                replay: None,
                expected_crc32: None,
                notes: "needs region route proof".to_string(),
                candidate_route: None,
                probe_requirements: vec![
                    ProbeRequirement {
                        id: "region-table-dispatch-a041-exec".to_string(),
                        kind: "logical_exec_bp".to_string(),
                        memory_type: Some("smsMemory".to_string()),
                        address: Some("0xA041".to_string()),
                        end: None,
                        value: None,
                        value_len: None,
                        value_mask: None,
                        pc_min: None,
                        pc_max: None,
                        install_phase: None,
                        bank_snapshot: Some("smsMemory:0xFFFE:2".to_string()),
                        valid_when: Some("slot2=0x06".to_string()),
                        notes: "route-discovery exec anchor".to_string(),
                    },
                ],
            },
        ],
    };

    for scene in &manifest.scenes {
        validate_runtime_scene(scene).unwrap();
    }
    let plan = build_runtime_probe_plan(
        &manifest,
        "assets/qa/runtime_scenes.json",
        Some("region_text_fresh_scene"),
        None,
    )
    .unwrap();
    let request = plan.scenes[0].probes[0]
        .emucap_set_breakpoint
        .as_ref()
        .unwrap();

    assert_eq!(
        request.args.kind,
        "exec"
    );
    assert_eq!(
        request.args.start,
        "0xA041"
    );
    assert!(
        request.args.value.is_none()
    );
    assert_eq!(
        request.args.snapshot.as_ref().unwrap()[0],
        "smsMemory:0xFFFE:2"
    );
}

#[test]
fn runtime_probe_plan_exports_range_breakpoint_args() {
    let manifest = RuntimeSceneManifest {
        format: "madoua-runtime-scenes-v1".to_string(),
        scenes: vec![
            RuntimeScene {
                id: "shop_money_fresh_scene".to_string(),
                status: "pending".to_string(),
                rom: None,
                screenshot: None,
                frames: None,
                replay: None,
                expected_crc32: None,
                notes: "needs fresh shop proof".to_string(),
                candidate_route: None,
                probe_requirements: vec![
                    ProbeRequirement {
                        id: "shop-money-main-font-glyph-read".to_string(),
                        kind: "logical_read_bp".to_string(),
                        memory_type: Some("smsMemory".to_string()),
                        address: Some("0x9B55".to_string()),
                        end: Some("0x9B5C".to_string()),
                        value: None,
                        value_len: None,
                        value_mask: None,
                        pc_min: None,
                        pc_max: None,
                        install_phase: None,
                        bank_snapshot: Some("smsMemory:0xFFFE:2".to_string()),
                        valid_when: Some("slot2=0x06".to_string()),
                        notes: "fresh shop proof for the main-font money glyph source range".to_string(),
                    },
                ],
            },
        ],
    };

    for scene in &manifest.scenes {
        validate_runtime_scene(scene).unwrap();
    }
    let plan = build_runtime_probe_plan(
        &manifest,
        "assets/qa/runtime_scenes.json",
        Some("shop_money_fresh_scene"),
        None,
    )
    .unwrap();
    let request = plan.scenes[0].probes[0]
        .emucap_set_breakpoint
        .as_ref()
        .unwrap();

    assert_eq!(
        request.args.start,
        "0x9B55"
    );
    assert_eq!(
        request.args.end,
        "0x9B5C"
    );
}

#[test]
fn runtime_probe_plan_exports_pc_filter_args() {
    let manifest = RuntimeSceneManifest {
        format: "madoua-runtime-scenes-v1".to_string(),
        scenes: vec![
            RuntimeScene {
                id: "shop_money_fresh_scene".to_string(),
                status: "pending".to_string(),
                rom: None,
                screenshot: None,
                frames: None,
                replay: None,
                expected_crc32: None,
                notes: "needs fresh shop proof".to_string(),
                candidate_route: None,
                probe_requirements: vec![
                    ProbeRequirement {
                        id: "route-search-shop-money-range".to_string(),
                        kind: "logical_read_bp".to_string(),
                        memory_type: Some("smsMemory".to_string()),
                        address: Some("0x9BC6".to_string()),
                        end: Some("0x9CC0".to_string()),
                        value: Some("0x0C".to_string()),
                        value_len: None,
                        value_mask: None,
                        pc_min: Some("0x8000".to_string()),
                        pc_max: Some("0x8FFF".to_string()),
                        install_phase: None,
                        bank_snapshot: Some("smsMemory:0xFFFE:2".to_string()),
                        valid_when: Some("slot2=0x09".to_string()),
                        notes: "route-search range filtered away from font decode reads".to_string(),
                    },
                ],
            },
        ],
    };

    for scene in &manifest.scenes {
        validate_runtime_scene(scene).unwrap();
    }
    let plan = build_runtime_probe_plan(
        &manifest,
        "assets/qa/runtime_scenes.json",
        Some("shop_money_fresh_scene"),
        None,
    )
    .unwrap();
    let request = plan.scenes[0].probes[0]
        .emucap_set_breakpoint
        .as_ref()
        .unwrap();
    let args = &request.args;

    assert_eq!(args.pc_min, Some("0x8000"));
    assert_eq!(args.pc_max, Some("0x8FFF"));
}

#[test]
fn runtime_probe_plan_exports_masked_vram_write_breakpoint_args() {
    let manifest = RuntimeSceneManifest {
        format: "madoua-runtime-scenes-v1".to_string(),
        scenes: vec![
            RuntimeScene {
                id: "shop_money_fresh_scene".to_string(),
                status: "pending".to_string(),
                rom: None,
                screenshot: None,
                frames: None,
                replay: None,
                expected_crc32: None,
                notes: "needs fresh shop proof".to_string(),
                candidate_route: None,
                probe_requirements: vec![
                    ProbeRequirement {
                        id: "shop-money-vram-nametable-low-byte-write".to_string(),
                        kind: "vram_write_bp".to_string(),
                        memory_type: Some("smsVideoRam".to_string()),
                        address: Some("0x3800".to_string()),
                        end: Some("0x3EFF".to_string()),
                        value: Some("0x0060".to_string()),
                        value_len: Some(2),
                        value_mask: Some("0x00FF".to_string()),
                        pc_min: None,
                        pc_max: None,
                        install_phase: Some("after_scene_reached".to_string()),
                        bank_snapshot: None,
                        valid_when: None,
                        notes: "deferred classifier for nametable writes".to_string(),
                    },
                ],
            },
        ],
    };

    for scene in &manifest.scenes {
        validate_runtime_scene(scene).unwrap();
    }
    let plan = build_runtime_probe_plan(
        &manifest,
        "assets/qa/runtime_scenes.json",
        Some("shop_money_fresh_scene"),
        None,
    )
    .unwrap();
    let request = plan.scenes[0].probes[0]
        .emucap_set_breakpoint
        .as_ref()
        .unwrap();

    let args = &request.args;
    assert_eq!(args.kind, "write");
    assert_eq!(args.memory_type, "smsVideoRam");
    assert_eq!(args.start, "0x3800");
    assert_eq!(args.end, "0x3EFF");
    assert_eq!(args.value, Some("0x0060"));
    assert_eq!(args.value_len, Some(2));
    assert_eq!(args.value_mask, Some("0x00FF"));
    assert_eq!(
        plan.scenes[0].probes[0].probe.install_phase.as_deref(),
        Some("after_scene_reached")
    );
}

#[test]
fn runtime_probe_plan_filters_by_install_phase() {
    let manifest = RuntimeSceneManifest {
        format: "madoua-runtime-scenes-v1".to_string(),
        scenes: vec![
            RuntimeScene {
                id: "shop_money_fresh_scene".to_string(),
                status: "pending".to_string(),
                rom: None,
                screenshot: None,
                frames: None,
                replay: None,
                expected_crc32: None,
                notes: "needs fresh shop proof".to_string(),
                candidate_route: None,
                probe_requirements: vec![
                    ProbeRequirement {
                        id: "shop-money-main-font-glyph-read".to_string(),
                        kind: "logical_read_bp".to_string(),
                        memory_type: Some("smsMemory".to_string()),
                        address: Some("0x9B55".to_string()),
                        end: Some("0x9B5C".to_string()),
                        value: None,
                        value_len: None,
                        value_mask: None,
                        pc_min: None,
                        pc_max: None,
                        install_phase: None,
                        bank_snapshot: Some("smsMemory:0xFFFE:2".to_string()),
                        valid_when: Some("slot2=0x06".to_string()),
                        notes: "from-reset source read".to_string(),
                    },
                    ProbeRequirement {
                        id: "shop-money-vram-nametable-low-byte-write".to_string(),
                        kind: "vram_write_bp".to_string(),
                        memory_type: Some("smsVideoRam".to_string()),
                        address: Some("0x3800".to_string()),
                        end: Some("0x3EFF".to_string()),
                        value: Some("0x0060".to_string()),
                        value_len: Some(2),
                        value_mask: Some("0x00FF".to_string()),
                        pc_min: None,
                        pc_max: None,
                        install_phase: Some("after_scene_reached".to_string()),
                        bank_snapshot: None,
                        valid_when: None,
                        notes: "deferred classifier for nametable writes".to_string(),
                    },
                ],
            },
        ],
    };

    for scene in &manifest.scenes {
        validate_runtime_scene(scene).unwrap();
    }
    let fresh_plan = build_runtime_probe_plan(
        &manifest,
        "assets/qa/runtime_scenes.json",
        Some("shop_money_fresh_scene"),
        Some("fresh_start"),
    )
    .unwrap();
    assert_eq!(fresh_plan.install_phase.as_deref(), Some("fresh_start"));
    assert_eq!(fresh_plan.scenes[0].probes.len(), 1);
    assert_eq!(
        fresh_plan.scenes[0].probes[0].probe.id,
        "shop-money-main-font-glyph-read"
    );

    let after_scene_plan = build_runtime_probe_plan(
        &manifest,
        "assets/qa/runtime_scenes.json",
        Some("shop_money_fresh_scene"),
        Some("after_scene_reached"),
    )
    .unwrap();
    assert_eq!(
        after_scene_plan.install_phase.as_deref(),
        Some("after_scene_reached")
    );
    assert_eq!(after_scene_plan.scenes[0].probes.len(), 1);
    assert_eq!(
        after_scene_plan.scenes[0].probes[0].probe.id,
        "shop-money-vram-nametable-low-byte-write"
    );

    let err = build_runtime_probe_plan(
        &manifest,
        "assets/qa/runtime_scenes.json",
        Some("shop_money_fresh_scene"),
        Some("wrong_phase"),
    )
    .unwrap_err();
    assert!(
        err.to_string()
            .contains("unsupported install_phase filter wrong_phase")
    );
}

#[test]
fn runtime_probe_event_summary_matches_manifest_probe() {
    let manifest = RuntimeSceneManifest {
        format: "madoua-runtime-scenes-v1".to_string(),
        scenes: vec![
            RuntimeScene {
                id: "cutscene_field_text_emucap_route".to_string(),
                status: "pending".to_string(),
                rom: None,
                screenshot: None,
                frames: None,
                replay: None,
                expected_crc32: None,
                notes: "pending cutscene route".to_string(),
                candidate_route: None,
                probe_requirements: vec![
                    ProbeRequirement {
                        id: "cutscene-loop-a4fb-exec".to_string(),
                        kind: "logical_exec_bp".to_string(),
                        memory_type: Some("smsMemory".to_string()),
                        address: Some("0xA4FB".to_string()),
                        end: None,
                        value: None,
                        value_len: None,
                        value_mask: None,
                        pc_min: None,
                        pc_max: None,
                        install_phase: None,
                        bank_snapshot: Some("smsMemory:0xFFFE:2".to_string()),
                        valid_when: Some("slot2=0x06".to_string()),
                        notes: "cutscene classifier".to_string(),
                    },
                ],
            },
        ],
    };
    let files = vec![EventFile {
        path: "events.json".to_string(),
        events: EmucapPollEvents {
            dropped: Some(0),
            events: vec![EmucapEvent {
                address: Some(42235),
                breakpoint_id: Some(5),
                frame: Some(668),
                kind: Some("exec".to_string()),
                value: Some(205),
                pc: None,
                snapshot: vec![
                    EmucapEventSnapshot {
                        address: 65534,
                        hex: "0006".to_string(),
                        memory_type: "smsMemory".to_string(),
                    },
                ],
            }],
        },
    }];

    let plan = build_runtime_probe_plan(
        &manifest,
        "runtime_scenes.json",
        Some("cutscene_field_text_emucap_route"),
        None,
    )
    .unwrap();
    assert_eq!(plan.scenes[0].probes.len(), 1);

        assert!(probe_matches_event(plan.scenes[0].probes[0].probe, &files[0].events.events[0]).unwrap());

    let report = build_probe_event_report(
        &manifest,
        "runtime_scenes.json",
        &files,
        Some("cutscene_field_text_emucap_route"),
    )
    .unwrap();
    assert_eq!(report.total_events, 1);
    assert_eq!(report.matched_events, 1);
    assert_eq!(report.scenes[0].probe_count, 1);
    assert_eq!(report.scenes[0].probes_with_hits, 1);
    assert_eq!(report.scenes[0].probes_with_valid_hits, 1);
    assert_eq!(report.scenes[0].hit_count, 1);
    assert_eq!(report.scenes[0].valid_hit_count, 1);
    assert_eq!(report.scenes[0].invalid_hit_count, 0);
    assert_eq!(report.scenes[0].probes[0].hit_count, 1);
    assert_eq!(report.scenes[0].probes[0].valid_hit_count, 1);
    assert_eq!(report.scenes[0].probes[0].invalid_hit_count, 0);
    assert_eq!(
        report.scenes[0].probes[0].hits[0].valid_when_matched,
        Some(true)
    );
}

#[test]
fn runtime_probe_event_summary_marks_wrong_mapper_bank_invalid() {
    let manifest = RuntimeSceneManifest {
        format: "madoua-runtime-scenes-v1".to_string(),
        scenes: vec![
            RuntimeScene {
                id: "shop_money_fresh_scene".to_string(),
                status: "pending".to_string(),
                rom: None,
                screenshot: None,
                frames: None,
                replay: None,
                expected_crc32: None,
                notes: "pending shop route".to_string(),
                candidate_route: None,
                probe_requirements: vec![
                    ProbeRequirement {
                        id: "shop-money-main-font-glyph-read".to_string(),
                        kind: "logical_read_bp".to_string(),
                        memory_type: Some("smsMemory".to_string()),
                        address: Some("0x9B55".to_string()),
                        end: Some("0x9B5C".to_string()),
                        value: None,
                        value_len: None,
                        value_mask: None,
                        pc_min: None,
                        pc_max: None,
                        install_phase: None,
                        bank_snapshot: Some("smsMemory:0xFFFE:2".to_string()),
                        valid_when: Some("slot2=0x06".to_string()),
                        notes: "main-font money candidate".to_string(),
                    },
                ],
            },
        ],
    };
    let files = vec![EventFile {
        path: "events.json".to_string(),
        events: EmucapPollEvents {
            dropped: Some(0),
            events: vec![EmucapEvent {
                address: Some(39765),
                breakpoint_id: Some(18),
                frame: Some(11351),
                kind: Some("read".to_string()),
                value: Some(206),
                pc: None,
                snapshot: vec![
                    EmucapEventSnapshot {
                        address: 65534,
                        hex: "000e".to_string(),
                        memory_type: "smsMemory".to_string(),
                    },
                ],
            }],
        },
    }];

    let report = build_probe_event_report(
        &manifest,
        "runtime_scenes.json",
        &files,
        Some("shop_money_fresh_scene"),
    )
    .unwrap();
    let scene = &report.scenes[0];
    let probe = &scene.probes[0];
    assert_eq!(scene.hit_count, 1);
    assert_eq!(scene.valid_hit_count, 0);
    assert_eq!(scene.invalid_hit_count, 1);
    assert_eq!(scene.probes_with_hits, 1);
    assert_eq!(scene.probes_with_valid_hits, 0);
    assert_eq!(probe.hit_count, 1);
    assert_eq!(probe.valid_hit_count, 0);
    assert_eq!(probe.invalid_hit_count, 1);
    assert_eq!(probe.hits[0].valid_when_matched, Some(false));
    assert!(
        probe.hits[0]
            .valid_when_detail
            .as_deref()
            .unwrap()
            .contains("slot2=0x0E expected 0x06")
    );
}

#[test]
fn runtime_probe_summary_gate_accepts_required_valid_probe() {
    let report = ProbeEventReport {
        format: "madoua-runtime-probe-events-summary-v1".to_string(),
        manifest: "assets/qa/runtime_scenes.json".to_string(),
        scene: Some("cutscene_field_text_emucap_route".to_string()),
        event_files: vec!["out/emu/cutscene_events.json".to_string()],
        total_events: 1,
        dropped_events: 0,
        matched_events: 1,
        unmatched_events: Vec::new(),
        scenes: vec![SceneEventSummary {
            scene_id: "cutscene_field_text_emucap_route".to_string(),
            probe_count: 1,
            probes_with_hits: 1,
            probes_with_valid_hits: 1,
            hit_count: 1,
            valid_hit_count: 1,
            invalid_hit_count: 0,
            probes: vec![ProbeEventSummary {
                probe_id: "cutscene-loop-a4fb-exec".to_string(),
                kind: "logical_exec_bp".to_string(),
                address: Some("0xA4FB".to_string()),
                end: None,
                hit_count: 1,
                valid_hit_count: 1,
                invalid_hit_count: 0,
                hits: Vec::new(),
            }],
        }],
    };
    let required = vec!["cutscene-loop-a4fb-exec".to_string()];

    let result = check_probe_event_report(
        &report,
        Some("cutscene_field_text_emucap_route"),
        1,
        &required,
        true,
        false,
        false,
    )
    .unwrap();

    assert_eq!(result.scenes_checked, 1);
    assert_eq!(result.valid_hit_count, 1);
    assert_eq!(result.invalid_hit_count, 0);
    assert_eq!(result.unmatched_event_count, 0);
}

#[test]
fn runtime_probe_summary_gate_rejects_wrong_bank_raw_hits() {
    let report = ProbeEventReport {
        format: "madoua-runtime-probe-events-summary-v1".to_string(),
        manifest: "assets/qa/runtime_scenes.json".to_string(),
        scene: Some("shop_money_fresh_scene".to_string()),
        event_files: vec!["out/emu/shop_events.json".to_string()],
        total_events: 2,
        dropped_events: 0,
        matched_events: 2,
        unmatched_events: Vec::new(),
        scenes: vec![SceneEventSummary {
            scene_id: "shop_money_fresh_scene".to_string(),
            probe_count: 1,
            probes_with_hits: 1,
            probes_with_valid_hits: 0,
            hit_count: 2,
            valid_hit_count: 0,
            invalid_hit_count: 2,
            probes: vec![ProbeEventSummary {
                probe_id: "shop-money-main-font-glyph-read".to_string(),
                kind: "logical_read_bp".to_string(),
                address: Some("0x9B55".to_string()),
                end: Some("0x9B5C".to_string()),
                hit_count: 2,
                valid_hit_count: 0,
                invalid_hit_count: 2,
                hits: Vec::new(),
            }],
        }],
    };
    let required = vec!["shop-money-main-font-glyph-read".to_string()];

    let err = check_probe_event_report(
        &report,
        Some("shop_money_fresh_scene"),
        1,
        &required,
        false,
        false,
        false,
    )
    .unwrap_err();

    assert!(err.to_string().contains("valid_hit_count 0"));
}

#[test]
fn runtime_probe_summary_gate_can_reject_invalid_hits() {
    let report = ProbeEventReport {
        format: "madoua-runtime-probe-events-summary-v1".to_string(),
        manifest: "assets/qa/runtime_scenes.json".to_string(),
        scene: Some("mixed_scene".to_string()),
        event_files: vec!["out/emu/mixed_events.json".to_string()],
        total_events: 2,
        dropped_events: 0,
        matched_events: 2,
        unmatched_events: Vec::new(),
        scenes: vec![SceneEventSummary {
            scene_id: "mixed_scene".to_string(),
            probe_count: 1,
            probes_with_hits: 1,
            probes_with_valid_hits: 1,
            hit_count: 2,
            valid_hit_count: 1,
            invalid_hit_count: 1,
            probes: vec![ProbeEventSummary {
                probe_id: "mixed-probe".to_string(),
                kind: "logical_read_bp".to_string(),
                address: Some("0x9B55".to_string()),
                end: Some("0x9B5C".to_string()),
                hit_count: 2,
                valid_hit_count: 1,
                invalid_hit_count: 1,
                hits: Vec::new(),
            }],
        }],
    };

    let err =
        check_probe_event_report(&report, Some("mixed_scene"), 1, &[], true, false, false)
            .unwrap_err();

    assert!(err.to_string().contains("invalid_hit_count 1"));
}

#[test]
fn runtime_probe_summary_gate_can_reject_unmatched_events() {
    let report = ProbeEventReport {
        format: "madoua-runtime-probe-events-summary-v1".to_string(),
        manifest: "assets/qa/runtime_scenes.json".to_string(),
        scene: Some("mixed_scene".to_string()),
        event_files: vec!["out/emu/mixed_events.json".to_string()],
        total_events: 2,
        dropped_events: 0,
        matched_events: 1,
        unmatched_events: vec![UnmatchedProbeEvent {
            path: "out/emu/mixed_events.json".to_string(),
            kind: Some("read".to_string()),
            address: Some(0x9BD3),
            pc: Some(0x9A54),
            frame: Some(7877),
            breakpoint_id: Some(6),
        }],
        scenes: vec![SceneEventSummary {
            scene_id: "mixed_scene".to_string(),
            probe_count: 1,
            probes_with_hits: 1,
            probes_with_valid_hits: 1,
            hit_count: 1,
            valid_hit_count: 1,
            invalid_hit_count: 0,
            probes: vec![ProbeEventSummary {
                probe_id: "mixed-probe".to_string(),
                kind: "logical_read_bp".to_string(),
                address: Some("0x9B55".to_string()),
                end: Some("0x9B5C".to_string()),
                hit_count: 1,
                valid_hit_count: 1,
                invalid_hit_count: 0,
                hits: Vec::new(),
            }],
        }],
    };

    let result =
        check_probe_event_report(&report, Some("mixed_scene"), 1, &[], false, false, false)
            .unwrap();
    assert_eq!(result.unmatched_event_count, 1);

    let err =
        check_probe_event_report(&report, Some("mixed_scene"), 1, &[], false, true, false)
            .unwrap_err();

    assert!(err.to_string().contains("unmatched_event_count 1"));
}

#[test]
fn runtime_probe_event_summary_matches_range_probe() {
    let probe = ProbeRequirement {
        id: "shop-money-main-font-glyph-read".to_string(),
        kind: "logical_read_bp".to_string(),
        memory_type: Some("smsMemory".to_string()),
        address: Some("0x9B55".to_string()),
        end: Some("0x9B5C".to_string()),
        value: None,
        value_len: None,
        value_mask: None,
        pc_min: None,
        pc_max: None,
        install_phase: None,
        bank_snapshot: Some("smsMemory:0xFFFE:2".to_string()),
        valid_when: Some("slot2=0x06".to_string()),
        notes: "main-font source range".to_string(),
    };
    let event = EmucapEvent {
        address: Some(39768),
        breakpoint_id: Some(38),
        frame: Some(1234),
        kind: Some("read".to_string()),
        value: Some(124),
        pc: None,
        snapshot: Vec::new(),
    };

    assert!(probe_matches_event(&probe, &event).unwrap());
}

#[test]
fn runtime_probe_event_summary_applies_pc_filter() {
    let probe = ProbeRequirement {
        id: "route-search-shop-money-range".to_string(),
        kind: "logical_read_bp".to_string(),
        memory_type: Some("smsMemory".to_string()),
        address: Some("0x9BC6".to_string()),
        end: Some("0x9CC0".to_string()),
        value: Some("0x0C".to_string()),
        value_len: None,
        value_mask: None,
        pc_min: Some("0x8000".to_string()),
        pc_max: Some("0x8FFF".to_string()),
        install_phase: None,
        bank_snapshot: Some("smsMemory:0xFFFE:2".to_string()),
        valid_when: Some("slot2=0x09".to_string()),
        notes: "route-search range filtered away from font decode reads".to_string(),
    };
    let font_decode_hit = EmucapEvent {
        address: Some(39891),
        breakpoint_id: Some(6),
        frame: Some(7877),
        kind: Some("read".to_string()),
        value: Some(12),
        pc: Some(39508),
        snapshot: vec![
            EmucapEventSnapshot {
                address: 65534,
                hex: "0006".to_string(),
                memory_type: "smsMemory".to_string(),
            },
        ],
    };
    let route_hit = EmucapEvent {
        address: Some(39891),
        breakpoint_id: Some(7),
        frame: Some(9000),
        kind: Some("read".to_string()),
        value: Some(12),
        pc: Some(33024),
        snapshot: vec![
            EmucapEventSnapshot {
                address: 65534,
                hex: "0009".to_string(),
                memory_type: "smsMemory".to_string(),
            },
        ],
    };

    assert!(!probe_matches_event(&probe, &font_decode_hit).unwrap());
    assert!(probe_matches_event(&probe, &route_hit).unwrap());
}

#[test]
fn runtime_probe_event_summary_matches_masked_write_probe() {
    let probe = ProbeRequirement {
        id: "shop-money-vram-nametable-low-byte-write".to_string(),
        kind: "vram_write_bp".to_string(),
        memory_type: Some("smsVideoRam".to_string()),
        address: Some("0x3800".to_string()),
        end: Some("0x3EFF".to_string()),
        value: Some("0x0060".to_string()),
        value_len: Some(2),
        value_mask: Some("0x00FF".to_string()),
        pc_min: None,
        pc_max: None,
        install_phase: Some("after_scene_reached".to_string()),
        bank_snapshot: None,
        valid_when: None,
        notes: "deferred classifier for nametable writes".to_string(),
    };
    let event = EmucapEvent {
        address: Some(14336),
        breakpoint_id: Some(41),
        frame: Some(4321),
        kind: Some("write".to_string()),
        value: Some(54880),
        pc: None,
        snapshot: Vec::new(),
    };

    assert!(probe_matches_event(&probe, &event).unwrap());
}

#[test]
fn runtime_scene_manifest_accepts_candidate_route_press_action() {
    let route = CandidateRoute {
        tool: "emucap".to_string(),
        start: "title menu".to_string(),
        actions: vec![CandidateRouteAction {
            op: "press".to_string(),
            frames: Some(120),
            buttons: vec!["two".to_string()],
            count: None,
        }],
        evidence_screenshot: "out/emu/example.png".to_string(),
        evidence_crc32: "089856CA".to_string(),
        expected_text_ref: "cutscene/006".to_string(),
    };

    validate_candidate_route("press_route", &route).unwrap();
}

#[test]
fn runtime_scene_manifest_accepts_candidate_evidence_png() {
    let picture = b"\x89PNG\r\n\x1A\nminimal";
    let expected_crc32 = format!("{:08X}", crc32fast::hash(picture));
    let scene = RuntimeScene {
        id: "candidate".to_string(),
        status: "pending".to_string(),
        rom: None,
        screenshot: None,
        frames: None,
        replay: None,
        expected_crc32: None,
        notes: "candidate route".to_string(),
        candidate_route: Some(CandidateRoute {
            tool: "emucap".to_string(),
            start: "reset".to_string(),
            actions: vec![CandidateRouteAction {
                op: "step".to_string(),
                frames: Some(60),
                buttons: Vec::new(),
                count: None,
            }],
            evidence_screenshot: "candidate.png".to_string(),
            evidence_crc32: expected_crc32,
            expected_text_ref: "cutscene/005".to_string(),
        }),
        probe_requirements: Vec::new(),
    };

    validate_runtime_scene(&scene).unwrap();
    let route = scene.candidate_route.as_ref().unwrap();
    check_evidence(&scene.id, route, picture).unwrap();
}
