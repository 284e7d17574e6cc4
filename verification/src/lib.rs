//! Korean patch tooling for the Game Gear release of Madou Monogatari A.
pub mod bits;
pub mod bps;
pub mod build_rom;
pub mod build_ui;
pub mod button_laws;
pub mod bytes;
pub mod codec_laws;
pub mod digest;
pub mod error;
pub mod extract_laws;
pub mod file_laws;
pub mod font;
pub mod glyph;
pub mod header;
pub mod hexbytes;
pub mod jp_text;
pub mod ko_text;
pub mod label_laws;
pub mod lzss;
pub mod mapper;
pub mod number_laws;
pub mod order;
pub mod parse;
pub mod parse_laws;
pub mod patching;
pub mod picture_laws;
pub mod place_laws;
pub mod plan_laws;
pub mod poc;
pub mod pointers;
pub mod raw_text;
pub mod read_back;
pub mod report_laws;
pub mod rom;
pub mod rom_laws;
pub mod runs;
pub mod runtime_events;
pub mod runtime_gate;
pub mod runtime_laws;
pub mod runtime_probe;
pub mod runtime_report;
pub mod runtime_scene;
pub mod scan;
pub mod scan_laws;
pub mod script;
pub mod script_bins;
pub mod script_callers;
pub mod script_laws;
pub mod shop_laws;
pub mod shop_layout;
pub mod stage;
pub mod stage_files;
pub mod stage_laws;
pub mod surface_laws;
pub mod surfaces;
pub mod tag_laws;
pub mod tags;
pub mod term_laws;
pub mod terms;
pub mod text;
pub mod text_laws;
pub mod tracked_rom;
pub mod translation;
pub mod trial_laws;
pub mod ui_graphics;
pub mod ui_labels;
pub mod ui_report;
pub mod vram;
pub mod z80;
pub mod z80_machine;
