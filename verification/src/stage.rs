//! Checking a stage of the translation against the extracted scripts.
use vstd::prelude::*;
use crate::error::{plain, Fault, PatchError};
use crate::hexbytes::{hex_text_bytes, parse_hex_bytes};
use crate::ko_text::{
    all_tokens, encode_translation_text, is_glyph_order, over_capacity, text_code, KoEncoding,
};
use crate::parse::{same_str, string_views, trim_spec};
use crate::raw_text::{find_raw, is_text, raw_index, raw_views, RawTextEntry, RawView};
use crate::script::{fault_outcome, opt_int};
use crate::script_callers::opt_text;
use crate::shop_layout::{
    shop_fault, validate_shop_layout, validate_visible_line_ceiling, width_fault,
    GG_VISIBLE_TEXT_COLUMNS,
};
use crate::terms::{
    chars_outside_tags, check_term_usage, outside_tags, term_views, usage_fault, TermEntry,
    TermView,
};
use crate::text::{chars_of, text};
use crate::translation::{
    is_blank, metadata_fault, punctuation_fault, validate_korean_punctuation,
    validate_source_metadata, OverrideView, TranslationOverride,
};

verus! {

/// An entry of a stage file.
#[derive(Debug, Clone)]
pub struct StageTranslationEntry {
    /// Unique name of the script.
    pub id: String,
    /// What the script belongs to.
    pub kind: Option<String>,
    /// The region, for region scripts.
    pub region: Option<usize>,
    /// Number within its kind or region.
    pub index: Option<usize>,
    /// ROM offset, written out.
    pub offset: Option<String>,
    /// Length in bytes.
    pub len: Option<usize>,
    /// The source in readable form.
    pub jp: String,
    /// The bytes of the source as hexadecimal words.
    pub bytes_hex: String,
    /// Checksum of the source.
    pub source_crc32: String,
    /// The translation.
    pub ko: String,
    /// How far the translation has come.
    pub status: String,
    /// Remarks.
    pub notes: String,
    /// Whether the entry is left alone.
    pub skip: bool,
}

/// The model of an entry of a stage file.
#[verifier::ext_equal]
pub struct StageView {
    /// What the script belongs to.
    pub kind: Option<Seq<char>>,
    /// The region, for region scripts.
    pub region: Option<int>,
    /// Number within its kind or region.
    pub index: Option<int>,
    /// ROM offset, written out.
    pub offset: Option<Seq<char>>,
    /// Length in bytes.
    pub len: Option<int>,
    /// What the entry has in common with translation files.
    pub entry: OverrideView,
}

impl View for StageTranslationEntry {
    type V = StageView;

    open spec fn view(&self) -> StageView {
        StageView {
            kind: opt_text(self.kind),
            region: opt_int(self.region),
            index: opt_int(self.index),
            offset: opt_text(self.offset),
            len: opt_int(self.len),
            entry: OverrideView {
                id: self.id@,
                jp: self.jp@,
                bytes_hex: self.bytes_hex@,
                source_crc32: self.source_crc32@,
                ko: self.ko@,
                status: self.status@,
                notes: self.notes@,
                skip: self.skip,
            },
        }
    }
}

impl StageTranslationEntry {
    /// The entry as it would stand in a translation file.
    pub fn as_override(&self) -> (e: TranslationOverride)
        ensures
            e@ == self@.entry,
    {
        TranslationOverride {
            id: self.id.clone(),
            jp: self.jp.clone(),
            bytes_hex: self.bytes_hex.clone(),
            source_crc32: self.source_crc32.clone(),
            ko: self.ko.clone(),
            status: self.status.clone(),
            notes: self.notes.clone(),
            skip: self.skip,
        }
    }

    /// Whether the entry puts a translation into the game.
    pub fn is_active(&self) -> (r: bool)
        ensures
            r == self@.entry.active(),
    {
        !self.skip && !is_blank(self.ko.as_str())
    }
}

// ---------------------------------------------------------------------------
// Protected fields
// ---------------------------------------------------------------------------

/// What is said where a protected field was changed.
pub open spec fn changed_field(id: Seq<char>, field: Seq<char>, path: Seq<char>) -> Seq<char> {
    id + ": "@ + field + " protected field mismatch in "@ + path
}

/// What is wrong with a field that must be there and unchanged, if anything.
pub open spec fn required_fault(
    path: Seq<char>,
    id: Seq<char>,
    field: Seq<char>,
    actual: Seq<char>,
    expected: Seq<char>,
) -> Option<Fault> {
    if trim_spec(actual).len() == 0 {
        Some(plain(id + ": "@ + field + " is required in "@ + path))
    } else if actual != expected {
        Some(plain(changed_field(id, field, path)))
    } else {
        None
    }
}

/// What is wrong with the protected fields of an entry, if anything. The first five
/// may be left out; what is there must be as it was extracted.
pub open spec fn fields_fault(path: Seq<char>, e: StageView, raw: RawView) -> Option<Fault> {
    let id = e.entry.id;
    if e.kind is Some && e.kind != raw.kind {
        Some(plain(changed_field(id, "kind"@, path)))
    } else if e.region is Some && e.region != raw.region {
        Some(plain(changed_field(id, "region"@, path)))
    } else if e.index is Some && e.index != raw.index {
        Some(plain(changed_field(id, "index"@, path)))
    } else if e.offset is Some && e.offset != raw.offset {
        Some(plain(changed_field(id, "offset"@, path)))
    } else if e.len is Some && e.len != raw.len {
        Some(plain(changed_field(id, "len"@, path)))
    } else {
        match required_fault(path, id, "jp"@, e.entry.jp, raw.jp) {
            Some(f) => Some(f),
            None => match required_fault(
                path,
                id,
                "bytes_hex"@,
                e.entry.bytes_hex,
                raw.bytes_hex,
            ) {
                Some(f) => Some(f),
                None => required_fault(
                    path,
                    id,
                    "source_crc32"@,
                    e.entry.source_crc32,
                    raw.source_crc32,
                ),
            },
        }
    }
}

fn field_changed(id: &str, field: &str, path: &str) -> (e: PatchError)
    ensures
        e@ == plain(changed_field(id@, field@, path@)),
{
    text(id).lit(": ").lit(field).lit(" protected field mismatch in ").lit(path).fail()
}

fn text_kept(actual: &Option<String>, expected: &Option<String>) -> (r: bool)
    ensures
        r == (opt_text(*actual) is None || opt_text(*actual) == opt_text(*expected)),
{
    match actual {
        None => true,
        Some(a) => match expected {
            None => false,
            Some(b) => same_str(a.as_str(), b.as_str()),
        },
    }
}

fn number_kept(actual: Option<usize>, expected: Option<usize>) -> (r: bool)
    ensures
        r == (opt_int(actual) is None || opt_int(actual) == opt_int(expected)),
{
    match actual {
        None => true,
        Some(a) => match expected {
            None => false,
            Some(b) => a == b,
        },
    }
}

/// Checks a field that must be there and unchanged.
pub fn compare_required_field(path: &str, id: &str, field: &str, actual: &str, expected: &str) -> (res:
    Result<(), PatchError>)
    ensures
        fault_outcome(res) == required_fault(path@, id@, field@, actual@, expected@),
{
    if is_blank(actual) {
        return Err(text(id).lit(": ").lit(field).lit(" is required in ").lit(path).fail());
    }
    if !same_str(actual, expected) {
        return Err(field_changed(id, field, path));
    }
    Ok(())
}

/// Checks the protected fields of an entry against the extracted script.
pub fn compare_protected_fields(path: &str, e: &StageTranslationEntry, raw: &RawTextEntry) -> (res:
    Result<(), PatchError>)
    ensures
        fault_outcome(res) == fields_fault(path@, e@, raw@),
{
    let id = e.id.as_str();
    if !text_kept(&e.kind, &raw.kind) {
        return Err(field_changed(id, "kind", path));
    }
    if !number_kept(e.region, raw.region) {
        return Err(field_changed(id, "region", path));
    }
    if !number_kept(e.index, raw.index) {
        return Err(field_changed(id, "index", path));
    }
    if !text_kept(&e.offset, &raw.offset) {
        return Err(field_changed(id, "offset", path));
    }
    if !number_kept(e.len, raw.len) {
        return Err(field_changed(id, "len", path));
    }
    match compare_required_field(path, id, "jp", e.jp.as_str(), raw.jp.as_str()) {
        Ok(_) => {},
        Err(err) => {
            return Err(err);
        },
    }
    match compare_required_field(
        path,
        id,
        "bytes_hex",
        e.bytes_hex.as_str(),
        raw.bytes_hex.as_str(),
    ) {
        Ok(_) => {},
        Err(err) => {
            return Err(err);
        },
    }
    compare_required_field(
        path,
        id,
        "source_crc32",
        e.source_crc32.as_str(),
        raw.source_crc32.as_str(),
    )
}

// ---------------------------------------------------------------------------
// Status
// ---------------------------------------------------------------------------

/// What is wrong with the status of an entry in its stage, if anything.
pub open spec fn stage_status_fault(path: Seq<char>, stage: Option<Seq<char>>, e: OverrideView) -> Option<Fault> {
    let status = trim_spec(e.status);
    let ko_empty = trim_spec(e.ko).len() == 0;
    let no_notes = trim_spec(e.notes).len() == 0;
    if stage == Some("raw"@) {
        if status != "untranslated"@ {
            Some(plain(e.id + ": raw stage must keep status=untranslated"@))
        } else if !ko_empty {
            Some(plain(e.id + ": raw stage must keep ko empty"@))
        } else {
            None
        }
    } else if stage == Some("in_progress"@) {
        if status == "in_progress"@ || status == "done"@ || status == "needs_review"@ {
            None
        } else {
            Some(plain(e.id + ": invalid in_progress status "@ + status))
        }
    } else if stage == Some("needs_review"@) {
        if !(status == "done"@ || status == "needs_review"@) {
            Some(plain(e.id + ": needs_review stage requires status=done or needs_review"@))
        } else if ko_empty {
            Some(plain(e.id + ": needs_review entry has empty ko"@))
        } else if no_notes {
            Some(plain(e.id + ": needs_review entry must carry notes"@))
        } else {
            None
        }
    } else if stage == Some("needs_human_review"@) {
        if status != "needs_human_review"@ {
            Some(plain(e.id + ": needs_human_review stage requires matching status"@))
        } else if ko_empty {
            Some(plain(e.id + ": needs_human_review entry has empty ko"@))
        } else if no_notes {
            Some(plain(e.id + ": needs_human_review entry must carry notes"@))
        } else {
            None
        }
    } else if stage == Some("complete"@) {
        if !(status == "complete"@ || status == "done"@) {
            Some(plain(e.id + ": complete stage requires status=complete or done"@))
        } else if ko_empty {
            Some(plain(e.id + ": complete entry has empty ko"@))
        } else if no_notes {
            Some(plain(e.id + ": complete entry must carry notes"@))
        } else {
            None
        }
    } else if status.len() == 0 {
        Some(plain(e.id + ": status is required in "@ + path))
    } else {
        None
    }
}

/// Checks the status of an entry in its stage.
pub fn validate_stage_status(path: &str, stage: &Option<String>, e: &StageTranslationEntry) -> (res:
    Result<(), PatchError>)
    ensures
        fault_outcome(res) == stage_status_fault(path@, opt_text(*stage), e@.entry),
{
    let id = e.id.as_str();
    let all = chars_of(e.status.as_str());
    let trimmed = crate::parse::trim(all.as_slice());
    let owned = crate::text::string_of(trimmed);
    let status = owned.as_str();
    let ko_empty: bool = is_blank(e.ko.as_str());
    let no_notes: bool = is_blank(e.notes.as_str());
    if is_text(stage, "raw") {
        if !same_str(status, "untranslated") {
            return Err(text(id).lit(": raw stage must keep status=untranslated").fail());
        }
        if !ko_empty {
            return Err(text(id).lit(": raw stage must keep ko empty").fail());
        }
    } else if is_text(stage, "in_progress") {
        if !(same_str(status, "in_progress") || same_str(status, "done") || same_str(
            status,
            "needs_review",
        )) {
            return Err(text(id).lit(": invalid in_progress status ").lit(status).fail());
        }
    } else if is_text(stage, "needs_review") {
        if !(same_str(status, "done") || same_str(status, "needs_review")) {
            return Err(
                text(id).lit(
                    ": needs_review stage requires status=done or needs_review",
                ).fail(),
            );
        }
        if ko_empty {
            return Err(text(id).lit(": needs_review entry has empty ko").fail());
        }
        if no_notes {
            return Err(text(id).lit(": needs_review entry must carry notes").fail());
        }
    } else if is_text(stage, "needs_human_review") {
        if !same_str(status, "needs_human_review") {
            return Err(
                text(id).lit(": needs_human_review stage requires matching status").fail(),
            );
        }
        if ko_empty {
            return Err(text(id).lit(": needs_human_review entry has empty ko").fail());
        }
        if no_notes {
            return Err(text(id).lit(": needs_human_review entry must carry notes").fail());
        }
    } else if is_text(stage, "complete") {
        if !(same_str(status, "complete") || same_str(status, "done")) {
            return Err(
                text(id).lit(": complete stage requires status=complete or done").fail(),
            );
        }
        if ko_empty {
            return Err(text(id).lit(": complete entry has empty ko").fail());
        }
        if no_notes {
            return Err(text(id).lit(": complete entry must carry notes").fail());
        }
    } else if trimmed.len() == 0 {
        return Err(text(id).lit(": status is required in ").lit(path).fail());
    }
    Ok(())
}

// ---------------------------------------------------------------------------
// Residue
// ---------------------------------------------------------------------------

/// Whether a character belongs to Japanese text: kana or a Chinese character.
pub open spec fn is_japanese(ch: char) -> bool {
    0x3040 <= ch as int <= 0x30FF || 0x4E00 <= ch as int <= 0x9FFF
}

/// Whether a character belongs to Japanese text: kana or a Chinese character.
pub fn is_japanese_text_char(ch: char) -> (r: bool)
    ensures
        r == is_japanese(ch),
{
    let code: u32 = ch as u32;
    (0x3040 <= code && code <= 0x30FF) || (0x4E00 <= code && code <= 0x9FFF)
}

/// The first Japanese character among the first `n`.
pub open spec fn first_japanese(s: Seq<char>, n: int) -> Option<char>
    decreases n,
{
    if n <= 0 {
        None
    } else {
        match first_japanese(s, n - 1) {
            Some(c) => Some(c),
            None => if is_japanese(s[n - 1]) {
                Some(s[n - 1])
            } else {
                None
            },
        }
    }
}

/// What Japanese text is left in a translation, if any.
pub open spec fn residue_fault(e: OverrideView) -> Option<Fault> {
    let visible = outside_tags(e.ko);
    if !e.active() {
        None
    } else {
        match first_japanese(visible, visible.len() as int) {
            Some(c) => Some(plain(e.id + ": ko contains Japanese residue '"@ + seq![c] + "'"@)),
            None => None,
        }
    }
}

proof fn lemma_first_japanese(s: Seq<char>, k: int, n: int)
    requires
        k <= n,
        first_japanese(s, k) is Some,
    ensures
        first_japanese(s, n) == first_japanese(s, k),
    decreases n - k,
{
    if k < n {
        lemma_first_japanese(s, k, n - 1);
    }
}

/// Checks that no Japanese text is left in a translation.
pub fn validate_no_japanese_residue(e: &StageTranslationEntry) -> (res: Result<(), PatchError>)
    ensures
        fault_outcome(res) == residue_fault(e@.entry),
{
    if !e.is_active() {
        return Ok(());
    }
    let all = chars_of(e.ko.as_str());
    let visible = chars_outside_tags(all.as_slice());
    let mut i: usize = 0;
    while i < visible.len()
        invariant
            i <= visible@.len(),
            visible@ == outside_tags(e@.entry.ko),
            e@.entry.active(),
            first_japanese(visible@, i as int) is None,
        decreases visible@.len() - i,
    {
        let ch: char = visible[i];
        if is_japanese_text_char(ch) {
            let one: Vec<char> = vec![ch];
            proof {
                assert(one@ =~= seq![ch]);
                lemma_first_japanese(visible@, i + 1, visible@.len() as int);
            }
            return Err(
                text(e.id.as_str()).lit(": ko contains Japanese residue '").chars(
                    one.as_slice(),
                ).lit("'").fail(),
            );
        }
        i += 1;
    }
    Ok(())
}

// ---------------------------------------------------------------------------
// One entry
// ---------------------------------------------------------------------------

/// What is wrong with an entry in view of its script, the glossary and the glyphs.
pub open spec fn stage_entry_fault(
    path: Seq<char>,
    stage: Option<Seq<char>>,
    e: StageView,
    raw: RawView,
    terms: Seq<TermView>,
    order: Seq<char>,
) -> Option<Fault> {
    let o = e.entry;
    match fields_fault(path, e, raw) {
        Some(f) => Some(f),
        None => match stage_status_fault(path, stage, o) {
            Some(f) => Some(f),
            None => match metadata_fault(o) {
                Some(cause) => Some(cause.under(o.id + ": source/control validation failed"@)),
                None => match residue_fault(o) {
                    Some(f) => Some(f),
                    None => match punctuation_fault(o.id, o.ko) {
                        Some(f) => Some(f),
                        None => if !o.active() {
                            None
                        } else {
                            match usage_fault(terms, o.id, o.jp, o.ko, terms.len() as int) {
                                Some(f) => Some(f),
                                None => match text_code(o.ko, order) {
                                    Err(cause) => Some(cause.under(o.id + " 인코딩 실패"@)),
                                    Ok(_) => None,
                                },
                            }
                        },
                    },
                },
            },
        },
    }
}

/// Checks an entry against its script, the glossary and the glyphs.
pub fn validate_stage_entry(
    path: &str,
    stage: &Option<String>,
    e: &StageTranslationEntry,
    raw: &RawTextEntry,
    terms: &[TermEntry],
    encoding: &KoEncoding,
) -> (res: Result<(), PatchError>)
    ensures
        fault_outcome(res) == stage_entry_fault(
            path@,
            opt_text(*stage),
            e@,
            raw@,
            term_views(terms@),
            encoding@,
        ),
{
    match compare_protected_fields(path, e, raw) {
        Ok(_) => {},
        Err(err) => {
            return Err(err);
        },
    }
    match validate_stage_status(path, stage, e) {
        Ok(_) => {},
        Err(err) => {
            return Err(err);
        },
    }
    let o = e.as_override();
    match validate_source_metadata(&o) {
        Ok(_) => {},
        Err(cause) => {
            return Err(text(e.id.as_str()).lit(": source/control validation failed").fail_after(cause));
        },
    }
    match validate_no_japanese_residue(e) {
        Ok(_) => {},
        Err(err) => {
            return Err(err);
        },
    }
    match validate_korean_punctuation(e.id.as_str(), e.ko.as_str()) {
        Ok(_) => {},
        Err(err) => {
            return Err(err);
        },
    }
    if !e.is_active() {
        return Ok(());
    }
    match check_term_usage(terms, e.id.as_str(), e.jp.as_str(), e.ko.as_str()) {
        Ok(_) => {},
        Err(err) => {
            return Err(err);
        },
    }
    match encode_translation_text(e.ko.as_str(), encoding) {
        Ok(_) => Ok(()),
        Err(cause) => Err(text(e.id.as_str()).lit(" 인코딩 실패").fail_after(cause)),
    }
}

/// What a checked entry counts as.
#[derive(Clone, Copy, PartialEq, Eq, Structural, Debug)]
pub enum Tally {
    /// Nothing is put into the game.
    Inactive,
    /// A shop text that keeps its layout.
    Shop,
    /// Another text that fits the screen.
    Screen,
    /// One that is also longer than its source.
    Overlength,
}

/// What an active entry counts as, or what is wrong with how it looks.
pub open spec fn look_of(e: OverrideView, raw: RawView, order: Seq<char>) -> Result<
    Tally,
    Fault,
> {
    let bytes = text_code(e.ko, order)->Ok_0;
    if raw.is_shop() {
        match (hex_text_bytes(raw.bytes_hex), raw.len) {
            (Err(cause), _) => Err(cause.under(e.id + " raw shop bytes_hex"@)),
            (Ok(_), None) => Err(plain(e.id + ": raw shop entry has no len"@)),
            (Ok(raw_bytes), Some(len)) => match shop_fault(
                e.id,
                raw.jp,
                e.ko,
                raw_bytes,
                bytes,
                len,
            ) {
                Some(f) => Err(f),
                None => Ok(Tally::Shop),
            },
        }
    } else {
        match width_fault(e.id, e.ko, 20) {
            Some(f) => Err(f),
            None => match raw.len {
                Some(len) if bytes.len() > len => Ok(Tally::Overlength),
                _ => Ok(Tally::Screen),
            },
        }
    }
}

/// What an entry counts as, or what is wrong with it.
pub open spec fn entry_tally(
    path: Seq<char>,
    stage: Option<Seq<char>>,
    e: StageView,
    raw: RawView,
    terms: Seq<TermView>,
    order: Seq<char>,
) -> Result<Tally, Fault> {
    match stage_entry_fault(path, stage, e, raw, terms, order) {
        Some(f) => Err(f),
        None => if e.entry.active() {
            look_of(e.entry, raw, order)
        } else {
            Ok(Tally::Inactive)
        },
    }
}

/// A tally result in terms of models.
pub open spec fn tally_outcome(result: Result<Tally, PatchError>) -> Result<Tally, Fault> {
    match result {
        Ok(t) => Ok(t),
        Err(e) => Err(e@),
    }
}

fn check_look(e: &StageTranslationEntry, raw: &RawTextEntry, bytes: &[u8], order: Ghost<
    Seq<char>,
>) -> (res: Result<Tally, PatchError>)
    requires
        text_code(e@.entry.ko, order@) == Ok::<Seq<u8>, Fault>(bytes@),
    ensures
        tally_outcome(res) == look_of(e@.entry, raw@, order@),
{
    let id = e.id.as_str();
    if is_text(&raw.kind, "shop") {
        let raw_bytes = match parse_hex_bytes(raw.bytes_hex.as_str()) {
            Ok(b) => b,
            Err(cause) => {
                return Err(text(id).lit(" raw shop bytes_hex").fail_after(cause));
            },
        };
        let raw_len: usize = match raw.len {
            Some(n) => n,
            None => {
                return Err(text(id).lit(": raw shop entry has no len").fail());
            },
        };
        match validate_shop_layout(
            id,
            raw.jp.as_str(),
            e.ko.as_str(),
            raw_bytes.as_slice(),
            bytes,
            raw_len,
        ) {
            Ok(_) => Ok(Tally::Shop),
            Err(err) => Err(err),
        }
    } else {
        match validate_visible_line_ceiling(id, e.ko.as_str(), GG_VISIBLE_TEXT_COLUMNS) {
            Ok(_) => {},
            Err(err) => {
                return Err(err);
            },
        }
        match raw.len {
            Some(n) if bytes.len() > n => Ok(Tally::Overlength),
            _ => Ok(Tally::Screen),
        }
    }
}

fn check_entry(
    path: &str,
    stage: &Option<String>,
    e: &StageTranslationEntry,
    raw: &RawTextEntry,
    terms: &[TermEntry],
    encoding: &KoEncoding,
) -> (res: Result<Tally, PatchError>)
    ensures
        tally_outcome(res) == entry_tally(
            path@,
            opt_text(*stage),
            e@,
            raw@,
            term_views(terms@),
            encoding@,
        ),
{
    match validate_stage_entry(path, stage, e, raw, terms, encoding) {
        Ok(_) => {},
        Err(err) => {
            return Err(err);
        },
    }
    if !e.is_active() {
        return Ok(Tally::Inactive);
    }
    match encode_translation_text(e.ko.as_str(), encoding) {
        Ok(bytes) => check_look(e, raw, bytes.as_slice(), Ghost(encoding@)),
        Err(cause) => Err(text(e.id.as_str()).lit(" 인코딩 실패").fail_after(cause)),
    }
}

// ---------------------------------------------------------------------------
// A whole stage
// ---------------------------------------------------------------------------

/// An entry of a stage with the file that it stands in.
#[derive(Debug)]
pub struct StagedEntry {
    /// The file.
    pub path: String,
    /// The entry.
    pub entry: StageTranslationEntry,
}

/// The model of an entry of a stage with its file.
#[verifier::ext_equal]
pub struct StagedView {
    /// The file.
    pub path: Seq<char>,
    /// The entry.
    pub entry: StageView,
}

impl View for StagedEntry {
    type V = StagedView;

    open spec fn view(&self) -> StagedView {
        StagedView { path: self.path@, entry: self.entry@ }
    }
}

/// The models of entries of a stage.
pub open spec fn staged_views(list: Seq<StagedEntry>) -> Seq<StagedView> {
    Seq::new(list.len(), |i: int| list[i]@)
}

/// The translations that are put into the game.
pub open spec fn stage_texts(list: Seq<StagedView>) -> Seq<Seq<char>>
    decreases list.len(),
{
    if list.len() == 0 {
        Seq::empty()
    } else if list.last().entry.entry.active() {
        stage_texts(list.drop_last()).push(list.last().entry.entry.ko)
    } else {
        stage_texts(list.drop_last())
    }
}

/// The first of the first `n` entries with a given name.
pub open spec fn first_staged(list: Seq<StagedView>, id: Seq<char>, n: int) -> Option<int>
    decreases n,
{
    if n <= 0 {
        None
    } else {
        match first_staged(list, id, n - 1) {
            Some(k) => Some(k),
            None => if list[n - 1].entry.entry.id == id {
                Some(n - 1)
            } else {
                None
            },
        }
    }
}

/// What everything in a stage is checked against.
pub struct StageContext {
    /// The stage.
    pub stage: Option<Seq<char>>,
    /// The extracted scripts.
    pub raws: Seq<RawView>,
    /// The glossary.
    pub terms: Seq<TermView>,
    /// The order of glyphs.
    pub order: Seq<char>,
}

/// What the first `n` entries count as, or what is wrong with the first bad one.
pub open spec fn stage_tallies(list: Seq<StagedView>, c: StageContext, n: int) -> Result<
    Seq<Tally>,
    Fault,
>
    decreases n,
{
    if n <= 0 {
        Ok(Seq::empty())
    } else {
        let s = list[n - 1];
        let id = s.entry.entry.id;
        match stage_tallies(list, c, n - 1) {
            Err(e) => Err(e),
            Ok(done) => match first_staged(list, id, n - 1) {
                Some(k) => Err(
                    plain(
                        "중복 stage entry id: "@ + id + " ("@ + list[k].path + " and "@ + s.path
                            + ")"@,
                    ),
                ),
                None => match raw_index(c.raws, id) {
                    None => Err(plain(id + ": raw baseline entry not found"@)),
                    Some(k) => match entry_tally(
                        s.path,
                        c.stage,
                        s.entry,
                        c.raws[k],
                        c.terms,
                        c.order,
                    ) {
                        Err(e) => Err(e),
                        Ok(t) => Ok(done.push(t)),
                    },
                },
            },
        }
    }
}

/// How many entries count as `t`.
pub open spec fn tally_count(list: Seq<Tally>, t: Tally) -> int
    decreases list.len(),
{
    if list.len() == 0 {
        0
    } else {
        tally_count(list.drop_last(), t) + if list.last() == t {
            1int
        } else {
            0
        }
    }
}

/// What a check of a stage found.
#[derive(Debug)]
pub struct StageReport {
    /// How many entries there are.
    pub entries: usize,
    /// How many of them put a translation into the game.
    pub translated: usize,
    /// How many texts outside the shop are longer than their source.
    pub overlength: usize,
    /// How many shop texts keep their layout.
    pub shop_layout_verified: usize,
    /// How many texts outside the shop fit the screen.
    pub screen_ceiling_verified: usize,
    /// How many glyphs are needed.
    pub glyphs: usize,
}

/// Whether a report is the sum of tallies.
pub open spec fn report_adds_up(r: StageReport, tallies: Seq<Tally>, glyphs: int) -> bool {
    &&& r.entries == tallies.len()
    &&& r.translated == tallies.len() - tally_count(tallies, Tally::Inactive)
    &&& r.overlength == tally_count(tallies, Tally::Overlength)
    &&& r.shop_layout_verified == tally_count(tallies, Tally::Shop)
    &&& r.screen_ceiling_verified == tally_count(tallies, Tally::Screen) + tally_count(
        tallies,
        Tally::Overlength,
    )
    &&& r.glyphs == glyphs
}

/// Whether a result is what checking a stage gives.
pub open spec fn is_stage_result(
    result: Result<StageReport, PatchError>,
    list: Seq<StagedView>,
    stage: Option<Seq<char>>,
    stage_path: Seq<char>,
    raws: Seq<RawView>,
    terms: Seq<TermView>,
    defer_cap: bool,
) -> bool {
    if list.len() == 0 {
        result matches Err(e) && e@ == plain("stage entries가 비어 있음: "@ + stage_path)
    } else {
        match all_tokens(stage_texts(list)) {
            Err(f) => result matches Err(e) && e@ == f,
            Ok(tokens) => exists|order: Seq<char>|
                {
                    &&& #[trigger] is_glyph_order(tokens, order)
                    &&& if order.len() > 1000 && !defer_cap {
                        result matches Err(e) && e@ == plain(
                            over_capacity(order.len() as int),
                        )
                    } else {
                        match stage_tallies(
                            list,
                            (StageContext { stage, raws, terms, order }),
                            list.len() as int,
                        ) {
                            Err(f) => result matches Err(e) && e@ == f,
                            Ok(tallies) => result matches Ok(r) && report_adds_up(
                                r,
                                tallies,
                                order.len() as int,
                            ),
                        }
                    }
                },
        }
    }
}

proof fn lemma_first_staged(list: Seq<StagedView>, id: Seq<char>, k: int, n: int)
    requires
        k <= n,
        first_staged(list, id, k) is Some,
    ensures
        first_staged(list, id, n) == first_staged(list, id, k),
    decreases n - k,
{
    if k < n {
        lemma_first_staged(list, id, k, n - 1);
    }
}

proof fn lemma_stage_tallies(list: Seq<StagedView>, c: StageContext, k: int, n: int)
    requires
        k <= n,
        stage_tallies(list, c, k) is Err,
    ensures
        stage_tallies(list, c, n) == stage_tallies(list, c, k),
    decreases n - k,
{
    if k < n {
        lemma_stage_tallies(list, c, k, n - 1);
    }
}

fn find_staged(list: &[StagedEntry], id: &str, n: usize) -> (r: Option<usize>)
    requires
        n <= list@.len(),
    ensures
        match r {
            Some(k) => k < n && first_staged(staged_views(list@), id@, n as int) == Some(k as int),
            None => first_staged(staged_views(list@), id@, n as int) is None,
        },
{
    let ghost all = staged_views(list@);
    let mut k: usize = 0;
    while k < n
        invariant
            k <= n <= list@.len(),
            all == staged_views(list@),
            first_staged(all, id@, k as int) is None,
        decreases n - k,
    {
        proof {
            assert(all[k as int] == list@[k as int]@);
        }
        if same_str(list[k].entry.id.as_str(), id) {
            proof {
                lemma_first_staged(all, id@, k + 1, n as int);
            }
            return Some(k);
        }
        k += 1;
    }
    None
}

fn collect_stage_texts(list: &[StagedEntry]) -> (texts: Vec<String>)
    ensures
        string_views(texts@) == stage_texts(staged_views(list@)),
{
    let ghost all = staged_views(list@);
    let mut texts: Vec<String> = Vec::new();
    let mut i: usize = 0;
    proof {
        assert(string_views(texts@) =~= Seq::empty());
    }
    while i < list.len()
        invariant
            i <= list@.len(),
            all == staged_views(list@),
            string_views(texts@) == stage_texts(all.take(i as int)),
        decreases list@.len() - i,
    {
        proof {
            assert(all.take(i + 1).drop_last() =~= all.take(i as int));
            assert(all.take(i + 1).last() == list@[i as int]@);
        }
        if list[i].entry.is_active() {
            let ghost was = string_views(texts@);
            texts.push(list[i].entry.ko.clone());
            proof {
                assert(string_views(texts@) =~= was.push(list@[i as int].entry.ko@));
            }
        }
        i += 1;
    }
    proof {
        assert(all.take(i as int) =~= all);
    }
    texts
}

fn check_entries(
    list: &[StagedEntry],
    stage: &Option<String>,
    raws: &[RawTextEntry],
    terms: &[TermEntry],
    encoding: &KoEncoding,
) -> (res: Result<StageReport, PatchError>)
    ensures
        match stage_tallies(
            staged_views(list@),
            (StageContext {
                stage: opt_text(*stage),
                raws: raw_views(raws@),
                terms: term_views(terms@),
                order: encoding@,
            }),
            list@.len() as int,
        ) {
            Err(f) => res matches Err(e) && e@ == f,
            Ok(tallies) => res matches Ok(r) && report_adds_up(
                r,
                tallies,
                encoding@.len() as int,
            ),
        },
{
    let ghost all = staged_views(list@);
    let ghost c = StageContext {
        stage: opt_text(*stage),
        raws: raw_views(raws@),
        terms: term_views(terms@),
        order: encoding@,
    };
    let ghost mut tallies: Seq<Tally> = Seq::empty();
    let mut translated: usize = 0;
    let mut overlength: usize = 0;
    let mut shop: usize = 0;
    let mut screen: usize = 0;
    let mut i: usize = 0;
    while i < list.len()
        invariant
            i <= list@.len(),
            all == staged_views(list@),
            c == (StageContext {
                stage: opt_text(*stage),
                raws: raw_views(raws@),
                terms: term_views(terms@),
                order: encoding@,
            }),
            stage_tallies(all, c, i as int) == Ok::<Seq<Tally>, Fault>(tallies),
            tallies.len() == i,
            translated <= i,
            overlength <= i,
            shop <= i,
            screen <= i,
            translated == i - tally_count(tallies, Tally::Inactive),
            overlength == tally_count(tallies, Tally::Overlength),
            shop == tally_count(tallies, Tally::Shop),
            screen == tally_count(tallies, Tally::Screen) + tally_count(
                tallies,
                Tally::Overlength,
            ),
        decreases list@.len() - i,
    {
        let s = &list[i];
        let id = s.entry.id.as_str();
        proof {
            assert(all[i as int] == s@);
        }
        match find_staged(list, id, i) {
            Some(k) => {
                proof {
                    assert(all[k as int] == list@[k as int]@);
                    lemma_stage_tallies(all, c, i + 1, all.len() as int);
                }
                return Err(
                    text("중복 stage entry id: ").lit(id).lit(" (").lit(list[k].path.as_str()).lit(
                        " and ",
                    ).lit(s.path.as_str()).lit(")").fail(),
                );
            },
            None => {},
        }
        let at: usize = match find_raw(raws, id) {
            Some(k) => k,
            None => {
                proof {
                    lemma_stage_tallies(all, c, i + 1, all.len() as int);
                }
                return Err(text(id).lit(": raw baseline entry not found").fail());
            },
        };
        proof {
            assert(c.raws[at as int] == raws@[at as int]@);
        }
        match check_entry(s.path.as_str(), stage, &s.entry, &raws[at], terms, encoding) {
            Err(e) => {
                proof {
                    lemma_stage_tallies(all, c, i + 1, all.len() as int);
                }
                return Err(e);
            },
            Ok(t) => {
                proof {
                    let was = tallies;
                    tallies = was.push(t);
                    assert(tallies.drop_last() =~= was);
                }
                match t {
                    Tally::Inactive => {},
                    Tally::Shop => {
                        translated += 1;
                        shop += 1;
                    },
                    Tally::Screen => {
                        translated += 1;
                        screen += 1;
                    },
                    Tally::Overlength => {
                        translated += 1;
                        screen += 1;
                        overlength += 1;
                    },
                }
            },
        }
        i += 1;
    }
    Ok(
        StageReport {
            entries: list.len(),
            translated,
            overlength,
            shop_layout_verified: shop,
            screen_ceiling_verified: screen,
            glyphs: encoding.glyph_count(),
        },
    )
}

/// Checks a stage: the names of its entries, their protected fields, their status,
/// their text, and how it looks. With `defer_glyph_cap` more glyphs than the
/// prefixes reach are let pass.
pub fn check_stage(
    list: &[StagedEntry],
    stage: &Option<String>,
    stage_path: &str,
    raws: &[RawTextEntry],
    terms: &[TermEntry],
    defer_glyph_cap: bool,
) -> (res: Result<StageReport, PatchError>)
    ensures
        is_stage_result(
            res,
            staged_views(list@),
            opt_text(*stage),
            stage_path@,
            raw_views(raws@),
            term_views(terms@),
            defer_glyph_cap,
        ),
{
    if list.len() == 0 {
        return Err(text("stage entries가 비어 있음: ").lit(stage_path).fail());
    }
    let texts = collect_stage_texts(list);
    let encoding = match KoEncoding::from_texts_capped(texts.as_slice(), !defer_glyph_cap) {
        Ok(encoding) => encoding,
        Err(e) => {
            return Err(e);
        },
    };
    let res = check_entries(list, stage, raws, terms, &encoding);
    proof {
        let tokens = all_tokens(stage_texts(staged_views(list@)))->Ok_0;
        assert(is_glyph_order(tokens, encoding@));
    }
    res
}

} // verus!
