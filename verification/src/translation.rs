//! Translation files and the plan that is made of them.
use vstd::prelude::*;
use crate::digest::{crc32, crc32_of};
use crate::error::{plain, Fault, PatchError};
use crate::hexbytes::{hex_text_bytes, parse_hex_bytes};
use crate::ko_text::{
    all_tokens, encode_translation_text, is_glyph_order, over_capacity, text_code, KoEncoding,
};
use crate::parse::{
    byte_len, find, find_spec, fits_bytes, read_uint, same_str, string_views, strip_all,
    strip_repeated, trim, trim_spec, uint_read,
};
use crate::script::fault_outcome;
use crate::tags::{check_control_tags, tags_fault};
use crate::text::{chars_of, hex, text};

verus! {

/// An entry of a translation file.
#[derive(Debug, Clone)]
pub struct TranslationOverride {
    /// Unique name of the script.
    pub id: String,
    /// The source in readable form.
    pub jp: String,
    /// The bytes of the source as hexadecimal words.
    pub bytes_hex: String,
    /// Checksum of the source.
    pub source_crc32: String,
    /// The translation.
    pub ko: String,
    /// How far the translation has come.
    pub status: String,
    /// Remarks.
    pub notes: String,
    /// Whether the entry is left alone.
    pub skip: bool,
}

/// The model of an entry.
#[verifier::ext_equal]
pub struct OverrideView {
    /// Unique name of the script.
    pub id: Seq<char>,
    /// The source in readable form.
    pub jp: Seq<char>,
    /// The bytes of the source as hexadecimal words.
    pub bytes_hex: Seq<char>,
    /// Checksum of the source.
    pub source_crc32: Seq<char>,
    /// The translation.
    pub ko: Seq<char>,
    /// How far the translation has come.
    pub status: Seq<char>,
    /// Remarks.
    pub notes: Seq<char>,
    /// Whether the entry is left alone.
    pub skip: bool,
}

impl View for TranslationOverride {
    type V = OverrideView;

    open spec fn view(&self) -> OverrideView {
        OverrideView {
            id: self.id@,
            jp: self.jp@,
            bytes_hex: self.bytes_hex@,
            source_crc32: self.source_crc32@,
            ko: self.ko@,
            status: self.status@,
            notes: self.notes@,
            skip: self.skip,
        }
    }
}

impl OverrideView {
    /// Whether the entry puts a translation into the game.
    pub open spec fn active(self) -> bool {
        !self.skip && trim_spec(self.ko).len() > 0
    }
}

/// The models of entries.
pub open spec fn override_views(list: Seq<TranslationOverride>) -> Seq<OverrideView> {
    Seq::new(list.len(), |i: int| list[i]@)
}

/// Whether a string is blank.
pub fn is_blank(s: &str) -> (r: bool)
    ensures
        r == (trim_spec(s@).len() == 0),
{
    let chars = chars_of(s);
    trim(chars.as_slice()).len() == 0
}

/// What a translated script was made from.
#[derive(Debug, Clone)]
pub struct TranslationSource {
    /// The bytes of the source.
    pub bytes: Vec<u8>,
    /// Their checksum, where one was given.
    pub crc32: Option<u32>,
}

/// The model of a source.
#[verifier::ext_equal]
pub struct SourceView {
    /// The bytes of the source.
    pub bytes: Seq<u8>,
    /// Their checksum, where one was given.
    pub crc32: Option<u32>,
}

impl View for TranslationSource {
    type V = SourceView;

    open spec fn view(&self) -> SourceView {
        SourceView { bytes: self.bytes@, crc32: self.crc32 }
    }
}

/// A source that may be absent, as a model.
pub open spec fn opt_source(s: Option<TranslationSource>) -> Option<SourceView> {
    match s {
        Some(v) => Some(v@),
        None => None,
    }
}

/// A translated script in bytes.
#[derive(Debug)]
pub struct EncodedOverride {
    /// Unique name of the script.
    pub id: String,
    /// The bytes that replace it.
    pub bytes: Vec<u8>,
    /// What it was made from, where that was given.
    pub source: Option<TranslationSource>,
}

/// The model of a translated script.
#[verifier::ext_equal]
pub struct EncodedView {
    /// Unique name of the script.
    pub id: Seq<char>,
    /// The bytes that replace it.
    pub bytes: Seq<u8>,
    /// What it was made from, where that was given.
    pub source: Option<SourceView>,
}

impl View for EncodedOverride {
    type V = EncodedView;

    open spec fn view(&self) -> EncodedView {
        EncodedView { id: self.id@, bytes: self.bytes@, source: opt_source(self.source) }
    }
}

/// The models of translated scripts.
pub open spec fn encoded_views(list: Seq<EncodedOverride>) -> Seq<EncodedView> {
    Seq::new(list.len(), |i: int| list[i]@)
}

/// Every translated script, and the glyphs that they need.
#[derive(Debug)]
pub struct TranslationPlan {
    /// The glyphs.
    pub encoding: KoEncoding,
    /// The translated scripts.
    pub encoded: Vec<EncodedOverride>,
}

// ---------------------------------------------------------------------------
// Sources
// ---------------------------------------------------------------------------

/// The digits of a checksum: without surrounding space, then without leading dollar
/// signs, then without leading copies of `0x`.
pub open spec fn crc_digits(raw: Seq<char>) -> Seq<char> {
    strip_all(strip_all(trim_spec(raw), "$"@), "0x"@)
}

/// The checksum that a text denotes, none where it is blank.
pub open spec fn optional_crc(raw: Seq<char>) -> Result<Option<u32>, Fault> {
    if trim_spec(raw).len() == 0 {
        Ok(None)
    } else if byte_len(crc_digits(raw)) != 8 {
        Err(plain("CRC32는 8자리 hex여야 함: "@ + raw))
    } else {
        match uint_read(crc_digits(raw), 16, 0xFFFF_FFFF) {
            Ok(v) => Ok(Some(v as u32)),
            Err(e) => Err(e.under("CRC32 파싱 실패: "@ + raw)),
        }
    }
}

/// Reads a checksum of eight hexadecimal digits; blank text is none.
pub fn parse_optional_crc32(raw: &str) -> (res: Result<Option<u32>, PatchError>)
    ensures
        match res {
            Ok(v) => optional_crc(raw@) == Ok::<Option<u32>, Fault>(v),
            Err(e) => optional_crc(raw@) == Err::<Option<u32>, Fault>(e@),
        },
{
    let chars = chars_of(raw);
    let trimmed = trim(chars.as_slice());
    if trimmed.len() == 0 {
        return Ok(None);
    }
    let dollar = chars_of("$");
    let zero_x = chars_of("0x");
    let digits = strip_repeated(
        strip_repeated(trimmed, dollar.as_slice()),
        zero_x.as_slice(),
    );
    if !(fits_bytes(digits, 8) && !fits_bytes(digits, 7)) {
        return Err(text("CRC32는 8자리 hex여야 함: ").lit(raw).fail());
    }
    match read_uint(digits, 16, 0xFFFF_FFFF) {
        Ok(v) => Ok(Some(v as u32)),
        Err(e) => Err(text("CRC32 파싱 실패: ").lit(raw).fail_after(e)),
    }
}

/// What is said of bytes whose checksum is not the stated one.
pub open spec fn crc_mismatch(id: Seq<char>, expected: u32, actual: u32) -> Option<Fault> {
    if actual != expected {
        Some(
            plain(
                id + " source_crc32 mismatch: metadata "@ + hex(expected as int, 8) + " vs bytes "@
                    + hex(actual as int, 8),
            ),
        )
    } else {
        None
    }
}

/// Checks the checksum of bytes against the stated one.
pub fn compare_source_crc32(id: &str, expected: u32, actual: u32) -> (res: Result<(), PatchError>)
    ensures
        fault_outcome(res) == crc_mismatch(id@, expected, actual),
{
    if actual != expected {
        return Err(
            text(id).lit(" source_crc32 mismatch: metadata ").hex(expected as usize, 8).lit(
                " vs bytes ",
            ).hex(actual as usize, 8).fail(),
        );
    }
    Ok(())
}

/// What is wrong with the description of an entry's source, if anything.
pub open spec fn metadata_fault(e: OverrideView) -> Option<Fault> {
    match tags_fault(e.id, e.jp, e.ko) {
        Some(f) => Some(f),
        None => if trim_spec(e.bytes_hex).len() == 0 {
            if trim_spec(e.source_crc32).len() > 0 {
                Some(plain(e.id + ": source_crc32가 있으면 bytes_hex도 있어야 함"@))
            } else {
                None
            }
        } else {
            match (hex_text_bytes(e.bytes_hex), optional_crc(e.source_crc32)) {
                (Err(cause), _) => Some(cause.under(e.id + " bytes_hex"@)),
                (Ok(_), Err(cause)) => Some(cause.under(e.id + " source_crc32"@)),
                (Ok(_), Ok(None)) => None,
                (Ok(bytes), Ok(Some(expected))) => crc_mismatch(e.id, expected, crc32_of(bytes)),
            }
        },
    }
}

/// Checks the description of an entry's source: the control tags agree, and the
/// checksum is that of the bytes.
pub fn validate_source_metadata(e: &TranslationOverride) -> (res: Result<(), PatchError>)
    ensures
        fault_outcome(res) == metadata_fault(e@),
{
    match check_control_tags(e.id.as_str(), e.jp.as_str(), e.ko.as_str()) {
        Ok(_) => {},
        Err(err) => {
            return Err(err);
        },
    }
    if is_blank(e.bytes_hex.as_str()) {
        if !is_blank(e.source_crc32.as_str()) {
            return Err(
                text(e.id.as_str()).lit(": source_crc32가 있으면 bytes_hex도 있어야 함").fail(),
            );
        }
        return Ok(());
    }
    let bytes = match parse_hex_bytes(e.bytes_hex.as_str()) {
        Ok(bytes) => bytes,
        Err(cause) => {
            return Err(text(e.id.as_str()).lit(" bytes_hex").fail_after(cause));
        },
    };
    match parse_optional_crc32(e.source_crc32.as_str()) {
        Err(cause) => Err(text(e.id.as_str()).lit(" source_crc32").fail_after(cause)),
        Ok(None) => Ok(()),
        Ok(Some(expected)) => compare_source_crc32(
            e.id.as_str(),
            expected,
            crc32(bytes.as_slice()),
        ),
    }
}

/// What an entry was made from, none where its bytes are not given.
pub open spec fn guard_of(e: OverrideView) -> Result<Option<SourceView>, Fault> {
    if trim_spec(e.bytes_hex).len() == 0 {
        Ok(None)
    } else {
        match (hex_text_bytes(e.bytes_hex), optional_crc(e.source_crc32)) {
            (Err(cause), _) => Err(cause.under(e.id + " bytes_hex"@)),
            (Ok(_), Err(cause)) => Err(cause.under(e.id + " source_crc32"@)),
            (Ok(bytes), Ok(crc32)) => Ok(Some(SourceView { bytes, crc32 })),
        }
    }
}

/// What an entry was made from, none where its bytes are not given.
pub fn source_guard(e: &TranslationOverride) -> (res: Result<
    Option<TranslationSource>,
    PatchError,
>)
    ensures
        match res {
            Ok(s) => guard_of(e@) == Ok::<Option<SourceView>, Fault>(opt_source(s)),
            Err(err) => guard_of(e@) == Err::<Option<SourceView>, Fault>(err@),
        },
{
    if is_blank(e.bytes_hex.as_str()) {
        return Ok(None);
    }
    let bytes = match parse_hex_bytes(e.bytes_hex.as_str()) {
        Ok(bytes) => bytes,
        Err(cause) => {
            return Err(text(e.id.as_str()).lit(" bytes_hex").fail_after(cause));
        },
    };
    match parse_optional_crc32(e.source_crc32.as_str()) {
        Err(cause) => Err(text(e.id.as_str()).lit(" source_crc32").fail_after(cause)),
        Ok(crc32) => Ok(Some(TranslationSource { bytes, crc32 })),
    }
}

/// What is wrong with translated scripts of a release, if anything: each must say
/// what it was made from. The first `n` are looked at.
pub open spec fn sourceless_fault(list: Seq<EncodedView>, n: int) -> Option<Fault>
    decreases n,
{
    if n <= 0 {
        None
    } else {
        match sourceless_fault(list, n - 1) {
            Some(e) => Some(e),
            None => if list[n - 1].source is None {
                Some(
                    plain(
                        list[n - 1].id
                            + ": 디렉토리(배포) 빌드는 source 메타데이터(bytes_hex + source_crc32)가 필수다 — source 없는 overlay는 단일 JSON PoC 파일로만 넘긴다"@,
                    ),
                )
            } else {
                None
            },
        }
    }
}

proof fn lemma_sourceless(list: Seq<EncodedView>, k: int, n: int)
    requires
        k <= n,
        sourceless_fault(list, k) is Some,
    ensures
        sourceless_fault(list, n) == sourceless_fault(list, k),
    decreases n - k,
{
    if k < n {
        lemma_sourceless(list, k, n - 1);
    }
}

/// Checks that every translated script says what it was made from, so that none is
/// put on top of a script that has changed since.
pub fn require_source_metadata(encoded: &[EncodedOverride]) -> (res: Result<(), PatchError>)
    ensures
        fault_outcome(res) == sourceless_fault(
            encoded_views(encoded@),
            encoded@.len() as int,
        ),
{
    let ghost all = encoded_views(encoded@);
    let mut i: usize = 0;
    while i < encoded.len()
        invariant
            i <= encoded@.len(),
            all == encoded_views(encoded@),
            sourceless_fault(all, i as int) is None,
        decreases encoded@.len() - i,
    {
        if encoded[i].source.is_none() {
            proof {
                assert(all[i as int] == encoded@[i as int]@);
                lemma_sourceless(all, i + 1, all.len() as int);
            }
            return Err(
                text(encoded[i].id.as_str()).lit(
                    ": 디렉토리(배포) 빌드는 source 메타데이터(bytes_hex + source_crc32)가 필수다 — source 없는 overlay는 단일 JSON PoC 파일로만 넘긴다",
                ).fail(),
            );
        }
        i += 1;
    }
    Ok(())
}

// ---------------------------------------------------------------------------
// Punctuation
// ---------------------------------------------------------------------------

/// Whether a text contains another one.
pub open spec fn has_text(s: Seq<char>, part: Seq<char>) -> bool {
    find_spec(s, part) is Some
}

/// Whether a text contains another one.
pub fn contains_text(s: &[char], part: &str) -> (r: bool)
    ensures
        r == has_text(s@, part@),
{
    let p = chars_of(part);
    find(s, p.as_slice()).is_some()
}

/// What is wrong with the punctuation of a translation, if anything.
pub open spec fn punctuation_fault(id: Seq<char>, s: Seq<char>) -> Option<Fault> {
    if trim_spec(s).len() == 0 {
        None
    } else if has_text(s, "、"@) {
        Some(plain(id + ": ko uses Japanese comma '、'; normalize to Western comma ','"@))
    } else if has_text(s, "。"@) {
        Some(plain(id + ": ko uses Japanese period '。'; drop it or promote by context"@))
    } else if has_text(s, "～"@) || has_text(s, "〜"@) {
        Some(plain(id + ": ko uses fullwidth/wave dash; normalize to ASCII tilde '~'"@))
    } else if has_text(s, "..."@) || has_text(s, "・・・"@) || has_text(s, "．．．"@) {
        Some(plain(id + ": ko uses multi-cell ellipsis; normalize to single U+2026 '…'"@))
    } else {
        None
    }
}

/// Checks the punctuation of a translation.
pub fn validate_korean_punctuation(id: &str, s: &str) -> (res: Result<(), PatchError>)
    ensures
        fault_outcome(res) == punctuation_fault(id@, s@),
{
    if is_blank(s) {
        return Ok(());
    }
    let all = chars_of(s);
    let chars = all.as_slice();
    if contains_text(chars, "、") {
        return Err(
            text(id).lit(": ko uses Japanese comma '、'; normalize to Western comma ','").fail(),
        );
    }
    if contains_text(chars, "。") {
        return Err(
            text(id).lit(": ko uses Japanese period '。'; drop it or promote by context").fail(),
        );
    }
    if contains_text(chars, "～") || contains_text(chars, "〜") {
        return Err(
            text(id).lit(": ko uses fullwidth/wave dash; normalize to ASCII tilde '~'").fail(),
        );
    }
    if contains_text(chars, "...") || contains_text(chars, "・・・") || contains_text(
        chars,
        "．．．",
    ) {
        return Err(
            text(id).lit(
                ": ko uses multi-cell ellipsis; normalize to single U+2026 '…'",
            ).fail(),
        );
    }
    Ok(())
}

// ---------------------------------------------------------------------------
// Files
// ---------------------------------------------------------------------------

/// A translation file that was read.
#[derive(Debug)]
pub struct TranslationInput {
    /// Where it was read from.
    pub path: String,
    /// Its entries.
    pub entries: Vec<TranslationOverride>,
}

/// An entry together with the file that it stands in.
#[verifier::ext_equal]
pub struct Placed {
    /// The file.
    pub path: Seq<char>,
    /// The entry.
    pub entry: OverrideView,
}

/// The entries of a file with its path, the first `n` of them.
pub open spec fn placed(file: TranslationInput, n: int) -> Seq<Placed> {
    Seq::new(n as nat, |i: int| Placed { path: file.path@, entry: file.entries@[i]@ })
}

/// The entries of files, one file after the other.
pub open spec fn all_placed(files: Seq<TranslationInput>) -> Seq<Placed>
    decreases files.len(),
{
    if files.len() == 0 {
        Seq::empty()
    } else {
        all_placed(files.drop_last()) + placed(
            files.last(),
            files.last().entries@.len() as int,
        )
    }
}

/// The first of the first `n` entries with a given name.
pub open spec fn first_with_id(list: Seq<Placed>, id: Seq<char>, n: int) -> Option<int>
    decreases n,
{
    if n <= 0 {
        None
    } else {
        match first_with_id(list, id, n - 1) {
            Some(k) => Some(k),
            None => if list[n - 1].entry.id == id {
                Some(n - 1)
            } else {
                None
            },
        }
    }
}

/// What is wrong with the names of the first `n` entries, if anything: none is blank
/// and none occurs twice.
pub open spec fn names_fault(list: Seq<Placed>, n: int) -> Option<Fault>
    decreases n,
{
    if n <= 0 {
        None
    } else {
        let p = list[n - 1];
        match names_fault(list, n - 1) {
            Some(e) => Some(e),
            None => if trim_spec(p.entry.id).len() == 0 {
                Some(plain(p.path + ": 빈 translation id"@))
            } else {
                match first_with_id(list, p.entry.id, n - 1) {
                    Some(k) => Some(
                        plain(
                            "중복 translation id: "@ + p.entry.id + " ("@ + list[k].path + " and "@
                                + p.path + ")"@,
                        ),
                    ),
                    None => None,
                }
            },
        }
    }
}

/// The entries without their files.
pub open spec fn entries_of(list: Seq<Placed>) -> Seq<OverrideView> {
    Seq::new(list.len(), |i: int| list[i].entry)
}

/// The entries of files, or what is wrong with their names.
pub open spec fn merged(files: Seq<TranslationInput>) -> Result<Seq<OverrideView>, Fault> {
    let list = all_placed(files);
    match names_fault(list, list.len() as int) {
        Some(e) => Err(e),
        None => Ok(entries_of(list)),
    }
}

proof fn lemma_names(list: Seq<Placed>, k: int, n: int)
    requires
        k <= n,
        names_fault(list, k) is Some,
    ensures
        names_fault(list, n) == names_fault(list, k),
    decreases n - k,
{
    if k < n {
        lemma_names(list, k, n - 1);
    }
}

proof fn lemma_placed_prefix(files: Seq<TranslationInput>, k: int)
    requires
        0 <= k <= files.len(),
    ensures
        all_placed(files.take(k)).len() <= all_placed(files).len(),
        forall|i: int|
            0 <= i < all_placed(files.take(k)).len() ==> all_placed(files.take(k))[i] == all_placed(
                files,
            )[i],
    decreases files.len(),
{
    if k == files.len() {
        assert(files.take(k) =~= files);
    } else {
        lemma_placed_prefix(files.drop_last(), k);
        assert(files.drop_last().take(k) =~= files.take(k));
    }
}

/// Where an entry that was merged came from.
struct Origin {
    file: usize,
    entry: usize,
}

/// Whether an origin is that of an entry.
spec fn is_origin(files: Seq<TranslationInput>, o: Origin, p: Placed) -> bool {
    &&& o.file < files.len()
    &&& o.entry < files[o.file as int].entries@.len()
    &&& p.path == files[o.file as int].path@
    &&& p.entry == files[o.file as int].entries@[o.entry as int]@
}

fn find_earlier(files: &[TranslationInput], origins: &[Origin], id: &str, list: Ghost<
    Seq<Placed>,
>) -> (r: Option<usize>)
    requires
        origins@.len() <= list@.len(),
        forall|i: int|
            0 <= i < origins@.len() ==> is_origin(files@, #[trigger] origins@[i], list@[i]),
    ensures
        match r {
            Some(k) => first_with_id(list@, id@, origins@.len() as int) == Some(k as int) && k
                < origins@.len(),
            None => first_with_id(list@, id@, origins@.len() as int) is None,
        },
{
    let mut k: usize = 0;
    while k < origins.len()
        invariant
            k <= origins@.len(),
            origins@.len() <= list@.len(),
            forall|i: int|
                0 <= i < origins@.len() ==> is_origin(files@, #[trigger] origins@[i], list@[i]),
            first_with_id(list@, id@, k as int) is None,
        decreases origins@.len() - k,
    {
        let o = &origins[k];
        proof {
            assert(is_origin(files@, origins@[k as int], list@[k as int]));
        }
        if same_str(files[o.file].entries[o.entry].id.as_str(), id) {
            proof {
                lemma_first_found(list@, id@, k + 1, origins@.len() as int);
            }
            return Some(k);
        }
        k += 1;
    }
    None
}

proof fn lemma_first_found(list: Seq<Placed>, id: Seq<char>, k: int, n: int)
    requires
        k <= n,
        first_with_id(list, id, k) is Some,
    ensures
        first_with_id(list, id, n) == first_with_id(list, id, k),
    decreases n - k,
{
    if k < n {
        lemma_first_found(list, id, k, n - 1);
    }
}

/// A copy of an entry.
pub fn copy_override(e: &TranslationOverride) -> (c: TranslationOverride)
    ensures
        c@ == e@,
{
    TranslationOverride {
        id: e.id.clone(),
        jp: e.jp.clone(),
        bytes_hex: e.bytes_hex.clone(),
        source_crc32: e.source_crc32.clone(),
        ko: e.ko.clone(),
        status: e.status.clone(),
        notes: e.notes.clone(),
        skip: e.skip,
    }
}

/// The entries of files, one file after the other. Fails where a name is blank or
/// occurs twice.
pub fn load_translation_overrides(files: &[TranslationInput]) -> (res: Result<
    Vec<TranslationOverride>,
    PatchError,
>)
    ensures
        match res {
            Ok(list) => merged(files@) == Ok::<Seq<OverrideView>, Fault>(
                override_views(list@),
            ),
            Err(e) => merged(files@) == Err::<Seq<OverrideView>, Fault>(e@),
        },
{
    let ghost all = all_placed(files@);
    let mut list: Vec<TranslationOverride> = Vec::new();
    let mut origins: Vec<Origin> = Vec::new();
    let mut f: usize = 0;
    while f < files.len()
        invariant
            f <= files@.len(),
            all == all_placed(files@),
            origins@.len() == all_placed(files@.take(f as int)).len(),
            list@.len() == origins@.len(),
            origins@.len() <= all.len(),
            forall|i: int|
                0 <= i < origins@.len() ==> is_origin(files@, #[trigger] origins@[i], all[i]),
            forall|i: int| 0 <= i < list@.len() ==> (#[trigger] list@[i])@ == all[i].entry,
            names_fault(all, origins@.len() as int) is None,
        decreases files@.len() - f,
    {
        let file = &files[f];
        let ghost base = origins@.len() as int;
        let ghost count = file.entries@.len() as int;
        proof {
            assert(files@.take(f + 1).drop_last() =~= files@.take(f as int));
            assert(files@.take(f + 1).last() == files@[f as int]);
            lemma_placed_prefix(files@, f + 1);
            let upto = all_placed(files@.take(f + 1));
            assert forall|i: int| 0 <= i < count implies #[trigger] all[base + i] == (Placed {
                path: file.path@,
                entry: file.entries@[i]@,
            }) by {
                assert(upto[base + i] == placed(*file, count)[i]);
            }
        }
        let mut k: usize = 0;
        while k < file.entries.len()
            invariant
                f < files@.len(),
                file == files@[f as int],
                k <= file.entries@.len(),
                count == file.entries@.len(),
                all == all_placed(files@),
                base + count <= all.len(),
                origins@.len() == base + k,
                list@.len() == origins@.len(),
                forall|i: int|
                    0 <= i < count ==> #[trigger] all[base + i] == (Placed {
                        path: file.path@,
                        entry: file.entries@[i]@,
                    }),
                forall|i: int|
                    0 <= i < origins@.len() ==> is_origin(files@, #[trigger] origins@[i], all[i]),
                forall|i: int| 0 <= i < list@.len() ==> (#[trigger] list@[i])@ == all[i].entry,
                names_fault(all, origins@.len() as int) is None,
            decreases file.entries@.len() - k,
        {
            let e = &file.entries[k];
            let ghost at = base + k;
            proof {
                assert(all[base + k] == (Placed {
                    path: file.path@,
                    entry: file.entries@[k as int]@,
                }));
            }
            if is_blank(e.id.as_str()) {
                proof {
                    lemma_names(all, at + 1, all.len() as int);
                }
                return Err(text(file.path.as_str()).lit(": 빈 translation id").fail());
            }
            match find_earlier(files, origins.as_slice(), e.id.as_str(), Ghost(all)) {
                Some(j) => {
                    proof {
                        assert(is_origin(files@, origins@[j as int], all[j as int]));
                        lemma_names(all, at + 1, all.len() as int);
                    }
                    let o = &origins[j];
                    return Err(
                        text("중복 translation id: ").lit(e.id.as_str()).lit(" (").lit(
                            files[o.file].path.as_str(),
                        ).lit(" and ").lit(file.path.as_str()).lit(")").fail(),
                    );
                },
                None => {},
            }
            list.push(copy_override(e));
            origins.push(Origin { file: f, entry: k });
            k += 1;
        }
        f += 1;
    }
    proof {
        assert(files@.take(f as int) =~= files@);
        assert(override_views(list@) =~= entries_of(all));
    }
    Ok(list)
}

// ---------------------------------------------------------------------------
// The plan
// ---------------------------------------------------------------------------

/// What is wrong with the status of the first `n` entries where one status is
/// required of all.
pub open spec fn status_fault(
    list: Seq<OverrideView>,
    required: Option<Seq<char>>,
    n: int,
) -> Option<Fault>
    decreases n,
{
    if n <= 0 || required is None {
        None
    } else {
        match status_fault(list, required, n - 1) {
            Some(e) => Some(e),
            None => if list[n - 1].status != required->0 {
                Some(
                    plain(
                        list[n - 1].id + ": QA preview requires status="@ + required->0 + ", got "@
                            + list[n - 1].status,
                    ),
                )
            } else {
                None
            },
        }
    }
}

/// The translations of the entries that are active.
pub open spec fn active_texts(list: Seq<OverrideView>) -> Seq<Seq<char>>
    decreases list.len(),
{
    if list.len() == 0 {
        Seq::empty()
    } else if list.last().active() {
        active_texts(list.drop_last()).push(list.last().ko)
    } else {
        active_texts(list.drop_last())
    }
}

/// The translated script of an active entry.
pub open spec fn encoded_of(e: OverrideView, order: Seq<char>) -> Result<EncodedView, Fault> {
    match punctuation_fault(e.id, e.ko) {
        Some(f) => Err(f),
        None => match text_code(e.ko, order) {
            Err(cause) => Err(cause.under(e.id + " 인코딩 실패"@)),
            Ok(bytes) => match guard_of(e) {
                Err(f) => Err(f),
                Ok(source) => Ok(EncodedView { id: e.id, bytes, source }),
            },
        },
    }
}

/// The translated scripts of the first `n` entries, or what is wrong with the first
/// bad one. The source of every entry is checked, also of those that are not active.
pub open spec fn plan_entries(list: Seq<OverrideView>, order: Seq<char>, n: int) -> Result<
    Seq<EncodedView>,
    Fault,
>
    decreases n,
{
    if n <= 0 {
        Ok(Seq::empty())
    } else {
        let e = list[n - 1];
        match plan_entries(list, order, n - 1) {
            Err(f) => Err(f),
            Ok(done) => match metadata_fault(e) {
                Some(f) => Err(f),
                None => if !e.active() {
                    Ok(done)
                } else {
                    match encoded_of(e, order) {
                        Err(f) => Err(f),
                        Ok(v) => Ok(done.push(v)),
                    }
                },
            },
        }
    }
}

/// Whether a result is the plan that files make, where all entries must have the
/// required status.
pub open spec fn is_plan(
    result: Result<TranslationPlan, PatchError>,
    files: Seq<TranslationInput>,
    required: Option<Seq<char>>,
) -> bool {
    match merged(files) {
        Err(f) => result matches Err(e) && e@ == f,
        Ok(list) => match status_fault(list, required, list.len() as int) {
            Some(f) => result matches Err(e) && e@ == f,
            None => match all_tokens(active_texts(list)) {
                Err(f) => result matches Err(e) && e@ == f,
                Ok(tokens) => exists|order: Seq<char>|
                    {
                        &&& #[trigger] is_glyph_order(tokens, order)
                        &&& if order.len() > 1000 {
                            result matches Err(e) && e@ == plain(
                            over_capacity(order.len() as int),
                        )
                        } else {
                            match plan_entries(list, order, list.len() as int) {
                                Err(f) => result matches Err(e) && e@ == f,
                                Ok(encoded) => result matches Ok(plan) && plan.encoding@ == order
                                    && encoded_views(plan.encoded@) == encoded,
                            }
                        }
                    },
            },
        },
    }
}

proof fn lemma_status(list: Seq<OverrideView>, required: Option<Seq<char>>, k: int, n: int)
    requires
        k <= n,
        status_fault(list, required, k) is Some,
    ensures
        status_fault(list, required, n) == status_fault(list, required, k),
    decreases n - k,
{
    if k < n {
        lemma_status(list, required, k, n - 1);
    }
}

proof fn lemma_plan_fail(list: Seq<OverrideView>, order: Seq<char>, k: int, n: int)
    requires
        k <= n,
        plan_entries(list, order, k) is Err,
    ensures
        plan_entries(list, order, n) == plan_entries(list, order, k),
    decreases n - k,
{
    if k < n {
        lemma_plan_fail(list, order, k, n - 1);
    }
}

/// Checks that all entries have one status.
fn check_status(list: &[TranslationOverride], required: &str) -> (res: Result<(), PatchError>)
    ensures
        fault_outcome(res) == status_fault(
            override_views(list@),
            Some(required@),
            list@.len() as int,
        ),
{
    let ghost all = override_views(list@);
    let mut i: usize = 0;
    while i < list.len()
        invariant
            i <= list@.len(),
            all == override_views(list@),
            status_fault(all, Some(required@), i as int) is None,
        decreases list@.len() - i,
    {
        proof {
            assert(all[i as int] == list@[i as int]@);
        }
        if !same_str(list[i].status.as_str(), required) {
            proof {
                lemma_status(all, Some(required@), i + 1, all.len() as int);
            }
            return Err(
                text(list[i].id.as_str()).lit(": QA preview requires status=").lit(required).lit(
                    ", got ",
                ).lit(list[i].status.as_str()).fail(),
            );
        }
        i += 1;
    }
    Ok(())
}

fn collect_active(list: &[TranslationOverride]) -> (texts: Vec<String>)
    ensures
        string_views(texts@) == active_texts(override_views(list@)),
{
    let ghost all = override_views(list@);
    let mut texts: Vec<String> = Vec::new();
    let mut i: usize = 0;
    proof {
        assert(string_views(texts@) =~= Seq::empty());
    }
    while i < list.len()
        invariant
            i <= list@.len(),
            all == override_views(list@),
            string_views(texts@) == active_texts(all.take(i as int)),
        decreases list@.len() - i,
    {
        proof {
            assert(all.take(i + 1).drop_last() =~= all.take(i as int));
            assert(all.take(i + 1).last() == list@[i as int]@);
        }
        if !list[i].skip && !is_blank(list[i].ko.as_str()) {
            let ghost was = string_views(texts@);
            texts.push(list[i].ko.clone());
            proof {
                assert(string_views(texts@) =~= was.push(list@[i as int].ko@));
            }
        }
        i += 1;
    }
    proof {
        assert(all.take(i as int) =~= all);
    }
    texts
}

/// The translated script of an active entry.
fn encode_override(e: &TranslationOverride, encoding: &KoEncoding) -> (res: Result<
    EncodedOverride,
    PatchError,
>)
    ensures
        match res {
            Ok(v) => encoded_of(e@, encoding@) == Ok::<EncodedView, Fault>(v@),
            Err(err) => encoded_of(e@, encoding@) == Err::<EncodedView, Fault>(err@),
        },
{
    match validate_korean_punctuation(e.id.as_str(), e.ko.as_str()) {
        Ok(_) => {},
        Err(err) => {
            return Err(err);
        },
    }
    let bytes = match encode_translation_text(e.ko.as_str(), encoding) {
        Ok(bytes) => bytes,
        Err(cause) => {
            return Err(text(e.id.as_str()).lit(" 인코딩 실패").fail_after(cause));
        },
    };
    match source_guard(e) {
        Err(err) => Err(err),
        Ok(source) => Ok(EncodedOverride { id: e.id.clone(), bytes, source }),
    }
}

fn encode_all(list: &[TranslationOverride], encoding: &KoEncoding) -> (res: Result<
    Vec<EncodedOverride>,
    PatchError,
>)
    ensures
        match res {
            Ok(encoded) => plan_entries(override_views(list@), encoding@, list@.len() as int)
                == Ok::<Seq<EncodedView>, Fault>(encoded_views(encoded@)),
            Err(e) => plan_entries(override_views(list@), encoding@, list@.len() as int) == Err::<
                Seq<EncodedView>,
                Fault,
            >(e@),
        },
{
    let ghost all = override_views(list@);
    let ghost order = encoding@;
    let mut encoded: Vec<EncodedOverride> = Vec::new();
    let mut i: usize = 0;
    proof {
        assert(encoded_views(encoded@) =~= Seq::empty());
    }
    while i < list.len()
        invariant
            i <= list@.len(),
            all == override_views(list@),
            order == encoding@,
            plan_entries(all, order, i as int) == Ok::<Seq<EncodedView>, Fault>(
                encoded_views(encoded@),
            ),
        decreases list@.len() - i,
    {
        let e = &list[i];
        proof {
            assert(all[i as int] == e@);
        }
        match validate_source_metadata(e) {
            Ok(_) => {},
            Err(err) => {
                proof {
                    lemma_plan_fail(all, order, i + 1, all.len() as int);
                }
                return Err(err);
            },
        }
        if !e.skip && !is_blank(e.ko.as_str()) {
            match encode_override(e, encoding) {
                Ok(v) => {
                    let ghost was = encoded_views(encoded@);
                    encoded.push(v);
                    proof {
                        assert(encoded_views(encoded@) =~= was.push(v@));
                    }
                },
                Err(err) => {
                    proof {
                        lemma_plan_fail(all, order, i + 1, all.len() as int);
                    }
                    return Err(err);
                },
            }
        }
        i += 1;
    }
    Ok(encoded)
}

fn plan_from_list(list: &[TranslationOverride]) -> (res: Result<TranslationPlan, PatchError>)
    ensures
        match all_tokens(active_texts(override_views(list@))) {
            Err(f) => res matches Err(e) && e@ == f,
            Ok(tokens) => exists|order: Seq<char>|
                {
                    &&& #[trigger] is_glyph_order(tokens, order)
                    &&& if order.len() > 1000 {
                        res matches Err(e) && e@ == plain(
                            over_capacity(order.len() as int),
                        )
                    } else {
                        match plan_entries(override_views(list@), order, list@.len() as int) {
                            Err(f) => res matches Err(e) && e@ == f,
                            Ok(encoded) => res matches Ok(plan) && plan.encoding@ == order
                                && encoded_views(plan.encoded@) == encoded,
                        }
                    }
                },
        },
{
    let texts = collect_active(list);
    let encoding = match KoEncoding::from_texts(texts.as_slice()) {
        Ok(encoding) => encoding,
        Err(e) => {
            return Err(e);
        },
    };
    match encode_all(list, &encoding) {
        Ok(encoded) => Ok(TranslationPlan { encoding, encoded }),
        Err(e) => Err(e),
    }
}

/// The plan that translation files make.
pub fn load_translation_plan(files: &[TranslationInput]) -> (res: Result<
    TranslationPlan,
    PatchError,
>)
    ensures
        is_plan(res, files@, None),
{
    let list = match load_translation_overrides(files) {
        Ok(list) => list,
        Err(e) => {
            return Err(e);
        },
    };
    plan_from_list(list.as_slice())
}

/// The plan of a preview for human review: every entry must have the status
/// `needs_human_review`.
pub fn load_human_review_preview_plan(files: &[TranslationInput]) -> (res: Result<
    TranslationPlan,
    PatchError,
>)
    ensures
        is_plan(res, files@, Some("needs_human_review"@)),
{
    let list = match load_translation_overrides(files) {
        Ok(list) => list,
        Err(e) => {
            return Err(e);
        },
    };
    match check_status(list.as_slice(), "needs_human_review") {
        Ok(_) => {},
        Err(e) => {
            return Err(e);
        },
    }
    plan_from_list(list.as_slice())
}

/// Whether the source of a translated script, where it is given with a checksum,
/// has that checksum.
pub open spec fn source_matches(e: EncodedView) -> bool {
    match e.source {
        Some(SourceView { bytes, crc32: Some(sum) }) => crc32_of(bytes) == sum,
        _ => true,
    }
}

/// In a plan, the source of every translated script has the checksum that its entry
/// gives for it.
pub proof fn law_plan_sources_match(list: Seq<OverrideView>, order: Seq<char>, n: int, k: int)
    requires
        n <= list.len(),
        plan_entries(list, order, n) is Ok,
        0 <= k < plan_entries(list, order, n)->Ok_0.len(),
    ensures
        source_matches(plan_entries(list, order, n)->Ok_0[k]),
    decreases n,
{
    if n > 0 {
        let prev = plan_entries(list, order, n - 1)->Ok_0;
        if k < prev.len() {
            law_plan_sources_match(list, order, n - 1, k);
        }
    }
}

} // verus!
