//! The glossary: which words a translation must use.
use vstd::prelude::*;
use vstd::slice::slice_subrange;
use crate::error::{plain, Fault, PatchError};
use crate::ko_text::behind_tag;
use crate::parse::{
    find, index_of, is_space, lemma_index_or_len, same_str, space, string_views, trim_spec,
};
use crate::raw_text::{
    count_ids, distinct_ids, find_raw, is_last, raw_index, raw_views, RawTextEntry, RawView,
};
use crate::script::fault_outcome;
use crate::text::{chars_of, text};
use crate::translation::{has_text, is_blank};

verus! {

/// A word of the glossary.
#[derive(Debug, Clone)]
pub struct TermEntry {
    /// What sort of word it is.
    pub category: String,
    /// The word in the source.
    pub jp: String,
    /// The word in translations.
    pub ko: String,
    /// How settled it is.
    pub status: String,
    /// Where it was taken from.
    pub source: String,
    /// Remarks.
    pub notes: String,
    /// Other forms of the word in the source.
    pub aliases: Vec<String>,
    /// Scripts in which the word occurs.
    pub refs: Vec<String>,
    /// Whether it is looked for in those scripts only.
    pub match_refs_only: bool,
}

/// The model of a word.
#[verifier::ext_equal]
pub struct TermView {
    /// What sort of word it is.
    pub category: Seq<char>,
    /// The word in the source.
    pub jp: Seq<char>,
    /// The word in translations.
    pub ko: Seq<char>,
    /// How settled it is.
    pub status: Seq<char>,
    /// Where it was taken from.
    pub source: Seq<char>,
    /// Remarks.
    pub notes: Seq<char>,
    /// Other forms of the word in the source.
    pub aliases: Seq<Seq<char>>,
    /// Scripts in which the word occurs.
    pub refs: Seq<Seq<char>>,
    /// Whether it is looked for in those scripts only.
    pub match_refs_only: bool,
}

impl View for TermEntry {
    type V = TermView;

    open spec fn view(&self) -> TermView {
        TermView {
            category: self.category@,
            jp: self.jp@,
            ko: self.ko@,
            status: self.status@,
            source: self.source@,
            notes: self.notes@,
            aliases: string_views(self.aliases@),
            refs: string_views(self.refs@),
            match_refs_only: self.match_refs_only,
        }
    }
}

/// The glossary.
#[derive(Debug)]
pub struct TermsFile {
    /// Name of the format.
    pub format: String,
    /// The words.
    pub entries: Vec<TermEntry>,
}

/// The models of words.
pub open spec fn term_views(list: Seq<TermEntry>) -> Seq<TermView> {
    Seq::new(list.len(), |i: int| list[i]@)
}

// ---------------------------------------------------------------------------
// Text without tags
// ---------------------------------------------------------------------------

/// The characters of a text that stand outside of tags.
pub open spec fn outside_tags(s: Seq<char>) -> Seq<char>
    decreases s.len(),
    via outside_decreases
{
    if s.len() == 0 {
        Seq::empty()
    } else if s[0] == '[' {
        outside_tags(behind_tag(s.drop_first()))
    } else {
        seq![s[0]] + outside_tags(s.drop_first())
    }
}

#[via_fn]
proof fn outside_decreases(s: Seq<char>) {
    if s.len() > 0 {
        lemma_index_or_len(s.drop_first(), ']');
    }
}

/// The characters of a text that stand outside of tags.
pub fn chars_outside_tags(s: &[char]) -> (r: Vec<char>)
    ensures
        r@ == outside_tags(s@),
{
    let mut r: Vec<char> = Vec::new();
    let mut rest = s;
    proof {
        assert(r@ + outside_tags(rest@) =~= outside_tags(s@));
    }
    while rest.len() > 0
        invariant
            r@ + outside_tags(rest@) == outside_tags(s@),
        decreases rest@.len(),
    {
        let ghost here = rest@;
        let ghost was = r@;
        let ch: char = rest[0];
        rest = slice_subrange(rest, 1, rest.len());
        proof {
            assert(rest@ =~= here.drop_first());
        }
        if ch == '[' {
            let end = index_of(rest, ']');
            let next: usize = if end < rest.len() {
                end + 1
            } else {
                end
            };
            let ghost tail = rest@;
            rest = slice_subrange(rest, next, rest.len());
            proof {
                assert(rest@ =~= behind_tag(tail));
            }
        } else {
            r.push(ch);
            proof {
                assert(ch == here[0]);
                let t = outside_tags(rest@);
                assert(was.push(ch) + t =~= was + (seq![ch] + t));
            }
        }
    }
    proof {
        assert(r@ + outside_tags(rest@) =~= r@);
    }
    r
}

/// A text without white space.
pub open spec fn without_space(s: Seq<char>) -> Seq<char>
    decreases s.len(),
{
    if s.len() == 0 {
        Seq::empty()
    } else if is_space(s.last()) {
        without_space(s.drop_last())
    } else {
        without_space(s.drop_last()).push(s.last())
    }
}

/// The form in which texts are searched for words: without tags and white space.
pub open spec fn normal_text(s: Seq<char>) -> Seq<char> {
    without_space(outside_tags(s))
}

/// The form in which texts are searched for words: without tags and white space.
pub fn normalize_term_text(s: &str) -> (r: Vec<char>)
    ensures
        r@ == normal_text(s@),
{
    let all = chars_of(s);
    let visible = chars_outside_tags(all.as_slice());
    let ghost full = visible@;
    let mut r: Vec<char> = Vec::new();
    let mut i: usize = 0;
    while i < visible.len()
        invariant
            i <= visible@.len(),
            full == visible@,
            r@ == without_space(full.take(i as int)),
        decreases visible@.len() - i,
    {
        proof {
            assert(full.take(i + 1).drop_last() =~= full.take(i as int));
            assert(full.take(i + 1).last() == full[i as int]);
        }
        let ch: char = visible[i];
        if !space(ch) {
            r.push(ch);
        }
        i += 1;
    }
    proof {
        assert(full.take(i as int) =~= full);
    }
    r
}

/// Whether a word occurs in a text that is in normal form. A word of which nothing
/// is left occurs nowhere.
pub open spec fn word_in(normal: Seq<char>, word: Seq<char>) -> bool {
    normal_text(word).len() > 0 && has_text(normal, normal_text(word))
}

fn check_word(normal: &[char], word: &str) -> (r: bool)
    ensures
        r == word_in(normal@, word@),
{
    let w = normalize_term_text(word);
    w.len() > 0 && find(normal, w.as_slice()).is_some()
}

impl TermView {
    /// Whether the word must be used.
    pub open spec fn stable(self) -> bool {
        self.status == "approved_series"@ || self.status == "project_decision"@
    }

    /// Whether the word or one of its other forms occurs in a text in normal form.
    pub open spec fn occurs_in(self, normal: Seq<char>) -> bool {
        word_in(normal, self.jp) || exists|k: int|
            0 <= k < self.aliases.len() && word_in(normal, #[trigger] self.aliases[k])
    }
}

impl TermEntry {
    /// Whether the word must be used.
    pub fn is_stable(&self) -> (r: bool)
        ensures
            r == self@.stable(),
    {
        same_str(self.status.as_str(), "approved_series") || same_str(
            self.status.as_str(),
            "project_decision",
        )
    }

    /// Whether the word or one of its other forms occurs in a text in normal form.
    pub fn occurs(&self, normal: &[char]) -> (r: bool)
        ensures
            r == self@.occurs_in(normal@),
    {
        if check_word(normal, self.jp.as_str()) {
            return true;
        }
        let mut k: usize = 0;
        while k < self.aliases.len()
            invariant
                k <= self.aliases@.len(),
                !word_in(normal@, self@.jp),
                forall|j: int| 0 <= j < k ==> !word_in(normal@, #[trigger] self@.aliases[j]),
            decreases self.aliases@.len() - k,
        {
            proof {
                assert(self@.aliases[k as int] == self.aliases@[k as int]@);
            }
            if check_word(normal, self.aliases[k].as_str()) {
                return true;
            }
            k += 1;
        }
        false
    }
}

// ---------------------------------------------------------------------------
// The glossary on its own
// ---------------------------------------------------------------------------

/// What is wrong with a glossary as a file, if anything.
pub open spec fn terms_file_fault(format: Seq<char>, n: int) -> Option<Fault> {
    if format != "madoua-terms-v1"@ {
        Some(plain("지원하지 않는 terms format: "@ + format))
    } else if n == 0 {
        Some(plain("용어집 entries가 비어 있음"@))
    } else {
        None
    }
}

/// Checks the format of a glossary.
pub fn check_terms_file(terms: &TermsFile) -> (res: Result<(), PatchError>)
    ensures
        fault_outcome(res) == terms_file_fault(terms.format@, terms.entries@.len() as int),
{
    if !same_str(terms.format.as_str(), "madoua-terms-v1") {
        return Err(text("지원하지 않는 terms format: ").lit(terms.format.as_str()).fail());
    }
    if terms.entries.len() == 0 {
        return Err(text("용어집 entries가 비어 있음").fail());
    }
    Ok(())
}

/// Whether a status is one that words can have.
pub open spec fn is_term_status(s: Seq<char>) -> bool {
    s == "approved_series"@ || s == "project_decision"@ || s == "needs_review"@ || s
        == "tentative"@
}

/// What is wrong with a word, if anything.
pub open spec fn term_fault(t: TermView) -> Option<Fault> {
    if trim_spec(t.category).len() == 0 {
        Some(plain(t.jp + ": 빈 category"@))
    } else if trim_spec(t.jp).len() == 0 {
        Some(plain("빈 jp 용어"@))
    } else if trim_spec(t.ko).len() == 0 {
        Some(plain(t.jp + ": 빈 ko 용어"@))
    } else if t.refs.len() == 0 {
        Some(
            plain(
                t.jp
                    + ": raw refs가 비어 있음; A 추출물에 실제 등장하는 용어만 seed에 둔다"@,
            ),
        )
    } else if !is_term_status(t.status) {
        Some(plain(t.jp + ": 알 수 없는 status "@ + t.status))
    } else {
        None
    }
}

/// Checks a word.
pub fn validate_term_entry(t: &TermEntry) -> (res: Result<(), PatchError>)
    ensures
        fault_outcome(res) == term_fault(t@),
{
    if is_blank(t.category.as_str()) {
        return Err(text(t.jp.as_str()).lit(": 빈 category").fail());
    }
    if is_blank(t.jp.as_str()) {
        return Err(text("빈 jp 용어").fail());
    }
    if is_blank(t.ko.as_str()) {
        return Err(text(t.jp.as_str()).lit(": 빈 ko 용어").fail());
    }
    if t.refs.len() == 0 {
        return Err(
            text(t.jp.as_str()).lit(
                ": raw refs가 비어 있음; A 추출물에 실제 등장하는 용어만 seed에 둔다",
            ).fail(),
        );
    }
    let s = t.status.as_str();
    if !(same_str(s, "approved_series") || same_str(s, "project_decision") || same_str(
        s,
        "needs_review",
    ) || same_str(s, "tentative")) {
        return Err(text(t.jp.as_str()).lit(": 알 수 없는 status ").lit(s).fail());
    }
    Ok(())
}

/// The first of the first `n` words with a given category and source word.
pub open spec fn first_term(
    list: Seq<TermView>,
    category: Seq<char>,
    jp: Seq<char>,
    n: int,
) -> Option<int>
    decreases n,
{
    if n <= 0 {
        None
    } else {
        match first_term(list, category, jp, n - 1) {
            Some(k) => Some(k),
            None => if list[n - 1].category == category && list[n - 1].jp == jp {
                Some(n - 1)
            } else {
                None
            },
        }
    }
}

/// What is wrong with the first `n` references of a word, if anything: each must
/// name a script in which the word occurs.
pub open spec fn refs_fault(t: TermView, raws: Seq<RawView>, n: int) -> Option<Fault>
    decreases n,
{
    if n <= 0 {
        None
    } else {
        match refs_fault(t, raws, n - 1) {
            Some(e) => Some(e),
            None => match raw_index(raws, t.refs[n - 1]) {
                None => Some(plain(t.jp + ": raw ref not found: "@ + t.refs[n - 1])),
                Some(k) => if !t.occurs_in(normal_text(raws[k].jp)) {
                    Some(
                        plain(
                            t.jp + ": ref "@ + t.refs[n - 1] + " does not contain jp or aliases"@,
                        ),
                    )
                } else {
                    None
                },
            },
        }
    }
}

/// What is wrong with the first `n` words of a glossary, if anything.
pub open spec fn glossary_fault(list: Seq<TermView>, raws: Seq<RawView>, n: int) -> Option<Fault>
    decreases n,
{
    if n <= 0 {
        None
    } else {
        let t = list[n - 1];
        match glossary_fault(list, raws, n - 1) {
            Some(e) => Some(e),
            None => match term_fault(t) {
                Some(e) => Some(e),
                None => match first_term(list, t.category, t.jp, n - 1) {
                    Some(k) => Some(
                        plain(
                            "중복 용어: category="@ + t.category + " jp="@ + t.jp + " ("@ + list[k].ko
                                + " and "@ + t.ko + ")"@,
                        ),
                    ),
                    None => refs_fault(t, raws, t.refs.len() as int),
                },
            },
        }
    }
}

/// In how many scripts a word occurs, counting the first `n` entries; of entries
/// with the same name the last one counts.
pub open spec fn term_uses(t: TermView, raws: Seq<RawView>, n: int) -> int
    decreases n,
{
    if n <= 0 {
        0
    } else {
        term_uses(t, raws, n - 1) + if is_last(raws, n - 1) && t.occurs_in(
            normal_text(raws[n - 1].jp),
        ) {
            1int
        } else {
            0
        }
    }
}

/// What a check of the glossary found.
#[derive(Debug)]
pub struct TermsReport {
    /// How many scripts there are.
    pub raw_entries: usize,
    /// In how many of them each word occurs.
    pub uses: Vec<usize>,
}

proof fn lemma_first_term(
    list: Seq<TermView>,
    category: Seq<char>,
    jp: Seq<char>,
    k: int,
    n: int,
)
    requires
        k <= n,
        first_term(list, category, jp, k) is Some,
    ensures
        first_term(list, category, jp, n) == first_term(list, category, jp, k),
    decreases n - k,
{
    if k < n {
        lemma_first_term(list, category, jp, k, n - 1);
    }
}

proof fn lemma_refs(t: TermView, raws: Seq<RawView>, k: int, n: int)
    requires
        k <= n,
        refs_fault(t, raws, k) is Some,
    ensures
        refs_fault(t, raws, n) == refs_fault(t, raws, k),
    decreases n - k,
{
    if k < n {
        lemma_refs(t, raws, k, n - 1);
    }
}

proof fn lemma_glossary(list: Seq<TermView>, raws: Seq<RawView>, k: int, n: int)
    requires
        k <= n,
        glossary_fault(list, raws, k) is Some,
    ensures
        glossary_fault(list, raws, n) == glossary_fault(list, raws, k),
    decreases n - k,
{
    if k < n {
        lemma_glossary(list, raws, k, n - 1);
    }
}

fn find_term(list: &[TermEntry], category: &str, jp: &str, n: usize) -> (r: Option<usize>)
    requires
        n <= list@.len(),
    ensures
        match r {
            Some(k) => k < n && first_term(term_views(list@), category@, jp@, n as int) == Some(
                k as int,
            ),
            None => first_term(term_views(list@), category@, jp@, n as int) is None,
        },
{
    let ghost all = term_views(list@);
    let mut k: usize = 0;
    while k < n
        invariant
            k <= n <= list@.len(),
            all == term_views(list@),
            first_term(all, category@, jp@, k as int) is None,
        decreases n - k,
    {
        proof {
            assert(all[k as int] == list@[k as int]@);
        }
        if same_str(list[k].category.as_str(), category) && same_str(list[k].jp.as_str(), jp) {
            proof {
                lemma_first_term(all, category@, jp@, k + 1, n as int);
            }
            return Some(k);
        }
        k += 1;
    }
    None
}

fn check_refs(t: &TermEntry, raws: &[RawTextEntry]) -> (res: Result<(), PatchError>)
    ensures
        fault_outcome(res) == refs_fault(t@, raw_views(raws@), t.refs@.len() as int),
{
    let ghost all = raw_views(raws@);
    let mut k: usize = 0;
    while k < t.refs.len()
        invariant
            k <= t.refs@.len(),
            all == raw_views(raws@),
            refs_fault(t@, all, k as int) is None,
        decreases t.refs@.len() - k,
    {
        let reference = t.refs[k].as_str();
        proof {
            assert(t@.refs[k as int] == reference@);
        }
        match find_raw(raws, reference) {
            None => {
                proof {
                    lemma_refs(t@, all, k + 1, t.refs@.len() as int);
                }
                return Err(
                    text(t.jp.as_str()).lit(": raw ref not found: ").lit(reference).fail(),
                );
            },
            Some(at) => {
                proof {
                    assert(all[at as int] == raws@[at as int]@);
                }
                let normal = normalize_term_text(raws[at].jp.as_str());
                if !t.occurs(normal.as_slice()) {
                    proof {
                        lemma_refs(t@, all, k + 1, t.refs@.len() as int);
                    }
                    return Err(
                        text(t.jp.as_str()).lit(": ref ").lit(reference).lit(
                            " does not contain jp or aliases",
                        ).fail(),
                    );
                }
            },
        }
        k += 1;
    }
    Ok(())
}

fn count_uses(t: &TermEntry, raws: &[RawTextEntry]) -> (n: usize)
    ensures
        n == term_uses(t@, raw_views(raws@), raws@.len() as int),
{
    let ghost all = raw_views(raws@);
    let mut n: usize = 0;
    let mut i: usize = 0;
    while i < raws.len()
        invariant
            i <= raws@.len(),
            all == raw_views(raws@),
            n <= i,
            n == term_uses(t@, all, i as int),
        decreases raws@.len() - i,
    {
        proof {
            assert(all[i as int] == raws@[i as int]@);
        }
        let last: bool = match find_raw(raws, raws[i].id.as_str()) {
            Some(k) => k == i,
            None => false,
        };
        if last {
            let normal = normalize_term_text(raws[i].jp.as_str());
            if t.occurs(normal.as_slice()) {
                n += 1;
            }
        }
        i += 1;
    }
    n
}

/// Checks a glossary against the extracted scripts and counts the uses of its words.
pub fn check_terms(terms: &TermsFile, raws: &[RawTextEntry]) -> (res: Result<
    TermsReport,
    PatchError,
>)
    ensures
        match res {
            Ok(report) => {
                let list = term_views(terms.entries@);
                let all = raw_views(raws@);
                &&& glossary_fault(list, all, list.len() as int) is None
                &&& report.raw_entries == distinct_ids(all, all.len() as int)
                &&& report.uses@.len() == list.len()
                &&& forall|i: int|
                    0 <= i < list.len() ==> #[trigger] report.uses@[i] == term_uses(
                        list[i],
                        all,
                        all.len() as int,
                    )
            },
            Err(e) => glossary_fault(
                term_views(terms.entries@),
                raw_views(raws@),
                terms.entries@.len() as int,
            ) == Some(e@),
        },
{
    let ghost list = term_views(terms.entries@);
    let ghost all = raw_views(raws@);
    let n: usize = terms.entries.len();
    let mut i: usize = 0;
    while i < n
        invariant
            i <= n,
            n == terms.entries@.len(),
            list == term_views(terms.entries@),
            all == raw_views(raws@),
            glossary_fault(list, all, i as int) is None,
        decreases n - i,
    {
        let t = &terms.entries[i];
        proof {
            assert(list[i as int] == t@);
        }
        match validate_term_entry(t) {
            Ok(_) => {},
            Err(e) => {
                proof {
                    lemma_glossary(list, all, i + 1, n as int);
                }
                return Err(e);
            },
        }
        match find_term(terms.entries.as_slice(), t.category.as_str(), t.jp.as_str(), i) {
            Some(k) => {
                proof {
                    assert(list[k as int] == terms.entries@[k as int]@);
                    lemma_glossary(list, all, i + 1, n as int);
                }
                return Err(
                    text("중복 용어: category=").lit(t.category.as_str()).lit(" jp=").lit(
                        t.jp.as_str(),
                    ).lit(" (").lit(terms.entries[k].ko.as_str()).lit(" and ").lit(
                        t.ko.as_str(),
                    ).lit(")").fail(),
                );
            },
            None => {},
        }
        match check_refs(t, raws) {
            Ok(_) => {},
            Err(e) => {
                proof {
                    lemma_glossary(list, all, i + 1, n as int);
                }
                return Err(e);
            },
        }
        i += 1;
    }
    let mut uses: Vec<usize> = Vec::new();
    let mut i: usize = 0;
    while i < n
        invariant
            i <= n,
            n == terms.entries@.len(),
            list == term_views(terms.entries@),
            all == raw_views(raws@),
            uses@.len() == i,
            forall|k: int|
                0 <= k < i ==> #[trigger] uses@[k] == term_uses(list[k], all, all.len() as int),
        decreases n - i,
    {
        proof {
            assert(list[i as int] == terms.entries@[i as int]@);
        }
        uses.push(count_uses(&terms.entries[i], raws));
        i += 1;
    }
    Ok(TermsReport { raw_entries: count_ids(raws), uses })
}

// ---------------------------------------------------------------------------
// Translations
// ---------------------------------------------------------------------------

/// Whether a word concerns a script.
pub open spec fn term_concerns(t: TermView, id: Seq<char>, jp: Seq<char>) -> bool {
    if t.match_refs_only {
        exists|k: int| 0 <= k < t.refs.len() && #[trigger] t.refs[k] == id
    } else {
        t.occurs_in(normal_text(jp))
    }
}

/// What is wrong with a translation in view of the first `n` words, if anything: it
/// must use every settled word that concerns its script.
pub open spec fn usage_fault(
    list: Seq<TermView>,
    id: Seq<char>,
    jp: Seq<char>,
    ko: Seq<char>,
    n: int,
) -> Option<Fault>
    decreases n,
{
    if n <= 0 {
        None
    } else {
        let t = list[n - 1];
        match usage_fault(list, id, jp, ko, n - 1) {
            Some(e) => Some(e),
            None => if t.stable() && term_concerns(t, id, jp) && !has_text(
                normal_text(ko),
                normal_text(t.ko),
            ) {
                Some(plain(id + ": stable term "@ + t.jp + " must use "@ + t.ko))
            } else {
                None
            },
        }
    }
}

proof fn lemma_usage(
    list: Seq<TermView>,
    id: Seq<char>,
    jp: Seq<char>,
    ko: Seq<char>,
    k: int,
    n: int,
)
    requires
        k <= n,
        usage_fault(list, id, jp, ko, k) is Some,
    ensures
        usage_fault(list, id, jp, ko, n) == usage_fault(list, id, jp, ko, k),
    decreases n - k,
{
    if k < n {
        lemma_usage(list, id, jp, ko, k, n - 1);
    }
}

fn has_ref(t: &TermEntry, id: &str) -> (r: bool)
    ensures
        r == exists|k: int| 0 <= k < t@.refs.len() && #[trigger] t@.refs[k] == id@,
{
    let mut k: usize = 0;
    while k < t.refs.len()
        invariant
            k <= t.refs@.len(),
            forall|j: int| 0 <= j < k ==> #[trigger] t@.refs[j] != id@,
        decreases t.refs@.len() - k,
    {
        proof {
            assert(t@.refs[k as int] == t.refs@[k as int]@);
        }
        if same_str(t.refs[k].as_str(), id) {
            return true;
        }
        k += 1;
    }
    false
}

/// Checks that a translation uses every settled word that concerns its script.
pub fn check_term_usage(terms: &[TermEntry], id: &str, jp: &str, ko: &str) -> (res: Result<
    (),
    PatchError,
>)
    ensures
        fault_outcome(res) == usage_fault(
            term_views(terms@),
            id@,
            jp@,
            ko@,
            terms@.len() as int,
        ),
{
    let ghost list = term_views(terms@);
    let normal_jp = normalize_term_text(jp);
    let normal_ko = normalize_term_text(ko);
    let mut i: usize = 0;
    while i < terms.len()
        invariant
            i <= terms@.len(),
            list == term_views(terms@),
            normal_jp@ == normal_text(jp@),
            normal_ko@ == normal_text(ko@),
            usage_fault(list, id@, jp@, ko@, i as int) is None,
        decreases terms@.len() - i,
    {
        let t = &terms[i];
        proof {
            assert(list[i as int] == t@);
        }
        if t.is_stable() {
            let concerns: bool = if t.match_refs_only {
                has_ref(t, id)
            } else {
                t.occurs(normal_jp.as_slice())
            };
            if concerns {
                let want = normalize_term_text(t.ko.as_str());
                if find(normal_ko.as_slice(), want.as_slice()).is_none() {
                    proof {
                        lemma_usage(list, id@, jp@, ko@, i + 1, list.len() as int);
                    }
                    return Err(
                        text(id).lit(": stable term ").lit(t.jp.as_str()).lit(" must use ").lit(
                            t.ko.as_str(),
                        ).fail(),
                    );
                }
            }
        }
        i += 1;
    }
    Ok(())
}

} // verus!
