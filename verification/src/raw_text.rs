//! Scripts as they were extracted, the baseline that translations are held against.
use vstd::prelude::*;
use crate::error::{plain, Fault, PatchError};
use crate::parse::{same_str, trim_spec};
use crate::script::opt_int;
use crate::script_callers::opt_text;
use crate::text::text;
use crate::translation::is_blank;

verus! {

/// A script as it was extracted.
#[derive(Debug, Clone)]
pub struct RawTextEntry {
    /// Unique name.
    pub id: String,
    /// What the script belongs to.
    pub kind: Option<String>,
    /// The region, for region scripts.
    pub region: Option<usize>,
    /// Number within its kind or region.
    pub index: Option<usize>,
    /// ROM offset, written out.
    pub offset: Option<String>,
    /// Length in bytes.
    pub len: Option<usize>,
    /// The script in readable form.
    pub jp: String,
    /// The bytes as hexadecimal words.
    pub bytes_hex: String,
    /// Checksum of the bytes.
    pub source_crc32: String,
}

/// The model of an extracted script.
#[verifier::ext_equal]
pub struct RawView {
    /// Unique name.
    pub id: Seq<char>,
    /// What the script belongs to.
    pub kind: Option<Seq<char>>,
    /// The region, for region scripts.
    pub region: Option<int>,
    /// Number within its kind or region.
    pub index: Option<int>,
    /// ROM offset, written out.
    pub offset: Option<Seq<char>>,
    /// Length in bytes.
    pub len: Option<int>,
    /// The script in readable form.
    pub jp: Seq<char>,
    /// The bytes as hexadecimal words.
    pub bytes_hex: Seq<char>,
    /// Checksum of the bytes.
    pub source_crc32: Seq<char>,
}

impl View for RawTextEntry {
    type V = RawView;

    open spec fn view(&self) -> RawView {
        RawView {
            id: self.id@,
            kind: opt_text(self.kind),
            region: opt_int(self.region),
            index: opt_int(self.index),
            offset: opt_text(self.offset),
            len: opt_int(self.len),
            jp: self.jp@,
            bytes_hex: self.bytes_hex@,
            source_crc32: self.source_crc32@,
        }
    }
}

/// The models of extracted scripts.
pub open spec fn raw_views(list: Seq<RawTextEntry>) -> Seq<RawView> {
    Seq::new(list.len(), |i: int| list[i]@)
}

impl RawView {
    /// Whether this is a shop script.
    pub open spec fn is_shop(self) -> bool {
        self.kind == Some("shop"@)
    }
}

/// Whether an optional string is a given one.
pub fn is_text(s: &Option<String>, want: &str) -> (r: bool)
    ensures
        r == (opt_text(*s) == Some(want@)),
{
    match s {
        Some(t) => same_str(t.as_str(), want),
        None => false,
    }
}

/// The last entry with a given name.
pub open spec fn raw_index(list: Seq<RawView>, id: Seq<char>) -> Option<int>
    decreases list.len(),
{
    if list.len() == 0 {
        None
    } else if list.last().id == id {
        Some(list.len() - 1)
    } else {
        raw_index(list.drop_last(), id)
    }
}

/// Looks an entry up by name; the last one counts.
pub fn find_raw(list: &[RawTextEntry], id: &str) -> (r: Option<usize>)
    ensures
        match r {
            Some(k) => k < list@.len() && raw_index(raw_views(list@), id@) == Some(k as int)
                && list@[k as int].id@ == id@,
            None => raw_index(raw_views(list@), id@) is None,
        },
{
    let ghost all = raw_views(list@);
    let mut n: usize = list.len();
    proof {
        assert(all.take(n as int) =~= all);
    }
    while n > 0
        invariant
            n <= list@.len(),
            all == raw_views(list@),
            raw_index(all, id@) == raw_index(all.take(n as int), id@),
        decreases n,
    {
        proof {
            assert(all.take(n as int).last() == list@[n - 1]@);
            assert(all.take(n as int).drop_last() =~= all.take(n - 1));
        }
        if same_str(list[n - 1].id.as_str(), id) {
            return Some(n - 1);
        }
        n -= 1;
    }
    None
}

/// Whether entry `i` is the last one with its name.
pub open spec fn is_last(list: Seq<RawView>, i: int) -> bool {
    raw_index(list, list[i].id) == Some(i)
}

/// How many names occur.
pub open spec fn distinct_ids(list: Seq<RawView>, n: int) -> int
    decreases n,
{
    if n <= 0 {
        0
    } else {
        distinct_ids(list, n - 1) + if is_last(list, n - 1) {
            1int
        } else {
            0
        }
    }
}

/// How many names occur.
pub fn count_ids(list: &[RawTextEntry]) -> (n: usize)
    ensures
        n == distinct_ids(raw_views(list@), list@.len() as int),
{
    let ghost all = raw_views(list@);
    let mut n: usize = 0;
    let mut i: usize = 0;
    while i < list.len()
        invariant
            i <= list@.len(),
            all == raw_views(list@),
            n <= i,
            n == distinct_ids(all, i as int),
        decreases list@.len() - i,
    {
        proof {
            assert(all[i as int] == list@[i as int]@);
        }
        match find_raw(list, list[i].id.as_str()) {
            Some(k) => {
                if k == i {
                    n += 1;
                }
            },
            None => {},
        }
        i += 1;
    }
    n
}

/// A file of extracted scripts that was read.
#[derive(Debug)]
pub struct RawInput {
    /// Where it was read from.
    pub path: String,
    /// Its entries.
    pub entries: Vec<RawTextEntry>,
}

/// What is wrong with the names of the first `n` entries of a file, if anything.
pub open spec fn raw_file_fault(file: RawInput, n: int) -> Option<Fault>
    decreases n,
{
    if n <= 0 {
        None
    } else {
        match raw_file_fault(file, n - 1) {
            Some(e) => Some(e),
            None => if trim_spec(file.entries@[n - 1].id@).len() == 0 {
                Some(plain(file.path@ + ": 빈 raw entry id"@))
            } else {
                None
            },
        }
    }
}

/// The entries of the first `n` files, or what is wrong with their names.
pub open spec fn raw_merged(files: Seq<RawInput>, n: int) -> Result<Seq<RawView>, Fault>
    decreases n,
{
    if n <= 0 {
        Ok(Seq::empty())
    } else {
        match raw_merged(files, n - 1) {
            Err(e) => Err(e),
            Ok(list) => match raw_file_fault(
                files[n - 1],
                files[n - 1].entries@.len() as int,
            ) {
                Some(e) => Err(e),
                None => Ok(list + raw_views(files[n - 1].entries@)),
            },
        }
    }
}

/// The entries of files; there must be some.
pub open spec fn raw_collected(files: Seq<RawInput>, path: Seq<char>) -> Result<
    Seq<RawView>,
    Fault,
> {
    match raw_merged(files, files.len() as int) {
        Err(e) => Err(e),
        Ok(list) => if list.len() == 0 {
            Err(plain("raw entries가 비어 있음: "@ + path))
        } else {
            Ok(list)
        },
    }
}

proof fn lemma_raw_file(file: RawInput, k: int, n: int)
    requires
        k <= n,
        raw_file_fault(file, k) is Some,
    ensures
        raw_file_fault(file, n) == raw_file_fault(file, k),
    decreases n - k,
{
    if k < n {
        lemma_raw_file(file, k, n - 1);
    }
}

proof fn lemma_raw_merged(files: Seq<RawInput>, k: int, n: int)
    requires
        k <= n,
        raw_merged(files, k) is Err,
    ensures
        raw_merged(files, n) == raw_merged(files, k),
    decreases n - k,
{
    if k < n {
        lemma_raw_merged(files, k, n - 1);
    }
}

/// A copy of an optional string.
pub fn copy_text(s: &Option<String>) -> (c: Option<String>)
    ensures
        opt_text(c) == opt_text(*s),
{
    match s {
        Some(t) => Some(t.clone()),
        None => None,
    }
}

/// A copy of an entry.
pub fn copy_raw(e: &RawTextEntry) -> (c: RawTextEntry)
    ensures
        c@ == e@,
{
    RawTextEntry {
        id: e.id.clone(),
        kind: copy_text(&e.kind),
        region: e.region,
        index: e.index,
        offset: copy_text(&e.offset),
        len: e.len,
        jp: e.jp.clone(),
        bytes_hex: e.bytes_hex.clone(),
        source_crc32: e.source_crc32.clone(),
    }
}

/// The entries of files that were read from `path`, one file after the other. Fails
/// where a name is blank or there are no entries.
pub fn load_raw_stage_entries(files: &[RawInput], path: &str) -> (res: Result<
    Vec<RawTextEntry>,
    PatchError,
>)
    ensures
        match res {
            Ok(list) => raw_collected(files@, path@) == Ok::<Seq<RawView>, Fault>(
                raw_views(list@),
            ),
            Err(e) => raw_collected(files@, path@) == Err::<Seq<RawView>, Fault>(e@),
        },
{
    let mut list: Vec<RawTextEntry> = Vec::new();
    let mut f: usize = 0;
    proof {
        assert(raw_views(list@) =~= Seq::empty());
    }
    while f < files.len()
        invariant
            f <= files@.len(),
            raw_merged(files@, f as int) == Ok::<Seq<RawView>, Fault>(raw_views(list@)),
        decreases files@.len() - f,
    {
        let file = &files[f];
        let ghost base = raw_views(list@);
        let ghost own = raw_views(file.entries@);
        let mut k: usize = 0;
        proof {
            assert(base + own.take(0) =~= base);
        }
        while k < file.entries.len()
            invariant
                f < files@.len(),
                file == files@[f as int],
                k <= file.entries@.len(),
                own == raw_views(file.entries@),
                raw_merged(files@, f as int) == Ok::<Seq<RawView>, Fault>(base),
                raw_views(list@) == base + own.take(k as int),
                raw_file_fault(*file, k as int) is None,
            decreases file.entries@.len() - k,
        {
            let e = &file.entries[k];
            if is_blank(e.id.as_str()) {
                proof {
                    lemma_raw_file(*file, k + 1, file.entries@.len() as int);
                    lemma_raw_merged(files@, f + 1, files@.len() as int);
                }
                return Err(text(file.path.as_str()).lit(": 빈 raw entry id").fail());
            }
            let ghost was = raw_views(list@);
            list.push(copy_raw(e));
            proof {
                assert(raw_views(list@) =~= was.push(e@));
                assert(raw_views(list@) =~= base + own.take(k + 1));
            }
            k += 1;
        }
        proof {
            assert(own.take(k as int) =~= own);
        }
        f += 1;
    }
    if list.len() == 0 {
        return Err(text("raw entries가 비어 있음: ").lit(path).fail());
    }
    Ok(list)
}

} // verus!
