//! EDINET document listings: which documents are annual securities reports,
//! which of them a filter selects, and which file of a downloaded zip archive
//! is the main XBRL instance.

use crate::text::{contains, contains_seq, copy_str, has_prefix, has_suffix, same_text, starts_with, ends_with};
use crate::xbrl::opt_view;
use vstd::prelude::*;

verus! {

/// One entry of the EDINET document list (`documents.json`, `results`).
pub struct Document {
    pub doc_id: String,
    pub edinet_code: Option<String>,
    pub sec_code: Option<String>,
    pub filer_name: Option<String>,
    pub ordinance_code: Option<String>,
    pub form_code: Option<String>,
    pub doc_description: Option<String>,
    pub period_start: Option<String>,
    pub period_end: Option<String>,
    pub submit_date_time: Option<String>,
    pub seq_number: Option<u64>,
    pub jcn: Option<String>,
    pub fund_code: Option<String>,
    pub doc_type_code: Option<String>,
    pub issuer_edinet_code: Option<String>,
    pub subject_edinet_code: Option<String>,
    pub subsidiary_edinet_code: Option<String>,
    pub current_report_reason: Option<String>,
    pub parent_doc_id: Option<String>,
    pub ope_date_time: Option<String>,
    pub withdrawal_status: Option<String>,
    pub doc_info_edit_status: Option<String>,
    pub disclosure_status: Option<String>,
    pub xbrl_flag: Option<String>,
    pub pdf_flag: Option<String>,
    pub attach_doc_flag: Option<String>,
    pub english_doc_flag: Option<String>,
    pub csv_flag: Option<String>,
    pub legal_status: Option<String>,
}

/// The optional text `o` is present and equals `t`.
pub open spec fn is_text(o: Option<String>, t: Seq<char>) -> bool {
    o matches Some(s) && s@ == t
}

/// The optional code `code` is present and equals one of `list`.
pub open spec fn code_listed(code: Option<String>, list: Seq<String>) -> bool {
    code matches Some(c) && exists|i: int| 0 <= i < list.len() && list[i]@ == c@
}

/// The optional filer name is present and contains one of `names`.
pub open spec fn name_listed(filer: Option<String>, names: Seq<String>) -> bool {
    filer matches Some(f) && exists|i: int| 0 <= i < names.len() && contains_seq(f@, names[i]@)
}

impl Document {
    /// An annual securities report: ordinance code "010" and form code "030000".
    pub open spec fn spec_is_annual_report(&self) -> bool {
        is_text(self.ordinance_code, "010"@) && is_text(self.form_code, "030000"@)
    }

    pub fn is_annual_report(&self) -> (res: bool)
        ensures
            res == self.spec_is_annual_report(),
    {
        let ordinance_ok = match &self.ordinance_code {
            Some(o) => same_text(o.as_str(), "010"),
            None => false,
        };
        let form_ok = match &self.form_code {
            Some(f) => same_text(f.as_str(), "030000"),
            None => false,
        };
        ordinance_ok && form_ok
    }
}

/// Which companies to fetch documents for: by EDINET code, by securities code,
/// or by part of the filer's name. A filter with no criteria selects everything.
pub struct Filter {
    pub edinet_codes: Vec<String>,
    pub sec_codes: Vec<String>,
    pub names: Vec<String>,
}

/// Whether the optional code equals one of `list`.
fn listed(code: &Option<String>, list: &Vec<String>) -> (res: bool)
    ensures
        res == code_listed(*code, list@),
{
    match code {
        Some(c) => {
            let mut i: usize = 0;
            while i < list.len()
                invariant
                    *code == Some(*c),
                    i <= list.len(),
                    forall|k: int| 0 <= k < i ==> list@[k]@ != c@,
                decreases list.len() - i,
            {
                if list[i] == *c {
                    assert(list@[i as int]@ == c@);
                    return true;
                }
                i = i + 1;
            }
            false
        },
        None => false,
    }
}

/// Whether the optional filer name contains one of `names`.
fn name_hit(filer: &Option<String>, names: &Vec<String>) -> (res: bool)
    ensures
        res == name_listed(*filer, names@),
{
    match filer {
        Some(f) => {
            let mut i: usize = 0;
            while i < names.len()
                invariant
                    *filer == Some(*f),
                    i <= names.len(),
                    forall|k: int| 0 <= k < i ==> !contains_seq(f@, #[trigger] names@[k]@),
                decreases names.len() - i,
            {
                if contains(f.as_str(), names[i].as_str()) {
                    assert(contains_seq(f@, names@[i as int]@));
                    return true;
                }
                i = i + 1;
            }
            false
        },
        None => false,
    }
}

impl Filter {
    pub open spec fn spec_is_empty(&self) -> bool {
        &&& self.edinet_codes@.len() == 0
        &&& self.sec_codes@.len() == 0
        &&& self.names@.len() == 0
    }

    /// The filter selects `doc`: it has no criteria, or the document's EDINET
    /// code or securities code is listed, or its filer name contains a listed name.
    pub open spec fn spec_matches(&self, doc: &Document) -> bool {
        ||| self.spec_is_empty()
        ||| code_listed(doc.edinet_code, self.edinet_codes@)
        ||| code_listed(doc.sec_code, self.sec_codes@)
        ||| name_listed(doc.filer_name, self.names@)
    }

    pub fn is_empty(&self) -> (res: bool)
        ensures
            res == self.spec_is_empty(),
    {
        self.edinet_codes.len() == 0 && self.sec_codes.len() == 0 && self.names.len() == 0
    }

    /// Whether the filter selects `doc`; an empty filter selects every document.
    pub fn matches(&self, doc: &Document) -> (res: bool)
        ensures
            res == self.spec_matches(doc),
            self.spec_is_empty() ==> res,
    {
        if self.is_empty() {
            return true;
        }
        listed(&doc.edinet_code, &self.edinet_codes) || listed(&doc.sec_code, &self.sec_codes)
            || name_hit(&doc.filer_name, &self.names)
    }
}

/// A document is to be fetched: it is an annual report and the filter selects it.
pub open spec fn wanted(doc: &Document, filter: &Filter) -> bool {
    doc.spec_is_annual_report() && filter.spec_matches(doc)
}

/// The positions of the documents of one day's list that are to be fetched,
/// in list order.
pub fn reports_to_fetch(docs: &Vec<Document>, filter: &Filter) -> (res: Vec<usize>)
    ensures
        forall|k: int| 0 <= k < res@.len() ==> res@[k] < docs@.len() && wanted(
            &docs@[res@[k] as int],
            filter,
        ),
        forall|k: int, l: int| 0 <= k < l < res@.len() ==> res@[k] < res@[l],
        forall|i: int|
            0 <= i < docs@.len() && wanted(&docs@[i], filter) ==> res@.contains(i as usize),
{
    let mut res: Vec<usize> = Vec::new();
    let mut i: usize = 0;
    while i < docs.len()
        invariant
            i <= docs.len(),
            forall|k: int| 0 <= k < res@.len() ==> res@[k] < i && wanted(&docs@[res@[k] as int], filter),
            forall|k: int, l: int| 0 <= k < l < res@.len() ==> res@[k] < res@[l],
            forall|j: int| 0 <= j < i && wanted(&docs@[j], filter) ==> res@.contains(j as usize),
        decreases docs.len() - i,
    {
        if docs[i].is_annual_report() && filter.matches(&docs[i]) {
            let ghost old_res = res@;
            res.push(i);
            proof {
                assert(res@ == old_res.push(i));
                assert forall|j: int| 0 <= j < i + 1 && wanted(&docs@[j], filter) implies res@.contains(j as usize) by {
                    if j < i {
                        assert(old_res.contains(j as usize));
                        let k = choose|k: int| 0 <= k < old_res.len() && old_res[k] == j as usize;
                        assert(res@[k] == j as usize);
                    } else {
                        assert(res@[res@.len() - 1] == j as usize);
                    }
                }
            }
        }
        i = i + 1;
    }
    res
}

/// Only annual securities reports are fetched: a document is an annual
/// report exactly when its ordinance code is "010" and its form code is
/// "030000" (so amended reports, "030001", and every other form are not), and
/// every document chosen for fetching is one.
pub proof fn lemma_annual_report_codes(doc: Document, filter: Filter)
    ensures
        doc.spec_is_annual_report() <==> (doc.ordinance_code matches Some(o) && o@ == "010"@)
            && (doc.form_code matches Some(f) && f@ == "030000"@),
        wanted(&doc, &filter) ==> (doc.form_code matches Some(f) && f@ == "030000"@)
            && (doc.ordinance_code matches Some(o) && o@ == "010"@),
{
}

/// What the filter selects: an empty filter selects every document; a
/// document whose EDINET code or securities code is one of the filter's, or
/// whose filer name contains one of the filter's names, is selected; and a
/// non-empty filter selects nothing else.
pub proof fn lemma_filter_selects(filter: Filter, doc: Document)
    ensures
        filter.edinet_codes@.len() == 0 && filter.sec_codes@.len() == 0 && filter.names@.len() == 0
            ==> filter.spec_matches(&doc),
        (doc.edinet_code matches Some(c) && exists|i: int|
            0 <= i < filter.edinet_codes@.len() && (#[trigger] filter.edinet_codes@[i])@ == c@)
            ==> filter.spec_matches(&doc),
        (doc.sec_code matches Some(c) && exists|i: int|
            0 <= i < filter.sec_codes@.len() && (#[trigger] filter.sec_codes@[i])@ == c@)
            ==> filter.spec_matches(&doc),
        (doc.filer_name matches Some(f) && exists|i: int|
            0 <= i < filter.names@.len() && contains_seq(f@, (#[trigger] filter.names@[i])@))
            ==> filter.spec_matches(&doc),
        filter.spec_matches(&doc) && !(filter.edinet_codes@.len() == 0 && filter.sec_codes@.len() == 0
            && filter.names@.len() == 0) ==> (doc.edinet_code matches Some(c) && exists|i: int|
            0 <= i < filter.edinet_codes@.len() && (#[trigger] filter.edinet_codes@[i])@ == c@)
            || (doc.sec_code matches Some(c) && exists|i: int|
            0 <= i < filter.sec_codes@.len() && (#[trigger] filter.sec_codes@[i])@ == c@)
            || (doc.filer_name matches Some(f) && exists|i: int|
            0 <= i < filter.names@.len() && contains_seq(f@, (#[trigger] filter.names@[i])@)),
{
}

/// The directory name under which a document is stored: its EDINET code, or
/// "unknown" when the listing gives none.
pub fn storage_code(doc: &Document) -> (res: String)
    ensures
        doc.edinet_code matches Some(c) ==> res@ == c@,
        doc.edinet_code is None ==> res@ == "unknown"@,
{
    match &doc.edinet_code {
        Some(c) => copy_str(c.as_str()),
        None => copy_str("unknown"),
    }
}

/// The main XBRL instance of an annual report: under `PublicDoc`, named
/// `jpcrp…​.xbrl` (audit documents are named `jpaud-…` instead).
pub open spec fn spec_is_main_instance(entry_name: Seq<char>, file_name: Seq<char>) -> bool {
    &&& contains_seq(entry_name, "PublicDoc"@)
    &&& has_prefix(file_name, "jpcrp"@)
    &&& has_suffix(file_name, ".xbrl"@)
}

pub fn is_main_instance_document(entry_name: &str, file_name: &str) -> (res: bool)
    ensures
        res == spec_is_main_instance(entry_name@, file_name@),
{
    contains(entry_name, "PublicDoc") && starts_with(file_name, "jpcrp") && ends_with(
        file_name,
        ".xbrl",
    )
}

// ── Reading a downloaded archive ───────────────────────────────────────────

/// The number of entries that the `zip` crate finds in `archive`; `None`
/// when it cannot open the bytes as a zip archive.
pub uninterp spec fn zip_entry_count(archive: Seq<u8>) -> Option<nat>;

/// The name that the `zip` crate reads for entry `i` of the archive (as it is
/// stored, before any path handling); `None` when the entry cannot be opened.
pub uninterp spec fn zip_entry_raw_name(archive: Seq<u8>, i: int) -> Option<Seq<char>>;

/// The decompressed bytes of entry `i`; `None` when the entry cannot be
/// opened or read.
pub uninterp spec fn zip_entry_bytes(archive: Seq<u8>, i: int) -> Option<Seq<u8>>;

/// `f` can be the last component of the path `raw`: a non-empty piece of it
/// with no `/`. This holds whatever the platform's path rules are.
pub open spec fn is_file_part(f: Seq<char>, raw: Seq<char>) -> bool {
    &&& f.len() > 0
    &&& !f.contains('/')
    &&& contains_seq(raw, f)
}

/// `zip::ZipArchive::new` on the bytes, then `len`. Claimed: the result is
/// `zip_entry_count` of the bytes and depends on nothing else.
#[verifier::external_body]
fn read_zip_len(archive: &[u8]) -> (res: Option<usize>)
    ensures
        match res {
            Some(n) => zip_entry_count(archive@) == Some(n as nat),
            None => zip_entry_count(archive@) is None,
        },
{
    match zip::ZipArchive::new(std::io::Cursor::new(archive)) {
        Ok(a) => Some(a.len()),
        Err(_) => None,
    }
}

/// `zip::ZipArchive::by_index`, then the entry's `name`, and the file name of
/// its `enclosed_name` (lossy text). Claimed: the name is `zip_entry_raw_name`
/// of the bytes and the index. The file name follows the path rules of the
/// platform (`\` and drive prefixes count on Windows only), so of it only what
/// holds everywhere is claimed: when there is one, it is a file part of the
/// name. When it is `None` is left unsaid.
#[verifier::external_body]
fn read_zip_name(archive: &[u8], i: usize) -> (res: Option<(String, Option<String>)>)
    ensures
        match res {
            Some((e, f)) => zip_entry_raw_name(archive@, i as int) == Some(e@) && match f {
                Some(f) => is_file_part(f@, e@),
                None => true,
            },
            None => zip_entry_raw_name(archive@, i as int) is None,
        },
{
    let mut a = zip::ZipArchive::new(std::io::Cursor::new(archive)).ok()?;
    let entry = a.by_index(i).ok()?;
    let file = entry.enclosed_name().and_then(|p| p.file_name().map(|f| f.to_string_lossy().into_owned()));
    Some((entry.name().to_string(), file))
}

/// `zip::ZipArchive::by_index`, then reading the entry to its end. Claimed:
/// the result is `zip_entry_bytes` of the bytes and the index, and depends on
/// nothing else.
#[verifier::external_body]
fn read_zip_entry(archive: &[u8], i: usize) -> (res: Option<Vec<u8>>)
    ensures
        match res {
            Some(v) => zip_entry_bytes(archive@, i as int) == Some(v@),
            None => zip_entry_bytes(archive@, i as int) is None,
        },
{
    let mut a = zip::ZipArchive::new(std::io::Cursor::new(archive)).ok()?;
    let mut entry = a.by_index(i).ok()?;
    let mut bytes = Vec::new();
    std::io::Read::read_to_end(&mut entry, &mut bytes).ok()?;
    Some(bytes)
}

/// Whether an entry with the name `raw` and the file name `file` is the main
/// instance.
pub open spec fn qualifies(raw: Seq<char>, file: Option<Seq<char>>) -> bool {
    match file {
        Some(f) => spec_is_main_instance(raw, f),
        None => false,
    }
}

/// The file names `files` (one for each entry, in order) are ones that the
/// entries' names allow.
pub open spec fn file_names_fit(archive: Seq<u8>, files: Seq<Option<Seq<char>>>) -> bool {
    forall|j: int|
        0 <= j < files.len() ==> match zip_entry_raw_name(archive, j) {
            Some(r) => match #[trigger] files[j] {
                Some(f) => is_file_part(f, r),
                None => true,
            },
            None => true,
        }
}

/// Looking at the entries from position `k` (of `n`) on, in order, when the
/// entries' file names are `files`: the file name and bytes of the first entry
/// that is the main instance, `Some(None)` when none is, and `None` when an
/// entry looked at cannot be opened or the chosen one cannot be read.
pub open spec fn scan_entries(archive: Seq<u8>, n: nat, files: Seq<Option<Seq<char>>>, k: nat) -> Option<
    Option<(Seq<char>, Seq<u8>)>,
>
    decreases n - k,
{
    if k >= n {
        Some(None)
    } else {
        match zip_entry_raw_name(archive, k as int) {
            None => None,
            Some(r) => {
                let file = if k < files.len() {
                    files[k as int]
                } else {
                    None
                };
                if qualifies(r, file) {
                    match zip_entry_bytes(archive, k as int) {
                        None => None,
                        Some(b) => Some(Some((file.unwrap(), b))),
                    }
                } else {
                    scan_entries(archive, n, files, k + 1)
                }
            },
        }
    }
}

/// What reading the archive gives when the entries' file names are `files`.
pub open spec fn archive_outcome(archive: Seq<u8>, files: Seq<Option<Seq<char>>>) -> Option<
    Option<(Seq<char>, Seq<u8>)>,
> {
    match zip_entry_count(archive) {
        None => None,
        Some(n) => scan_entries(archive, n, files, 0),
    }
}

/// The views of what `main_instance_entry` returns.
pub open spec fn entry_view(res: Option<Option<(String, Vec<u8>)>>) -> Option<Option<(Seq<char>, Seq<u8>)>> {
    match res {
        None => None,
        Some(None) => Some(None),
        Some(Some((f, b))) => Some(Some((f@, b@))),
    }
}

/// Entry `m` opens and, with the file name `files[m]`, is not the main
/// instance.
pub open spec fn passed_over(archive: Seq<u8>, files: Seq<Option<Seq<char>>>, m: int) -> bool {
    match zip_entry_raw_name(archive, m) {
        Some(r) => !qualifies(r, files[m]),
        None => false,
    }
}

/// Entries before `k` that open and do not qualify do not change the outcome.
proof fn lemma_scan_skip(archive: Seq<u8>, n: nat, files: Seq<Option<Seq<char>>>, j: nat, k: nat)
    requires
        j <= k <= n,
        k <= files.len(),
        forall|m: int|
            0 <= m < k ==> #[trigger] passed_over(archive, files, m),
    ensures
        scan_entries(archive, n, files, j) == scan_entries(archive, n, files, k),
    decreases k - j,
{
    if j < k {
        assert(passed_over(archive, files, j as int));
        lemma_scan_skip(archive, n, files, j + 1, k);
    }
}

/// Scanning with more file names known gives the same outcome up to the
/// entries already looked at.
proof fn lemma_scan_push(archive: Seq<u8>, n: nat, files: Seq<Option<Seq<char>>>, f: Option<Seq<char>>, k: nat)
    requires
        k == files.len(),
        k < n,
    ensures
        scan_entries(archive, n, files.push(f), k) == match zip_entry_raw_name(archive, k as int) {
            None => None,
            Some(r) => if qualifies(r, f) {
                match zip_entry_bytes(archive, k as int) {
                    None => None,
                    Some(b) => Some(Some((f.unwrap(), b))),
                }
            } else {
                scan_entries(archive, n, files.push(f), k + 1)
            },
        },
{
}

/// The main XBRL instance of a downloaded archive: its file name and its
/// bytes, `Some(None)` when the archive holds none, and `None` when the
/// archive, or an entry looked at, cannot be read. Entries are looked at in
/// order, and the first with a file name under `PublicDoc` named `jpcrp…​.xbrl`
/// is taken. Which entries have a file name depends on the platform's path
/// rules; whatever they are, the result is what they give.
pub fn main_instance_entry(archive: &[u8]) -> (res: Option<Option<(String, Vec<u8>)>>)
    ensures
        exists|files: Seq<Option<Seq<char>>>|
            #![trigger archive_outcome(archive@, files)]
            file_names_fit(archive@, files) && archive_outcome(archive@, files) == entry_view(res),
        res matches Some(Some((f, b))) ==> exists|k: int|
            #![trigger zip_entry_bytes(archive@, k)]
            0 <= k && (zip_entry_raw_name(archive@, k) matches Some(r) && spec_is_main_instance(r, f@)
                && is_file_part(f@, r)) && zip_entry_bytes(archive@, k) == Some(b@),
        res matches Some(None) ==> zip_entry_count(archive@) matches Some(n) && forall|k: int|
            0 <= k < n ==> (#[trigger] zip_entry_raw_name(archive@, k)) is Some,
{
    let ghost mut files: Seq<Option<Seq<char>>> = Seq::empty();
    let n = match read_zip_len(archive) {
        None => {
            assert(archive_outcome(archive@, files) == entry_view(None));
            return None;
        },
        Some(n) => n,
    };
    let mut k: usize = 0;
    while k < n
        invariant
            k <= n,
            zip_entry_count(archive@) == Some(n as nat),
            files.len() == k,
            file_names_fit(archive@, files),
            forall|m: int|
                0 <= m < k ==> #[trigger] passed_over(archive@, files, m),
        decreases n - k,
    {
        match read_zip_name(archive, k) {
            None => {
                proof {
                    let fs = files.push(None);
                    assert forall|m: int| 0 <= m < k implies #[trigger] passed_over(archive@, fs, m) by {
                        assert(fs[m] == files[m]);
                        assert(passed_over(archive@, files, m));
                    }
                    lemma_scan_skip(archive@, n as nat, fs, 0, k as nat);
                    assert(file_names_fit(archive@, fs));
                    assert(archive_outcome(archive@, fs) == entry_view(None));
                }
                return None;
            },
            Some((entry, file)) => {
                let ghost f = opt_view(file);
                let ghost fs = files.push(f);
                proof {
                    assert(file_names_fit(archive@, fs)) by {
                        assert forall|j: int| 0 <= j < fs.len() implies match zip_entry_raw_name(archive@, j) {
                            Some(r) => match #[trigger] fs[j] {
                                Some(f) => is_file_part(f, r),
                                None => true,
                            },
                            None => true,
                        } by {
                            if j < k {
                                assert(fs[j] == files[j]);
                            }
                        }
                    }
                    assert forall|m: int| 0 <= m < k implies #[trigger] passed_over(archive@, fs, m) by {
                        assert(fs[m] == files[m]);
                        assert(passed_over(archive@, files, m));
                    }
                    lemma_scan_skip(archive@, n as nat, fs, 0, k as nat);
                    lemma_scan_push(archive@, n as nat, files, f, k as nat);
                }
                let mut found = false;
                if let Some(name) = &file {
                    found = is_main_instance_document(entry.as_str(), name.as_str());
                }
                assert(found == qualifies(entry@, f));
                if found {
                    let name = file.unwrap();
                    return match read_zip_entry(archive, k) {
                        None => {
                            assert(archive_outcome(archive@, fs) == entry_view(None));
                            None
                        },
                        Some(b) => {
                            let res = Some(Some((name, b)));
                            assert(archive_outcome(archive@, fs) == entry_view(res));
                            res
                        },
                    };
                }
                proof {
                    assert(passed_over(archive@, fs, k as int));
                    files = fs;
                }
            },
        }
        k = k + 1;
    }
    proof {
        lemma_scan_skip(archive@, n as nat, files, 0, n as nat);
        assert(archive_outcome(archive@, files) == entry_view(Some(None)));
        assert forall|m: int| 0 <= m < n implies (#[trigger] zip_entry_raw_name(archive@, m)) is Some by {
            assert(passed_over(archive@, files, m));
        }
    }
    Some(None)
}

} // verus!
