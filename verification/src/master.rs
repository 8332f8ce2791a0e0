//! The master list of listed companies: joining the exchange's list of
//! listed issues with the EDINET code list, and reading companies, codes and
//! the EDINET-code-to-securities-code table back out of it.

use crate::text::{chars_of, contains, contains_seq, replace_all, replace_str, string_of_range};
use crate::xbrl::opt_view;
use vstd::prelude::*;

verus! {

// ── Building the master list ────────────────────────────────────────────────

/// One row of the exchange's list of listed issues (the columns that are kept).
pub struct JpxListing {
    pub code: Option<String>,
    pub name: Option<String>,
    /// 市場・商品区分, e.g. "プライム（内国株式）" or "ETF・ETN".
    pub segment: Option<String>,
    pub sector: Option<String>,
}

/// One row of the EDINET code list (the columns that are kept).
pub struct CodelistEntry {
    pub edinet_code: Option<String>,
    pub closing_date: Option<String>,
    pub corporate_number: Option<String>,
    /// The five-character securities code.
    pub sec_code: Option<String>,
}

/// One row of the master list.
pub struct MasterRow {
    pub sec_code: Option<String>,
    pub name: Option<String>,
    pub market: Option<String>,
    pub sector: Option<String>,
    pub edinet_code: Option<String>,
    pub closing_date: Option<String>,
    pub corporate_number: Option<String>,
}

pub struct MasterRowView {
    pub sec_code: Option<Seq<char>>,
    pub name: Option<Seq<char>>,
    pub market: Option<Seq<char>>,
    pub sector: Option<Seq<char>>,
    pub edinet_code: Option<Seq<char>>,
    pub closing_date: Option<Seq<char>>,
    pub corporate_number: Option<Seq<char>>,
}

impl View for MasterRow {
    type V = MasterRowView;

    open spec fn view(&self) -> MasterRowView {
        MasterRowView {
            sec_code: opt_view(self.sec_code),
            name: opt_view(self.name),
            market: opt_view(self.market),
            sector: opt_view(self.sector),
            edinet_code: opt_view(self.edinet_code),
            closing_date: opt_view(self.closing_date),
            corporate_number: opt_view(self.corporate_number),
        }
    }
}

/// The NFKC normalization of `s` (full-width letters and digits become
/// half-width, and so on), as the `unicode-normalization` crate computes it.
pub uninterp spec fn nfkc_of(s: Seq<char>) -> Seq<char>;

/// `UnicodeNormalization::nfkc` collected into a string. Claimed: the result
/// is `nfkc_of` of the input and depends on nothing else; what NFKC does to
/// each character is left unsaid.
#[verifier::external_body]
fn nfkc(s: &str) -> (res: String)
    ensures
        res@ == nfkc_of(s@),
{
    unicode_normalization::UnicodeNormalization::nfkc(s).collect::<String>()
}

/// An issue is an individual domestic stock: its segment names 内国株式
/// (ETFs, ETNs, REITs and the like do not).
pub open spec fn is_domestic_stock(segment: Option<String>) -> bool {
    segment matches Some(s) && contains_seq(s@, "内国株式"@)
}

/// The market of a domestic stock: its segment without "（内国株式）",
/// e.g. "プライム".
pub open spec fn market_of(segment: Seq<char>) -> Seq<char> {
    replace_all(segment, "（内国株式）"@, Seq::empty())
}

/// The first (at most) four characters of `code`: the securities code of
/// the code list has a fifth check character that the exchange's list has not.
pub open spec fn code4(code: Seq<char>) -> Seq<char> {
    if code.len() <= 4 {
        code
    } else {
        code.take(4)
    }
}

/// The normalized name, when there is one.
pub open spec fn normalized_name(o: Option<String>) -> Option<Seq<char>> {
    match o {
        Some(s) => Some(nfkc_of(s@)),
        None => None,
    }
}

/// The market of a segment, when there is one.
pub open spec fn market_opt(o: Option<String>) -> Option<Seq<char>> {
    match o {
        Some(s) => Some(market_of(s@)),
        None => None,
    }
}

/// A code list entry belongs to a listed issue: both securities codes are
/// present and the entry's first four characters equal the issue's code.
pub open spec fn entry_matches(l: JpxListing, e: CodelistEntry) -> bool {
    l.code matches Some(c) && e.sec_code matches Some(s) && code4(s@) == c@
}

/// The master row for issue `l` and code list entry `e` (no entry: empty
/// EDINET columns).
pub open spec fn master_row(l: JpxListing, e: Option<CodelistEntry>) -> MasterRowView {
    MasterRowView {
        sec_code: opt_view(l.code),
        name: normalized_name(l.name),
        market: market_opt(l.segment),
        sector: opt_view(l.sector),
        edinet_code: match e {
            Some(e) => opt_view(e.edinet_code),
            None => None,
        },
        closing_date: match e {
            Some(e) => opt_view(e.closing_date),
            None => None,
        },
        corporate_number: match e {
            Some(e) => opt_view(e.corporate_number),
            None => None,
        },
    }
}

/// The rows for issue `l` from the first `k` code list entries that belong to it.
pub open spec fn matched_rows(l: JpxListing, entries: Seq<CodelistEntry>, k: int) -> Seq<
    MasterRowView,
>
    decreases k,
{
    if k <= 0 {
        Seq::empty()
    } else {
        let r = matched_rows(l, entries, k - 1);
        if entry_matches(l, entries[k - 1]) {
            r.push(master_row(l, Some(entries[k - 1])))
        } else {
            r
        }
    }
}

/// The rows for issue `l`: one per code list entry that belongs to it, in
/// code list order, or a single row with empty EDINET columns when none does.
pub open spec fn rows_for(l: JpxListing, entries: Seq<CodelistEntry>) -> Seq<MasterRowView> {
    let m = matched_rows(l, entries, entries.len() as int);
    if m.len() == 0 {
        seq![master_row(l, None)]
    } else {
        m
    }
}

/// The master list from the first `n` issues: the domestic stocks, in
/// list order, each joined with its code list entries.
pub open spec fn master_list(
    listings: Seq<JpxListing>,
    entries: Seq<CodelistEntry>,
    n: int,
) -> Seq<MasterRowView>
    decreases n,
{
    if n <= 0 {
        Seq::empty()
    } else {
        let r = master_list(listings, entries, n - 1);
        if is_domestic_stock(listings[n - 1].segment) {
            r + rows_for(listings[n - 1], entries)
        } else {
            r
        }
    }
}

/// Every row for an issue carries the issue's securities code and sector,
/// and there is at least one.
proof fn lemma_rows_for_issue(l: JpxListing, entries: Seq<CodelistEntry>, k: int)
    requires
        0 <= k <= entries.len(),
    ensures
        forall|r: int|
            0 <= r < matched_rows(l, entries, k).len() ==> (#[trigger] matched_rows(l, entries, k)[r]).sector
                == opt_view(l.sector) && matched_rows(l, entries, k)[r].sec_code == opt_view(l.code),
    decreases k,
{
    if k > 0 {
        lemma_rows_for_issue(l, entries, k - 1);
    }
}

/// The code list entry's five-character securities code begins with the
/// issue's four-character code.
pub open spec fn codes_agree(l: JpxListing, e: CodelistEntry) -> bool {
    l.code matches Some(c) && e.sec_code matches Some(s) && (if s@.len() <= 4 {
        s@ == c@
    } else {
        s@.take(4) == c@
    })
}

/// The EDINET columns of a row are those of entry `e`.
pub open spec fn has_entry_columns(row: MasterRowView, e: CodelistEntry) -> bool {
    &&& row.edinet_code == opt_view(e.edinet_code)
    &&& row.closing_date == opt_view(e.closing_date)
    &&& row.corporate_number == opt_view(e.corporate_number)
}

/// The row takes its EDINET columns from one of the first `k` entries, one
/// whose securities code agrees with the issue's.
pub open spec fn from_agreeing_entry(row: MasterRowView, l: JpxListing, entries: Seq<CodelistEntry>, k: int) -> bool {
    exists|j: int| 0 <= j < k && codes_agree(l, entries[j]) && #[trigger] has_entry_columns(row, entries[j])
}

proof fn lemma_matched_rows(l: JpxListing, entries: Seq<CodelistEntry>, k: int)
    requires
        0 <= k <= entries.len(),
    ensures
        forall|r: int|
            0 <= r < matched_rows(l, entries, k).len() ==> from_agreeing_entry(
                #[trigger] matched_rows(l, entries, k)[r],
                l,
                entries,
                k,
            ),
        forall|j: int|
            0 <= j < k && codes_agree(l, #[trigger] entries[j]) ==> exists|r: int|
                0 <= r < matched_rows(l, entries, k).len() && has_entry_columns(
                    matched_rows(l, entries, k)[r],
                    entries[j],
                ),
        matched_rows(l, entries, k).len() == 0 ==> forall|j: int|
            0 <= j < k ==> !codes_agree(l, #[trigger] entries[j]),
    decreases k,
{
    if k > 0 {
        lemma_matched_rows(l, entries, k - 1);
        let p = matched_rows(l, entries, k - 1);
        let q = matched_rows(l, entries, k);
        assert(entry_matches(l, entries[k - 1]) == codes_agree(l, entries[k - 1]));
        assert forall|r: int| 0 <= r < p.len() implies from_agreeing_entry(#[trigger] p[r], l, entries, k) by {
            assert(from_agreeing_entry(p[r], l, entries, k - 1));
            let j = choose|j: int|
                0 <= j < k - 1 && codes_agree(l, entries[j]) && #[trigger] has_entry_columns(p[r], entries[j]);
            assert(has_entry_columns(p[r], entries[j]));
        }
        if codes_agree(l, entries[k - 1]) {
            assert(q == p.push(master_row(l, Some(entries[k - 1]))));
            assert forall|r: int| 0 <= r < q.len() implies from_agreeing_entry(#[trigger] q[r], l, entries, k) by {
                if r < p.len() {
                    assert(q[r] == p[r]);
                    assert(from_agreeing_entry(p[r], l, entries, k));
                } else {
                    assert(has_entry_columns(q[r], entries[k - 1]));
                }
            }
            assert forall|j: int| 0 <= j < k && codes_agree(l, #[trigger] entries[j]) implies exists|r: int|
                0 <= r < q.len() && has_entry_columns(q[r], entries[j]) by {
                if j < k - 1 {
                    let r = choose|r: int| 0 <= r < p.len() && has_entry_columns(p[r], entries[j]);
                    assert(q[r] == p[r]);
                } else {
                    assert(has_entry_columns(q[p.len() as int], entries[j]));
                }
            }
        } else {
            assert(q == p);
        }
    }
}

/// The rows for one issue: each carries the issue's own securities code,
/// normalized name, market (the segment without "（内国株式）") and sector;
/// each takes its EDINET columns from a code list entry whose securities code
/// begins with the issue's code, and every such entry gives a row; when there
/// is none, there is exactly one row, with empty EDINET columns.
pub proof fn lemma_rows_for_fields(l: JpxListing, entries: Seq<CodelistEntry>)
    ensures
        rows_for(l, entries).len() >= 1,
        forall|r: int|
            0 <= r < rows_for(l, entries).len() ==> {
                let row = #[trigger] rows_for(l, entries)[r];
                &&& row.sec_code == opt_view(l.code)
                &&& row.sector == opt_view(l.sector)
                &&& row.name == match l.name {
                    Some(n) => Some(nfkc_of(n@)),
                    None => None,
                }
                &&& row.market == match l.segment {
                    Some(g) => Some(replace_all(g@, "（内国株式）"@, Seq::empty())),
                    None => None,
                }
            },
        forall|r: int|
            0 <= r < rows_for(l, entries).len() ==> from_agreeing_entry(
                #[trigger] rows_for(l, entries)[r],
                l,
                entries,
                entries.len() as int,
            ) || ((forall|j: int| 0 <= j < entries.len() ==> !codes_agree(l, #[trigger] entries[j]))
                && rows_for(l, entries).len() == 1 && rows_for(l, entries)[r].edinet_code is None
                && rows_for(l, entries)[r].closing_date is None
                && rows_for(l, entries)[r].corporate_number is None),
        forall|j: int|
            0 <= j < entries.len() && codes_agree(l, #[trigger] entries[j]) ==> exists|r: int|
                0 <= r < rows_for(l, entries).len() && has_entry_columns(rows_for(l, entries)[r], entries[j]),
{
    let n = entries.len() as int;
    lemma_rows_for_issue(l, entries, n);
    lemma_matched_rows(l, entries, n);
    let m = matched_rows(l, entries, n);
    let rf = rows_for(l, entries);
    assert forall|r: int| 0 <= r < rf.len() implies {
        let row = #[trigger] rf[r];
        &&& row.sec_code == opt_view(l.code)
        &&& row.sector == opt_view(l.sector)
        &&& row.name == match l.name {
            Some(n) => Some(nfkc_of(n@)),
            None => None,
        }
        &&& row.market == match l.segment {
            Some(g) => Some(replace_all(g@, "（内国株式）"@, Seq::empty())),
            None => None,
        }
    } by {
        if m.len() > 0 {
            assert(rf[r] == m[r]);
            lemma_matched_row_issue(l, entries, n, r);
        }
    }
}

proof fn lemma_matched_row_issue(l: JpxListing, entries: Seq<CodelistEntry>, k: int, r: int)
    requires
        0 <= k <= entries.len(),
        0 <= r < matched_rows(l, entries, k).len(),
    ensures
        matched_rows(l, entries, k)[r].name == normalized_name(l.name),
        matched_rows(l, entries, k)[r].market == market_opt(l.segment),
    decreases k,
{
    if k > 0 {
        let p = matched_rows(l, entries, k - 1);
        if r < p.len() {
            if entry_matches(l, entries[k - 1]) {
                assert(matched_rows(l, entries, k)[r] == p[r]);
            }
            lemma_matched_row_issue(l, entries, k - 1, r);
        }
    }
}

/// The master list is made of the domestic stocks' rows, each carrying the
/// stock's own securities code and 33-industry sector: every row comes from
/// a domestic stock among the first `n` issues and has that issue's code and
/// sector, and every such issue has a row with its code and sector.
pub proof fn lemma_master_rows_keep_issue(listings: Seq<JpxListing>, entries: Seq<CodelistEntry>, n: int)
    requires
        0 <= n <= listings.len(),
    ensures
        forall|r: int|
            0 <= r < master_list(listings, entries, n).len() ==> exists|i: int|
                0 <= i < n && is_domestic_stock(listings[i].segment) && (#[trigger] master_list(
                    listings,
                    entries,
                    n,
                )[r]).sector == opt_view(#[trigger] listings[i].sector) && master_list(
                    listings,
                    entries,
                    n,
                )[r].sec_code == opt_view(listings[i].code),
        forall|i: int|
            0 <= i < n && is_domestic_stock(#[trigger] listings[i].segment) ==> exists|r: int|
                0 <= r < master_list(listings, entries, n).len() && (#[trigger] master_list(
                    listings,
                    entries,
                    n,
                )[r]).sector == opt_view(listings[i].sector) && master_list(
                    listings,
                    entries,
                    n,
                )[r].sec_code == opt_view(listings[i].code),
    decreases n,
{
    if n > 0 {
        lemma_master_rows_keep_issue(listings, entries, n - 1);
        let prev = master_list(listings, entries, n - 1);
        let cur = master_list(listings, entries, n);
        let l = listings[n - 1];
        lemma_rows_for_issue(l, entries, entries.len() as int);
        let rf = rows_for(l, entries);
        assert forall|r: int| 0 <= r < rf.len() implies (#[trigger] rf[r]).sector == opt_view(l.sector)
            && rf[r].sec_code == opt_view(l.code) by {
            let m = matched_rows(l, entries, entries.len() as int);
            if m.len() > 0 {
                assert(rf[r] == m[r]);
            }
        }
        if is_domestic_stock(l.segment) {
            assert(cur == prev + rf);
            assert forall|r: int| 0 <= r < cur.len() implies exists|i: int|
                0 <= i < n && is_domestic_stock(listings[i].segment) && (#[trigger] cur[r]).sector
                    == opt_view(#[trigger] listings[i].sector) && cur[r].sec_code == opt_view(
                    listings[i].code,
                ) by {
                if r < prev.len() {
                    assert(cur[r] == prev[r]);
                } else {
                    assert(cur[r] == rf[r - prev.len()]);
                    assert(listings[n - 1].sector == l.sector);
                }
            }
            assert forall|i: int| 0 <= i < n && is_domestic_stock(#[trigger] listings[i].segment) implies exists|
                r: int,
            |
                0 <= r < cur.len() && (#[trigger] cur[r]).sector == opt_view(listings[i].sector)
                    && cur[r].sec_code == opt_view(listings[i].code) by {
                if i < n - 1 {
                    let r = choose|r: int|
                        0 <= r < prev.len() && (#[trigger] prev[r]).sector == opt_view(
                            listings[i].sector,
                        ) && prev[r].sec_code == opt_view(listings[i].code);
                    assert(cur[r] == prev[r]);
                } else {
                    assert(rf.len() > 0);
                    assert(cur[prev.len() as int] == rf[0]);
                }
            }
        } else {
            assert(cur == prev);
        }
    }
}

/// `row` is one of the rows of a domestic stock among the first `n` issues.
pub open spec fn row_of_domestic_issue(
    listings: Seq<JpxListing>,
    entries: Seq<CodelistEntry>,
    n: int,
    row: MasterRowView,
) -> bool {
    exists|i: int|
        0 <= i < n && is_domestic_stock(listings[i].segment) && #[trigger] rows_for(
            listings[i],
            entries,
        ).contains(row)
}

/// The master list holds exactly the rows of the domestic stocks among the
/// first `n` issues: every row is one of some domestic stock's rows (see
/// `lemma_rows_for_fields`), and every row of every domestic stock is in it;
/// issues that are not domestic stocks give no row.
pub proof fn lemma_master_rows_from_issues(listings: Seq<JpxListing>, entries: Seq<CodelistEntry>, n: int)
    requires
        0 <= n <= listings.len(),
    ensures
        forall|r: int|
            0 <= r < master_list(listings, entries, n).len() ==> row_of_domestic_issue(
                listings,
                entries,
                n,
                #[trigger] master_list(listings, entries, n)[r],
            ),
        forall|i: int, r2: int|
            0 <= i < n && is_domestic_stock(listings[i].segment) && 0 <= r2 < rows_for(
                listings[i],
                entries,
            ).len() ==> master_list(listings, entries, n).contains(
                #[trigger] rows_for(listings[i], entries)[r2],
            ),
    decreases n,
{
    if n > 0 {
        lemma_master_rows_from_issues(listings, entries, n - 1);
        let prev = master_list(listings, entries, n - 1);
        let cur = master_list(listings, entries, n);
        let rf = rows_for(listings[n - 1], entries);
        assert forall|r: int| 0 <= r < prev.len() implies row_of_domestic_issue(
            listings,
            entries,
            n,
            #[trigger] prev[r],
        ) by {
            assert(row_of_domestic_issue(listings, entries, n - 1, master_list(listings, entries, n - 1)[r]));
            let i = choose|i: int|
                0 <= i < n - 1 && is_domestic_stock(listings[i].segment) && #[trigger] rows_for(
                    listings[i],
                    entries,
                ).contains(prev[r]);
            assert(rows_for(listings[i], entries).contains(prev[r]));
        }
        if is_domestic_stock(listings[n - 1].segment) {
            assert(cur == prev + rf);
            assert forall|r: int| 0 <= r < cur.len() implies row_of_domestic_issue(
                listings,
                entries,
                n,
                #[trigger] cur[r],
            ) by {
                if r < prev.len() {
                    assert(cur[r] == prev[r]);
                    assert(row_of_domestic_issue(listings, entries, n, prev[r]));
                } else {
                    assert(cur[r] == rf[r - prev.len()]);
                    assert(rf.contains(cur[r]));
                    assert(rows_for(listings[n - 1], entries).contains(cur[r]));
                }
            }
            assert forall|i: int, r2: int|
                0 <= i < n && is_domestic_stock(listings[i].segment) && 0 <= r2 < rows_for(
                    listings[i],
                    entries,
                ).len() implies cur.contains(#[trigger] rows_for(listings[i], entries)[r2]) by {
                let x = rows_for(listings[i], entries)[r2];
                if i < n - 1 {
                    assert(master_list(listings, entries, n - 1).contains(x));
                    let r = choose|r: int| 0 <= r < prev.len() && #[trigger] prev[r] == x;
                    assert(cur[r] == prev[r]);
                } else {
                    assert(cur[prev.len() + r2] == x);
                }
            }
        } else {
            assert(cur == prev);
        }
    }
}

/// A copy of an optional string.
pub fn clone_opt(o: &Option<String>) -> (res: Option<String>)
    ensures
        res == *o,
{
    match o {
        Some(s) => Some(s.clone()),
        None => None,
    }
}

/// The views of a vector of master rows.
pub open spec fn master_views(v: Seq<MasterRow>) -> Seq<MasterRowView> {
    v.map_values(|r: MasterRow| r@)
}

/// The first (at most) four characters of `code`.
fn first_four(code: &str) -> (res: String)
    ensures
        res@ == code4(code@),
{
    let x = chars_of(code);
    if x.len() <= 4 {
        string_of_range(&x, 0, x.len())
    } else {
        string_of_range(&x, 0, 4)
    }
}

/// Whether code list entry `e` belongs to issue `l`.
fn entry_belongs(l: &JpxListing, e: &CodelistEntry) -> (res: bool)
    ensures
        res == entry_matches(*l, *e),
{
    match (&l.code, &e.sec_code) {
        (Some(c), Some(s)) => {
            let s4 = first_four(s.as_str());
            s4 == *c
        },
        _ => false,
    }
}

/// The master row for issue `l` and code list entry `e`.
fn make_master_row(l: &JpxListing, e: Option<&CodelistEntry>) -> (res: MasterRow)
    ensures
        res@ == master_row(
            *l,
            match e {
                Some(e) => Some(*e),
                None => None,
            },
        ),
{
    let name = match &l.name {
        Some(n) => Some(nfkc(n.as_str())),
        None => None,
    };
    proof {
        reveal_strlit("（内国株式）");
        reveal_strlit("");
        assert(""@ =~= Seq::<char>::empty());
    }
    let market = match &l.segment {
        Some(s) => Some(replace_str(s.as_str(), "（内国株式）", "")),
        None => None,
    };
    let (edinet_code, closing_date, corporate_number) = match e {
        Some(e) => (
            clone_opt(&e.edinet_code),
            clone_opt(&e.closing_date),
            clone_opt(&e.corporate_number),
        ),
        None => (None, None, None),
    };
    MasterRow {
        sec_code: clone_opt(&l.code),
        name,
        market,
        sector: clone_opt(&l.sector),
        edinet_code,
        closing_date,
        corporate_number,
    }
}

/// The master list: the individual domestic stocks of the exchange's list,
/// in list order, each with the EDINET code, closing date and corporate
/// number of the code list entries whose securities code begins with the
/// stock's code (one row per such entry; one row with those columns empty
/// when there is none). Names are NFKC-normalized and the market drops the
/// "（内国株式）" suffix.
pub fn build_master(listings: &Vec<JpxListing>, entries: &Vec<CodelistEntry>) -> (res: Vec<
    MasterRow,
>)
    ensures
        master_views(res@) == master_list(listings@, entries@, listings@.len() as int),
{
    let mut out: Vec<MasterRow> = Vec::new();
    let mut i: usize = 0;
    while i < listings.len()
        invariant
            i <= listings.len(),
            master_views(out@) == master_list(listings@, entries@, i as int),
        decreases listings.len() - i,
    {
        let l = &listings[i];
        let domestic = match &l.segment {
            Some(s) => contains(s.as_str(), "内国株式"),
            None => false,
        };
        if domestic {
            let ghost before = master_views(out@);
            let mut matched = false;
            let mut k: usize = 0;
            while k < entries.len()
                invariant
                    k <= entries.len(),
                    l == &listings@[i as int],
                    master_views(out@) == before + matched_rows(*l, entries@, k as int),
                    matched == (matched_rows(*l, entries@, k as int).len() > 0),
                decreases entries.len() - k,
            {
                if entry_belongs(l, &entries[k]) {
                    let row = make_master_row(l, Some(&entries[k]));
                    let ghost prev = master_views(out@);
                    out.push(row);
                    proof {
                        assert(master_views(out@) == prev.push(row@));
                        assert(before + matched_rows(*l, entries@, k + 1) == (before
                            + matched_rows(*l, entries@, k as int)).push(row@));
                    }
                    matched = true;
                }
                k = k + 1;
            }
            if !matched {
                let row = make_master_row(l, None);
                let ghost prev = master_views(out@);
                out.push(row);
                proof {
                    assert(master_views(out@) == prev.push(row@));
                    assert(matched_rows(*l, entries@, entries@.len() as int) =~= Seq::empty());
                    assert(prev == before + Seq::<MasterRowView>::empty());
                    assert(before + seq![row@] == prev.push(row@));
                }
            }
        }
        i = i + 1;
    }
    out
}

// ── Reading the master list back ────────────────────────────────────────────

/// A company as stored in the database, from one master row.
pub struct CompanyRecord {
    pub code: String,
    pub name: String,
    pub sector: Option<String>,
    pub market: Option<String>,
    pub edinet_code: Option<String>,
}

/// The company records of the first `n` master rows: the rows that have both
/// a securities code and a name, in order.
pub open spec fn company_records_upto(rows: Seq<MasterRow>, n: int) -> Seq<CompanyRecord>
    decreases n,
{
    if n <= 0 {
        Seq::empty()
    } else {
        let r = company_records_upto(rows, n - 1);
        let row = rows[n - 1];
        match (row.sec_code, row.name) {
            (Some(code), Some(name)) => r.push(
                CompanyRecord {
                    code,
                    name,
                    sector: row.sector,
                    market: row.market,
                    edinet_code: row.edinet_code,
                },
            ),
            _ => r,
        }
    }
}

/// The companies of the master list: every row with a securities code and a
/// name (rows missing either are skipped).
pub fn company_records(rows: &Vec<MasterRow>) -> (res: Vec<CompanyRecord>)
    ensures
        res@ == company_records_upto(rows@, rows@.len() as int),
{
    let mut out: Vec<CompanyRecord> = Vec::new();
    let mut i: usize = 0;
    while i < rows.len()
        invariant
            i <= rows.len(),
            out@ == company_records_upto(rows@, i as int),
        decreases rows.len() - i,
    {
        let row = &rows[i];
        match (&row.sec_code, &row.name) {
            (Some(code), Some(name)) => {
                out.push(
                    CompanyRecord {
                        code: code.clone(),
                        name: name.clone(),
                        sector: clone_opt(&row.sector),
                        market: clone_opt(&row.market),
                        edinet_code: clone_opt(&row.edinet_code),
                    },
                );
            },
            _ => {},
        }
        i = i + 1;
    }
    out
}

/// The optional text is present and not empty.
pub open spec fn present(o: Option<String>) -> bool {
    o matches Some(s) && s@.len() > 0
}

/// The EDINET codes of the first `n` master rows that have a non-empty one, in order.
pub open spec fn edinet_codes_upto(rows: Seq<MasterRow>, n: int) -> Seq<String>
    decreases n,
{
    if n <= 0 {
        Seq::empty()
    } else {
        let r = edinet_codes_upto(rows, n - 1);
        if present(rows[n - 1].edinet_code) {
            r.push(rows[n - 1].edinet_code->0)
        } else {
            r
        }
    }
}

/// Whether a string is empty.
fn is_empty_text(s: &String) -> (res: bool)
    ensures
        res == (s@.len() == 0),
{
    s.as_str().is_empty()
}

/// The EDINET codes of the master list, skipping missing and empty ones:
/// the companies whose reports are fetched.
pub fn listed_edinet_codes(rows: &Vec<MasterRow>) -> (res: Vec<String>)
    ensures
        res@ == edinet_codes_upto(rows@, rows@.len() as int),
{
    let mut out: Vec<String> = Vec::new();
    let mut i: usize = 0;
    while i < rows.len()
        invariant
            i <= rows.len(),
            out@ == edinet_codes_upto(rows@, i as int),
        decreases rows.len() - i,
    {
        match &rows[i].edinet_code {
            Some(e) => {
                if !is_empty_text(e) {
                    out.push(e.clone());
                }
            },
            None => {},
        }
        i = i + 1;
    }
    out
}

/// One entry of the EDINET-code-to-securities-code table.
pub struct CodePair {
    pub edinet_code: String,
    pub sec_code: String,
}

/// The table entries from the first `n` master rows: the rows where both
/// codes are present and non-empty, in order.
pub open spec fn code_pairs_upto(rows: Seq<MasterRow>, n: int) -> Seq<CodePair>
    decreases n,
{
    if n <= 0 {
        Seq::empty()
    } else {
        let r = code_pairs_upto(rows, n - 1);
        let row = rows[n - 1];
        if present(row.edinet_code) && present(row.sec_code) {
            r.push(CodePair { edinet_code: row.edinet_code->0, sec_code: row.sec_code->0 })
        } else {
            r
        }
    }
}

/// The EDINET-code-to-securities-code table of the master list.
pub fn edinet_code_table(rows: &Vec<MasterRow>) -> (res: Vec<CodePair>)
    ensures
        res@ == code_pairs_upto(rows@, rows@.len() as int),
{
    let mut out: Vec<CodePair> = Vec::new();
    let mut i: usize = 0;
    while i < rows.len()
        invariant
            i <= rows.len(),
            out@ == code_pairs_upto(rows@, i as int),
        decreases rows.len() - i,
    {
        let row = &rows[i];
        match (&row.edinet_code, &row.sec_code) {
            (Some(e), Some(c)) => {
                if !is_empty_text(e) && !is_empty_text(c) {
                    out.push(CodePair { edinet_code: e.clone(), sec_code: c.clone() });
                }
            },
            _ => {},
        }
        i = i + 1;
    }
    out
}

/// The securities code that the table gives for `edinet`: that of the last
/// entry with this EDINET code (a later entry replaces an earlier one), if any.
pub open spec fn lookup_code(pairs: Seq<CodePair>, edinet: Seq<char>) -> Option<String>
    decreases pairs.len(),
{
    if pairs.len() == 0 {
        None
    } else if pairs.last().edinet_code@ == edinet {
        Some(pairs.last().sec_code)
    } else {
        lookup_code(pairs.drop_last(), edinet)
    }
}

/// The securities code of the company with EDINET code `edinet`, if known.
pub fn code_for_edinet(pairs: &Vec<CodePair>, edinet: &str) -> (res: Option<String>)
    ensures
        res == lookup_code(pairs@, edinet@),
{
    let mut k = pairs.len();
    proof {
        assert(pairs@.take(k as int) == pairs@);
    }
    while k > 0
        invariant
            k <= pairs@.len(),
            lookup_code(pairs@, edinet@) == lookup_code(pairs@.take(k as int), edinet@),
        decreases k,
    {
        let t = &pairs[k - 1];
        proof {
            assert(pairs@.take(k as int).last() == pairs@[k - 1]);
            assert(pairs@.take(k as int).drop_last() == pairs@.take(k - 1));
        }
        if crate::text::same_text(t.edinet_code.as_str(), edinet) {
            return Some(t.sec_code.clone());
        }
        k = k - 1;
    }
    None
}

} // verus!
