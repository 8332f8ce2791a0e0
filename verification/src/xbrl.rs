//! Reading XBRL instance documents: the fiscal year from the file name, the
//! local part of element names, which elements carry five-year summary figures
//! or narrative sections, and what is extracted from a document's events.

use crate::text::{
    chars_of, collapse_white_space, collapse_ws, copy_str, ends_with, has_suffix,
    replace_all, replace_str, same_text, string_of_range, trim, trim_ws,
};
use crate::xbrl::XmlEvent::{CData, End, Other, Start, Text};
use quick_xml::events::Event;
use quick_xml::Reader;
use vstd::prelude::*;
use vstd::string::StringSliceAdditionalSpecFns;

verus! {

// ── Fiscal year from the instance file name ────────────────────────────────

/// The number of bytes before the first `x` in `b` (all of `b` when there is none).
pub open spec fn first_index_of(b: Seq<u8>, x: u8) -> nat
    decreases b.len(),
{
    if b.len() == 0 {
        0
    } else if b[0] == x {
        0
    } else {
        1 + first_index_of(b.drop_first(), x)
    }
}

/// The `n`-th piece (from 0) of `b` split at every byte `sep`, if there is one.
pub open spec fn nth_segment(b: Seq<u8>, sep: u8, n: nat) -> Option<Seq<u8>>
    decreases b.len(),
{
    let k = first_index_of(b, sep);
    if n == 0 {
        Some(b.take(k as int))
    } else if k >= b.len() {
        None
    } else {
        nth_segment(b.skip(k as int + 1), sep, (n - 1) as nat)
    }
}

pub open spec fn is_ascii_digit(x: u8) -> bool {
    48 <= x <= 57
}

pub open spec fn all_digits(d: Seq<u8>) -> bool {
    forall|i: int| 0 <= i < d.len() ==> is_ascii_digit(#[trigger] d[i])
}

/// The decimal value of a run of ASCII digits.
pub open spec fn digits_value(d: Seq<u8>) -> int
    decreases d.len(),
{
    if d.len() == 0 {
        0
    } else {
        digits_value(d.drop_last()) * 10 + (d.last() - 48)
    }
}

/// What `i32::from_str` gives for a text of at most four bytes (no value of
/// that length can overflow): an optional sign followed by at least one digit.
pub open spec fn parse_short_int(d: Seq<u8>) -> Option<int> {
    if d.len() > 0 && (d[0] == 43 || d[0] == 45) {
        let r = d.drop_first();
        if r.len() > 0 && all_digits(r) {
            if d[0] == 45 {
                Some(-digits_value(r))
            } else {
                Some(digits_value(r))
            }
        } else {
            None
        }
    } else if d.len() > 0 && all_digits(d) {
        Some(digits_value(d))
    } else {
        None
    }
}

/// A UTF-8 continuation byte: no character starts there.
pub open spec fn is_continuation(x: u8) -> bool {
    0x80 <= x <= 0xbf
}

/// Why no fiscal year could be read from an instance file name.
#[derive(PartialEq, Eq, Structural, Debug, Clone, Copy)]
pub enum FiscalYearError {
    /// The name has no third `_`-separated part (the period end date).
    NoPeriodEnd,
    /// The period end is shorter than four bytes, or its fourth byte ends
    /// inside a character.
    ShortPeriodEnd,
    /// The first four bytes of the period end are not an integer.
    NotANumber,
}

/// The fiscal year named by an instance file name such as
/// `jpcrp030000-asr-001_E00037-000_2026-03-31_01_2026-06-17.xbrl`: the third
/// `_`-separated part is the period end date, and its first four bytes are
/// read as an integer.
pub open spec fn spec_fiscal_year(name: Seq<u8>) -> Result<int, FiscalYearError> {
    match nth_segment(name, 95, 2) {
        None => Err(FiscalYearError::NoPeriodEnd),
        Some(period_end) => if period_end.len() < 4 || (period_end.len() > 4 && is_continuation(
            period_end[4],
        )) {
            Err(FiscalYearError::ShortPeriodEnd)
        } else {
            match parse_short_int(period_end.take(4)) {
                Some(y) => Ok(y),
                None => Err(FiscalYearError::NotANumber),
            }
        },
    }
}

/// The position of the first `x` in `b` at or after `from` (`b.len()` when none).
fn find_byte(b: &[u8], from: usize, x: u8) -> (res: usize)
    requires
        from <= b@.len(),
    ensures
        res == from + first_index_of(b@.skip(from as int), x),
        res <= b@.len(),
        res < b@.len() ==> b@[res as int] == x,
{
    let mut i = from;
    while i < b.len() && b[i] != x
        invariant
            from <= i <= b@.len(),
            from + first_index_of(b@.skip(from as int), x) == i + first_index_of(
                b@.skip(i as int),
                x,
            ),
        decreases b.len() - i,
    {
        proof {
            assert(b@.skip(i as int).drop_first() == b@.skip(i + 1));
        }
        i = i + 1;
    }
    proof {
        if i < b@.len() {
            assert(b@.skip(i as int)[0] == x);
        }
    }
    i
}

/// The value of the ASCII digits `d[from..to]`.
fn digits_at(d: &[u8], from: usize, to: usize) -> (res: i32)
    requires
        from <= to <= d@.len(),
        to - from <= 4,
        all_digits(d@.subrange(from as int, to as int)),
    ensures
        res == digits_value(d@.subrange(from as int, to as int)),
        0 <= res < 10000,
{
    let mut v: i32 = 0;
    let mut i = from;
    while i < to
        invariant
            from <= i <= to <= d@.len(),
            to - from <= 4,
            all_digits(d@.subrange(from as int, to as int)),
            v == digits_value(d@.subrange(from as int, i as int)),
            0 <= v,
            i - from == 0 ==> v == 0,
            i - from <= 1 ==> v < 10,
            i - from <= 2 ==> v < 100,
            i - from <= 3 ==> v < 1000,
            v < 10000,
        decreases to - i,
    {
        assert(d@.subrange(from as int, to as int)[i - from] == d@[i as int]);
        let digit = d[i] - 48;
        proof {
            let s = d@.subrange(from as int, i + 1);
            assert(s.drop_last() == d@.subrange(from as int, i as int));
            assert(s.last() == d@[i as int]);
        }
        v = v * 10 + digit as i32;
        i = i + 1;
    }
    v
}

/// Where the third `_`-separated part of `b` lies, if there is one.
fn period_end_range(b: &[u8]) -> (res: Option<(usize, usize)>)
    ensures
        match res {
            Some((from, to)) => from <= to <= b@.len() && nth_segment(b@, 95, 2) == Some(
                b@.subrange(from as int, to as int),
            ),
            None => nth_segment(b@, 95, 2) is None,
        },
{
    let p1 = find_byte(b, 0, 95);
    proof {
        assert(b@.skip(0) == b@);
    }
    if p1 >= b.len() {
        return None;
    }
    let p2 = find_byte(b, p1 + 1, 95);
    let ghost rest1 = b@.skip(p1 + 1);
    proof {
        assert(nth_segment(b@, 95, 2) == nth_segment(rest1, 95, 1));
    }
    if p2 >= b.len() {
        return None;
    }
    let p3 = find_byte(b, p2 + 1, 95);
    let ghost rest2 = b@.skip(p2 + 1);
    proof {
        assert(rest1.skip(p2 - p1) == rest2);
        assert(nth_segment(rest1, 95, 1) == nth_segment(rest2, 95, 0));
        assert(rest2.take(p3 - (p2 + 1)) == b@.subrange(p2 + 1, p3 as int));
    }
    Some((p2 + 1, p3))
}

/// The fiscal year named by an instance file name (see `spec_fiscal_year`).
pub fn extract_fiscal_year(file_name: &str) -> (res: Result<i32, FiscalYearError>)
    ensures
        match (res, spec_fiscal_year(file_name.spec_bytes())) {
            (Ok(y), Ok(z)) => y == z,
            (Err(e), Err(f)) => e == f,
            _ => false,
        },
{
    let b = file_name.as_bytes();
    let range = period_end_range(b);
    if range.is_none() {
        return Err(FiscalYearError::NoPeriodEnd);
    }
    let (start, p3) = range.unwrap();
    let ghost seg = b@.subrange(start as int, p3 as int);
    if p3 - start < 4 || (p3 - start > 4 && b[start + 4] >= 0x80 && b[start + 4] <= 0xbf) {
        proof {
            if p3 - start > 4 {
                assert(seg[4] == b@[start + 4]);
            }
        }
        return Err(FiscalYearError::ShortPeriodEnd);
    }
    proof {
        if p3 - start > 4 {
            assert(seg[4] == b@[start + 4]);
        }
        assert(seg.take(4) == b@.subrange(start as int, start + 4));
    }
    let first = b[start];
    if first == 43 || first == 45 {
        proof {
            assert(seg.take(4).drop_first() == b@.subrange(start + 1, start + 4));
        }
        if !digits_between(b, start + 1, start + 4) {
            return Err(FiscalYearError::NotANumber);
        }
        let v = digits_at(b, start + 1, start + 4);
        if first == 45 {
            return Ok(-v);
        }
        return Ok(v);
    }
    if !digits_between(b, start, start + 4) {
        return Err(FiscalYearError::NotANumber);
    }
    let v = digits_at(b, start, start + 4);
    Ok(v)
}

/// The period end part of an instance file name (its third `_`-separated
/// part) as text, which error messages show; `None` when there is none.
pub fn period_end_text(file_name: &str) -> (res: Option<String>)
    ensures
        match res {
            Some(t) => nth_segment(file_name.spec_bytes(), 95, 2) matches Some(seg) && t@
                == utf8_text(seg),
            None => nth_segment(file_name.spec_bytes(), 95, 2) is None,
        },
{
    let b = file_name.as_bytes();
    match period_end_range(b) {
        None => None,
        Some((from, to)) => Some(bytes_text(vstd::slice::slice_subrange(b, from, to))),
    }
}

/// Whether `b[from..to]` are all ASCII digits.
fn digits_between(b: &[u8], from: usize, to: usize) -> (res: bool)
    requires
        from <= to <= b@.len(),
    ensures
        res == all_digits(b@.subrange(from as int, to as int)),
{
    let mut k = from;
    while k < to
        invariant
            from <= k <= to <= b@.len(),
            forall|j: int| from <= j < k ==> is_ascii_digit(#[trigger] b@[j]),
        decreases to - k,
    {
        if !(b[k] >= 48 && b[k] <= 57) {
            assert(!is_ascii_digit(b@.subrange(from as int, to as int)[k - from]));
            return false;
        }
        k = k + 1;
    }
    assert forall|i: int| 0 <= i < to - from implies is_ascii_digit(
        #[trigger] b@.subrange(from as int, to as int)[i],
    ) by {
        assert(b@.subrange(from as int, to as int)[i] == b@[from + i]);
    }
    true
}


// ── Element names ───────────────────────────────────────────────────────────

/// What follows the last `:` of a qualified name (all of it when there is no
/// `:`): `jpcrp_cor:NetSalesSummaryOfBusinessResults` → `NetSalesSummaryOfBusinessResults`.
pub open spec fn after_last_colon(s: Seq<char>) -> Seq<char>
    decreases s.len(),
{
    if s.len() == 0 {
        s
    } else if s.last() == ':' {
        Seq::empty()
    } else {
        after_last_colon(s.drop_last()).push(s.last())
    }
}

/// The local part of a `prefix:LocalName` tag name.
pub fn local_name(qualified: &str) -> (res: String)
    ensures
        res@ == after_last_colon(qualified@),
{
    let x = chars_of(qualified);
    let mut k = x.len();
    proof {
        assert(x@.take(x@.len() as int) == x@);
        assert(x@.subrange(x@.len() as int, x@.len() as int) == Seq::<char>::empty());
        assert(after_last_colon(x@) + Seq::<char>::empty() == after_last_colon(x@));
    }
    while k > 0 && x[k - 1] != ':'
        invariant
            k <= x.len(),
            x@ == qualified@,
            after_last_colon(x@) == after_last_colon(x@.take(k as int)) + x@.subrange(
                k as int,
                x@.len() as int,
            ),
        decreases k,
    {
        proof {
            let t = x@.take(k as int);
            assert(t.drop_last() == x@.take(k - 1));
            assert(t.last() == x@[k - 1]);
            assert(x@.subrange(k - 1, x@.len() as int) == seq![x@[k - 1]] + x@.subrange(
                k as int,
                x@.len() as int,
            ));
        }
        k = k - 1;
    }
    proof {
        if k > 0 {
            assert(x@.take(k as int).last() == x@[k - 1]);
        }
        assert(after_last_colon(x@.take(k as int)) == Seq::<char>::empty());
        assert(x@.take(x@.len() as int) == x@);
    }
    string_of_range(&x, k, x.len())
}

/// `s` without the suffix `suffix` (which it ends with).
fn without_suffix(s: &str, suffix: &str) -> (res: String)
    requires
        has_suffix(s@, suffix@),
    ensures
        res@ == s@.take(s@.len() - suffix@.len()),
{
    let x = chars_of(s);
    let y = chars_of(suffix);
    string_of_range(&x, 0, x.len() - y.len())
}

// ── Five-year summary contexts and narrative sections ──────────────────────

/// How many years before the reporting year a five-year summary context
/// refers to; other contexts (consolidated/separate axes, segments) are not
/// used.
pub open spec fn context_offset(ctx: Seq<char>) -> Option<int> {
    if ctx == "CurrentYearDuration"@ || ctx == "CurrentYearInstant"@ {
        Some(0)
    } else if ctx == "Prior1YearDuration"@ || ctx == "Prior1YearInstant"@ {
        Some(1)
    } else if ctx == "Prior2YearDuration"@ || ctx == "Prior2YearInstant"@ {
        Some(2)
    } else if ctx == "Prior3YearDuration"@ || ctx == "Prior3YearInstant"@ {
        Some(3)
    } else if ctx == "Prior4YearDuration"@ || ctx == "Prior4YearInstant"@ {
        Some(4)
    } else {
        None
    }
}

/// The name of the five-year summary context `k` years before the reporting
/// year, of the given kind (`"Duration"` or `"Instant"`): `CurrentYear…` for
/// `k = 0`, `Prior{k}Year…` otherwise.
pub open spec fn year_context(k: int, kind: Seq<char>) -> Seq<char> {
    if k == 0 {
        "CurrentYear"@ + kind
    } else {
        "Prior"@ + seq![crate::text::digit_char(k)] + "Year"@ + kind
    }
}

/// The five-year summary contexts are exactly the duration and instant
/// contexts of the reporting year and the four years before it, and each
/// refers to the year as many years back as its name says: `k` for
/// `Prior{k}Year…`, 0 for `CurrentYear…`.
pub proof fn lemma_context_offsets(ctx: Seq<char>, k: int)
    ensures
        0 <= k <= 4 ==> context_offset(year_context(k, "Duration"@)) == Some(k)
            && context_offset(year_context(k, "Instant"@)) == Some(k),
        context_offset(ctx) == Some(k) ==> 0 <= k <= 4 && (ctx == year_context(k, "Duration"@)
            || ctx == year_context(k, "Instant"@)),
{
    reveal_strlit("CurrentYear");
    reveal_strlit("Prior");
    reveal_strlit("Year");
    reveal_strlit("Duration");
    reveal_strlit("Instant");
    reveal_strlit("CurrentYearDuration");
    reveal_strlit("CurrentYearInstant");
    reveal_strlit("Prior1YearDuration");
    reveal_strlit("Prior1YearInstant");
    reveal_strlit("Prior2YearDuration");
    reveal_strlit("Prior2YearInstant");
    reveal_strlit("Prior3YearDuration");
    reveal_strlit("Prior3YearInstant");
    reveal_strlit("Prior4YearDuration");
    reveal_strlit("Prior4YearInstant");
    let d = "Duration"@;
    let t = "Instant"@;
    assert(year_context(0, d) =~= "CurrentYearDuration"@);
    assert(year_context(0, t) =~= "CurrentYearInstant"@);
    assert(year_context(1, d) =~= "Prior1YearDuration"@);
    assert(year_context(1, t) =~= "Prior1YearInstant"@);
    assert(year_context(2, d) =~= "Prior2YearDuration"@);
    assert(year_context(2, t) =~= "Prior2YearInstant"@);
    assert(year_context(3, d) =~= "Prior3YearDuration"@);
    assert(year_context(3, t) =~= "Prior3YearInstant"@);
    assert(year_context(4, d) =~= "Prior4YearDuration"@);
    assert(year_context(4, t) =~= "Prior4YearInstant"@);
    // the names differ: by length, by the digit, or by the kind
    assert("Prior1YearDuration"@[5] != "Prior2YearDuration"@[5]);
    assert("Prior1YearDuration"@[5] != "Prior3YearDuration"@[5]);
    assert("Prior1YearDuration"@[5] != "Prior4YearDuration"@[5]);
    assert("Prior2YearDuration"@[5] != "Prior3YearDuration"@[5]);
    assert("Prior2YearDuration"@[5] != "Prior4YearDuration"@[5]);
    assert("Prior3YearDuration"@[5] != "Prior4YearDuration"@[5]);
    assert("Prior1YearInstant"@[5] != "Prior2YearInstant"@[5]);
    assert("Prior1YearInstant"@[5] != "Prior3YearInstant"@[5]);
    assert("Prior1YearInstant"@[5] != "Prior4YearInstant"@[5]);
    assert("Prior2YearInstant"@[5] != "Prior3YearInstant"@[5]);
    assert("Prior2YearInstant"@[5] != "Prior4YearInstant"@[5]);
    assert("Prior3YearInstant"@[5] != "Prior4YearInstant"@[5]);
}

/// The year offset of a five-year summary context, if it is one.
pub fn context_year_offset(ctx: &str) -> (res: Option<i32>)
    ensures
        match (res, context_offset(ctx@)) {
            (Some(a), Some(b)) => a == b,
            (None, None) => true,
            _ => false,
        },
{
    if same_text(ctx, "CurrentYearDuration") || same_text(ctx, "CurrentYearInstant") {
        Some(0)
    } else if same_text(ctx, "Prior1YearDuration") || same_text(ctx, "Prior1YearInstant") {
        Some(1)
    } else if same_text(ctx, "Prior2YearDuration") || same_text(ctx, "Prior2YearInstant") {
        Some(2)
    } else if same_text(ctx, "Prior3YearDuration") || same_text(ctx, "Prior3YearInstant") {
        Some(3)
    } else if same_text(ctx, "Prior4YearDuration") || same_text(ctx, "Prior4YearInstant") {
        Some(4)
    } else {
        None
    }
}

/// The narrative `*TextBlock` sections that are kept (the name without the
/// `TextBlock` suffix); tabular and repetitive sections are left out.
pub open spec fn is_narrative(section: Seq<char>) -> bool {
    ||| section == "BusinessRisks"@
    ||| section == "ManagementAnalysisOfFinancialPositionOperatingResultsAndCashFlows"@
    ||| section == "DescriptionOfBusiness"@
    ||| section == "BusinessResultsOfGroup"@
    ||| section == "BusinessResultsOfReportingCompany"@
    ||| section == "BusinessPolicyBusinessEnvironmentIssuesToAddressEtc"@
    ||| section == "Strategy"@
    ||| section == "RiskManagement"@
    ||| section == "DividendPolicy"@
    ||| section == "PolicyOnDevelopmentOfHumanResourcesAndInternalEnvironmentStrategy"@
    ||| section == "BasicPolicyOnHumanResourcesStrategyEmployeesEtc"@
    ||| section == "CompanyHistory"@
    ||| section == "CriticalContracts"@
    ||| section == "DisclosureOfSustainabilityRelatedFinancialInformation"@
    ||| section == "MetricsAndTargets"@
}

pub fn is_narrative_section(section: &str) -> (res: bool)
    ensures
        res == is_narrative(section@),
{
    same_text(section, "BusinessRisks") || same_text(
        section,
        "ManagementAnalysisOfFinancialPositionOperatingResultsAndCashFlows",
    ) || same_text(section, "DescriptionOfBusiness") || same_text(section, "BusinessResultsOfGroup")
        || same_text(section, "BusinessResultsOfReportingCompany") || same_text(
        section,
        "BusinessPolicyBusinessEnvironmentIssuesToAddressEtc",
    ) || same_text(section, "Strategy") || same_text(section, "RiskManagement") || same_text(
        section,
        "DividendPolicy",
    ) || same_text(section, "PolicyOnDevelopmentOfHumanResourcesAndInternalEnvironmentStrategy")
        || same_text(section, "BasicPolicyOnHumanResourcesStrategyEmployeesEtc") || same_text(
        section,
        "CompanyHistory",
    ) || same_text(section, "CriticalContracts") || same_text(
        section,
        "DisclosureOfSustainabilityRelatedFinancialInformation",
    ) || same_text(section, "MetricsAndTargets")
}

// ── Text blocks ─────────────────────────────────────────────────────────────

/// The number of characters of `s` before the first `c` (all of `s` when none).
pub open spec fn first_char_index(s: Seq<char>, c: char) -> nat
    decreases s.len(),
{
    if s.len() == 0 {
        0
    } else if s[0] == c {
        0
    } else {
        1 + first_char_index(s.drop_first(), c)
    }
}

pub proof fn lemma_first_char_index(s: Seq<char>, c: char)
    ensures
        first_char_index(s, c) <= s.len(),
    decreases s.len(),
{
    if s.len() > 0 && s[0] != c {
        lemma_first_char_index(s.drop_first(), c);
    }
}

/// Every markup tag `<…>` replaced by one space: from the first `<` that has
/// a `>` after it up to that first `>` (what replacing the matches of the
/// pattern `(?s)<[^>]*>` with `" "` gives). A `<` with no `>` after it is kept.
pub open spec fn strip_tags(s: Seq<char>) -> Seq<char>
    decreases s.len(),
{
    let i = first_char_index(s, '<');
    if i >= s.len() {
        s
    } else {
        let rest = s.skip(i as int + 1);
        let j = first_char_index(rest, '>');
        if j >= rest.len() {
            s
        } else {
            proof {
                lemma_first_char_index(s, '<');
                lemma_first_char_index(rest, '>');
            }
            s.take(i as int) + seq![' '] + strip_tags(rest.skip(j as int + 1))
        }
    }
}

/// `regex::Regex::replace_all` with the pattern `(?s)<[^>]*>` and the
/// replacement `" "`. Claimed: the result is `strip_tags` of the input, i.e.
/// each leftmost non-overlapping match (a `<`, then any characters other
/// than `>`, then `>`) is replaced by one space.
#[verifier::external_body]
fn replace_tags(html: &str) -> (res: String)
    ensures
        res@ == strip_tags(html@),
{
    let tag_re = regex::Regex::new(r"(?s)<[^>]*>").unwrap();
    tag_re.replace_all(html, " ").into_owned()
}

/// The character entities that are decoded in a text block, in this order.
pub open spec fn decode_entities(s: Seq<char>) -> Seq<char> {
    let a = replace_all(s, "&nbsp;"@, " "@);
    let b = replace_all(a, "&amp;"@, "&"@);
    let c = replace_all(b, "&lt;"@, "<"@);
    let d = replace_all(c, "&gt;"@, ">"@);
    let e = replace_all(d, "&quot;"@, "\""@);
    replace_all(e, "&apos;"@, "'"@)
}

/// The plain text of a text block (unescaped HTML): tags become spaces,
/// the basic entities are decoded, and white space is collapsed to single
/// spaces between words.
pub open spec fn clean_text(html: Seq<char>) -> Seq<char> {
    collapse_ws(decode_entities(strip_tags(html)))
}

pub fn clean_text_block(html: &str) -> (res: String)
    ensures
        res@ == clean_text(html@),
{
    let without_tags = replace_tags(html);
    proof {
        reveal_strlit("&nbsp;");
        reveal_strlit("&amp;");
        reveal_strlit("&lt;");
        reveal_strlit("&gt;");
        reveal_strlit("&quot;");
        reveal_strlit("&apos;");
    }
    let a = replace_str(without_tags.as_str(), "&nbsp;", " ");
    let b = replace_str(a.as_str(), "&amp;", "&");
    let c = replace_str(b.as_str(), "&lt;", "<");
    let d = replace_str(c.as_str(), "&gt;", ">");
    let e = replace_str(d.as_str(), "&quot;", "\"");
    let f = replace_str(e.as_str(), "&apos;", "'");
    collapse_white_space(f.as_str())
}


// ── Extraction from a document's XML events ────────────────────────────────

/// The text that `String::from_utf8_lossy` gives for `bytes`: the bytes
/// decoded as UTF-8, each invalid sequence replaced by U+FFFD.
pub uninterp spec fn utf8_lossy(bytes: Seq<u8>) -> Seq<char>;

/// The text of `bytes` read as UTF-8: the decoded characters when the bytes
/// are valid UTF-8, and what lossy decoding gives otherwise.
#[verifier::opaque]
pub open spec fn utf8_text(bytes: Seq<u8>) -> Seq<char> {
    if vstd::utf8::valid_utf8(bytes) {
        vstd::utf8::decode_utf8(bytes)
    } else {
        utf8_lossy(bytes)
    }
}

/// `String::from_utf8_lossy`, made an owned string. Claimed: the text is
/// `utf8_lossy` of the bytes, and for valid UTF-8 it is the decoded text;
/// how invalid sequences are replaced is left unsaid.
#[verifier::external_body]
fn lossy_text(bytes: &[u8]) -> (res: String)
    ensures
        res@ == utf8_lossy(bytes@),
        vstd::utf8::valid_utf8(bytes@) ==> res@ == vstd::utf8::decode_utf8(bytes@),
{
    String::from_utf8_lossy(bytes).into_owned()
}

/// Reading the UTF-8 encoding of a text gives the text back.
pub proof fn lemma_utf8_text_of_encoding(chars: Seq<char>)
    ensures
        utf8_text(vstd::utf8::encode_utf8(chars)) == chars,
{
    reveal(utf8_text);
    vstd::utf8::encode_utf8_valid_utf8(chars);
    vstd::utf8::encode_utf8_decode_utf8(chars);
}

/// The text of `bytes` read as UTF-8 (see `utf8_text`).
fn bytes_text(bytes: &[u8]) -> (res: String)
    ensures
        res@ == utf8_text(bytes@),
{
    let t = lossy_text(bytes);
    proof {
        reveal(utf8_text);
    }
    t
}

/// One attribute of a start tag, its key and value as raw bytes.
pub struct XmlAttribute {
    pub key: Vec<u8>,
    pub value: Vec<u8>,
}

/// One event of an XBRL instance document, in reading order; the end of the
/// document is the end of the sequence.
pub enum XmlEvent {
    /// A start tag: its raw name and its attributes.
    Start { name: Vec<u8>, attributes: Vec<XmlAttribute> },
    /// Character data with entities resolved; `None` when resolving failed.
    Text(Option<String>),
    /// A CDATA section, as raw bytes.
    CData(Vec<u8>),
    /// An end tag with its raw name.
    End { name: Vec<u8> },
    /// Any other event (declarations, comments, empty elements, …).
    Other,
}

/// The events that `quick_xml` reads from a document's bytes, in order, up to
/// the end of the document; `None` when the reader reports an error first.
pub uninterp spec fn xml_events_of(content: Seq<u8>) -> Option<Seq<XmlEvent>>;

/// Reads the events of a document with `quick_xml::Reader::read_event` until
/// its end, turning each into an `XmlEvent`: names, attributes and CDATA
/// are kept as bytes, text is unescaped (`None` where that fails), and
/// attributes that do not parse are skipped. Claimed: the result is
/// `xml_events_of` of the bytes and depends on nothing else; the XML grammar
/// that the reader accepts is left unsaid.
#[verifier::external_body]
fn read_xml_events(content: &[u8]) -> (res: Option<Vec<XmlEvent>>)
    ensures
        match res {
            Some(v) => xml_events_of(content@) == Some(v@),
            None => xml_events_of(content@) is None,
        },
{
    let mut reader = Reader::from_reader(content);
    let mut events = vec![];
    loop {
        events.push(match reader.read_event().ok()? {
            Event::Start(s) => Start { name: s.name().0.to_vec(), attributes: s.attributes().flatten().map(|a| XmlAttribute { key: a.key.0.to_vec(), value: a.value.to_vec() }).collect() },
            Event::Text(t) => Text(t.unescape().ok().map(String::from)),
            Event::CData(c) => CData(c.to_vec()),
            Event::End(e) => End { name: e.name().0.to_vec() },
            Event::Eof => return Some(events),
            _ => Other,
        });
    }
}

/// The text of an optional string.
pub open spec fn opt_view(o: Option<String>) -> Option<Seq<char>> {
    match o {
        Some(s) => Some(s@),
        None => None,
    }
}

/// A five-year summary figure as found in the document; the value is the
/// element's text without surrounding white space.
pub struct MetricFact {
    pub doc_id: String,
    pub company_code: Option<String>,
    pub metric: String,
    pub xbrl_tag: String,
    pub value_text: String,
    pub unit: String,
    pub fiscal_year: i32,
    pub consolidated: bool,
}

pub struct MetricFactView {
    pub doc_id: Seq<char>,
    pub company_code: Option<Seq<char>>,
    pub metric: Seq<char>,
    pub xbrl_tag: Seq<char>,
    pub value_text: Seq<char>,
    pub unit: Seq<char>,
    pub fiscal_year: int,
    pub consolidated: bool,
}

impl View for MetricFact {
    type V = MetricFactView;

    open spec fn view(&self) -> MetricFactView {
        MetricFactView {
            doc_id: self.doc_id@,
            company_code: opt_view(self.company_code),
            metric: self.metric@,
            xbrl_tag: self.xbrl_tag@,
            value_text: self.value_text@,
            unit: self.unit@,
            fiscal_year: self.fiscal_year as int,
            consolidated: self.consolidated,
        }
    }
}

/// A narrative section of the document as plain text.
pub struct NarrativeText {
    pub doc_id: String,
    pub company_code: Option<String>,
    pub section: String,
    pub fiscal_year: i32,
    pub text: String,
}

pub struct NarrativeTextView {
    pub doc_id: Seq<char>,
    pub company_code: Option<Seq<char>>,
    pub section: Seq<char>,
    pub fiscal_year: int,
    pub text: Seq<char>,
}

impl View for NarrativeText {
    type V = NarrativeTextView;

    open spec fn view(&self) -> NarrativeTextView {
        NarrativeTextView {
            doc_id: self.doc_id@,
            company_code: opt_view(self.company_code),
            section: self.section@,
            fiscal_year: self.fiscal_year as int,
            text: self.text@,
        }
    }
}

/// The value, as lossy UTF-8 text, of the first attribute whose key is the
/// bytes `key`.
pub open spec fn first_attr(attrs: Seq<XmlAttribute>, key: Seq<u8>) -> Option<Seq<char>>
    decreases attrs.len(),
{
    if attrs.len() == 0 {
        None
    } else if attrs[0].key@ == key {
        Some(utf8_text(attrs[0].value@))
    } else {
        first_attr(attrs.drop_first(), key)
    }
}

/// The value, as text, of the first attribute whose key is the bytes `key`.
pub fn attr_value(attrs: &Vec<XmlAttribute>, key: &[u8]) -> (res: Option<String>)
    ensures
        opt_view(res) == first_attr(attrs@, key@),
{
    let mut i: usize = 0;
    proof {
        assert(attrs@.skip(0) == attrs@);
    }
    while i < attrs.len()
        invariant
            i <= attrs.len(),
            first_attr(attrs@, key@) == first_attr(attrs@.skip(i as int), key@),
        decreases attrs.len() - i,
    {
        proof {
            assert(attrs@.skip(i as int)[0] == attrs@[i as int]);
            assert(attrs@.skip(i as int).drop_first() == attrs@.skip(i + 1));
        }
        if same_bytes(attrs[i].key.as_slice(), key) {
            return Some(bytes_text(attrs[i].value.as_slice()));
        }
        i = i + 1;
    }
    None
}

/// The text of an element whose start tag is just before position `i`: the
/// text and CDATA events up to the first end tag with the same raw name (or
/// the end of the document), concatenated; and the position after that end
/// tag. `None` as text when character data could not be resolved on the way.
pub open spec fn element_text(ev: Seq<XmlEvent>, i: int, name: Seq<u8>) -> (int, Option<Seq<char>>)
    decreases ev.len() - i,
{
    if i < 0 || i >= ev.len() {
        (ev.len() as int, Some(Seq::empty()))
    } else {
        match ev[i] {
            XmlEvent::Text(None) => (i + 1, None),
            XmlEvent::Text(Some(t)) => {
                let r = element_text(ev, i + 1, name);
                (r.0, match r.1 { Some(x) => Some(t@ + x), None => None })
            },
            XmlEvent::CData(t) => {
                let r = element_text(ev, i + 1, name);
                (r.0, match r.1 { Some(x) => Some(utf8_text(t@) + x), None => None })
            },
            XmlEvent::End { name: m } => if m@ == name {
                (i + 1, Some(Seq::empty()))
            } else {
                element_text(ev, i + 1, name)
            },
            _ => element_text(ev, i + 1, name),
        }
    }
}

pub proof fn lemma_element_text_progress(ev: Seq<XmlEvent>, i: int, name: Seq<u8>)
    requires
        0 <= i <= ev.len(),
    ensures
        i <= element_text(ev, i, name).0 <= ev.len(),
        i < ev.len() ==> i < element_text(ev, i, name).0,
    decreases ev.len() - i,
{
    if i < ev.len() {
        lemma_element_text_progress(ev, i + 1, name);
    }
}

/// What is extracted from the events from position `i` on: the five-year
/// summary figures in a known context, and the non-empty narrative sections
/// that are kept, each in document order; `None` when the text of an
/// element that is read could not be resolved.
pub open spec fn extract_from(
    ev: Seq<XmlEvent>,
    i: int,
    doc_id: Seq<char>,
    company: Option<Seq<char>>,
    fiscal_year: int,
) -> Option<(Seq<MetricFactView>, Seq<NarrativeTextView>)>
    decreases ev.len() - i,
{
    if i < 0 || i >= ev.len() {
        Some((Seq::empty(), Seq::empty()))
    } else {
        match ev[i] {
            XmlEvent::Start { name, attributes } => {
                let local = after_last_colon(utf8_text(name@));
                if has_suffix(local, "SummaryOfBusinessResults"@) {
                    let metric = local.take(local.len() - "SummaryOfBusinessResults"@.len());
                    let r = element_text(ev, i + 1, name@);
                    proof {
                        lemma_element_text_progress(ev, i + 1, name@);
                    }
                    match r.1 {
                        None => None,
                        Some(text) => match extract_from(ev, r.0, doc_id, company, fiscal_year) {
                            None => None,
                            Some((ms, ts)) => match first_attr(attributes@, "contextRef".spec_bytes()) {
                                Some(ctx) => match context_offset(ctx) {
                                    Some(off) => {
                                        let fact = MetricFactView {
                                            doc_id,
                                            company_code: company,
                                            metric,
                                            xbrl_tag: metric + "SummaryOfBusinessResults"@,
                                            value_text: trim_ws(text),
                                            unit: match first_attr(attributes@, "unitRef".spec_bytes()) {
                                                Some(u) => u,
                                                None => Seq::empty(),
                                            },
                                            fiscal_year: fiscal_year - off,
                                            consolidated: true,
                                        };
                                        Some((seq![fact] + ms, ts))
                                    },
                                    None => Some((ms, ts)),
                                },
                                None => Some((ms, ts)),
                            },
                        },
                    }
                } else if has_suffix(local, "TextBlock"@) {
                    let section = local.take(local.len() - "TextBlock"@.len());
                    if !is_narrative(section) {
                        extract_from(ev, i + 1, doc_id, company, fiscal_year)
                    } else {
                        let r = element_text(ev, i + 1, name@);
                        proof {
                            lemma_element_text_progress(ev, i + 1, name@);
                        }
                        match r.1 {
                            None => None,
                            Some(raw) => match extract_from(ev, r.0, doc_id, company, fiscal_year) {
                                None => None,
                                Some((ms, ts)) => {
                                    let clean = clean_text(raw);
                                    if trim_ws(clean).len() > 0 {
                                        let t = NarrativeTextView {
                                            doc_id,
                                            company_code: company,
                                            section,
                                            fiscal_year,
                                            text: clean,
                                        };
                                        Some((ms, seq![t] + ts))
                                    } else {
                                        Some((ms, ts))
                                    }
                                },
                            },
                        }
                    }
                } else {
                    extract_from(ev, i + 1, doc_id, company, fiscal_year)
                }
            },
            _ => extract_from(ev, i + 1, doc_id, company, fiscal_year),
        }
    }
}

/// Whether reading the events from position `i` on, in the order in which
/// `extract_from` takes them, reaches a figure in a known context (before any
/// text that cannot be resolved) whose year `fiscal_year - offset` is below
/// the range of `i32`.
pub open spec fn year_overflow(ev: Seq<XmlEvent>, i: int, fiscal_year: int) -> bool
    decreases ev.len() - i,
{
    if i < 0 || i >= ev.len() {
        false
    } else {
        match ev[i] {
            XmlEvent::Start { name, attributes } => {
                let local = after_last_colon(utf8_text(name@));
                if has_suffix(local, "SummaryOfBusinessResults"@) {
                    let r = element_text(ev, i + 1, name@);
                    proof {
                        lemma_element_text_progress(ev, i + 1, name@);
                    }
                    match r.1 {
                        None => false,
                        Some(_) => {
                            let here = match first_attr(attributes@, "contextRef".spec_bytes()) {
                                Some(ctx) => match context_offset(ctx) {
                                    Some(off) => fiscal_year - off < i32::MIN,
                                    None => false,
                                },
                                None => false,
                            };
                            here || year_overflow(ev, r.0, fiscal_year)
                        },
                    }
                } else if has_suffix(local, "TextBlock"@) && is_narrative(
                    local.take(local.len() - "TextBlock"@.len()),
                ) {
                    let r = element_text(ev, i + 1, name@);
                    proof {
                        lemma_element_text_progress(ev, i + 1, name@);
                    }
                    match r.1 {
                        None => false,
                        Some(_) => year_overflow(ev, r.0, fiscal_year),
                    }
                } else {
                    year_overflow(ev, i + 1, fiscal_year)
                }
            },
            _ => year_overflow(ev, i + 1, fiscal_year),
        }
    }
}

/// No year falls out of range when the reporting year leaves room for the
/// largest offset of a five-year summary context.
pub proof fn lemma_no_year_overflow(ev: Seq<XmlEvent>, i: int, fiscal_year: int)
    requires
        fiscal_year >= i32::MIN + 4,
    ensures
        !year_overflow(ev, i, fiscal_year),
    decreases ev.len() - i,
{
    if 0 <= i < ev.len() {
        match ev[i] {
            XmlEvent::Start { name, attributes } => {
                lemma_element_text_progress(ev, i + 1, name@);
                let r = element_text(ev, i + 1, name@);
                let local = after_last_colon(utf8_text(name@));
                if has_suffix(local, "SummaryOfBusinessResults"@) || (has_suffix(
                    local,
                    "TextBlock"@,
                ) && is_narrative(local.take(local.len() - "TextBlock"@.len()))) {
                    lemma_no_year_overflow(ev, r.0, fiscal_year);
                } else {
                    lemma_no_year_overflow(ev, i + 1, fiscal_year);
                }
            },
            _ => lemma_no_year_overflow(ev, i + 1, fiscal_year),
        }
    }
}

/// `f` is the figure of the summary element whose start tag is at `i`,
/// dated `year`: its tag is the element's local name and its metric that
/// name without "SummaryOfBusinessResults", its unit the element's `unitRef`
/// (empty when there is none), its value the element's text without
/// surrounding white space, and it names the document and company given.
pub open spec fn is_summary_fact_of(
    ev: Seq<XmlEvent>,
    i: int,
    f: MetricFactView,
    doc_id: Seq<char>,
    company: Option<Seq<char>>,
    year: int,
) -> bool {
    match ev[i] {
        XmlEvent::Start { name, attributes } => {
            &&& f.xbrl_tag == after_last_colon(utf8_text(name@))
            &&& f.metric + "SummaryOfBusinessResults"@ == f.xbrl_tag
            &&& f.unit == match first_attr(attributes@, "unitRef".spec_bytes()) {
                Some(u) => u,
                None => Seq::empty(),
            }
            &&& match element_text(ev, i + 1, name@).1 {
                Some(t) => f.value_text == trim_ws(t),
                None => false,
            }
            &&& f.fiscal_year == year
            &&& f.doc_id == doc_id
            &&& f.company_code == company
            &&& f.consolidated
        },
        _ => false,
    }
}

/// A five-year summary element in the context `k` years back yields a figure
/// dated `k` years before the reporting year: when the events from `i` on are
/// extracted and the element at `i` is a `…SummaryOfBusinessResults` start tag
/// whose context is `CurrentYear…` or `Prior{k}Year…`, the first figure
/// extracted is that element's, with fiscal year `fiscal_year - k`, the
/// document and company given, the element's local name as its tag (the
/// metric is the tag without the suffix), its `unitRef` as unit (empty when
/// there is none) and its text without surrounding white space as value.
pub proof fn lemma_summary_fact_year(
    ev: Seq<XmlEvent>,
    i: int,
    doc_id: Seq<char>,
    company: Option<Seq<char>>,
    fiscal_year: int,
    k: int,
    kind: Seq<char>,
)
    requires
        0 <= i < ev.len(),
        0 <= k <= 4,
        kind == "Duration"@ || kind == "Instant"@,
        ev[i] matches XmlEvent::Start { name, attributes } && has_suffix(
            after_last_colon(utf8_text(name@)),
            "SummaryOfBusinessResults"@,
        ) && first_attr(attributes@, "contextRef".spec_bytes()) == Some(year_context(k, kind)),
        extract_from(ev, i, doc_id, company, fiscal_year) is Some,
    ensures
        match extract_from(ev, i, doc_id, company, fiscal_year) {
            Some((ms, _)) => ms.len() > 0 && is_summary_fact_of(ev, i, ms[0], doc_id, company, fiscal_year - k),
            None => false,
        },
{
    lemma_context_offsets(year_context(k, kind), k);
    if let XmlEvent::Start { name, attributes } = ev[i] {
        let local = after_last_colon(utf8_text(name@));
        let metric = local.take(local.len() - "SummaryOfBusinessResults"@.len());
        assert(metric + "SummaryOfBusinessResults"@ =~= local);
    }
}

/// Whether two byte strings are equal.
fn same_bytes(a: &[u8], b: &[u8]) -> (res: bool)
    ensures
        res == (a@ == b@),
{
    if a.len() != b.len() {
        return false;
    }
    let mut i: usize = 0;
    while i < a.len()
        invariant
            a.len() == b.len(),
            i <= a.len(),
            forall|k: int| 0 <= k < i ==> a@[k] == b@[k],
        decreases a.len() - i,
    {
        if a[i] != b[i] {
            return false;
        }
        i = i + 1;
    }
    assert(a@ =~= b@);
    true
}

/// Reads the text of the element whose start tag is just before position
/// `i` (see `element_text`).
fn read_element_text(ev: &Vec<XmlEvent>, i: usize, name: &Vec<u8>) -> (res: (usize, Option<String>))
    requires
        i <= ev@.len(),
    ensures
        res.0 == element_text(ev@, i as int, name@).0,
        opt_view(res.1) == element_text(ev@, i as int, name@).1,
{
    let mut text = String::new();
    let mut k = i;
    while k < ev.len()
        invariant
            i <= k <= ev@.len(),
            element_text(ev@, i as int, name@) == match element_text(ev@, k as int, name@) {
                (j, Some(x)) => (j, Some(text@ + x)),
                (j, None) => (j, None),
            },
        decreases ev.len() - k,
    {
        match &ev[k] {
            XmlEvent::Text(None) => {
                return (k + 1, None);
            },
            XmlEvent::Text(Some(t)) => {
                proof {
                    let r = element_text(ev@, k + 1, name@);
                    if let Some(x) = r.1 {
                        assert(text@ + (t@ + x) == (text@ + t@) + x);
                    }
                }
                crate::text::push_str(&mut text, t.as_str());
            },
            XmlEvent::CData(t) => {
                let c = bytes_text(t.as_slice());
                proof {
                    let r = element_text(ev@, k + 1, name@);
                    if let Some(x) = r.1 {
                        assert(text@ + (c@ + x) == (text@ + c@) + x);
                    }
                }
                crate::text::push_str(&mut text, c.as_str());
            },
            XmlEvent::End { name: m } => {
                if same_bytes(m.as_slice(), name.as_slice()) {
                    assert(text@ + Seq::<char>::empty() == text@);
                    return (k + 1, Some(text));
                }
            },
            _ => {},
        }
        k = k + 1;
    }
    assert(text@ + Seq::<char>::empty() == text@);
    (ev.len(), Some(text))
}

/// The text could not be resolved in an element whose text is read.
#[derive(PartialEq, Eq, Structural, Debug, Clone, Copy)]
pub enum XbrlTextError {
    UnresolvedText,
}

/// The views of a vector of figures.
pub open spec fn fact_views(v: Seq<MetricFact>) -> Seq<MetricFactView> {
    v.map_values(|m: MetricFact| m@)
}

/// The views of a vector of narrative texts.
pub open spec fn text_views(v: Seq<NarrativeText>) -> Seq<NarrativeTextView> {
    v.map_values(|t: NarrativeText| t@)
}

/// Extracts the five-year summary figures and the kept narrative sections
/// of one document from its events (see `extract_from`).
pub fn extract_facts(
    events: &Vec<XmlEvent>,
    doc_id: &str,
    company_code: &Option<String>,
    fiscal_year: i32,
) -> (res: Result<(Vec<MetricFact>, Vec<NarrativeText>), XbrlTextError>)
    requires
        !year_overflow(events@, 0, fiscal_year as int),
    ensures
        match (res, extract_from(events@, 0, doc_id@, opt_view(*company_code), fiscal_year as int)) {
            (Ok((ms, ts)), Some((sm, st))) => fact_views(ms@) == sm && text_views(ts@) == st,
            (Err(_), None) => true,
            _ => false,
        },
{
    let ghost spec_company = opt_view(*company_code);
    let mut metrics: Vec<MetricFact> = Vec::new();
    let mut texts: Vec<NarrativeText> = Vec::new();
    let mut i: usize = 0;
    while i < events.len()
        invariant
            i <= events@.len(),
            !year_overflow(events@, i as int, fiscal_year as int),
            spec_company == opt_view(*company_code),
            match extract_from(events@, i as int, doc_id@, spec_company, fiscal_year as int) {
                Some((ms, ts)) => extract_from(
                    events@,
                    0,
                    doc_id@,
                    spec_company,
                    fiscal_year as int,
                ) == Some((fact_views(metrics@) + ms, text_views(texts@) + ts)),
                None => extract_from(events@, 0, doc_id@, spec_company, fiscal_year as int) is None,
            },
        decreases events.len() - i,
    {
        let ghost ev = events@;
        let ghost before_m = fact_views(metrics@);
        let ghost before_t = text_views(texts@);
        match &events[i] {
            XmlEvent::Start { name, attributes } => {
                let qualified = bytes_text(name.as_slice());
                let local = local_name(qualified.as_str());
                if ends_with(local.as_str(), "SummaryOfBusinessResults") {
                    proof {
                        lemma_element_text_progress(ev, i + 1, name@);
                    }
                    let (j, text) = read_element_text(events, i + 1, name);
                    match text {
                        None => {
                            return Err(XbrlTextError::UnresolvedText);
                        },
                        Some(text) => {
                            let context = attr_value(attributes, "contextRef".as_bytes());
                            let offset = match &context {
                                Some(c) => context_year_offset(c.as_str()),
                                None => None,
                            };
                            match offset {
                                Some(off) => {
                                    let metric = without_suffix(
                                        local.as_str(),
                                        "SummaryOfBusinessResults",
                                    );
                                    let unit = match attr_value(attributes, "unitRef".as_bytes()) {
                                        Some(u) => u,
                                        None => String::new(),
                                    };
                                    let company = match company_code {
                                        Some(c) => Some(c.clone()),
                                        None => None,
                                    };
                                    let fact = MetricFact {
                                        doc_id: copy_str(doc_id),
                                        company_code: company,
                                        metric,
                                        xbrl_tag: local,
                                        value_text: trim(text.as_str()),
                                        unit,
                                        fiscal_year: fiscal_year - off,
                                        consolidated: true,
                                    };
                                    proof {
                                        let l = after_last_colon(qualified@);
                                        let k = "SummaryOfBusinessResults"@.len();
                                        assert(l.take(l.len() - k) + "SummaryOfBusinessResults"@ == l);
                                    }
                                    metrics.push(fact);
                                    proof {
                                        assert(fact_views(metrics@) == before_m.push(fact@));
                                        if let Some((ms, ts)) = extract_from(
                                            ev,
                                            j as int,
                                            doc_id@,
                                            spec_company,
                                            fiscal_year as int,
                                        ) {
                                            assert(before_m + (seq![fact@] + ms) == before_m.push(
                                                fact@,
                                            ) + ms);
                                        }
                                    }
                                },
                                None => {},
                            }
                        },
                    }
                    i = j;
                } else if ends_with(local.as_str(), "TextBlock") {
                    let section = without_suffix(local.as_str(), "TextBlock");
                    if !is_narrative_section(section.as_str()) {
                        i = i + 1;
                    } else {
                        proof {
                            lemma_element_text_progress(ev, i + 1, name@);
                        }
                        let (j, raw) = read_element_text(events, i + 1, name);
                        match raw {
                            None => {
                                return Err(XbrlTextError::UnresolvedText);
                            },
                            Some(raw) => {
                                let clean = clean_text_block(raw.as_str());
                                let trimmed = trim(clean.as_str());
                                if !string_is_empty(&trimmed) {
                                    let company = match company_code {
                                        Some(c) => Some(c.clone()),
                                        None => None,
                                    };
                                    let t = NarrativeText {
                                        doc_id: copy_str(doc_id),
                                        company_code: company,
                                        section,
                                        fiscal_year,
                                        text: clean,
                                    };
                                    texts.push(t);
                                    proof {
                                        assert(text_views(texts@) == before_t.push(t@));
                                        if let Some((ms, ts)) = extract_from(
                                            ev,
                                            j as int,
                                            doc_id@,
                                            spec_company,
                                            fiscal_year as int,
                                        ) {
                                            assert(before_t + (seq![t@] + ts) == before_t.push(t@)
                                                + ts);
                                        }
                                    }
                                }
                            },
                        }
                        i = j;
                    }
                } else {
                    i = i + 1;
                }
            },
            _ => {
                i = i + 1;
            },
        }
    }
    proof {
        let e = extract_from(events@, i as int, doc_id@, spec_company, fiscal_year as int);
        assert(e == Some((Seq::<MetricFactView>::empty(), Seq::<NarrativeTextView>::empty())));
        assert(fact_views(metrics@) + Seq::<MetricFactView>::empty() == fact_views(metrics@));
        assert(text_views(texts@) + Seq::<NarrativeTextView>::empty() == text_views(texts@));
    }
    Ok((metrics, texts))
}

/// Whether a string has no characters.
fn string_is_empty(s: &String) -> (res: bool)
    ensures
        res == (s@.len() == 0),
{
    s.as_str().is_empty()
}

/// Reads a document's bytes as XML and extracts its five-year summary
/// figures and kept narrative sections; `None` when the bytes cannot be read
/// as XML to their end.
pub fn parse_xbrl_document(
    content: &[u8],
    doc_id: &str,
    company_code: &Option<String>,
    fiscal_year: i32,
) -> (res: Option<Result<(Vec<MetricFact>, Vec<NarrativeText>), XbrlTextError>>)
    requires
        fiscal_year >= i32::MIN + 4,
    ensures
        match xml_events_of(content@) {
            None => res is None,
            Some(ev) => res matches Some(r) && match (
                r,
                extract_from(ev, 0, doc_id@, opt_view(*company_code), fiscal_year as int),
            ) {
                (Ok((ms, ts)), Some((sm, st))) => fact_views(ms@) == sm && text_views(ts@) == st,
                (Err(_), None) => true,
                _ => false,
            },
        },
{
    match read_xml_events(content) {
        None => None,
        Some(events) => {
            proof {
                lemma_no_year_overflow(events@, 0, fiscal_year as int);
            }
            Some(extract_facts(&events, doc_id, company_code, fiscal_year))
        },
    }
}

} // verus!
