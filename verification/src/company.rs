//! Listed companies as the application searches them.

use crate::text::{contains_seq, has_prefix, has_suffix, occurs_at, push_str};
use vstd::prelude::*;

verus! {

/// One search result: a company with its market and sector (empty when the
/// database has none).
pub struct CompanyItem {
    pub code: String,
    pub name: String,
    pub market: String,
    pub sector: String,
}

/// A company as read from the database, where market and sector are optional.
pub struct CompanyRow {
    pub code: String,
    pub name: String,
    pub market: Option<String>,
    pub sector: Option<String>,
}

/// The text of an optional string, empty when absent.
pub open spec fn text_or_empty(o: Option<String>) -> Seq<char> {
    match o {
        Some(s) => s@,
        None => Seq::empty(),
    }
}

/// The optional string, or an empty one.
fn unwrap_or_empty(o: Option<String>) -> (res: String)
    ensures
        res@ == text_or_empty(o),
{
    match o {
        Some(s) => s,
        None => String::new(),
    }
}

impl CompanyItem {
    /// The search result for a database row: a missing market or sector
    /// becomes the empty string.
    pub fn from_row(r: CompanyRow) -> (res: CompanyItem)
        ensures
            res.code == r.code,
            res.name == r.name,
            res.market@ == text_or_empty(r.market),
            res.sector@ == text_or_empty(r.sector),
    {
        CompanyItem {
            code: r.code,
            name: r.name,
            market: unwrap_or_empty(r.market),
            sector: unwrap_or_empty(r.sector),
        }
    }
}

/// The company search query: the code or the name contains the search text,
/// ignoring case; narrowed to a market and to a sector when they are given;
/// ordered by name; at most 50 companies.
pub open spec fn search_sql(has_market: bool, has_sector: bool) -> Seq<char> {
    "SELECT code, name, market, sector FROM company WHERE (string::lowercase(name) CONTAINS string::lowercase($q) OR string::lowercase(code) CONTAINS string::lowercase($q))"@
        + (if has_market { " AND market = $market"@ } else { Seq::empty() })
        + (if has_sector { " AND sector = $sector"@ } else { Seq::empty() })
        + " ORDER BY name LIMIT 50"@
}

/// The company search query for the given optional market and sector
/// (their values are bound as `$market` and `$sector`, the search text as `$q`).
pub fn company_search_query(market: &Option<String>, sector: &Option<String>) -> (res: String)
    ensures
        res@ == search_sql(market is Some, sector is Some),
{
    let mut sql = String::new();
    push_str(
        &mut sql,
        "SELECT code, name, market, sector FROM company WHERE (string::lowercase(name) CONTAINS string::lowercase($q) OR string::lowercase(code) CONTAINS string::lowercase($q))",
    );
    let ghost base = sql@;
    if market.is_some() {
        push_str(&mut sql, " AND market = $market");
    }
    let ghost with_market = sql@;
    if sector.is_some() {
        push_str(&mut sql, " AND sector = $sector");
    }
    let ghost with_sector = sql@;
    push_str(&mut sql, " ORDER BY name LIMIT 50");
    proof {
        if market.is_none() {
            assert(with_market == base + Seq::<char>::empty());
        }
        if sector.is_none() {
            assert(with_sector == with_market + Seq::<char>::empty());
        }
    }
    sql
}

/// Each filter is added when its value is given, whatever the other filter:
/// a given market puts `AND market = $market` in the query and a given sector
/// puts `AND sector = $sector` in it, and each adds exactly that much to the
/// query whether or not the other is given. The query always starts with the
/// search on name and code and ends ordered by name, at most 50 companies.
pub proof fn lemma_search_filters(has_market: bool, has_sector: bool)
    ensures
        has_market ==> contains_seq(search_sql(has_market, has_sector), " AND market = $market"@),
        has_sector ==> contains_seq(search_sql(has_market, has_sector), " AND sector = $sector"@),
        search_sql(true, has_sector).len() == search_sql(false, has_sector).len()
            + " AND market = $market"@.len(),
        search_sql(has_market, true).len() == search_sql(has_market, false).len()
            + " AND sector = $sector"@.len(),
        has_prefix(
            search_sql(has_market, has_sector),
            "SELECT code, name, market, sector FROM company WHERE (string::lowercase(name) CONTAINS string::lowercase($q) OR string::lowercase(code) CONTAINS string::lowercase($q))"@,
        ),
        has_suffix(search_sql(has_market, has_sector), " ORDER BY name LIMIT 50"@),
{
    let base = "SELECT code, name, market, sector FROM company WHERE (string::lowercase(name) CONTAINS string::lowercase($q) OR string::lowercase(code) CONTAINS string::lowercase($q))"@;
    let m = " AND market = $market"@;
    let sc = " AND sector = $sector"@;
    let tail = " ORDER BY name LIMIT 50"@;
    let mp = if has_market { m } else { Seq::empty() };
    let sp = if has_sector { sc } else { Seq::empty() };
    let q = search_sql(has_market, has_sector);
    assert(q == base + mp + sp + tail);
    assert(q.subrange(0, base.len() as int) =~= base);
    assert(q.subrange(q.len() - tail.len(), q.len() as int) =~= tail);
    if has_market {
        assert((base + mp + sp + tail).subrange(base.len() as int, (base.len() + m.len()) as int) =~= m);
        assert(occurs_at(q, m, base.len() as int));
    }
    if has_sector {
        assert((base + mp + sp + tail).subrange(
            (base.len() + mp.len()) as int,
            (base.len() + mp.len() + sc.len()) as int,
        ) =~= sc);
        assert(occurs_at(q, sc, (base.len() + mp.len()) as int));
    }
}

/// Every `$` of `s` is followed by a character other than `c`.
spec fn no_param_starting(s: Seq<char>, c: char) -> bool {
    forall|x: int| 0 <= x < s.len() - 1 && #[trigger] s[x] == '$' ==> s[x + 1] != c
}

proof fn lemma_query_params()
    ensures
        no_param_starting(search_sql(false, false), 'm'),
        no_param_starting(search_sql(false, true), 'm'),
        no_param_starting(search_sql(false, false), 's'),
        no_param_starting(search_sql(true, false), 's'),
{
    let base = "SELECT code, name, market, sector FROM company WHERE (string::lowercase(name) CONTAINS string::lowercase($q) OR string::lowercase(code) CONTAINS string::lowercase($q))"@;
    let m = " AND market = $market"@;
    let sc = " AND sector = $sector"@;
    let tail = " ORDER BY name LIMIT 50"@;
    reveal_strlit("SELECT code, name, market, sector FROM company WHERE (string::lowercase(name) CONTAINS string::lowercase($q) OR string::lowercase(code) CONTAINS string::lowercase($q))");
    reveal_strlit(" AND market = $market");
    reveal_strlit(" AND sector = $sector");
    reveal_strlit(" ORDER BY name LIMIT 50");
    assert forall|x: int| 0 <= x < base.len() && #[trigger] base[x] == '$' implies x + 1 < base.len()
        && base[x + 1] == 'q' by {}
    assert forall|x: int| 0 <= x < m.len() && #[trigger] m[x] == '$' implies x + 1 < m.len() && m[x + 1]
        == 'm' by {}
    assert forall|x: int| 0 <= x < sc.len() && #[trigger] sc[x] == '$' implies x + 1 < sc.len()
        && sc[x + 1] == 's' by {}
    assert forall|x: int| 0 <= x < tail.len() implies #[trigger] tail[x] != '$' by {}
    let e = Seq::<char>::empty();
    assert(search_sql(false, false) == base + e + e + tail);
    assert(search_sql(false, true) == base + e + sc + tail);
    assert(search_sql(true, false) == base + m + e + tail);
    lemma_pieces(base, e, e, tail);
    lemma_pieces(base, e, sc, tail);
    lemma_pieces(base, m, e, tail);
}

/// Where a `$` of the query lies in one of its pieces.
proof fn lemma_pieces(a: Seq<char>, b: Seq<char>, c: Seq<char>, d: Seq<char>)
    ensures
        forall|x: int|
            0 <= x < (a + b + c + d).len() ==> #[trigger] (a + b + c + d)[x] == if x < a.len() {
                a[x]
            } else if x < a.len() + b.len() {
                b[x - a.len()]
            } else if x < a.len() + b.len() + c.len() {
                c[x - a.len() - b.len()]
            } else {
                d[x - a.len() - b.len() - c.len()]
            },
{
}

/// A filter is in the query only when its value is given: without a market
/// the query holds no market filter, and without a sector no sector filter,
/// whatever the other filter.
pub proof fn lemma_filters_only_when_given(has_market: bool, has_sector: bool)
    ensures
        !has_market ==> !contains_seq(search_sql(has_market, has_sector), " AND market = $market"@),
        !has_sector ==> !contains_seq(search_sql(has_market, has_sector), " AND sector = $sector"@),
{
    let q = search_sql(has_market, has_sector);
    let m = " AND market = $market"@;
    let sc = " AND sector = $sector"@;
    lemma_query_params();
    reveal_strlit(" AND market = $market");
    reveal_strlit(" AND sector = $sector");
    if !has_market && contains_seq(q, m) {
        let i = choose|i: int| occurs_at(q, m, i);
        assert(q[i + 14] == m[14]);
        assert(q[i + 15] == m[15]);
    }
    if !has_sector && contains_seq(q, sc) {
        let i = choose|i: int| occurs_at(q, sc, i);
        assert(q[i + 14] == sc[14]);
        assert(q[i + 15] == sc[15]);
    }
}

} // verus!
