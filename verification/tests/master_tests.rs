use kabuto::codelist::codelist_text;
use kabuto::company::{company_search_query, CompanyItem, CompanyRow};
use kabuto::decision::{default_action_taken, default_selection_mode, default_status};
use kabuto::master::{
    build_master, code_for_edinet, company_records, edinet_code_table, listed_edinet_codes,
    CodelistEntry, JpxListing, MasterRow,
};

fn s(x: &str) -> Option<String> {
    Some(x.to_string())
}

fn listing(code: &str, name: &str, segment: &str, sector: &str) -> JpxListing {
    JpxListing { code: s(code), name: s(name), segment: s(segment), sector: s(sector) }
}

fn entry(edinet: &str, date: &str, corp: &str, sec: Option<&str>) -> CodelistEntry {
    CodelistEntry {
        edinet_code: s(edinet),
        closing_date: s(date),
        corporate_number: s(corp),
        sec_code: sec.map(|x| x.to_string()),
    }
}

#[test]
fn master_keeps_domestic_stocks_and_joins_codes() {
    let listings = vec![
        listing("1301", "極洋", "プライム（内国株式）", "水産・農林業"),
        listing("1305", "ｉＦｒｅｅＥＴＦ　ＴＯＰＩＸ", "ETF・ETN", "-"),
        listing("1605", "ＩＮＰＥＸ", "プライム（内国株式）", "鉱業"),
        listing("9999", "テスト", "グロース（内国株式）", "サービス業"),
        JpxListing { code: s("8888"), name: None, segment: None, sector: None },
    ];
    let entries = vec![
        entry("E00014", "3月31日", "1010401037040", Some("13010")),
        entry("E00043", "12月31日", "2010401000000", Some("16050")),
        entry("E99999", "3月31日", "", None),
    ];
    let m = build_master(&listings, &entries);
    assert_eq!(m.len(), 3);
    assert_eq!(m[0].sec_code.as_deref(), Some("1301"));
    assert_eq!(m[0].market.as_deref(), Some("プライム"));
    assert_eq!(m[0].edinet_code.as_deref(), Some("E00014"));
    assert_eq!(m[0].closing_date.as_deref(), Some("3月31日"));
    assert_eq!(m[1].name.as_deref(), Some("INPEX"));
    assert_eq!(m[1].edinet_code.as_deref(), Some("E00043"));
    assert_eq!(m[1].corporate_number.as_deref(), Some("2010401000000"));
    assert_eq!(m[2].sec_code.as_deref(), Some("9999"));
    assert_eq!(m[2].market.as_deref(), Some("グロース"));
    assert_eq!(m[2].edinet_code, None);
    assert_eq!(m[2].closing_date, None);
}

fn row(code: Option<&str>, name: Option<&str>, edinet: Option<&str>) -> MasterRow {
    MasterRow {
        sec_code: code.map(|x| x.to_string()),
        name: name.map(|x| x.to_string()),
        market: s("プライム"),
        sector: None,
        edinet_code: edinet.map(|x| x.to_string()),
        closing_date: None,
        corporate_number: None,
    }
}

#[test]
fn reading_the_master_list() {
    let rows = vec![
        row(Some("1301"), Some("極洋"), Some("E00014")),
        row(None, Some("名前のみ"), Some("")),
        row(Some("1605"), None, None),
        row(Some("7203"), Some("トヨタ自動車"), Some("E02144")),
        row(Some("7204"), Some("後勝ち"), Some("E02144")),
    ];
    let companies = company_records(&rows);
    assert_eq!(companies.len(), 3);
    assert_eq!(companies[0].code, "1301");
    assert_eq!(companies[1].name, "トヨタ自動車");
    assert_eq!(companies[1].market.as_deref(), Some("プライム"));
    assert_eq!(listed_edinet_codes(&rows), vec!["E00014", "E02144", "E02144"]);
    let table = edinet_code_table(&rows);
    assert_eq!(table.len(), 3);
    assert_eq!(code_for_edinet(&table, "E00014"), s("1301"));
    assert_eq!(code_for_edinet(&table, "E02144"), s("7204"));
    assert_eq!(code_for_edinet(&table, "E00000"), None);
}

#[test]
fn company_item_from_row() {
    let item = CompanyItem::from_row(CompanyRow {
        code: "1605".to_string(),
        name: "INPEX".to_string(),
        market: s("プライム"),
        sector: None,
    });
    assert_eq!(item.code, "1605");
    assert_eq!(item.market, "プライム");
    assert_eq!(item.sector, "");
}

#[test]
fn company_search_query_text() {
    let base = "SELECT code, name, market, sector FROM company WHERE (string::lowercase(name) CONTAINS string::lowercase($q) OR string::lowercase(code) CONTAINS string::lowercase($q))";
    assert_eq!(company_search_query(&None, &None), format!("{base} ORDER BY name LIMIT 50"));
    assert_eq!(
        company_search_query(&s("プライム"), &s("鉱業")),
        format!("{base} AND market = $market AND sector = $sector ORDER BY name LIMIT 50")
    );
    assert_eq!(
        company_search_query(&None, &s("鉱業")),
        format!("{base} AND sector = $sector ORDER BY name LIMIT 50")
    );
}

#[test]
fn session_defaults() {
    assert_eq!(default_status(), "exploring");
    assert_eq!(default_selection_mode(), "exclusive");
    assert_eq!(default_action_taken(), "none");
}

#[test]
fn codelist_is_decoded_from_shift_jis() {
    // "コード" in Shift_JIS
    let raw = [0x83, 0x52, 0x81, 0x5b, 0x83, 0x68, b',', b'1'];
    assert_eq!(codelist_text(&raw), "コード,1");
}
