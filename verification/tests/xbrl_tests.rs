use kabuto::xbrl::{
    attr_value, clean_text_block, context_year_offset, extract_facts, extract_fiscal_year,
    is_narrative_section, local_name, parse_xbrl_document, period_end_text, FiscalYearError, XbrlTextError,
    XmlAttribute, XmlEvent,
};

#[test]
fn fiscal_year_from_instance_file_name() {
    assert_eq!(
        extract_fiscal_year("jpcrp030000-asr-001_E00037-000_2026-03-31_01_2026-06-17.xbrl"),
        Ok(2026)
    );
    assert_eq!(extract_fiscal_year("a_b_1999"), Ok(1999));
    assert_eq!(extract_fiscal_year("a_b_-123x"), Ok(-123));
    assert_eq!(extract_fiscal_year("a_b_+042_z"), Ok(42));
}

#[test]
fn fiscal_year_errors() {
    assert_eq!(extract_fiscal_year("no-underscores.xbrl"), Err(FiscalYearError::NoPeriodEnd));
    assert_eq!(extract_fiscal_year("one_two"), Err(FiscalYearError::NoPeriodEnd));
    assert_eq!(extract_fiscal_year("a_b_202"), Err(FiscalYearError::ShortPeriodEnd));
    assert_eq!(extract_fiscal_year("a_b_"), Err(FiscalYearError::ShortPeriodEnd));
    // the fourth byte ends inside a character
    assert_eq!(extract_fiscal_year("a_b_12年3"), Err(FiscalYearError::ShortPeriodEnd));
    assert_eq!(extract_fiscal_year("a_b_20x6-03"), Err(FiscalYearError::NotANumber));
    assert_eq!(extract_fiscal_year("a_b_-"), Err(FiscalYearError::ShortPeriodEnd));
    assert_eq!(extract_fiscal_year("a_b_--12"), Err(FiscalYearError::NotANumber));
}

#[test]
fn local_name_is_after_the_last_colon() {
    assert_eq!(local_name("jpcrp_cor:NetSalesSummaryOfBusinessResults"), "NetSalesSummaryOfBusinessResults");
    assert_eq!(local_name("NoPrefix"), "NoPrefix");
    assert_eq!(local_name("a:b:c"), "c");
    assert_eq!(local_name("trailing:"), "");
}

#[test]
fn context_offsets() {
    assert_eq!(context_year_offset("CurrentYearDuration"), Some(0));
    assert_eq!(context_year_offset("CurrentYearInstant"), Some(0));
    assert_eq!(context_year_offset("Prior1YearInstant"), Some(1));
    assert_eq!(context_year_offset("Prior4YearDuration"), Some(4));
    assert_eq!(context_year_offset("Prior5YearDuration"), None);
    assert_eq!(context_year_offset("CurrentYearDuration_NonConsolidatedMember"), None);
}

#[test]
fn narrative_sections() {
    assert!(is_narrative_section("BusinessRisks"));
    assert!(is_narrative_section("MetricsAndTargets"));
    assert!(!is_narrative_section("BalanceSheet"));
    assert!(!is_narrative_section("businessrisks"));
}

#[test]
fn clean_text_strips_tags_entities_and_space() {
    assert_eq!(clean_text_block("<p>Hello&nbsp;<b>world</b></p>"), "Hello world");
    assert_eq!(clean_text_block("a &lt;b&gt; &amp;lt; c"), "a <b> < c");
    assert_eq!(clean_text_block("  x\n\t y \u{3000}z  "), "x y z");
    assert_eq!(clean_text_block("1 < 2 and no close"), "1 < 2 and no close");
    assert_eq!(clean_text_block("<br/>\n<br/>"), "");
    assert_eq!(clean_text_block("&quot;q&quot; &apos;a&apos;"), "\"q\" 'a'");
}

#[test]
fn attribute_lookup_takes_the_first() {
    let a = |k: &str, v: &[u8]| XmlAttribute { key: k.as_bytes().to_vec(), value: v.to_vec() };
    let attrs = vec![
        a("id", b"x"),
        a("contextRef", b"CurrentYearDuration"),
        a("contextRef", b"Other"),
        a("unitRef", b"J\xffPY"),
    ];
    assert_eq!(attr_value(&attrs, b"contextRef"), Some("CurrentYearDuration".to_string()));
    assert_eq!(attr_value(&attrs, b"decimals"), None);
    // the value is decoded as lossy UTF-8
    assert_eq!(attr_value(&attrs, b"unitRef"), Some("J\u{fffd}PY".to_string()));
}

fn start(name: &str, attrs: &[(&str, &str)]) -> XmlEvent {
    XmlEvent::Start {
        name: name.as_bytes().to_vec(),
        attributes: attrs
            .iter()
            .map(|(k, v)| XmlAttribute { key: k.as_bytes().to_vec(), value: v.as_bytes().to_vec() })
            .collect(),
    }
}

fn end(name: &str) -> XmlEvent {
    XmlEvent::End { name: name.as_bytes().to_vec() }
}

fn text(t: &str) -> XmlEvent {
    XmlEvent::Text(Some(t.to_string()))
}

#[test]
fn extracts_summary_figures_and_narratives() {
    let ev = vec![
        start("xbrli:xbrl", &[]),
        start(
            "jpcrp_cor:NetSalesSummaryOfBusinessResults",
            &[("contextRef", "Prior1YearDuration"), ("unitRef", "JPY")],
        ),
        text(" 12345 "),
        end("jpcrp_cor:NetSalesSummaryOfBusinessResults"),
        start("jpcrp_cor:NetSalesSummaryOfBusinessResults", &[("contextRef", "Prior1YearDuration_X")]),
        text("1"),
        end("jpcrp_cor:NetSalesSummaryOfBusinessResults"),
        start("jpcrp_cor:BusinessRisksTextBlock", &[]),
        text("<p>リスク&amp;課題</p>"),
        XmlEvent::CData(" です".as_bytes().to_vec()),
        end("jpcrp_cor:BusinessRisksTextBlock"),
        start("jpcrp_cor:BalanceSheetTextBlock", &[]),
        text("<table>1</table>"),
        end("jpcrp_cor:BalanceSheetTextBlock"),
        start("jpcrp_cor:StrategyTextBlock", &[]),
        text("<p> </p>"),
        end("jpcrp_cor:StrategyTextBlock"),
        end("xbrli:xbrl"),
    ];
    let (ms, ts) = extract_facts(&ev, "S100ABCD", &Some("1605".to_string()), 2026).unwrap();
    assert_eq!(ms.len(), 1);
    assert_eq!(ms[0].doc_id, "S100ABCD");
    assert_eq!(ms[0].company_code.as_deref(), Some("1605"));
    assert_eq!(ms[0].metric, "NetSales");
    assert_eq!(ms[0].xbrl_tag, "NetSalesSummaryOfBusinessResults");
    assert_eq!(ms[0].value_text, "12345");
    assert_eq!(ms[0].unit, "JPY");
    assert_eq!(ms[0].fiscal_year, 2025);
    assert!(ms[0].consolidated);
    assert_eq!(ts.len(), 1);
    assert_eq!(ts[0].section, "BusinessRisks");
    assert_eq!(ts[0].text, "リスク&課題 です");
    assert_eq!(ts[0].fiscal_year, 2026);
    assert_eq!(ts[0].company_code.as_deref(), Some("1605"));
}

#[test]
fn unresolved_text_inside_a_read_element_is_an_error() {
    let ev = vec![
        start("x:CashSummaryOfBusinessResults", &[("contextRef", "CurrentYearInstant")]),
        XmlEvent::Text(None),
        end("x:CashSummaryOfBusinessResults"),
    ];
    assert!(matches!(
        extract_facts(&ev, "D", &None, 2020),
        Err(XbrlTextError::UnresolvedText)
    ));
    // outside the elements that are read it does not matter
    let ev2 = vec![XmlEvent::Text(None), XmlEvent::Other];
    let (ms, ts) = extract_facts(&ev2, "D", &None, 2020).unwrap();
    assert!(ms.is_empty() && ts.is_empty());
}

#[test]
fn missing_unit_is_empty_and_text_runs_to_document_end() {
    let ev = vec![
        start("x:EquitySummaryOfBusinessResults", &[("contextRef", "Prior4YearInstant")]),
        text("7"),
        start("y:Nested", &[]),
        text("8"),
    ];
    let (ms, _) = extract_facts(&ev, "D", &None, 2024).unwrap();
    assert_eq!(ms.len(), 1);
    assert_eq!(ms[0].unit, "");
    assert_eq!(ms[0].value_text, "78");
    assert_eq!(ms[0].fiscal_year, 2020);
    assert_eq!(ms[0].company_code, None);
}

#[test]
fn parses_a_document_from_its_bytes() {
    let doc = r#"<?xml version="1.0" encoding="UTF-8"?>
<xbrli:xbrl xmlns:xbrli="x" xmlns:jpcrp_cor="y">
  <jpcrp_cor:NetSalesSummaryOfBusinessResults contextRef="CurrentYearDuration" unitRef="JPY">100</jpcrp_cor:NetSalesSummaryOfBusinessResults>
  <jpcrp_cor:NetSalesSummaryOfBusinessResults contextRef="Prior2YearDuration" unitRef="JPY"> 90 </jpcrp_cor:NetSalesSummaryOfBusinessResults>
  <jpcrp_cor:BusinessRisksTextBlock>&lt;p&gt;為替&amp;amp;金利&lt;/p&gt;<![CDATA[ <b>変動</b> ]]></jpcrp_cor:BusinessRisksTextBlock>
  <jpcrp_cor:EmptyElement/>
</xbrli:xbrl>"#;
    let (ms, ts) = parse_xbrl_document(doc.as_bytes(), "S1", &Some("7203".to_string()), 2026)
        .expect("well-formed XML")
        .expect("all text resolves");
    assert_eq!(ms.len(), 2);
    assert_eq!(ms[0].value_text, "100");
    assert_eq!(ms[0].fiscal_year, 2026);
    assert_eq!(ms[1].value_text, "90");
    assert_eq!(ms[1].fiscal_year, 2024);
    assert_eq!(ms[1].unit, "JPY");
    assert_eq!(ms[1].metric, "NetSales");
    assert_eq!(ts.len(), 1);
    assert_eq!(ts[0].section, "BusinessRisks");
    assert_eq!(ts[0].text, "為替&金利 変動");
    assert_eq!(ts[0].company_code.as_deref(), Some("7203"));
}

#[test]
fn malformed_xml_or_text_is_refused() {
    // an end tag that does not match its start tag
    let bad = b"<a:X><b:YSummaryOfBusinessResults contextRef=\"CurrentYearDuration\">1</b:Z></a:X>";
    assert!(parse_xbrl_document(bad, "D", &None, 2020).is_none());
    // an unknown entity in text that is read
    let unresolved = b"<a:X><b:YSummaryOfBusinessResults contextRef=\"CurrentYearDuration\">&bogus;</b:YSummaryOfBusinessResults></a:X>";
    assert!(matches!(
        parse_xbrl_document(unresolved, "D", &None, 2020),
        Some(Err(XbrlTextError::UnresolvedText))
    ));
    // a document with no figures and no sections gives nothing
    let (ms, ts) = parse_xbrl_document(b"<a/>", "D", &None, 2020).unwrap().unwrap();
    assert!(ms.is_empty() && ts.is_empty());
}

#[test]
fn period_end_part_of_the_file_name() {
    assert_eq!(
        period_end_text("jpcrp030000-asr-001_E00037-000_2026-03-31_01_2026-06-17.xbrl"),
        Some("2026-03-31".to_string())
    );
    assert_eq!(period_end_text("a_b_20x6"), Some("20x6".to_string()));
    assert_eq!(period_end_text("a_b_"), Some("".to_string()));
    assert_eq!(period_end_text("one_two"), None);
}

#[test]
fn names_and_values_are_read_as_utf8() {
    // a start tag whose name and attribute values are not ASCII
    let doc = "<x:売上SummaryOfBusinessResults contextRef=\"CurrentYearDuration\" unitRef=\"円\">5</x:売上SummaryOfBusinessResults>";
    let (ms, _) = parse_xbrl_document(doc.as_bytes(), "D", &None, 2020).unwrap().unwrap();
    assert_eq!(ms.len(), 1);
    assert_eq!(ms[0].metric, "売上");
    assert_eq!(ms[0].unit, "円");
}
