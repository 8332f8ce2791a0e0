use kabuto::edinet::{
    is_main_instance_document, main_instance_entry, reports_to_fetch, storage_code, Document,
    Filter,
};
use std::io::Write;

fn doc(
    doc_id: &str,
    edinet: Option<&str>,
    sec: Option<&str>,
    filer: Option<&str>,
    ordinance: Option<&str>,
    form: Option<&str>,
) -> Document {
    let s = |o: Option<&str>| o.map(|x| x.to_string());
    Document {
        doc_id: doc_id.to_string(),
        edinet_code: s(edinet),
        sec_code: s(sec),
        filer_name: s(filer),
        ordinance_code: s(ordinance),
        form_code: s(form),
        doc_description: None,
        period_start: None,
        period_end: None,
        submit_date_time: None,
        seq_number: None,
        jcn: None,
        fund_code: None,
        doc_type_code: None,
        issuer_edinet_code: None,
        subject_edinet_code: None,
        subsidiary_edinet_code: None,
        current_report_reason: None,
        parent_doc_id: None,
        ope_date_time: None,
        withdrawal_status: None,
        doc_info_edit_status: None,
        disclosure_status: None,
        xbrl_flag: None,
        pdf_flag: None,
        attach_doc_flag: None,
        english_doc_flag: None,
        csv_flag: None,
        legal_status: None,
    }
}

fn filter(e: &[&str], s: &[&str], n: &[&str]) -> Filter {
    let v = |x: &[&str]| x.iter().map(|y| y.to_string()).collect::<Vec<_>>();
    Filter { edinet_codes: v(e), sec_codes: v(s), names: v(n) }
}

#[test]
fn annual_report_needs_both_codes() {
    assert!(doc("S1", None, None, None, Some("010"), Some("030000")).is_annual_report());
    assert!(!doc("S1", None, None, None, Some("010"), Some("043000")).is_annual_report());
    assert!(!doc("S1", None, None, None, Some("015"), Some("030000")).is_annual_report());
    assert!(!doc("S1", None, None, None, None, Some("030000")).is_annual_report());
    assert!(!doc("S1", None, None, None, Some("010"), None).is_annual_report());
}

#[test]
fn empty_filter_matches_every_document() {
    let f = filter(&[], &[], &[]);
    assert!(f.is_empty());
    assert!(f.matches(&doc("S1", None, None, None, None, None)));
    assert!(f.matches(&doc("S2", Some("E00001"), Some("13010"), Some("極洋"), None, None)));
}

#[test]
fn filter_matches_by_code_or_name_part() {
    let f = filter(&["E02144"], &["72030"], &["石油"]);
    assert!(!f.is_empty());
    assert!(f.matches(&doc("A", Some("E02144"), None, None, None, None)));
    assert!(f.matches(&doc("B", None, Some("72030"), None, None, None)));
    assert!(f.matches(&doc("C", None, None, Some("出光興産石油株式会社"), None, None)));
    assert!(!f.matches(&doc("D", Some("E99999"), Some("11110"), Some("トヨタ"), None, None)));
    assert!(!f.matches(&doc("E", None, None, None, None, None)));
    // a code is compared whole, not as a part
    assert!(!f.matches(&doc("F", Some("E0214"), None, None, None, None)));
}

#[test]
fn filter_with_only_names() {
    let f = filter(&[], &[], &["INPEX"]);
    assert!(f.matches(&doc("A", None, None, Some("INPEX CORPORATION"), None, None)));
    assert!(!f.matches(&doc("B", None, None, Some("inpex"), None, None)));
}

#[test]
fn reports_to_fetch_keeps_list_order() {
    let docs = vec![
        doc("A", Some("E1"), None, None, Some("010"), Some("030000")),
        doc("B", Some("E2"), None, None, Some("010"), Some("030000")),
        doc("C", Some("E1"), None, None, Some("010"), Some("043000")),
        doc("D", Some("E1"), None, None, Some("010"), Some("030000")),
    ];
    assert_eq!(reports_to_fetch(&docs, &filter(&["E1"], &[], &[])), vec![0, 3]);
    assert_eq!(reports_to_fetch(&docs, &filter(&[], &[], &[])), vec![0, 1, 3]);
    assert_eq!(reports_to_fetch(&docs, &filter(&["E3"], &[], &[])), Vec::<usize>::new());
}

#[test]
fn storage_code_defaults_to_unknown() {
    assert_eq!(storage_code(&doc("A", Some("E00540"), None, None, None, None)), "E00540");
    assert_eq!(storage_code(&doc("A", None, None, None, None, None)), "unknown");
}

#[test]
fn main_instance_is_the_public_jpcrp_xbrl() {
    assert!(is_main_instance_document(
        "XBRL/PublicDoc/jpcrp030000-asr-001_E00540-000_2026-03-31_01_2026-06-09.xbrl",
        "jpcrp030000-asr-001_E00540-000_2026-03-31_01_2026-06-09.xbrl",
    ));
    assert!(!is_main_instance_document(
        "XBRL/AuditDoc/jpaud-aar-cn-001_E00540-000_2026-03-31_01_2026-06-09.xbrl",
        "jpaud-aar-cn-001_E00540-000_2026-03-31_01_2026-06-09.xbrl",
    ));
    assert!(!is_main_instance_document(
        "XBRL/PublicDoc/jpcrp030000-asr-001_E00540-000_2026-03-31_01_2026-06-09.htm",
        "jpcrp030000-asr-001_E00540-000_2026-03-31_01_2026-06-09.htm",
    ));
    assert!(!is_main_instance_document("XBRL/jpcrp.xbrl", "jpcrp.xbrl"));
}


fn zip_of(entries: &[(&str, &[u8])]) -> Vec<u8> {
    let mut w = zip::ZipWriter::new(std::io::Cursor::new(Vec::new()));
    let options = zip::write::SimpleFileOptions::default()
        .compression_method(zip::CompressionMethod::Deflated);
    for (name, body) in entries {
        w.start_file(name.to_string(), options).unwrap();
        w.write_all(body).unwrap();
    }
    w.finish().unwrap().into_inner()
}

#[test]
fn main_instance_is_taken_from_the_archive() {
    let archive = zip_of(&[
        ("XBRL/AuditDoc/jpaud-aar-cn-001.xbrl", b"audit"),
        ("XBRL/PublicDoc/0101010_honbun.htm", b"html"),
        ("XBRL/PublicDoc/jpcrp030000-asr-001_E1.xbrl", b"<xbrl/>"),
        ("XBRL/PublicDoc/jpcrp030000-asr-001_E2.xbrl", b"second"),
    ]);
    let (name, bytes) = main_instance_entry(&archive).unwrap().unwrap();
    assert_eq!(name, "jpcrp030000-asr-001_E1.xbrl");
    assert_eq!(bytes, b"<xbrl/>".to_vec());
}

#[test]
fn archive_without_main_instance_or_not_an_archive() {
    let archive = zip_of(&[("XBRL/AuditDoc/jpcrp.xbrl", b"x"), ("../PublicDoc/evil", b"y")]);
    assert_eq!(main_instance_entry(&archive), Some(None));
    // an entry whose name is not a safe path is passed over
    let unsafe_first = zip_of(&[("../PublicDoc/jpcrp-a.xbrl", b"no"), ("PublicDoc/jpcrp-b.xbrl", b"ok")]);
    let (name, bytes) = main_instance_entry(&unsafe_first).unwrap().unwrap();
    assert_eq!(name, "jpcrp-b.xbrl");
    assert_eq!(bytes, b"ok".to_vec());
    assert_eq!(main_instance_entry(b"not a zip file"), None);
}
