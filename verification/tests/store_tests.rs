use kabuto::ingest::{
    batch_ranges, metric_record_id, text_record_id, texts_to_embed, truncate, TextKey,
    EMBEDDING_BATCH_SIZE, MAX_TEXT_CHARS,
};
use kabuto::repack::{
    plan_copy, remaining_budget, stopped_at_limit, strip_record_id, table_already_copied,
};

fn key(d: &str, s: &str) -> TextKey {
    TextKey { doc_id: d.to_string(), section: s.to_string() }
}

fn strings(v: &[&str]) -> Vec<String> {
    v.iter().map(|s| s.to_string()).collect()
}

#[test]
fn truncate_counts_characters() {
    assert_eq!(truncate("abcdef", 3), "abc");
    assert_eq!(truncate("日本語テキスト", 3), "日本語");
    assert_eq!(truncate("short", 10), "short");
    assert_eq!(truncate("", 0), "");
    let long: String = "あ".repeat(MAX_TEXT_CHARS + 5);
    assert_eq!(truncate(&long, MAX_TEXT_CHARS).chars().count(), MAX_TEXT_CHARS);
    // cutting twice is cutting once
    assert_eq!(truncate(&truncate("abcdef", 3), 3), "abc");
}

#[test]
fn record_ids() {
    assert_eq!(metric_record_id("docA", "Revenue", 2025), "docA_Revenue_2025");
    assert_eq!(metric_record_id("d", "m", -7), "d_m_-7");
    assert_eq!(metric_record_id("d", "m", 0), "d_m_0");
    assert_eq!(metric_record_id("d", "m", i32::MIN), "d_m_-2147483648");
    assert_eq!(text_record_id("docA", "BusinessRisks"), "docA_BusinessRisks");
}

#[test]
fn only_unstored_texts_are_embedded() {
    let rows = vec![key("a", "X"), key("a", "Y"), key("b", "X")];
    let stored = vec![key("a", "Y")];
    assert_eq!(texts_to_embed(&rows, &stored), vec![0, 2]);
    assert_eq!(texts_to_embed(&rows, &vec![]), vec![0, 1, 2]);
    // loading again after everything is stored embeds nothing
    let mut all = stored;
    all.extend(rows.iter().map(|k| key(&k.doc_id, &k.section)));
    assert!(texts_to_embed(&rows, &all).is_empty());
}

#[test]
fn record_key_strips_backtick_escaping() {
    assert_eq!(strip_record_id("company:`1301`", "company"), "1301");
    assert_eq!(strip_record_id("company:TOYOTA", "company"), "TOYOTA");
    assert_eq!(
        strip_record_id("disclosure_text:docA_BusinessRisks", "disclosure_text"),
        "docA_BusinessRisks"
    );
    assert_eq!(strip_record_id("company:company:x", "company"), "x");
    assert_eq!(strip_record_id("``", "company"), "");
    assert_eq!(strip_record_id("other:1", "company"), "other:1");
}

#[test]
fn copy_plan_skips_done_and_respects_limit() {
    let ids = strings(&["1301", "1605", "7203", "9984"]);
    let done = strings(&["1605"]);
    assert_eq!(plan_copy(&ids, &done, None), vec![0, 2, 3]);
    assert_eq!(plan_copy(&ids, &done, Some(2)), vec![0, 2]);
    assert_eq!(plan_copy(&ids, &done, Some(0)), Vec::<usize>::new());
    assert_eq!(plan_copy(&ids, &done, Some(10)), vec![0, 2, 3]);
    // resuming after the limit gives the rest
    let mut done2 = done.clone();
    done2.extend(["1301".to_string(), "7203".to_string()]);
    assert_eq!(plan_copy(&ids, &done2, None), vec![3]);
}

#[test]
fn copy_budget() {
    assert_eq!(remaining_budget(None, 5), None);
    assert_eq!(remaining_budget(Some(10), 3), Some(7));
    assert_eq!(remaining_budget(Some(2), 3), Some(0));
    assert!(stopped_at_limit(Some(0)));
    assert!(!stopped_at_limit(Some(1)));
    assert!(!stopped_at_limit(None));
}

#[test]
fn rows_are_cut_into_consecutive_batches() {
    assert_eq!(batch_ranges(0, 50), vec![]);
    assert_eq!(batch_ranges(3, 50), vec![(0, 3)]);
    assert_eq!(batch_ranges(50, 50), vec![(0, 50)]);
    assert_eq!(batch_ranges(120, EMBEDDING_BATCH_SIZE), vec![(0, 50), (50, 100), (100, 120)]);
    assert_eq!(batch_ranges(1001, 500), vec![(0, 500), (500, 1000), (1000, 1001)]);
    let b = batch_ranges(usize::MAX, usize::MAX / 2 + 1);
    assert_eq!(b, vec![(0, usize::MAX / 2 + 1), (usize::MAX / 2 + 1, usize::MAX)]);
}

#[test]
fn equal_counts_pass_a_table_over() {
    assert!(table_already_copied(120, 120));
    assert!(table_already_copied(0, 0));
    assert!(!table_already_copied(120, 119));
    assert!(!table_already_copied(0, 3));
}

/// One run over the tables, as the copy does it: a table is passed over when
/// the counts match, otherwise its plan is copied and the budget shrinks.
fn simulate_run(srcs: &[Vec<String>], dsts: &mut [Vec<String>], limit: Option<usize>) {
    let mut budget = limit;
    for (src, dst) in srcs.iter().zip(dsts.iter_mut()) {
        if table_already_copied(src.len() as i64, dst.len() as i64) {
            continue;
        }
        let plan = plan_copy(src, dst, budget);
        for &i in &plan {
            dst.push(src[i].clone());
        }
        budget = remaining_budget(budget, plan.len());
    }
}

#[test]
fn limited_runs_then_a_full_run_copy_everything() {
    let srcs = vec![strings(&["1301", "1605", "7203"]), strings(&["a", "b", "c", "d", "e"]), strings(&["x"])];
    let mut dsts: Vec<Vec<String>> = vec![vec![], vec![], vec![]];
    simulate_run(&srcs, &mut dsts, Some(2));
    assert_eq!(dsts[0], strings(&["1301", "1605"]));
    assert!(dsts[1].is_empty() && dsts[2].is_empty());
    simulate_run(&srcs, &mut dsts, Some(2));
    assert_eq!(dsts[0], strings(&["1301", "1605", "7203"]));
    assert_eq!(dsts[1], strings(&["a"]));
    simulate_run(&srcs, &mut dsts, None);
    for (src, dst) in srcs.iter().zip(dsts.iter()) {
        let mut a = src.clone();
        let mut b = dst.clone();
        a.sort();
        b.sort();
        assert_eq!(a, b);
    }
}
