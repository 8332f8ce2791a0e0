//! Loading extracted rows into the database: record identifiers, which
//! narrative texts still need an embedding, how long a text sent for
//! embedding may be, and how rows are cut into batches.

use crate::text::{chars_of, copy_str, int_text, push_char, push_int, push_str, string_of_range};
use vstd::prelude::*;

verus! {

/// How many texts are sent for embedding in one request.
pub const EMBEDDING_BATCH_SIZE: usize = 50;

/// The longest text, in characters, sent for embedding (a margin below the
/// model's input limit of 8,191 tokens).
pub const MAX_TEXT_CHARS: usize = 6000;

/// `text` cut to its first `max_chars` characters.
pub open spec fn truncated(text: Seq<char>, max_chars: nat) -> Seq<char> {
    if text.len() <= max_chars {
        text
    } else {
        text.take(max_chars as int)
    }
}

/// The first `max_chars` characters of `text` (all of it when it is shorter).
pub fn truncate(text: &str, max_chars: usize) -> (res: String)
    ensures
        res@ == truncated(text@, max_chars as nat),
{
    let x = chars_of(text);
    if x.len() <= max_chars {
        copy_str(text)
    } else {
        let r = string_of_range(&x, 0, max_chars);
        proof {
            assert(x@.subrange(0, max_chars as int) == x@.take(max_chars as int));
        }
        r
    }
}

/// Cutting a text twice to the same length is cutting it once, and the cut
/// text is a prefix of the text of at most that length.
pub proof fn lemma_truncate_twice(text: Seq<char>, max_chars: nat)
    ensures
        truncated(truncated(text, max_chars), max_chars) == truncated(text, max_chars),
        truncated(text, max_chars).len() <= max_chars,
        truncated(text, max_chars) == text.take(truncated(text, max_chars).len() as int),
{
    assert(text.take(text.len() as int) == text);
}

/// The record key of a financial metric: `{doc_id}_{metric}_{fiscal_year}`.
pub open spec fn metric_key(doc_id: Seq<char>, metric: Seq<char>, fiscal_year: int) -> Seq<char> {
    doc_id + seq!['_'] + metric + seq!['_'] + int_text(fiscal_year)
}

pub fn metric_record_id(doc_id: &str, metric: &str, fiscal_year: i32) -> (res: String)
    ensures
        res@ == metric_key(doc_id@, metric@, fiscal_year as int),
{
    let mut out = copy_str(doc_id);
    push_char(&mut out, '_');
    push_str(&mut out, metric);
    push_char(&mut out, '_');
    push_int(&mut out, fiscal_year);
    out
}

/// The record key of a narrative text: `{doc_id}_{section}`.
pub open spec fn text_key(doc_id: Seq<char>, section: Seq<char>) -> Seq<char> {
    doc_id + seq!['_'] + section
}

pub fn text_record_id(doc_id: &str, section: &str) -> (res: String)
    ensures
        res@ == text_key(doc_id@, section@),
{
    let mut out = copy_str(doc_id);
    push_char(&mut out, '_');
    push_str(&mut out, section);
    out
}

/// What identifies a narrative text: its document and its section.
pub struct TextKey {
    pub doc_id: String,
    pub section: String,
}

/// `k` is among `ks` (same document and same section).
pub open spec fn key_in(k: TextKey, ks: Seq<TextKey>) -> bool {
    exists|i: int| 0 <= i < ks.len() && ks[i].doc_id@ == k.doc_id@ && ks[i].section@ == k.section@
}

/// The positions, among the first `n` rows, of the rows whose key is not
/// among `existing`, in order.
pub open spec fn pending_rows(rows: Seq<TextKey>, existing: Seq<TextKey>, n: int) -> Seq<usize>
    decreases n,
{
    if n <= 0 {
        Seq::empty()
    } else {
        let p = pending_rows(rows, existing, n - 1);
        if key_in(rows[n - 1], existing) {
            p
        } else {
            p.push((n - 1) as usize)
        }
    }
}

/// Whether `k` is among `ks`.
fn has_key(k: &TextKey, ks: &Vec<TextKey>) -> (res: bool)
    ensures
        res == key_in(*k, ks@),
{
    let mut i: usize = 0;
    while i < ks.len()
        invariant
            i <= ks.len(),
            forall|j: int|
                0 <= j < i ==> !(ks@[j].doc_id@ == k.doc_id@ && ks@[j].section@ == k.section@),
        decreases ks.len() - i,
    {
        if ks[i].doc_id == k.doc_id && ks[i].section == k.section {
            return true;
        }
        i = i + 1;
    }
    false
}

/// The positions of the narrative texts that are not stored yet (and so
/// still need an embedding), in order; texts already stored are skipped, so
/// loading the same rows again embeds nothing twice.
pub fn texts_to_embed(rows: &Vec<TextKey>, existing: &Vec<TextKey>) -> (res: Vec<usize>)
    ensures
        res@ == pending_rows(rows@, existing@, rows@.len() as int),
{
    let mut res: Vec<usize> = Vec::new();
    let mut i: usize = 0;
    while i < rows.len()
        invariant
            i <= rows.len(),
            res@ == pending_rows(rows@, existing@, i as int),
        decreases rows.len() - i,
    {
        if !has_key(&rows[i], existing) {
            res.push(i);
        }
        i = i + 1;
    }
    res
}

/// Every pending position is a row whose key is not stored.
pub proof fn lemma_pending_rows_not_stored(rows: Seq<TextKey>, existing: Seq<TextKey>, n: int)
    requires
        0 <= n <= rows.len(),
        rows.len() <= usize::MAX,
    ensures
        forall|k: int|
            0 <= k < pending_rows(rows, existing, n).len() ==> pending_rows(rows, existing, n)[k]
                < n && !key_in(rows[pending_rows(rows, existing, n)[k] as int], existing),
        forall|j: int|
            0 <= j < n && !key_in(rows[j], existing) ==> pending_rows(rows, existing, n).contains(
                j as usize,
            ),
    decreases n,
{
    if n > 0 {
        lemma_pending_rows_not_stored(rows, existing, n - 1);
        let p = pending_rows(rows, existing, n - 1);
        let q = pending_rows(rows, existing, n);
        assert forall|k: int| 0 <= k < q.len() implies q[k] < n && !key_in(
            rows[q[k] as int],
            existing,
        ) by {
            if k < p.len() {
                assert(q[k] == p[k]);
            } else {
                assert(q[k] == (n - 1) as usize);
            }
        }
        assert forall|j: int|
            0 <= j < n && !key_in(rows[j], existing) implies pending_rows(
            rows,
            existing,
            n,
        ).contains(j as usize) by {
            if j < n - 1 {
                let k = choose|k: int| 0 <= k < p.len() && p[k] == j as usize;
                if !key_in(rows[n - 1], existing) {
                    assert(p.push((n - 1) as usize)[k] == j as usize);
                }
            } else {
                assert(p.push((n - 1) as usize)[p.len() as int] == j as usize);
            }
        }
    }
}

/// A row is pending exactly when no stored key has both its document and its
/// section: stored keys of other documents, or of other sections, never keep
/// a row from being embedded. Pending positions ascend.
pub proof fn lemma_pending_iff_unstored(rows: Seq<TextKey>, existing: Seq<TextKey>, j: int)
    requires
        rows.len() <= usize::MAX,
        0 <= j < rows.len(),
    ensures
        pending_rows(rows, existing, rows.len() as int).contains(j as usize) <==> forall|i: int|
            0 <= i < existing.len() ==> !(existing[i].doc_id@ == rows[j].doc_id@
                && #[trigger] existing[i].section@ == rows[j].section@),
        forall|a: int, b: int|
            0 <= a < b < pending_rows(rows, existing, rows.len() as int).len() ==> pending_rows(
                rows,
                existing,
                rows.len() as int,
            )[a] < pending_rows(rows, existing, rows.len() as int)[b],
{
    lemma_pending_rows_not_stored(rows, existing, rows.len() as int);
    lemma_pending_rows_ascend(rows, existing, rows.len() as int);
    let p = pending_rows(rows, existing, rows.len() as int);
    if p.contains(j as usize) {
        let k = choose|k: int| 0 <= k < p.len() && p[k] == j as usize;
        assert(!key_in(rows[p[k] as int], existing));
    } else {
        assert(key_in(rows[j], existing));
        let i = choose|i: int|
            0 <= i < existing.len() && existing[i].doc_id@ == rows[j].doc_id@ && existing[i].section@
                == rows[j].section@;
        assert(existing[i].section@ == rows[j].section@);
    }
}

proof fn lemma_pending_rows_ascend(rows: Seq<TextKey>, existing: Seq<TextKey>, n: int)
    requires
        0 <= n <= rows.len(),
        rows.len() <= usize::MAX,
    ensures
        forall|a: int, b: int|
            0 <= a < b < pending_rows(rows, existing, n).len() ==> pending_rows(rows, existing, n)[a]
                < pending_rows(rows, existing, n)[b],
    decreases n,
{
    if n > 0 {
        lemma_pending_rows_ascend(rows, existing, n - 1);
        lemma_pending_rows_not_stored(rows, existing, n - 1);
        let p = pending_rows(rows, existing, n - 1);
        let q = pending_rows(rows, existing, n);
        assert forall|a: int, b: int| 0 <= a < b < q.len() implies q[a] < q[b] by {
            if b < p.len() {
                assert(q[a] == p[a] && q[b] == p[b]);
            } else {
                assert(q[a] == p[a]);
            }
        }
    }
}

/// Loading the same rows a second time, once they are stored, embeds nothing:
/// when every row's key is among the stored keys, no row is pending.
pub proof fn lemma_reload_embeds_nothing(rows: Seq<TextKey>, existing: Seq<TextKey>)
    requires
        rows.len() <= usize::MAX,
        forall|i: int| 0 <= i < rows.len() ==> key_in(#[trigger] rows[i], existing),
    ensures
        pending_rows(rows, existing, rows.len() as int).len() == 0,
{
    lemma_pending_rows_not_stored(rows, existing, rows.len() as int);
    let p = pending_rows(rows, existing, rows.len() as int);
    if p.len() > 0 {
        assert(!key_in(rows[p[0] as int], existing));
    }
}

// ── Batches ───────────────────────────────────────────────────────────────

/// The batches of positions `start..n`, each `size` long but the last: each
/// is given as its first position and the position after its last.
pub open spec fn batches(start: nat, n: nat, size: nat) -> Seq<(usize, usize)>
    decreases n - start,
{
    if size == 0 || start >= n {
        Seq::empty()
    } else {
        let end: nat = if n - start <= size {
            n
        } else {
            start + size
        };
        seq![(start as usize, end as usize)] + batches(end, n, size)
    }
}

/// Cuts the positions `0..n` into consecutive batches of `size` (the last
/// one shorter when `size` does not divide `n`), in order.
pub fn batch_ranges(n: usize, size: usize) -> (res: Vec<(usize, usize)>)
    requires
        size > 0,
    ensures
        res@ == batches(0, n as nat, size as nat),
{
    let mut res: Vec<(usize, usize)> = Vec::new();
    let mut start: usize = 0;
    while start < n
        invariant
            start <= n,
            size > 0,
            res@ + batches(start as nat, n as nat, size as nat) == batches(0, n as nat, size as nat),
        decreases n - start,
    {
        let end = if n - start <= size {
            n
        } else {
            start + size
        };
        proof {
            let rest = batches(end as nat, n as nat, size as nat);
            assert(batches(start as nat, n as nat, size as nat) == seq![(start, end)] + rest);
            assert(res@.push((start, end)) + rest == res@ + (seq![(start, end)] + rest));
        }
        res.push((start, end));
        start = end;
    }
    proof {
        assert(res@ + Seq::<(usize, usize)>::empty() == res@);
    }
    res
}

/// The batches cover `start..n` in order without gaps or overlaps, and each
/// holds at least one and at most `size` positions.
pub proof fn lemma_batches_cover(start: nat, n: nat, size: nat)
    requires
        size > 0,
        n <= usize::MAX,
    ensures
        start < n ==> batches(start, n, size).len() > 0 && batches(start, n, size)[0].0 == start
            && batches(start, n, size).last().1 == n,
        start >= n ==> batches(start, n, size).len() == 0,
        forall|j: int|
            0 <= j < batches(start, n, size).len() ==> #[trigger] batches(start, n, size)[j].0
                < batches(start, n, size)[j].1 <= batches(start, n, size)[j].0 + size,
        forall|j: int|
            0 <= j < batches(start, n, size).len() - 1 ==> #[trigger] batches(start, n, size)[j].1
                == batches(start, n, size)[j + 1].0,
    decreases n - start,
{
    if start < n {
        let end: nat = if n - start <= size {
            n
        } else {
            start + size
        };
        lemma_batches_cover(end, n, size);
        let rest = batches(end, n, size);
        let b = batches(start, n, size);
        assert(b == seq![(start as usize, end as usize)] + rest);
        assert forall|j: int| 0 <= j < b.len() implies #[trigger] b[j].0 < b[j].1 <= b[j].0 + size by {
            if j > 0 {
                assert(b[j] == rest[j - 1]);
            }
        }
        assert forall|j: int| 0 <= j < b.len() - 1 implies #[trigger] b[j].1 == b[j + 1].0 by {
            if j > 0 {
                assert(b[j] == rest[j - 1]);
            }
            assert(b[j + 1] == rest[j]);
        }
        if rest.len() > 0 {
            assert(b.last() == rest.last());
        }
    }
}

} // verus!
