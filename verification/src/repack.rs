//! Copying a database into a fresh one in batches: which records still have
//! to be copied, how much of the copy budget is left, and how a stored record
//! id is turned back into its key.

use crate::text::{chars_of, has_prefix, matches_at, string_of_range};
use vstd::prelude::*;

verus! {

/// How many records are written per query.
pub const BATCH_SIZE: usize = 500;

// ── Record ids ──────────────────────────────────────────────────────────────

/// `s` with every leading repetition of `p` removed (what
/// `str::trim_start_matches` does with a text pattern).
pub open spec fn strip_repeated_prefix(s: Seq<char>, p: Seq<char>) -> Seq<char>
    decreases s.len(),
{
    if p.len() > 0 && has_prefix(s, p) {
        strip_repeated_prefix(s.skip(p.len() as int), p)
    } else {
        s
    }
}

/// The number of `c` at the start of `s`.
pub open spec fn leading_count(s: Seq<char>, c: char) -> nat
    decreases s.len(),
{
    if s.len() > 0 && s[0] == c {
        1 + leading_count(s.drop_first(), c)
    } else {
        0
    }
}

/// The number of `c` at the end of `s`.
pub open spec fn trailing_count(s: Seq<char>, c: char) -> nat
    decreases s.len(),
{
    if s.len() > 0 && s.last() == c {
        1 + trailing_count(s.drop_last(), c)
    } else {
        0
    }
}

/// `s` without `c` at either end (what `str::trim_matches` does with a char).
pub open spec fn trim_char(s: Seq<char>, c: char) -> Seq<char> {
    let a = leading_count(s, c);
    if a >= s.len() {
        Seq::empty()
    } else {
        s.subrange(a as int, s.len() - trailing_count(s, c))
    }
}

/// The key of a record from its id rendered as text (`company:`1605`` →
/// `1605`): the `table:` prefix and the backquotes that escape keys starting
/// with a digit are removed.
pub open spec fn record_key(raw: Seq<char>, table: Seq<char>) -> Seq<char> {
    trim_char(strip_repeated_prefix(raw, table.push(':')), '`')
}

pub proof fn lemma_leading_count(s: Seq<char>, c: char)
    ensures
        leading_count(s, c) <= s.len(),
        leading_count(s, c) < s.len() ==> s[leading_count(s, c) as int] != c,
    decreases s.len(),
{
    if s.len() > 0 && s[0] == c {
        lemma_leading_count(s.drop_first(), c);
    }
}

pub proof fn lemma_trailing_count(s: Seq<char>, c: char)
    ensures
        trailing_count(s, c) <= s.len(),
        trailing_count(s, c) < s.len() ==> s[s.len() - 1 - trailing_count(s, c)] != c,
    decreases s.len(),
{
    if s.len() > 0 && s.last() == c {
        lemma_trailing_count(s.drop_last(), c);
    }
}

/// The key of a stored record from its id as text (see `record_key`).
pub fn strip_record_id(raw: &str, table: &str) -> (res: String)
    ensures
        res@ == record_key(raw@, table@),
{
    let x = chars_of(raw);
    let mut prefix = chars_of(table);
    prefix.push(':');
    let ghost p = table@.push(':');
    let mut a: usize = 0;
    proof {
        assert(x@.skip(0) == x@);
    }
    while matches_at(&x, &prefix, a)
        invariant
            prefix@ == p,
            p.len() > 0,
            a <= x@.len(),
            x@ == raw@,
            strip_repeated_prefix(x@, p) == strip_repeated_prefix(x@.skip(a as int), p),
        decreases x.len() - a,
    {
        proof {
            let t = x@.skip(a as int);
            assert(t.subrange(0, p.len() as int) == x@.subrange(a as int, a + p.len()));
            assert(t.skip(p.len() as int) == x@.skip(a + p.len()));
        }
        a = a + prefix.len();
    }
    proof {
        let t = x@.skip(a as int);
        if has_prefix(t, p) {
            assert(t.subrange(0, p.len() as int) == x@.subrange(a as int, a + p.len()));
        }
        assert(strip_repeated_prefix(t, p) == t);
    }
    let ghost t = x@.skip(a as int);
    let mut b = a;
    while b < x.len() && x[b] == '`'
        invariant
            a <= b <= x@.len(),
            t == x@.skip(a as int),
            leading_count(t, '`') == (b - a) + leading_count(x@.skip(b as int), '`'),
        decreases x.len() - b,
    {
        proof {
            assert(x@.skip(b as int).drop_first() == x@.skip(b + 1));
        }
        b = b + 1;
    }
    proof {
        if b < x.len() {
            assert(x@.skip(b as int)[0] == x@[b as int]);
        }
        assert(leading_count(x@.skip(b as int), '`') == 0);
    }
    if b == x.len() {
        return String::new();
    }
    let mut z = x.len();
    proof {
        assert(x@.skip(a as int).take((z - a) as int) == t);
    }
    while x[z - 1] == '`'
        invariant
            a <= b < z <= x@.len(),
            x@[b as int] != '`',
            t == x@.skip(a as int),
            trailing_count(t, '`') == (x@.len() - z) + trailing_count(
                x@.subrange(a as int, z as int),
                '`',
            ),
        decreases z,
    {
        proof {
            assert(x@.subrange(a as int, z as int).drop_last() == x@.subrange(a as int, z - 1));
        }
        z = z - 1;
    }
    proof {
        assert(x@.subrange(a as int, z as int).last() == x@[z - 1]);
        assert(trailing_count(x@.subrange(a as int, z as int), '`') == 0);
        assert(t.subrange((b - a) as int, t.len() - (x@.len() - z)) == x@.subrange(
            b as int,
            z as int,
        ));
    }
    string_of_range(&x, b, z)
}

// ── Which records to copy ───────────────────────────────────────────────────

/// `id` is among `ids` (same text).
pub open spec fn id_in(id: String, ids: Seq<String>) -> bool {
    exists|i: int| 0 <= i < ids.len() && ids[i]@ == id@
}

/// The positions, among the first `n` ids, of the ids that are not among
/// `done`, in order.
pub open spec fn missing_ids(ids: Seq<String>, done: Seq<String>, n: int) -> Seq<usize>
    decreases n,
{
    if n <= 0 {
        Seq::empty()
    } else {
        let p = missing_ids(ids, done, n - 1);
        if id_in(ids[n - 1], done) {
            p
        } else {
            p.push((n - 1) as usize)
        }
    }
}

/// The copy plan: the missing ids, at most `limit` of them when a limit is given.
pub open spec fn copy_plan(ids: Seq<String>, done: Seq<String>, limit: Option<usize>) -> Seq<
    usize,
> {
    let m = missing_ids(ids, done, ids.len() as int);
    match limit {
        Some(n) => if n < m.len() {
            m.take(n as int)
        } else {
            m
        },
        None => m,
    }
}

/// Whether `id` is among `ids`.
fn has_id(id: &String, ids: &Vec<String>) -> (res: bool)
    ensures
        res == id_in(*id, ids@),
{
    let mut i: usize = 0;
    while i < ids.len()
        invariant
            i <= ids.len(),
            forall|j: int| 0 <= j < i ==> ids@[j]@ != id@,
        decreases ids.len() - i,
    {
        if ids[i] == *id {
            assert(ids@[i as int]@ == id@);
            return true;
        }
        i = i + 1;
    }
    false
}

/// The positions of the ids to copy in this run: those not yet in the
/// destination, in order, cut to `limit` when one is given.
pub fn plan_copy(ids: &Vec<String>, done: &Vec<String>, limit: Option<usize>) -> (res: Vec<usize>)
    ensures
        res@ == copy_plan(ids@, done@, limit),
{
    let mut res: Vec<usize> = Vec::new();
    let mut i: usize = 0;
    while i < ids.len()
        invariant
            i <= ids.len(),
            res@ == missing_ids(ids@, done@, i as int),
        decreases ids.len() - i,
    {
        if !has_id(&ids[i], done) {
            res.push(i);
        }
        i = i + 1;
    }
    match limit {
        Some(n) => {
            if n < res.len() {
                res.truncate(n);
            }
        },
        None => {},
    }
    res
}

/// What is left of the copy budget after `copied` records: nothing is left
/// to track without a limit, and the budget does not go below zero.
pub open spec fn spec_remaining_budget(limit: Option<usize>, copied: usize) -> Option<usize> {
    match limit {
        Some(n) => Some(if copied >= n {
            0usize
        } else {
            (n - copied) as usize
        }),
        None => None,
    }
}

pub fn remaining_budget(limit: Option<usize>, copied: usize) -> (res: Option<usize>)
    ensures
        res == spec_remaining_budget(limit, copied),
{
    match limit {
        Some(n) => Some(n.saturating_sub(copied)),
        None => None,
    }
}

/// The copy stopped because the budget ran out (and can be resumed by
/// running it again).
pub fn stopped_at_limit(budget: Option<usize>) -> (res: bool)
    ensures
        res == (budget == Some(0usize)),
{
    match budget {
        Some(n) => n == 0,
        None => false,
    }
}


// ── Laws ────────────────────────────────────────────────────────────────────

/// An id written as `table:`key`` (the escaped form, used for keys that
/// start with a digit) gives back its key, when the key neither starts nor
/// ends with a backquote.
pub proof fn lemma_record_key_escaped(table: Seq<char>, key: Seq<char>)
    requires
        table.len() == 0 || table[0] != '`',
        key.len() == 0 || (key[0] != '`' && key.last() != '`'),
    ensures
        record_key(table.push(':') + seq!['`'] + key + seq!['`'], table) == key,
{
    let p = table.push(':');
    let t = seq!['`'] + key + seq!['`'];
    let raw = p + t;
    assert(table.push(':') + seq!['`'] + key + seq!['`'] == raw);
    assert(raw.subrange(0, p.len() as int) == p);
    assert(raw.skip(p.len() as int) == t);
    assert(!has_prefix(t, p)) by {
        if has_prefix(t, p) {
            assert(t.subrange(0, p.len() as int)[0] == p[0]);
        }
    }
    assert(strip_repeated_prefix(t, p) == t);
    assert(strip_repeated_prefix(raw, p) == t);
    assert(t.drop_first() == key + seq!['`']);
    if key.len() == 0 {
        assert(leading_count(key + seq!['`'], '`') == 1 + leading_count(Seq::<char>::empty(), '`'))
            by {
            assert((key + seq!['`']).drop_first() == Seq::<char>::empty());
        }
        assert(trim_char(t, '`') == Seq::<char>::empty());
    } else {
        assert((key + seq!['`'])[0] == key[0]);
        assert(leading_count(key + seq!['`'], '`') == 0);
        assert(leading_count(t, '`') == 1);
        assert((seq!['`'] + key).last() == key.last());
        assert(trailing_count(seq!['`'] + key, '`') == 0);
        assert(t.drop_last() == seq!['`'] + key);
        assert((seq!['`'] + key).last() == key.last());
        assert(trailing_count(t, '`') == 1);
        assert(t.subrange(1, t.len() - 1) == key);
    }
}

/// An id written as `table:key` gives back its key, when the key neither
/// starts nor ends with a backquote and does not itself begin with `table:`.
pub proof fn lemma_record_key_plain(table: Seq<char>, key: Seq<char>)
    requires
        key.len() > 0,
        key[0] != '`',
        key.last() != '`',
        !has_prefix(key, table.push(':')),
    ensures
        record_key(table.push(':') + key, table) == key,
{
    let p = table.push(':');
    let raw = p + key;
    assert(raw.subrange(0, p.len() as int) == p);
    assert(raw.skip(p.len() as int) == key);
    assert(strip_repeated_prefix(key, p) == key);
    assert(strip_repeated_prefix(raw, p) == key);
    assert(leading_count(key, '`') == 0);
    assert(trailing_count(key, '`') == 0);
    assert(key.subrange(0, key.len() as int) == key);
}

/// No two ids are the same text.
pub open spec fn distinct_ids(ids: Seq<String>) -> bool {
    forall|i: int, j: int| 0 <= i < j < ids.len() ==> ids[i]@ != ids[j]@
}

/// The missing ids among the first `n`: each is below `n`, they ascend, and
/// every id below `n` that is not done is among them.
pub proof fn lemma_missing_ids(ids: Seq<String>, done: Seq<String>, n: int)
    requires
        0 <= n <= ids.len(),
        ids.len() <= usize::MAX,
    ensures
        forall|k: int|
            0 <= k < missing_ids(ids, done, n).len() ==> missing_ids(ids, done, n)[k] < n
                && !id_in(ids[missing_ids(ids, done, n)[k] as int], done),
        forall|k: int, l: int|
            0 <= k < l < missing_ids(ids, done, n).len() ==> missing_ids(ids, done, n)[k]
                < missing_ids(ids, done, n)[l],
        forall|j: int|
            0 <= j < n && !id_in(ids[j], done) ==> missing_ids(ids, done, n).contains(j as usize),
    decreases n,
{
    if n > 0 {
        lemma_missing_ids(ids, done, n - 1);
        let p = missing_ids(ids, done, n - 1);
        let q = missing_ids(ids, done, n);
        assert forall|k: int| 0 <= k < q.len() implies q[k] < n && !id_in(ids[q[k] as int], done) by {
            if k < p.len() {
                assert(q[k] == p[k]);
            }
        }
        assert forall|j: int| 0 <= j < n && !id_in(ids[j], done) implies q.contains(j as usize) by {
            if j < n - 1 {
                let k = choose|k: int| 0 <= k < p.len() && p[k] == j as usize;
                assert(q[k] == j as usize);
            } else {
                assert(q[p.len() as int] == j as usize);
            }
        }
    }
}

/// The missing ids among the first `n` are a prefix of those among the first `n2 ≥ n`.
pub proof fn lemma_missing_ids_prefix(ids: Seq<String>, done: Seq<String>, n: int, n2: int)
    requires
        0 <= n <= n2 <= ids.len(),
    ensures
        missing_ids(ids, done, n).len() <= missing_ids(ids, done, n2).len(),
        missing_ids(ids, done, n2).take(missing_ids(ids, done, n).len() as int) == missing_ids(
            ids,
            done,
            n,
        ),
    decreases n2 - n,
{
    if n < n2 {
        lemma_missing_ids_prefix(ids, done, n, n2 - 1);
        let a = missing_ids(ids, done, n);
        let b = missing_ids(ids, done, n2 - 1);
        let c = missing_ids(ids, done, n2);
        if !id_in(ids[n2 - 1], done) {
            assert(c.take(a.len() as int) == b.take(a.len() as int));
        }
    } else {
        assert(missing_ids(ids, done, n).take(missing_ids(ids, done, n).len() as int)
            == missing_ids(ids, done, n));
    }
}

/// The ids of the planned positions.
pub open spec fn planned_ids(ids: Seq<String>, plan: Seq<usize>) -> Seq<String> {
    plan.map_values(|i: usize| ids[i as int])
}

proof fn lemma_resume_step(ids: Seq<String>, done: Seq<String>, m: int, n: int)
    requires
        ids.len() <= usize::MAX,
        distinct_ids(ids),
        0 <= n <= ids.len(),
        0 <= m <= missing_ids(ids, done, ids.len() as int).len(),
    ensures
        ({
            let all = missing_ids(ids, done, ids.len() as int);
            let done2 = done + planned_ids(ids, all.take(m));
            let c = missing_ids(ids, done, n).len() as int;
            missing_ids(ids, done2, n) == all.subrange(if m < c { m } else { c }, c)
        }),
    decreases n,
{
    let all = missing_ids(ids, done, ids.len() as int);
    let plan = all.take(m);
    let done2 = done + planned_ids(ids, plan);
    lemma_missing_ids(ids, done, ids.len() as int);
    lemma_missing_ids_prefix(ids, done, n, ids.len() as int);
    if n > 0 {
        lemma_resume_step(ids, done, m, n - 1);
        lemma_missing_ids_prefix(ids, done, n - 1, ids.len() as int);
        let j = n - 1;
        let c0 = missing_ids(ids, done, n - 1).len() as int;
        let c = missing_ids(ids, done, n).len() as int;
        if id_in(ids[j], done) {
            let i = choose|i: int| 0 <= i < done.len() && done[i]@ == ids[j]@;
            assert(done2[i] == done[i]);
            assert(id_in(ids[j], done2));
        } else {
            assert(c == c0 + 1);
            assert(all[c0] == missing_ids(ids, done, n)[c0]);
            assert(all[c0] == j as usize);
            if c0 < m {
                assert(plan[c0] == j as usize);
                assert(done2[done.len() + c0] == ids[j]);
                assert(id_in(ids[j], done2));
                assert(all.subrange(c0, c0) =~= all.subrange(c, c));
            } else {
                assert(!id_in(ids[j], done2)) by {
                    if id_in(ids[j], done2) {
                        let i = choose|i: int| 0 <= i < done2.len() && done2[i]@ == ids[j]@;
                        if i < done.len() {
                            assert(done[i] == done2[i]);
                        } else {
                            let k = i - done.len();
                            assert(done2[i] == ids[plan[k] as int]);
                            assert(plan[k] == all[k]);
                            assert(all[k] < all[c0]);
                        }
                    }
                }
                assert(all.subrange(m, c) == all.subrange(m, c0).push(all[c0]));
            }
        }
    }
}

/// A copy cut short by its limit resumes where it stopped: once the planned
/// ids are in the destination, planning again (without a limit) gives exactly
/// the missing ids that were left out, in order. Ids of one table are distinct.
pub proof fn lemma_resume_after_limit(ids: Seq<String>, done: Seq<String>, limit: usize)
    requires
        ids.len() <= usize::MAX,
        distinct_ids(ids),
    ensures
        ({
            let plan = copy_plan(ids, done, Some(limit));
            let all = copy_plan(ids, done, None);
            copy_plan(ids, done + planned_ids(ids, plan), None) == all.skip(plan.len() as int)
        }),
{
    let all = missing_ids(ids, done, ids.len() as int);
    let plan = copy_plan(ids, done, Some(limit));
    let m = plan.len() as int;
    assert(plan == all.take(m));
    lemma_resume_step(ids, done, m, ids.len() as int);
    assert(all.subrange(m, all.len() as int) == all.skip(m));
}

/// A table is passed over when the source and the destination hold as many
/// records of it: it is taken to be copied already.
pub fn table_already_copied(src_count: i64, dst_count: i64) -> (res: bool)
    ensures
        res == (src_count == dst_count),
{
    src_count == dst_count
}

// ── Repeated runs ─────────────────────────────────────────────────────────

/// The destination's ids of a table hold no id twice, and each is one of the
/// source's: so it is when the destination started empty and only received
/// copies.
pub open spec fn copied_from(done: Seq<String>, src: Seq<String>) -> bool {
    &&& distinct_ids(done)
    &&& forall|i: int| 0 <= i < done.len() ==> id_in(#[trigger] done[i], src)
}

/// Two collections of ids hold the same ids (as text).
pub open spec fn same_ids(a: Seq<String>, b: Seq<String>) -> bool {
    forall|x: String| #![trigger id_in(x, a)] #![trigger id_in(x, b)] id_in(x, a) <==> id_in(x, b)
}

/// One table in one run: passed over when the destination holds as many
/// records as the source (the budget is kept); otherwise the planned ids are
/// added to the destination and the budget shrinks by their number.
pub open spec fn table_step(src: Seq<String>, done: Seq<String>, budget: Option<usize>) -> (
    Seq<String>,
    Option<usize>,
) {
    if src.len() == done.len() {
        (done, budget)
    } else {
        let plan = copy_plan(src, done, budget);
        (done + planned_ids(src, plan), spec_remaining_budget(budget, plan.len() as usize))
    }
}

/// One run over the tables in order, the budget passed from each table to
/// the next: the destination's ids of each table afterwards.
pub open spec fn repack_run(srcs: Seq<Seq<String>>, dones: Seq<Seq<String>>, budget: Option<usize>) -> Seq<
    Seq<String>,
>
    decreases srcs.len(),
{
    if srcs.len() == 0 || dones.len() == 0 {
        Seq::empty()
    } else {
        let step = table_step(srcs[0], dones[0], budget);
        seq![step.0] + repack_run(srcs.drop_first(), dones.drop_first(), step.1)
    }
}

/// The destination's ids after runs with the limits `limits`, in order.
pub open spec fn after_runs(srcs: Seq<Seq<String>>, dones: Seq<Seq<String>>, limits: Seq<usize>) -> Seq<
    Seq<String>,
>
    decreases limits.len(),
{
    if limits.len() == 0 {
        dones
    } else {
        after_runs(srcs, repack_run(srcs, dones, Some(limits[0])), limits.drop_first())
    }
}

/// Each table's destination ids are copied from its source.
pub open spec fn all_copied_from(dones: Seq<Seq<String>>, srcs: Seq<Seq<String>>) -> bool {
    &&& dones.len() == srcs.len()
    &&& forall|t: int| 0 <= t < srcs.len() ==> copied_from(#[trigger] dones[t], srcs[t])
}

/// Each table of the source has distinct ids, and no more than fit in memory.
pub open spec fn sources_fit(srcs: Seq<Seq<String>>) -> bool {
    forall|t: int|
        0 <= t < srcs.len() ==> distinct_ids(#[trigger] srcs[t]) && srcs[t].len() <= usize::MAX
}

proof fn lemma_planned_ids(src: Seq<String>, done: Seq<String>, m: int)
    requires
        distinct_ids(src),
        src.len() <= usize::MAX,
        0 <= m <= missing_ids(src, done, src.len() as int).len(),
    ensures
        ({
            let pl = planned_ids(src, missing_ids(src, done, src.len() as int).take(m));
            &&& distinct_ids(pl)
            &&& forall|k: int| 0 <= k < pl.len() ==> id_in(#[trigger] pl[k], src) && !id_in(pl[k], done)
        }),
{
    let all = missing_ids(src, done, src.len() as int);
    lemma_missing_ids(src, done, src.len() as int);
    let plan = all.take(m);
    let pl = planned_ids(src, plan);
    assert forall|k: int| 0 <= k < pl.len() implies id_in(#[trigger] pl[k], src) && !id_in(pl[k], done) by {
        assert(plan[k] == all[k]);
        assert(pl[k] == src[all[k] as int]);
    }
    assert forall|i: int, j: int| 0 <= i < j < pl.len() implies pl[i]@ != pl[j]@ by {
        assert(plan[i] == all[i] && plan[j] == all[j]);
        assert(all[i] < all[j]);
    }
}

/// A table step keeps the destination's ids copied from the source.
proof fn lemma_step_keeps(src: Seq<String>, done: Seq<String>, budget: Option<usize>)
    requires
        distinct_ids(src),
        src.len() <= usize::MAX,
        copied_from(done, src),
    ensures
        copied_from(table_step(src, done, budget).0, src),
{
    if src.len() != done.len() {
        let all = missing_ids(src, done, src.len() as int);
        let plan = copy_plan(src, done, budget);
        assert(plan == all.take(plan.len() as int));
        lemma_planned_ids(src, done, plan.len() as int);
        let pl = planned_ids(src, plan);
        let nd = done + pl;
        assert forall|i: int| 0 <= i < nd.len() implies id_in(#[trigger] nd[i], src) by {
            if i >= done.len() {
                assert(nd[i] == pl[i - done.len()]);
            }
        }
        assert forall|i: int, j: int| 0 <= i < j < nd.len() implies nd[i]@ != nd[j]@ by {
            if j >= done.len() {
                assert(nd[j] == pl[j - done.len()]);
                if i >= done.len() {
                    assert(nd[i] == pl[i - done.len()]);
                } else {
                    assert(!id_in(pl[j - done.len()], done));
                }
            }
        }
    }
}

/// Destination ids copied from the source, as many as the source's, are
/// all of the source's ids.
proof fn lemma_as_many_is_all(src: Seq<String>, done: Seq<String>)
    requires
        distinct_ids(src),
        copied_from(done, src),
        src.len() == done.len(),
    ensures
        same_ids(done, src),
{
    let vs = src.map_values(|s: String| s@);
    let vd = done.map_values(|s: String| s@);
    assert(vs.no_duplicates());
    assert(vd.no_duplicates());
    vs.unique_seq_to_set();
    vd.unique_seq_to_set();
    assert(vd.to_set().subset_of(vs.to_set())) by {
        assert forall|x: Seq<char>| vd.to_set().contains(x) implies vs.to_set().contains(x) by {
            let i = choose|i: int| 0 <= i < vd.len() && vd[i] == x;
            assert(id_in(done[i], src));
            let j = choose|j: int| 0 <= j < src.len() && src[j]@ == done[i]@;
            assert(vs[j] == x);
        }
    }
    vstd::seq_lib::seq_to_set_is_finite(vs);
    vstd::seq_lib::seq_to_set_is_finite(vd);
    vstd::set_lib::lemma_subset_equality(vd.to_set(), vs.to_set());
    assert forall|x: String| id_in(x, done) <==> id_in(x, src) by {
        if id_in(x, src) {
            let j = choose|j: int| 0 <= j < src.len() && src[j]@ == x@;
            assert(vs[j] == x@);
            assert(vs.to_set().contains(x@));
            assert(vd.to_set().contains(x@));
            let i = choose|i: int| 0 <= i < vd.len() && vd[i] == x@;
            assert(done[i]@ == x@);
        }
        if id_in(x, done) {
            let i = choose|i: int| 0 <= i < done.len() && done[i]@ == x@;
            assert(id_in(done[i], src));
        }
    }
}

/// A table step without a limit leaves the destination with exactly the
/// source's ids.
proof fn lemma_step_completes(src: Seq<String>, done: Seq<String>)
    requires
        distinct_ids(src),
        src.len() <= usize::MAX,
        copied_from(done, src),
    ensures
        same_ids(table_step(src, done, None).0, src),
        table_step(src, done, None).1 is None,
{
    if src.len() == done.len() {
        lemma_as_many_is_all(src, done);
    } else {
        let all = missing_ids(src, done, src.len() as int);
        lemma_missing_ids(src, done, src.len() as int);
        let pl = planned_ids(src, all);
        let nd = done + pl;
        assert(table_step(src, done, None).0 == nd);
        assert forall|x: String| id_in(x, nd) <==> id_in(x, src) by {
            if id_in(x, src) {
                let j = choose|j: int| 0 <= j < src.len() && src[j]@ == x@;
                if id_in(src[j], done) {
                    let i = choose|i: int| 0 <= i < done.len() && done[i]@ == src[j]@;
                    assert(nd[i] == done[i]);
                } else {
                    assert(all.contains(j as usize));
                    let k = choose|k: int| 0 <= k < all.len() && all[k] == j as usize;
                    assert(nd[done.len() + k] == src[j]);
                }
            }
            if id_in(x, nd) {
                let i = choose|i: int| 0 <= i < nd.len() && nd[i]@ == x@;
                if i < done.len() {
                    assert(id_in(done[i], src));
                    let j = choose|j: int| 0 <= j < src.len() && src[j]@ == done[i]@;
                } else {
                    let k = i - done.len();
                    assert(nd[i] == src[all[k] as int]);
                }
            }
        }
    }
}

/// One run, whatever its budget, keeps every table's destination ids copied
/// from its source.
pub proof fn lemma_run_keeps(srcs: Seq<Seq<String>>, dones: Seq<Seq<String>>, budget: Option<usize>)
    requires
        sources_fit(srcs),
        all_copied_from(dones, srcs),
    ensures
        all_copied_from(repack_run(srcs, dones, budget), srcs),
    decreases srcs.len(),
{
    if srcs.len() > 0 {
        let step = table_step(srcs[0], dones[0], budget);
        lemma_step_keeps(srcs[0], dones[0], budget);
        let rs = srcs.drop_first();
        let rd = dones.drop_first();
        assert(sources_fit(rs)) by {
            assert forall|t: int| 0 <= t < rs.len() implies distinct_ids(#[trigger] rs[t]) && rs[t].len()
                <= usize::MAX by {
                assert(rs[t] == srcs[t + 1]);
            }
        }
        assert(all_copied_from(rd, rs)) by {
            assert forall|t: int| 0 <= t < rs.len() implies copied_from(#[trigger] rd[t], rs[t]) by {
                assert(rd[t] == dones[t + 1]);
                assert(rs[t] == srcs[t + 1]);
            }
        }
        lemma_run_keeps(rs, rd, step.1);
        let out = repack_run(srcs, dones, budget);
        let rest = repack_run(rs, rd, step.1);
        assert(out == seq![step.0] + rest);
        assert forall|t: int| 0 <= t < srcs.len() implies copied_from(#[trigger] out[t], srcs[t]) by {
            if t > 0 {
                assert(out[t] == rest[t - 1]);
                assert(rs[t - 1] == srcs[t]);
            }
        }
    }
}

/// A run without a limit leaves every table's destination with exactly the
/// source's ids.
pub proof fn lemma_run_completes(srcs: Seq<Seq<String>>, dones: Seq<Seq<String>>)
    requires
        sources_fit(srcs),
        all_copied_from(dones, srcs),
    ensures
        repack_run(srcs, dones, None).len() == srcs.len(),
        forall|t: int| 0 <= t < srcs.len() ==> same_ids(#[trigger] repack_run(srcs, dones, None)[t], srcs[t]),
    decreases srcs.len(),
{
    if srcs.len() > 0 {
        lemma_step_completes(srcs[0], dones[0]);
        let rs = srcs.drop_first();
        let rd = dones.drop_first();
        assert(sources_fit(rs)) by {
            assert forall|t: int| 0 <= t < rs.len() implies distinct_ids(#[trigger] rs[t]) && rs[t].len()
                <= usize::MAX by {
                assert(rs[t] == srcs[t + 1]);
            }
        }
        assert(all_copied_from(rd, rs)) by {
            assert forall|t: int| 0 <= t < rs.len() implies copied_from(#[trigger] rd[t], rs[t]) by {
                assert(rd[t] == dones[t + 1]);
                assert(rs[t] == srcs[t + 1]);
            }
        }
        lemma_run_completes(rs, rd);
        let step = table_step(srcs[0], dones[0], None);
        let out = repack_run(srcs, dones, None);
        let rest = repack_run(rs, rd, None);
        assert(out == seq![step.0] + rest);
        assert forall|t: int| 0 <= t < srcs.len() implies same_ids(#[trigger] out[t], srcs[t]) by {
            if t > 0 {
                assert(out[t] == rest[t - 1]);
                assert(rs[t - 1] == srcs[t]);
            }
        }
    }
}

/// Runs with any limits keep every table's destination ids copied from its
/// source.
proof fn lemma_runs_keep(srcs: Seq<Seq<String>>, dones: Seq<Seq<String>>, limits: Seq<usize>)
    requires
        sources_fit(srcs),
        all_copied_from(dones, srcs),
    ensures
        all_copied_from(after_runs(srcs, dones, limits), srcs),
    decreases limits.len(),
{
    if limits.len() > 0 {
        lemma_run_keeps(srcs, dones, Some(limits[0]));
        lemma_runs_keep(srcs, repack_run(srcs, dones, Some(limits[0])), limits.drop_first());
    }
}

/// A copy cut off by limits resumes where it stopped: into a destination that
/// started empty, any runs with limits followed by one run without a limit
/// leave each table with exactly the source's ids, as one run without a limit
/// into an empty destination does.
pub proof fn lemma_repack_resumes(srcs: Seq<Seq<String>>, limits: Seq<usize>)
    requires
        sources_fit(srcs),
    ensures
        ({
            let empty = Seq::new(srcs.len(), |t: int| Seq::<String>::empty());
            let last = repack_run(srcs, after_runs(srcs, empty, limits), None);
            &&& last.len() == srcs.len()
            &&& forall|t: int| 0 <= t < srcs.len() ==> same_ids(#[trigger] last[t], srcs[t])
            &&& forall|t: int| 0 <= t < srcs.len() ==> same_ids(last[t], #[trigger] repack_run(srcs, empty, None)[t])
        }),
{
    let empty = Seq::new(srcs.len(), |t: int| Seq::<String>::empty());
    assert(all_copied_from(empty, srcs)) by {
        assert forall|t: int| 0 <= t < srcs.len() implies copied_from(#[trigger] empty[t], srcs[t]) by {
            assert(empty[t].len() == 0);
        }
    }
    lemma_runs_keep(srcs, empty, limits);
    lemma_run_completes(srcs, after_runs(srcs, empty, limits));
    lemma_run_completes(srcs, empty);
    let last = repack_run(srcs, after_runs(srcs, empty, limits), None);
    let fresh = repack_run(srcs, empty, None);
    assert forall|t: int| 0 <= t < srcs.len() implies same_ids(last[t], #[trigger] fresh[t]) by {
        assert(same_ids(last[t], srcs[t]));
        assert(same_ids(fresh[t], srcs[t]));
    }
}

} // verus!
