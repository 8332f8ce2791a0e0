//! Character-level text operations that the rest of the library is built on.
//!
//! Strings are modelled by their view, a `Seq<char>`; every operation here is
//! stated over that view.

use vstd::prelude::*;

verus! {

/// `p` occurs in `s` starting at character index `i`.
pub open spec fn occurs_at(s: Seq<char>, p: Seq<char>, i: int) -> bool {
    &&& 0 <= i
    &&& i + p.len() <= s.len()
    &&& s.subrange(i, i + p.len()) == p
}

/// `s` contains `p` as a contiguous run of characters.
pub open spec fn contains_seq(s: Seq<char>, p: Seq<char>) -> bool {
    exists|i: int| occurs_at(s, p, i)
}

/// `s` begins with `p`.
pub open spec fn has_prefix(s: Seq<char>, p: Seq<char>) -> bool {
    occurs_at(s, p, 0)
}

/// `s` ends with `p`.
pub open spec fn has_suffix(s: Seq<char>, p: Seq<char>) -> bool {
    p.len() <= s.len() && occurs_at(s, p, s.len() - p.len())
}

/// Every non-overlapping occurrence of `pat` in `s`, found from the left,
/// replaced by `rep` (the meaning of `str::replace` for a non-empty pattern).
pub open spec fn replace_all(s: Seq<char>, pat: Seq<char>, rep: Seq<char>) -> Seq<char>
    decreases s.len(),
{
    if pat.len() == 0 || s.len() < pat.len() {
        s
    } else if s.subrange(0, pat.len() as int) == pat {
        rep + replace_all(s.subrange(pat.len() as int, s.len() as int), pat, rep)
    } else {
        seq![s[0]] + replace_all(s.drop_first(), pat, rep)
    }
}

/// The characters of `s`, in order.
pub(crate) fn chars_of(s: &str) -> (res: Vec<char>)
    ensures
        res@ == s@,
{
    let mut v: Vec<char> = Vec::new();
    for c in it: s.chars()
        invariant
            v@ == it.seq().take(it.index() as int),
    {
        v.push(c);
    }
    v
}

/// Appends one character to `s`.
#[verifier::external_body]
pub(crate) fn push_char(s: &mut String, c: char)
    ensures
        final(s)@ == old(s)@.push(c),
{
    s.push(c);
}

/// Appends the characters `cs[from..to]` to `out`.
pub(crate) fn push_range(out: &mut String, cs: &Vec<char>, from: usize, to: usize)
    requires
        from <= to <= cs.len(),
    ensures
        final(out)@ == old(out)@ + cs@.subrange(from as int, to as int),
{
    let mut i = from;
    while i < to
        invariant
            from <= i <= to <= cs.len(),
            out@ == old(out)@ + cs@.subrange(from as int, i as int),
        decreases to - i,
    {
        push_char(out, cs[i]);
        proof {
            assert(cs@.subrange(from as int, i + 1) == cs@.subrange(from as int, i as int).push(
                cs@[i as int],
            ));
        }
        i = i + 1;
    }
}

/// Appends all of `cs` to `out`.
pub(crate) fn push_all(out: &mut String, cs: &Vec<char>)
    ensures
        final(out)@ == old(out)@ + cs@,
{
    push_range(out, cs, 0, cs.len());
    proof {
        assert(cs@.subrange(0, cs@.len() as int) == cs@);
    }
}

/// Appends the characters of `s` to `out`.
pub(crate) fn push_str(out: &mut String, s: &str)
    ensures
        final(out)@ == old(out)@ + s@,
{
    let cs = chars_of(s);
    push_all(out, &cs);
}

/// A string made of the characters `cs[from..to]`.
pub(crate) fn string_of_range(cs: &Vec<char>, from: usize, to: usize) -> (res: String)
    requires
        from <= to <= cs.len(),
    ensures
        res@ == cs@.subrange(from as int, to as int),
{
    let mut out = String::new();
    push_range(&mut out, cs, from, to);
    out
}

/// A copy of `s`.
pub(crate) fn copy_str(s: &str) -> (res: String)
    ensures
        res@ == s@,
{
    let mut out = String::new();
    push_str(&mut out, s);
    out
}

/// Whether `p` occurs in `s` at character index `i`.
pub(crate) fn matches_at(s: &Vec<char>, p: &Vec<char>, i: usize) -> (res: bool)
    ensures
        res == occurs_at(s@, p@, i as int),
{
    if i > s.len() || p.len() > s.len() - i {
        return false;
    }
    let mut j: usize = 0;
    while j < p.len()
        invariant
            i + p.len() <= s.len(),
            j <= p.len(),
            forall|k: int| 0 <= k < j ==> s@[i + k] == p@[k],
        decreases p.len() - j,
    {
        if s[i + j] != p[j] {
            assert(s@.subrange(i as int, i + p.len())[j as int] != p@[j as int]);
            return false;
        }
        j = j + 1;
    }
    assert(s@.subrange(i as int, i + p.len()) =~= p@);
    true
}

/// Whether two strings hold the same characters.
pub fn same_text(a: &str, b: &str) -> (res: bool)
    ensures
        res == (a@ == b@),
{
    let x = chars_of(a);
    let y = chars_of(b);
    if x.len() != y.len() {
        return false;
    }
    let r = matches_at(&x, &y, 0);
    proof {
        assert(x@.subrange(0, y@.len() as int) == x@);
    }
    r
}

/// Whether `s` begins with `p`.
pub fn starts_with(s: &str, p: &str) -> (res: bool)
    ensures
        res == has_prefix(s@, p@),
{
    let x = chars_of(s);
    let y = chars_of(p);
    matches_at(&x, &y, 0)
}

/// Whether `s` ends with `p`.
pub fn ends_with(s: &str, p: &str) -> (res: bool)
    ensures
        res == has_suffix(s@, p@),
{
    let x = chars_of(s);
    let y = chars_of(p);
    if y.len() > x.len() {
        return false;
    }
    matches_at(&x, &y, x.len() - y.len())
}

/// Whether `p` occurs anywhere in `s`.
pub fn contains(s: &str, p: &str) -> (res: bool)
    ensures
        res == contains_seq(s@, p@),
{
    let x = chars_of(s);
    let y = chars_of(p);
    if y.len() > x.len() {
        proof {
            assert forall|i: int| !occurs_at(x@, y@, i) by {}
        }
        return false;
    }
    let last = x.len() - y.len();
    let mut i: usize = 0;
    loop
        invariant
            y.len() <= x.len(),
            last == x.len() - y.len(),
            x@ == s@,
            y@ == p@,
            i <= last,
            forall|k: int| 0 <= k < i ==> !occurs_at(x@, y@, k),
        decreases last - i,
    {
        if matches_at(&x, &y, i) {
            assert(occurs_at(x@, y@, i as int));
            return true;
        }
        if i == last {
            proof {
                assert forall|k: int| !occurs_at(x@, y@, k) by {
                    if 0 <= k < i {
                    }
                }
            }
            return false;
        }
        i = i + 1;
    }
}

/// Unfolds `replace_all` at an interior position of `s`.
proof fn lemma_replace_all_step(s: Seq<char>, pat: Seq<char>, rep: Seq<char>, i: int)
    requires
        pat.len() > 0,
        0 <= i < s.len(),
    ensures
        occurs_at(s, pat, i) ==> replace_all(s.subrange(i, s.len() as int), pat, rep) == rep
            + replace_all(s.subrange(i + pat.len(), s.len() as int), pat, rep),
        !occurs_at(s, pat, i) ==> replace_all(s.subrange(i, s.len() as int), pat, rep) == seq![
            s[i],
        ] + replace_all(s.subrange(i + 1, s.len() as int), pat, rep),
{
    let t = s.subrange(i, s.len() as int);
    if t.len() < pat.len() {
        assert(!occurs_at(s, pat, i));
        assert(t.subrange(0, t.len() as int) == t);
        assert(replace_all(t, pat, rep) == t);
        assert(t.drop_first() == s.subrange(i + 1, s.len() as int));
        lemma_replace_all_short(t.drop_first(), pat, rep);
        assert(t == seq![s[i]] + t.drop_first());
    } else {
        assert(t.subrange(0, pat.len() as int) == s.subrange(i, i + pat.len()));
        assert(t.subrange(pat.len() as int, t.len() as int) == s.subrange(
            i + pat.len(),
            s.len() as int,
        ));
        assert(t.drop_first() == s.subrange(i + 1, s.len() as int));
    }
}

/// A sequence shorter than the pattern is left as it is.
proof fn lemma_replace_all_short(s: Seq<char>, pat: Seq<char>, rep: Seq<char>)
    requires
        s.len() < pat.len(),
    ensures
        replace_all(s, pat, rep) == s,
{
}

/// `s` with every non-overlapping occurrence of `pat`, found from the left,
/// replaced by `rep`.
pub fn replace_str(s: &str, pat: &str, rep: &str) -> (res: String)
    requires
        pat@.len() > 0,
    ensures
        res@ == replace_all(s@, pat@, rep@),
{
    let x = chars_of(s);
    let p = chars_of(pat);
    let r = chars_of(rep);
    let mut out = String::new();
    let mut i: usize = 0;
    proof {
        assert(x@.subrange(0, x@.len() as int) == x@);
    }
    while i < x.len()
        invariant
            p@.len() > 0,
            i <= x.len(),
            out@ + replace_all(x@.subrange(i as int, x@.len() as int), p@, r@) == replace_all(
                x@,
                p@,
                r@,
            ),
        decreases x.len() - i,
    {
        proof {
            lemma_replace_all_step(x@, p@, r@, i as int);
        }
        if matches_at(&x, &p, i) {
            push_all(&mut out, &r);
            i = i + p.len();
        } else {
            push_char(&mut out, x[i]);
            i = i + 1;
        }
    }
    proof {
        assert(x@.subrange(0, x@.len() as int) == x@);
        assert(x@.subrange(i as int, x@.len() as int) == Seq::<char>::empty());
    }
    out
}


// ── Unicode white space ──────────────────────────────────────────────────────

/// A character with the Unicode `White_Space` property (what
/// `char::is_whitespace` tests).
pub open spec fn is_white_space(c: char) -> bool {
    let u = c as u32;
    ||| 9 <= u <= 13
    ||| u == 32
    ||| u == 0x85
    ||| u == 0xa0
    ||| u == 0x1680
    ||| 0x2000 <= u <= 0x200a
    ||| u == 0x2028
    ||| u == 0x2029
    ||| u == 0x202f
    ||| u == 0x205f
    ||| u == 0x3000
}

pub fn white_space(c: char) -> (res: bool)
    ensures
        res == is_white_space(c),
{
    let u = c as u32;
    (9 <= u && u <= 13) || u == 32 || u == 0x85 || u == 0xa0 || u == 0x1680 || (0x2000 <= u && u
        <= 0x200a) || u == 0x2028 || u == 0x2029 || u == 0x202f || u == 0x205f || u == 0x3000
}

/// The number of white-space characters at the start of `s`.
pub open spec fn leading_ws(s: Seq<char>) -> nat
    decreases s.len(),
{
    if s.len() == 0 {
        0
    } else if is_white_space(s[0]) {
        1 + leading_ws(s.drop_first())
    } else {
        0
    }
}

/// The number of non-white-space characters at the start of `s`.
pub open spec fn leading_word(s: Seq<char>) -> nat
    decreases s.len(),
{
    if s.len() == 0 {
        0
    } else if !is_white_space(s[0]) {
        1 + leading_word(s.drop_first())
    } else {
        0
    }
}

/// The number of white-space characters at the end of `s`.
pub open spec fn trailing_ws(s: Seq<char>) -> nat
    decreases s.len(),
{
    if s.len() == 0 {
        0
    } else if is_white_space(s.last()) {
        1 + trailing_ws(s.drop_last())
    } else {
        0
    }
}

pub proof fn lemma_leading_ws_bound(s: Seq<char>)
    ensures
        leading_ws(s) <= s.len(),
        leading_ws(s) < s.len() ==> !is_white_space(s[leading_ws(s) as int]),
        forall|k: int| 0 <= k < leading_ws(s) ==> is_white_space(#[trigger] s[k]),
    decreases s.len(),
{
    if s.len() > 0 && is_white_space(s[0]) {
        lemma_leading_ws_bound(s.drop_first());
        assert forall|k: int| 0 <= k < leading_ws(s) implies is_white_space(#[trigger] s[k]) by {
            if k > 0 {
                assert(s[k] == s.drop_first()[k - 1]);
            }
        }
    }
}

pub proof fn lemma_leading_word_bound(s: Seq<char>)
    ensures
        leading_word(s) <= s.len(),
        s.len() > 0 && !is_white_space(s[0]) ==> leading_word(s) >= 1,
        leading_word(s) < s.len() ==> is_white_space(s[leading_word(s) as int]),
        forall|k: int| 0 <= k < leading_word(s) ==> !is_white_space(#[trigger] s[k]),
    decreases s.len(),
{
    if s.len() > 0 && !is_white_space(s[0]) {
        lemma_leading_word_bound(s.drop_first());
        assert forall|k: int| 0 <= k < leading_word(s) implies !is_white_space(#[trigger] s[k]) by {
            if k > 0 {
                assert(s[k] == s.drop_first()[k - 1]);
            }
        }
    }
}

pub proof fn lemma_trailing_ws_bound(s: Seq<char>)
    ensures
        trailing_ws(s) <= s.len(),
        trailing_ws(s) < s.len() ==> !is_white_space(s[s.len() - 1 - trailing_ws(s)]),
        forall|k: int| s.len() - trailing_ws(s) <= k < s.len() ==> is_white_space(#[trigger] s[k]),
    decreases s.len(),
{
    if s.len() > 0 && is_white_space(s.last()) {
        lemma_trailing_ws_bound(s.drop_last());
        assert forall|k: int| s.len() - trailing_ws(s) <= k < s.len() implies is_white_space(
            #[trigger] s[k],
        ) by {
            if k < s.len() - 1 {
                assert(s[k] == s.drop_last()[k]);
            }
        }
    }
}

/// `s` without its leading and trailing white space (what `str::trim` gives).
pub open spec fn trim_ws(s: Seq<char>) -> Seq<char> {
    let a = leading_ws(s);
    if a >= s.len() {
        Seq::empty()
    } else {
        s.subrange(a as int, s.len() - trailing_ws(s))
    }
}

/// The words of `s`: its maximal runs of non-white-space characters, in order
/// (what `str::split_whitespace` yields).
pub open spec fn words(s: Seq<char>) -> Seq<Seq<char>>
    decreases s.len(),
{
    let a = leading_ws(s);
    if a >= s.len() {
        Seq::empty()
    } else {
        let t = s.skip(a as int);
        let b = leading_word(t);
        proof {
            lemma_leading_ws_bound(s);
            lemma_leading_word_bound(t);
        }
        seq![t.take(b as int)] + words(t.skip(b as int))
    }
}

/// Each of `ws` preceded by one space, concatenated.
pub open spec fn spaced(ws: Seq<Seq<char>>) -> Seq<char>
    decreases ws.len(),
{
    if ws.len() == 0 {
        Seq::empty()
    } else {
        seq![' '] + ws[0] + spaced(ws.drop_first())
    }
}

/// `ws` joined with single spaces.
pub open spec fn join_words(ws: Seq<Seq<char>>) -> Seq<char> {
    if ws.len() == 0 {
        Seq::empty()
    } else {
        ws[0] + spaced(ws.drop_first())
    }
}

/// The words of `s` joined with single spaces.
pub open spec fn collapse_ws(s: Seq<char>) -> Seq<char> {
    join_words(words(s))
}

/// A leading white-space character does not change the words.
proof fn lemma_words_skip_ws(s: Seq<char>)
    requires
        s.len() > 0,
        is_white_space(s[0]),
    ensures
        words(s) == words(s.drop_first()),
{
    let d = s.drop_first();
    assert(leading_ws(s) == 1 + leading_ws(d));
    lemma_leading_ws_bound(d);
    if leading_ws(d) < d.len() {
        assert(s.skip(leading_ws(s) as int) == d.skip(leading_ws(d) as int));
    }
}

/// A word at the start of `s` is the first word.
proof fn lemma_words_take_word(s: Seq<char>)
    requires
        s.len() > 0,
        !is_white_space(s[0]),
    ensures
        words(s) == seq![s.take(leading_word(s) as int)] + words(s.skip(leading_word(s) as int)),
{
    assert(leading_ws(s) == 0);
    assert(s.skip(0) == s);
}

/// A word: non-empty, without white space.
pub open spec fn is_word(w: Seq<char>) -> bool {
    w.len() > 0 && forall|i: int| 0 <= i < w.len() ==> !is_white_space(#[trigger] w[i])
}

proof fn lemma_leading_word_concat(w: Seq<char>, t: Seq<char>)
    requires
        forall|i: int| 0 <= i < w.len() ==> !is_white_space(#[trigger] w[i]),
        t.len() == 0 || is_white_space(t[0]),
    ensures
        leading_word(w + t) == w.len(),
    decreases w.len(),
{
    if w.len() == 0 {
        assert(w + t == t);
    } else {
        assert((w + t)[0] == w[0]);
        assert((w + t).drop_first() == w.drop_first() + t);
        assert forall|i: int| 0 <= i < w.drop_first().len() implies !is_white_space(
            #[trigger] w.drop_first()[i],
        ) by {
            assert(w.drop_first()[i] == w[i + 1]);
        }
        lemma_leading_word_concat(w.drop_first(), t);
    }
}

proof fn lemma_words_word_then(w: Seq<char>, t: Seq<char>)
    requires
        is_word(w),
        t.len() == 0 || is_white_space(t[0]),
    ensures
        words(w + t) == seq![w] + words(t),
{
    let s = w + t;
    assert(s[0] == w[0]);
    lemma_words_take_word(s);
    lemma_leading_word_concat(w, t);
    assert(s.take(w.len() as int) == w);
    assert(s.skip(w.len() as int) == t);
}

proof fn lemma_words_spaced(ws: Seq<Seq<char>>)
    requires
        forall|i: int| 0 <= i < ws.len() ==> is_word(#[trigger] ws[i]),
    ensures
        words(spaced(ws)) == ws,
    decreases ws.len(),
{
    if ws.len() == 0 {
        assert(leading_ws(Seq::<char>::empty()) == 0);
    } else {
        let rest = ws.drop_first();
        assert forall|i: int| 0 <= i < rest.len() implies is_word(#[trigger] rest[i]) by {
            assert(rest[i] == ws[i + 1]);
        }
        lemma_words_spaced(rest);
        let x = ws[0] + spaced(rest);
        let s = spaced(ws);
        assert(s == seq![' '] + x);
        assert(s[0] == ' ');
        assert(s.drop_first() == x);
        lemma_words_skip_ws(s);
        assert(is_word(ws[0]));
        if rest.len() > 0 {
            assert(spaced(rest)[0] == ' ');
        }
        lemma_words_word_then(ws[0], spaced(rest));
        assert(seq![ws[0]] + rest == ws);
    }
}

proof fn lemma_words_are_words(s: Seq<char>)
    ensures
        forall|i: int| 0 <= i < words(s).len() ==> is_word(#[trigger] words(s)[i]),
    decreases s.len(),
{
    let a = leading_ws(s);
    lemma_leading_ws_bound(s);
    if a < s.len() {
        let t = s.skip(a as int);
        let b = leading_word(t);
        lemma_leading_word_bound(t);
        assert(t[0] == s[a as int]);
        lemma_words_are_words(t.skip(b as int));
        let w = t.take(b as int);
        assert forall|k: int| 0 <= k < w.len() implies !is_white_space(#[trigger] w[k]) by {
            assert(w[k] == t[k]);
        }
        let r = words(t.skip(b as int));
        assert(words(s) == seq![w] + r);
        assert forall|i: int| 0 <= i < words(s).len() implies is_word(#[trigger] words(s)[i]) by {
            if i > 0 {
                assert(words(s)[i] == r[i - 1]);
            }
        }
    }
}

/// Collapsing white space twice is collapsing it once: text that has been
/// cleaned is left as it is.
pub proof fn lemma_collapse_ws_idempotent(s: Seq<char>)
    ensures
        collapse_ws(collapse_ws(s)) == collapse_ws(s),
{
    let ws = words(s);
    lemma_words_are_words(s);
    if ws.len() == 0 {
        assert(collapse_ws(s) == Seq::<char>::empty());
        assert(leading_ws(Seq::<char>::empty()) == 0);
    } else {
        let rest = ws.drop_first();
        assert forall|i: int| 0 <= i < rest.len() implies is_word(#[trigger] rest[i]) by {
            assert(rest[i] == ws[i + 1]);
        }
        lemma_words_spaced(rest);
        if rest.len() > 0 {
            assert(spaced(rest)[0] == ' ');
        }
        assert(is_word(ws[0]));
        lemma_words_word_then(ws[0], spaced(rest));
        assert(seq![ws[0]] + rest == ws);
    }
}

/// `trim_ws(s)`, as a new string.
pub fn trim(s: &str) -> (res: String)
    ensures
        res@ == trim_ws(s@),
{
    let x = chars_of(s);
    let mut a: usize = 0;
    proof {
        assert(x@.skip(0) == x@);
    }
    while a < x.len() && white_space(x[a])
        invariant
            a <= x.len(),
            x@ == s@,
            leading_ws(x@) == a + leading_ws(x@.skip(a as int)),
        decreases x.len() - a,
    {
        proof {
            assert(x@.skip(a as int).drop_first() == x@.skip(a + 1));
        }
        a = a + 1;
    }
    proof {
        if a < x.len() {
            assert(x@.skip(a as int)[0] == x@[a as int]);
        }
        assert(leading_ws(x@.skip(a as int)) == 0);
    }
    if a == x.len() {
        return String::new();
    }
    let mut z: usize = x.len();
    proof {
        assert(x@.take(x.len() as int) == x@);
    }
    while white_space(x[z - 1])
        invariant
            a < x.len(),
            a < z <= x.len(),
            x@ == s@,
            !is_white_space(x@[a as int]),
            trailing_ws(x@) == (x.len() - z) + trailing_ws(x@.take(z as int)),
        decreases z,
    {
        proof {
            assert(x@.take(z as int).drop_last() == x@.take(z - 1));
        }
        z = z - 1;
    }
    proof {
        assert(x@.take(z as int).last() == x@[z - 1]);
        assert(trailing_ws(x@.take(z as int)) == 0);
    }
    string_of_range(&x, a, z)
}

/// The words of `s` joined with single spaces
/// (`s.split_whitespace().collect::<Vec<_>>().join(" ")`).
pub fn collapse_white_space(s: &str) -> (res: String)
    ensures
        res@ == collapse_ws(s@),
{
    let x = chars_of(s);
    let mut out = String::new();
    let mut started = false;
    let mut i: usize = 0;
    proof {
        assert(x@.skip(0) == x@);
    }
    while i < x.len()
        invariant
            i <= x.len(),
            x@ == s@,
            started == (out@.len() > 0),
            out@.len() == 0 ==> words(x@) == words(x@.skip(i as int)),
            out@.len() > 0 ==> collapse_ws(x@) == out@ + spaced(words(x@.skip(i as int))),
        decreases x.len() - i,
    {
        if white_space(x[i]) {
            proof {
                assert(x@.skip(i as int)[0] == x@[i as int]);
                lemma_words_skip_ws(x@.skip(i as int));
                assert(x@.skip(i as int).drop_first() == x@.skip(i + 1));
            }
            i = i + 1;
        } else {
            let ghost t = x@.skip(i as int);
            let mut j = i;
            while j < x.len() && !white_space(x[j])
                invariant
                    i <= j <= x.len(),
                    t == x@.skip(i as int),
                    leading_word(t) == (j - i) + leading_word(x@.skip(j as int)),
                decreases x.len() - j,
            {
                proof {
                    assert(x@.skip(j as int).drop_first() == x@.skip(j + 1));
                }
                j = j + 1;
            }
            proof {
                if j < x.len() {
                    assert(x@.skip(j as int)[0] == x@[j as int]);
                }
                assert(leading_word(x@.skip(j as int)) == 0);
                assert(t[0] == x@[i as int]);
                lemma_words_take_word(t);
                assert(t.take((j - i) as int) == x@.subrange(i as int, j as int));
                assert(t.skip((j - i) as int) == x@.skip(j as int));
                let w = x@.subrange(i as int, j as int);
                let rest = words(x@.skip(j as int));
                assert(words(t) == seq![w] + rest);
                assert((seq![w] + rest).drop_first() == rest);
                assert((seq![w] + rest)[0] == w);
            }
            let ghost before = out@;
            if started {
                push_char(&mut out, ' ');
            }
            push_range(&mut out, &x, i, j);
            started = true;
            proof {
                if before.len() > 0 {
                    assert(out@ == before + seq![' '] + x@.subrange(i as int, j as int));
                }
            }
            i = j;
        }
    }
    proof {
        assert(x@.skip(i as int) == Seq::<char>::empty());
        assert(leading_ws(Seq::<char>::empty()) == 0);
        assert(words(Seq::<char>::empty()) == Seq::<Seq<char>>::empty());
    }
    out
}


// ── Decimal numbers ─────────────────────────────────────────────────────────

/// The ASCII digit for `d` (0 ≤ d ≤ 9).
pub open spec fn digit_char(d: int) -> char {
    (d + 48) as char
}

/// The decimal digits of `n`, without leading zeros ("0" for zero).
pub open spec fn nat_text(n: nat) -> Seq<char>
    decreases n,
{
    if n < 10 {
        seq![digit_char(n as int)]
    } else {
        nat_text(n / 10).push(digit_char((n % 10) as int))
    }
}

/// The decimal text of `n` as `Display` writes it: a `-` before the digits
/// of a negative number.
pub open spec fn int_text(n: int) -> Seq<char> {
    if n < 0 {
        seq!['-'] + nat_text((-n) as nat)
    } else {
        nat_text(n as nat)
    }
}

/// The character for one decimal digit.
fn digit(d: u64) -> (c: char)
    requires
        d < 10,
    ensures
        c == digit_char(d as int),
{
    if d == 0 {
        '0'
    } else if d == 1 {
        '1'
    } else if d == 2 {
        '2'
    } else if d == 3 {
        '3'
    } else if d == 4 {
        '4'
    } else if d == 5 {
        '5'
    } else if d == 6 {
        '6'
    } else if d == 7 {
        '7'
    } else if d == 8 {
        '8'
    } else {
        '9'
    }
}

/// Appends the decimal digits of `n` to `out`.
fn push_nat(out: &mut String, n: u64)
    ensures
        final(out)@ == old(out)@ + nat_text(n as nat),
    decreases n,
{
    if n < 10 {
        push_char(out, digit(n));
    } else {
        push_nat(out, n / 10);
        push_char(out, digit(n % 10));
        proof {
            assert(old(out)@ + nat_text((n / 10) as nat) + seq![digit_char((n % 10) as int)] == old(
                out,
            )@ + nat_text(n as nat));
        }
    }
}

/// Appends the decimal text of `n` to `out`.
pub fn push_int(out: &mut String, n: i32)
    ensures
        final(out)@ == old(out)@ + int_text(n as int),
{
    if n < 0 {
        push_char(out, '-');
        let m: i64 = -(n as i64);
        push_nat(out, m as u64);
        proof {
            assert(old(out)@.push('-') + nat_text((-n) as nat) == old(out)@ + (seq!['-'] + nat_text(
                (-n) as nat,
            )));
        }
    } else {
        push_nat(out, n as u64);
    }
}

} // verus!
