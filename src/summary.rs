use vstd::prelude::*;
use crate::text::{
    chars_of, is_ws, join, join_chars, string_of, string_views, trim, trim_chars, trim_end,
    trim_start, views,
};

verus! {

/// The preamble that the summarization service tends to put before its answer.
pub const BOILERPLATE: &'static str = "Here are the key events summarized:";

/// `s` with every occurrence of `p` taken out, scanning left to right and
/// never letting two removed occurrences overlap.
pub open spec fn remove_all(s: Seq<char>, p: Seq<char>) -> Seq<char>
    decreases s.len(),
{
    if p.len() == 0 || s.len() < p.len() {
        s
    } else if s.take(p.len() as int) == p {
        remove_all(s.skip(p.len() as int), p)
    } else {
        seq![s[0]] + remove_all(s.drop_first(), p)
    }
}

/// `s` holds no occurrence of `p`.
pub open spec fn pattern_free(s: Seq<char>, p: Seq<char>) -> bool {
    forall|i: int| 0 <= i && i + p.len() <= s.len() ==> #[trigger] s.subrange(i, i + p.len()) != p
}

/// A raw summary with the boilerplate taken out and the rest trimmed.
pub open spec fn stripped(s: Seq<char>) -> Seq<char> {
    trim(remove_all(s, BOILERPLATE@))
}

/// The separator between two summaries: a blank line.
pub open spec fn summary_separator() -> Seq<char> {
    seq!['\n', '\n']
}

/// Where part `i` starts in `join(parts, sep)`.
pub open spec fn offset(parts: Seq<Seq<char>>, sep: Seq<char>, i: int) -> int
    decreases i,
{
    if i <= 0 {
        0
    } else {
        offset(parts, sep, i - 1) + parts[i - 1].len() + sep.len()
    }
}

proof fn lemma_remove_all_free(s: Seq<char>, p: Seq<char>)
    requires
        pattern_free(s, p),
    ensures
        remove_all(s, p) == s,
    decreases s.len(),
{
    if p.len() > 0 && s.len() >= p.len() {
        let z: int = 0;
        assert(s.subrange(z, z + p.len()) != p);
        assert(s.take(p.len() as int) == s.subrange(z, z + p.len()));
        let t = s.drop_first();
        assert forall|i: int| 0 <= i && i + p.len() <= t.len() implies #[trigger] t.subrange(
            i,
            i + p.len(),
        ) != p by {
            assert(t.subrange(i, i + p.len()) == s.subrange(i + 1, i + 1 + p.len()));
        }
        lemma_remove_all_free(t, p);
        assert(seq![s[0]] + t == s);
    }
}

proof fn lemma_pattern_free_sub(s: Seq<char>, p: Seq<char>, a: int, b: int)
    requires
        pattern_free(s, p),
        0 <= a <= b <= s.len(),
    ensures
        pattern_free(s.subrange(a, b), p),
{
    let t = s.subrange(a, b);
    assert forall|i: int| 0 <= i && i + p.len() <= t.len() implies #[trigger] t.subrange(
        i,
        i + p.len(),
    ) != p by {
        assert(t.subrange(i, i + p.len()) == s.subrange(a + i, a + i + p.len()));
    }
}

proof fn lemma_trim_start_skip(s: Seq<char>) -> (a: int)
    ensures
        0 <= a <= s.len(),
        trim_start(s) == s.skip(a),
        trim_start(s).len() == 0 || !is_ws(trim_start(s)[0]),
    decreases s.len(),
{
    if s.len() > 0 && is_ws(s[0]) {
        let a = lemma_trim_start_skip(s.drop_first());
        assert(s.drop_first().skip(a) == s.skip(a + 1));
        a + 1
    } else {
        assert(s.skip(0) == s);
        0
    }
}

proof fn lemma_trim_end_take(s: Seq<char>) -> (b: int)
    ensures
        0 <= b <= s.len(),
        trim_end(s) == s.take(b),
        trim_end(s).len() == 0 || !is_ws(trim_end(s).last()),
    decreases s.len(),
{
    if s.len() > 0 && is_ws(s.last()) {
        let b = lemma_trim_end_take(s.drop_last());
        assert(s.drop_last().take(b) == s.take(b));
        b
    } else {
        assert(s.take(s.len() as int) == s);
        s.len() as int
    }
}

/// Trimming twice is trimming once.
proof fn lemma_trim_idempotent(s: Seq<char>)
    ensures
        trim(trim(s)) == trim(s),
{
    let u = trim_start(s);
    lemma_trim_start_skip(s);
    let b = lemma_trim_end_take(u);
    let v = trim_end(u);
    if v.len() > 0 {
        assert(v[0] == u[0]);
    }
    assert(trim_start(v) == v);
    assert(trim_end(v) == v);
}

/// Stripping the boilerplate from an already stripped summary changes nothing,
/// provided that taking the boilerplate out once left none of it behind.
pub proof fn lemma_strip_idempotent(s: Seq<char>)
    requires
        pattern_free(remove_all(s, BOILERPLATE@), BOILERPLATE@),
    ensures
        stripped(stripped(s)) == stripped(s),
{
    let p = BOILERPLATE@;
    let r = remove_all(s, p);
    let a = lemma_trim_start_skip(r);
    let b = lemma_trim_end_take(trim_start(r));
    assert(trim(r) == r.subrange(a, a + b));
    lemma_pattern_free_sub(r, p, a, a + b);
    lemma_remove_all_free(trim(r), p);
    lemma_trim_idempotent(r);
}

proof fn lemma_offset_nonneg(parts: Seq<Seq<char>>, sep: Seq<char>, i: int)
    ensures
        offset(parts, sep, i) >= 0,
    decreases i,
{
    if i > 0 {
        lemma_offset_nonneg(parts, sep, i - 1);
    }
}

proof fn lemma_offset_prefix(parts: Seq<Seq<char>>, sep: Seq<char>, i: int)
    requires
        parts.len() > 0,
        0 <= i < parts.len(),
    ensures
        offset(parts.drop_last(), sep, i) == offset(parts, sep, i),
    decreases i,
{
    if i > 0 {
        lemma_offset_prefix(parts, sep, i - 1);
    }
}

proof fn lemma_join_len(parts: Seq<Seq<char>>, sep: Seq<char>)
    requires
        parts.len() > 0,
    ensures
        join(parts, sep).len() == offset(parts, sep, parts.len() - 1) + parts.last().len(),
    decreases parts.len(),
{
    if parts.len() > 1 {
        let init = parts.drop_last();
        lemma_join_len(init, sep);
        lemma_offset_prefix(parts, sep, parts.len() - 2);
    }
}

proof fn lemma_join_part(parts: Seq<Seq<char>>, sep: Seq<char>, i: int)
    requires
        0 <= i < parts.len(),
    ensures
        0 <= offset(parts, sep, i),
        offset(parts, sep, i) + parts[i].len() <= join(parts, sep).len(),
        join(parts, sep).subrange(offset(parts, sep, i), offset(parts, sep, i) + parts[i].len())
            == parts[i],
    decreases parts.len(),
{
    lemma_offset_nonneg(parts, sep, i);
    lemma_join_len(parts, sep);
    let o = offset(parts, sep, i);
    if parts.len() == 1 {
        assert(join(parts, sep).subrange(o, o + parts[i].len()) == parts[i]);
    } else {
        let init = parts.drop_last();
        let head = join(init, sep);
        let whole = join(parts, sep);
        let n = parts.len() - 1;
        assert(whole == head + sep + parts.last());
        if i < n {
            lemma_join_part(init, sep, i);
            lemma_offset_prefix(parts, sep, i);
            assert(init[i] == parts[i]);
            assert(whole.subrange(o, o + parts[i].len()) =~= head.subrange(o, o + parts[i].len()));
        } else {
            lemma_join_len(init, sep);
            lemma_offset_prefix(parts, sep, n - 1);
            assert(o == head.len() + sep.len());
            assert(whole.subrange(o, o + parts[i].len()) =~= parts.last());
        }
    }
}

/// The parts stand in `join(parts, sep)` in their order: part `i` is found at
/// `offset(parts, sep, i)`, and part `i + 1` starts after part `i` and one
/// separator.
pub proof fn lemma_join_keeps_order(parts: Seq<Seq<char>>, sep: Seq<char>)
    ensures
        forall|i: int|
            #![trigger offset(parts, sep, i)]
            0 <= i < parts.len() ==> 0 <= offset(parts, sep, i) && offset(parts, sep, i)
                + parts[i].len() <= join(parts, sep).len() && join(parts, sep).subrange(
                offset(parts, sep, i),
                offset(parts, sep, i) + parts[i].len(),
            ) == parts[i],
        forall|i: int|
            0 <= i && i + 1 < parts.len() ==> #[trigger] offset(parts, sep, i + 1) == offset(
                parts,
                sep,
                i,
            ) + parts[i].len() + sep.len(),
{
    assert forall|i: int| 0 <= i < parts.len() implies 0 <= #[trigger] offset(parts, sep, i)
        && offset(parts, sep, i) + parts[i].len() <= join(parts, sep).len() && join(
        parts,
        sep,
    ).subrange(offset(parts, sep, i), offset(parts, sep, i) + parts[i].len()) == parts[i] by {
        lemma_join_part(parts, sep, i);
    }
}

/// Whether `p` occurs in `s` at `i`.
fn occurs_at(s: &Vec<char>, p: &Vec<char>, i: usize) -> (r: bool)
    requires
        i + p@.len() <= s@.len(),
    ensures
        r == (s@.subrange(i as int, i + p@.len()) == p@),
{
    let n = s.len();
    let mut j: usize = 0;
    while j < p.len()
        invariant
            n == s@.len(),
            i + p@.len() <= s@.len(),
            j <= p@.len(),
            forall|k: int| 0 <= k < j ==> s@[i + k] == p@[k],
        decreases p.len() - j,
    {
        assert(i + j < s@.len());
        if s[i + j] != p[j] {
            assert(s@.subrange(i as int, i + p@.len())[j as int] != p@[j as int]);
            return false;
        }
        j = j + 1;
    }
    assert(s@.subrange(i as int, i + p@.len()) == p@);
    true
}

/// `s` with every occurrence of `p` taken out, left to right.
pub fn remove_occurrences(s: &Vec<char>, p: &Vec<char>) -> (r: Vec<char>)
    ensures
        r@ == remove_all(s@, p@),
{
    let n = s.len();
    let plen = p.len();
    let mut out: Vec<char> = Vec::new();
    let mut i: usize = 0;
    if plen == 0 {
        return slice_all(s);
    }
    assert(s@.skip(0) == s@);
    while i < n
        invariant
            n == s@.len(),
            plen == p@.len() > 0,
            i <= n,
            out@ + remove_all(s@.skip(i as int), p@) == remove_all(s@, p@),
        decreases n - i,
    {
        let ghost t = s@.skip(i as int);
        let ghost before = out@;
        if n - i >= plen && occurs_at(s, p, i) {
            assert(t.take(plen as int) == s@.subrange(i as int, i + plen));
            assert(t.skip(plen as int) == s@.skip(i + plen));
            i = i + plen;
        } else {
            out.push(s[i]);
            assert(t.drop_first() == s@.skip(i + 1));
            if n - i >= plen {
                assert(t.take(plen as int) == s@.subrange(i as int, i + plen));
            } else {
                assert(remove_all(t.drop_first(), p@) == t.drop_first());
                assert(seq![t[0]] + t.drop_first() == t);
            }
            assert(out@ + remove_all(s@.skip(i + 1), p@) == before + (seq![s@[i as int]]
                + remove_all(s@.skip(i + 1), p@)));
            i = i + 1;
        }
    }
    assert(s@.skip(i as int).len() == 0);
    assert(out@ + Seq::<char>::empty() == out@);
    out
}

/// A copy of `s`.
fn slice_all(s: &Vec<char>) -> (r: Vec<char>)
    ensures
        r@ == s@,
{
    s.clone()
}

/// Takes the boilerplate preamble out of a raw summary, wherever it stands,
/// and trims what is left.
pub fn strip_boilerplate(raw: &str) -> (r: String)
    ensures
        r@ == stripped(raw@),
{
    let s = chars_of(raw);
    let p = chars_of(BOILERPLATE);
    let removed = remove_occurrences(&s, &p);
    let t = trim_chars(&removed);
    string_of(&t)
}

/// The summaries in order, a blank line between each two.
pub fn combine_summaries(summaries: &Vec<String>) -> (r: String)
    ensures
        r@ == join(string_views(summaries@), summary_separator()),
{
    let mut parts: Vec<Vec<char>> = Vec::new();
    let mut i: usize = 0;
    while i < summaries.len()
        invariant
            i <= summaries@.len(),
            views(parts@) == string_views(summaries@).take(i as int),
        decreases summaries.len() - i,
    {
        let ghost before = views(parts@);
        parts.push(chars_of(summaries[i].as_str()));
        assert(views(parts@) == before.push(summaries@[i as int]@));
        i = i + 1;
        assert(string_views(summaries@).take(i as int) == string_views(summaries@).take(
            i - 1,
        ).push(summaries@[i - 1]@));
    }
    assert(string_views(summaries@).take(i as int) == string_views(summaries@));
    let sep: Vec<char> = vec!['\n', '\n'];
    assert(sep@ == summary_separator());
    let joined = join_chars(&parts, &sep);
    string_of(&joined)
}

} // verus!
