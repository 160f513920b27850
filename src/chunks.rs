use vstd::prelude::*;
use crate::error::PipelineError;
use crate::text::{chars_of, is_whitespace, is_ws, join, join_chars, string_of, string_views, views};

verus! {

/// Scanner state: the words closed so far and the word being read.
pub type WordScan = (Seq<Seq<char>>, Seq<char>);

/// One character of the scan: whitespace closes a nonempty word, any other
/// character extends the current word.
pub open spec fn word_step(st: WordScan, c: char) -> WordScan {
    if is_ws(c) {
        if st.1.len() > 0 {
            (st.0.push(st.1), Seq::empty())
        } else {
            st
        }
    } else {
        (st.0, st.1.push(c))
    }
}

/// The scan over all of `s`, from state `st`.
pub open spec fn word_run(st: WordScan, s: Seq<char>) -> WordScan
    decreases s.len(),
{
    if s.len() == 0 {
        st
    } else {
        word_run(word_step(st, s[0]), s.drop_first())
    }
}

/// The maximal runs of non-whitespace characters of `s`, in order.
pub open spec fn words(s: Seq<char>) -> Seq<Seq<char>> {
    let st = word_run((Seq::empty(), Seq::empty()), s);
    if st.1.len() > 0 {
        st.0.push(st.1)
    } else {
        st.0
    }
}

/// A nonempty run without whitespace.
pub open spec fn is_word(w: Seq<char>) -> bool {
    w.len() > 0 && forall|i: int| 0 <= i < w.len() ==> !is_ws(#[trigger] w[i])
}

pub open spec fn all_words(ws: Seq<Seq<char>>) -> bool {
    forall|i: int| 0 <= i < ws.len() ==> is_word(#[trigger] ws[i])
}

/// How many chunks of at most `m` words hold `n` words: ceil(n / m).
pub open spec fn chunk_count(n: int, m: int) -> int {
    (n + m - 1) / m
}

/// The words of chunk `k`: positions `k * m` up to `k * m + m`, cut at the end.
pub open spec fn chunk_words(ws: Seq<Seq<char>>, m: int, k: int) -> Seq<Seq<char>> {
    let end = if k * m + m <= ws.len() {
        k * m + m
    } else {
        ws.len() as int
    };
    ws.subrange(k * m, end)
}

/// The chunks of `text`: its words in consecutive groups of `m`, each group
/// joined by single spaces.
pub open spec fn chunks_of(text: Seq<char>, m: int) -> Seq<Seq<char>> {
    let ws = words(text);
    Seq::new(
        chunk_count(ws.len() as int, m) as nat,
        |k: int| join(chunk_words(ws, m, k), seq![' ']),
    )
}

proof fn lemma_word_run_push(st: WordScan, s: Seq<char>, c: char)
    ensures
        word_run(st, s.push(c)) == word_step(word_run(st, s), c),
    decreases s.len(),
{
    if s.len() == 0 {
        assert(s.push(c).drop_first() == s);
        assert(word_run(word_step(st, c), s) == word_step(st, c));
    } else {
        assert(s.push(c).drop_first() == s.drop_first().push(c));
        assert(s.push(c)[0] == s[0]);
        lemma_word_run_push(word_step(st, s[0]), s.drop_first(), c);
    }
}

proof fn lemma_word_run_append(st: WordScan, a: Seq<char>, b: Seq<char>)
    ensures
        word_run(st, a + b) == word_run(word_run(st, a), b),
    decreases a.len(),
{
    if a.len() == 0 {
        assert(a + b == b);
    } else {
        assert((a + b).drop_first() == a.drop_first() + b);
        assert((a + b)[0] == a[0]);
        lemma_word_run_append(word_step(st, a[0]), a.drop_first(), b);
    }
}

/// A run without whitespace extends the current word.
proof fn lemma_word_run_no_ws(st: WordScan, w: Seq<char>)
    requires
        forall|i: int| 0 <= i < w.len() ==> !is_ws(#[trigger] w[i]),
    ensures
        word_run(st, w) == (st.0, st.1 + w),
    decreases w.len(),
{
    if w.len() == 0 {
        assert(st.1 + w == st.1);
    } else {
        assert(!is_ws(w[0]));
        lemma_word_run_no_ws(word_step(st, w[0]), w.drop_first());
        assert(st.1.push(w[0]) + w.drop_first() == st.1 + w);
    }
}

/// The scan yields only proper words.
proof fn lemma_word_run_words(st: WordScan, s: Seq<char>)
    requires
        all_words(st.0),
        forall|i: int| 0 <= i < st.1.len() ==> !is_ws(#[trigger] st.1[i]),
    ensures
        all_words(word_run(st, s).0),
        forall|i: int|
            0 <= i < word_run(st, s).1.len() ==> !is_ws(#[trigger] word_run(st, s).1[i]),
    decreases s.len(),
{
    if s.len() > 0 {
        let nx = word_step(st, s[0]);
        if is_ws(s[0]) {
            if st.1.len() > 0 {
                assert(is_word(nx.0.last()));
                assert forall|i: int| 0 <= i < nx.0.len() implies is_word(#[trigger] nx.0[i]) by {
                    if i < st.0.len() {
                        assert(nx.0[i] == st.0[i]);
                    }
                }
            }
        } else {
            assert forall|i: int| 0 <= i < nx.1.len() implies !is_ws(#[trigger] nx.1[i]) by {
                if i < st.1.len() {
                    assert(nx.1[i] == st.1[i]);
                }
            }
        }
        lemma_word_run_words(nx, s.drop_first());
    }
}

/// Every member of `words(s)` is a proper word.
pub proof fn lemma_words_are_words(s: Seq<char>)
    ensures
        all_words(words(s)),
{
    lemma_word_run_words((Seq::empty(), Seq::empty()), s);
    let st = word_run((Seq::empty(), Seq::empty()), s);
    if st.1.len() > 0 {
        assert forall|i: int| 0 <= i < words(s).len() implies is_word(#[trigger] words(s)[i]) by {
            if i < st.0.len() {
                assert(words(s)[i] == st.0[i]);
            }
        }
    }
}

proof fn lemma_word_run_join(ws: Seq<Seq<char>>)
    requires
        ws.len() > 0,
        all_words(ws),
    ensures
        word_run((Seq::empty(), Seq::empty()), join(ws, seq![' '])) == (ws.drop_last(), ws.last()),
    decreases ws.len(),
{
    let e: WordScan = (Seq::empty(), Seq::empty());
    if ws.len() == 1 {
        assert(is_word(ws[0]));
        lemma_word_run_no_ws(e, ws[0]);
        assert(e.1 + ws[0] == ws[0]);
        assert(ws.drop_last() == Seq::<Seq<char>>::empty());
    } else {
        let init = ws.drop_last();
        assert(all_words(init)) by {
            assert forall|i: int| 0 <= i < init.len() implies is_word(#[trigger] init[i]) by {
                assert(init[i] == ws[i]);
            }
        }
        lemma_word_run_join(init);
        let sp: Seq<char> = seq![' '];
        let head = join(init, sp);
        lemma_word_run_append(e, head + sp, ws.last());
        lemma_word_run_append(e, head, sp);
        let st1 = word_run(e, head);
        assert(sp.drop_first() == Seq::<char>::empty());
        assert(sp.len() == 1 && sp[0] == ' ');
        assert(is_word(init.last()));
        assert(word_run(word_step(st1, ' '), Seq::<char>::empty()) == word_step(st1, ' '));
        assert(word_run(st1, sp) == word_step(st1, ' '));
        let st2 = word_run(st1, sp);
        assert(st2 == (init.drop_last().push(init.last()), Seq::<char>::empty()));
        assert(init.drop_last().push(init.last()) == init);
        assert(is_word(ws.last()));
        lemma_word_run_no_ws(st2, ws.last());
        assert(Seq::<char>::empty() + ws.last() == ws.last());
    }
}

/// Joining proper words by single spaces and splitting again gives them back.
pub proof fn lemma_words_of_join(ws: Seq<Seq<char>>)
    requires
        all_words(ws),
    ensures
        words(join(ws, seq![' '])) == ws,
{
    if ws.len() == 0 {
        assert(join(ws, seq![' ']) == Seq::<char>::empty());
    } else {
        lemma_word_run_join(ws);
        assert(is_word(ws.last()));
        assert(ws.drop_last().push(ws.last()) == ws);
    }
}

/// Joining two nonempty lists is joining their joins.
proof fn lemma_join_append(a: Seq<Seq<char>>, b: Seq<Seq<char>>, sep: Seq<char>)
    requires
        a.len() > 0,
        b.len() > 0,
    ensures
        join(a + b, sep) == join(a, sep) + sep + join(b, sep),
    decreases b.len(),
{
    if b.len() == 1 {
        assert((a + b).drop_last() == a);
        assert((a + b).last() == b[0]);
    } else {
        assert((a + b).drop_last() == a + b.drop_last());
        assert((a + b).last() == b.last());
        lemma_join_append(a, b.drop_last(), sep);
        assert(join(a, sep) + sep + join(b.drop_last(), sep) + sep + b.last() == join(a, sep)
            + sep + (join(b.drop_last(), sep) + sep + b.last()));
    }
}

proof fn lemma_chunk_bounds(n: int, m: int, k: int)
    requires
        m >= 1,
        0 <= k < chunk_count(n, m),
        n >= 0,
    ensures
        0 <= k * m < n,
        k * m + m <= n || k == chunk_count(n, m) - 1,
{
    assert(k * m < n) by (nonlinear_arith)
        requires
            m >= 1,
            0 <= k,
            k < (n + m - 1) / m,
            n >= 0,
    ;
    assert(0 <= k * m) by (nonlinear_arith)
        requires
            m >= 1,
            0 <= k,
    ;
    if k * m + m > n {
        assert(k + 1 >= chunk_count(n, m)) by (nonlinear_arith)
            requires
                m >= 1,
                k * m + m > n,
                n >= 0,
                0 <= k,
        ;
    }
}

/// Where the first `k` chunks end among the words.
spec fn prefix_end(n: int, m: int, k: int) -> int {
    if k * m <= n {
        k * m
    } else {
        n
    }
}

proof fn lemma_join_chunks_prefix(text: Seq<char>, m: int, k: int)
    requires
        m >= 1,
        1 <= k <= chunk_count(words(text).len() as int, m),
    ensures
        join(chunks_of(text, m).take(k), seq![' ']) == join(
            words(text).take(prefix_end(words(text).len() as int, m, k)),
            seq![' '],
        ),
    decreases k,
{
    let ws = words(text);
    let n = ws.len() as int;
    let sp: Seq<char> = seq![' '];
    let cs = chunks_of(text, m);
    if k == 1 {
        lemma_chunk_bounds(n, m, 0);
        assert(cs.take(1).len() == 1);
        assert(0 * m == 0 && 1 * m == m);
        assert(chunk_words(ws, m, 0) == ws.take(prefix_end(n, m, 1)));
    } else {
        let j = k - 1;
        lemma_join_chunks_prefix(text, m, j);
        lemma_chunk_bounds(n, m, j);
        assert(prefix_end(n, m, j) == j * m);
        assert(j * m >= m) by (nonlinear_arith)
            requires
                j >= 1,
                m >= 1,
        ;
        assert(k * m == j * m + m) by (nonlinear_arith)
            requires
                k == j + 1,
        ;
        assert(cs.take(k).drop_last() == cs.take(j));
        assert(cs.take(k).last() == cs[j]);
        let a = ws.take(j * m);
        let b = chunk_words(ws, m, j);
        lemma_join_append(a, b, sp);
        assert(a + b == ws.take(prefix_end(n, m, k)));
    }
}

/// Rejoining all chunks by single spaces and splitting into words gives the
/// words of `text` back, in order.
pub proof fn lemma_chunks_preserve_words(text: Seq<char>, m: int)
    requires
        m >= 1,
    ensures
        words(join(chunks_of(text, m), seq![' '])) == words(text),
{
    let ws = words(text);
    let n = ws.len() as int;
    let cs = chunks_of(text, m);
    lemma_words_are_words(text);
    if n == 0 {
        assert(chunk_count(n, m) == 0) by (nonlinear_arith)
            requires
                m >= 1,
                chunk_count(n, m) == (n + m - 1) / m,
                n == 0,
        ;
        assert(join(cs, seq![' ']) == Seq::<char>::empty());
        lemma_words_of_join(ws);
    } else {
        let c = chunk_count(n, m);
        assert(c >= 1 && c * m >= n) by (nonlinear_arith)
            requires
                m >= 1,
                n >= 1,
                c == (n + m - 1) / m,
        ;
        lemma_join_chunks_prefix(text, m, c);
        assert(cs.take(c) == cs);
        assert(ws.take(prefix_end(n, m, c)) == ws);
        lemma_words_of_join(ws);
    }
}

/// No chunk holds more than `m` words, and for `n` words there are exactly
/// ceil(n / m) chunks.
pub proof fn lemma_chunk_sizes(text: Seq<char>, m: int)
    requires
        m >= 1,
    ensures
        chunks_of(text, m).len() == chunk_count(words(text).len() as int, m),
        words(text).len() > 0 ==> chunks_of(text, m).len() * m >= words(text).len() && (
        chunks_of(text, m).len() - 1) * m < words(text).len(),
        forall|k: int|
            0 <= k < chunks_of(text, m).len() ==> #[trigger] words(chunks_of(text, m)[k]).len()
                <= m && words(chunks_of(text, m)[k]).len() > 0,
{
    let ws = words(text);
    let n = ws.len() as int;
    let c = chunk_count(n, m);
    lemma_words_are_words(text);
    if n > 0 {
        assert(c * m >= n && (c - 1) * m < n) by (nonlinear_arith)
            requires
                m >= 1,
                n >= 1,
                c == (n + m - 1) / m,
        ;
    }
    assert forall|k: int| 0 <= k < chunks_of(text, m).len() implies #[trigger] words(
        chunks_of(text, m)[k],
    ).len() <= m && words(chunks_of(text, m)[k]).len() > 0 by {
        lemma_chunk_bounds(n, m, k);
        let g = chunk_words(ws, m, k);
        assert forall|i: int| 0 <= i < g.len() implies is_word(#[trigger] g[i]) by {
            assert(g[i] == ws[k * m + i]);
        }
        lemma_words_of_join(g);
    }
}

/// The words of `text` in order, rejoined by single spaces.
pub fn split_words(text: &Vec<char>) -> (r: Vec<Vec<char>>)
    ensures
        views(r@) == words(text@),
{
    let mut done: Vec<Vec<char>> = Vec::new();
    let mut cur: Vec<char> = Vec::new();
    let mut i: usize = 0;
    while i < text.len()
        invariant
            i <= text@.len(),
            (views(done@), cur@) == word_run((Seq::empty(), Seq::empty()), text@.take(i as int)),
        decreases text.len() - i,
    {
        let c = text[i];
        let ghost before = views(done@);
        if is_whitespace(c) {
            if cur.len() > 0 {
                let ghost w = cur@;
                done.push(cur);
                cur = Vec::new();
                assert(views(done@) == before.push(w));
            }
        } else {
            cur.push(c);
        }
        proof {
            lemma_word_run_push((Seq::empty(), Seq::empty()), text@.take(i as int), text@[i as int]);
            assert(text@.take(i + 1) == text@.take(i as int).push(text@[i as int]));
        }
        i = i + 1;
    }
    assert(text@.take(i as int) == text@);
    if cur.len() > 0 {
        let ghost before = views(done@);
        let ghost w = cur@;
        done.push(cur);
        assert(views(done@) == before.push(w));
    }
    done
}

/// Exactly `k` chunks of `m` words cover `n` words when the first `k - 1`
/// chunks do not and `k` do.
proof fn lemma_count_exact(n: int, m: int, k: int)
    requires
        m >= 1,
        n >= 0,
        k >= 0,
        k * m >= n,
        k == 0 || (k - 1) * m < n,
    ensures
        k == chunk_count(n, m),
{
    if k == 0 {
        assert(n == 0);
        assert((m - 1) / m == 0) by (nonlinear_arith)
            requires
                m >= 1,
        ;
    } else {
        assert(k == (n + m - 1) / m) by (nonlinear_arith)
            requires
                m >= 1,
                k >= 1,
                k * m >= n,
                (k - 1) * m < n,
        ;
    }
}

/// The words of `ws` from `lo` up to `hi`.
fn slice_words(ws: &Vec<Vec<char>>, lo: usize, hi: usize) -> (r: Vec<Vec<char>>)
    requires
        lo <= hi <= ws@.len(),
    ensures
        views(r@) == views(ws@).subrange(lo as int, hi as int),
{
    let mut out: Vec<Vec<char>> = Vec::new();
    let mut i: usize = lo;
    while i < hi
        invariant
            lo <= i <= hi <= ws@.len(),
            views(out@) == views(ws@).subrange(lo as int, i as int),
        decreases hi - i,
    {
        let ghost before = views(out@);
        out.push(ws[i].clone());
        assert(views(out@) == before.push(ws@[i as int]@));
        i = i + 1;
        assert(views(ws@).subrange(lo as int, i as int) == views(ws@).subrange(lo as int, i - 1).push(
            ws@[i - 1]@,
        ));
    }
    out
}

/// Splits `text` on whitespace and groups the words, in order, into chunks of
/// at most `max_words`, each joined by single spaces. A `max_words` of zero is
/// rejected.
pub fn split_text_into_chunks(text: &str, max_words: usize) -> (r: Result<
    Vec<String>,
    PipelineError,
>)
    ensures
        max_words == 0 ==> r == Err::<Vec<String>, PipelineError>(PipelineError::InvalidArgument),
        max_words > 0 ==> (r matches Ok(cs) && string_views(cs@) == chunks_of(
            text@,
            max_words as int,
        )),
{
    if max_words == 0 {
        return Err(PipelineError::InvalidArgument);
    }
    let m = max_words;
    let chars = chars_of(text);
    let ws = split_words(&chars);
    let n = ws.len();
    let ghost wv = words(text@);
    let ghost spec_chunks = chunks_of(text@, m as int);
    let sp: Vec<char> = vec![' '];
    assert(sp@ == seq![' ']);
    let mut out: Vec<String> = Vec::new();
    let mut start: usize = 0;
    assert(prefix_end(n as int, m as int, 0) == 0) by {
        assert(0 * m == 0);
    }
    while start < n
        invariant
            m >= 1,
            n == ws@.len(),
            views(ws@) == wv,
            wv == words(text@),
            spec_chunks == chunks_of(text@, m as int),
            sp@ == seq![' '],
            start <= n,
            start as int == prefix_end(n as int, m as int, out@.len() as int),
            out@.len() == 0 || (out@.len() - 1) * m < n,
            forall|k: int| 0 <= k < out@.len() ==> #[trigger] out@[k]@ == spec_chunks[k],
        decreases n - start,
    {
        let ghost k = out@.len() as int;
        assert(start as int == k * m);
        assert(k < chunk_count(n as int, m as int)) by {
            if k >= chunk_count(n as int, m as int) {
                let (ni, mi) = (n as int, m as int);
                assert(k * mi >= ni) by (nonlinear_arith)
                    requires
                        mi >= 1,
                        k >= (ni + mi - 1) / mi,
                        ni >= 0,
                ;
            }
        }
        let end = if n - start <= m {
            n
        } else {
            start + m
        };
        let group = slice_words(&ws, start, end);
        assert(views(ws@).subrange(start as int, end as int) == chunk_words(wv, m as int, k));
        let joined = join_chars(&group, &sp);
        let chunk = string_of(&joined);
        let ghost before = out@;
        out.push(chunk);
        assert((k + 1) * m == k * m + m) by (nonlinear_arith);
        assert forall|j: int| 0 <= j < out@.len() implies #[trigger] out@[j]@ == spec_chunks[j] by {
            if j < k {
                assert(out@[j] == before[j]);
            }
        }
        start = end;
    }
    proof {
        let k = out@.len() as int;
        assert(k * m >= n);
        lemma_count_exact(n as int, m as int, k);
        assert(string_views(out@) == spec_chunks);
    }
    Ok(out)
}

} // verus!
