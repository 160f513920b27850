use vstd::prelude::*;
use crate::text::{chars_of, join, join_chars, string_of, trim, trim_chars, views};

verus! {

/// Whether `c` closes a sentence.
pub open spec fn is_terminator(c: char) -> bool {
    c == '.' || c == '!' || c == '?'
}

pub fn terminates_sentence(c: char) -> (r: bool)
    ensures
        r == is_terminator(c),
{
    c == '.' || c == '!' || c == '?'
}

/// Scanner state: the sentences closed so far and the open buffer.
pub type SentenceScan = (Seq<Seq<char>>, Seq<char>);

/// One character of the scan: it joins the buffer, and a terminator closes
/// the buffer as a trimmed sentence.
pub open spec fn sentence_step(st: SentenceScan, c: char) -> SentenceScan {
    let buf = st.1.push(c);
    if is_terminator(c) {
        (st.0.push(trim(buf)), Seq::empty())
    } else {
        (st.0, buf)
    }
}

/// The scan over all of `s`, from state `st`.
pub open spec fn sentence_run(st: SentenceScan, s: Seq<char>) -> SentenceScan
    decreases s.len(),
{
    if s.len() == 0 {
        st
    } else {
        sentence_run(sentence_step(st, s[0]), s.drop_first())
    }
}

/// The sentences of `text`, in order: each terminated run trimmed, then the
/// trimmed rest if it is not blank.
pub open spec fn sentences(text: Seq<char>) -> Seq<Seq<char>> {
    let st = sentence_run((Seq::empty(), Seq::empty()), text);
    if trim(st.1).len() > 0 {
        st.0.push(trim(st.1))
    } else {
        st.0
    }
}

/// The members of `ss` whose position is not the fourth of its group of four.
pub open spec fn kept(ss: Seq<Seq<char>>) -> Seq<Seq<char>>
    decreases ss.len(),
{
    if ss.len() == 0 {
        ss
    } else if (ss.len() - 1) % 4 == 3 {
        kept(ss.drop_last())
    } else {
        kept(ss.drop_last()).push(ss.last())
    }
}

/// The position among all sentences of the `j`-th kept one.
pub open spec fn kept_index(j: int) -> int {
    j + j / 3
}

/// The filtered text: the kept sentences joined by single spaces.
pub open spec fn filtered(text: Seq<char>) -> Seq<char> {
    join(kept(sentences(text)), seq![' '])
}

proof fn lemma_sentence_run_push(st: SentenceScan, s: Seq<char>, c: char)
    ensures
        sentence_run(st, s.push(c)) == sentence_step(sentence_run(st, s), c),
    decreases s.len(),
{
    if s.len() == 0 {
        assert(s.push(c).drop_first() == s);
        assert(sentence_run(sentence_step(st, c), s) == sentence_step(st, c));
    } else {
        assert(s.push(c).drop_first() == s.drop_first().push(c));
        assert(s.push(c)[0] == s[0]);
        lemma_sentence_run_push(sentence_step(st, s[0]), s.drop_first(), c);
    }
}

proof fn lemma_kept_three_of_four(ss: Seq<Seq<char>>)
    ensures
        kept(ss).len() == ss.len() - ss.len() / 4,
        forall|j: int|
            0 <= j < kept(ss).len() ==> 0 <= #[trigger] kept_index(j) < ss.len()
                && kept_index(j) % 4 != 3 && kept(ss)[j] == ss[kept_index(j)],
        forall|j: int, k: int|
            0 <= j < k < kept(ss).len() ==> #[trigger] kept_index(j) < #[trigger] kept_index(k),
    decreases ss.len(),
{
    if ss.len() > 0 {
        let init = ss.drop_last();
        lemma_kept_three_of_four(init);
        let n = ss.len() as int;
        assert(n - 1 == 4 * ((n - 1) / 4) + (n - 1) % 4);
        if (n - 1) % 4 == 3 {
            assert(n / 4 == (n - 1) / 4 + 1);
        } else {
            assert(n / 4 == (n - 1) / 4);
            let j = kept(init).len() as int;
            assert(j == 3 * ((n - 1) / 4) + (n - 1) % 4);
            assert(j / 3 == (n - 1) / 4);
        }
        assert forall|j: int| 0 <= j < kept(ss).len() implies 0 <= #[trigger] kept_index(j)
            < ss.len() && kept_index(j) % 4 != 3 && kept(ss)[j] == ss[kept_index(j)] by {
            assert(j == 3 * (j / 3) + j % 3);
            assert(kept_index(j) == 4 * (j / 3) + j % 3);
            if j < kept(init).len() {
                assert(kept(ss)[j] == kept(init)[j]);
            }
        }
        assert forall|j: int, k: int|
            0 <= j < k < kept(ss).len() implies #[trigger] kept_index(j) < #[trigger] kept_index(
            k,
        ) by {
            assert(j / 3 <= k / 3) by (nonlinear_arith)
                requires
                    j < k,
                    0 <= j,
            ;
        }
    }
}

/// Of the N sentences of `text`, the filtered text holds exactly
/// N - floor(N / 4), in their order: the `j`-th kept one is sentence
/// `j + j / 3`, which is never the fourth of a group of four.
pub proof fn lemma_filter_keeps_three_of_four(text: Seq<char>)
    ensures
        filtered(text) == join(kept(sentences(text)), seq![' ']),
        kept(sentences(text)).len() == sentences(text).len() - sentences(text).len() / 4,
        forall|j: int|
            0 <= j < kept(sentences(text)).len() ==> 0 <= #[trigger] kept_index(j) < sentences(
                text,
            ).len() && kept_index(j) % 4 != 3 && kept(sentences(text))[j] == sentences(
                text,
            )[kept_index(j)],
        forall|j: int, k: int|
            0 <= j < k < kept(sentences(text)).len() ==> #[trigger] kept_index(j)
                < #[trigger] kept_index(k),
{
    lemma_kept_three_of_four(sentences(text));
}

/// The sentences of `text`, in order.
pub fn split_sentences(text: &Vec<char>) -> (r: Vec<Vec<char>>)
    ensures
        views(r@) == sentences(text@),
{
    let mut done: Vec<Vec<char>> = Vec::new();
    let mut buf: Vec<char> = Vec::new();
    let mut i: usize = 0;
    while i < text.len()
        invariant
            i <= text@.len(),
            (views(done@), buf@) == sentence_run((Seq::empty(), Seq::empty()), text@.take(i as int)),
        decreases text.len() - i,
    {
        let c = text[i];
        let ghost before = views(done@);
        buf.push(c);
        if terminates_sentence(c) {
            let t = trim_chars(&buf);
            done.push(t);
            buf = Vec::new();
            assert(views(done@) == before.push(t@));
        } else {
            assert(views(done@) == before);
        }
        proof {
            lemma_sentence_run_push(
                (Seq::empty(), Seq::empty()),
                text@.take(i as int),
                text@[i as int],
            );
            assert(text@.take(i + 1) == text@.take(i as int).push(text@[i as int]));
        }
        i = i + 1;
    }
    assert(text@.take(i as int) == text@);
    let t = trim_chars(&buf);
    if t.len() > 0 {
        let ghost before = views(done@);
        done.push(t);
        assert(views(done@) == before.push(t@));
    }
    done
}

/// Splits `text` into sentences and keeps the first three of each four,
/// joined by single spaces.
pub fn filter_sentences(text: &str) -> (r: String)
    ensures
        r@ == filtered(text@),
{
    let chars = chars_of(text);
    let all = split_sentences(&chars);
    let mut keep: Vec<Vec<char>> = Vec::new();
    let mut i: usize = 0;
    while i < all.len()
        invariant
            i <= all@.len(),
            views(keep@) == kept(views(all@).take(i as int)),
        decreases all.len() - i,
    {
        let ghost before = views(keep@);
        let ghost now = views(all@).take(i + 1);
        assert(now.drop_last() == views(all@).take(i as int));
        if i % 4 != 3 {
            keep.push(all[i].clone());
            assert(views(keep@) == before.push(all@[i as int]@));
        }
        i = i + 1;
    }
    assert(views(all@).take(i as int) == views(all@));
    let sep: Vec<char> = vec![' '];
    assert(sep@ == seq![' ']);
    let joined = join_chars(&keep, &sep);
    string_of(&joined)
}

} // verus!
