//! Extractive summaries: sentences scored by the whole text's word
//! frequencies, best first.
use vstd::prelude::*;
use crate::segment::{jieba_words, strings_view, Segmenter};
use crate::text::{chars_of, string_of, trim, trim_chars};

verus! {

/// A sentence-ending mark.
pub open spec fn is_stop(c: char) -> bool {
    c == '。' || c == '！' || c == '？'
}

/// The pieces of `s` between sentence-ending marks, marks left out; a text
/// with `m` marks has `m + 1` pieces.
pub open spec fn pieces(s: Seq<char>) -> Seq<Seq<char>>
    decreases s.len(),
{
    if s.len() == 0 {
        seq![Seq::empty()]
    } else {
        let p = pieces(s.drop_last());
        if is_stop(s.last()) {
            p.push(Seq::empty())
        } else {
            p.update(p.len() - 1, p.last().push(s.last()))
        }
    }
}

/// A sentence: its trimmed text and the ordinal of the piece it came from.
pub struct SentenceView {
    pub text: Seq<char>,
    pub position: nat,
}

/// The sentences among the first `m` pieces: each piece trimmed, empty ones dropped.
pub open spec fn sentences_upto(ps: Seq<Seq<char>>, m: int) -> Seq<SentenceView>
    decreases m,
{
    if m <= 0 {
        Seq::empty()
    } else {
        sentences_upto(ps, m - 1) + if trim(ps[m - 1]).len() > 0 {
            seq![SentenceView { text: trim(ps[m - 1]), position: (m - 1) as nat }]
        } else {
            Seq::empty()
        }
    }
}

/// The sentences of `text`, in reading order.
pub open spec fn sentences(text: Seq<char>) -> Seq<SentenceView> {
    sentences_upto(pieces(text), pieces(text).len() as int)
}

/// A sentence of the text, with the ordinal of the piece it came from.
pub struct Sentence {
    pub text: String,
    pub position: usize,
}

impl View for Sentence {
    type V = SentenceView;

    open spec fn view(&self) -> SentenceView {
        SentenceView { text: self.text@, position: self.position as nat }
    }
}

pub open spec fn sentences_view(v: Seq<Sentence>) -> Seq<SentenceView> {
    v.map_values(|s: Sentence| s@)
}

proof fn lemma_pieces_nonempty(s: Seq<char>)
    ensures
        pieces(s).len() >= 1,
    decreases s.len(),
{
    if s.len() > 0 {
        lemma_pieces_nonempty(s.drop_last());
    }
}

proof fn lemma_sentences_prefix(p: Seq<Seq<char>>, q: Seq<Seq<char>>, m: int)
    requires
        0 <= m <= p.len(),
        m <= q.len(),
        forall|k: int| 0 <= k < m ==> p[k] == q[k],
    ensures
        sentences_upto(p, m) == sentences_upto(q, m),
    decreases m,
{
    if m > 0 {
        lemma_sentences_prefix(p, q, m - 1);
    }
}

/// Appends the trimmed `piece` as the sentence at `position`, unless it is empty.
fn push_sentence(out: &mut Vec<Sentence>, piece: &Vec<char>, position: usize)
    ensures
        sentences_view(final(out)@) == sentences_view(old(out)@) + if trim(piece@).len() > 0 {
            seq![SentenceView { text: trim(piece@), position: position as nat }]
        } else {
            Seq::empty()
        },
{
    let t = trim_chars(piece);
    if t.len() > 0 {
        out.push(Sentence { text: string_of(&t), position });
        assert(sentences_view(out@) == sentences_view(old(out)@).push(out@.last()@));
    } else {
        assert(sentences_view(out@) == sentences_view(old(out)@));
    }
}

/// The sentences of `text`: the pieces between the marks 。！？, trimmed, the
/// empty ones dropped, each with the ordinal of its piece.
pub fn split_sentences(text: &str) -> (r: Vec<Sentence>)
    ensures
        sentences_view(r@) == sentences(text@),
{
    let s = chars_of(text);
    let ghost sv = s@;
    let mut out: Vec<Sentence> = Vec::new();
    let mut cur: Vec<char> = Vec::new();
    let mut index: usize = 0;
    let mut i: usize = 0;
    proof {
        assert(sv.take(0).len() == 0);
    }
    while i < s.len()
        invariant
            sv == s@,
            i <= sv.len(),
            index <= i,
            pieces(sv.take(i as int)).len() == index + 1,
            cur@ == pieces(sv.take(i as int)).last(),
            sentences_view(out@) == sentences_upto(pieces(sv.take(i as int)), index as int),
        decreases sv.len() - i,
    {
        let ghost p = pieces(sv.take(i as int));
        let c = s[i];
        assert(sv.take(i + 1).drop_last() == sv.take(i as int));
        if c == '。' || c == '！' || c == '？' {
            push_sentence(&mut out, &cur, index);
            cur = Vec::new();
            index = index + 1;
            proof {
                let q = pieces(sv.take(i + 1));
                assert(q == p.push(Seq::empty()));
                lemma_sentences_prefix(p, q, index - 1);
            }
        } else {
            cur.push(c);
            proof {
                let q = pieces(sv.take(i + 1));
                lemma_sentences_prefix(p, q, index as int);
            }
        }
        i = i + 1;
    }
    push_sentence(&mut out, &cur, index);
    proof {
        assert(sv.take(sv.len() as int) == sv);
    }
    out
}

/// How many times `w` occurs in `ws`.
pub open spec fn occurrences(ws: Seq<Seq<char>>, w: Seq<char>) -> nat
    decreases ws.len(),
{
    if ws.len() == 0 {
        0
    } else {
        occurrences(ws.drop_last(), w) + if ws.last() == w { 1nat } else { 0nat }
    }
}

/// The summed frequency in `freq` of the words `ws`, one term per word.
pub open spec fn weight(ws: Seq<Seq<char>>, freq: Seq<Seq<char>>) -> nat
    decreases ws.len(),
{
    if ws.len() == 0 {
        0
    } else {
        weight(ws.drop_last(), freq) + occurrences(freq, ws.last())
    }
}

proof fn lemma_occurrences_bound(ws: Seq<Seq<char>>, w: Seq<char>)
    ensures
        occurrences(ws, w) <= ws.len(),
    decreases ws.len(),
{
    if ws.len() > 0 {
        lemma_occurrences_bound(ws.drop_last(), w);
    }
}

proof fn lemma_occurrences_absent(ws: Seq<Seq<char>>, w: Seq<char>)
    requires
        forall|t: int| 0 <= t < ws.len() ==> ws[t] != w,
    ensures
        occurrences(ws, w) == 0,
    decreases ws.len(),
{
    if ws.len() > 0 {
        lemma_occurrences_absent(ws.drop_last(), w);
    }
}

/// Word frequencies over a whole text: each distinct word once, with the
/// number of times it occurs.
pub struct TermFrequencies {
    keys: Vec<String>,
    counts: Vec<usize>,
    words: Ghost<Seq<Seq<char>>>,
}

impl View for TermFrequencies {
    type V = Seq<Seq<char>>;

    /// The words of the text that was counted, in order.
    closed spec fn view(&self) -> Seq<Seq<char>> {
        self.words@
    }
}

impl TermFrequencies {
    /// Keys are distinct, each count is its key's number of occurrences among
    /// the first `n` words, and each of those words is a key.
    closed spec fn counted(&self, n: int) -> bool {
        &&& self.keys@.len() == self.counts@.len()
        &&& forall|a: int, b: int| 0 <= a < b < self.keys@.len() ==> self.keys@[a]@ != self.keys@[b]@
        &&& forall|k: int| 0 <= k < self.keys@.len() ==> #[trigger] self.counts@[k] == occurrences(self.words@.take(n), self.keys@[k]@)
        &&& forall|t: int| #![trigger self.words@[t]] 0 <= t < n ==> exists|k: int| 0 <= k < self.keys@.len() && #[trigger] self.keys@[k]@ == self.words@[t]
    }

    /// The table is complete for its text.
    pub closed spec fn wf(&self) -> bool {
        self.counted(self.words@.len() as int)
    }

    /// Index of the key `w`, if it is one.
    fn find(&self, w: &String) -> (r: Option<usize>)
        ensures
            match r {
                Some(k) => k < self.keys@.len() && self.keys@[k as int]@ == w@,
                None => forall|k: int| 0 <= k < self.keys@.len() ==> self.keys@[k]@ != w@,
            },
    {
        let mut k: usize = 0;
        while k < self.keys.len()
            invariant
                k <= self.keys@.len(),
                forall|m: int| 0 <= m < k ==> self.keys@[m]@ != w@,
            decreases self.keys@.len() - k,
        {
            if self.keys[k] == *w {
                return Some(k);
            }
            k = k + 1;
        }
        None
    }

    /// The frequencies of the words of `text`.
    pub fn of_text(text: &str, seg: &Segmenter) -> (r: TermFrequencies)
        ensures
            r.wf(),
            r@ == jieba_words(text@),
    {
        let all = seg.cut(text);
        let ghost ws = strings_view(all@);
        let mut table = TermFrequencies { keys: Vec::new(), counts: Vec::new(), words: Ghost(ws) };
        let mut i: usize = 0;
        while i < all.len()
            invariant
                ws == strings_view(all@),
                ws == jieba_words(text@),
                table.words@ == ws,
                i <= all@.len(),
                table.counted(i as int),
            decreases all@.len() - i,
        {
            let ghost before = ws.take(i as int);
            assert(ws.take(i + 1) == before.push(ws[i as int]));
            assert(ws.take(i + 1).drop_last() == before);
            let w = &all[i];
            match table.find(w) {
                Some(k) => {
                    proof {
                        lemma_occurrences_bound(before, w@);
                    }
                    let c = table.counts[k] + 1;
                    table.counts.set(k, c);
                    assert forall|t: int| #![trigger ws[t]] 0 <= t < i + 1 implies exists|m: int| 0 <= m < table.keys@.len() && #[trigger] table.keys@[m]@ == ws[t] by {
                        if t == i {
                            assert(table.keys@[k as int]@ == ws[t]);
                        } else {
                            assert(ws.take(i as int)[t] == ws[t]);
                        }
                    }
                },
                None => {
                    let ghost old_keys = table.keys@;
                    table.keys.push(w.clone());
                    table.counts.push(1);
                    proof {
                        lemma_occurrences_absent(before, w@);
                    }
                    assert forall|t: int| #![trigger ws[t]] 0 <= t < i + 1 implies exists|m: int| 0 <= m < table.keys@.len() && #[trigger] table.keys@[m]@ == ws[t] by {
                        if t == i {
                            assert(table.keys@[old_keys.len() as int]@ == ws[t]);
                        } else {
                            assert(ws.take(i as int)[t] == ws[t]);
                            let m = choose|m: int| 0 <= m < old_keys.len() && #[trigger] old_keys[m]@ == ws.take(i as int)[t];
                            assert(table.keys@[m] == old_keys[m]);
                        }
                    }
                    assert forall|k: int| 0 <= k < table.keys@.len() implies #[trigger] table.counts@[k] == occurrences(ws.take(i + 1), table.keys@[k]@) by {
                        if k < old_keys.len() {
                            assert(table.keys@[k] == old_keys[k]);
                        }
                    }
                },
            }
            i = i + 1;
        }
        assert(ws.take(all@.len() as int) == ws);
        table
    }

    /// How often `w` occurs in the text.
    pub fn frequency(&self, w: &String) -> (r: usize)
        requires
            self.wf(),
        ensures
            r == occurrences(self@, w@),
    {
        proof {
            assert(self.words@.take(self.words@.len() as int) =~= self.words@);
        }
        match self.find(w) {
            Some(k) => self.counts[k],
            None => {
                proof {
                    assert forall|t: int| 0 <= t < self.words@.len() implies self.words@[t] != w@ by {
                        let m = choose|m: int| 0 <= m < self.keys@.len() && #[trigger] self.keys@[m]@ == self.words@[t];
                    }
                    lemma_occurrences_absent(self.words@, w@);
                }
                0
            },
        }
    }
}

/// A sentence with its raw score.
pub struct ScoredView {
    pub text: Seq<char>,
    pub position: nat,
    pub score: nat,
}

/// A sentence of the text with its raw score: the summed text-wide
/// frequency of its words.
pub struct ScoredSentence {
    pub text: String,
    pub position: usize,
    pub score: u128,
}

impl View for ScoredSentence {
    type V = ScoredView;

    open spec fn view(&self) -> ScoredView {
        ScoredView { text: self.text@, position: self.position as nat, score: self.score as nat }
    }
}

pub open spec fn scored_view(v: Seq<ScoredSentence>) -> Seq<ScoredView> {
    v.map_values(|s: ScoredSentence| s@)
}

/// `s` scored against the word frequencies `freq`.
pub open spec fn score_of(s: SentenceView, freq: Seq<Seq<char>>) -> ScoredView {
    ScoredView { text: s.text, position: s.position, score: weight(jieba_words(s.text), freq) }
}

/// Scores each sentence by the summed frequency, over the whole text, of its words.
pub fn score_sentences(sentences: &Vec<Sentence>, freq: &TermFrequencies, seg: &Segmenter) -> (r: Vec<ScoredSentence>)
    requires
        freq.wf(),
    ensures
        r@.len() == sentences@.len(),
        forall|k: int| 0 <= k < r@.len() ==> #[trigger] r@[k]@ == score_of(sentences@[k]@, freq@),
{
    let mut out: Vec<ScoredSentence> = Vec::new();
    let mut i: usize = 0;
    while i < sentences.len()
        invariant
            freq.wf(),
            i <= sentences@.len(),
            out@.len() == i,
            forall|k: int| 0 <= k < i ==> #[trigger] out@[k]@ == score_of(sentences@[k]@, freq@),
        decreases sentences@.len() - i,
    {
        let s = &sentences[i];
        let words = seg.cut(s.text.as_str());
        let ghost ws = strings_view(words@);
        let mut total: u128 = 0;
        let mut j: usize = 0;
        while j < words.len()
            invariant
                freq.wf(),
                ws == strings_view(words@),
                j <= words@.len(),
                total == weight(ws.take(j as int), freq@),
                total <= j * 0xFFFF_FFFF_FFFF_FFFFu128,
            decreases words@.len() - j,
        {
            assert(ws.take(j + 1).drop_last() == ws.take(j as int));
            let c = freq.frequency(&words[j]);
            assert(total + c <= (j + 1) * 0xFFFF_FFFF_FFFF_FFFFu128) by (nonlinear_arith)
                requires
                    total <= j * 0xFFFF_FFFF_FFFF_FFFFu128,
                    c <= 0xFFFF_FFFF_FFFF_FFFFu128,
            ;
            assert((j + 1) * 0xFFFF_FFFF_FFFF_FFFFu128 <= 0xFFFF_FFFF_FFFF_FFFFu128 * 0xFFFF_FFFF_FFFF_FFFFu128) by (nonlinear_arith)
                requires
                    j < 0xFFFF_FFFF_FFFF_FFFFu128,
            ;
            total = total + c as u128;
            j = j + 1;
        }
        assert(ws.take(words@.len() as int) == ws);
        out.push(ScoredSentence { text: s.text.clone(), position: s.position, score: total });
        i = i + 1;
    }
    out
}

/// `a` ranks ahead of `b`: a higher score, or the same score and an earlier position.
pub open spec fn ranks_before(a: ScoredView, b: ScoredView) -> bool {
    a.score > b.score || (a.score == b.score && a.position < b.position)
}

/// Index of the best-ranked among the first `m` items (the first such on a tie).
pub open spec fn best_upto(items: Seq<ScoredView>, m: int) -> int
    decreases m,
{
    if m <= 1 {
        0
    } else {
        let b = best_upto(items, m - 1);
        if ranks_before(items[m - 1], items[b]) {
            m - 1
        } else {
            b
        }
    }
}

/// Index of the best-ranked item.
pub open spec fn best(items: Seq<ScoredView>) -> int {
    best_upto(items, items.len() as int)
}

/// The `k` best-ranked items, best first.
pub open spec fn top_ranked(items: Seq<ScoredView>, k: nat) -> Seq<ScoredView>
    decreases items.len(),
{
    let b = best(items);
    if k == 0 || items.len() == 0 || b < 0 || b >= items.len() {
        Seq::empty()
    } else {
        seq![items[b]] + top_ranked(items.remove(b), (k - 1) as nat)
    }
}

proof fn lemma_best_upto_range(items: Seq<ScoredView>, m: int)
    requires
        1 <= m <= items.len(),
    ensures
        0 <= best_upto(items, m) < m,
    decreases m,
{
    if m > 1 {
        lemma_best_upto_range(items, m - 1);
    }
}

fn best_index(items: &Vec<ScoredSentence>) -> (r: usize)
    requires
        items@.len() > 0,
    ensures
        r == best(scored_view(items@)),
        r < items@.len(),
{
    let ghost sv = scored_view(items@);
    let mut b: usize = 0;
    let mut j: usize = 1;
    while j < items.len()
        invariant
            sv == scored_view(items@),
            1 <= j <= items@.len(),
            b == best_upto(sv, j as int),
            b < j,
        decreases items@.len() - j,
    {
        assert(sv[j as int] == items@[j as int]@ && sv[b as int] == items@[b as int]@);
        let better = items[j].score > items[b].score || (items[j].score == items[b].score && items[j].position < items[b].position);
        if better {
            b = j;
        }
        j = j + 1;
    }
    b
}

/// The `k` best-ranked of `items`, best first.
pub fn select_top(items: Vec<ScoredSentence>, k: usize) -> (r: Vec<ScoredSentence>)
    ensures
        scored_view(r@) == top_ranked(scored_view(items@), k as nat),
{
    let ghost all = scored_view(items@);
    let mut rest = items;
    let mut out: Vec<ScoredSentence> = Vec::new();
    while out.len() < k && rest.len() > 0
        invariant
            out@.len() <= k,
            scored_view(out@) + top_ranked(scored_view(rest@), (k - out@.len()) as nat) == top_ranked(all, k as nat),
        decreases rest@.len(),
    {
        let b = best_index(&rest);
        let ghost before = scored_view(rest@);
        proof {
            lemma_best_upto_range(before, before.len() as int);
        }
        let item = rest.remove(b);
        assert(scored_view(rest@) == before.remove(b as int));
        out.push(item);
        assert(scored_view(out@) == scored_view(out@).drop_last().push(item@));
        assert(seq![before[b as int]] + top_ranked(scored_view(rest@), (k - out@.len()) as nat) == top_ranked(before, (k - out@.len() + 1) as nat));
        assert(scored_view(out@) + top_ranked(scored_view(rest@), (k - out@.len()) as nat) == scored_view(out@).drop_last() + (seq![before[b as int]] + top_ranked(scored_view(rest@), (k - out@.len()) as nat)));
    }
    proof {
        let rv = scored_view(rest@);
        if rv.len() > 0 {
            lemma_best_upto_range(rv, rv.len() as int);
        }
    }
    assert(top_ranked(scored_view(rest@), (k - out@.len()) as nat) == Seq::<ScoredView>::empty());
    assert(scored_view(out@) + Seq::<ScoredView>::empty() == scored_view(out@));
    out
}

/// The sentences of `text` scored against the whole text's word frequencies.
pub open spec fn scored_sentences(text: Seq<char>) -> Seq<ScoredView> {
    sentences(text).map_values(|s: SentenceView| score_of(s, jieba_words(text)))
}

/// The summary of `text`: its `k` best-ranked sentences, best first.
pub open spec fn summary(text: Seq<char>, k: nat) -> Seq<Seq<char>> {
    top_ranked(scored_sentences(text), k).map_values(|s: ScoredView| s.text)
}

/// The `num_sentences` best sentences of `text`, best first: highest score,
/// and on equal scores the earlier sentence.
pub fn extract_summary(text: &str, num_sentences: usize, seg: &Segmenter) -> (r: Vec<String>)
    ensures
        strings_view(r@) == summary(text@, num_sentences as nat),
{
    let sentences = split_sentences(text);
    let freq = TermFrequencies::of_text(text, seg);
    let scored = score_sentences(&sentences, &freq, seg);
    assert(scored_view(scored@) == scored_sentences(text@));
    let top = select_top(scored, num_sentences);
    let mut out: Vec<String> = Vec::new();
    let mut i: usize = 0;
    while i < top.len()
        invariant
            i <= top@.len(),
            strings_view(out@) == scored_view(top@).take(i as int).map_values(|s: ScoredView| s.text),
        decreases top@.len() - i,
    {
        out.push(top[i].text.clone());
        assert(scored_view(top@).take(i + 1) == scored_view(top@).take(i as int).push(top@[i as int]@));
        assert(scored_view(top@).take(i + 1).map_values(|s: ScoredView| s.text) == scored_view(top@).take(i as int).map_values(|s: ScoredView| s.text).push(top@[i as int].text@));
        assert(strings_view(out@) == strings_view(out@).drop_last().push(top@[i as int].text@));
        i = i + 1;
    }
    assert(scored_view(top@).take(top@.len() as int) == scored_view(top@));
    out
}

/// The highest raw score among `items`; 0 when there are none.
pub open spec fn max_score(items: Seq<ScoredView>) -> nat
    decreases items.len(),
{
    if items.len() == 0 {
        0
    } else {
        let m = max_score(items.drop_last());
        if items.last().score > m { items.last().score } else { m }
    }
}

proof fn lemma_max_score(items: Seq<ScoredView>)
    ensures
        forall|i: int| 0 <= i < items.len() ==> #[trigger] items[i].score <= max_score(items),
        items.len() > 0 ==> exists|i: int| 0 <= i < items.len() && #[trigger] items[i].score == max_score(items),
    decreases items.len(),
{
    if items.len() > 0 {
        let init = items.drop_last();
        lemma_max_score(init);
        assert forall|i: int| 0 <= i < items.len() implies #[trigger] items[i].score <= max_score(items) by {
            if i < items.len() - 1 {
                assert(items[i] == init[i]);
            }
        }
        if items.last().score <= max_score(init) && init.len() > 0 {
            let i = choose|i: int| 0 <= i < init.len() && #[trigger] init[i].score == max_score(init);
            assert(items[i] == init[i]);
        } else {
            assert(items[items.len() - 1].score == max_score(items));
        }
    }
}

/// A sentence's normalized score is `score / max_score` (0 when the maximum is
/// 0): no raw score exceeds the maximum, so each normalized score lies in
/// [0, 1], and when sentences exist one of them reaches the maximum, scoring 1
/// unless every raw score is 0.
pub proof fn law_normalized_scores(text: Seq<char>)
    ensures
        forall|i: int| 0 <= i < scored_sentences(text).len() ==> #[trigger] scored_sentences(text)[i].score <= max_score(scored_sentences(text)),
        scored_sentences(text).len() > 0 ==> exists|i: int| 0 <= i < scored_sentences(text).len() && #[trigger] scored_sentences(text)[i].score == max_score(scored_sentences(text)),
{
    lemma_max_score(scored_sentences(text));
}

/// A summary of zero sentences is empty.
pub proof fn law_zero_sentences(text: Seq<char>)
    ensures
        summary(text, 0) == Seq::<Seq<char>>::empty(),
{
    assert(top_ranked(scored_sentences(text), 0) == Seq::<ScoredView>::empty());
}

/// The summary is a function of the text and the count alone.
pub proof fn law_summary_deterministic(a: Seq<char>, b: Seq<char>, k: nat)
    requires
        a == b,
    ensures
        summary(a, k) == summary(b, k),
{
}

proof fn lemma_best_is_first(items: Seq<ScoredView>, m: int)
    requires
        1 <= m <= items.len(),
    ensures
        forall|t: int| 0 <= t < m ==> !ranks_before(#[trigger] items[t], items[best_upto(items, m)]),
    decreases m,
{
    lemma_best_upto_range(items, m);
    if m > 1 {
        lemma_best_is_first(items, m - 1);
        lemma_best_upto_range(items, m - 1);
    }
}

pub open spec fn texts_of(items: Seq<ScoredView>) -> Seq<Seq<char>> {
    items.map_values(|s: ScoredView| s.text)
}

proof fn lemma_top_all_texts(items: Seq<ScoredView>, k: nat)
    requires
        k >= items.len(),
    ensures
        texts_of(top_ranked(items, k)).to_multiset() == texts_of(items).to_multiset(),
    decreases items.len(),
{
    broadcast use vstd::seq_lib::group_to_multiset_ensures;
    broadcast use vstd::multiset::group_multiset_axioms;
    if items.len() > 0 {
        let b = best(items);
        lemma_best_upto_range(items, items.len() as int);
        let rest = items.remove(b);
        let tail = top_ranked(rest, (k - 1) as nat);
        lemma_top_all_texts(rest, (k - 1) as nat);
        assert(texts_of(top_ranked(items, k)) =~= seq![items[b].text] + texts_of(tail));
        assert(texts_of(rest) =~= texts_of(items).remove(b));
        vstd::seq_lib::lemma_multiset_commutative(seq![items[b].text], texts_of(tail));
        assert(seq![items[b].text] =~= Seq::<Seq<char>>::empty().push(items[b].text));
        assert(texts_of(items)[b] == items[b].text);
        assert(texts_of(items).to_multiset().count(items[b].text) > 0);
        assert(texts_of(top_ranked(items, k)).to_multiset() =~= texts_of(items).to_multiset());
    } else {
        assert(texts_of(top_ranked(items, k)).to_multiset() =~= texts_of(items).to_multiset());
    }
}

/// Asking for at least as many sentences as the text has yields every
/// sentence, each as often as it occurs, in ranking order.
pub proof fn law_all_sentences(text: Seq<char>, k: nat)
    requires
        k >= sentences(text).len(),
    ensures
        summary(text, k).to_multiset() == sentences(text).map_values(|s: SentenceView| s.text).to_multiset(),
{
    lemma_top_all_texts(scored_sentences(text), k);
    assert(texts_of(top_ranked(scored_sentences(text), k)) == summary(text, k));
    assert(texts_of(scored_sentences(text)) =~= sentences(text).map_values(|s: SentenceView| s.text));
}

proof fn lemma_tie_break(items: Seq<ScoredView>, k: nat, a: int, b: int, j: int)
    requires
        0 <= a < items.len(),
        0 <= b < items.len(),
        items[a].score == items[b].score,
        items[a].position < items[b].position,
        0 <= j < top_ranked(items, k).len(),
        top_ranked(items, k)[j] == items[b],
    ensures
        exists|i: int| 0 <= i < j && #[trigger] top_ranked(items, k)[i] == items[a],
    decreases items.len(),
{
    let c = best(items);
    lemma_best_upto_range(items, items.len() as int);
    lemma_best_is_first(items, items.len() as int);
    let top = top_ranked(items, k);
    let rest = items.remove(c);
    let tail = top_ranked(rest, (k - 1) as nat);
    assert(top == seq![items[c]] + tail);
    assert(!ranks_before(items[a], items[c]));
    if items[c] == items[a] {
        assert(top[0] == items[a]);
    } else {
        assert(items[c] != items[b]);
        assert(j > 0);
        assert(tail[j - 1] == items[b]);
        let a2 = if a < c { a } else { a - 1 };
        let b2 = if b < c { b } else { b - 1 };
        assert(a != c);
        assert(b != c);
        assert(rest[a2] == items[a]);
        assert(rest[b2] == items[b]);
        lemma_tie_break(rest, (k - 1) as nat, a2, b2, j - 1);
        let i = choose|i: int| 0 <= i < j - 1 && #[trigger] tail[i] == items[a];
        assert(top[i + 1] == items[a]);
    }
}

/// Of two sentences with the same score, the earlier one ranks first: where
/// the later one is in the summary, the earlier one comes before it.
pub proof fn law_tie_break(text: Seq<char>, k: nat, a: int, b: int, j: int)
    requires
        0 <= a < scored_sentences(text).len(),
        0 <= b < scored_sentences(text).len(),
        scored_sentences(text)[a].score == scored_sentences(text)[b].score,
        scored_sentences(text)[a].position < scored_sentences(text)[b].position,
        0 <= j < top_ranked(scored_sentences(text), k).len(),
        top_ranked(scored_sentences(text), k)[j] == scored_sentences(text)[b],
    ensures
        exists|i: int| 0 <= i < j && #[trigger] top_ranked(scored_sentences(text), k)[i] == scored_sentences(text)[a]
            && summary(text, k)[i] == scored_sentences(text)[a].text,
{
    lemma_tie_break(scored_sentences(text), k, a, b, j);
    let i = choose|i: int| 0 <= i < j && #[trigger] top_ranked(scored_sentences(text), k)[i] == scored_sentences(text)[a];
    assert(summary(text, k)[i] == top_ranked(scored_sentences(text), k)[i].text);
}

} // verus!
