//! Segmenting a reconstructed text into alternating word and separator runs,
//! each tagged with the ordered, duplicate-collapsed list of source chunks
//! that contributed characters to it.

use vstd::prelude::*;

use crate::chunks::InputChunk;
use crate::chunks::lemma_take_succ;
use crate::chunks::texts_of;
use crate::reconstruct::AnnotatedString;
use crate::reconstruct::flatten_of;

verus! {

/// The category of a run: `Word` holds no separator characters, `Between`
/// holds only separator characters.
#[derive(Debug, PartialEq, Eq, Structural, Clone, Copy)]
pub enum WordCategory {
    Between,
    Word,
}

/// A maximal run of one category: its literal text and the ordered,
/// duplicate-collapsed list of indices of the chunks that contributed to it.
#[derive(Debug, PartialEq, Eq)]
pub struct AnnotatedWord {
    pub category: WordCategory,
    pub word: String,
    pub chunks: Vec<usize>,
}

/// The mathematical value of an [`AnnotatedWord`].
#[verifier::ext_equal]
pub ghost struct WordModel {
    pub category: WordCategory,
    pub text: Seq<char>,
    pub chunks: Seq<int>,
}

impl AnnotatedWord {
    /// The mathematical value of this run.
    pub open spec fn model(&self) -> WordModel {
        WordModel {
            category: self.category,
            text: self.word@,
            chunks: self.chunks@.map_values(|u: usize| u as int),
        }
    }

    /// Whether no edit touched any character of this run: it is attributed
    /// to exactly one chunk and that chunk is Equal.
    pub fn is_equal(&self, chunks: &Vec<InputChunk>) -> (r: bool)
        ensures
            r == word_is_equal(chunks@, self.model()),
    {
        if self.chunks.len() != 1 {
            return false;
        }
        let k = self.chunks[0];
        if k >= chunks.len() {
            return false;
        }
        match &chunks[k] {
            InputChunk::Equal(_) => true,
            _ => false,
        }
    }
}

/// A run is untouched by the edit: it is attributed to exactly one chunk and
/// that chunk is Equal.
pub open spec fn word_is_equal(chunks: Seq<InputChunk>, w: WordModel) -> bool {
    &&& w.chunks.len() == 1
    &&& 0 <= w.chunks[0] < chunks.len()
    &&& chunks[w.chunks[0]] is Equal
}

/// The mathematical values of a sequence of runs.
pub open spec fn word_models(ws: Seq<AnnotatedWord>) -> Seq<WordModel> {
    ws.map_values(|w: AnnotatedWord| w.model())
}

/// Whether the character has the Unicode `White_Space` property.
pub open spec fn char_is_whitespace(c: char) -> bool {
    let u = c as u32;
    ||| u == 0x09
    ||| u == 0x0A
    ||| u == 0x0B
    ||| u == 0x0C
    ||| u == 0x0D
    ||| u == 0x20
    ||| u == 0x85
    ||| u == 0xA0
    ||| u == 0x1680
    ||| (0x2000 <= u && u <= 0x200A)
    ||| u == 0x2028
    ||| u == 0x2029
    ||| u == 0x202F
    ||| u == 0x205F
    ||| u == 0x3000
}

/// Whether the character is ASCII punctuation.
pub open spec fn char_is_ascii_punctuation(c: char) -> bool {
    let u = c as u32;
    ||| (0x21 <= u && u <= 0x2F)
    ||| (0x3A <= u && u <= 0x40)
    ||| (0x5B <= u && u <= 0x60)
    ||| (0x7B <= u && u <= 0x7E)
}

/// A separator character is whitespace or ASCII punctuation; every other
/// character is a word character.
pub open spec fn is_separator(c: char) -> bool {
    char_is_whitespace(c) || char_is_ascii_punctuation(c)
}

/// The category of the run a character belongs to.
pub open spec fn run_category(c: char) -> WordCategory {
    if is_separator(c) {
        WordCategory::Between
    } else {
        WordCategory::Word
    }
}

/// Decides [`is_separator`].
pub fn is_separator_char(c: char) -> (r: bool)
    ensures
        r == is_separator(c),
{
    let u = c as u32;
    let ws = u == 0x09 || u == 0x0A || u == 0x0B || u == 0x0C || u == 0x0D || u == 0x20
        || u == 0x85 || u == 0xA0 || u == 0x1680 || (0x2000 <= u && u <= 0x200A) || u == 0x2028
        || u == 0x2029 || u == 0x202F || u == 0x205F || u == 0x3000;
    let punct = (0x21 <= u && u <= 0x2F) || (0x3A <= u && u <= 0x40) || (0x5B <= u && u <= 0x60)
        || (0x7B <= u && u <= 0x7E);
    ws || punct
}

/// Segmentation of an annotated character stream, one character at a time:
/// a character of a new category opens a run, a character of the current
/// run's category extends it, and a run's chunk list collapses consecutive
/// duplicates.
pub open spec fn segment(f: Seq<(char, int)>) -> Seq<WordModel>
    decreases f.len(),
{
    if f.len() == 0 {
        Seq::empty()
    } else {
        let prev = segment(f.drop_last());
        let c = f.last().0;
        let k = f.last().1;
        let cat = run_category(c);
        if prev.len() == 0 || prev.last().category != cat {
            prev.push(WordModel { category: cat, text: seq![c], chunks: seq![k] })
        } else {
            let w = prev.last();
            let cks = if w.chunks.len() > 0 && w.chunks.last() == k {
                w.chunks
            } else {
                w.chunks.push(k)
            };
            prev.update(
                prev.len() - 1,
                WordModel { category: cat, text: w.text.push(c), chunks: cks },
            )
        }
    }
}

/// The concatenation of a run sequence's texts.
pub open spec fn words_text(ws: Seq<WordModel>) -> Seq<char>
    decreases ws.len(),
{
    if ws.len() == 0 {
        Seq::empty()
    } else {
        words_text(ws.drop_last()) + ws.last().text
    }
}

/// Concatenating the runs of a segmentation reproduces the segmented text.
pub proof fn lemma_segment_words_text(f: Seq<(char, int)>)
    ensures
        words_text(segment(f)) == texts_of(f),
    decreases f.len(),
{
    if f.len() == 0 {
        assert(words_text(segment(f)) =~= texts_of(f));
    } else {
        lemma_segment_words_text(f.drop_last());
        let prev = segment(f.drop_last());
        let c = f.last().0;
        let cat = run_category(c);
        assert(texts_of(f) =~= texts_of(f.drop_last()).push(c));
        if prev.len() == 0 || prev.last().category != cat {
            let nw = segment(f);
            assert(nw.drop_last() =~= prev);
            assert(words_text(prev) + seq![c] =~= words_text(prev).push(c));
        } else {
            let w = prev.last();
            let nw = segment(f);
            assert(nw.drop_last() =~= prev.drop_last());
            assert(nw.last().text == w.text.push(c));
            assert(words_text(prev.drop_last()) + w.text.push(c)
                =~= (words_text(prev.drop_last()) + w.text).push(c));
        }
    }
}

/// A non-empty stream segments into at least one run.
pub proof fn lemma_segment_len_pos(f: Seq<(char, int)>)
    requires
        f.len() > 0,
    ensures
        segment(f).len() > 0,
{
    let prev = segment(f.drop_last());
    if prev.len() == 0 || prev.last().category != run_category(f.last().0) {
        assert(segment(f).len() == prev.len() + 1);
    } else {
        assert(segment(f).len() == prev.len());
    }
}

/// A stream whose characters all share one category segments into a single
/// run of that category, carrying all the characters, attributed first to
/// the first character's source and last to the last character's source.
pub proof fn lemma_segment_uniform(f: Seq<(char, int)>)
    requires
        f.len() > 0,
        forall|i: int|
            0 <= i < f.len() ==> run_category((#[trigger] f[i]).0) == run_category(f[0].0),
    ensures
        segment(f).len() == 1,
        segment(f)[0].category == run_category(f[0].0),
        segment(f)[0].text == texts_of(f),
        segment(f)[0].chunks.len() >= 1,
        segment(f)[0].chunks[0] == f[0].1,
        segment(f)[0].chunks.last() == f.last().1,
    decreases f.len(),
{
    if f.len() == 1 {
        assert(segment(f.drop_last()) =~= Seq::<WordModel>::empty());
        assert(texts_of(f) =~= seq![f[0].0]);
        assert(seq![f[0].1].last() == f[0].1);
    } else {
        assert(f.drop_last()[0] == f[0]);
        lemma_segment_uniform(f.drop_last());
        let prev = segment(f.drop_last());
        let c = f.last().0;
        assert(f.last() == f[f.len() - 1]);
        assert(run_category(c) == run_category(f[0].0));
        assert(prev.last() == prev[0]);
        let w = prev.last();
        assert(w.text.push(c) =~= texts_of(f)) by {
            assert(texts_of(f.drop_last()).push(c) =~= texts_of(f));
        }
        let cks = if w.chunks.len() > 0 && w.chunks.last() == f.last().1 {
            w.chunks
        } else {
            w.chunks.push(f.last().1)
        };
        assert(segment(f) == prev.update(0, WordModel {
            category: run_category(c),
            text: w.text.push(c),
            chunks: cks,
        }));
        assert(cks[0] == f[0].1);
        assert(cks.last() == f.last().1);
    }
}

/// The last run of a segmentation has the category of the last character.
pub proof fn lemma_segment_last_cat(f: Seq<(char, int)>)
    requires
        f.len() > 0,
    ensures
        segment(f).len() > 0,
        segment(f).last().category == run_category(f.last().0),
{
    lemma_segment_len_pos(f);
    let prev = segment(f.drop_last());
    let cat = run_category(f.last().0);
    if prev.len() == 0 || prev.last().category != cat {
        assert(segment(f).last().category == cat);
    } else {
        assert(segment(f).last().category == cat);
    }
}

/// Segmentation splits at a category boundary: when the last character
/// before the cut and the first one after it have different categories, the
/// two parts segment independently.
pub proof fn lemma_segment_split(f: Seq<(char, int)>, g: Seq<(char, int)>)
    requires
        f.len() > 0,
        g.len() > 0,
        run_category(f.last().0) != run_category(g[0].0),
    ensures
        segment(f + g) == segment(f) + segment(g),
    decreases g.len(),
{
    lemma_segment_last_cat(f);
    if g.len() == 1 {
        assert((f + g).drop_last() =~= f);
        assert((f + g).last() == g[0]);
        let cat = run_category(g[0].0);
        assert(segment(f + g) == segment(f).push(
            WordModel { category: cat, text: seq![g[0].0], chunks: seq![g[0].1] },
        ));
        assert(segment(g.drop_last()) =~= Seq::<WordModel>::empty()) by {
            assert(g.drop_last() =~= Seq::<(char, int)>::empty());
        }
        assert(g.last() == g[0]);
        assert(segment(g) == Seq::<WordModel>::empty().push(
            WordModel { category: cat, text: seq![g[0].0], chunks: seq![g[0].1] },
        ));
        assert(segment(f).push(
            WordModel { category: cat, text: seq![g[0].0], chunks: seq![g[0].1] },
        ) =~= segment(f) + segment(g));
    } else {
        let g2 = g.drop_last();
        assert(g2[0] == g[0]);
        lemma_segment_split(f, g2);
        lemma_segment_len_pos(g2);
        assert((f + g).drop_last() =~= f + g2);
        assert((f + g).last() == g.last());
        let prev = segment(f + g2);
        let prevg = segment(g2);
        assert(prev == segment(f) + prevg);
        assert(prev.last() == prevg.last());
        let c = g.last().0;
        let k = g.last().1;
        let cat = run_category(c);
        if prevg.last().category != cat {
            let w_new = WordModel { category: cat, text: seq![c], chunks: seq![k] };
            assert(segment(f + g) == prev.push(w_new));
            assert(segment(g) == prevg.push(w_new));
            assert(prev.push(w_new) =~= segment(f) + prevg.push(w_new));
        } else {
            let w = prevg.last();
            let cks = if w.chunks.len() > 0 && w.chunks.last() == k {
                w.chunks
            } else {
                w.chunks.push(k)
            };
            let w2 = WordModel { category: cat, text: w.text.push(c), chunks: cks };
            assert(segment(f + g) == prev.update(prev.len() - 1, w2));
            assert(segment(g) == prevg.update(prevg.len() - 1, w2));
            assert(prev.update(prev.len() - 1, w2)
                =~= segment(f) + prevg.update(prevg.len() - 1, w2));
        }
    }
}

/// When every character of the stream comes from the one chunk `k`, every
/// run is attributed to `k` alone.
pub proof fn lemma_segment_single_source(f: Seq<(char, int)>, k: int)
    requires
        forall|i: int| 0 <= i < f.len() ==> (#[trigger] f[i]).1 == k,
    ensures
        forall|m: int|
            0 <= m < segment(f).len() ==> (#[trigger] segment(f)[m]).chunks == seq![k],
    decreases f.len(),
{
    if f.len() > 0 {
        lemma_segment_single_source(f.drop_last(), k);
        let prev = segment(f.drop_last());
        let cur = segment(f);
        assert(f.last() == f[f.len() - 1]);
        assert(f.last().1 == k);
        assert forall|m: int| 0 <= m < cur.len() implies (#[trigger] cur[m]).chunks
            == seq![k] by {
            if prev.len() == 0 || prev.last().category != run_category(f.last().0) {
                if m < prev.len() {
                    assert(cur[m] == prev[m]);
                } else {
                    assert(cur[m].chunks == seq![f.last().1]);
                }
            } else {
                if m < prev.len() - 1 {
                    assert(cur[m] == prev[m]);
                } else {
                    let w = prev.last();
                    assert(w.chunks == seq![k]);
                    assert(w.chunks.last() == k);
                    assert(cur[m].chunks == w.chunks);
                }
            }
        }
    }
}

/// The state carried across the segmenter's traversal: `p` characters are
/// consumed, the finished runs are in `words`, and the run being built has
/// category `cat`, text `s[word_start..p]`, and chunk list `cks`.
spec fn seg_inv(
    s: Seq<char>,
    f: Seq<(char, int)>,
    p: int,
    words: Seq<AnnotatedWord>,
    cat: WordCategory,
    word_start: int,
    cks: Seq<usize>,
) -> bool {
    &&& s == texts_of(f)
    &&& 0 <= p <= f.len()
    &&& if p == 0 {
        &&& words.len() == 0
        &&& word_start == 0
        &&& cat == WordCategory::Between
        &&& cks.len() == 0
    } else {
        &&& 0 <= word_start < p
        &&& cks.len() > 0
        &&& segment(f.take(p)) == word_models(words).push(
            WordModel {
                category: cat,
                text: s.subrange(word_start, p),
                chunks: cks.map_values(|u: usize| u as int),
            },
        )
    }
}

impl AnnotatedString {
    /// Walks the annotations in order and groups the characters they cover
    /// into alternating word and separator runs.
    #[verifier::rlimit(100)]
    pub fn words(&self, chunks: &Vec<InputChunk>) -> (r: Vec<AnnotatedWord>)
        requires
            forall|i: int|
                0 <= i < self.annotations@.len()
                    ==> (#[trigger] self.annotations@[i]).chunk < chunks@.len(),
            self.string@ == texts_of(flatten_of(chunks@, self.annotations@)),
        ensures
            word_models(r@) == segment(flatten_of(chunks@, self.annotations@)),
            words_text(word_models(r@)) == self.string@,
    {
        proof {
            lemma_segment_words_text(flatten_of(chunks@, self.annotations@));
        }
        let ghost f = flatten_of(chunks@, self.annotations@);
        let ghost s = self.string@;
        let mut words: Vec<AnnotatedWord> = Vec::new();
        let mut current_chunks: Vec<usize> = Vec::new();
        let mut current_category = WordCategory::Between;
        let mut word_start: usize = 0;
        let mut p: usize = 0;
        let total = self.string.as_str().unicode_len();
        let n_ann = self.annotations.len();
        let mut j: usize = 0;
        proof {
            crate::reconstruct::lemma_flatten_of_prefix(chunks@, self.annotations@, 0);
        }
        while j < n_ann
            invariant
                n_ann == self.annotations@.len(),
                j <= n_ann,
                f == flatten_of(chunks@, self.annotations@),
                s == self.string@,
                total == s.len(),
                f.len() == s.len(),
                forall|i: int|
                    0 <= i < self.annotations@.len()
                        ==> (#[trigger] self.annotations@[i]).chunk < chunks@.len(),
                s == texts_of(f),
                p == flatten_of(chunks@, self.annotations@.take(j as int)).len(),
                flatten_of(chunks@, self.annotations@.take(j as int)) == f.take(p as int),
                seg_inv(s, f, p as int, words@, current_category, word_start as int, current_chunks@),
            decreases n_ann - j,
        {
            let ann_chunk = self.annotations[j].chunk;
            let cval = chunks[ann_chunk].value();
            let m = cval.unicode_len();
            let ghost p0 = p as int;
            proof {
                lemma_take_succ(self.annotations@, j as int);
                crate::reconstruct::lemma_flatten_of_prefix(chunks@, self.annotations@, j as int + 1);
                assert(flatten_of(chunks@, self.annotations@.take(j as int + 1))
                    == flatten_of(chunks@, self.annotations@.take(j as int))
                        + crate::chunks::pairs(cval@, ann_chunk as int));
                assert(flatten_of(chunks@, self.annotations@.take(j as int + 1)).len()
                    == p0 + m);
                assert(p0 + m <= f.len());
                assert forall|k: int| 0 <= k < m implies f[p0 + k] == (cval@[k], ann_chunk as int) by {
                    let g = flatten_of(chunks@, self.annotations@.take(j as int + 1));
                    assert(g == f.take(p0 + m));
                    assert(g[p0 + k] == f[p0 + k]);
                    assert(g[p0 + k] == crate::chunks::pairs(cval@, ann_chunk as int)[k]);
                }
            }
            let mut k: usize = 0;
            while k < m
                invariant
                    s == self.string@,
                    total == s.len(),
                    f.len() == s.len(),
                    s == texts_of(f),
                    f == flatten_of(chunks@, self.annotations@),
                    m == cval@.len(),
                    k <= m,
                    p == p0 + k,
                    p0 + m <= f.len(),
                    p0 == flatten_of(chunks@, self.annotations@.take(j as int)).len(),
                    flatten_of(chunks@, self.annotations@.take(j as int)) == f.take(p0),
                    n_ann == self.annotations@.len(),
                    j < n_ann,
                    ann_chunk == self.annotations@[j as int].chunk,
                    ann_chunk < chunks@.len(),
                    cval@ == chunks@[ann_chunk as int].text(),
                    forall|k2: int| 0 <= k2 < m ==> f[p0 + k2] == (cval@[k2], ann_chunk as int),
                    seg_inv(s, f, p as int, words@, current_category, word_start as int, current_chunks@),
                decreases m - k,
            {
                let ch = cval.get_char(k);
                proof {
                    assert(f[p as int] == (cval@[k as int], ann_chunk as int));
                    lemma_take_succ(f, p as int);
                    assert(s.len() == f.len()) by {
                        assert(s == texts_of(f));
                    }
                    assert(s[p as int] == ch) by {
                        assert(texts_of(f)[p as int] == f[p as int].0);
                    }
                }
                let sep = is_separator_char(ch);
                let ghost old_words = words@;
                let ghost old_cks = current_chunks@;
                let ghost old_cat = current_category;
                let ghost old_start = word_start as int;
                if sep {
                    if current_category == WordCategory::Word {
                        let text = self.string.as_str().substring_char(word_start, p).to_owned();
                        let finished = AnnotatedWord {
                            category: WordCategory::Word,
                            word: text,
                            chunks: current_chunks,
                        };
                        words.push(finished);
                        current_chunks = Vec::new();
                        current_category = WordCategory::Between;
                        word_start = p;
                        proof {
                            assert(word_models(words@)
                                =~= word_models(old_words).push(words@.last().model()));
                        }
                    }
                } else {
                    if current_category == WordCategory::Between {
                        if p > word_start {
                            let text = self.string.as_str().substring_char(word_start, p).to_owned();
                            let finished = AnnotatedWord {
                                category: WordCategory::Between,
                                word: text,
                                chunks: current_chunks,
                            };
                            words.push(finished);
                            current_chunks = Vec::new();
                            proof {
                                assert(word_models(words@)
                                    =~= word_models(old_words).push(words@.last().model()));
                            }
                        }
                        current_category = WordCategory::Word;
                        word_start = p;
                    }
                }
                let push_idx = if current_chunks.len() == 0 {
                    true
                } else {
                    current_chunks[current_chunks.len() - 1] != ann_chunk
                };
                if push_idx {
                    current_chunks.push(ann_chunk);
                }
                proof {
                    lemma_seg_step(
                        s,
                        f,
                        p as int,
                        old_words,
                        old_cat,
                        old_start,
                        old_cks,
                        words@,
                        current_category,
                        word_start as int,
                        current_chunks@,
                    );
                }
                p += 1;
                k += 1;
            }
            proof {
                lemma_take_succ(self.annotations@, j as int);
                crate::reconstruct::lemma_flatten_of_prefix(chunks@, self.annotations@, j as int + 1);
                assert(flatten_of(chunks@, self.annotations@.take(j as int + 1))
                    == f.take(p0) + crate::chunks::pairs(cval@, ann_chunk as int));
                assert(flatten_of(chunks@, self.annotations@.take(j as int + 1)).len()
                    == p0 + m);
                assert(flatten_of(chunks@, self.annotations@.take(j as int + 1))
                    == f.take(p as int));
            }
            j += 1;
        }
        proof {
            assert(self.annotations@.take(n_ann as int) =~= self.annotations@);
            assert(f.take(p as int) =~= f);
        }
        if p > 0 {
            let text = self.string.as_str().substring_char(word_start, p).to_owned();
            let finished = AnnotatedWord {
                category: current_category,
                word: text,
                chunks: current_chunks,
            };
            let ghost old_words = words@;
            words.push(finished);
            proof {
                assert(word_models(words@) =~= word_models(old_words).push(words@.last().model()));
            }
        }
        words
    }
}

/// One step of the segmenter preserves its state invariant: consuming the
/// character at position `p` turns the old accumulator state into the new
/// one, in each of the four category transitions.
proof fn lemma_seg_step(
    s: Seq<char>,
    f: Seq<(char, int)>,
    p: int,
    old_words: Seq<AnnotatedWord>,
    old_cat: WordCategory,
    old_start: int,
    old_cks: Seq<usize>,
    new_words: Seq<AnnotatedWord>,
    new_cat: WordCategory,
    new_start: int,
    new_cks: Seq<usize>,
)
    requires
        seg_inv(s, f, p, old_words, old_cat, old_start, old_cks),
        p < f.len(),
        s[p] == f[p].0,
        ({
            let c = f[p].0;
            let k = f[p].1;
            let cat = run_category(c);
            if cat == old_cat && p > 0 {
                // the run is extended in place
                &&& new_words == old_words
                &&& new_cat == old_cat
                &&& new_start == old_start
                &&& new_cks == (if old_cks.len() > 0 && old_cks.last() == k as usize {
                    old_cks
                } else {
                    old_cks.push(k as usize)
                })
            } else if p > 0 && old_cat != cat {
                // a new run opens; the old one is emitted unless it is the
                // implicit empty leading run
                &&& (if p > old_start {
                    &&& new_words.len() == old_words.len() + 1
                    &&& word_models(new_words) == word_models(old_words).push(
                        WordModel {
                            category: old_cat,
                            text: s.subrange(old_start, p),
                            chunks: old_cks.map_values(|u: usize| u as int),
                        },
                    )
                } else {
                    new_words == old_words
                })
                &&& new_cat == cat
                &&& new_start == p
                &&& new_cks =~= seq![k as usize]
            } else {
                // p == 0: the very first character opens the first run
                &&& new_words == old_words
                &&& new_cat == cat
                &&& new_start == 0
                &&& new_cks =~= seq![k as usize]
            }
        }),
        0 <= f[p].1 <= usize::MAX,
    ensures
        seg_inv(s, f, p + 1, new_words, new_cat, new_start, new_cks),
{
    let c = f[p].0;
    let k = f[p].1;
    let cat = run_category(c);
    assert((k as usize) as int == k);
    lemma_take_succ(f, p);
    let prev = segment(f.take(p));
    assert(s.len() == f.len()) by {
        assert(s == texts_of(f));
    }
    if p == 0 {
        assert(prev =~= Seq::<WordModel>::empty());
        assert(segment(f.take(1)) == prev.push(
            WordModel { category: cat, text: seq![c], chunks: seq![k] },
        ));
        assert(s.subrange(0, 1) =~= seq![c]);
        assert(seq![k as usize].map_values(|u: usize| u as int) =~= seq![k]);
        assert(word_models(new_words) =~= Seq::<WordModel>::empty());
        assert(segment(f.take(1)) =~= word_models(new_words).push(
            WordModel {
                category: new_cat,
                text: s.subrange(new_start, 1),
                chunks: new_cks.map_values(|u: usize| u as int),
            },
        ));
    } else {
        let cur = WordModel {
            category: old_cat,
            text: s.subrange(old_start, p),
            chunks: old_cks.map_values(|u: usize| u as int),
        };
        assert(prev == word_models(old_words).push(cur));
        assert(prev.len() > 0);
        assert(prev.last() == cur);
        if cat == old_cat {
            // extend the current run
            let cks2 = if cur.chunks.len() > 0 && cur.chunks.last() == k {
                cur.chunks
            } else {
                cur.chunks.push(k)
            };
            let w2 = WordModel { category: cat, text: cur.text.push(c), chunks: cks2 };
            assert(segment(f.take(p + 1)) == prev.update(prev.len() - 1, w2));
            assert(prev.update(prev.len() - 1, w2) =~= word_models(old_words).push(w2));
            assert(s.subrange(old_start, p + 1) =~= s.subrange(old_start, p).push(c));
            assert(new_cks.map_values(|u: usize| u as int) =~= cks2) by {
                if old_cks.len() > 0 && old_cks.last() == k as usize {
                    assert(cur.chunks.last() == k);
                } else {
                    assert(old_cks.push(k as usize).map_values(|u: usize| u as int)
                        =~= old_cks.map_values(|u: usize| u as int).push(k));
                    if old_cks.len() > 0 {
                        assert(cur.chunks.last() != k);
                    }
                }
            }
        } else {
            // open a new run
            let w2 = WordModel { category: cat, text: seq![c], chunks: seq![k] };
            assert(segment(f.take(p + 1)) == prev.push(w2));
            assert(p > old_start);
            assert(prev.push(w2) =~= word_models(new_words).push(w2));
            assert(s.subrange(p, p + 1) =~= seq![c]);
            assert(seq![k as usize].map_values(|u: usize| u as int) =~= seq![k]);
        }
    }
}

} // verus!
