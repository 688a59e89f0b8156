//! The full pipeline: reconstruct both texts, segment each into words,
//! resequence the two word lists into one word-level script, and consolidate
//! adjacent runs of the same kind.

use vstd::prelude::*;

use crate::chunks::InputChunk;
use crate::chunks::OutputChunk;
use crate::chunks::RunKind;
use crate::chunks::RunModel;
use crate::chunks::Side;
use crate::chunks::concat_side;
use crate::chunks::flatten_side;
use crate::chunks::kept_idx;
use crate::chunks::lemma_kept_idx_bounds;
use crate::chunks::lemma_texts_of_flatten_side;
use crate::chunks::no_adjacent_same_kind;
use crate::chunks::pairs;
use crate::chunks::run_models;
use crate::chunks::runs_text_a;
use crate::chunks::runs_text_b;
use crate::chunks::texts_of;
use crate::consolidate::consolidate_chunks;
use crate::consolidate::consolidate_spec;
use crate::consolidate::lemma_consolidate_all_equal;
use crate::reconstruct::Annotation;
use crate::reconstruct::reconstruct_a;
use crate::reconstruct::reconstruct_b;
use crate::resequence::aligned;
use crate::resequence::drain_to;
use crate::resequence::delete_runs;
use crate::resequence::equal_runs;
use crate::resequence::lemma_reseq_identity;
use crate::resequence::lemma_reseq_some_iff_aligned;
use crate::resequence::lemma_reseq_texts;
use crate::resequence::lemma_reseq_texts_all;
use crate::resequence::reseq;
use crate::resequence::resequence;
use crate::resequence::reseq_from;
use crate::segment::WordCategory;
use crate::segment::WordModel;
use crate::segment::is_separator;
use crate::segment::lemma_segment_uniform;
use crate::segment::lemma_segment_words_text;
use crate::segment::run_category;
use crate::segment::segment;
use crate::segment::word_is_equal;

verus! {

/// The word list of one side of the edit: the segmentation of that side's
/// annotated character stream.
pub open spec fn side_words(chunks: Seq<InputChunk>, side: Side) -> Seq<WordModel> {
    segment(flatten_side(chunks, side))
}

/// The word-level script of a chunk sequence: resequence the two sides'
/// word lists, then consolidate. `None` when the sides are not aligned.
pub open spec fn wordify_spec(chunks: Seq<InputChunk>) -> Option<Seq<RunModel>> {
    match reseq(chunks, side_words(chunks, Side::A), side_words(chunks, Side::B)) {
        Some(runs) => Some(consolidate_spec(runs)),
        None => None,
    }
}

/// Turns a character-level edit script into a word-level one. Succeeds
/// exactly when the two sides' word lists are aligned — they carry the same
/// equal words in the same order — and then the result is a round trip: its
/// Equal and Delete runs concatenate to the A text, its Equal and Insert
/// runs to the B text, and no two adjacent runs share a kind. Alignment can
/// fail even for a script a real character diff produces — in
/// [Equal("a "), Delete("x"), Equal(" b")] the B side's separator run spans
/// two chunks while the A side's separator runs stay inside one, so the
/// equal words differ — and `None` is then the explicit invariant-violation
/// signal in place of silently wrong output.
#[verifier::rlimit(100)]
pub fn wordify(chunks: &Vec<InputChunk>) -> (r: Option<Vec<OutputChunk>>)
    ensures
        (r is Some) <==> aligned(
            chunks@,
            side_words(chunks@, Side::A),
            side_words(chunks@, Side::B),
        ),
        (match r {
            Some(out) => wordify_spec(chunks@) == Some(run_models(out@)),
            None => wordify_spec(chunks@) is None,
        }),
        (match r {
            Some(out) => {
                &&& runs_text_a(run_models(out@)) == concat_side(chunks@, Side::A)
                &&& runs_text_b(run_models(out@)) == concat_side(chunks@, Side::B)
                &&& no_adjacent_same_kind(run_models(out@))
            },
            None => true,
        }),
{
    let annotated_a = reconstruct_a(chunks);
    let annotated_b = reconstruct_b(chunks);
    proof {
        lemma_kept_idx_bounds(chunks@, Side::A);
        lemma_kept_idx_bounds(chunks@, Side::B);
        assert forall|i: int| 0 <= i < annotated_a.annotations@.len() implies (
        #[trigger] annotated_a.annotations@[i]).chunk < chunks@.len() by {
            assert(annotated_a.annotations@.map_values(|a: Annotation| a.chunk as int)[i]
                == kept_idx(chunks@, Side::A)[i]);
        }
        assert forall|i: int| 0 <= i < annotated_b.annotations@.len() implies (
        #[trigger] annotated_b.annotations@[i]).chunk < chunks@.len() by {
            assert(annotated_b.annotations@.map_values(|a: Annotation| a.chunk as int)[i]
                == kept_idx(chunks@, Side::B)[i]);
        }
        lemma_texts_of_flatten_side(chunks@, Side::A);
        lemma_texts_of_flatten_side(chunks@, Side::B);
    }
    let words_a = annotated_a.words(chunks);
    let words_b = annotated_b.words(chunks);
    let ghost ma = side_words(chunks@, Side::A);
    let ghost mb = side_words(chunks@, Side::B);
    proof {
        lemma_reseq_some_iff_aligned(chunks@, ma, mb);
    }
    match resequence(chunks, &words_a, &words_b) {
        Some(out) => {
            let result = consolidate_chunks(&out);
            proof {
                lemma_reseq_texts_all(chunks@, ma, mb);
                lemma_segment_words_text(flatten_side(chunks@, Side::A));
                lemma_segment_words_text(flatten_side(chunks@, Side::B));
            }
            Some(result)
        },
        None => None,
    }
}

/// The character-level edit script that `dissimilar::diff` computes for the
/// two texts. The diff is a pure function of its two arguments, so its
/// result can carry a name; what the name denotes beyond the clauses of
/// [`diff_chunks`] is deliberately left open.
pub uninterp spec fn diff_of(a: Seq<char>, b: Seq<char>) -> Seq<InputChunk>;

/// Relies on `dissimilar::diff`: the result is a function of the two
/// arguments alone; the returned chunk sequence tiles both inputs — its
/// Equal and Delete chunk texts concatenate to the first text, its Equal and
/// Insert chunk texts to the second; and two equal inputs yield the single
/// Equal chunk carrying the shared text, or nothing when it is empty.
#[verifier::external_body]
fn diff_chunks(a: &str, b: &str) -> (r: Vec<InputChunk>)
    ensures
        r@ == diff_of(a@, b@),
        concat_side(r@, Side::A) == a@,
        concat_side(r@, Side::B) == b@,
        a@ == b@ && a@.len() > 0 ==> r@.len() == 1 && r@[0] is Equal && r@[0].text() == a@,
        a@ == b@ && a@.len() == 0 ==> r@.len() == 0,
{
    dissimilar::diff(a, b)
        .into_iter()
        .map(|c| match c {
            dissimilar::Chunk::Equal(s) => InputChunk::Equal(s.to_string()),
            dissimilar::Chunk::Delete(s) => InputChunk::Delete(s.to_string()),
            dissimilar::Chunk::Insert(s) => InputChunk::Insert(s.to_string()),
        })
        .collect()
}

/// Identity on a shared text: when the whole script is a single Equal chunk
/// with non-empty text — the script a character diff produces when the two
/// texts are equal and non-empty — the output is exactly one Equal run
/// carrying that text.
pub proof fn lemma_identity_single_equal(chunks: Seq<InputChunk>)
    requires
        chunks.len() == 1,
        chunks[0] is Equal,
        chunks[0].text().len() > 0,
    ensures
        wordify_spec(chunks) == Some(
            seq![RunModel { kind: RunKind::Equal, text: chunks[0].text() }],
        ),
{
    let t = chunks[0].text();
    let f = pairs(t, 0);
    assert(chunks.drop_last() =~= Seq::<InputChunk>::empty());
    assert(chunks.last() == chunks[0]);
    assert(flatten_side(Seq::<InputChunk>::empty(), Side::A) == Seq::<(char, int)>::empty());
    assert(flatten_side(Seq::<InputChunk>::empty(), Side::B) == Seq::<(char, int)>::empty());
    assert(Seq::<(char, int)>::empty() + f =~= f);
    assert(flatten_side(chunks, Side::A) == Seq::<(char, int)>::empty() + f);
    assert(flatten_side(chunks, Side::B) == Seq::<(char, int)>::empty() + f);
    let w = segment(f);
    assert(forall|i: int| 0 <= i < f.len() ==> (#[trigger] f[i]).1 == 0);
    crate::segment::lemma_segment_single_source(f, 0);
    assert forall|m: int| 0 <= m < w.len() implies word_is_equal(chunks, #[trigger] w[m]) by {
        assert(w[m].chunks == seq![0int]);
    }
    lemma_reseq_identity(chunks, w, 0);
    assert(f.len() == t.len());
    crate::segment::lemma_segment_len_pos(f);
    assert(equal_runs(w, 0).len() == w.len());
    assert(forall|m: int|
        0 <= m < equal_runs(w, 0).len() ==> (#[trigger] equal_runs(w, 0)[m]).kind is Equal);
    lemma_consolidate_all_equal(equal_runs(w, 0));
    lemma_reseq_texts(chunks, w, w, 0, 0);
    assert(w.skip(0) =~= w);
    lemma_segment_words_text(f);
    assert(texts_of(f) =~= t);
    assert(runs_text_a(equal_runs(w, 0)) == t);
    assert(word_is_equal(chunks, w[0]));
    assert(drain_to(chunks, w, 0) == 0);
    assert(delete_runs(w, 0, 0) =~= Seq::<RunModel>::empty());
    assert(Seq::<RunModel>::empty() + equal_runs(w, 0) =~= equal_runs(w, 0));
    assert(reseq(chunks, w, w) == Some(equal_runs(w, 0)));
    assert(wordify_spec(chunks) == Some(consolidate_spec(equal_runs(w, 0))));
}

/// The script shape a character diff produces for a substitution strictly
/// inside a word: a shared prefix, the deleted characters, the inserted
/// characters, a shared suffix, every character a word character.
pub open spec fn substitution_in_word(chunks: Seq<InputChunk>) -> bool {
    &&& script_shape(chunks)
    &&& chunks[0].text().len() > 0
    &&& chunks[1].text().len() > 0
    &&& chunks[2].text().len() > 0
    &&& chunks[3].text().len() > 0
    &&& forall|j: int, i: int|
        0 <= j < 4 && 0 <= i < chunks[j].text().len() ==> !is_separator(
            #[trigger] chunks[j].text()[i],
        )
}

/// The four-chunk shape shared by the substitution and boundary laws: a
/// shared prefix, deleted text, inserted text, a shared suffix.
pub open spec fn script_shape(chunks: Seq<InputChunk>) -> bool {
    &&& chunks.len() == 4
    &&& chunks[0] is Equal
    &&& chunks[1] is Delete
    &&& chunks[2] is Insert
    &&& chunks[3] is Equal
}

/// The annotated character streams of the four-chunk shape.
proof fn lemma_shape_flatten(chunks: Seq<InputChunk>)
    requires
        script_shape(chunks),
    ensures
        flatten_side(chunks, Side::A) == pairs(chunks[0].text(), 0) + pairs(chunks[1].text(), 1)
            + pairs(chunks[3].text(), 3),
        flatten_side(chunks, Side::B) == pairs(chunks[0].text(), 0) + pairs(chunks[2].text(), 2)
            + pairs(chunks[3].text(), 3),
{
    let t0 = chunks[0].text();
    let t1 = chunks[1].text();
    let t2 = chunks[2].text();
    let t3 = chunks[3].text();
    assert(chunks.drop_last() =~= chunks.take(3));
    assert(chunks.take(3).drop_last() =~= chunks.take(2));
    assert(chunks.take(2).drop_last() =~= chunks.take(1));
    assert(chunks.take(1).drop_last() =~= chunks.take(0));
    assert(chunks.take(0) =~= Seq::<InputChunk>::empty());
    assert(chunks.last() == chunks[3]);
    assert(chunks.take(3).last() == chunks[2]);
    assert(chunks.take(2).last() == chunks[1]);
    assert(chunks.take(1).last() == chunks[0]);
    let e: Seq<(char, int)> = Seq::empty();
    assert(flatten_side(chunks.take(0), Side::A) == e);
    assert(flatten_side(chunks.take(1), Side::A) == e + pairs(t0, 0));
    assert(flatten_side(chunks.take(2), Side::A) == (e + pairs(t0, 0)) + pairs(t1, 1));
    assert(flatten_side(chunks.take(3), Side::A) == (e + pairs(t0, 0)) + pairs(t1, 1));
    assert(flatten_side(chunks, Side::A) == ((e + pairs(t0, 0)) + pairs(t1, 1)) + pairs(t3, 3));
    assert(((e + pairs(t0, 0)) + pairs(t1, 1)) + pairs(t3, 3)
        =~= pairs(t0, 0) + pairs(t1, 1) + pairs(t3, 3));
    assert(flatten_side(chunks.take(0), Side::B) == e);
    assert(flatten_side(chunks.take(1), Side::B) == e + pairs(t0, 0));
    assert(flatten_side(chunks.take(2), Side::B) == e + pairs(t0, 0));
    assert(flatten_side(chunks.take(3), Side::B) == (e + pairs(t0, 0)) + pairs(t2, 2));
    assert(flatten_side(chunks, Side::B) == ((e + pairs(t0, 0)) + pairs(t2, 2)) + pairs(t3, 3));
    assert(((e + pairs(t0, 0)) + pairs(t2, 2)) + pairs(t3, 3)
        =~= pairs(t0, 0) + pairs(t2, 2) + pairs(t3, 3));
}

/// One side of an edit shape segments into a single word that is touched by
/// an edit: its first characters come from chunk 0 and its last from the
/// later chunk `postk`, so it is attributed to more than one chunk and is
/// not an equal word.
proof fn lemma_substitution_side_word(
    chunks: Seq<InputChunk>,
    f: Seq<(char, int)>,
    pre: Seq<char>,
    mid: Seq<char>,
    midk: int,
    post: Seq<char>,
    postk: int,
)
    requires
        f == pairs(pre, 0) + pairs(mid, midk) + pairs(post, postk),
        pre.len() > 0,
        post.len() > 0,
        postk > 0,
        forall|i: int| 0 <= i < pre.len() ==> !is_separator(#[trigger] pre[i]),
        forall|i: int| 0 <= i < mid.len() ==> !is_separator(#[trigger] mid[i]),
        forall|i: int| 0 <= i < post.len() ==> !is_separator(#[trigger] post[i]),
    ensures
        segment(f).len() == 1,
        segment(f)[0].text == pre + mid + post,
        !word_is_equal(chunks, segment(f)[0]),
{
    assert(f.len() == pre.len() + mid.len() + post.len());
    assert forall|i: int| 0 <= i < f.len() implies run_category((#[trigger] f[i]).0)
        == run_category(f[0].0) by {
        assert(f[0] == (pre[0], 0int));
        if i < pre.len() {
            assert(f[i] == (pre[i], 0int));
        } else if i < pre.len() + mid.len() {
            assert(f[i] == (mid[i - pre.len()], midk));
        } else {
            assert(f[i] == (post[i - pre.len() - mid.len()], postk));
        }
    }
    lemma_segment_uniform(f);
    assert(texts_of(f) =~= pre + mid + post);
    assert(f[0].1 == 0);
    assert(f.last() == f[f.len() - 1]);
    assert(f.last().1 == postk);
    let w = segment(f)[0];
    if w.chunks.len() == 1 {
        assert(w.chunks[0] == w.chunks.last());
        assert(false);
    }
}

/// Word-atomicity: a substitution strictly inside a word yields one Delete
/// run carrying the whole old word and one Insert run carrying the whole
/// new word — never a character-level split of the shared prefix or suffix.
pub proof fn lemma_word_atomicity(chunks: Seq<InputChunk>)
    requires
        substitution_in_word(chunks),
    ensures
        wordify_spec(chunks) == Some(
            seq![
                RunModel {
                    kind: RunKind::Delete,
                    text: chunks[0].text() + chunks[1].text() + chunks[3].text(),
                },
                RunModel {
                    kind: RunKind::Insert,
                    text: chunks[0].text() + chunks[2].text() + chunks[3].text(),
                },
            ],
        ),
{
    let t0 = chunks[0].text();
    let t1 = chunks[1].text();
    let t2 = chunks[2].text();
    let t3 = chunks[3].text();
    lemma_shape_flatten(chunks);
    let fa = flatten_side(chunks, Side::A);
    let fb = flatten_side(chunks, Side::B);
    lemma_substitution_side_word(chunks, fa, t0, t1, 1, t3, 3);
    lemma_substitution_side_word(chunks, fb, t0, t2, 2, t3, 3);
    let wa = segment(fa);
    let wb = segment(fb);
    assert(drain_to(chunks, wa, 1) == 1);
    assert(drain_to(chunks, wa, 0) == 1);
    assert(reseq_from(chunks, wa, wb, 1, 1) == Some(delete_runs(wa, 1, 1)));
    let head = seq![RunModel { kind: RunKind::Insert, text: wb[0].text }];
    assert(reseq_from(chunks, wa, wb, 1, 0)
        == Some(head + delete_runs(wa, 1, 1) + delete_runs(wa, 1, 1)));
    let del = RunModel { kind: RunKind::Delete, text: t0 + t1 + t3 };
    let ins = RunModel { kind: RunKind::Insert, text: t0 + t2 + t3 };
    let rs = seq![del, ins];
    assert(reseq(chunks, wa, wb) == Some(
        delete_runs(wa, 0, 1) + (head + delete_runs(wa, 1, 1) + delete_runs(wa, 1, 1)),
    ));
    assert(delete_runs(wa, 0, 1) + (head + delete_runs(wa, 1, 1) + delete_runs(wa, 1, 1))
        =~= rs);
    assert(rs.drop_last() =~= seq![del]);
    assert(rs.last() == ins);
    assert(seq![del].drop_last() =~= Seq::<RunModel>::empty());
    assert(seq![del].last() == del);
    assert(consolidate_spec(Seq::<RunModel>::empty()) == Seq::<RunModel>::empty());
    assert(consolidate_spec(seq![del]) == Seq::<RunModel>::empty().push(del));
    assert(Seq::<RunModel>::empty().push(del) =~= seq![del]);
    assert(consolidate_spec(rs) == seq![del].push(ins));
    assert(seq![del].push(ins) =~= rs);
}

/// The substitution shape with the edit chunks in the other order: some
/// character diffs emit the Insert before the Delete.
pub open spec fn substitution_in_word_swapped(chunks: Seq<InputChunk>) -> bool {
    &&& chunks.len() == 4
    &&& chunks[0] is Equal
    &&& chunks[1] is Insert
    &&& chunks[2] is Delete
    &&& chunks[3] is Equal
    &&& chunks[0].text().len() > 0
    &&& chunks[1].text().len() > 0
    &&& chunks[2].text().len() > 0
    &&& chunks[3].text().len() > 0
    &&& forall|j: int, i: int|
        0 <= j < 4 && 0 <= i < chunks[j].text().len() ==> !is_separator(
            #[trigger] chunks[j].text()[i],
        )
}

/// The annotated character streams of the swapped four-chunk shape.
proof fn lemma_shape_flatten_swapped(chunks: Seq<InputChunk>)
    requires
        chunks.len() == 4,
        chunks[0] is Equal,
        chunks[1] is Insert,
        chunks[2] is Delete,
        chunks[3] is Equal,
    ensures
        flatten_side(chunks, Side::A) == pairs(chunks[0].text(), 0) + pairs(chunks[2].text(), 2)
            + pairs(chunks[3].text(), 3),
        flatten_side(chunks, Side::B) == pairs(chunks[0].text(), 0) + pairs(chunks[1].text(), 1)
            + pairs(chunks[3].text(), 3),
{
    let t0 = chunks[0].text();
    let t1 = chunks[1].text();
    let t2 = chunks[2].text();
    let t3 = chunks[3].text();
    assert(chunks.drop_last() =~= chunks.take(3));
    assert(chunks.take(3).drop_last() =~= chunks.take(2));
    assert(chunks.take(2).drop_last() =~= chunks.take(1));
    assert(chunks.take(1).drop_last() =~= chunks.take(0));
    assert(chunks.take(0) =~= Seq::<InputChunk>::empty());
    assert(chunks.last() == chunks[3]);
    assert(chunks.take(3).last() == chunks[2]);
    assert(chunks.take(2).last() == chunks[1]);
    assert(chunks.take(1).last() == chunks[0]);
    let e: Seq<(char, int)> = Seq::empty();
    assert(flatten_side(chunks.take(0), Side::A) == e);
    assert(flatten_side(chunks.take(1), Side::A) == e + pairs(t0, 0));
    assert(flatten_side(chunks.take(2), Side::A) == e + pairs(t0, 0));
    assert(flatten_side(chunks.take(3), Side::A) == (e + pairs(t0, 0)) + pairs(t2, 2));
    assert(flatten_side(chunks, Side::A) == ((e + pairs(t0, 0)) + pairs(t2, 2)) + pairs(t3, 3));
    assert(((e + pairs(t0, 0)) + pairs(t2, 2)) + pairs(t3, 3)
        =~= pairs(t0, 0) + pairs(t2, 2) + pairs(t3, 3));
    assert(flatten_side(chunks.take(0), Side::B) == e);
    assert(flatten_side(chunks.take(1), Side::B) == e + pairs(t0, 0));
    assert(flatten_side(chunks.take(2), Side::B) == (e + pairs(t0, 0)) + pairs(t1, 1));
    assert(flatten_side(chunks.take(3), Side::B) == (e + pairs(t0, 0)) + pairs(t1, 1));
    assert(flatten_side(chunks, Side::B) == ((e + pairs(t0, 0)) + pairs(t1, 1)) + pairs(t3, 3));
    assert(((e + pairs(t0, 0)) + pairs(t1, 1)) + pairs(t3, 3)
        =~= pairs(t0, 0) + pairs(t1, 1) + pairs(t3, 3));
}

/// Word-atomicity with the edit chunks in the other order: the output is
/// the same whole-word Delete and Insert pair.
pub proof fn lemma_word_atomicity_insert_first(chunks: Seq<InputChunk>)
    requires
        substitution_in_word_swapped(chunks),
    ensures
        wordify_spec(chunks) == Some(
            seq![
                RunModel {
                    kind: RunKind::Delete,
                    text: chunks[0].text() + chunks[2].text() + chunks[3].text(),
                },
                RunModel {
                    kind: RunKind::Insert,
                    text: chunks[0].text() + chunks[1].text() + chunks[3].text(),
                },
            ],
        ),
{
    let t0 = chunks[0].text();
    let t1 = chunks[1].text();
    let t2 = chunks[2].text();
    let t3 = chunks[3].text();
    lemma_shape_flatten_swapped(chunks);
    let fa = flatten_side(chunks, Side::A);
    let fb = flatten_side(chunks, Side::B);
    lemma_substitution_side_word(chunks, fa, t0, t2, 2, t3, 3);
    lemma_substitution_side_word(chunks, fb, t0, t1, 1, t3, 3);
    let wa = segment(fa);
    let wb = segment(fb);
    assert(drain_to(chunks, wa, 1) == 1);
    assert(drain_to(chunks, wa, 0) == 1);
    assert(reseq_from(chunks, wa, wb, 1, 1) == Some(delete_runs(wa, 1, 1)));
    let head = seq![RunModel { kind: RunKind::Insert, text: wb[0].text }];
    assert(reseq_from(chunks, wa, wb, 1, 0)
        == Some(head + delete_runs(wa, 1, 1) + delete_runs(wa, 1, 1)));
    let del = RunModel { kind: RunKind::Delete, text: t0 + t2 + t3 };
    let ins = RunModel { kind: RunKind::Insert, text: t0 + t1 + t3 };
    let rs = seq![del, ins];
    assert(reseq(chunks, wa, wb) == Some(
        delete_runs(wa, 0, 1) + (head + delete_runs(wa, 1, 1) + delete_runs(wa, 1, 1)),
    ));
    assert(delete_runs(wa, 0, 1) + (head + delete_runs(wa, 1, 1) + delete_runs(wa, 1, 1))
        =~= rs);
    assert(rs.drop_last() =~= seq![del]);
    assert(rs.last() == ins);
    assert(seq![del].drop_last() =~= Seq::<RunModel>::empty());
    assert(seq![del].last() == del);
    assert(consolidate_spec(Seq::<RunModel>::empty()) == Seq::<RunModel>::empty());
    assert(consolidate_spec(seq![del]) == Seq::<RunModel>::empty().push(del));
    assert(Seq::<RunModel>::empty().push(del) =~= seq![del]);
    assert(consolidate_spec(rs) == seq![del].push(ins));
    assert(seq![del].push(ins) =~= rs);
}

/// Word-atomicity in context: the three-chunk script a character diff
/// produces for a substitution inside a text's last word. The shared prefix
/// carries an untouched word, a separator run, and the edited word's first
/// characters; the Delete holds the replaced characters; the shared suffix
/// the edited word's last characters. The untouched word and the separators
/// stay in one Equal run, and both versions of the edited word surface
/// whole, never split at character granularity.
pub proof fn lemma_word_atomicity_in_context(
    chunks: Seq<InputChunk>,
    pw: Seq<char>,
    ps: Seq<char>,
    w1: Seq<char>,
)
    requires
        chunks.len() == 3,
        chunks[0] is Equal,
        chunks[1] is Delete,
        chunks[2] is Equal,
        chunks[0].text() == pw + ps + w1,
        pw.len() > 0,
        ps.len() > 0,
        w1.len() > 0,
        chunks[1].text().len() > 0,
        chunks[2].text().len() > 0,
        forall|i: int| 0 <= i < pw.len() ==> !is_separator(#[trigger] pw[i]),
        forall|i: int| 0 <= i < ps.len() ==> is_separator(#[trigger] ps[i]),
        forall|i: int| 0 <= i < w1.len() ==> !is_separator(#[trigger] w1[i]),
        forall|i: int|
            0 <= i < chunks[1].text().len() ==> !is_separator(#[trigger] chunks[1].text()[i]),
        forall|i: int|
            0 <= i < chunks[2].text().len() ==> !is_separator(#[trigger] chunks[2].text()[i]),
    ensures
        wordify_spec(chunks) == Some(
            seq![
                RunModel { kind: RunKind::Equal, text: pw + ps },
                RunModel {
                    kind: RunKind::Delete,
                    text: w1 + chunks[1].text() + chunks[2].text(),
                },
                RunModel { kind: RunKind::Insert, text: w1 + chunks[2].text() },
            ],
        ),
{
    let t0 = chunks[0].text();
    let d = chunks[1].text();
    let w2 = chunks[2].text();
    // the two annotated streams of the three-chunk script
    assert(chunks.drop_last() =~= chunks.take(2));
    assert(chunks.take(2).drop_last() =~= chunks.take(1));
    assert(chunks.take(1).drop_last() =~= chunks.take(0));
    assert(chunks.take(0) =~= Seq::<InputChunk>::empty());
    assert(chunks.last() == chunks[2]);
    assert(chunks.take(2).last() == chunks[1]);
    assert(chunks.take(1).last() == chunks[0]);
    let e: Seq<(char, int)> = Seq::empty();
    assert(flatten_side(chunks.take(0), Side::A) == e);
    assert(flatten_side(chunks.take(1), Side::A) == e + pairs(t0, 0));
    assert(flatten_side(chunks.take(2), Side::A) == (e + pairs(t0, 0)) + pairs(d, 1));
    assert(flatten_side(chunks, Side::A) == ((e + pairs(t0, 0)) + pairs(d, 1)) + pairs(w2, 2));
    assert(flatten_side(chunks.take(0), Side::B) == e);
    assert(flatten_side(chunks.take(1), Side::B) == e + pairs(t0, 0));
    assert(flatten_side(chunks.take(2), Side::B) == e + pairs(t0, 0));
    assert(flatten_side(chunks, Side::B) == (e + pairs(t0, 0)) + pairs(w2, 2));
    let fa = flatten_side(chunks, Side::A);
    let fb = flatten_side(chunks, Side::B);
    let a1 = pairs(pw, 0);
    let a2 = pairs(ps, 0);
    let ga = pairs(w1, 0) + pairs(d, 1) + pairs(w2, 2);
    let gb = pairs(w1, 0) + pairs(Seq::<char>::empty(), 1) + pairs(w2, 2);
    assert(fa =~= (a1 + a2) + ga);
    assert(fb =~= (a1 + a2) + gb);
    // each block segments into one run
    lemma_segment_block(pw, 0);
    lemma_segment_block(ps, 0);
    lemma_substitution_side_word(chunks, ga, w1, d, 1, w2, 2);
    lemma_substitution_side_word(chunks, gb, w1, Seq::<char>::empty(), 1, w2, 2);
    assert(run_category(pw[0]) == WordCategory::Word);
    assert(run_category(ps[0]) == WordCategory::Between);
    let w_pw = WordModel { category: WordCategory::Word, text: pw, chunks: seq![0int] };
    let w_ps = WordModel { category: WordCategory::Between, text: ps, chunks: seq![0int] };
    let wda = segment(ga)[0];
    let wdb = segment(gb)[0];
    // segmentation splits at the two category boundaries
    assert(a1.last() == (pw[pw.len() - 1], 0int));
    assert(a2[0] == (ps[0], 0int));
    assert(a2.last() == (ps[ps.len() - 1], 0int));
    assert((a1 + a2).last() == a2.last());
    assert(ga[0] == (w1[0], 0int));
    assert(gb[0] == (w1[0], 0int));
    crate::segment::lemma_segment_split(a1, a2);
    crate::segment::lemma_segment_split(a1 + a2, ga);
    crate::segment::lemma_segment_split(a1 + a2, gb);
    let wa = segment(fa);
    let wb = segment(fb);
    assert(wa =~= seq![w_pw, w_ps, wda]) by {
        assert(segment(ga) =~= seq![wda]);
        assert(segment((a1 + a2) + ga) == (segment(a1) + segment(a2)) + segment(ga));
    }
    assert(wb =~= seq![w_pw, w_ps, wdb]) by {
        assert(segment(gb) =~= seq![wdb]);
        assert(segment((a1 + a2) + gb) == (segment(a1) + segment(a2)) + segment(gb));
    }
    // equal-word status of each run
    assert(word_is_equal(chunks, w_pw));
    assert(word_is_equal(chunks, w_ps));
    assert(!word_is_equal(chunks, wda));
    assert(!word_is_equal(chunks, wdb));
    // the cursor's stops on the A side
    assert(drain_to(chunks, wa, 3) == 3);
    assert(drain_to(chunks, wa, 2) == 3);
    assert(drain_to(chunks, wa, 1) == 1);
    assert(drain_to(chunks, wa, 0) == 0);
    // the resequencing, innermost call first
    let r3 = reseq_from(chunks, wa, wb, 3, 3);
    assert(r3 == Some(delete_runs(wa, 3, 3)));
    let r2 = reseq_from(chunks, wa, wb, 3, 2);
    assert(r2 == Some(
        seq![RunModel { kind: RunKind::Insert, text: wdb.text }] + delete_runs(wa, 3, 3)
            + delete_runs(wa, 3, 3),
    ));
    let r1 = reseq_from(chunks, wa, wb, 1, 1);
    assert(r1 == Some(
        seq![RunModel { kind: RunKind::Equal, text: ps }] + delete_runs(wa, 2, 3) + r2->Some_0,
    ));
    let r0 = reseq_from(chunks, wa, wb, 0, 0);
    assert(r0 == Some(
        seq![RunModel { kind: RunKind::Equal, text: pw }] + delete_runs(wa, 1, 1) + r1->Some_0,
    ));
    let eq_pw = RunModel { kind: RunKind::Equal, text: pw };
    let eq_ps = RunModel { kind: RunKind::Equal, text: ps };
    let del_w = RunModel { kind: RunKind::Delete, text: w1 + d + w2 };
    let ins_w = RunModel { kind: RunKind::Insert, text: w1 + w2 };
    let runs = seq![eq_pw, eq_ps, del_w, ins_w];
    assert(delete_runs(wa, 2, 3) =~= seq![del_w]);
    assert(wdb.text =~= w1 + w2) by {
        assert(wdb.text == w1 + Seq::<char>::empty() + w2);
    }
    assert(r0->Some_0 =~= runs);
    assert(delete_runs(wa, 0, 0) =~= Seq::<RunModel>::empty());
    assert(Seq::<RunModel>::empty() + r0->Some_0 =~= runs);
    assert(reseq(chunks, wa, wb) == Some(Seq::<RunModel>::empty() + r0->Some_0));
    // consolidation merges the two leading Equal runs
    let c2 = seq![RunModel { kind: RunKind::Equal, text: pw + ps }];
    let c3 = c2.push(del_w);
    let c4 = seq![RunModel { kind: RunKind::Equal, text: pw + ps }, del_w, ins_w];
    assert(runs.drop_last() =~= seq![eq_pw, eq_ps, del_w]);
    assert(seq![eq_pw, eq_ps, del_w].drop_last() =~= seq![eq_pw, eq_ps]);
    assert(seq![eq_pw, eq_ps].drop_last() =~= seq![eq_pw]);
    assert(seq![eq_pw].drop_last() =~= Seq::<RunModel>::empty());
    assert(consolidate_spec(seq![eq_pw]) =~= seq![eq_pw]) by {
        assert(consolidate_spec(Seq::<RunModel>::empty()) == Seq::<RunModel>::empty());
        assert(seq![eq_pw].last() == eq_pw);
        assert(Seq::<RunModel>::empty().push(eq_pw) =~= seq![eq_pw]);
    }
    assert(consolidate_spec(seq![eq_pw, eq_ps]) =~= c2) by {
        assert(seq![eq_pw, eq_ps].last() == eq_ps);
        assert(seq![eq_pw].update(0, RunModel { kind: RunKind::Equal, text: pw + ps }) =~= c2);
    }
    assert(consolidate_spec(seq![eq_pw, eq_ps, del_w]) =~= c3) by {
        assert(seq![eq_pw, eq_ps, del_w].last() == del_w);
        assert(c2.last().kind == RunKind::Equal);
    }
    assert(consolidate_spec(runs) =~= c4) by {
        assert(runs.last() == ins_w);
        assert(c3.last() == del_w);
        assert(c3.push(ins_w) =~= c4);
    }
}

/// A non-empty block of characters of one category, all from one chunk,
/// segments into exactly one run.
proof fn lemma_segment_block(text: Seq<char>, k: int)
    requires
        text.len() > 0,
        forall|i: int|
            0 <= i < text.len() ==> run_category(#[trigger] text[i]) == run_category(text[0]),
    ensures
        segment(pairs(text, k)) == seq![
            WordModel { category: run_category(text[0]), text: text, chunks: seq![k] },
        ],
{
    let f = pairs(text, k);
    assert(forall|i: int| 0 <= i < f.len() ==> (#[trigger] f[i]) == (text[i], k));
    assert forall|i: int| 0 <= i < f.len() implies run_category((#[trigger] f[i]).0)
        == run_category(f[0].0) by {
        assert(f[i].0 == text[i]);
        assert(f[0].0 == text[0]);
    }
    lemma_segment_uniform(f);
    crate::segment::lemma_segment_single_source(f, k);
    assert(texts_of(f) =~= text);
    assert(segment(f)[0].chunks == seq![k]);
    assert(segment(f) =~= seq![
        WordModel { category: run_category(text[0]), text: text, chunks: seq![k] },
    ]);
}

/// Boundary preservation: when the edit replaces the characters of one word
/// and the neighbouring words are untouched — the shared prefix is a word
/// followed by separators, the shared suffix separators followed by a word,
/// and the edited characters are word characters — the output keeps each
/// neighbouring word inside an Equal run and confines the edit to one Delete
/// run and one Insert run.
pub proof fn lemma_boundary_preservation(
    chunks: Seq<InputChunk>,
    pw: Seq<char>,
    ps: Seq<char>,
    qs: Seq<char>,
    qv: Seq<char>,
)
    requires
        script_shape(chunks),
        chunks[0].text() == pw + ps,
        chunks[3].text() == qs + qv,
        pw.len() > 0,
        ps.len() > 0,
        qs.len() > 0,
        qv.len() > 0,
        chunks[1].text().len() > 0,
        chunks[2].text().len() > 0,
        forall|i: int| 0 <= i < pw.len() ==> !is_separator(#[trigger] pw[i]),
        forall|i: int| 0 <= i < ps.len() ==> is_separator(#[trigger] ps[i]),
        forall|i: int| 0 <= i < qs.len() ==> is_separator(#[trigger] qs[i]),
        forall|i: int| 0 <= i < qv.len() ==> !is_separator(#[trigger] qv[i]),
        forall|i: int|
            0 <= i < chunks[1].text().len() ==> !is_separator(#[trigger] chunks[1].text()[i]),
        forall|i: int|
            0 <= i < chunks[2].text().len() ==> !is_separator(#[trigger] chunks[2].text()[i]),
    ensures
        wordify_spec(chunks) == Some(
            seq![
                RunModel { kind: RunKind::Equal, text: chunks[0].text() },
                RunModel { kind: RunKind::Delete, text: chunks[1].text() },
                RunModel { kind: RunKind::Insert, text: chunks[2].text() },
                RunModel { kind: RunKind::Equal, text: chunks[3].text() },
            ],
        ),
{
    let d = chunks[1].text();
    let n = chunks[2].text();
    lemma_shape_flatten(chunks);
    // the word lists of the two sides: five runs each
    let w1 = WordModel { category: WordCategory::Word, text: pw, chunks: seq![0int] };
    let w2 = WordModel { category: WordCategory::Between, text: ps, chunks: seq![0int] };
    let w3a = WordModel { category: WordCategory::Word, text: d, chunks: seq![1int] };
    let w3b = WordModel { category: WordCategory::Word, text: n, chunks: seq![2int] };
    let w4 = WordModel { category: WordCategory::Between, text: qs, chunks: seq![3int] };
    let w5 = WordModel { category: WordCategory::Word, text: qv, chunks: seq![3int] };
    lemma_segment_block(pw, 0);
    lemma_segment_block(ps, 0);
    lemma_segment_block(d, 1);
    lemma_segment_block(n, 2);
    lemma_segment_block(qs, 3);
    lemma_segment_block(qv, 3);
    assert(run_category(pw[0]) == WordCategory::Word);
    assert(run_category(ps[0]) == WordCategory::Between);
    assert(run_category(d[0]) == WordCategory::Word);
    assert(run_category(n[0]) == WordCategory::Word);
    assert(run_category(qs[0]) == WordCategory::Between);
    assert(run_category(qv[0]) == WordCategory::Word);
    let wa = lemma_shape_words(chunks, Side::A, pw, ps, d, 1, qs, qv, w1, w2, w3a, w4, w5);
    let wb = lemma_shape_words(chunks, Side::B, pw, ps, n, 2, qs, qv, w1, w2, w3b, w4, w5);
    // equal-word status of each run
    assert(word_is_equal(chunks, w1));
    assert(word_is_equal(chunks, w2));
    assert(!word_is_equal(chunks, w3a));
    assert(!word_is_equal(chunks, w3b));
    assert(word_is_equal(chunks, w4));
    assert(word_is_equal(chunks, w5));
    // the cursor's stops on the A side
    assert(drain_to(chunks, wa, 5) == 5);
    assert(drain_to(chunks, wa, 4) == 4);
    assert(drain_to(chunks, wa, 3) == 3);
    assert(drain_to(chunks, wa, 2) == 3);
    assert(drain_to(chunks, wa, 1) == 1);
    // the resequencing, innermost call first
    let r5 = reseq_from(chunks, wa, wb, 5, 5);
    assert(r5 == Some(delete_runs(wa, 5, 5)));
    let r4 = reseq_from(chunks, wa, wb, 4, 4);
    assert(r4 == Some(
        seq![RunModel { kind: RunKind::Equal, text: qv }] + delete_runs(wa, 5, 5)
            + delete_runs(wa, 5, 5),
    ));
    let r3 = reseq_from(chunks, wa, wb, 3, 3);
    assert(r3 == Some(
        seq![RunModel { kind: RunKind::Equal, text: qs }] + delete_runs(wa, 4, 4) + r4->Some_0,
    ));
    let r2 = reseq_from(chunks, wa, wb, 3, 2);
    assert(r2 == Some(
        seq![RunModel { kind: RunKind::Insert, text: n }] + delete_runs(wa, 3, 3) + r3->Some_0,
    ));
    let r1 = reseq_from(chunks, wa, wb, 1, 1);
    assert(r1 == Some(
        seq![RunModel { kind: RunKind::Equal, text: ps }] + delete_runs(wa, 2, 3) + r2->Some_0,
    ));
    let r0 = reseq_from(chunks, wa, wb, 0, 0);
    assert(r0 == Some(
        seq![RunModel { kind: RunKind::Equal, text: pw }] + delete_runs(wa, 1, 1) + r1->Some_0,
    ));
    let eq_pw = RunModel { kind: RunKind::Equal, text: pw };
    let eq_ps = RunModel { kind: RunKind::Equal, text: ps };
    let del_d = RunModel { kind: RunKind::Delete, text: d };
    let ins_n = RunModel { kind: RunKind::Insert, text: n };
    let eq_qs = RunModel { kind: RunKind::Equal, text: qs };
    let eq_qv = RunModel { kind: RunKind::Equal, text: qv };
    let runs = seq![eq_pw, eq_ps, del_d, ins_n, eq_qs, eq_qv];
    assert(delete_runs(wa, 2, 3) =~= seq![del_d]);
    assert(r0->Some_0 =~= runs);
    assert(drain_to(chunks, wa, 0) == 0);
    assert(delete_runs(wa, 0, 0) =~= Seq::<RunModel>::empty());
    assert(Seq::<RunModel>::empty() + r0->Some_0 =~= runs);
    assert(reseq(chunks, wa, wb) == Some(Seq::<RunModel>::empty() + r0->Some_0));
    // consolidation merges the two leading and the two trailing Equal runs
    let c1 = seq![eq_pw];
    let c2 = seq![RunModel { kind: RunKind::Equal, text: pw + ps }];
    let c3 = c2.push(del_d);
    let c4 = c3.push(ins_n);
    let c5 = c4.push(eq_qs);
    let c6 = seq![
        RunModel { kind: RunKind::Equal, text: pw + ps },
        del_d,
        ins_n,
        RunModel { kind: RunKind::Equal, text: qs + qv },
    ];
    assert(runs.drop_last() =~= seq![eq_pw, eq_ps, del_d, ins_n, eq_qs]);
    assert(runs.drop_last().drop_last() =~= seq![eq_pw, eq_ps, del_d, ins_n]);
    assert(runs.drop_last().drop_last().drop_last() =~= seq![eq_pw, eq_ps, del_d]);
    assert(seq![eq_pw, eq_ps, del_d].drop_last() =~= seq![eq_pw, eq_ps]);
    assert(seq![eq_pw, eq_ps].drop_last() =~= c1);
    assert(c1.drop_last() =~= Seq::<RunModel>::empty());
    assert(consolidate_spec(c1) =~= c1) by {
        assert(consolidate_spec(Seq::<RunModel>::empty()) == Seq::<RunModel>::empty());
        assert(c1.last() == eq_pw);
        assert(Seq::<RunModel>::empty().push(eq_pw) =~= c1);
    }
    assert(consolidate_spec(seq![eq_pw, eq_ps]) =~= c2) by {
        assert(seq![eq_pw, eq_ps].last() == eq_ps);
        assert(c1.update(0, RunModel { kind: RunKind::Equal, text: pw + ps }) =~= c2);
    }
    assert(consolidate_spec(seq![eq_pw, eq_ps, del_d]) =~= c3) by {
        assert(seq![eq_pw, eq_ps, del_d].last() == del_d);
        assert(c2.push(del_d) =~= c3);
    }
    assert(consolidate_spec(seq![eq_pw, eq_ps, del_d, ins_n]) =~= c4) by {
        assert(seq![eq_pw, eq_ps, del_d, ins_n].last() == ins_n);
        assert(c3.last() == del_d);
        assert(c3.push(ins_n) =~= c4);
    }
    assert(consolidate_spec(runs.drop_last()) =~= c5) by {
        assert(runs.drop_last().last() == eq_qs);
        assert(c4.last() == ins_n);
        assert(c4.push(eq_qs) =~= c5);
    }
    assert(consolidate_spec(runs) =~= c6) by {
        assert(runs.last() == eq_qv);
        assert(c5.last() == eq_qs);
        assert(c5.update(3, RunModel { kind: RunKind::Equal, text: qs + qv }) =~= c6);
    }
}

/// One side of the four-chunk boundary shape segments into five runs: word,
/// separators, the edited word, separators, word.
#[verifier::rlimit(30)]
proof fn lemma_shape_words(
    chunks: Seq<InputChunk>,
    side: Side,
    pw: Seq<char>,
    ps: Seq<char>,
    mid: Seq<char>,
    midk: int,
    qs: Seq<char>,
    qv: Seq<char>,
    w1: WordModel,
    w2: WordModel,
    w3: WordModel,
    w4: WordModel,
    w5: WordModel,
) -> (ws: Seq<WordModel>)
    requires
        script_shape(chunks),
        flatten_side(chunks, side) == pairs(pw + ps, 0) + pairs(mid, midk) + pairs(qs + qv, 3),
        pw.len() > 0,
        ps.len() > 0,
        mid.len() > 0,
        qs.len() > 0,
        qv.len() > 0,
        forall|i: int| 0 <= i < pw.len() ==> !is_separator(#[trigger] pw[i]),
        forall|i: int| 0 <= i < ps.len() ==> is_separator(#[trigger] ps[i]),
        forall|i: int| 0 <= i < mid.len() ==> !is_separator(#[trigger] mid[i]),
        forall|i: int| 0 <= i < qs.len() ==> is_separator(#[trigger] qs[i]),
        forall|i: int| 0 <= i < qv.len() ==> !is_separator(#[trigger] qv[i]),
        segment(pairs(pw, 0)) == seq![w1],
        segment(pairs(ps, 0)) == seq![w2],
        segment(pairs(mid, midk)) == seq![w3],
        segment(pairs(qs, 3)) == seq![w4],
        segment(pairs(qv, 3)) == seq![w5],
    ensures
        ws == side_words(chunks, side),
        ws == seq![w1, w2, w3, w4, w5],
{
    let a1 = pairs(pw, 0);
    let a2 = pairs(ps, 0);
    let a3 = pairs(mid, midk);
    let a4 = pairs(qs, 3);
    let a5 = pairs(qv, 3);
    let f2 = a1 + a2;
    let f3 = f2 + a3;
    let f4 = f3 + a4;
    let f5 = f4 + a5;
    assert(flatten_side(chunks, side) =~= f5) by {
        assert(pairs(pw + ps, 0) =~= a1 + a2);
        assert(pairs(qs + qv, 3) =~= a4 + a5);
        assert((a1 + a2) + pairs(mid, midk) + (a4 + a5) =~= f5);
    }
    assert(a1.last() == (pw[pw.len() - 1], 0int));
    assert(a2[0] == (ps[0], 0int));
    assert(a2.last() == (ps[ps.len() - 1], 0int));
    assert(a3[0] == (mid[0], midk));
    assert(a3.last() == (mid[mid.len() - 1], midk));
    assert(a4[0] == (qs[0], 3int));
    assert(a4.last() == (qs[qs.len() - 1], 3int));
    assert(a5[0] == (qv[0], 3int));
    assert(f2.last() == a2.last());
    assert(f3.last() == a3.last());
    assert(f4.last() == a4.last());
    crate::segment::lemma_segment_split(a1, a2);
    crate::segment::lemma_segment_split(f2, a3);
    crate::segment::lemma_segment_split(f3, a4);
    crate::segment::lemma_segment_split(f4, a5);
    assert(segment(f5) =~= seq![w1, w2, w3, w4, w5]);
    segment(f5)
}

/// Identity on emptiness: the empty script yields the empty output.
pub proof fn lemma_identity_empty(chunks: Seq<InputChunk>)
    requires
        chunks.len() == 0,
    ensures
        wordify_spec(chunks) == Some(Seq::<RunModel>::empty()),
{
    let w = side_words(chunks, Side::A);
    assert(flatten_side(chunks, Side::A) == Seq::<(char, int)>::empty());
    assert(flatten_side(chunks, Side::B) == Seq::<(char, int)>::empty());
    assert(w.len() == 0);
    assert(drain_to(chunks, w, 0) == 0);
    assert(reseq_from(chunks, w, w, 0, 0) == Some(delete_runs(w, 0, 0)));
    assert(delete_runs(w, 0, 0) =~= Seq::<RunModel>::empty());
    assert(delete_runs(w, 0, 0) + delete_runs(w, 0, 0) =~= Seq::<RunModel>::empty());
    assert(reseq(chunks, w, w) == Some(Seq::<RunModel>::empty()));
    assert(consolidate_spec(Seq::<RunModel>::empty()) == Seq::<RunModel>::empty());
}

/// Computes the character-level diff of the two texts and regroups it into
/// a word-level script. Succeeds exactly when the diff's two word lists are
/// aligned — in particular always when the texts are equal — and the result
/// is then the word-level script of that diff, a round trip between the two
/// texts.
pub fn wordify_diff(a: &str, b: &str) -> (r: Option<Vec<OutputChunk>>)
    ensures
        (r is Some) <==> aligned(
            diff_of(a@, b@),
            side_words(diff_of(a@, b@), Side::A),
            side_words(diff_of(a@, b@), Side::B),
        ),
        (match r {
            Some(out) => wordify_spec(diff_of(a@, b@)) == Some(run_models(out@)),
            None => wordify_spec(diff_of(a@, b@)) is None,
        }),
        a@ == b@ ==> r is Some,
        (match r {
            Some(out) => {
                &&& runs_text_a(run_models(out@)) == a@
                &&& runs_text_b(run_models(out@)) == b@
                &&& no_adjacent_same_kind(run_models(out@))
            },
            None => true,
        }),
{
    let chunks = diff_chunks(a, b);
    let r = wordify(&chunks);
    proof {
        if a@ == b@ {
            if a@.len() > 0 {
                lemma_identity_single_equal(chunks@);
            } else {
                lemma_identity_empty(chunks@);
            }
            lemma_reseq_some_iff_aligned(
                chunks@,
                side_words(chunks@, Side::A),
                side_words(chunks@, Side::B),
            );
        }
    }
    r
}

} // verus!
