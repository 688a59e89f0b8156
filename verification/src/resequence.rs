//! Merging the A-side and B-side word lists into one word-level edit script,
//! using the shared equal words as synchronization anchors: a single forward
//! pass over the B-side list with a cursor into the A-side list.

use vstd::prelude::*;

use crate::chunks::InputChunk;
use crate::chunks::OutputChunk;
use crate::chunks::RunKind;
use crate::chunks::RunModel;
use crate::chunks::run_models;
use crate::chunks::runs_text_a;
use crate::chunks::runs_text_b;
use crate::segment::AnnotatedWord;
use crate::segment::WordModel;
use crate::segment::word_is_equal;
use crate::segment::word_models;
use crate::segment::words_text;

verus! {

/// The position of the next equal word at or after `i`, or the list's length
/// if none remains.
pub open spec fn drain_to(chunks: Seq<InputChunk>, ws: Seq<WordModel>, i: int) -> int
    decreases ws.len() - i,
{
    if i < 0 || i >= ws.len() {
        ws.len() as int
    } else if word_is_equal(chunks, ws[i]) {
        i
    } else {
        drain_to(chunks, ws, i + 1)
    }
}

/// One Delete run for each word of `ws[lo..hi]`, in order.
pub open spec fn delete_runs(ws: Seq<WordModel>, lo: int, hi: int) -> Seq<RunModel> {
    Seq::new(
        if lo <= hi {
            (hi - lo) as nat
        } else {
            0
        },
        |k: int| RunModel { kind: RunKind::Delete, text: ws[lo + k].text },
    )
}

/// The resequenced word-level script from state (`i`, `j`): for each
/// remaining B-side word, an Equal run (consuming the matching A-side word)
/// or an Insert run, followed in either case by Delete runs for the A-side
/// words up to the next equal one; then Delete runs for the A-side tail.
/// `None` when a B-side equal word finds no matching equal word at the
/// A-side cursor, or when an A-side equal word is left unconsumed.
pub open spec fn reseq_from(
    chunks: Seq<InputChunk>,
    wa: Seq<WordModel>,
    wb: Seq<WordModel>,
    i: int,
    j: int,
) -> Option<Seq<RunModel>>
    decreases wb.len() - j,
{
    if j < 0 || j >= wb.len() {
        let i2 = drain_to(chunks, wa, i);
        if i2 == wa.len() {
            Some(delete_runs(wa, i, i2))
        } else {
            None
        }
    } else if word_is_equal(chunks, wb[j]) {
        if 0 <= i < wa.len() && word_is_equal(chunks, wa[i]) && wa[i].text == wb[j].text {
            let i2 = drain_to(chunks, wa, i + 1);
            match reseq_from(chunks, wa, wb, i2, j + 1) {
                Some(rest) => Some(
                    seq![RunModel { kind: RunKind::Equal, text: wb[j].text }]
                        + delete_runs(wa, i + 1, i2) + rest,
                ),
                None => None,
            }
        } else {
            None
        }
    } else {
        let i2 = drain_to(chunks, wa, i);
        match reseq_from(chunks, wa, wb, i2, j + 1) {
            Some(rest) => Some(
                seq![RunModel { kind: RunKind::Insert, text: wb[j].text }]
                    + delete_runs(wa, i, i2) + rest,
            ),
            None => None,
        }
    }
}

/// The resequenced word-level script of the two lists: Delete runs for the
/// A-side words before the first equal one surface first, then the forward
/// pass over the B side runs with the cursor at that equal word.
pub open spec fn reseq(
    chunks: Seq<InputChunk>,
    wa: Seq<WordModel>,
    wb: Seq<WordModel>,
) -> Option<Seq<RunModel>> {
    let i0 = drain_to(chunks, wa, 0);
    prepend(delete_runs(wa, 0, i0), reseq_from(chunks, wa, wb, i0, 0))
}

/// The texts of a word list's equal words, in order.
pub open spec fn eq_texts(chunks: Seq<InputChunk>, ws: Seq<WordModel>) -> Seq<Seq<char>>
    decreases ws.len(),
{
    if ws.len() == 0 {
        Seq::empty()
    } else if word_is_equal(chunks, ws[0]) {
        seq![ws[0].text] + eq_texts(chunks, ws.drop_first())
    } else {
        eq_texts(chunks, ws.drop_first())
    }
}

/// The synchronization precondition of the resequencer: the two word lists
/// carry the same equal words in the same order.
pub open spec fn aligned(
    chunks: Seq<InputChunk>,
    wa: Seq<WordModel>,
    wb: Seq<WordModel>,
) -> bool {
    eq_texts(chunks, wa) == eq_texts(chunks, wb)
}

/// Prefixing a run sequence onto an optional run sequence.
pub open spec fn prepend(pre: Seq<RunModel>, rest: Option<Seq<RunModel>>) -> Option<Seq<RunModel>> {
    match rest {
        Some(r) => Some(pre + r),
        None => None,
    }
}

proof fn lemma_prepend_assoc(pre: Seq<RunModel>, mid: Seq<RunModel>, rest: Option<Seq<RunModel>>)
    ensures
        prepend(pre, prepend(mid, rest)) == prepend(pre + mid, rest),
{
    match rest {
        Some(r) => {
            assert(pre + (mid + r) =~= (pre + mid) + r);
        },
        None => {},
    }
}

/// Where the cursor stops: at the next equal word, or at the end; every word
/// passed over is not equal.
pub proof fn lemma_drain_to_range(chunks: Seq<InputChunk>, ws: Seq<WordModel>, i: int)
    requires
        0 <= i <= ws.len(),
    ensures
        i <= drain_to(chunks, ws, i) <= ws.len(),
        drain_to(chunks, ws, i) == ws.len() || word_is_equal(
            chunks,
            ws[drain_to(chunks, ws, i)],
        ),
        forall|m: int| i <= m < drain_to(chunks, ws, i) ==> !word_is_equal(chunks, ws[m]),
    decreases ws.len() - i,
{
    if i < ws.len() && !word_is_equal(chunks, ws[i]) {
        lemma_drain_to_range(chunks, ws, i + 1);
    }
}

/// Unfolding the equal-word texts of a suffix by one word.
proof fn lemma_eq_texts_skip_step(chunks: Seq<InputChunk>, ws: Seq<WordModel>, i: int)
    requires
        0 <= i < ws.len(),
    ensures
        eq_texts(chunks, ws.skip(i)) == if word_is_equal(chunks, ws[i]) {
            seq![ws[i].text] + eq_texts(chunks, ws.skip(i + 1))
        } else {
            eq_texts(chunks, ws.skip(i + 1))
        },
{
    assert(ws.skip(i).len() > 0);
    assert(ws.skip(i)[0] == ws[i]);
    assert(ws.skip(i).drop_first() =~= ws.skip(i + 1));
}

/// Passing over non-equal words does not change the equal-word texts.
proof fn lemma_eq_texts_drain(chunks: Seq<InputChunk>, ws: Seq<WordModel>, i: int)
    requires
        0 <= i <= ws.len(),
    ensures
        eq_texts(chunks, ws.skip(drain_to(chunks, ws, i))) == eq_texts(chunks, ws.skip(i)),
    decreases ws.len() - i,
{
    if i < ws.len() && !word_is_equal(chunks, ws[i]) {
        lemma_eq_texts_skip_step(chunks, ws, i);
        lemma_eq_texts_drain(chunks, ws, i + 1);
    }
}

/// A suffix with no equal word left has no equal-word texts, and conversely.
proof fn lemma_eq_texts_empty(chunks: Seq<InputChunk>, ws: Seq<WordModel>, i: int)
    requires
        0 <= i <= ws.len(),
    ensures
        (drain_to(chunks, ws, i) == ws.len()) <==> (eq_texts(chunks, ws.skip(i)).len() == 0),
{
    lemma_drain_to_range(chunks, ws, i);
    lemma_eq_texts_drain(chunks, ws, i);
    let d = drain_to(chunks, ws, i);
    if d == ws.len() {
        assert(ws.skip(d) =~= Seq::<WordModel>::empty());
    } else {
        lemma_eq_texts_skip_step(chunks, ws, d);
    }
}

/// Side texts distribute over concatenation of run sequences.
pub proof fn lemma_runs_text_add(x: Seq<RunModel>, y: Seq<RunModel>)
    ensures
        runs_text_a(x + y) == runs_text_a(x) + runs_text_a(y),
        runs_text_b(x + y) == runs_text_b(x) + runs_text_b(y),
    decreases y.len(),
{
    if y.len() == 0 {
        assert(x + y =~= x);
        assert(runs_text_a(x) + runs_text_a(y) =~= runs_text_a(x));
        assert(runs_text_b(x) + runs_text_b(y) =~= runs_text_b(x));
    } else {
        lemma_runs_text_add(x, y.drop_last());
        assert((x + y).drop_last() =~= x + y.drop_last());
        assert((x + y).last() == y.last());
        assert((runs_text_a(x) + runs_text_a(y.drop_last())) + y.last().text
            =~= runs_text_a(x) + (runs_text_a(y.drop_last()) + y.last().text));
        assert((runs_text_b(x) + runs_text_b(y.drop_last())) + y.last().text
            =~= runs_text_b(x) + (runs_text_b(y.drop_last()) + y.last().text));
    }
}

/// The text of a word list distributes over concatenation.
pub proof fn lemma_words_text_add(x: Seq<WordModel>, y: Seq<WordModel>)
    ensures
        words_text(x + y) == words_text(x) + words_text(y),
    decreases y.len(),
{
    if y.len() == 0 {
        assert(x + y =~= x);
        assert(words_text(x) + words_text(y) =~= words_text(x));
    } else {
        lemma_words_text_add(x, y.drop_last());
        assert((x + y).drop_last() =~= x + y.drop_last());
        assert((x + y).last() == y.last());
        assert((words_text(x) + words_text(y.drop_last())) + y.last().text
            =~= words_text(x) + (words_text(y.drop_last()) + y.last().text));
    }
}

/// Peeling the first word off a suffix's text.
proof fn lemma_words_text_cons(ws: Seq<WordModel>, i: int)
    requires
        0 <= i < ws.len(),
    ensures
        words_text(ws.skip(i)) == ws[i].text + words_text(ws.skip(i + 1)),
{
    assert(ws.skip(i) =~= seq![ws[i]] + ws.skip(i + 1));
    lemma_words_text_add(seq![ws[i]], ws.skip(i + 1));
    assert(seq![ws[i]].drop_last() =~= Seq::<WordModel>::empty());
    assert(seq![ws[i]].last() == ws[i]);
    assert(words_text(Seq::<WordModel>::empty()) == Seq::<char>::empty());
    assert(words_text(seq![ws[i]]) == Seq::<char>::empty() + ws[i].text);
    assert(Seq::<char>::empty() + ws[i].text =~= ws[i].text);
}

/// The side texts of a single run.
proof fn lemma_runs_text_single(r: RunModel)
    ensures
        runs_text_a(seq![r]) == if r.kind is Insert {
            Seq::<char>::empty()
        } else {
            r.text
        },
        runs_text_b(seq![r]) == if r.kind is Delete {
            Seq::<char>::empty()
        } else {
            r.text
        },
{
    assert(seq![r].drop_last() =~= Seq::<RunModel>::empty());
    assert(seq![r].last() == r);
    assert(runs_text_a(Seq::<RunModel>::empty()) == Seq::<char>::empty());
    assert(runs_text_b(Seq::<RunModel>::empty()) == Seq::<char>::empty());
    if !(r.kind is Insert) {
        assert(runs_text_a(seq![r]) == Seq::<char>::empty() + r.text);
        assert(Seq::<char>::empty() + r.text =~= r.text);
    }
    if !(r.kind is Delete) {
        assert(runs_text_b(seq![r]) == Seq::<char>::empty() + r.text);
        assert(Seq::<char>::empty() + r.text =~= r.text);
    }
}

/// Splitting a suffix's text at a middle position.
proof fn lemma_words_text_split(ws: Seq<WordModel>, i: int, k: int)
    requires
        0 <= i <= k <= ws.len(),
    ensures
        words_text(ws.skip(i)) == words_text(ws.subrange(i, k)) + words_text(ws.skip(k)),
{
    assert(ws.skip(i) =~= ws.subrange(i, k) + ws.skip(k));
    lemma_words_text_add(ws.subrange(i, k), ws.skip(k));
}

/// Delete runs carry exactly their words' text on the A side and nothing on
/// the B side.
proof fn lemma_delete_runs_texts(ws: Seq<WordModel>, lo: int, hi: int)
    requires
        0 <= lo <= hi <= ws.len(),
    ensures
        runs_text_a(delete_runs(ws, lo, hi)) == words_text(ws.subrange(lo, hi)),
        runs_text_b(delete_runs(ws, lo, hi)) == Seq::<char>::empty(),
    decreases hi - lo,
{
    if hi > lo {
        lemma_delete_runs_texts(ws, lo, hi - 1);
        assert(delete_runs(ws, lo, hi).drop_last() =~= delete_runs(ws, lo, hi - 1));
        assert(delete_runs(ws, lo, hi).last()
            == RunModel { kind: RunKind::Delete, text: ws[hi - 1].text });
        assert(ws.subrange(lo, hi).drop_last() =~= ws.subrange(lo, hi - 1));
        assert(ws.subrange(lo, hi).last() == ws[hi - 1]);
    } else {
        assert(delete_runs(ws, lo, hi) =~= Seq::<RunModel>::empty());
        assert(ws.subrange(lo, hi) =~= Seq::<WordModel>::empty());
    }
}

/// A successful resequencing is a round trip: its Equal and Delete runs
/// concatenate to the A-side words' text and its Equal and Insert runs to
/// the B-side words' text, from the given cursors on.
pub proof fn lemma_reseq_texts(
    chunks: Seq<InputChunk>,
    wa: Seq<WordModel>,
    wb: Seq<WordModel>,
    i: int,
    j: int,
)
    requires
        0 <= i <= wa.len(),
        0 <= j <= wb.len(),
        reseq_from(chunks, wa, wb, i, j) is Some,
    ensures
        runs_text_a(reseq_from(chunks, wa, wb, i, j)->Some_0) == words_text(wa.skip(i)),
        runs_text_b(reseq_from(chunks, wa, wb, i, j)->Some_0) == words_text(wb.skip(j)),
    decreases wb.len() - j,
{
    if j >= wb.len() {
        let i2 = drain_to(chunks, wa, i);
        lemma_drain_to_range(chunks, wa, i);
        lemma_delete_runs_texts(wa, i, i2);
        assert(wa.subrange(i, i2) =~= wa.skip(i));
        assert(wb.skip(j) =~= Seq::<WordModel>::empty());
    } else if word_is_equal(chunks, wb[j]) {
        let i2 = drain_to(chunks, wa, i + 1);
        lemma_drain_to_range(chunks, wa, i + 1);
        lemma_reseq_texts(chunks, wa, wb, i2, j + 1);
        let rest = reseq_from(chunks, wa, wb, i2, j + 1)->Some_0;
        let head = seq![RunModel { kind: RunKind::Equal, text: wb[j].text }];
        let dels = delete_runs(wa, i + 1, i2);
        lemma_runs_text_add(head + dels, rest);
        lemma_runs_text_add(head, dels);
        lemma_delete_runs_texts(wa, i + 1, i2);
        lemma_runs_text_single(RunModel { kind: RunKind::Equal, text: wb[j].text });
        assert(runs_text_a(head) == wb[j].text);
        assert(runs_text_b(head) == wb[j].text);
        lemma_words_text_split(wa, i + 1, i2);
        lemma_words_text_cons(wa, i);
        lemma_words_text_cons(wb, j);
        assert(runs_text_a(head + dels + rest)
            =~= wa[i].text + (words_text(wa.subrange(i + 1, i2)) + words_text(wa.skip(i2))));
        assert(runs_text_b(head + dels + rest) =~= wb[j].text + words_text(wb.skip(j + 1)));
        assert(runs_text_b(dels) + runs_text_b(rest) =~= runs_text_b(rest));
    } else {
        let i2 = drain_to(chunks, wa, i);
        lemma_drain_to_range(chunks, wa, i);
        lemma_reseq_texts(chunks, wa, wb, i2, j + 1);
        let rest = reseq_from(chunks, wa, wb, i2, j + 1)->Some_0;
        let head = seq![RunModel { kind: RunKind::Insert, text: wb[j].text }];
        let dels = delete_runs(wa, i, i2);
        lemma_runs_text_add(head + dels, rest);
        lemma_runs_text_add(head, dels);
        lemma_delete_runs_texts(wa, i, i2);
        lemma_runs_text_single(RunModel { kind: RunKind::Insert, text: wb[j].text });
        assert(runs_text_a(head) == Seq::<char>::empty());
        assert(runs_text_b(head) == wb[j].text);
        lemma_words_text_split(wa, i, i2);
        lemma_words_text_cons(wb, j);
        assert(runs_text_a(head + dels + rest)
            =~= words_text(wa.subrange(i, i2)) + words_text(wa.skip(i2)));
        assert(runs_text_b(head + dels + rest) =~= wb[j].text + words_text(wb.skip(j + 1)));
        assert(runs_text_b(dels) + runs_text_b(rest) =~= runs_text_b(rest));
    }
}

/// The resequencer succeeds exactly when, from the given cursors on, the two
/// lists carry the same equal-word texts in order and a B-side equal word at
/// the cursor is answered by an A-side equal word at the cursor.
pub proof fn lemma_reseq_some_iff(
    chunks: Seq<InputChunk>,
    wa: Seq<WordModel>,
    wb: Seq<WordModel>,
    i: int,
    j: int,
)
    requires
        0 <= i <= wa.len(),
        0 <= j <= wb.len(),
    ensures
        (reseq_from(chunks, wa, wb, i, j) is Some) <==> ({
            &&& eq_texts(chunks, wa.skip(i)) == eq_texts(chunks, wb.skip(j))
            &&& ((j < wb.len() && word_is_equal(chunks, wb[j])) ==> (i < wa.len()
                && word_is_equal(chunks, wa[i])))
        }),
    decreases wb.len() - j,
{
    if j >= wb.len() {
        lemma_eq_texts_empty(chunks, wa, i);
        assert(wb.skip(j) =~= Seq::<WordModel>::empty());
        if eq_texts(chunks, wa.skip(i)).len() == 0 {
            assert(eq_texts(chunks, wa.skip(i)) =~= Seq::<Seq<char>>::empty());
        }
    } else if word_is_equal(chunks, wb[j]) {
        lemma_eq_texts_skip_step(chunks, wb, j);
        if i < wa.len() && word_is_equal(chunks, wa[i]) {
            lemma_eq_texts_skip_step(chunks, wa, i);
            let i2 = drain_to(chunks, wa, i + 1);
            lemma_drain_to_range(chunks, wa, i + 1);
            lemma_eq_texts_drain(chunks, wa, i + 1);
            lemma_reseq_some_iff(chunks, wa, wb, i2, j + 1);
            let sa = eq_texts(chunks, wa.skip(i + 1));
            let sb = eq_texts(chunks, wb.skip(j + 1));
            if wa[i].text == wb[j].text {
                if sa == sb {
                    assert(seq![wa[i].text] + sa =~= seq![wb[j].text] + sb);
                }
                if eq_texts(chunks, wa.skip(i)) == eq_texts(chunks, wb.skip(j)) {
                    assert(sa =~= sb) by {
                        assert(seq![wa[i].text] + sa == seq![wb[j].text] + sb);
                        assert((seq![wa[i].text] + sa).len() == 1 + sa.len());
                        assert((seq![wb[j].text] + sb).len() == 1 + sb.len());
                        assert(sa.len() == sb.len());
                        assert forall|m: int| 0 <= m < sa.len() implies sa[m] == sb[m] by {
                            assert((seq![wa[i].text] + sa)[m + 1] == sa[m]);
                            assert((seq![wb[j].text] + sb)[m + 1] == sb[m]);
                        }
                    }
                }
                if j + 1 < wb.len() && word_is_equal(chunks, wb[j + 1]) {
                    lemma_eq_texts_skip_step(chunks, wb, j + 1);
                }
                if i2 == wa.len() {
                    assert(wa.skip(i2) =~= Seq::<WordModel>::empty());
                }
            } else {
                if eq_texts(chunks, wa.skip(i)) == eq_texts(chunks, wb.skip(j)) {
                    assert((seq![wa[i].text] + sa)[0] == wa[i].text);
                    assert((seq![wb[j].text] + sb)[0] == wb[j].text);
                    assert(false);
                }
            }
        } else {
            // the B-side equal word finds no equal word at the A cursor:
            // both sides of the equivalence are false
        }
    } else {
        lemma_eq_texts_skip_step(chunks, wb, j);
        let i2 = drain_to(chunks, wa, i);
        lemma_drain_to_range(chunks, wa, i);
        lemma_eq_texts_drain(chunks, wa, i);
        lemma_reseq_some_iff(chunks, wa, wb, i2, j + 1);
        if j + 1 < wb.len() && word_is_equal(chunks, wb[j + 1]) {
            lemma_eq_texts_skip_step(chunks, wb, j + 1);
        }
        if i2 == wa.len() {
            assert(wa.skip(i2) =~= Seq::<WordModel>::empty());
        }
    }
}

/// A run carries exactly one whole word of the given lists: an Equal run
/// the text of a shared (unedited) word, a Delete run the text of an edited
/// A-side word, an Insert run the text of an edited B-side word.
pub open spec fn run_is_whole_word(
    chunks: Seq<InputChunk>,
    wa: Seq<WordModel>,
    wb: Seq<WordModel>,
    r: RunModel,
) -> bool {
    match r.kind {
        RunKind::Equal => exists|k: int|
            0 <= k < wb.len() && word_is_equal(chunks, #[trigger] wb[k]) && r.text == wb[k].text,
        RunKind::Delete => exists|k: int|
            0 <= k < wa.len() && !word_is_equal(chunks, #[trigger] wa[k]) && r.text == wa[k].text,
        RunKind::Insert => exists|k: int|
            0 <= k < wb.len() && !word_is_equal(chunks, #[trigger] wb[k]) && r.text == wb[k].text,
    }
}

/// Every run the forward pass emits is one whole word.
proof fn lemma_reseq_from_whole_words(
    chunks: Seq<InputChunk>,
    wa: Seq<WordModel>,
    wb: Seq<WordModel>,
    i: int,
    j: int,
)
    requires
        0 <= i <= wa.len(),
        0 <= j <= wb.len(),
        reseq_from(chunks, wa, wb, i, j) is Some,
    ensures
        forall|m: int|
            0 <= m < reseq_from(chunks, wa, wb, i, j)->Some_0.len() ==> run_is_whole_word(
                chunks,
                wa,
                wb,
                #[trigger] reseq_from(chunks, wa, wb, i, j)->Some_0[m],
            ),
    decreases wb.len() - j,
{
    let out = reseq_from(chunks, wa, wb, i, j)->Some_0;
    if j >= wb.len() {
        let i2 = drain_to(chunks, wa, i);
        lemma_drain_to_range(chunks, wa, i);
        assert forall|m: int| 0 <= m < out.len() implies run_is_whole_word(
            chunks,
            wa,
            wb,
            #[trigger] out[m],
        ) by {
            assert(out[m] == RunModel { kind: RunKind::Delete, text: wa[i + m].text });
            assert(!word_is_equal(chunks, wa[i + m]));
        }
    } else if word_is_equal(chunks, wb[j]) {
        let i2 = drain_to(chunks, wa, i + 1);
        lemma_drain_to_range(chunks, wa, i + 1);
        lemma_reseq_from_whole_words(chunks, wa, wb, i2, j + 1);
        let head = seq![RunModel { kind: RunKind::Equal, text: wb[j].text }];
        let dels = delete_runs(wa, i + 1, i2);
        let rest = reseq_from(chunks, wa, wb, i2, j + 1)->Some_0;
        assert forall|m: int| 0 <= m < out.len() implies run_is_whole_word(
            chunks,
            wa,
            wb,
            #[trigger] out[m],
        ) by {
            assert(out == head + dels + rest);
            if m < 1 {
                assert(out[m] == head[0]);
                assert(word_is_equal(chunks, wb[j]) && head[0].text == wb[j].text);
            } else if m < 1 + dels.len() {
                assert(out[m] == dels[m - 1]);
                assert(dels[m - 1] == RunModel { kind: RunKind::Delete, text: wa[i + m].text });
                assert(!word_is_equal(chunks, wa[i + m]));
            } else {
                assert(out[m] == rest[m - 1 - dels.len()]);
            }
        }
    } else {
        let i2 = drain_to(chunks, wa, i);
        lemma_drain_to_range(chunks, wa, i);
        lemma_reseq_from_whole_words(chunks, wa, wb, i2, j + 1);
        let head = seq![RunModel { kind: RunKind::Insert, text: wb[j].text }];
        let dels = delete_runs(wa, i, i2);
        let rest = reseq_from(chunks, wa, wb, i2, j + 1)->Some_0;
        assert forall|m: int| 0 <= m < out.len() implies run_is_whole_word(
            chunks,
            wa,
            wb,
            #[trigger] out[m],
        ) by {
            assert(out == head + dels + rest);
            if m < 1 {
                assert(out[m] == head[0]);
                assert(!word_is_equal(chunks, wb[j]) && head[0].text == wb[j].text);
            } else if m < 1 + dels.len() {
                assert(out[m] == dels[m - 1]);
                assert(dels[m - 1]
                    == RunModel { kind: RunKind::Delete, text: wa[i + m - 1].text });
                assert(!word_is_equal(chunks, wa[i + m - 1]));
            } else {
                assert(out[m] == rest[m - 1 - dels.len()]);
            }
        }
    }
}

/// Boundary preservation at word granularity, for every accepted script:
/// each run of the resequenced output carries exactly one whole word — an
/// Equal run a shared word, a Delete run an edited A-side word, an Insert
/// run an edited B-side word. An edit therefore never bleeds into an
/// unedited word: unedited words appear only inside Equal runs, and no
/// Delete or Insert run holds a character of one.
pub proof fn lemma_reseq_whole_words(
    chunks: Seq<InputChunk>,
    wa: Seq<WordModel>,
    wb: Seq<WordModel>,
)
    requires
        reseq(chunks, wa, wb) is Some,
    ensures
        forall|m: int|
            0 <= m < reseq(chunks, wa, wb)->Some_0.len() ==> run_is_whole_word(
                chunks,
                wa,
                wb,
                #[trigger] reseq(chunks, wa, wb)->Some_0[m],
            ),
{
    let i0 = drain_to(chunks, wa, 0);
    lemma_drain_to_range(chunks, wa, 0);
    lemma_reseq_from_whole_words(chunks, wa, wb, i0, 0);
    let pre = delete_runs(wa, 0, i0);
    let rest = reseq_from(chunks, wa, wb, i0, 0)->Some_0;
    let out = reseq(chunks, wa, wb)->Some_0;
    assert forall|m: int| 0 <= m < out.len() implies run_is_whole_word(
        chunks,
        wa,
        wb,
        #[trigger] out[m],
    ) by {
        assert(out == pre + rest);
        if m < pre.len() {
            assert(out[m] == pre[m]);
            assert(pre[m] == RunModel { kind: RunKind::Delete, text: wa[m].text });
            assert(!word_is_equal(chunks, wa[m]));
        } else {
            assert(out[m] == rest[m - pre.len()]);
        }
    }
}

/// One Equal run per word of `ws[j..]`, in order.
pub open spec fn equal_runs(ws: Seq<WordModel>, j: int) -> Seq<RunModel> {
    Seq::new(
        if 0 <= j <= ws.len() {
            (ws.len() - j) as nat
        } else {
            0
        },
        |m: int| RunModel { kind: RunKind::Equal, text: ws[j + m].text },
    )
}

/// Resequencing a list of equal words against itself yields one Equal run
/// per word.
pub proof fn lemma_reseq_identity(chunks: Seq<InputChunk>, w: Seq<WordModel>, j: int)
    requires
        0 <= j <= w.len(),
        forall|m: int| 0 <= m < w.len() ==> word_is_equal(chunks, #[trigger] w[m]),
    ensures
        reseq_from(chunks, w, w, j, j) == Some(equal_runs(w, j)),
    decreases w.len() - j,
{
    if j >= w.len() {
        assert(drain_to(chunks, w, j) == w.len());
        assert(delete_runs(w, j, j) =~= equal_runs(w, j));
    } else {
        assert(word_is_equal(chunks, w[j]));
        assert(drain_to(chunks, w, j + 1) == j + 1) by {
            if j + 1 < w.len() {
                assert(word_is_equal(chunks, w[j + 1]));
            }
        }
        lemma_reseq_identity(chunks, w, j + 1);
        let head = seq![RunModel { kind: RunKind::Equal, text: w[j].text }];
        assert(delete_runs(w, j + 1, j + 1) =~= Seq::<RunModel>::empty());
        assert(head + delete_runs(w, j + 1, j + 1) + equal_runs(w, j + 1)
            =~= equal_runs(w, j));
    }
}

/// The resequencer succeeds on the whole lists exactly when they are
/// [`aligned`].
pub proof fn lemma_reseq_some_iff_aligned(
    chunks: Seq<InputChunk>,
    wa: Seq<WordModel>,
    wb: Seq<WordModel>,
)
    ensures
        (reseq(chunks, wa, wb) is Some) <==> aligned(chunks, wa, wb),
{
    let i0 = drain_to(chunks, wa, 0);
    lemma_drain_to_range(chunks, wa, 0);
    lemma_eq_texts_drain(chunks, wa, 0);
    lemma_reseq_some_iff(chunks, wa, wb, i0, 0);
    assert(wa.skip(0) =~= wa);
    assert(wb.skip(0) =~= wb);
    if aligned(chunks, wa, wb) && wb.len() > 0 && word_is_equal(chunks, wb[0]) {
        // the B side opens with an equal word, so the drained A cursor
        // stands at one too
        lemma_eq_texts_skip_step(chunks, wb, 0);
        if i0 == wa.len() {
            assert(wa.skip(i0) =~= Seq::<WordModel>::empty());
            assert(false);
        }
    }
}

/// A successful resequencing of the whole lists is a round trip: its Equal
/// and Delete runs concatenate to the A-side words' text and its Equal and
/// Insert runs to the B-side words' text.
pub proof fn lemma_reseq_texts_all(
    chunks: Seq<InputChunk>,
    wa: Seq<WordModel>,
    wb: Seq<WordModel>,
)
    requires
        reseq(chunks, wa, wb) is Some,
    ensures
        runs_text_a(reseq(chunks, wa, wb)->Some_0) == words_text(wa),
        runs_text_b(reseq(chunks, wa, wb)->Some_0) == words_text(wb),
{
    let i0 = drain_to(chunks, wa, 0);
    lemma_drain_to_range(chunks, wa, 0);
    lemma_reseq_texts(chunks, wa, wb, i0, 0);
    let rest = reseq_from(chunks, wa, wb, i0, 0)->Some_0;
    lemma_runs_text_add(delete_runs(wa, 0, i0), rest);
    lemma_delete_runs_texts(wa, 0, i0);
    lemma_words_text_split(wa, 0, i0);
    assert(wa.skip(0) =~= wa);
    assert(wb.skip(0) =~= wb);
    assert(runs_text_b(delete_runs(wa, 0, i0)) + runs_text_b(rest) =~= runs_text_b(rest));
}

/// Emits one Delete run per A-side word from `start` up to the next equal
/// word (or the end), and returns the new cursor.
fn drain_deletes(
    chunks: &Vec<InputChunk>,
    words_a: &Vec<AnnotatedWord>,
    start: usize,
    out: &mut Vec<OutputChunk>,
) -> (r: usize)
    requires
        start <= words_a@.len(),
    ensures
        start <= r <= words_a@.len(),
        r as int == drain_to(chunks@, word_models(words_a@), start as int),
        run_models(final(out)@) == run_models(old(out)@) + delete_runs(
            word_models(words_a@),
            start as int,
            r as int,
        ),
{
    let ghost ma = word_models(words_a@);
    let mut i = start;
    loop
        invariant
            ma == word_models(words_a@),
            start <= i <= ma.len(),
            words_a@.len() == ma.len(),
            drain_to(chunks@, ma, start as int) == drain_to(chunks@, ma, i as int),
            run_models(out@) == run_models(old(out)@) + delete_runs(ma, start as int, i as int),
        ensures
            i <= ma.len(),
            i == ma.len() || word_is_equal(chunks@, ma[i as int]),
            drain_to(chunks@, ma, start as int) == drain_to(chunks@, ma, i as int),
            run_models(out@) == run_models(old(out)@) + delete_runs(ma, start as int, i as int),
        decreases ma.len() - i,
    {
        if i >= words_a.len() {
            break;
        }
        let w = &words_a[i];
        proof {
            assert(w.model() == ma[i as int]);
        }
        if w.is_equal(chunks) {
            break;
        }
        let ghost prev = run_models(out@);
        out.push(OutputChunk::Delete(w.word.clone()));
        proof {
            assert(run_models(out@) =~= prev.push(out@.last().model()));
            assert(delete_runs(ma, start as int, i + 1 as int)
                =~= delete_runs(ma, start as int, i as int).push(
                RunModel { kind: RunKind::Delete, text: ma[i as int].text },
            ));
            assert(run_models(old(out)@) + delete_runs(ma, start as int, i + 1)
                =~= (run_models(old(out)@) + delete_runs(ma, start as int, i as int)).push(
                RunModel { kind: RunKind::Delete, text: ma[i as int].text },
            ));
        }
        i += 1;
    }
    proof {
        if i < ma.len() {
            assert(drain_to(chunks@, ma, i as int) == i as int);
        }
    }
    i
}

/// Merges the two word lists into one word-level edit script: Delete runs
/// for the A-side words before the first equal one, then for each B-side
/// word an Equal run (consuming the matching A-side equal word) or an Insert
/// run, in each case followed by Delete runs for the A-side words up to the
/// next equal one; remaining A-side words are drained at the end. Returns
/// `None` when the lists are not aligned: a B-side equal word finds no
/// matching equal word at the A-side cursor, or an A-side equal word is left
/// over.
pub fn resequence(
    chunks: &Vec<InputChunk>,
    words_a: &Vec<AnnotatedWord>,
    words_b: &Vec<AnnotatedWord>,
) -> (r: Option<Vec<OutputChunk>>)
    ensures
        ({
            let res = reseq(chunks@, word_models(words_a@), word_models(words_b@));
            match r {
                Some(out) => res == Some(run_models(out@)),
                None => res is None,
            }
        }),
{
    let ghost ma = word_models(words_a@);
    let ghost mb = word_models(words_b@);
    let mut out: Vec<OutputChunk> = Vec::new();
    let mut j: usize = 0;
    let mut i = drain_deletes(chunks, words_a, 0, &mut out);
    proof {
        assert(run_models(out@)
            =~= Seq::<RunModel>::empty() + delete_runs(ma, 0, i as int));
        assert(reseq(chunks@, ma, mb) == prepend(
            run_models(out@),
            reseq_from(chunks@, ma, mb, i as int, 0),
        )) by {
            match reseq_from(chunks@, ma, mb, i as int, 0) {
                Some(rest) => {
                    assert(run_models(out@) + rest =~= delete_runs(ma, 0, i as int) + rest);
                },
                None => {},
            }
        }
    }
    while j < words_b.len()
        invariant
            ma == word_models(words_a@),
            mb == word_models(words_b@),
            words_a@.len() == ma.len(),
            words_b@.len() == mb.len(),
            i <= ma.len(),
            j <= mb.len(),
            reseq(chunks@, ma, mb) == prepend(
                run_models(out@),
                reseq_from(chunks@, ma, mb, i as int, j as int),
            ),
        decreases mb.len() - j,
    {
        let b = &words_b[j];
        proof {
            assert(b.model() == mb[j as int]);
        }
        let ghost pre = run_models(out@);
        let ghost i0 = i as int;
        if b.is_equal(chunks) {
            let matched = if i < words_a.len() {
                let wa_i = &words_a[i];
                proof {
                    assert(wa_i.model() == ma[i as int]);
                }
                wa_i.is_equal(chunks) && wa_i.word == b.word
            } else {
                false
            };
            if !matched {
                proof {
                    assert(reseq_from(chunks@, ma, mb, i0, j as int) is None);
                }
                return None;
            }
            out.push(OutputChunk::Equal(b.word.clone()));
            i += 1;
            let ghost mid0 = run_models(out@);
            proof {
                assert(mid0 =~= pre.push(out@.last().model()));
            }
            i = drain_deletes(chunks, words_a, i, &mut out);
            proof {
                let head = seq![RunModel { kind: RunKind::Equal, text: mb[j as int].text }];
                let dels = delete_runs(ma, i0 + 1, i as int);
                assert(mid0 =~= pre + head);
                assert(run_models(out@) =~= pre + (head + dels));
                assert(reseq_from(chunks@, ma, mb, i0, j as int) == prepend(
                    head + dels,
                    reseq_from(chunks@, ma, mb, i as int, j as int + 1),
                ));
                lemma_prepend_assoc(
                    pre,
                    head + dels,
                    reseq_from(chunks@, ma, mb, i as int, j as int + 1),
                );
            }
        } else {
            out.push(OutputChunk::Insert(b.word.clone()));
            let ghost mid0 = run_models(out@);
            proof {
                assert(mid0 =~= pre.push(out@.last().model()));
            }
            i = drain_deletes(chunks, words_a, i, &mut out);
            proof {
                let head = seq![RunModel { kind: RunKind::Insert, text: mb[j as int].text }];
                let dels = delete_runs(ma, i0, i as int);
                assert(mid0 =~= pre + head);
                assert(run_models(out@) =~= pre + (head + dels));
                assert(reseq_from(chunks@, ma, mb, i0, j as int) == prepend(
                    head + dels,
                    reseq_from(chunks@, ma, mb, i as int, j as int + 1),
                ));
                lemma_prepend_assoc(
                    pre,
                    head + dels,
                    reseq_from(chunks@, ma, mb, i as int, j as int + 1),
                );
            }
        }
        j += 1;
    }
    let ghost pre = run_models(out@);
    let ghost i0 = i as int;
    let end = drain_deletes(chunks, words_a, i, &mut out);
    if end == words_a.len() {
        proof {
            assert(reseq_from(chunks@, ma, mb, i0, j as int)
                == Some(delete_runs(ma, i0, end as int)));
            assert(pre + delete_runs(ma, i0, end as int) =~= run_models(out@));
        }
        Some(out)
    } else {
        proof {
            assert(reseq_from(chunks@, ma, mb, i0, j as int) is None);
        }
        None
    }
}

} // verus!
