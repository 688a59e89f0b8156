//! The chunk types at the two ends of the pipeline: the character-level
//! input script and the word-level output script, together with the spec
//! functions that say which text each side of the edit carries.

use vstd::prelude::*;

verus! {

/// One unit of the character-level edit script. `Equal` text is present in
/// both texts, `Delete` text only in the original (A), `Insert` text only in
/// the revised text (B).
#[derive(Debug, PartialEq, Eq)]
pub enum InputChunk {
    Equal(String),
    Delete(String),
    Insert(String),
}

/// The side of the edit a reconstruction keeps: `A` keeps Equal and Delete
/// chunks, `B` keeps Equal and Insert chunks.
#[derive(Clone, Copy, Debug, PartialEq, Eq, Structural)]
pub enum Side {
    A,
    B,
}

impl InputChunk {
    /// The characters this chunk carries, whatever its tag.
    pub open spec fn text(&self) -> Seq<char> {
        match self {
            InputChunk::Equal(s) => s@,
            InputChunk::Delete(s) => s@,
            InputChunk::Insert(s) => s@,
        }
    }

    /// Whether this chunk contributes characters to the given side.
    pub open spec fn kept(&self, side: Side) -> bool {
        match side {
            Side::A => !(self is Insert),
            Side::B => !(self is Delete),
        }
    }

    /// The number of characters in the chunk's text.
    pub fn len(&self) -> (r: usize)
        ensures
            r == self.text().len(),
    {
        match self {
            InputChunk::Equal(s) => s.as_str().unicode_len(),
            InputChunk::Delete(s) => s.as_str().unicode_len(),
            InputChunk::Insert(s) => s.as_str().unicode_len(),
        }
    }

    /// The chunk's text, whatever its tag.
    pub fn value(&self) -> (r: &str)
        ensures
            r@ == self.text(),
    {
        match self {
            InputChunk::Equal(s) => s.as_str(),
            InputChunk::Delete(s) => s.as_str(),
            InputChunk::Insert(s) => s.as_str(),
        }
    }
}

/// The text of the given side of the edit: the concatenation, in order, of
/// the texts of the chunks kept on that side.
pub open spec fn concat_side(chunks: Seq<InputChunk>, side: Side) -> Seq<char>
    decreases chunks.len(),
{
    if chunks.len() == 0 {
        Seq::empty()
    } else if chunks.last().kept(side) {
        concat_side(chunks.drop_last(), side) + chunks.last().text()
    } else {
        concat_side(chunks.drop_last(), side)
    }
}

/// One unit of the word-level edit script handed to callers.
#[derive(Debug, PartialEq, Eq, Clone)]
pub enum OutputChunk {
    Equal(String),
    Delete(String),
    Insert(String),
}

/// The tag of an output run, separated from its text so that specifications
/// can speak about run kinds and run texts independently.
#[derive(Clone, Copy, Debug, PartialEq, Eq, Structural)]
pub enum RunKind {
    Equal,
    Delete,
    Insert,
}

/// The mathematical value of an [`OutputChunk`]: its kind and its characters.
#[verifier::ext_equal]
pub ghost struct RunModel {
    pub kind: RunKind,
    pub text: Seq<char>,
}

impl OutputChunk {
    /// The mathematical value of this run.
    pub open spec fn model(&self) -> RunModel {
        match self {
            OutputChunk::Equal(s) => RunModel { kind: RunKind::Equal, text: s@ },
            OutputChunk::Delete(s) => RunModel { kind: RunKind::Delete, text: s@ },
            OutputChunk::Insert(s) => RunModel { kind: RunKind::Insert, text: s@ },
        }
    }
}

/// The mathematical values of a sequence of output runs.
pub open spec fn run_models(runs: Seq<OutputChunk>) -> Seq<RunModel> {
    runs.map_values(|r: OutputChunk| r.model())
}

/// The A-side content of a run sequence: the concatenation of the texts of
/// its Equal and Delete runs.
pub open spec fn runs_text_a(runs: Seq<RunModel>) -> Seq<char>
    decreases runs.len(),
{
    if runs.len() == 0 {
        Seq::empty()
    } else if runs.last().kind is Insert {
        runs_text_a(runs.drop_last())
    } else {
        runs_text_a(runs.drop_last()) + runs.last().text
    }
}

/// The B-side content of a run sequence: the concatenation of the texts of
/// its Equal and Insert runs.
pub open spec fn runs_text_b(runs: Seq<RunModel>) -> Seq<char>
    decreases runs.len(),
{
    if runs.len() == 0 {
        Seq::empty()
    } else if runs.last().kind is Delete {
        runs_text_b(runs.drop_last())
    } else {
        runs_text_b(runs.drop_last()) + runs.last().text
    }
}

/// No two consecutive runs share a kind.
pub open spec fn no_adjacent_same_kind(runs: Seq<RunModel>) -> bool {
    forall|i: int| 0 <= i < runs.len() - 1 ==> (#[trigger] runs[i].kind) != runs[i + 1].kind
}

/// The characters of a text, each paired with the index of the chunk that
/// contributed it.
pub open spec fn pairs(text: Seq<char>, k: int) -> Seq<(char, int)> {
    Seq::new(text.len(), |i: int| (text[i], k))
}

/// The annotated character stream of one side: each kept character together
/// with the index of its source chunk, in order.
pub open spec fn flatten_side(chunks: Seq<InputChunk>, side: Side) -> Seq<(char, int)>
    decreases chunks.len(),
{
    if chunks.len() == 0 {
        Seq::empty()
    } else if chunks.last().kept(side) {
        flatten_side(chunks.drop_last(), side) + pairs(chunks.last().text(), chunks.len() - 1)
    } else {
        flatten_side(chunks.drop_last(), side)
    }
}

/// The indices of the chunks kept on the given side, in order.
pub open spec fn kept_idx(chunks: Seq<InputChunk>, side: Side) -> Seq<int>
    decreases chunks.len(),
{
    if chunks.len() == 0 {
        Seq::empty()
    } else if chunks.last().kept(side) {
        kept_idx(chunks.drop_last(), side).push(chunks.len() - 1)
    } else {
        kept_idx(chunks.drop_last(), side)
    }
}

/// The characters of an annotated character stream, without their sources.
pub open spec fn texts_of(f: Seq<(char, int)>) -> Seq<char> {
    f.map_values(|p: (char, int)| p.0)
}

/// Taking one more element appends that element.
pub proof fn lemma_take_succ<T>(s: Seq<T>, i: int)
    requires
        0 <= i < s.len(),
    ensures
        s.take(i + 1).drop_last() == s.take(i),
        s.take(i + 1).last() == s[i],
{
    assert(s.take(i + 1).drop_last() =~= s.take(i));
}

/// Dropping the characters' sources commutes with concatenation.
pub proof fn lemma_texts_of_add(f: Seq<(char, int)>, g: Seq<(char, int)>)
    ensures
        texts_of(f + g) == texts_of(f) + texts_of(g),
{
    assert(texts_of(f + g) =~= texts_of(f) + texts_of(g));
}

/// The characters of a side's annotated stream are exactly that side's text.
pub proof fn lemma_texts_of_flatten_side(chunks: Seq<InputChunk>, side: Side)
    ensures
        texts_of(flatten_side(chunks, side)) == concat_side(chunks, side),
    decreases chunks.len(),
{
    if chunks.len() == 0 {
        assert(texts_of(flatten_side(chunks, side)) =~= concat_side(chunks, side));
    } else {
        lemma_texts_of_flatten_side(chunks.drop_last(), side);
        if chunks.last().kept(side) {
            lemma_texts_of_add(
                flatten_side(chunks.drop_last(), side),
                pairs(chunks.last().text(), chunks.len() - 1),
            );
            assert(texts_of(pairs(chunks.last().text(), chunks.len() - 1))
                =~= chunks.last().text());
        }
    }
}

/// Every chunk index in a side's kept list is in bounds.
pub proof fn lemma_kept_idx_bounds(chunks: Seq<InputChunk>, side: Side)
    ensures
        forall|i: int|
            0 <= i < kept_idx(chunks, side).len()
                ==> 0 <= #[trigger] kept_idx(chunks, side)[i] < chunks.len(),
    decreases chunks.len(),
{
    if chunks.len() > 0 {
        lemma_kept_idx_bounds(chunks.drop_last(), side);
        let prev = kept_idx(chunks.drop_last(), side);
        assert forall|i: int|
            0 <= i < kept_idx(chunks, side).len()
                implies 0 <= #[trigger] kept_idx(chunks, side)[i] < chunks.len() by {
            if chunks.last().kept(side) {
                assert(kept_idx(chunks, side) == prev.push(chunks.len() - 1));
                if i < prev.len() {
                    assert(kept_idx(chunks, side)[i] == prev[i]);
                }
            } else {
                assert(kept_idx(chunks, side)[i] == prev[i]);
            }
        }
    }
}

} // verus!
