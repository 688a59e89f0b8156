//! Rebuilding one full text from the character-level edit script: a fold
//! over the chunk sequence that keeps the chunks of one side, concatenates
//! their texts, and records where each kept chunk's text begins.

use vstd::prelude::*;

use crate::chunks::InputChunk;
use crate::chunks::Side;
use crate::chunks::concat_side;
use crate::chunks::flatten_side;
use crate::chunks::kept_idx;
use crate::chunks::lemma_take_succ;
use crate::chunks::pairs;

verus! {

/// Marks where a kept chunk's text begins inside a reconstructed text:
/// `start` is the character offset, `chunk` the index of the source chunk.
#[derive(Debug, PartialEq, Eq)]
pub struct Annotation {
    pub start: usize,
    pub chunk: usize,
}

/// One side's full text together with its ordered annotations.
#[derive(Debug, PartialEq, Eq)]
pub struct AnnotatedString {
    pub string: String,
    pub annotations: Vec<Annotation>,
}

/// The annotated character stream an annotation list denotes: for each
/// annotation in order, the named chunk's characters paired with its index.
pub open spec fn flatten_of(chunks: Seq<InputChunk>, anns: Seq<Annotation>) -> Seq<(char, int)>
    decreases anns.len(),
{
    if anns.len() == 0 {
        Seq::empty()
    } else {
        flatten_of(chunks, anns.drop_last())
            + pairs(chunks[anns.last().chunk as int].text(), anns.last().chunk as int)
    }
}

/// A reconstruction is faithful to one side of the chunk sequence: the string
/// is that side's text, the annotations name exactly the kept chunks in
/// order, each annotation starts where the text built so far ends, and the
/// annotated character stream is the side's stream.
pub open spec fn reconstruction_wf(
    chunks: Seq<InputChunk>,
    r: AnnotatedString,
    side: Side,
) -> bool {
    &&& r.string@ == concat_side(chunks, side)
    &&& r.annotations@.map_values(|a: Annotation| a.chunk as int) == kept_idx(chunks, side)
    &&& flatten_of(chunks, r.annotations@) == flatten_side(chunks, side)
    &&& forall|i: int|
        0 <= i < r.annotations@.len()
            ==> (#[trigger] r.annotations@[i]).start
                == concat_side(chunks.take(r.annotations@[i].chunk as int), side).len()
}

/// The annotated character stream distributes over concatenation of
/// annotation lists.
pub proof fn lemma_flatten_of_add(chunks: Seq<InputChunk>, x: Seq<Annotation>, y: Seq<Annotation>)
    ensures
        flatten_of(chunks, x + y) == flatten_of(chunks, x) + flatten_of(chunks, y),
    decreases y.len(),
{
    if y.len() == 0 {
        assert(x + y =~= x);
        assert(flatten_of(chunks, x) + flatten_of(chunks, y) =~= flatten_of(chunks, x));
    } else {
        lemma_flatten_of_add(chunks, x, y.drop_last());
        assert((x + y).drop_last() =~= x + y.drop_last());
        assert((x + y).last() == y.last());
        let tail = pairs(chunks[y.last().chunk as int].text(), y.last().chunk as int);
        assert(flatten_of(chunks, x) + flatten_of(chunks, y.drop_last()) + tail
            =~= flatten_of(chunks, x) + (flatten_of(chunks, y.drop_last()) + tail));
    }
}

/// A prefix of the annotation list yields a prefix of the stream.
pub proof fn lemma_flatten_of_prefix(chunks: Seq<InputChunk>, anns: Seq<Annotation>, j: int)
    requires
        0 <= j <= anns.len(),
    ensures
        flatten_of(chunks, anns.take(j))
            == flatten_of(chunks, anns).take(flatten_of(chunks, anns.take(j)).len() as int),
        flatten_of(chunks, anns.take(j)).len() <= flatten_of(chunks, anns).len(),
{
    assert(anns =~= anns.take(j) + anns.skip(j));
    lemma_flatten_of_add(chunks, anns.take(j), anns.skip(j));
    let a = flatten_of(chunks, anns.take(j));
    let b = flatten_of(chunks, anns.skip(j));
    assert((a + b).take(a.len() as int) =~= a);
}

/// Appending an annotation appends its chunk's characters to the stream.
proof fn lemma_flatten_of_push(chunks: Seq<InputChunk>, anns: Seq<Annotation>, a: Annotation)
    ensures
        flatten_of(chunks, anns.push(a))
            == flatten_of(chunks, anns) + pairs(chunks[a.chunk as int].text(), a.chunk as int),
{
    assert(anns.push(a).drop_last() =~= anns);
    assert(anns.push(a).last() == a);
}

/// Whether the chunk contributes to the given side.
fn kept_exec(chunk: &InputChunk, side: Side) -> (r: bool)
    ensures
        r == chunk.kept(side),
{
    match side {
        Side::A => match chunk {
            InputChunk::Insert(_) => false,
            _ => true,
        },
        Side::B => match chunk {
            InputChunk::Delete(_) => false,
            _ => true,
        },
    }
}

/// Replays the chunk sequence keeping one side's chunks, building that
/// side's full text and one annotation per kept chunk.
fn reconstruct_side(chunks: &Vec<InputChunk>, side: Side) -> (r: AnnotatedString)
    ensures
        reconstruction_wf(chunks@, r, side),
{
    let mut string = String::new();
    let mut annotations: Vec<Annotation> = Vec::new();
    let n = chunks.len();
    let mut j: usize = 0;
    while j < n
        invariant
            n == chunks@.len(),
            j <= n,
            string@ == concat_side(chunks@.take(j as int), side),
            annotations@.map_values(|a: Annotation| a.chunk as int)
                == kept_idx(chunks@.take(j as int), side),
            flatten_of(chunks@, annotations@) == flatten_side(chunks@.take(j as int), side),
            forall|i: int|
                0 <= i < annotations@.len()
                    ==> (#[trigger] annotations@[i]).chunk < j
                        && annotations@[i].start
                            == concat_side(chunks@.take(annotations@[i].chunk as int), side).len(),
        decreases n - j,
    {
        proof {
            lemma_take_succ(chunks@, j as int);
        }
        let ghost prev_anns = annotations@;
        let chunk = &chunks[j];
        if kept_exec(chunk, side) {
            let start = string.unicode_len();
            string.append(chunk.value());
            let a = Annotation { start, chunk: j };
            annotations.push(a);
            proof {
                lemma_flatten_of_push(chunks@, prev_anns, a);
                assert(annotations@.map_values(|a: Annotation| a.chunk as int)
                    =~= prev_anns.map_values(|a: Annotation| a.chunk as int).push(j as int));
            }
        }
        j += 1;
    }
    proof {
        assert(chunks@.take(n as int) =~= chunks@);
    }
    AnnotatedString { string, annotations }
}

/// Reconstructs the original text A: Equal and Delete chunks are kept in
/// order, Insert chunks are skipped entirely.
pub fn reconstruct_a(chunks: &Vec<InputChunk>) -> (r: AnnotatedString)
    ensures
        reconstruction_wf(chunks@, r, Side::A),
{
    reconstruct_side(chunks, Side::A)
}

/// Reconstructs the revised text B: Equal and Insert chunks are kept in
/// order, Delete chunks are skipped entirely.
pub fn reconstruct_b(chunks: &Vec<InputChunk>) -> (r: AnnotatedString)
    ensures
        reconstruction_wf(chunks@, r, Side::B),
{
    reconstruct_side(chunks, Side::B)
}

} // verus!
