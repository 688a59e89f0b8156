//! Merging adjacent output runs of the same kind into maximal spans: a
//! single left-to-right fold that concatenates texts and never merges runs
//! of different kinds.

use vstd::prelude::*;

use crate::chunks::OutputChunk;
use crate::chunks::RunKind;
use crate::chunks::RunModel;
use crate::chunks::lemma_take_succ;
use crate::chunks::no_adjacent_same_kind;
use crate::chunks::run_models;
use crate::chunks::runs_text_a;
use crate::chunks::runs_text_b;

verus! {

/// Consolidation of a run sequence: each run either merges into the previous
/// output run (same kind) or opens a new one.
pub open spec fn consolidate_spec(rs: Seq<RunModel>) -> Seq<RunModel>
    decreases rs.len(),
{
    if rs.len() == 0 {
        Seq::empty()
    } else {
        let prev = consolidate_spec(rs.drop_last());
        let last = rs.last();
        if prev.len() > 0 && prev.last().kind == last.kind {
            prev.update(
                prev.len() - 1,
                RunModel { kind: last.kind, text: prev.last().text + last.text },
            )
        } else {
            prev.push(last)
        }
    }
}

/// After consolidation no two consecutive runs share a kind.
pub proof fn lemma_consolidate_no_adjacent(rs: Seq<RunModel>)
    ensures
        no_adjacent_same_kind(consolidate_spec(rs)),
    decreases rs.len(),
{
    if rs.len() > 0 {
        lemma_consolidate_no_adjacent(rs.drop_last());
        let prev = consolidate_spec(rs.drop_last());
        let cur = consolidate_spec(rs);
        assert forall|i: int| 0 <= i < cur.len() - 1 implies (#[trigger] cur[i].kind)
            != cur[i + 1].kind by {
            if !(prev.len() > 0 && prev.last().kind == rs.last().kind) {
                if i < prev.len() - 1 {
                    assert(cur[i] == prev[i] && cur[i + 1] == prev[i + 1]);
                } else {
                    assert(cur[i] == prev[i] && cur[i + 1] == rs.last());
                }
            } else {
                if i < prev.len() - 1 {
                    assert(cur[i] == prev[i]);
                }
                if i + 1 < prev.len() - 1 {
                    assert(cur[i + 1] == prev[i + 1]);
                } else {
                    assert(cur[i + 1].kind == prev[i + 1].kind);
                }
            }
        }
    }
}

/// Consolidation preserves the A-side and B-side content of the script.
pub proof fn lemma_consolidate_texts(rs: Seq<RunModel>)
    ensures
        runs_text_a(consolidate_spec(rs)) == runs_text_a(rs),
        runs_text_b(consolidate_spec(rs)) == runs_text_b(rs),
    decreases rs.len(),
{
    if rs.len() > 0 {
        lemma_consolidate_texts(rs.drop_last());
        let prev = consolidate_spec(rs.drop_last());
        let last = rs.last();
        let cur = consolidate_spec(rs);
        if prev.len() > 0 && prev.last().kind == last.kind {
            let merged = RunModel { kind: last.kind, text: prev.last().text + last.text };
            assert(cur.drop_last() =~= prev.drop_last());
            assert(cur.last() == merged);
            if last.kind is Insert {
                assert(runs_text_b(cur) == runs_text_b(prev.drop_last()) + (prev.last().text
                    + last.text));
                assert(runs_text_b(prev) == runs_text_b(prev.drop_last()) + prev.last().text);
                assert((runs_text_b(prev.drop_last()) + prev.last().text) + last.text
                    =~= runs_text_b(prev.drop_last()) + (prev.last().text + last.text));
            } else if last.kind is Delete {
                assert(runs_text_a(cur) == runs_text_a(prev.drop_last()) + (prev.last().text
                    + last.text));
                assert(runs_text_a(prev) == runs_text_a(prev.drop_last()) + prev.last().text);
                assert((runs_text_a(prev.drop_last()) + prev.last().text) + last.text
                    =~= runs_text_a(prev.drop_last()) + (prev.last().text + last.text));
            } else {
                assert(runs_text_a(cur) == runs_text_a(prev.drop_last()) + (prev.last().text
                    + last.text));
                assert(runs_text_a(prev) == runs_text_a(prev.drop_last()) + prev.last().text);
                assert((runs_text_a(prev.drop_last()) + prev.last().text) + last.text
                    =~= runs_text_a(prev.drop_last()) + (prev.last().text + last.text));
                assert(runs_text_b(cur) == runs_text_b(prev.drop_last()) + (prev.last().text
                    + last.text));
                assert(runs_text_b(prev) == runs_text_b(prev.drop_last()) + prev.last().text);
                assert((runs_text_b(prev.drop_last()) + prev.last().text) + last.text
                    =~= runs_text_b(prev.drop_last()) + (prev.last().text + last.text));
            }
        } else {
            assert(cur.drop_last() =~= prev);
            assert(cur.last() == last);
        }
    }
}

/// Consolidating a non-empty sequence of Equal runs yields a single Equal
/// run carrying their concatenated text.
pub proof fn lemma_consolidate_all_equal(rs: Seq<RunModel>)
    requires
        rs.len() > 0,
        forall|m: int| 0 <= m < rs.len() ==> (#[trigger] rs[m]).kind is Equal,
    ensures
        consolidate_spec(rs) == seq![RunModel { kind: RunKind::Equal, text: runs_text_a(rs) }],
    decreases rs.len(),
{
    let dl = rs.drop_last();
    if rs.len() == 1 {
        assert(consolidate_spec(dl) =~= Seq::<RunModel>::empty());
        assert(runs_text_a(dl) == Seq::<char>::empty());
        assert(runs_text_a(rs) == Seq::<char>::empty() + rs.last().text);
        assert(Seq::<char>::empty() + rs.last().text =~= rs.last().text);
        assert(consolidate_spec(rs) =~= seq![RunModel { kind: RunKind::Equal, text: runs_text_a(rs) }]);
    } else {
        assert(forall|m: int| 0 <= m < dl.len() ==> (#[trigger] dl[m]).kind is Equal);
        lemma_consolidate_all_equal(dl);
        let prev = consolidate_spec(dl);
        assert(prev.last().kind is Equal);
        assert(rs.last() == rs[rs.len() - 1]);
        assert(rs.last().kind is Equal);
        assert(runs_text_a(rs) == runs_text_a(dl) + rs.last().text);
        assert(consolidate_spec(rs) =~= seq![RunModel { kind: RunKind::Equal, text: runs_text_a(rs) }]);
    }
}

/// A copy of one output run.
fn clone_output(c: &OutputChunk) -> (r: OutputChunk)
    ensures
        r.model() == c.model(),
{
    match c {
        OutputChunk::Equal(s) => OutputChunk::Equal(s.clone()),
        OutputChunk::Delete(s) => OutputChunk::Delete(s.clone()),
        OutputChunk::Insert(s) => OutputChunk::Insert(s.clone()),
    }
}

/// Merges adjacent runs sharing a kind by concatenating their texts,
/// preserving order; runs of differing kinds are never merged.
pub fn consolidate_chunks(chunks: &Vec<OutputChunk>) -> (r: Vec<OutputChunk>)
    ensures
        run_models(r@) == consolidate_spec(run_models(chunks@)),
        no_adjacent_same_kind(run_models(r@)),
        runs_text_a(run_models(r@)) == runs_text_a(run_models(chunks@)),
        runs_text_b(run_models(r@)) == runs_text_b(run_models(chunks@)),
{
    let mut consolidated: Vec<OutputChunk> = Vec::new();
    let mut idx: usize = 0;
    proof {
        assert(run_models(chunks@.take(0)) =~= Seq::<RunModel>::empty());
        assert(run_models(consolidated@) =~= Seq::<RunModel>::empty());
    }
    while idx < chunks.len()
        invariant
            idx <= chunks@.len(),
            run_models(consolidated@) == consolidate_spec(run_models(chunks@.take(idx as int))),
        decreases chunks@.len() - idx,
    {
        proof {
            lemma_take_succ(chunks@, idx as int);
            assert(run_models(chunks@.take(idx + 1))
                =~= run_models(chunks@.take(idx as int)).push(chunks@[idx as int].model()));
            assert(run_models(chunks@.take(idx + 1)).drop_last()
                =~= run_models(chunks@.take(idx as int)));
        }
        let c = &chunks[idx];
        let ghost prev = run_models(consolidated@);
        if consolidated.len() > 0 {
            let last = consolidated.pop().unwrap();
            let ghost popped = consolidated@;
            proof {
                assert(run_models(popped) =~= prev.drop_last());
            }
            match (last, c) {
                (OutputChunk::Equal(a), OutputChunk::Equal(b)) => {
                    consolidated.push(OutputChunk::Equal(a.concat(b.as_str())));
                },
                (OutputChunk::Delete(a), OutputChunk::Delete(b)) => {
                    consolidated.push(OutputChunk::Delete(a.concat(b.as_str())));
                },
                (OutputChunk::Insert(a), OutputChunk::Insert(b)) => {
                    consolidated.push(OutputChunk::Insert(a.concat(b.as_str())));
                },
                (other, _) => {
                    consolidated.push(other);
                    consolidated.push(clone_output(c));
                },
            }
            proof {
                if prev.last().kind == c.model().kind {
                    assert(run_models(consolidated@) =~= run_models(popped).push(
                        consolidated@.last().model(),
                    ));
                    assert(run_models(consolidated@) =~= prev.update(
                        prev.len() - 1,
                        RunModel {
                            kind: c.model().kind,
                            text: prev.last().text + c.model().text,
                        },
                    ));
                } else {
                    assert(run_models(consolidated@)
                        =~= prev.drop_last().push(prev.last()).push(c.model()));
                    assert(prev.drop_last().push(prev.last()) =~= prev);
                }
            }
        } else {
            consolidated.push(clone_output(c));
            proof {
                assert(run_models(consolidated@) =~= prev.push(c.model()));
            }
        }
        idx += 1;
    }
    proof {
        assert(chunks@.take(chunks@.len() as int) =~= chunks@);
        lemma_consolidate_no_adjacent(run_models(chunks@));
        lemma_consolidate_texts(run_models(chunks@));
    }
    consolidated
}

} // verus!
