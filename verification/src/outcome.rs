//! Attribution of the per-statement results an import sink reports for one
//! batch.
//!
//! When a batch's transaction aborts, the sink reports the real failure
//! for one statement and marks the others with an aborted-transaction
//! phrase. The orchestrator must report the first failure whose message
//! does not carry that phrase as *the* failure of the batch, at its
//! absolute statement index; if every failure carries the phrase, root
//! cause attribution has failed and the outcome is reported as unresolved.
//! Before the error surfaces, the failing batch and its error messages are
//! kept as a [`DumpRecord`] for postmortem.

use vstd::prelude::*;
use crate::bytes::{copy_range, eq_range};
use crate::segment::views_of;

verus! {

/// One per-statement result from the sink: whether the statement's status
/// reports failure, and the result message that came with it.
#[derive(Clone, PartialEq, Eq, Debug)]
pub struct StatementResult {
    pub failed: bool,
    pub message: Vec<u8>,
}

/// The bytes of `not executed due to a failed transaction`, the phrase by
/// which the sink marks statements that did not run because the
/// surrounding transaction had already failed.
pub open spec fn secondary_phrase() -> Seq<u8> {
    seq![
        110u8, 111u8, 116u8, 32u8, 101u8, 120u8, 101u8, 99u8, 117u8, 116u8, 101u8, 100u8, 32u8,
        100u8, 117u8, 101u8, 32u8, 116u8, 111u8, 32u8, 97u8, 32u8, 102u8, 97u8, 105u8, 108u8,
        101u8, 100u8, 32u8, 116u8, 114u8, 97u8, 110u8, 115u8, 97u8, 99u8, 116u8, 105u8, 111u8,
        110u8,
    ]
}

fn secondary_phrase_vec() -> (v: Vec<u8>)
    ensures
        v@ == secondary_phrase(),
{
    let v: Vec<u8> = vec![
        110u8, 111u8, 116u8, 32u8, 101u8, 120u8, 101u8, 99u8, 117u8, 116u8, 101u8, 100u8, 32u8,
        100u8, 117u8, 101u8, 32u8, 116u8, 111u8, 32u8, 97u8, 32u8, 102u8, 97u8, 105u8, 108u8,
        101u8, 100u8, 32u8, 116u8, 114u8, 97u8, 110u8, 115u8, 97u8, 99u8, 116u8, 105u8, 111u8,
        110u8,
    ];
    proof {
        assert(v@ =~= secondary_phrase());
    }
    v
}

/// `needle` occurs as a contiguous run somewhere inside `hay`.
pub open spec fn contains_seq(hay: Seq<u8>, needle: Seq<u8>) -> bool {
    exists|i: int|
        0 <= i && i + needle.len() <= hay.len() && #[trigger] hay.subrange(i, i + needle.len())
            == needle
}

/// A cascade failure: its message carries the aborted-transaction phrase.
pub open spec fn is_secondary(msg: Seq<u8>) -> bool {
    contains_seq(msg, secondary_phrase())
}

/// The statement at `i` failed for a reason of its own: its message does
/// not carry the aborted-transaction phrase.
pub open spec fn primary_at(rs: Seq<StatementResult>, i: int) -> bool {
    rs[i].failed && !is_secondary(rs[i].message@)
}

fn contains_bytes(hay: &Vec<u8>, needle: &Vec<u8>) -> (r: bool)
    ensures
        r == contains_seq(hay@, needle@),
{
    let n = needle.len();
    let h = hay.len();
    if n == 0 {
        proof {
            assert(hay@.subrange(0, 0 + needle@.len() as int) =~= needle@);
        }
        return true;
    }
    if n > h {
        proof {
            if contains_seq(hay@, needle@) {
                let i = choose|i: int|
                    0 <= i && i + needle@.len() <= hay@.len() && #[trigger] hay@.subrange(
                        i,
                        i + needle@.len(),
                    ) == needle@;
                assert(false);
            }
        }
        return false;
    }
    let mut i: usize = 0;
    while i <= h - n
        invariant
            n == needle@.len(),
            h == hay@.len(),
            1 <= n <= h,
            0 <= i <= h - n + 1,
            forall|k: int|
                0 <= k < i ==> #[trigger] hay@.subrange(k, k + needle@.len()) != needle@,
        decreases h - n - i + 1,
    {
        if eq_range(hay, i, i + n, needle) {
            assert(hay@.subrange(i as int, i + needle@.len()) == needle@);
            assert(contains_seq(hay@, needle@));
            return true;
        }
        i = i + 1;
    }
    proof {
        if contains_seq(hay@, needle@) {
            let k = choose|k: int|
                0 <= k && k + needle@.len() <= hay@.len() && #[trigger] hay@.subrange(
                    k,
                    k + needle@.len(),
                ) == needle@;
            assert(0 <= k < i);
            assert(false);
        }
    }
    false
}

/// Whether a message marks a cascade failure of an aborted transaction.
pub fn message_is_secondary(msg: &Vec<u8>) -> (r: bool)
    ensures
        r == is_secondary(msg@),
{
    let phrase = secondary_phrase_vec();
    contains_bytes(msg, &phrase)
}

/// The bytes of `BEGIN TRANSACTION;` + line feed + `OPTION IMPORT;` + line
/// feed, the opening of every import body.
pub open spec fn import_prologue() -> Seq<u8> {
    seq![
        66u8, 69u8, 71u8, 73u8, 78u8, 32u8, 84u8, 82u8, 65u8, 78u8, 83u8, 65u8, 67u8, 84u8, 73u8,
        79u8, 78u8, 59u8, 10u8, 79u8, 80u8, 84u8, 73u8, 79u8, 78u8, 32u8, 73u8, 77u8, 80u8, 79u8,
        82u8, 84u8, 59u8, 10u8,
    ]
}

/// The bytes of a line feed + `COMMIT TRANSACTION;`, the closing of every
/// import body.
pub open spec fn import_epilogue() -> Seq<u8> {
    seq![
        10u8, 67u8, 79u8, 77u8, 77u8, 73u8, 84u8, 32u8, 84u8, 82u8, 65u8, 78u8, 83u8, 65u8, 67u8,
        84u8, 73u8, 79u8, 78u8, 59u8,
    ]
}

/// Statements joined with one line feed between each pair.
pub open spec fn joined_nl(qs: Seq<Seq<u8>>) -> Seq<u8>
    decreases qs.len(),
{
    if qs.len() == 0 {
        Seq::empty()
    } else if qs.len() == 1 {
        qs[0]
    } else {
        joined_nl(qs.drop_last()) + seq![10u8] + qs.last()
    }
}

fn import_prologue_vec() -> (v: Vec<u8>)
    ensures
        v@ == import_prologue(),
{
    let v: Vec<u8> = vec![
        66u8, 69u8, 71u8, 73u8, 78u8, 32u8, 84u8, 82u8, 65u8, 78u8, 83u8, 65u8, 67u8, 84u8, 73u8,
        79u8, 78u8, 59u8, 10u8, 79u8, 80u8, 84u8, 73u8, 79u8, 78u8, 32u8, 73u8, 77u8, 80u8, 79u8,
        82u8, 84u8, 59u8, 10u8,
    ];
    proof {
        assert(v@ =~= import_prologue());
    }
    v
}

fn import_epilogue_vec() -> (v: Vec<u8>)
    ensures
        v@ == import_epilogue(),
{
    let v: Vec<u8> = vec![
        10u8, 67u8, 79u8, 77u8, 77u8, 73u8, 84u8, 32u8, 84u8, 82u8, 65u8, 78u8, 83u8, 65u8, 67u8,
        84u8, 73u8, 79u8, 78u8, 59u8,
    ];
    proof {
        assert(v@ =~= import_epilogue());
    }
    v
}

/// Builds the body the import endpoint executes for one batch: the batch's
/// statements joined by line feeds, wrapped in one transaction.
pub fn build_import_body(batch: &Vec<Vec<u8>>) -> (r: Vec<u8>)
    ensures
        r@ == import_prologue() + joined_nl(views_of(batch@)) + import_epilogue(),
{
    let ghost vs = views_of(batch@);
    let mut r = import_prologue_vec();
    let mut i: usize = 0;
    proof {
        assert(vs.take(0) =~= Seq::<Seq<u8>>::empty());
        assert(import_prologue() + joined_nl(Seq::<Seq<u8>>::empty()) =~= import_prologue());
    }
    while i < batch.len()
        invariant
            vs == views_of(batch@),
            0 <= i <= batch@.len(),
            r@ == import_prologue() + joined_nl(vs.take(i as int)),
        decreases batch@.len() - i,
    {
        proof {
            assert(vs.take(i + 1).drop_last() =~= vs.take(i as int));
            assert(vs.take(i + 1).last() == batch@[i as int]@);
        }
        if i > 0 {
            r.push(10u8);
            proof {
                assert(r@ =~= import_prologue() + (joined_nl(vs.take(i as int)) + seq![10u8]));
            }
            crate::bytes::append_bytes(&mut r, &batch[i]);
            proof {
                assert(r@ =~= import_prologue() + (joined_nl(vs.take(i as int)) + seq![10u8]
                    + batch@[i as int]@));
                assert(joined_nl(vs.take(i + 1)) == joined_nl(vs.take(i as int)) + seq![10u8]
                    + vs.take(i + 1).last());
            }
        } else {
            crate::bytes::append_bytes(&mut r, &batch[i]);
            proof {
                assert(vs.take(1)[0] == batch@[0]@);
                assert(joined_nl(vs.take(1)) == batch@[0]@);
                assert(r@ =~= import_prologue() + joined_nl(vs.take(1)));
            }
        }
        i = i + 1;
    }
    proof {
        assert(vs.take(batch@.len() as int) =~= vs);
    }
    let epi = import_epilogue_vec();
    crate::bytes::append_bytes(&mut r, &epi);
    proof {
        assert(r@ =~= import_prologue() + joined_nl(vs) + import_epilogue());
    }
    r
}

/// What one imported batch came to: every statement succeeded; one
/// statement is the attributed root cause, at its absolute index; or
/// failures were reported but every one is a cascade, so attribution
/// failed.
#[derive(Clone, PartialEq, Eq, Debug)]
pub enum ImportOutcome {
    Success,
    PrimaryFailure { index: u64, message: Vec<u8> },
    Unresolved,
}

/// Applies the attribution rule to a batch's per-statement results.
/// `completed` is how many statements of the segment were already imported
/// before this batch, so `completed + i` is statement `i`'s absolute index.
pub fn evaluate_import(results: &Vec<StatementResult>, completed: u64) -> (r: ImportOutcome)
    requires
        completed + results@.len() <= u64::MAX,
    ensures
        ({
            let rs = results@;
            &&& (r is Success <==> forall|i: int| 0 <= i < rs.len() ==> !(#[trigger] rs[i]).failed)
            &&& (r is PrimaryFailure <==> exists|i: int| 0 <= i < rs.len() && primary_at(rs, i))
            &&& (r matches ImportOutcome::PrimaryFailure { index, message } ==> {
                let i = index - completed;
                &&& 0 <= i < rs.len()
                &&& primary_at(rs, i)
                &&& forall|j: int| 0 <= j < i ==> !primary_at(rs, j)
                &&& message@ == rs[i].message@
            })
            &&& (r is Unresolved <==> ((exists|i: int|
                0 <= i < rs.len() && (#[trigger] rs[i]).failed) && (forall|i: int|
                0 <= i < rs.len() ==> !primary_at(rs, i))))
        }),
{
    let ghost rs = results@;
    let mut any_failed = false;
    let mut i: usize = 0;
    while i < results.len()
        invariant
            rs == results@,
            completed + rs.len() <= u64::MAX,
            0 <= i <= rs.len(),
            forall|j: int| 0 <= j < i ==> !primary_at(rs, j),
            any_failed == exists|j: int| 0 <= j < i && (#[trigger] rs[j]).failed,
        decreases rs.len() - i,
    {
        let failed = results[i].failed;
        if failed {
            let secondary = message_is_secondary(&results[i].message);
            if !secondary {
                assert(primary_at(rs, i as int));
                let m = copy_range(&results[i].message, 0, results[i].message.len());
                proof {
                    assert(results@[i as int].message@.subrange(
                        0,
                        results@[i as int].message@.len() as int,
                    ) =~= results@[i as int].message@);
                }
                return ImportOutcome::PrimaryFailure { index: completed + i as u64, message: m };
            }
            any_failed = true;
        }
        i = i + 1;
    }
    if any_failed {
        ImportOutcome::Unresolved
    } else {
        ImportOutcome::Success
    }
}

/// The failure artifact persisted when a batch fails: every error message
/// the sink reported, in order, and the batch that produced them.
#[derive(Clone, PartialEq, Eq, Debug)]
pub struct DumpRecord {
    pub errors: Vec<Vec<u8>>,
    pub queries: Vec<Vec<u8>>,
}

/// The messages of the failed statements, in order.
pub open spec fn failed_messages(rs: Seq<StatementResult>) -> Seq<Seq<u8>>
    decreases rs.len(),
{
    if rs.len() == 0 {
        Seq::empty()
    } else {
        let pre = failed_messages(rs.drop_last());
        if rs.last().failed {
            pre.push(rs.last().message@)
        } else {
            pre
        }
    }
}

proof fn lemma_failed_messages_nonempty(rs: Seq<StatementResult>)
    ensures
        (failed_messages(rs).len() > 0) == (exists|i: int|
            0 <= i < rs.len() && (#[trigger] rs[i]).failed),
    decreases rs.len(),
{
    if rs.len() > 0 {
        lemma_failed_messages_nonempty(rs.drop_last());
        if rs.last().failed {
            assert(rs[rs.len() - 1].failed);
        } else {
            if exists|i: int| 0 <= i < rs.len() && (#[trigger] rs[i]).failed {
                let i = choose|i: int| 0 <= i < rs.len() && (#[trigger] rs[i]).failed;
                assert(i < rs.len() - 1);
                assert(rs.drop_last()[i].failed);
            }
        }
    }
}

/// Collects the messages of every failed statement, in order.
pub fn collect_failures(results: &Vec<StatementResult>) -> (r: Vec<Vec<u8>>)
    ensures
        views_of(r@) == failed_messages(results@),
{
    let ghost rs = results@;
    let mut out: Vec<Vec<u8>> = Vec::new();
    let mut i: usize = 0;
    proof {
        assert(views_of(out@) =~= Seq::<Seq<u8>>::empty());
        assert(rs.take(0) =~= Seq::<StatementResult>::empty());
    }
    while i < results.len()
        invariant
            rs == results@,
            0 <= i <= rs.len(),
            views_of(out@) == failed_messages(rs.take(i as int)),
        decreases rs.len() - i,
    {
        proof {
            assert(rs.take(i + 1).drop_last() =~= rs.take(i as int));
            assert(rs.take(i + 1).last() == rs[i as int]);
        }
        if results[i].failed {
            let m = copy_range(&results[i].message, 0, results[i].message.len());
            proof {
                assert(results@[i as int].message@.subrange(
                    0,
                    results@[i as int].message@.len() as int,
                ) =~= results@[i as int].message@);
                crate::segment::lemma_views_push(out@, m);
            }
            out.push(m);
        }
        i = i + 1;
    }
    proof {
        assert(rs.take(rs.len() as int) =~= rs);
    }
    out
}

/// Builds the failure artifact for a batch, or nothing when every
/// statement succeeded: the record holds the failed statements' messages
/// and the batch's statements, both in order.
pub fn batch_failure_record(results: &Vec<StatementResult>, batch: &Vec<Vec<u8>>) -> (r: Option<
    DumpRecord,
>)
    ensures
        match r {
            Some(d) => {
                &&& exists|i: int| 0 <= i < results@.len() && (#[trigger] results@[i]).failed
                &&& views_of(d.errors@) == failed_messages(results@)
                &&& views_of(d.queries@) == views_of(batch@)
            },
            None => forall|i: int| 0 <= i < results@.len() ==> !(#[trigger] results@[i]).failed,
        },
{
    let errors = collect_failures(results);
    proof {
        lemma_failed_messages_nonempty(results@);
    }
    if errors.len() == 0 {
        return None;
    }
    let mut queries: Vec<Vec<u8>> = Vec::new();
    let mut i: usize = 0;
    proof {
        assert(views_of(queries@) =~= Seq::<Seq<u8>>::empty());
        assert(views_of(batch@.take(0)) =~= Seq::<Seq<u8>>::empty());
    }
    while i < batch.len()
        invariant
            0 <= i <= batch@.len(),
            views_of(queries@) == views_of(batch@.take(i as int)),
        decreases batch@.len() - i,
    {
        let q = copy_range(&batch[i], 0, batch[i].len());
        proof {
            assert(batch@[i as int]@.subrange(0, batch@[i as int]@.len() as int)
                =~= batch@[i as int]@);
            crate::segment::lemma_views_push(queries@, q);
            assert(views_of(batch@.take(i + 1)) =~= views_of(batch@.take(i as int)).push(
                batch@[i as int]@,
            ));
        }
        queries.push(q);
        i = i + 1;
    }
    proof {
        assert(batch@.take(batch@.len() as int) =~= batch@);
    }
    Some(DumpRecord { errors, queries })
}

} // verus!
