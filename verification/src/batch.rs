//! Size-bounded batches of consecutive statements, and the skip/resume
//! helpers of the single-stream mode.
//!
//! A [`SegmentReader`] pulls statements from a positioned lexer and groups
//! them into batches: a batch ends as soon as its accumulated byte length
//! reaches the target, at a `TABLE` section boundary (a batch never spans
//! one), at the statement limit, or at end of input. In segment mode (the
//! table workers) a `TABLE` marker also ends the whole reader; in
//! whole-stream mode (the resumable single pass) reading goes on past the
//! boundary with the next batch.
//!
//! The spec function [`batch_scan`] defines one batch exactly;
//! [`take_queries`] defines everything a reader hands out in total.

use vstd::prelude::*;
use crate::comment::{classify_comment, comment_key, table_key, CommentClass};
use crate::lexer::{lemma_step, lex_kind, lex_next, lex_text, LexError, LexKind, Statement, StatementStream};
use crate::segment::{lemma_views_push, lexes_clean, queries_from, seg_rest, views_of, TableSegment};

verus! {

/// Sum of the byte lengths of a list of statements.
pub open spec fn sum_lens(b: Seq<Seq<u8>>) -> nat
    decreases b.len(),
{
    if b.len() == 0 {
        0
    } else {
        sum_lens(b.drop_last()) + b.last().len()
    }
}

/// The query texts a reader at `p` with `rem` statements left hands out in
/// total: up to `rem` queries, ending early at end of input, at lexing
/// trouble, or (when `stop` is set) at the next `TABLE` marker.
pub open spec fn take_queries(s: Seq<u8>, p: int, rem: nat, stop: bool) -> Seq<Seq<u8>>
    decreases s.len() - p,
{
    if rem == 0 {
        Seq::empty()
    } else {
        match lex_kind(s, p) {
            LexKind::End => Seq::empty(),
            LexKind::Stray => Seq::empty(),
            LexKind::Comment => {
                proof {
                    lemma_step(s, p);
                }
                if comment_key(lex_text(s, p)) == table_key() && stop {
                    Seq::empty()
                } else {
                    take_queries(s, lex_next(s, p), rem, stop)
                }
            },
            LexKind::Query => {
                proof {
                    lemma_step(s, p);
                }
                seq![lex_text(s, p)] + take_queries(s, lex_next(s, p), (rem - 1) as nat, stop)
            },
        }
    }
}

/// Whether a reader at `p` with `rem` statements left runs to its natural
/// end without hitting lexing trouble.
pub open spec fn scan_ok(s: Seq<u8>, p: int, rem: nat, stop: bool) -> bool
    decreases s.len() - p,
{
    if rem == 0 {
        true
    } else {
        match lex_kind(s, p) {
            LexKind::End => true,
            LexKind::Stray => false,
            LexKind::Comment => {
                proof {
                    lemma_step(s, p);
                }
                if comment_key(lex_text(s, p)) == table_key() && stop {
                    true
                } else {
                    scan_ok(s, lex_next(s, p), rem, stop)
                }
            },
            LexKind::Query => {
                proof {
                    lemma_step(s, p);
                }
                scan_ok(s, lex_next(s, p), (rem - 1) as nat, stop)
            },
        }
    }
}

/// One batch, built from position `p` with `rem` statements left, having
/// already accumulated `acc` (of `bytes` bytes, still under the target).
/// Returns the batch, the position and statement allowance after it, and
/// whether the reader is finished; `None` on lexing trouble.
pub open spec fn batch_scan(
    s: Seq<u8>,
    p: int,
    rem: nat,
    target: nat,
    stop: bool,
    acc: Seq<Seq<u8>>,
    bytes: nat,
) -> Option<(Seq<Seq<u8>>, int, nat, bool)>
    decreases s.len() - p,
{
    if rem == 0 {
        Some((acc, p, 0 as nat, true))
    } else {
        match lex_kind(s, p) {
            LexKind::End => Some((acc, p, rem, true)),
            LexKind::Stray => None,
            LexKind::Comment => {
                proof {
                    lemma_step(s, p);
                }
                let nxt = lex_next(s, p);
                if comment_key(lex_text(s, p)) == table_key() {
                    if stop {
                        Some((acc, nxt, rem, true))
                    } else if acc.len() > 0 {
                        Some((acc, nxt, rem, false))
                    } else {
                        batch_scan(s, nxt, rem, target, stop, acc, bytes)
                    }
                } else {
                    batch_scan(s, nxt, rem, target, stop, acc, bytes)
                }
            },
            LexKind::Query => {
                proof {
                    lemma_step(s, p);
                }
                let q = lex_text(s, p);
                let nxt = lex_next(s, p);
                let acc2 = acc.push(q);
                let bytes2 = bytes + q.len();
                if bytes2 >= target {
                    Some((acc2, nxt, (rem - 1) as nat, false))
                } else {
                    batch_scan(s, nxt, (rem - 1) as nat, target, stop, acc2, bytes2)
                }
            },
        }
    }
}

/// How one batch relates to the reader's total output: the batch extends
/// `acc` with the next statements of [`take_queries`], its byte size stays
/// within one statement of the target, and when the reader is not yet done
/// the rest of the output continues seamlessly after it.
pub proof fn lemma_batch_scan(
    s: Seq<u8>,
    p: int,
    rem: nat,
    target: nat,
    stop: bool,
    acc: Seq<Seq<u8>>,
    bytes: nat,
)
    requires
        0 <= p <= s.len(),
        bytes == sum_lens(acc),
        bytes < target,
    ensures
        match batch_scan(s, p, rem, target, stop, acc, bytes) {
            None => !scan_ok(s, p, rem, stop),
            Some((b, p2, rem2, d2)) => {
                &&& acc.is_prefix_of(b)
                &&& b.skip(acc.len() as int) + (if d2 {
                    Seq::empty()
                } else {
                    take_queries(s, p2, rem2, stop)
                }) == take_queries(s, p, rem, stop)
                &&& rem2 + (b.len() - acc.len()) == rem
                &&& p <= p2 <= s.len()
                &&& !d2 ==> b.len() > 0
                &&& b.len() > 0 ==> sum_lens(b.drop_last()) < target
                &&& (if d2 {
                    scan_ok(s, p, rem, stop)
                } else {
                    scan_ok(s, p, rem, stop) == scan_ok(s, p2, rem2, stop)
                })
            },
        },
    decreases s.len() - p,
{
    lemma_step(s, p);
    if rem == 0 {
        assert(acc.is_prefix_of(acc));
        assert(acc.skip(acc.len() as int) =~= Seq::<Seq<u8>>::empty());
        assert(acc.skip(acc.len() as int) + Seq::<Seq<u8>>::empty() =~= Seq::<Seq<u8>>::empty());
        if acc.len() > 0 {
            assert(sum_lens(acc.drop_last()) <= sum_lens(acc));
        }
    } else {
        match lex_kind(s, p) {
            LexKind::End => {
                assert(acc.is_prefix_of(acc));
                assert(acc.skip(acc.len() as int) =~= Seq::<Seq<u8>>::empty());
                assert(acc.skip(acc.len() as int) + Seq::<Seq<u8>>::empty()
                    =~= Seq::<Seq<u8>>::empty());
                if acc.len() > 0 {
                    assert(sum_lens(acc.drop_last()) <= sum_lens(acc));
                }
            },
            LexKind::Stray => {},
            LexKind::Comment => {
                let nxt = lex_next(s, p);
                if comment_key(lex_text(s, p)) == table_key() {
                    if stop {
                        assert(acc.is_prefix_of(acc));
                        assert(acc.skip(acc.len() as int) =~= Seq::<Seq<u8>>::empty());
                        assert(acc.skip(acc.len() as int) + Seq::<Seq<u8>>::empty()
                            =~= Seq::<Seq<u8>>::empty());
                        assert(take_queries(s, p, rem, stop) =~= Seq::<Seq<u8>>::empty());
                        if acc.len() > 0 {
                            assert(sum_lens(acc.drop_last()) <= sum_lens(acc));
                        }
                    } else if acc.len() > 0 {
                        assert(acc.is_prefix_of(acc));
                        assert(acc.skip(acc.len() as int) =~= Seq::<Seq<u8>>::empty());
                        assert(acc.skip(acc.len() as int) + take_queries(s, nxt, rem, stop)
                            =~= take_queries(s, nxt, rem, stop));
                        assert(sum_lens(acc.drop_last()) <= sum_lens(acc));
                    } else {
                        lemma_batch_scan(s, nxt, rem, target, stop, acc, bytes);
                    }
                } else {
                    lemma_batch_scan(s, nxt, rem, target, stop, acc, bytes);
                }
            },
            LexKind::Query => {
                let q = lex_text(s, p);
                let nxt = lex_next(s, p);
                let acc2 = acc.push(q);
                let bytes2 = bytes + q.len();
                assert(acc2.drop_last() =~= acc);
                assert(sum_lens(acc2) == bytes2);
                if bytes2 >= target {
                    assert(acc.is_prefix_of(acc2));
                    assert(acc2.skip(acc.len() as int) =~= seq![q]);
                    assert(seq![q] + take_queries(s, nxt, (rem - 1) as nat, stop) == take_queries(
                        s,
                        p,
                        rem,
                        stop,
                    ));
                } else {
                    lemma_batch_scan(s, nxt, (rem - 1) as nat, target, stop, acc2, bytes2);
                    match batch_scan(s, nxt, (rem - 1) as nat, target, stop, acc2, bytes2) {
                        None => {},
                        Some((b, p2, rem2, d2)) => {
                            assert(acc2.is_prefix_of(b));
                            assert(acc.is_prefix_of(acc2));
                            assert(acc.is_prefix_of(b)) by {
                                assert(b.take(acc.len() as int) =~= acc2.take(
                                    acc.len() as int,
                                ));
                                assert(acc2.take(acc.len() as int) =~= acc);
                            }
                            assert(b.skip(acc.len() as int) =~= seq![q] + b.skip(
                                acc2.len() as int,
                            )) by {
                                assert(b.take(acc2.len() as int) =~= acc2);
                            }
                            let tail = if d2 {
                                Seq::<Seq<u8>>::empty()
                            } else {
                                take_queries(s, p2, rem2, stop)
                            };
                            assert((seq![q] + b.skip(acc2.len() as int)) + tail =~= seq![q] + (
                            b.skip(acc2.len() as int) + tail));
                            assert(seq![q] + take_queries(s, nxt, (rem - 1) as nat, stop)
                                == take_queries(s, p, rem, stop));
                        },
                    }
                }
            },
        }
    }
}

/// `take_queries` with the statement allowance at least the worker's whole
/// share is exactly the segment replay [`seg_rest`].
pub proof fn lemma_take_rest(s: Seq<u8>, p: int, rem: nat)
    requires
        rem >= seg_rest(s, p).len(),
    ensures
        take_queries(s, p, rem, true) == seg_rest(s, p),
    decreases s.len() - p,
{
    lemma_step(s, p);
    match lex_kind(s, p) {
        LexKind::End => {
            assert(take_queries(s, p, rem, true) =~= seg_rest(s, p));
        },
        LexKind::Stray => {
            assert(take_queries(s, p, rem, true) =~= seg_rest(s, p));
        },
        LexKind::Comment => {
            if comment_key(lex_text(s, p)) == table_key() {
                assert(take_queries(s, p, rem, true) =~= seg_rest(s, p));
            } else {
                lemma_take_rest(s, lex_next(s, p), rem);
            }
        },
        LexKind::Query => {
            let nxt = lex_next(s, p);
            assert(seg_rest(s, p) == seq![lex_text(s, p)] + seg_rest(s, nxt));
            lemma_take_rest(s, nxt, (rem - 1) as nat);
        },
    }
}

/// `take_queries` without the `TABLE` stop and with allowance for every
/// statement is all the queries to the end of the input.
pub proof fn lemma_take_all(s: Seq<u8>, p: int, rem: nat)
    requires
        rem >= queries_from(s, p).len(),
    ensures
        take_queries(s, p, rem, false) == queries_from(s, p),
    decreases s.len() - p,
{
    lemma_step(s, p);
    match lex_kind(s, p) {
        LexKind::End => {
            assert(take_queries(s, p, rem, false) =~= queries_from(s, p));
        },
        LexKind::Stray => {
            assert(take_queries(s, p, rem, false) =~= queries_from(s, p));
        },
        LexKind::Comment => {
            lemma_take_all(s, lex_next(s, p), rem);
        },
        LexKind::Query => {
            lemma_take_all(s, lex_next(s, p), (rem - 1) as nat);
        },
    }
}

/// There are never more query statements than bytes left in the input, so
/// any allowance of at least `s.len()` lets a reader hand out everything.
pub proof fn lemma_queries_len_bound(s: Seq<u8>, p: int)
    requires
        0 <= p <= s.len(),
    ensures
        queries_from(s, p).len() <= s.len() - p,
    decreases s.len() - p,
{
    lemma_step(s, p);
    match lex_kind(s, p) {
        LexKind::End => {},
        LexKind::Stray => {},
        LexKind::Comment => {
            lemma_queries_len_bound(s, lex_next(s, p));
        },
        LexKind::Query => {
            lemma_queries_len_bound(s, lex_next(s, p));
        },
    }
}

/// Pulls statements off a positioned lexer and groups them into batches.
pub struct SegmentReader {
    stream: StatementStream,
    remaining: u64,
    stop_at_table: bool,
    done: bool,
}

impl SegmentReader {
    pub closed spec fn src(self) -> Seq<u8> {
        self.stream.src()
    }

    pub closed spec fn cursor(self) -> int {
        self.stream.cursor()
    }

    pub closed spec fn left(self) -> nat {
        self.remaining as nat
    }

    pub closed spec fn stops_at_table(self) -> bool {
        self.stop_at_table
    }

    pub closed spec fn is_done(self) -> bool {
        self.done
    }

    pub closed spec fn wf(self) -> bool {
        self.stream.wf()
    }

    /// Opens a reader at `offset` that will hand out at most `limit`
    /// statements. With `stop_at_table` set (the table workers) the next
    /// `TABLE` marker ends the reader for good; without it (the
    /// whole-stream resumable mode) a marker only ends the batch in
    /// flight.
    pub fn new(input: Vec<u8>, offset: u64, limit: u64, stop_at_table: bool) -> (r: Self)
        requires
            offset <= input@.len(),
        ensures
            r.wf(),
            r.src() == input@,
            r.cursor() == offset,
            r.left() == limit,
            r.stops_at_table() == stop_at_table,
            !r.is_done(),
    {
        SegmentReader {
            stream: StatementStream::new_at(input, offset),
            remaining: limit,
            stop_at_table,
            done: false,
        }
    }

    /// Opens the reader a table worker uses to replay one indexed segment.
    pub fn open_segment(input: Vec<u8>, seg: &TableSegment) -> (r: Self)
        requires
            seg.offset <= input@.len(),
        ensures
            r.wf(),
            r.src() == input@,
            r.cursor() == seg.offset,
            r.left() == seg.statements,
            r.stops_at_table(),
            !r.is_done(),
    {
        Self::new(input, seg.offset, seg.statements, true)
    }

    /// Builds the next batch: `Ok(Some(..))` with a non-empty batch,
    /// `Ok(None)` once the reader is finished, or the lexer's error. One
    /// batch stops as soon as its byte size reaches `target`, and never
    /// crosses a `TABLE` boundary.
    pub fn next_batch(&mut self, target: usize) -> (r: Result<Option<Vec<Vec<u8>>>, LexError>)
        requires
            old(self).wf(),
            target >= 1,
        ensures
            final(self).wf(),
            final(self).src() == old(self).src(),
            final(self).stops_at_table() == old(self).stops_at_table(),
            old(self).is_done() ==> r == Ok::<Option<Vec<Vec<u8>>>, LexError>(None) && *final(self)
                == *old(self),
            !old(self).is_done() ==> match batch_scan(
                old(self).src(),
                old(self).cursor(),
                old(self).left(),
                target as nat,
                old(self).stops_at_table(),
                Seq::empty(),
                0,
            ) {
                None => {
                    &&& r matches Err(e) && e == LexError::CommentInsideQuery
                    &&& final(self).is_done()
                },
                Some((b, p2, rem2, d2)) => {
                    &&& final(self).cursor() == p2
                    &&& final(self).left() == rem2
                    &&& (if b.len() == 0 {
                        r == Ok::<Option<Vec<Vec<u8>>>, LexError>(None) && final(self).is_done()
                    } else {
                        &&& sum_lens(b.drop_last()) < target
                        &&& final(self).is_done() == d2
                        &&& (r matches Ok(Some(bv)) && views_of(bv@) == b)
                    })
                },
            },
    {
        let ghost s = self.stream.src();
        let ghost p0 = self.stream.cursor();
        let ghost rem0 = self.remaining as nat;
        let ghost stop = self.stop_at_table;
        if self.done {
            return Ok(None);
        }
        let mut batch: Vec<Vec<u8>> = Vec::new();
        let mut bytes: usize = 0;
        proof {
            assert(views_of(batch@) =~= Seq::<Seq<u8>>::empty());
        }
        loop
            invariant_except_break
                s == old(self).src(),
                p0 == old(self).cursor(),
                rem0 == old(self).left(),
                stop == old(self).stops_at_table(),
                !old(self).is_done(),
                target >= 1,
                self.stream.wf(),
                self.stream.src() == s,
                self.stop_at_table == stop,
                !self.done,
                bytes == sum_lens(views_of(batch@)),
                bytes < target,
                batch_scan(s, p0, rem0, target as nat, stop, Seq::empty(), 0) == batch_scan(
                    s,
                    self.stream.cursor(),
                    self.remaining as nat,
                    target as nat,
                    stop,
                    views_of(batch@),
                    bytes as nat,
                ),
            ensures
                s == old(self).src(),
                p0 == old(self).cursor(),
                rem0 == old(self).left(),
                stop == old(self).stops_at_table(),
                self.stream.wf(),
                self.stream.src() == s,
                self.stop_at_table == stop,
                views_of(batch@).len() > 0 ==> sum_lens(views_of(batch@).drop_last())
                    < target,
                batch_scan(s, p0, rem0, target as nat, stop, Seq::empty(), 0) == Some(
                    (
                        views_of(batch@),
                        self.stream.cursor(),
                        self.remaining as nat,
                        self.done,
                    ),
                ),
            decreases s.len() - self.stream.cursor(),
        {
            let ghost p = self.stream.cursor();
            let ghost rem = self.remaining as nat;
            proof {
                lemma_step(s, p);
            }
            if self.remaining == 0 {
                self.done = true;
                break;
            }
            match self.stream.next_statement() {
                None => {
                    self.done = true;
                    break;
                },
                Some(Err(e)) => {
                    self.done = true;
                    return Err(e);
                },
                Some(Ok((_, stmt))) => {
                    match stmt {
                        Statement::Comment(c) => {
                            assert(c@ == lex_text(s, p));
                            match classify_comment(&c) {
                                CommentClass::Table(_) => {
                                    assert(comment_key(lex_text(s, p)) == table_key());
                                    if self.stop_at_table {
                                        self.done = true;
                                        break;
                                    }
                                    if batch.len() > 0 {
                                        break;
                                    }
                                },
                                _ => {
                                    assert(comment_key(lex_text(s, p)) != table_key());
                                },
                            }
                        },
                        Statement::Query(q) => {
                            assert(q@ == lex_text(s, p));
                            let len = q.len();
                            let bytes2 = if bytes > usize::MAX - len {
                                usize::MAX
                            } else {
                                bytes + len
                            };
                            proof {
                                lemma_views_push(batch@, q);
                                assert(views_of(batch@).push(q@).drop_last() =~= views_of(
                                    batch@,
                                ));
                            }
                            batch.push(q);
                            self.remaining = self.remaining - 1;
                            if bytes2 >= target {
                                break;
                            }
                            assert(bytes2 == sum_lens(views_of(batch@)));
                            bytes = bytes2;
                        },
                    }
                },
            }
        }
        if batch.len() == 0 {
            proof {
                assert(views_of(batch@) =~= Seq::<Seq<u8>>::empty());
                assert(sum_lens(Seq::<Seq<u8>>::empty()) == 0);
                lemma_batch_scan(s, p0, rem0, target as nat, stop, Seq::empty(), 0);
            }
            return Ok(None);
        }
        Ok(Some(batch))
    }
}

/// The views of a sequence of batches.
pub open spec fn views_of_batches(v: Seq<Vec<Vec<u8>>>) -> Seq<Seq<Seq<u8>>> {
    v.map_values(|b: Vec<Vec<u8>>| views_of(b@))
}

/// The statements of a run of batches, in order.
pub open spec fn cat_batches(bs: Seq<Seq<Seq<u8>>>) -> Seq<Seq<u8>>
    decreases bs.len(),
{
    if bs.len() == 0 {
        Seq::empty()
    } else {
        cat_batches(bs.drop_last()) + bs.last()
    }
}

/// A batch within bounds: non-empty, and exceeding the byte target by at
/// most its last statement's length.
pub open spec fn batch_within(b: Seq<Seq<u8>>, target: nat) -> bool {
    b.len() > 0 && sum_lens(b.drop_last()) < target
}

/// Drives a reader to its natural end and collects every batch. Together
/// the batches hold exactly the reader's statements ([`take_queries`]), in
/// order, each batch non-empty and within the byte target; so statements
/// of two different tables are never merged into one batch when the reader
/// stops at `TABLE` boundaries.
pub fn collect_batches(reader: &mut SegmentReader, target: usize) -> (r: Result<
    Vec<Vec<Vec<u8>>>,
    LexError,
>)
    requires
        old(reader).wf(),
        target >= 1,
        !old(reader).is_done(),
    ensures
        final(reader).wf(),
        match r {
            Ok(bs) => {
                &&& scan_ok(
                    old(reader).src(),
                    old(reader).cursor(),
                    old(reader).left(),
                    old(reader).stops_at_table(),
                )
                &&& cat_batches(views_of_batches(bs@)) == take_queries(
                    old(reader).src(),
                    old(reader).cursor(),
                    old(reader).left(),
                    old(reader).stops_at_table(),
                )
                &&& forall|i: int|
                    0 <= i < bs@.len() ==> batch_within(
                        #[trigger] views_of_batches(bs@)[i],
                        target as nat,
                    )
            },
            Err(e) => {
                &&& !scan_ok(
                    old(reader).src(),
                    old(reader).cursor(),
                    old(reader).left(),
                    old(reader).stops_at_table(),
                )
                &&& e == LexError::CommentInsideQuery
            },
        },
{
    let ghost s = reader.src();
    let ghost p0 = reader.cursor();
    let ghost rem0 = reader.left();
    let ghost stop = reader.stops_at_table();
    let mut out: Vec<Vec<Vec<u8>>> = Vec::new();
    proof {
        assert(views_of_batches(out@) =~= Seq::<Seq<Seq<u8>>>::empty());
        assert(cat_batches(Seq::<Seq<Seq<u8>>>::empty()) + take_queries(s, p0, rem0, stop)
            =~= take_queries(s, p0, rem0, stop));
    }
    loop
        invariant_except_break
            s == old(reader).src(),
            p0 == old(reader).cursor(),
            rem0 == old(reader).left(),
            stop == old(reader).stops_at_table(),
            target >= 1,
            reader.wf(),
            reader.src() == s,
            reader.stops_at_table() == stop,
            cat_batches(views_of_batches(out@)) + (if reader.is_done() {
                Seq::<Seq<u8>>::empty()
            } else {
                take_queries(s, reader.cursor(), reader.left(), stop)
            }) == take_queries(s, p0, rem0, stop),
            scan_ok(s, p0, rem0, stop) == (if reader.is_done() {
                true
            } else {
                scan_ok(s, reader.cursor(), reader.left(), stop)
            }),
            forall|i: int|
                0 <= i < out@.len() ==> batch_within(
                    #[trigger] views_of_batches(out@)[i],
                    target as nat,
                ),
        ensures
            s == old(reader).src(),
            p0 == old(reader).cursor(),
            rem0 == old(reader).left(),
            stop == old(reader).stops_at_table(),
            reader.wf(),
            scan_ok(s, p0, rem0, stop),
            cat_batches(views_of_batches(out@)) == take_queries(s, p0, rem0, stop),
            forall|i: int|
                0 <= i < out@.len() ==> batch_within(
                    #[trigger] views_of_batches(out@)[i],
                    target as nat,
                ),
        decreases reader.left() + (if reader.is_done() {
            0nat
        } else {
            1nat
        }),
    {
        let ghost p = reader.cursor();
        let ghost rem = reader.left();
        let ghost was_done = reader.is_done();
        proof {
            if !was_done {
                assert(sum_lens(Seq::<Seq<u8>>::empty()) == 0);
                lemma_batch_scan(s, p, rem, target as nat, stop, Seq::empty(), 0);
            }
        }
        match reader.next_batch(target) {
            Ok(None) => {
                proof {
                    if !was_done {
                        match batch_scan(s, p, rem, target as nat, stop, Seq::empty(), 0) {
                            None => {},
                            Some((b, p2, rem2, d2)) => {
                                assert(b.len() == 0);
                                assert(d2);
                                assert(b.skip(0) =~= b);
                                assert(b + Seq::<Seq<u8>>::empty() =~= b);
                                assert(take_queries(s, p, rem, stop) =~= Seq::<Seq<u8>>::empty());
                                assert(cat_batches(views_of_batches(out@)) + Seq::<
                                    Seq<u8>,
                                >::empty() =~= cat_batches(views_of_batches(out@)));
                            },
                        }
                    } else {
                        assert(cat_batches(views_of_batches(out@)) + Seq::<Seq<u8>>::empty()
                            =~= cat_batches(views_of_batches(out@)));
                    }
                }
                break;
            },
            Ok(Some(b)) => {
                proof {
                    match batch_scan(s, p, rem, target as nat, stop, Seq::empty(), 0) {
                        None => {},
                        Some((gb, p2, rem2, d2)) => {
                            assert(views_of(b@) == gb);
                            assert(gb.skip(0) =~= gb);
                            let tail = if d2 {
                                Seq::<Seq<u8>>::empty()
                            } else {
                                take_queries(s, p2, rem2, stop)
                            };
                            assert(gb + tail == take_queries(s, p, rem, stop));
                            let vb0 = views_of_batches(out@);
                            assert(views_of_batches(out@.push(b)) =~= vb0.push(views_of(b@)));
                            assert(views_of_batches(out@.push(b)).drop_last() =~= vb0);
                            assert(cat_batches(views_of_batches(out@.push(b))) == cat_batches(
                                vb0,
                            ) + gb);
                            assert((cat_batches(vb0) + gb) + tail =~= cat_batches(vb0) + (gb
                                + tail));
                        },
                    }
                }
                let ghost vb_new = views_of_batches(out@.push(b));
                out.push(b);
                proof {
                    assert forall|i: int|
                        0 <= i < out@.len() implies batch_within(
                        #[trigger] views_of_batches(out@)[i],
                        target as nat,
                    ) by {
                        if i < out@.len() - 1 {
                            assert(views_of_batches(out@)[i] == views_of_batches(
                                out@.drop_last(),
                            )[i]) by {
                                assert(out@.drop_last() =~= out@.subrange(0, out@.len() - 1));
                                assert(views_of_batches(out@)[i] == views_of(out@[i]@));
                                assert(views_of_batches(out@.drop_last())[i] == views_of(
                                    out@.drop_last()[i]@,
                                ));
                            }
                        }
                    }
                }
            },
            Err(e) => {
                return Err(e);
            },
        }
    }
    Ok(out)
}

/// Position reached after passing over the first `n` query statements from
/// `p`; comments pass by without counting. `None` if lexing trouble comes
/// first; end of input stops early.
pub open spec fn skip_pos(s: Seq<u8>, p: int, n: nat) -> Option<int>
    decreases s.len() - p,
{
    if n == 0 {
        Some(p)
    } else {
        match lex_kind(s, p) {
            LexKind::End => Some(p),
            LexKind::Stray => None,
            LexKind::Comment => {
                proof {
                    lemma_step(s, p);
                }
                skip_pos(s, lex_next(s, p), n)
            },
            LexKind::Query => {
                proof {
                    lemma_step(s, p);
                }
                skip_pos(s, lex_next(s, p), (n - 1) as nat)
            },
        }
    }
}

/// Skips the next `n` statements of the stream; comments do not count and
/// are passed over. This is how an interrupted single-stream run resumes
/// at statement-count granularity.
pub fn skip_statements(st: &mut StatementStream, n: u64) -> (r: Result<(), LexError>)
    requires
        old(st).wf(),
    ensures
        final(st).wf(),
        final(st).src() == old(st).src(),
        match r {
            Ok(_) => skip_pos(old(st).src(), old(st).cursor(), n as nat) == Some(
                final(st).cursor(),
            ),
            Err(e) => {
                &&& skip_pos(old(st).src(), old(st).cursor(), n as nat) is None
                &&& e == LexError::CommentInsideQuery
            },
        },
{
    let ghost s = old(st).src();
    let ghost p0 = old(st).cursor();
    let mut k: u64 = n;
    loop
        invariant_except_break
            st.wf(),
            st.src() == s,
            s == old(st).src(),
            p0 == old(st).cursor(),
            skip_pos(s, p0, n as nat) == skip_pos(s, st.cursor(), k as nat),
        ensures
            st.wf(),
            st.src() == s,
            s == old(st).src(),
            skip_pos(s, p0, n as nat) == Some(st.cursor()),
        decreases s.len() - st.cursor(), k,
    {
        if k == 0 {
            break;
        }
        let ghost p = st.cursor();
        proof {
            lemma_step(s, p);
        }
        match st.next_statement() {
            None => {
                break;
            },
            Some(Err(e)) => {
                return Err(e);
            },
            Some(Ok((_, stmt))) => {
                match stmt {
                    Statement::Comment(_) => {},
                    Statement::Query(_) => {
                        k = k - 1;
                    },
                }
            },
        }
    }
    Ok(())
}

/// Counts every query statement of the dump, the first pass of the
/// resumable single-stream mode.
pub fn count_statements(input: &Vec<u8>) -> (r: Result<u64, LexError>)
    ensures
        match r {
            Ok(total) => lexes_clean(input@, 0) && total == queries_from(input@, 0).len(),
            Err(e) => !lexes_clean(input@, 0) && e == LexError::CommentInsideQuery,
        },
{
    let ghost s = input@;
    let n = input.len();
    let data = crate::bytes::copy_range(input, 0, n);
    proof {
        assert(input@.subrange(0, n as int) =~= input@);
    }
    let mut st = StatementStream::new(data);
    let mut total: u64 = 0;
    loop
        invariant_except_break
            st.wf(),
            st.src() == s,
            s == input@,
            total <= st.cursor(),
            total + queries_from(s, st.cursor()).len() == queries_from(s, 0).len(),
            lexes_clean(s, 0) == lexes_clean(s, st.cursor()),
        ensures
            lexes_clean(s, 0),
            total == queries_from(s, 0).len(),
        decreases s.len() - st.cursor(),
    {
        let ghost p = st.cursor();
        proof {
            lemma_step(s, p);
        }
        match st.next_statement() {
            None => {
                break;
            },
            Some(Err(e)) => {
                return Err(e);
            },
            Some(Ok((_, stmt))) => {
                match stmt {
                    Statement::Comment(_) => {},
                    Statement::Query(_) => {
                        assert(total < u64::MAX);
                        total = total + 1;
                    },
                }
            },
        }
    }
    Ok(total)
}

/// Skipping `n` statements lands exactly before the `n + 1`-th: what
/// remains after the skip is the tail of the dump's statements from index
/// `n` on (or nothing, if fewer than `n` remain), so the next batch built
/// there begins with the `n + 1`-th statement. A skip fails only on lexing
/// trouble.
pub proof fn lemma_skip_statements(s: Seq<u8>, p: int, n: nat)
    requires
        0 <= p <= s.len(),
    ensures
        match skip_pos(s, p, n) {
            Some(p2) => {
                &&& p <= p2 <= s.len()
                &&& (n <= queries_from(s, p).len() ==> queries_from(s, p2) == queries_from(
                    s,
                    p,
                ).skip(n as int))
                &&& (n > queries_from(s, p).len() ==> queries_from(s, p2) == Seq::<
                    Seq<u8>,
                >::empty())
            },
            None => !lexes_clean(s, p),
        },
    decreases s.len() - p,
{
    lemma_step(s, p);
    if n == 0 {
        assert(queries_from(s, p).skip(0) =~= queries_from(s, p));
    } else {
        match lex_kind(s, p) {
            LexKind::End => {
                assert(queries_from(s, p) =~= Seq::<Seq<u8>>::empty());
            },
            LexKind::Stray => {},
            LexKind::Comment => {
                lemma_skip_statements(s, lex_next(s, p), n);
            },
            LexKind::Query => {
                let nxt = lex_next(s, p);
                lemma_skip_statements(s, nxt, (n - 1) as nat);
                let q = lex_text(s, p);
                assert(queries_from(s, p) == seq![q] + queries_from(s, nxt));
                if n <= queries_from(s, p).len() {
                    assert((seq![q] + queries_from(s, nxt)).skip(n as int) =~= queries_from(
                        s,
                        nxt,
                    ).skip(n - 1));
                }
            },
        }
    }
}

/// A worker that replays segment `i` of the index hands out exactly the
/// statements the full scan attributed to that segment: reading from the
/// recorded offset with the recorded statement count, stopping at `TABLE`
/// boundaries, reproduces the segment's query list.
pub proof fn lemma_segment_replay(s: Seq<u8>, i: int)
    requires
        crate::segment::single_data_runs(s, 0, false),
        0 <= i < crate::segment::spec_segment_index(s).tables.len(),
    ensures
        ({
            let t = crate::segment::spec_segment_index(s).tables[i];
            take_queries(s, t.off, t.count, true) == t.queries
        }),
{
    crate::segment::lemma_segments_relex(s);
    let t = crate::segment::spec_segment_index(s).tables[i];
    lemma_take_rest(s, t.off, t.count);
}

/// Resume-from-count: after skipping `n` statements, a whole-stream reader
/// with enough allowance hands out exactly the statements from the
/// `n + 1`-th on.
pub proof fn lemma_resume_output(s: Seq<u8>, p2: int, n: nat, rem: nat)
    requires
        skip_pos(s, 0, n) == Some(p2),
        n <= queries_from(s, 0).len(),
        rem >= queries_from(s, 0).len(),
    ensures
        take_queries(s, p2, rem, false) == queries_from(s, 0).skip(n as int),
{
    lemma_skip_statements(s, 0, n);
    assert(queries_from(s, p2).len() <= queries_from(s, 0).len());
    lemma_take_all(s, p2, rem);
}

} // verus!
