//! One forward pass over the whole dump, producing the ordered list of all
//! definition statements and an ordered index of table data segments, each
//! with the byte offset of its first statement and an exact statement count.
//!
//! The pass is defined once as the spec fold [`seg_fold`] over the token
//! sequence; the executable [`segment_dump`] is proved equal to it. Sections
//! follow the markers of [`crate::comment`]: a `TABLE` marker closes a data
//! section, a `TABLE DATA` marker opens one and records the position right
//! after the marker line as the segment's starting offset.

use vstd::prelude::*;
use crate::comment::{classify_comment, comment_key, comment_value, table_data_key, table_key, CommentClass};
use crate::lexer::{lemma_step, lex_kind, lex_next, lex_text, LexError, LexKind, Statement, StatementStream};

verus! {

/// Mathematical form of one indexed table segment: its name, the byte
/// offset of its first statement, its statement count, and (ghost only)
/// the statement texts themselves.
pub struct SpecSegment {
    pub name: Seq<u8>,
    pub off: int,
    pub count: nat,
    pub queries: Seq<Seq<u8>>,
}

/// Mathematical form of the segmenter's whole output.
pub struct SpecIndex {
    pub defs: Seq<Seq<u8>>,
    pub tables: Seq<SpecSegment>,
}

/// The views of a sequence of byte vectors.
pub open spec fn views_of(v: Seq<Vec<u8>>) -> Seq<Seq<u8>> {
    v.map_values(|q: Vec<u8>| q@)
}

/// The segment a data section closes into, or nothing if no data section
/// is open.
pub open spec fn seg_close(in_data: bool, name: Seq<u8>, off: int, qs: Seq<Seq<u8>>) -> Seq<
    SpecSegment,
> {
    if in_data {
        seq![(SpecSegment { name, off, count: qs.len(), queries: qs })]
    } else {
        Seq::empty()
    }
}

/// The segmenter as a fold over the token sequence from position `p`, with
/// the state of the currently open section: `in_data` says whether a data
/// section is open, and then `name`, `off` and `qs` are its name, starting
/// offset and statements so far. Lexing trouble ends the fold early, like
/// end of input; the executable pass reports it as an error instead.
pub open spec fn seg_fold(
    s: Seq<u8>,
    p: int,
    in_data: bool,
    name: Seq<u8>,
    off: int,
    qs: Seq<Seq<u8>>,
) -> SpecIndex
    decreases s.len() - p,
{
    match lex_kind(s, p) {
        LexKind::End => SpecIndex { defs: Seq::empty(), tables: seg_close(in_data, name, off, qs) },
        LexKind::Stray => SpecIndex {
            defs: Seq::empty(),
            tables: seg_close(in_data, name, off, qs),
        },
        LexKind::Comment => {
            let text = lex_text(s, p);
            let nxt = lex_next(s, p);
            let k = comment_key(text);
            proof {
                lemma_step(s, p);
            }
            if k == table_key() {
                let rest = seg_fold(s, nxt, false, Seq::empty(), 0, Seq::empty());
                SpecIndex {
                    defs: rest.defs,
                    tables: seg_close(in_data, name, off, qs) + rest.tables,
                }
            } else if k == table_data_key() {
                seg_fold(
                    s,
                    nxt,
                    true,
                    comment_value(text),
                    nxt,
                    if in_data {
                        qs
                    } else {
                        Seq::empty()
                    },
                )
            } else {
                seg_fold(s, nxt, in_data, name, off, qs)
            }
        },
        LexKind::Query => {
            let q = lex_text(s, p);
            let nxt = lex_next(s, p);
            proof {
                lemma_step(s, p);
            }
            if in_data {
                seg_fold(s, nxt, true, name, off, qs.push(q))
            } else {
                let rest = seg_fold(s, nxt, false, name, off, qs);
                SpecIndex { defs: seq![q] + rest.defs, tables: rest.tables }
            }
        },
    }
}

/// The segmenter's output for a whole dump.
pub open spec fn spec_segment_index(s: Seq<u8>) -> SpecIndex {
    seg_fold(s, 0, false, Seq::empty(), 0, Seq::empty())
}

/// The whole input from `p` on lexes without error.
pub open spec fn lexes_clean(s: Seq<u8>, p: int) -> bool
    decreases s.len() - p,
{
    match lex_kind(s, p) {
        LexKind::End => true,
        LexKind::Stray => false,
        _ => {
            proof {
                lemma_step(s, p);
            }
            lexes_clean(s, lex_next(s, p))
        },
    }
}

/// The texts of all query tokens from `p` to the end of the input.
pub open spec fn queries_from(s: Seq<u8>, p: int) -> Seq<Seq<u8>>
    decreases s.len() - p,
{
    match lex_kind(s, p) {
        LexKind::End => Seq::empty(),
        LexKind::Stray => Seq::empty(),
        LexKind::Comment => {
            proof {
                lemma_step(s, p);
            }
            queries_from(s, lex_next(s, p))
        },
        LexKind::Query => {
            proof {
                lemma_step(s, p);
            }
            seq![lex_text(s, p)] + queries_from(s, lex_next(s, p))
        },
    }
}

/// Sum of the statement counts of a list of segments.
pub open spec fn sum_counts(ts: Seq<SpecSegment>) -> nat
    decreases ts.len(),
{
    if ts.len() == 0 {
        0
    } else {
        ts[0].count + sum_counts(ts.drop_first())
    }
}

proof fn lemma_sum_counts_cons(x: SpecSegment, ts: Seq<SpecSegment>)
    ensures
        sum_counts(seq![x] + ts) == x.count + sum_counts(ts),
{
    assert((seq![x] + ts)[0] == x);
    assert((seq![x] + ts).drop_first() =~= ts);
}

proof fn lemma_fold_total(
    s: Seq<u8>,
    p: int,
    in_data: bool,
    name: Seq<u8>,
    off: int,
    qs: Seq<Seq<u8>>,
)
    ensures
        ({
            let r = seg_fold(s, p, in_data, name, off, qs);
            r.defs.len() + sum_counts(r.tables) == queries_from(s, p).len() + (if in_data {
                qs.len()
            } else {
                0
            })
        }),
    decreases s.len() - p,
{
    reveal_with_fuel(sum_counts, 3);
    lemma_step(s, p);
    match lex_kind(s, p) {
        LexKind::End => {
            if in_data {
                let ts = seg_close(true, name, off, qs);
                assert(ts.drop_first() =~= Seq::<SpecSegment>::empty());
            }
        },
        LexKind::Stray => {
            if in_data {
                let ts = seg_close(true, name, off, qs);
                assert(ts.drop_first() =~= Seq::<SpecSegment>::empty());
            }
        },
        LexKind::Comment => {
            let text = lex_text(s, p);
            let nxt = lex_next(s, p);
            let k = comment_key(text);
            if k == table_key() {
                lemma_fold_total(s, nxt, false, Seq::empty(), 0, Seq::empty());
                let rest = seg_fold(s, nxt, false, Seq::empty(), 0, Seq::empty());
                if in_data {
                    let seg = (SpecSegment { name, off, count: qs.len(), queries: qs });
                    assert(seg_close(in_data, name, off, qs) + rest.tables =~= seq![seg]
                        + rest.tables);
                    lemma_sum_counts_cons(seg, rest.tables);
                } else {
                    assert(seg_close(in_data, name, off, qs) + rest.tables =~= rest.tables);
                }
            } else if k == table_data_key() {
                if in_data {
                    lemma_fold_total(s, nxt, true, comment_value(text), nxt, qs);
                } else {
                    lemma_fold_total(s, nxt, true, comment_value(text), nxt, Seq::empty());
                }
            } else {
                lemma_fold_total(s, nxt, in_data, name, off, qs);
            }
        },
        LexKind::Query => {
            let q = lex_text(s, p);
            let nxt = lex_next(s, p);
            if in_data {
                lemma_fold_total(s, nxt, true, name, off, qs.push(q));
            } else {
                lemma_fold_total(s, nxt, false, name, off, qs);
            }
            assert((seq![q] + queries_from(s, nxt)).len() == 1 + queries_from(s, nxt).len());
        },
    }
}

/// Every query statement of the dump is counted exactly once: the number of
/// definition statements plus the statement counts of all table segments
/// equals the number of query tokens in the whole dump.
pub proof fn lemma_segment_total(s: Seq<u8>)
    ensures
        ({
            let r = spec_segment_index(s);
            r.defs.len() + sum_counts(r.tables) == queries_from(s, 0).len()
        }),
{
    lemma_fold_total(s, 0, false, Seq::empty(), 0, Seq::empty());
}

/// Query texts from `p` up to the next `TABLE` marker, the end of the
/// input, or lexing trouble: what a worker that re-opens the dump at `p`
/// replays. `TABLE DATA` markers and other comments are passed over.
pub open spec fn seg_rest(s: Seq<u8>, p: int) -> Seq<Seq<u8>>
    decreases s.len() - p,
{
    match lex_kind(s, p) {
        LexKind::End => Seq::empty(),
        LexKind::Stray => Seq::empty(),
        LexKind::Comment => {
            proof {
                lemma_step(s, p);
            }
            if comment_key(lex_text(s, p)) == table_key() {
                Seq::empty()
            } else {
                seg_rest(s, lex_next(s, p))
            }
        },
        LexKind::Query => {
            proof {
                lemma_step(s, p);
            }
            seq![lex_text(s, p)] + seg_rest(s, lex_next(s, p))
        },
    }
}

/// Every data section is opened from a definitions section: from `p` on
/// (with `in_data` saying whether one is already open), no `TABLE DATA`
/// marker appears while a data section is open. Real dumps have this shape;
/// without it a data section that another one interrupts is never emitted,
/// and its statements are counted into the next emitted segment.
pub open spec fn single_data_runs(s: Seq<u8>, p: int, in_data: bool) -> bool
    decreases s.len() - p,
{
    match lex_kind(s, p) {
        LexKind::End => true,
        LexKind::Stray => true,
        LexKind::Comment => {
            let k = comment_key(lex_text(s, p));
            proof {
                lemma_step(s, p);
            }
            if k == table_key() {
                single_data_runs(s, lex_next(s, p), false)
            } else if k == table_data_key() {
                !in_data && single_data_runs(s, lex_next(s, p), true)
            } else {
                single_data_runs(s, lex_next(s, p), in_data)
            }
        },
        LexKind::Query => {
            proof {
                lemma_step(s, p);
            }
            single_data_runs(s, lex_next(s, p), in_data)
        },
    }
}

/// Each emitted segment's count is the length of its (ghost) query list.
proof fn lemma_fold_counts(
    s: Seq<u8>,
    p: int,
    in_data: bool,
    name: Seq<u8>,
    off: int,
    qs: Seq<Seq<u8>>,
)
    ensures
        ({
            let r = seg_fold(s, p, in_data, name, off, qs);
            forall|i: int|
                0 <= i < r.tables.len() ==> (#[trigger] r.tables[i]).count == r.tables[i].queries.len()
        }),
    decreases s.len() - p,
{
    lemma_step(s, p);
    let r = seg_fold(s, p, in_data, name, off, qs);
    let seg = (SpecSegment { name, off, count: qs.len(), queries: qs });
    match lex_kind(s, p) {
        LexKind::End => {
            if in_data {
                assert(r.tables[0] == seg);
            }
        },
        LexKind::Stray => {
            if in_data {
                assert(r.tables[0] == seg);
            }
        },
        LexKind::Comment => {
            let text = lex_text(s, p);
            let nxt = lex_next(s, p);
            let k = comment_key(text);
            if k == table_key() {
                lemma_fold_counts(s, nxt, false, Seq::empty(), 0, Seq::empty());
                let rest = seg_fold(s, nxt, false, Seq::empty(), 0, Seq::empty());
                assert forall|i: int|
                    0 <= i < r.tables.len() implies (#[trigger] r.tables[i]).count
                    == r.tables[i].queries.len() by {
                    if in_data {
                        assert(r.tables =~= seq![seg] + rest.tables);
                        if i == 0 {
                            assert(r.tables[0] == seg);
                        } else {
                            assert(r.tables[i] == rest.tables[i - 1]);
                        }
                    } else {
                        assert(r.tables =~= rest.tables);
                        assert(r.tables[i] == rest.tables[i]);
                    }
                }
            } else if k == table_data_key() {
                let qs2 = if in_data { qs } else { Seq::empty() };
                lemma_fold_counts(s, nxt, true, comment_value(text), nxt, qs2);
                let rest = seg_fold(s, nxt, true, comment_value(text), nxt, qs2);
                assert forall|i: int|
                    0 <= i < r.tables.len() implies (#[trigger] r.tables[i]).count
                    == r.tables[i].queries.len() by {
                    assert(r.tables[i] == rest.tables[i]);
                }
            } else {
                lemma_fold_counts(s, nxt, in_data, name, off, qs);
                let rest = seg_fold(s, nxt, in_data, name, off, qs);
                assert forall|i: int|
                    0 <= i < r.tables.len() implies (#[trigger] r.tables[i]).count
                    == r.tables[i].queries.len() by {
                    assert(r.tables[i] == rest.tables[i]);
                }
            }
        },
        LexKind::Query => {
            let nxt = lex_next(s, p);
            let qs2 = if in_data { qs.push(lex_text(s, p)) } else { qs };
            lemma_fold_counts(s, nxt, in_data, name, off, qs2);
            let rest = seg_fold(s, nxt, in_data, name, off, qs2);
            assert forall|i: int|
                0 <= i < r.tables.len() implies (#[trigger] r.tables[i]).count
                == r.tables[i].queries.len() by {
                assert(r.tables[i] == rest.tables[i]);
            }
        },
    }
}

proof fn lemma_fold_relex(
    s: Seq<u8>,
    p: int,
    in_data: bool,
    name: Seq<u8>,
    off: int,
    qs: Seq<Seq<u8>>,
)
    requires
        single_data_runs(s, p, in_data),
        in_data ==> seg_rest(s, off) == qs + seg_rest(s, p),
    ensures
        ({
            let r = seg_fold(s, p, in_data, name, off, qs);
            forall|i: int|
                0 <= i < r.tables.len() ==> (#[trigger] r.tables[i]).queries == seg_rest(
                    s,
                    r.tables[i].off,
                )
        }),
    decreases s.len() - p,
{
    lemma_step(s, p);
    let r = seg_fold(s, p, in_data, name, off, qs);
    let seg = (SpecSegment { name, off, count: qs.len(), queries: qs });
    match lex_kind(s, p) {
        LexKind::End => {
            if in_data {
                assert(qs + seg_rest(s, p) =~= qs);
                assert(r.tables[0] == seg);
            }
        },
        LexKind::Stray => {
            if in_data {
                assert(qs + seg_rest(s, p) =~= qs);
                assert(r.tables[0] == seg);
            }
        },
        LexKind::Comment => {
            let text = lex_text(s, p);
            let nxt = lex_next(s, p);
            let k = comment_key(text);
            if k == table_key() {
                lemma_fold_relex(s, nxt, false, Seq::empty(), 0, Seq::empty());
                let rest = seg_fold(s, nxt, false, Seq::empty(), 0, Seq::empty());
                if in_data {
                    assert(seg_rest(s, p) =~= Seq::<Seq<u8>>::empty());
                    assert(qs + seg_rest(s, p) =~= qs);
                    assert(r.tables =~= seq![seg] + rest.tables);
                    assert forall|i: int|
                        0 <= i < r.tables.len() implies (#[trigger] r.tables[i]).queries
                        == seg_rest(s, r.tables[i].off) by {
                        if i == 0 {
                            assert(r.tables[0] == seg);
                        } else {
                            assert(r.tables[i] == rest.tables[i - 1]);
                        }
                    }
                } else {
                    assert(r.tables =~= rest.tables);
                    assert forall|i: int|
                        0 <= i < r.tables.len() implies (#[trigger] r.tables[i]).queries
                        == seg_rest(s, r.tables[i].off) by {
                        assert(r.tables[i] == rest.tables[i]);
                    }
                }
            } else if k == table_data_key() {
                assert(!in_data);
                assert(Seq::<Seq<u8>>::empty() + seg_rest(s, nxt) =~= seg_rest(s, nxt));
                lemma_fold_relex(s, nxt, true, comment_value(text), nxt, Seq::empty());
                let rest = seg_fold(s, nxt, true, comment_value(text), nxt, Seq::empty());
                assert forall|i: int|
                    0 <= i < r.tables.len() implies (#[trigger] r.tables[i]).queries
                    == seg_rest(s, r.tables[i].off) by {
                    assert(r.tables[i] == rest.tables[i]);
                }
            } else {
                lemma_fold_relex(s, nxt, in_data, name, off, qs);
                let rest = seg_fold(s, nxt, in_data, name, off, qs);
                assert forall|i: int|
                    0 <= i < r.tables.len() implies (#[trigger] r.tables[i]).queries
                    == seg_rest(s, r.tables[i].off) by {
                    assert(r.tables[i] == rest.tables[i]);
                }
            }
        },
        LexKind::Query => {
            let q = lex_text(s, p);
            let nxt = lex_next(s, p);
            let qs2 = if in_data { qs.push(q) } else { qs };
            if in_data {
                assert(qs + (seq![q] + seg_rest(s, nxt)) =~= qs.push(q) + seg_rest(s, nxt));
            }
            lemma_fold_relex(s, nxt, in_data, name, off, qs2);
            let rest = seg_fold(s, nxt, in_data, name, off, qs2);
            assert forall|i: int|
                0 <= i < r.tables.len() implies (#[trigger] r.tables[i]).queries
                == seg_rest(s, r.tables[i].off) by {
                assert(r.tables[i] == rest.tables[i]);
            }
        },
    }
}

/// Re-lexing the dump from a segment's recorded offset reproduces exactly
/// the statements counted for that segment, in the order of the full
/// linear scan: each emitted segment's query list equals the query tokens
/// read from its offset up to the next `TABLE` marker or the end of input,
/// and its count is that list's length. Requires the dump's data sections
/// to be well nested (see [`single_data_runs`]).
pub proof fn lemma_segments_relex(s: Seq<u8>)
    requires
        single_data_runs(s, 0, false),
    ensures
        ({
            let r = spec_segment_index(s);
            forall|i: int|
                0 <= i < r.tables.len() ==> (#[trigger] r.tables[i]).queries == seg_rest(
                    s,
                    r.tables[i].off,
                ) && r.tables[i].count == r.tables[i].queries.len()
        }),
{
    lemma_fold_relex(s, 0, false, Seq::empty(), 0, Seq::empty());
    lemma_fold_counts(s, 0, false, Seq::empty(), 0, Seq::empty());
}

/// One indexed table segment: the table's name, the byte offset at which a
/// worker re-opens the dump to replay the segment, and the exact number of
/// its data statements.
#[derive(Clone, PartialEq, Eq, Debug)]
pub struct TableSegment {
    pub name: Vec<u8>,
    pub offset: u64,
    pub statements: u64,
}

impl TableSegment {
    pub open spec fn matches_seg(self, g: SpecSegment) -> bool {
        self.name@ == g.name && self.offset == g.off && self.statements == g.count
    }
}

/// The segmenter's output: every definition statement in file order, and
/// one entry per data section in file order.
#[derive(Clone, PartialEq, Eq, Debug)]
pub struct SegmentIndex {
    pub definitions: Vec<Vec<u8>>,
    pub tables: Vec<TableSegment>,
}

pub open spec fn index_matches(idx: SegmentIndex, g: SpecIndex) -> bool {
    &&& views_of(idx.definitions@) == g.defs
    &&& idx.tables@.len() == g.tables.len()
    &&& forall|i: int|
        0 <= i < g.tables.len() ==> #[trigger] idx.tables@[i].matches_seg(g.tables[i])
}

pub proof fn lemma_views_push(v: Seq<Vec<u8>>, x: Vec<u8>)
    ensures
        views_of(v.push(x)) == views_of(v).push(x@),
{
    assert(views_of(v.push(x)) =~= views_of(v).push(x@));
}

/// Runs the single dry pass over the whole dump and builds the segment
/// index. Returns the lexer's error instead if and only if the dump does
/// not lex cleanly.
pub fn segment_dump(input: &Vec<u8>) -> (r: Result<SegmentIndex, LexError>)
    ensures
        match r {
            Ok(idx) => lexes_clean(input@, 0) && index_matches(idx, spec_segment_index(input@))
                && (forall|i: int|
                0 <= i < idx.tables@.len() ==> (#[trigger] idx.tables@[i]).offset
                    <= input@.len()),
            Err(e) => !lexes_clean(input@, 0) && e == LexError::CommentInsideQuery,
        },
{
    let ghost s = input@;
    let n = input.len();
    let data = crate::bytes::copy_range(input, 0, n);
    proof {
        assert(input@.subrange(0, n as int) =~= input@);
    }
    let mut st = StatementStream::new(data);
    let mut defs: Vec<Vec<u8>> = Vec::new();
    let mut tables: Vec<TableSegment> = Vec::new();
    let mut in_data = false;
    let mut name: Vec<u8> = Vec::new();
    let mut off: u64 = 0;
    let mut count: u64 = 0;
    let ghost mut gqs: Seq<Seq<u8>> = Seq::empty();
    let ghost mut gtables: Seq<SpecSegment> = Seq::empty();
    proof {
        assert(views_of(Seq::<Vec<u8>>::empty()) =~= Seq::<Seq<u8>>::empty());
        assert(Seq::<Seq<u8>>::empty() + spec_segment_index(s).defs =~= spec_segment_index(
            s,
        ).defs);
        assert(Seq::<SpecSegment>::empty() + spec_segment_index(s).tables =~= spec_segment_index(
            s,
        ).tables);
    }
    loop
        invariant_except_break
            s == input@,
            st.wf(),
            st.src() == s,
            count == gqs.len(),
            gqs.len() <= st.cursor(),
            off <= s.len(),
            forall|i: int|
                0 <= i < tables@.len() ==> (#[trigger] tables@[i]).offset <= s.len(),
            tables@.len() == gtables.len(),
            forall|i: int|
                0 <= i < gtables.len() ==> #[trigger] tables@[i].matches_seg(gtables[i]),
            lexes_clean(s, 0) == lexes_clean(s, st.cursor()),
            spec_segment_index(s) == (SpecIndex {
                defs: views_of(defs@) + seg_fold(
                    s,
                    st.cursor(),
                    in_data,
                    name@,
                    off as int,
                    gqs,
                ).defs,
                tables: gtables + seg_fold(s, st.cursor(), in_data, name@, off as int, gqs).tables,
            }),
        ensures
            s == input@,
            lexes_clean(s, 0),
            spec_segment_index(s) == (SpecIndex { defs: views_of(defs@), tables: gtables }),
            forall|i: int|
                0 <= i < tables@.len() ==> (#[trigger] tables@[i]).offset <= s.len(),
            tables@.len() == gtables.len(),
            forall|i: int|
                0 <= i < gtables.len() ==> #[trigger] tables@[i].matches_seg(gtables[i]),
        decreases s.len() - st.cursor(),
    {
        let ghost p = st.cursor();
        let ghost fold_here = seg_fold(s, p, in_data, name@, off as int, gqs);
        proof {
            lemma_step(s, p);
        }
        match st.next_statement() {
            None => {
                // End of input: close a still-open data section.
                assert(lex_kind(s, p) == LexKind::End);
                let ghost gt0 = gtables;
                if in_data {
                    let ghost seg = (SpecSegment {
                        name: name@,
                        off: off as int,
                        count: gqs.len(),
                        queries: gqs,
                    });
                    proof {
                        gtables = gtables.push(seg);
                        assert(fold_here.tables =~= seq![seg]);
                        assert(gt0 + fold_here.tables =~= gtables);
                    }
                    tables.push(TableSegment { name, offset: off, statements: count });
                    name = Vec::new();
                }
                proof {
                    assert(views_of(defs@) + fold_here.defs =~= views_of(defs@));
                    if !in_data {
                        assert(fold_here.tables =~= Seq::<SpecSegment>::empty());
                        assert(gt0 + fold_here.tables =~= gtables);
                    }
                }
                break;
            },
            Some(Err(e)) => {
                assert(lex_kind(s, p) == LexKind::Stray);
                assert(!lexes_clean(s, p));
                return Err(e);
            },
            Some(Ok((_, stmt))) => {
                match stmt {
                    Statement::Comment(c) => {
                        assert(lex_kind(s, p) == LexKind::Comment);
                        assert(c@ == lex_text(s, p));
                        let ghost k = comment_key(lex_text(s, p));
                        match classify_comment(&c) {
                            CommentClass::Empty | CommentClass::Note(_) => {
                                assert(k != table_key() && k != table_data_key());
                            },
                            CommentClass::Table(_) => {
                                assert(k == table_key());
                                let ghost gt0 = gtables;
                                let ghost rest = seg_fold(
                                    s,
                                    st.cursor(),
                                    false,
                                    Seq::empty(),
                                    0,
                                    Seq::empty(),
                                );
                                if in_data {
                                    let ghost seg = (SpecSegment {
                                        name: name@,
                                        off: off as int,
                                        count: gqs.len(),
                                        queries: gqs,
                                    });
                                    proof {
                                        gtables = gtables.push(seg);
                                        assert(fold_here.tables =~= seq![seg] + rest.tables);
                                        assert(gt0 + (seq![seg] + rest.tables) =~= gtables
                                            + rest.tables);
                                    }
                                    tables.push(
                                        TableSegment { name, offset: off, statements: count },
                                    );
                                } else {
                                    proof {
                                        assert(fold_here.tables =~= rest.tables);
                                    }
                                }
                                in_data = false;
                                name = Vec::new();
                                off = 0;
                                count = 0;
                                proof {
                                    gqs = Seq::empty();
                                    assert(name@ =~= Seq::<u8>::empty());
                                }
                            },
                            CommentClass::TableData(v) => {
                                assert(k == table_data_key());
                                assert(v@ == comment_value(lex_text(s, p)));
                                if !in_data {
                                    count = 0;
                                    proof {
                                        gqs = Seq::empty();
                                    }
                                }
                                in_data = true;
                                name = v;
                                off = st.position();
                            },
                        }
                    },
                    Statement::Query(q) => {
                        assert(lex_kind(s, p) == LexKind::Query);
                        assert(q@ == lex_text(s, p));
                        if in_data {
                            assert(count < u64::MAX);
                            proof {
                                gqs = gqs.push(q@);
                            }
                            count = count + 1;
                        } else {
                            proof {
                                let rest = seg_fold(
                                    s,
                                    st.cursor(),
                                    false,
                                    name@,
                                    off as int,
                                    gqs,
                                );
                                lemma_views_push(defs@, q);
                                assert(views_of(defs@) + (seq![q@] + rest.defs) =~= views_of(
                                    defs@,
                                ).push(q@) + rest.defs);
                            }
                            defs.push(q);
                        }
                    },
                }
            },
        }
    }
    Ok(SegmentIndex { definitions: defs, tables })
}

} // verus!
