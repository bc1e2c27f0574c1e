//! Classification of comment tokens into section markers.
//!
//! A comment is first trimmed of surrounding `-` and space bytes (this
//! removes the comment prefix and any decorative dashes). The result is
//! split at the first `": "` into a key and a value, and both are trimmed
//! of surrounding `:` and space bytes. An empty key is non-structural; the
//! keys `TABLE` and `TABLE DATA` open a definitions or a data section named
//! by the value; any other key is a display-only annotation.

use vstd::prelude::*;
use crate::bytes::{copy_range, eq_range};
use crate::lexer::DASH;

verus! {

/// Space byte.
pub const SP: u8 = 32;
/// Colon byte.
pub const COLON: u8 = 58;

/// Bytes trimmed around the whole comment: `-` and space.
pub open spec fn is_pad(b: u8) -> bool {
    b == DASH || b == SP
}

/// Bytes trimmed around the key and the value: `:` and space.
pub open spec fn is_mark(b: u8) -> bool {
    b == COLON || b == SP
}

pub open spec fn trim_front_pad(s: Seq<u8>) -> Seq<u8>
    decreases s.len(),
{
    if s.len() > 0 && is_pad(s[0]) {
        trim_front_pad(s.drop_first())
    } else {
        s
    }
}

pub open spec fn trim_back_pad(s: Seq<u8>) -> Seq<u8>
    decreases s.len(),
{
    if s.len() > 0 && is_pad(s.last()) {
        trim_back_pad(s.drop_last())
    } else {
        s
    }
}

pub open spec fn trim_pad(s: Seq<u8>) -> Seq<u8> {
    trim_back_pad(trim_front_pad(s))
}

pub open spec fn trim_front_mark(s: Seq<u8>) -> Seq<u8>
    decreases s.len(),
{
    if s.len() > 0 && is_mark(s[0]) {
        trim_front_mark(s.drop_first())
    } else {
        s
    }
}

pub open spec fn trim_back_mark(s: Seq<u8>) -> Seq<u8>
    decreases s.len(),
{
    if s.len() > 0 && is_mark(s.last()) {
        trim_back_mark(s.drop_last())
    } else {
        s
    }
}

pub open spec fn trim_mark(s: Seq<u8>) -> Seq<u8> {
    trim_back_mark(trim_front_mark(s))
}

/// First position `i >= from` of `t` where `:` is directly followed by a
/// space, the split point of a `key: value` marker.
pub open spec fn find_marker(t: Seq<u8>, from: int) -> Option<int>
    decreases t.len() - from,
{
    if from < 0 || from + 2 > t.len() {
        None
    } else if t[from] == COLON && t[from + 1] == SP {
        Some(from)
    } else {
        find_marker(t, from + 1)
    }
}

/// The comment with its surrounding `-` and space bytes removed.
pub open spec fn comment_trimmed(c: Seq<u8>) -> Seq<u8> {
    trim_pad(c)
}

/// The key of a comment: what stands before the first `": "` (or the whole
/// trimmed comment if there is none), trimmed of `:` and spaces.
pub open spec fn comment_key(c: Seq<u8>) -> Seq<u8> {
    let t = comment_trimmed(c);
    match find_marker(t, 0) {
        Some(i) => trim_mark(t.take(i)),
        None => trim_mark(t),
    }
}

/// The value of a comment: what stands from the first `": "` on, trimmed of
/// `:` and spaces; empty if the comment has no `": "`.
pub open spec fn comment_value(c: Seq<u8>) -> Seq<u8> {
    let t = comment_trimmed(c);
    match find_marker(t, 0) {
        Some(i) => trim_mark(t.skip(i)),
        None => Seq::empty(),
    }
}

/// The bytes of `TABLE`.
pub open spec fn table_key() -> Seq<u8> {
    seq![84u8, 65u8, 66u8, 76u8, 69u8]
}

/// The bytes of `TABLE DATA`.
pub open spec fn table_data_key() -> Seq<u8> {
    seq![84u8, 65u8, 66u8, 76u8, 69u8, 32u8, 68u8, 65u8, 84u8, 65u8]
}

/// What a comment means for sectioning: nothing, a definitions-section
/// marker with the table name, a data-section marker with the table name,
/// or a display-only annotation carrying the trimmed comment.
#[derive(Clone, PartialEq, Eq, Debug)]
pub enum CommentClass {
    Empty,
    Table(Vec<u8>),
    TableData(Vec<u8>),
    Note(Vec<u8>),
}

pub open spec fn classify_post(c: Seq<u8>, r: CommentClass) -> bool {
    let k = comment_key(c);
    &&& (r is Empty <==> k.len() == 0)
    &&& (r is Table <==> k == table_key())
    &&& (r is TableData <==> k == table_data_key())
    &&& (r matches CommentClass::Table(v) ==> v@ == comment_value(c))
    &&& (r matches CommentClass::TableData(v) ==> v@ == comment_value(c))
    &&& (r matches CommentClass::Note(t) ==> t@ == comment_trimmed(c))
}

fn table_key_vec() -> (v: Vec<u8>)
    ensures
        v@ == table_key(),
{
    let v: Vec<u8> = vec![84u8, 65u8, 66u8, 76u8, 69u8];
    proof {
        assert(v@ =~= table_key());
    }
    v
}

fn table_data_key_vec() -> (v: Vec<u8>)
    ensures
        v@ == table_data_key(),
{
    let v: Vec<u8> = vec![84u8, 65u8, 66u8, 76u8, 69u8, 32u8, 68u8, 65u8, 84u8, 65u8];
    proof {
        assert(v@ =~= table_data_key());
    }
    v
}

/// Narrows `[a0, b0)` to the pad-trimmed subrange.
fn trim_pad_range(c: &Vec<u8>, a0: usize, b0: usize) -> (r: (usize, usize))
    requires
        a0 <= b0 <= c@.len(),
    ensures
        a0 <= r.0 <= r.1 <= b0,
        c@.subrange(r.0 as int, r.1 as int) == trim_pad(c@.subrange(a0 as int, b0 as int)),
{
    let ghost t0 = c@.subrange(a0 as int, b0 as int);
    let mut a: usize = a0;
    while a < b0 && (c[a] == DASH || c[a] == SP)
        invariant
            a0 <= a <= b0 <= c@.len(),
            trim_front_pad(t0) == trim_front_pad(c@.subrange(a as int, b0 as int)),
        decreases b0 - a,
    {
        proof {
            let cur = c@.subrange(a as int, b0 as int);
            assert(cur[0] == c@[a as int]);
            assert(cur.drop_first() =~= c@.subrange(a as int + 1, b0 as int));
        }
        a = a + 1;
    }
    proof {
        let cur = c@.subrange(a as int, b0 as int);
        if a < b0 {
            assert(cur[0] == c@[a as int]);
        }
        assert(trim_front_pad(t0) == cur);
    }
    let mut b: usize = b0;
    while b > a && (c[b - 1] == DASH || c[b - 1] == SP)
        invariant
            a0 <= a <= b <= b0 <= c@.len(),
            trim_back_pad(trim_front_pad(t0)) == trim_back_pad(c@.subrange(a as int, b as int)),
        decreases b,
    {
        proof {
            let cur = c@.subrange(a as int, b as int);
            assert(cur.last() == c@[b - 1]);
            assert(cur.drop_last() =~= c@.subrange(a as int, b - 1));
        }
        b = b - 1;
    }
    proof {
        let cur = c@.subrange(a as int, b as int);
        if b > a {
            assert(cur.last() == c@[b - 1]);
        }
        assert(trim_pad(t0) == cur);
    }
    (a, b)
}

/// Narrows `[a0, b0)` to the mark-trimmed subrange.
fn trim_mark_range(c: &Vec<u8>, a0: usize, b0: usize) -> (r: (usize, usize))
    requires
        a0 <= b0 <= c@.len(),
    ensures
        a0 <= r.0 <= r.1 <= b0,
        c@.subrange(r.0 as int, r.1 as int) == trim_mark(c@.subrange(a0 as int, b0 as int)),
{
    let ghost t0 = c@.subrange(a0 as int, b0 as int);
    let mut a: usize = a0;
    while a < b0 && (c[a] == COLON || c[a] == SP)
        invariant
            a0 <= a <= b0 <= c@.len(),
            trim_front_mark(t0) == trim_front_mark(c@.subrange(a as int, b0 as int)),
        decreases b0 - a,
    {
        proof {
            let cur = c@.subrange(a as int, b0 as int);
            assert(cur[0] == c@[a as int]);
            assert(cur.drop_first() =~= c@.subrange(a as int + 1, b0 as int));
        }
        a = a + 1;
    }
    proof {
        let cur = c@.subrange(a as int, b0 as int);
        if a < b0 {
            assert(cur[0] == c@[a as int]);
        }
        assert(trim_front_mark(t0) == cur);
    }
    let mut b: usize = b0;
    while b > a && (c[b - 1] == COLON || c[b - 1] == SP)
        invariant
            a0 <= a <= b <= b0 <= c@.len(),
            trim_back_mark(trim_front_mark(t0)) == trim_back_mark(c@.subrange(a as int, b as int)),
        decreases b,
    {
        proof {
            let cur = c@.subrange(a as int, b as int);
            assert(cur.last() == c@[b - 1]);
            assert(cur.drop_last() =~= c@.subrange(a as int, b - 1));
        }
        b = b - 1;
    }
    proof {
        let cur = c@.subrange(a as int, b as int);
        if b > a {
            assert(cur.last() == c@[b - 1]);
        }
        assert(trim_mark(t0) == cur);
    }
    (a, b)
}

/// Finds the `": "` split point inside `[a, b)`.
fn find_marker_in(c: &Vec<u8>, a: usize, b: usize) -> (r: Option<usize>)
    requires
        a <= b <= c@.len(),
    ensures
        match r {
            Some(i) => a <= i && i + 2 <= b
                && find_marker(c@.subrange(a as int, b as int), 0) == Some(i - a),
            None => find_marker(c@.subrange(a as int, b as int), 0) is None,
        },
{
    let ghost t = c@.subrange(a as int, b as int);
    let mut i: usize = a;
    while b - i > 1
        invariant
            a <= i <= b <= c@.len(),
            t == c@.subrange(a as int, b as int),
            find_marker(t, 0) == find_marker(t, i - a),
        decreases b - i,
    {
        proof {
            assert(t[i - a] == c@[i as int]);
            assert(t[i - a + 1] == c@[i as int + 1]);
        }
        if c[i] == COLON && c[i + 1] == SP {
            assert(find_marker(t, i - a) == Some(i - a));
            return Some(i);
        }
        i = i + 1;
    }
    assert(t.len() == b - a);
    assert(find_marker(t, i - a) is None);
    None
}

/// Classifies one comment token.
pub fn classify_comment(c: &Vec<u8>) -> (r: CommentClass)
    ensures
        classify_post(c@, r),
{
    let n = c.len();
    proof {
        assert(c@.subrange(0, n as int) =~= c@);
    }
    let (a, b) = trim_pad_range(c, 0, n);
    let ghost t = comment_trimmed(c@);
    let (key_a, key_b, val_a, val_b) = match find_marker_in(c, a, b) {
        Some(i) => {
            proof {
                assert(t.take(i - a) =~= c@.subrange(a as int, i as int));
                assert(t.skip(i - a) =~= c@.subrange(i as int, b as int));
            }
            let (ka, kb) = trim_mark_range(c, a, i);
            let (va, vb) = trim_mark_range(c, i, b);
            (ka, kb, va, vb)
        },
        None => {
            proof {
                assert(c@.subrange(b as int, b as int) =~= Seq::<u8>::empty());
            }
            let (ka, kb) = trim_mark_range(c, a, b);
            (ka, kb, b, b)
        },
    };
    assert(c@.subrange(key_a as int, key_b as int) == comment_key(c@));
    assert(c@.subrange(val_a as int, val_b as int) == comment_value(c@));
    if key_b == key_a {
        assert(comment_key(c@).len() == 0);
        return CommentClass::Empty;
    }
    assert(comment_key(c@).len() > 0);
    let tk = table_key_vec();
    if eq_range(c, key_a, key_b, &tk) {
        return CommentClass::Table(copy_range(c, val_a, val_b));
    }
    let tdk = table_data_key_vec();
    if eq_range(c, key_a, key_b, &tdk) {
        return CommentClass::TableData(copy_range(c, val_a, val_b));
    }
    CommentClass::Note(copy_range(c, a, b))
}

/// Surrounding pad bytes (the comment prefix, decorative dashes, spaces)
/// never change how a comment is classified: the key and the value of a
/// padded comment are those of its unpadded core.
pub proof fn lemma_comment_padding(c: Seq<u8>, pre: Seq<u8>, post: Seq<u8>)
    requires
        forall|i: int| 0 <= i < pre.len() ==> is_pad(#[trigger] pre[i]),
        forall|i: int| 0 <= i < post.len() ==> is_pad(#[trigger] post[i]),
        c.len() > 0 ==> !is_pad(c[0]) && !is_pad(c.last()),
    ensures
        comment_key(pre + c + post) == comment_key(c),
        comment_value(pre + c + post) == comment_value(c),
{
    if c.len() == 0 {
        lemma_trim_front_pad_all(pre + c + post);
        assert(comment_trimmed(pre + c + post) == trim_back_pad(Seq::<u8>::empty()));
        assert(c =~= Seq::<u8>::empty());
        assert(comment_trimmed(c) == Seq::<u8>::empty());
    } else {
        lemma_trim_front_pad_concat(pre, c + post);
        assert(pre + c + post =~= pre + (c + post));
        assert((c + post)[0] == c[0]);
        assert(trim_front_pad(c + post) == c + post);
        lemma_trim_back_pad_concat(c, post);
        assert(trim_back_pad(c) == c);
        assert(comment_trimmed(pre + c + post) == c);
        assert(trim_front_pad(c) == c);
        assert(comment_trimmed(c) == c);
    }
}

proof fn lemma_trim_front_pad_concat(pre: Seq<u8>, x: Seq<u8>)
    requires
        forall|i: int| 0 <= i < pre.len() ==> is_pad(#[trigger] pre[i]),
    ensures
        trim_front_pad(pre + x) == trim_front_pad(x),
    decreases pre.len(),
{
    if pre.len() == 0 {
        assert(pre + x =~= x);
    } else {
        assert((pre + x)[0] == pre[0]);
        assert((pre + x).drop_first() =~= pre.drop_first() + x);
        lemma_trim_front_pad_concat(pre.drop_first(), x);
    }
}

proof fn lemma_trim_back_pad_concat(x: Seq<u8>, post: Seq<u8>)
    requires
        forall|i: int| 0 <= i < post.len() ==> is_pad(#[trigger] post[i]),
    ensures
        trim_back_pad(x + post) == trim_back_pad(x),
    decreases post.len(),
{
    if post.len() == 0 {
        assert(x + post =~= x);
    } else {
        assert((x + post).last() == post.last());
        assert((x + post).drop_last() =~= x + post.drop_last());
        lemma_trim_back_pad_concat(x, post.drop_last());
    }
}

proof fn lemma_trim_front_pad_all(s: Seq<u8>)
    requires
        forall|i: int| 0 <= i < s.len() ==> is_pad(#[trigger] s[i]),
    ensures
        trim_front_pad(s) == Seq::<u8>::empty(),
    decreases s.len(),
{
    if s.len() == 0 {
        assert(s =~= Seq::<u8>::empty());
    } else {
        lemma_trim_front_pad_all(s.drop_first());
    }
}

} // verus!
