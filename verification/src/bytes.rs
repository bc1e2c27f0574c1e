//! Small verified helpers over byte vectors.

use vstd::prelude::*;

verus! {

/// Copies `input[a .. b]` into a fresh vector.
pub fn copy_range(input: &Vec<u8>, a: usize, b: usize) -> (r: Vec<u8>)
    requires
        a <= b <= input@.len(),
    ensures
        r@ == input@.subrange(a as int, b as int),
{
    let mut r: Vec<u8> = Vec::new();
    let mut i: usize = a;
    while i < b
        invariant
            a <= i <= b <= input@.len(),
            r@ == input@.subrange(a as int, i as int),
        decreases b - i,
    {
        r.push(input[i]);
        proof {
            assert(input@.subrange(a as int, (i + 1) as int)
                =~= input@.subrange(a as int, i as int).push(input@[i as int]));
        }
        i = i + 1;
    }
    r
}

/// Appends the whole of `src` to `dst`.
pub fn append_bytes(dst: &mut Vec<u8>, src: &Vec<u8>)
    ensures
        final(dst)@ == old(dst)@ + src@,
{
    let mut i: usize = 0;
    proof {
        assert(old(dst)@ + src@.take(0) =~= old(dst)@);
    }
    while i < src.len()
        invariant
            0 <= i <= src@.len(),
            dst@ == old(dst)@ + src@.take(i as int),
        decreases src@.len() - i,
    {
        dst.push(src[i]);
        proof {
            assert(old(dst)@ + src@.take(i + 1) =~= (old(dst)@ + src@.take(i as int)).push(
                src@[i as int],
            ));
        }
        i = i + 1;
    }
    proof {
        assert(src@.take(src@.len() as int) =~= src@);
    }
}

/// Compares `input[a .. b]` with the whole of `w`.
pub fn eq_range(input: &Vec<u8>, a: usize, b: usize, w: &Vec<u8>) -> (r: bool)
    requires
        a <= b <= input@.len(),
    ensures
        r == (input@.subrange(a as int, b as int) == w@),
{
    if b - a != w.len() {
        assert(input@.subrange(a as int, b as int).len() == b - a);
        return false;
    }
    let mut i: usize = 0;
    while i < w.len()
        invariant
            a <= b <= input@.len(),
            b - a == w@.len(),
            0 <= i <= w@.len(),
            forall|j: int| 0 <= j < i ==> input@[a + j] == w@[j],
        decreases w@.len() - i,
    {
        if input[a + i] != w[i] {
            assert(input@.subrange(a as int, b as int)[i as int] == input@[a + i]);
            return false;
        }
        i = i + 1;
    }
    assert(input@.subrange(a as int, b as int) =~= w@);
    true
}

} // verus!
