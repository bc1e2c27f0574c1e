//! Well-formedness of the dump's text encoding.
//!
//! The dump format is UTF-8 text; malformed bytes are a parse error, not
//! something to pass over silently. The spec functions here follow the
//! UTF-8 well-formedness table (two-byte forms start at `0xC2`, so no
//! overlong encodings; `0xED` forms exclude the surrogate range; `0xF4`
//! forms end at U+10FFFF), and [`utf8_check`] is proved to find the first
//! spot where the input breaks it.

use vstd::prelude::*;

verus! {

/// A continuation byte, `0x80` through `0xBF`.
pub open spec fn is_cont(b: u8) -> bool {
    0x80 <= b && b <= 0xBF
}

/// Length of the well-formed UTF-8 sequence starting at `p`, or `None` if
/// the bytes at `p` do not begin one.
pub open spec fn utf8_step(s: Seq<u8>, p: int) -> Option<int> {
    if p < 0 || p >= s.len() {
        None
    } else {
        let b0 = s[p];
        if b0 < 0x80 {
            Some(1)
        } else if 0xC2 <= b0 && b0 <= 0xDF {
            if p + 2 <= s.len() && is_cont(s[p + 1]) {
                Some(2)
            } else {
                None
            }
        } else if b0 == 0xE0 {
            if p + 3 <= s.len() && 0xA0 <= s[p + 1] && s[p + 1] <= 0xBF && is_cont(s[p + 2]) {
                Some(3)
            } else {
                None
            }
        } else if (0xE1 <= b0 && b0 <= 0xEC) || b0 == 0xEE || b0 == 0xEF {
            if p + 3 <= s.len() && is_cont(s[p + 1]) && is_cont(s[p + 2]) {
                Some(3)
            } else {
                None
            }
        } else if b0 == 0xED {
            if p + 3 <= s.len() && 0x80 <= s[p + 1] && s[p + 1] <= 0x9F && is_cont(s[p + 2]) {
                Some(3)
            } else {
                None
            }
        } else if b0 == 0xF0 {
            if p + 4 <= s.len() && 0x90 <= s[p + 1] && s[p + 1] <= 0xBF && is_cont(s[p + 2])
                && is_cont(s[p + 3]) {
                Some(4)
            } else {
                None
            }
        } else if 0xF1 <= b0 && b0 <= 0xF3 {
            if p + 4 <= s.len() && is_cont(s[p + 1]) && is_cont(s[p + 2]) && is_cont(s[p + 3]) {
                Some(4)
            } else {
                None
            }
        } else if b0 == 0xF4 {
            if p + 4 <= s.len() && 0x80 <= s[p + 1] && s[p + 1] <= 0x8F && is_cont(s[p + 2])
                && is_cont(s[p + 3]) {
                Some(4)
            } else {
                None
            }
        } else {
            None
        }
    }
}

/// The bytes from `p` to the end are a run of well-formed sequences.
pub open spec fn utf8_valid_from(s: Seq<u8>, p: int) -> bool
    decreases s.len() - p,
{
    if p >= s.len() {
        true
    } else {
        match utf8_step(s, p) {
            Some(k) => utf8_valid_from(s, p + k),
            None => false,
        }
    }
}

/// The whole input is well-formed UTF-8.
pub open spec fn is_utf8(s: Seq<u8>) -> bool {
    utf8_valid_from(s, 0)
}

/// Scans the input for malformed UTF-8: `None` when the whole input is
/// well formed, otherwise the byte offset of the first sequence that is
/// not.
pub fn utf8_check(input: &Vec<u8>) -> (r: Option<u64>)
    ensures
        match r {
            None => is_utf8(input@),
            Some(off) => {
                &&& !is_utf8(input@)
                &&& off <= input@.len()
                &&& utf8_step(input@, off as int) is None
            },
        },
{
    let ghost s = input@;
    let n = input.len();
    let mut p: usize = 0;
    while p < n
        invariant
            n == s.len(),
            s == input@,
            0 <= p <= n,
            is_utf8(s) == utf8_valid_from(s, p as int),
        decreases n - p,
    {
        let b0 = input[p];
        let step: usize = if b0 < 0x80 {
            1
        } else if 0xC2 <= b0 && b0 <= 0xDF {
            if n - p >= 2 && 0x80 <= input[p + 1] && input[p + 1] <= 0xBF {
                2
            } else {
                0
            }
        } else if b0 == 0xE0 {
            if n - p >= 3 && 0xA0 <= input[p + 1] && input[p + 1] <= 0xBF && 0x80 <= input[p + 2]
                && input[p + 2] <= 0xBF {
                3
            } else {
                0
            }
        } else if (0xE1 <= b0 && b0 <= 0xEC) || b0 == 0xEE || b0 == 0xEF {
            if n - p >= 3 && 0x80 <= input[p + 1] && input[p + 1] <= 0xBF && 0x80 <= input[p + 2]
                && input[p + 2] <= 0xBF {
                3
            } else {
                0
            }
        } else if b0 == 0xED {
            if n - p >= 3 && 0x80 <= input[p + 1] && input[p + 1] <= 0x9F && 0x80 <= input[p + 2]
                && input[p + 2] <= 0xBF {
                3
            } else {
                0
            }
        } else if b0 == 0xF0 {
            if n - p >= 4 && 0x90 <= input[p + 1] && input[p + 1] <= 0xBF && 0x80 <= input[p + 2]
                && input[p + 2] <= 0xBF && 0x80 <= input[p + 3] && input[p + 3] <= 0xBF {
                4
            } else {
                0
            }
        } else if 0xF1 <= b0 && b0 <= 0xF3 {
            if n - p >= 4 && 0x80 <= input[p + 1] && input[p + 1] <= 0xBF && 0x80 <= input[p + 2]
                && input[p + 2] <= 0xBF && 0x80 <= input[p + 3] && input[p + 3] <= 0xBF {
                4
            } else {
                0
            }
        } else if b0 == 0xF4 {
            if n - p >= 4 && 0x80 <= input[p + 1] && input[p + 1] <= 0x8F && 0x80 <= input[p + 2]
                && input[p + 2] <= 0xBF && 0x80 <= input[p + 3] && input[p + 3] <= 0xBF {
                4
            } else {
                0
            }
        } else {
            0
        };
        if step == 0 {
            assert(utf8_step(s, p as int) is None);
            return Some(p as u64);
        }
        assert(utf8_step(s, p as int) == Some(step as int));
        p = p + step;
    }
    None
}

} // verus!
