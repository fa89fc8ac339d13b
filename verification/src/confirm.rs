//! Classification of the confirmation prompt's answer.
//!
//! The prompt itself is the runner's job; the library decides what the answer
//! means: after surrounding ASCII whitespace is trimmed and ASCII letters are
//! lowered, only `y` and `yes` affirm — anything else aborts the run with the
//! filesystem untouched.

use vstd::prelude::*;
use crate::bytes::LOWER_E;
use crate::bytes::LOWER_S;
use crate::bytes::LOWER_Y;
use crate::bytes::sub_bytes;

verus! {

/// ASCII whitespace, as trimmed off a prompt answer.
pub open spec fn is_space(c: u8) -> bool {
    c == 32 || c == 9 || c == 10 || c == 13
}

/// The ASCII lowercase of a byte.
pub open spec fn lower_byte(c: u8) -> u8 {
    if 65 <= c <= 90 {
        (c + 32) as u8
    } else {
        c
    }
}

/// `s` with surrounding ASCII whitespace removed.
pub open spec fn trim_spec(s: Seq<u8>) -> Seq<u8>
    decreases s.len(),
{
    if s.len() > 0 && is_space(s[0]) {
        trim_spec(s.drop_first())
    } else if s.len() > 0 && is_space(s.last()) {
        trim_spec(s.drop_last())
    } else {
        s
    }
}

/// The answer affirms: trimmed and lowered it reads `y` or `yes`.
pub open spec fn spec_affirmative(s: Seq<u8>) -> bool {
    let t = trim_spec(s).map_values(|c: u8| lower_byte(c));
    t == seq![LOWER_Y] || t == seq![LOWER_Y, LOWER_E, LOWER_S]
}

/// Trimming is the same as keeping the run between the first and the last
/// position that is no whitespace.
proof fn lemma_trim_range(s: Seq<u8>, lo: int, hi: int)
    requires
        0 <= lo <= hi <= s.len(),
        forall|k: int| 0 <= k < lo ==> is_space(#[trigger] s[k]),
        forall|k: int| hi <= k < s.len() ==> is_space(#[trigger] s[k]),
        lo < hi ==> !is_space(s[lo]) && !is_space(s[hi - 1]),
    ensures
        trim_spec(s) == s.subrange(lo, hi),
    decreases s.len(),
{
    if s.len() > 0 && is_space(s[0]) {
        let s1 = s.drop_first();
        if lo > 0 {
            lemma_trim_range(s1, lo - 1, hi - 1);
            assert(s1.subrange(lo - 1, hi - 1) =~= s.subrange(lo, hi));
        } else {
            lemma_trim_range(s1, 0, 0);
            assert(s1.subrange(0, 0) =~= s.subrange(lo, hi));
        }
    } else if s.len() > 0 && is_space(s.last()) {
        let s1 = s.drop_last();
        lemma_trim_range(s1, lo, hi);
        assert(s1.subrange(lo, hi) =~= s.subrange(lo, hi));
    } else {
        assert(s.subrange(lo, hi) =~= s);
    }
}

/// The ASCII lowercase of a byte.
fn lower_exec(c: u8) -> (r: u8)
    ensures
        r == lower_byte(c),
{
    if 65 <= c && c <= 90 {
        c + 32
    } else {
        c
    }
}

/// True exactly when the answer affirms the prompt: trimmed of surrounding
/// ASCII whitespace and lowered, it reads `y` or `yes`. Everything else —
/// an empty line included — declines.
pub fn is_affirmative(answer: &Vec<u8>) -> (r: bool)
    ensures
        r == spec_affirmative(answer@),
{
    let n = answer.len();
    let mut lo: usize = 0;
    while lo < n && (answer[lo] == 32 || answer[lo] == 9 || answer[lo] == 10 || answer[lo] == 13)
        invariant
            0 <= lo <= n,
            n == answer@.len(),
            forall|k: int| 0 <= k < lo ==> is_space(#[trigger] answer@[k]),
        decreases n - lo,
    {
        lo += 1;
    }
    let mut hi: usize = n;
    while hi > lo && (answer[hi - 1] == 32 || answer[hi - 1] == 9 || answer[hi - 1] == 10
        || answer[hi - 1] == 13)
        invariant
            lo <= hi <= n,
            n == answer@.len(),
            forall|k: int| 0 <= k < lo ==> is_space(#[trigger] answer@[k]),
            forall|k: int| hi <= k < n ==> is_space(#[trigger] answer@[k]),
            lo < n ==> !is_space(answer@[lo as int]),
        decreases hi,
    {
        hi -= 1;
    }
    let trimmed = sub_bytes(answer, lo, hi);
    proof {
        lemma_trim_range(answer@, lo as int, hi as int);
    }
    let mut low: Vec<u8> = Vec::new();
    let mut i: usize = 0;
    while i < trimmed.len()
        invariant
            i <= trimmed@.len(),
            low@.len() == i,
            forall|k: int| 0 <= k < i ==> low@[k] == lower_byte(#[trigger] trimmed@[k]),
        decreases trimmed@.len() - i,
    {
        low.push(lower_exec(trimmed[i]));
        i += 1;
    }
    proof {
        assert(low@ =~= trimmed@.map_values(|c: u8| lower_byte(c)));
    }
    if low.len() == 1 && low[0] == LOWER_Y {
        proof {
            assert(low@ =~= seq![LOWER_Y]);
        }
        true
    } else if low.len() == 3 && low[0] == LOWER_Y && low[1] == LOWER_E && low[2] == LOWER_S {
        proof {
            assert(low@ =~= seq![LOWER_Y, LOWER_E, LOWER_S]);
        }
        true
    } else {
        proof {
            if low@ == seq![LOWER_Y] {
                assert(low@[0] == LOWER_Y);
            }
            if low@ == seq![LOWER_Y, LOWER_E, LOWER_S] {
                assert(low@[0] == LOWER_Y && low@[1] == LOWER_E && low@[2] == LOWER_S);
            }
        }
        false
    }
}

} // verus!
