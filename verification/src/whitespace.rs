//! Trimming a value and collapsing the whitespace inside it.

use crate::bytes::{is_whitespace, SPACE};
use vstd::prelude::*;

verus! {

/// `s` without the whitespace it begins with.
pub open spec fn left_trimmed(s: Seq<u8>) -> Seq<u8>
    decreases s.len(),
{
    if s.len() > 0 && is_whitespace(s[0]) {
        left_trimmed(s.skip(1))
    } else {
        s
    }
}

/// `s` without the whitespace it ends with.
pub open spec fn right_trimmed(s: Seq<u8>) -> Seq<u8>
    decreases s.len(),
{
    if s.len() > 0 && is_whitespace(s.last()) {
        right_trimmed(s.drop_last())
    } else {
        s
    }
}

/// `s` with every run of whitespace bytes replaced by one space.
pub open spec fn collapsed(s: Seq<u8>) -> Seq<u8>
    decreases s.len(),
{
    if s.len() == 0 {
        Seq::empty()
    } else if !is_whitespace(s.last()) {
        collapsed(s.drop_last()).push(s.last())
    } else if s.len() > 1 && is_whitespace(s[s.len() - 2]) {
        collapsed(s.drop_last())
    } else {
        collapsed(s.drop_last()).push(SPACE)
    }
}

/// Removes the whitespace that `val` ends with.
pub fn right_trim(val: &mut Vec<u8>)
    ensures
        final(val)@ == right_trimmed(old(val)@),
{
    let mut retain: usize = val.len();
    assert(val@.take(retain as int) =~= val@);
    while retain > 0 && is_whitespace(val[retain - 1])
        invariant
            retain <= val.len(),
            val@ == old(val)@,
            right_trimmed(val@) == right_trimmed(val@.take(retain as int)),
        decreases retain,
    {
        assert(val@.take(retain as int).drop_last() =~= val@.take(retain - 1));
        retain -= 1;
    }
    val.truncate(retain);
}

/// Removes the whitespace that `val` begins with.
pub fn left_trim(val: &mut Vec<u8>)
    ensures
        final(val)@ == left_trimmed(old(val)@),
{
    let mut len: usize = 0;
    assert(val@.skip(0) =~= val@);
    while len < val.len() && is_whitespace(val[len])
        invariant
            len <= val.len(),
            val@ == old(val)@,
            left_trimmed(val@) == left_trimmed(val@.skip(len as int)),
        decreases val.len() - len,
    {
        assert(val@.skip(len as int).skip(1) =~= val@.skip(len + 1));
        len += 1;
    }
    let kept = val.split_off(len);
    *val = kept;
}

/// Replaces every run of whitespace in `val` by one space.
pub fn collapse_whitespace(val: &mut Vec<u8>)
    ensures
        final(val)@ == collapsed(old(val)@),
{
    let len = val.len();
    let mut write: usize = 0;
    let mut in_whitespace = false;
    let mut i: usize = 0;
    while i < len
        invariant
            write <= i <= len,
            val.len() == len == old(val).len(),
            val@.take(write as int) == collapsed(old(val)@.take(i as int)),
            forall|k: int| i <= k < len ==> val@[k] == old(val)@[k],
            in_whitespace == (i > 0 && is_whitespace(old(val)@[i - 1])),
        decreases len - i,
    {
        let c = val[i];
        assert(old(val)@.take(i + 1).drop_last() =~= old(val)@.take(i as int));
        if is_whitespace(c) {
            if !in_whitespace {
                val.set(write, SPACE);
                assert(val@.take(write + 1) =~= collapsed(old(val)@.take(i as int)).push(SPACE));
                write += 1;
            }
            in_whitespace = true;
        } else {
            val.set(write, c);
            assert(val@.take(write + 1) =~= collapsed(old(val)@.take(i as int)).push(c));
            write += 1;
            in_whitespace = false;
        }
        i += 1;
    }
    assert(old(val)@.take(len as int) =~= old(val)@);
    val.truncate(write);
}

} // verus!
