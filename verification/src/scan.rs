//! Advancing past one question record, without following pointers.
//!
//! Scanning only classifies each length descriptor to learn how many
//! sequential bytes the encoded record occupies: a pointer counts as its two
//! bytes and ends the name (whatever follows its target is not part of the
//! record's on-wire length), a zero length byte counts as one and ends it,
//! and a positive length counts as the descriptor plus its content.

use crate::name::is_pointer;
use crate::name::mask_len;
use crate::name::spec_is_pointer;
use crate::name::spec_label_len;
use vstd::prelude::*;

verus! {

/// One scanning step at `i`: the offset after the label descriptor there and
/// whether it was the chain's terminal label (a pointer or a zero length),
/// or `None` when the descriptor or its content runs past the buffer.
pub open spec fn label_step(buf: Seq<u8>, i: int) -> Option<(int, bool)> {
    if !(0 <= i < buf.len()) {
        None
    } else if spec_is_pointer(buf[i]) {
        if i + 2 <= buf.len() {
            Some((i + 2, true))
        } else {
            None
        }
    } else {
        let len = spec_label_len(buf[i]);
        if len == 0 {
            Some((i + 1, true))
        } else if i + 1 + len <= buf.len() {
            Some((i + 1 + len, false))
        } else {
            None
        }
    }
}

/// The offset just past the encoded name starting at `i`, scanning
/// sequentially; `None` when the buffer runs out first.
pub open spec fn scan_name_end(buf: Seq<u8>, i: int) -> Option<int>
    decreases buf.len() - i,
{
    match label_step(buf, i) {
        None => None,
        Some((j, last)) => if last {
            Some(j)
        } else {
            scan_name_end(buf, j)
        },
    }
}

/// The offset just past one whole question record at `i`: the encoded name
/// followed by the 4-byte type and class tail; `None` when the buffer runs
/// out first.
pub open spec fn scan_question(buf: Seq<u8>, i: int) -> Option<int> {
    match scan_name_end(buf, i) {
        Some(e) => if e + 4 <= buf.len() {
            Some(e + 4)
        } else {
            None
        },
        None => None,
    }
}

/// A name that scans successfully lies strictly inside the buffer: its end
/// is past its start and within bounds.
pub proof fn lemma_scan_name_end_bounds(buf: Seq<u8>, i: int)
    ensures
        match scan_name_end(buf, i) {
            Some(e) => i < e <= buf.len(),
            None => true,
        },
    decreases buf.len() - i,
{
    match label_step(buf, i) {
        None => {},
        Some((j, last)) => {
            if !last {
                lemma_scan_name_end_bounds(buf, j);
            }
        },
    }
}

/// A question that scans successfully lies strictly inside the buffer, and
/// its 4-byte tail sits just before its end.
pub proof fn lemma_scan_question_bounds(buf: Seq<u8>, i: int)
    ensures
        match scan_question(buf, i) {
            Some(e) => i + 5 <= e <= buf.len(),
            None => true,
        },
{
    lemma_scan_name_end_bounds(buf, i);
}

/// Reads one label descriptor at `*i` and advances `*i` past it, reporting
/// whether it was the chain's terminal label; when bytes are missing it
/// reports `None` and leaves `*i` where it was.
pub fn read_label(buf: &[u8], i: &mut usize) -> (r: Option<bool>)
    ensures
        match label_step(buf@, *old(i) as int) {
            Some((j, last)) => r == Some(last) && *final(i) == j,
            None => r == None::<bool> && *final(i) == *old(i),
        },
{
    let n = buf.len();
    if *i >= n {
        return None;
    }
    let b = buf[*i];
    if is_pointer(b) {
        if n - *i >= 2 {
            *i = *i + 2;
            Some(true)
        } else {
            None
        }
    } else {
        let len = mask_len(b);
        if len == 0 {
            *i = *i + 1;
            Some(true)
        } else if len < n - *i {
            *i = *i + 1 + len;
            Some(false)
        } else {
            None
        }
    }
}

/// Checks that the 4-byte type and class tail is present at `*i` and
/// advances `*i` past it; when it is not, reports failure and leaves `*i`
/// where it was.
pub fn read_query_class_and_kind(buf: &[u8], i: &mut usize) -> (r: bool)
    ensures
        *old(i) + 4 <= buf@.len() ==> r && *final(i) == *old(i) + 4,
        *old(i) + 4 > buf@.len() ==> !r && *final(i) == *old(i),
{
    let n = buf.len();
    if *i <= n && n - *i >= 4 {
        *i = *i + 4;
        true
    } else {
        false
    }
}

/// Advances `*i` past exactly one question record.  On success `*i` rests
/// just past the record's type and class tail; on failure the record was
/// truncated and `*i` has no defined resting place beyond not having moved
/// backward.
pub fn read_question(buf: &[u8], i: &mut usize) -> (r: bool)
    ensures
        match scan_question(buf@, *old(i) as int) {
            Some(e) => r && *final(i) == e,
            None => !r && *final(i) >= *old(i),
        },
{
    let start = *i;
    let mut j = start;
    let mut terminal = false;
    loop
        invariant_except_break
            start <= j,
            !terminal,
            scan_name_end(buf@, start as int) == scan_name_end(buf@, j as int),
        ensures
            terminal ==> scan_name_end(buf@, start as int) == Some(j as int),
            !terminal ==> scan_name_end(buf@, start as int) is None && j >= start,
        decreases buf@.len() - j,
    {
        match read_label(buf, &mut j) {
            None => {
                break ;
            },
            Some(false) => {},
            Some(true) => {
                terminal = true;
                break ;
            },
        }
    }
    *i = j;
    proof {
        lemma_scan_name_end_bounds(buf@, start as int);
    }
    if terminal {
        read_query_class_and_kind(buf, i)
    } else {
        false
    }
}

} // verus!
