//! Finding where the first top-level object of a window of bytes ends.

use vstd::prelude::*;
use crate::depth::{Descriptor, CLOSE_BRACE, COMMA, OPEN_BRACE};

verus! {

/// What one byte adds to the nesting level.
pub open spec fn brace_weight(byte: u8) -> int {
    if byte == OPEN_BRACE {
        1
    } else if byte == CLOSE_BRACE {
        -1
    } else {
        0
    }
}

/// The nesting level after the first `n` bytes of `s`: opening braces minus closing
/// braces among them.
pub open spec fn level(s: Seq<u8>, n: int) -> int
    decreases n,
{
    if n <= 0 {
        0
    } else {
        level(s, n - 1) + brace_weight(s[n - 1])
    }
}

/// The first top-level object of `s` ends at index `i`: the byte there is a closing
/// brace that brings the level to zero, and every closing brace before it left the
/// level positive.
pub open spec fn object_ends_at(s: Seq<u8>, i: int) -> bool {
    &&& 0 <= i < s.len()
    &&& s[i] == CLOSE_BRACE
    &&& level(s, i + 1) == 0
    &&& forall|n: int| 0 < n <= i && s[n - 1] == CLOSE_BRACE ==> #[trigger] level(s, n) > 0
}

/// The index at which the first top-level object of `s` ends, if it has one.
pub open spec fn first_object_end(s: Seq<u8>) -> Option<int> {
    if exists|i: int| object_ends_at(s, i) {
        Some(choose|i: int| object_ends_at(s, i))
    } else {
        None
    }
}

/// At most one index is the end of the first top-level object.
pub proof fn lemma_object_end_unique(s: Seq<u8>, i: int, j: int)
    requires
        object_ends_at(s, i),
        object_ends_at(s, j),
    ensures
        i == j,
{
    if i < j {
        assert(level(s, i + 1) > 0);
    } else if j < i {
        assert(level(s, j + 1) > 0);
    }
}

/// An index that ends the first top-level object is the one `first_object_end` names.
pub proof fn lemma_first_object_end_is(s: Seq<u8>, i: int)
    requires
        object_ends_at(s, i),
    ensures
        first_object_end(s) == Some(i),
{
    let j = choose|j: int| object_ends_at(s, j);
    lemma_object_end_unique(s, i, j);
}

/// The index that `first_object_end` names does end the first top-level object.
pub proof fn lemma_first_object_end_ends(s: Seq<u8>)
    ensures
        first_object_end(s) matches Some(i) ==> object_ends_at(s, i),
{
}

/// Scans `window` from its first byte and returns the index of the closing brace
/// that ends its first top-level object. There is none if the window runs out
/// first or if a closing brace comes while no object is open.
pub fn find_object_end(window: &[u8]) -> (end: Option<usize>)
    ensures
        match end {
            Some(i) => first_object_end(window@) == Some(i as int) && object_ends_at(window@, i as int),
            None => first_object_end(window@) is None,
        },
{
    let mut desc = Descriptor::new();
    let mut i: usize = 0;
    while i < window.len()
        invariant
            i <= window.len(),
            desc@.depth == level(window@, i as int),
            forall|n: int|
                0 < n <= i && window@[n - 1] == CLOSE_BRACE ==> #[trigger] level(window@, n) > 0,
        decreases window.len() - i,
    {
        let byte = window[i];
        if byte == CLOSE_BRACE && desc.depth() == 0 {
            proof {
                let stray = i as int + 1;
                assert(level(window@, stray) == -1);
                assert forall|k: int| !object_ends_at(window@, k) by {
                    if object_ends_at(window@, k) {
                        if k < i {
                            assert(level(window@, k + 1) > 0);
                        } else if k > i {
                            assert(level(window@, stray) > 0);
                        }
                    }
                }
            }
            return None;
        }
        proof {
            lemma_level_at_most(window@, i as int);
        }
        let closed = desc.feed(byte);
        if closed {
            proof {
                lemma_first_object_end_is(window@, i as int);
            }
            return Some(i);
        }
        i += 1;
    }
    proof {
        assert forall|k: int| !object_ends_at(window@, k) by {
            if object_ends_at(window@, k) {
                assert(level(window@, k + 1) > 0);
            }
        }
    }
    None
}

/// The level after `n` bytes is at most `n`.
pub proof fn lemma_level_at_most(s: Seq<u8>, n: int)
    requires
        0 <= n,
    ensures
        level(s, n) <= n,
    decreases n,
{
    if n > 0 {
        lemma_level_at_most(s, n - 1);
    }
}

/// The level after `n` bytes depends on those bytes alone.
pub proof fn lemma_level_local(s: Seq<u8>, t: Seq<u8>, n: int)
    requires
        forall|j: int| 0 <= j < n ==> s[j] == t[j],
    ensures
        level(s, n) == level(t, n),
    decreases n,
{
    if n > 0 {
        lemma_level_local(s, t, n - 1);
    }
}

/// Whether the first top-level object ends at `i` depends on the bytes up to `i`
/// alone.
pub proof fn lemma_object_end_local(s: Seq<u8>, t: Seq<u8>, i: int)
    requires
        0 <= i < s.len(),
        i < t.len(),
        forall|j: int| 0 <= j <= i ==> s[j] == t[j],
    ensures
        object_ends_at(s, i) == object_ends_at(t, i),
{
    lemma_level_local(s, t, i + 1);
    assert forall|n: int|
        #![trigger level(s, n)]
        #![trigger level(t, n)]
        0 < n <= i implies level(s, n) == level(t, n) by {
        lemma_level_local(s, t, n);
    }
}

/// A byte that is no brace.
pub open spec fn is_plain(byte: u8) -> bool {
    byte != OPEN_BRACE && byte != CLOSE_BRACE
}

/// Plain bytes leave the level at zero.
pub proof fn lemma_level_of_plain(t: Seq<u8>, k: int)
    requires
        forall|j: int| 0 <= j < k ==> is_plain(#[trigger] t[j]),
    ensures
        level(t, k) == 0,
    decreases k,
{
    if k > 0 {
        lemma_level_of_plain(t, k - 1);
    }
}

/// Behind `k` plain bytes the levels are those of the bytes that follow them.
pub proof fn lemma_level_behind_plain(s: Seq<u8>, t: Seq<u8>, k: int, n: int)
    requires
        0 <= k,
        0 <= n,
        forall|j: int| 0 <= j < k ==> is_plain(#[trigger] t[j]),
        forall|j: int| 0 <= j < n ==> s[j] == t[k + j],
    ensures
        level(t, k + n) == level(s, n),
    decreases n,
{
    if n > 0 {
        lemma_level_behind_plain(s, t, k, n - 1);
    } else {
        lemma_level_of_plain(t, k);
        assert(level(s, 0) == 0);
    }
}

/// If `t` holds `k` plain bytes and then the bytes of `s` up to `i`, the first
/// top-level object of `t` ends at `k + i` exactly if that of `s` ends at `i`.
pub proof fn lemma_object_end_shift(s: Seq<u8>, t: Seq<u8>, k: int, i: int)
    requires
        0 <= k,
        0 <= i < s.len(),
        k + i < t.len(),
        forall|j: int| 0 <= j < k ==> is_plain(#[trigger] t[j]),
        forall|j: int| 0 <= j <= i ==> s[j] == t[k + j],
    ensures
        object_ends_at(t, k + i) == object_ends_at(s, i),
{
    lemma_level_behind_plain(s, t, k, i + 1);
    if object_ends_at(s, i) {
        assert forall|n: int| 0 < n <= k + i && t[n - 1] == CLOSE_BRACE implies #[trigger] level(
            t,
            n,
        ) > 0 by {
            if n - 1 < k {
                assert(is_plain(t[n - 1]));
            } else {
                let m = n - k;
                assert(s[m - 1] == t[k + (m - 1)]);
                lemma_level_behind_plain(s, t, k, m);
                assert(level(s, m) > 0);
            }
        }
    }
    if object_ends_at(t, k + i) {
        assert forall|m: int| 0 < m <= i && s[m - 1] == CLOSE_BRACE implies #[trigger] level(s, m)
            > 0 by {
            assert(s[m - 1] == t[k + (m - 1)]);
            lemma_level_behind_plain(s, t, k, m);
            assert(level(t, k + m) > 0);
        }
    }
}

/// A byte that may stand between an object and the comma behind it: neither a
/// brace nor a comma.
pub open spec fn is_filler(byte: u8) -> bool {
    byte != OPEN_BRACE && byte != CLOSE_BRACE && byte != COMMA
}

/// The first `n` bytes of `s` are filler, and the filler ends there.
pub open spec fn filler_ends_at(s: Seq<u8>, n: int) -> bool {
    &&& 0 <= n <= s.len()
    &&& forall|j: int| 0 <= j < n ==> is_filler(#[trigger] s[j])
    &&& n < s.len() ==> !is_filler(s[n])
}

/// The number of filler bytes with which `s` begins.
pub open spec fn filler_len(s: Seq<u8>) -> int {
    choose|n: int| filler_ends_at(s, n)
}

/// The length of the separator with which `s` begins: the filler, and one comma if
/// one follows it.
pub open spec fn separator_len(s: Seq<u8>) -> int {
    let n = filler_len(s);
    if n < s.len() && s[n] == COMMA {
        n + 1
    } else {
        n
    }
}

/// The place where the filler ends is the length `filler_len` names.
pub proof fn lemma_filler_len_is(s: Seq<u8>, n: int)
    requires
        filler_ends_at(s, n),
    ensures
        filler_len(s) == n,
{
    let m = filler_len(s);
    if m < n {
        assert(is_filler(s[m]));
    } else if n < m {
        assert(is_filler(s[n]));
    }
}

/// The filler with which `s` begins ends somewhere at or behind index `k`, if the
/// bytes before `k` are filler.
proof fn lemma_filler_ends_from(s: Seq<u8>, k: int)
    requires
        0 <= k <= s.len(),
        forall|j: int| 0 <= j < k ==> is_filler(#[trigger] s[j]),
    ensures
        exists|n: int| filler_ends_at(s, n),
    decreases s.len() - k,
{
    if k < s.len() && is_filler(s[k]) {
        lemma_filler_ends_from(s, k + 1);
    } else {
        assert(filler_ends_at(s, k));
    }
}

/// The filler with which `s` begins ends at the length `filler_len` names.
pub proof fn lemma_filler_ends(s: Seq<u8>)
    ensures
        filler_ends_at(s, filler_len(s)),
{
    lemma_filler_ends_from(s, 0);
}

/// The separator at the start of a window ends before the end of the window's
/// first object.
pub proof fn lemma_separator_before_object(window: Seq<u8>, end: int)
    requires
        object_ends_at(window, end),
    ensures
        0 <= separator_len(window) <= end,
        forall|j: int| 0 <= j < separator_len(window) ==> is_plain(#[trigger] window[j]),
{
    let n = filler_len(window);
    lemma_filler_ends(window);
    if n > end {
        assert(is_filler(window[end]));
    }
    assert forall|j: int| 0 <= j < separator_len(window) implies is_plain(
        #[trigger] window[j],
    ) by {
        if j < n {
            assert(is_filler(window[j]));
        }
    }
}

/// Where the filler ends before the end of `s`, the separator depends on the bytes
/// up to that place alone.
pub proof fn lemma_separator_local(s: Seq<u8>, t: Seq<u8>, n: int)
    requires
        filler_ends_at(s, n),
        n < s.len(),
        n < t.len(),
        forall|j: int| 0 <= j <= n ==> s[j] == t[j],
    ensures
        separator_len(t) == separator_len(s),
        separator_len(s) == if s[n] == COMMA { n + 1 } else { n },
{
    assert forall|j: int| 0 <= j < n implies is_filler(#[trigger] t[j]) by {
        assert(is_filler(s[j]));
    }
    assert(filler_ends_at(t, n));
    lemma_filler_len_is(s, n);
    lemma_filler_len_is(t, n);
}

/// Counts the bytes of the separator with which `window` begins: the bytes that
/// are neither brace nor comma, and one comma if one follows them.
pub fn skip_separator(window: &[u8]) -> (skip: usize)
    ensures
        skip == separator_len(window@),
        skip <= window@.len(),
{
    let mut i: usize = 0;
    while i < window.len() && window[i] != OPEN_BRACE && window[i] != CLOSE_BRACE && window[i]
        != COMMA
        invariant
            i <= window.len(),
            forall|j: int| 0 <= j < i ==> is_filler(#[trigger] window@[j]),
        decreases window.len() - i,
    {
        i += 1;
    }
    proof {
        assert(filler_ends_at(window@, i as int));
        lemma_filler_len_is(window@, i as int);
    }
    if i < window.len() && window[i] == COMMA {
        i + 1
    } else {
        i
    }
}

/// Bytes without a closing brace hold no complete object.
pub proof fn lemma_no_object_without_close(s: Seq<u8>)
    requires
        forall|j: int| 0 <= j < s.len() ==> s[j] != CLOSE_BRACE,
    ensures
        first_object_end(s) is None,
{
}

} // verus!
