//! Overlapping fixed-length windows of a sequence.
use vstd::prelude::*;

use crate::error::KmerError;

verus! {

/// The contents of each byte vector of a sequence.
pub open spec fn byte_views(v: Seq<Vec<u8>>) -> Seq<Seq<u8>> {
    v.map_values(|x: Vec<u8>| x@)
}

/// The number of windows of length `k` in a sequence of length `len`.
pub open spec fn window_total(len: nat, k: nat) -> nat {
    if k <= len {
        (len - k + 1) as nat
    } else {
        0
    }
}

/// The windows of length `k` of `s`, one starting at each offset, in order.
pub open spec fn windows(s: Seq<u8>, k: nat) -> Seq<Seq<u8>> {
    Seq::new(window_total(s.len(), k), |i: int| s.subrange(i, i + k))
}

/// A sequence of length `L` has `L - k + 1` windows of length `k` when
/// `k <= L`, and none when `k > L`.
pub proof fn lemma_window_count(s: Seq<u8>, k: nat)
    requires
        k >= 1,
    ensures
        k <= s.len() ==> windows(s, k).len() == s.len() - k + 1,
        k > s.len() ==> windows(s, k).len() == 0,
{
}

/// The number of windows of length `k` in a sequence of length `len`;
/// fails when `k` is zero.
pub fn window_count(len: usize, k: usize) -> (r: Result<usize, KmerError>)
    ensures
        k == 0 ==> r == Err::<usize, KmerError>(KmerError::InvalidKmerSize),
        k > 0 ==> r == Ok::<usize, KmerError>(window_total(len as nat, k as nat) as usize),
{
    if k == 0 {
        Err(KmerError::InvalidKmerSize)
    } else if k <= len {
        Ok(len - k + 1)
    } else {
        Ok(0)
    }
}

/// The window of length `k` that starts at `start`.
pub fn window_at(seq: &[u8], start: usize, k: usize) -> (r: Vec<u8>)
    requires
        start + k <= seq@.len(),
    ensures
        r@ == seq@.subrange(start as int, start + k),
{
    let mut out: Vec<u8> = Vec::with_capacity(k);
    let mut j: usize = 0;
    while j < k
        invariant
            j <= k,
            start + k <= seq.len(),
            out@ == seq@.subrange(start as int, start + j),
        decreases k - j,
    {
        out.push(seq[start + j]);
        j = j + 1;
        assert(out@ =~= seq@.subrange(start as int, start + j));
    }
    out
}

/// All windows of length `k` of a sequence, in order of their start;
/// fails when `k` is zero.
pub fn kmer_windows(seq: &[u8], k: usize) -> (r: Result<Vec<Vec<u8>>, KmerError>)
    ensures
        k == 0 ==> r == Err::<Vec<Vec<u8>>, KmerError>(KmerError::InvalidKmerSize),
        k > 0 ==> r is Ok && byte_views(r->Ok_0@) == windows(seq@, k as nat),
{
    if k == 0 {
        return Err(KmerError::InvalidKmerSize);
    }
    let mut out: Vec<Vec<u8>> = Vec::new();
    if k > seq.len() {
        assert(byte_views(out@) =~= windows(seq@, k as nat));
        return Ok(out);
    }
    let n = seq.len() - k + 1;
    let mut p: usize = 0;
    while p < n
        invariant
            k >= 1,
            k <= seq.len(),
            n == seq.len() - k + 1,
            p <= n,
            byte_views(out@) == windows(seq@, k as nat).take(p as int),
        decreases n - p,
    {
        let w = window_at(seq, p, k);
        let ghost prev = out@;
        out.push(w);
        assert(out@ == prev.push(w));
        assert(byte_views(out@) =~= byte_views(prev).push(w@));
        p = p + 1;
        assert(byte_views(out@) =~= windows(seq@, k as nat).take(p as int));
    }
    assert(windows(seq@, k as nat).take(n as int) =~= windows(seq@, k as nat));
    Ok(out)
}

} // verus!
