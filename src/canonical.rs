//! Choosing the canonical form of a k-mer.
use vstd::prelude::*;

use crate::nucleotide::{lemma_revcomp_involution, reverse_complement_of, revcomp};

verus! {

/// Byte-wise lexicographic order: `a` sorts strictly before `b`.
pub open spec fn lex_lt(a: Seq<u8>, b: Seq<u8>) -> bool
    decreases a.len(),
{
    if a.len() == 0 {
        b.len() > 0
    } else if b.len() == 0 {
        false
    } else if a[0] != b[0] {
        a[0] < b[0]
    } else {
        lex_lt(a.drop_first(), b.drop_first())
    }
}

/// The order is strict: no sequence sorts before itself.
pub proof fn lemma_lex_irreflexive(a: Seq<u8>)
    ensures
        !lex_lt(a, a),
    decreases a.len(),
{
    if a.len() > 0 {
        lemma_lex_irreflexive(a.drop_first());
    }
}

/// The order is total: two sequences are equal or one sorts before the other,
/// and never both ways.
pub proof fn lemma_lex_total(a: Seq<u8>, b: Seq<u8>)
    ensures
        a == b || lex_lt(a, b) || lex_lt(b, a),
        !(lex_lt(a, b) && lex_lt(b, a)),
    decreases a.len(),
{
    if a.len() > 0 && b.len() > 0 && a[0] == b[0] {
        lemma_lex_total(a.drop_first(), b.drop_first());
        if a.drop_first() == b.drop_first() {
            assert(a =~= b) by {
                assert forall|i: int| 0 <= i < a.len() implies a[i] == b[i] by {
                    if i > 0 {
                        assert(a[i] == a.drop_first()[i - 1]);
                        assert(b[i] == b.drop_first()[i - 1]);
                    }
                }
            }
        }
    } else if a.len() == 0 && b.len() == 0 {
        assert(a =~= b);
    }
}

/// The canonical form of a k-mer and whether the forward form was kept:
/// the lexicographically smaller of the k-mer and its reverse complement,
/// the forward form on a tie.
pub open spec fn canonical(w: Seq<u8>) -> (Seq<u8>, bool) {
    if lex_lt(revcomp(w), w) {
        (revcomp(w), false)
    } else {
        (w, true)
    }
}

/// A k-mer reduced to its canonical form.
pub struct CanonicalKmer {
    /// The smaller of the k-mer and its reverse complement.
    pub kmer: Vec<u8>,
    /// True when the forward k-mer is the canonical form.
    pub forward: bool,
}

/// Whether `a[a_start..a_start + len]` sorts strictly before
/// `b[b_start..b_start + len]`.
pub fn lex_less_at(a: &[u8], a_start: usize, b: &[u8], b_start: usize, len: usize) -> (r: bool)
    requires
        a_start + len <= a@.len(),
        b_start + len <= b@.len(),
    ensures
        r == lex_lt(
            a@.subrange(a_start as int, a_start + len),
            b@.subrange(b_start as int, b_start + len),
        ),
{
    let ghost x = a@.subrange(a_start as int, a_start + len);
    let ghost y = b@.subrange(b_start as int, b_start + len);
    assert(x.skip(0) =~= x);
    assert(y.skip(0) =~= y);
    let mut i: usize = 0;
    while i < len
        invariant
            i <= len,
            a_start + len <= a.len(),
            b_start + len <= b.len(),
            x == a@.subrange(a_start as int, a_start + len),
            y == b@.subrange(b_start as int, b_start + len),
            lex_lt(x, y) == lex_lt(x.skip(i as int), y.skip(i as int)),
        decreases len - i,
    {
        let p = a[a_start + i];
        let q = b[b_start + i];
        assert(x.skip(i as int)[0] == p);
        assert(y.skip(i as int)[0] == q);
        if p != q {
            return p < q;
        }
        assert(x.skip(i as int).drop_first() =~= x.skip(i + 1));
        assert(y.skip(i as int).drop_first() =~= y.skip(i + 1));
        i = i + 1;
    }
    assert(x.skip(len as int).len() == 0);
    assert(y.skip(len as int).len() == 0);
    false
}

/// Reduces a k-mer to the smaller of itself and its reverse complement,
/// recording whether the forward form was kept.
pub fn canonicalize(window: &[u8]) -> (r: CanonicalKmer)
    ensures
        (r.kmer@, r.forward) == canonical(window@),
{
    let rc = reverse_complement_of(window);
    let n = window.len();
    let rc_first = lex_less_at(rc.as_slice(), 0, window, 0, n);
    assert(rc@.subrange(0, n as int) =~= rc@);
    assert(window@.subrange(0, n as int) =~= window@);
    if rc_first {
        CanonicalKmer { kmer: rc, forward: false }
    } else {
        let mut kmer: Vec<u8> = Vec::with_capacity(n);
        let mut i: usize = 0;
        while i < n
            invariant
                i <= n,
                n == window@.len(),
                kmer@ == window@.subrange(0, i as int),
            decreases n - i,
        {
            kmer.push(window[i]);
            i = i + 1;
            assert(kmer@ =~= window@.subrange(0, i as int));
        }
        CanonicalKmer { kmer, forward: true }
    }
}

/// Canonicalizing the reverse complement of a k-mer gives the same
/// canonical form as canonicalizing the k-mer itself.
pub proof fn lemma_canonical_involution(w: Seq<u8>)
    ensures
        canonical(revcomp(w)).0 == canonical(w).0,
{
    lemma_revcomp_involution(w);
    lemma_lex_total(w, revcomp(w));
}

/// A k-mer that equals its own reverse complement is its own canonical
/// form, kept in the forward orientation.
pub proof fn lemma_palindrome_canonical(w: Seq<u8>)
    requires
        revcomp(w) == w,
    ensures
        canonical(w) == (w, true),
{
    lemma_lex_irreflexive(w);
}

} // verus!
