//! Symbols of nucleotide sequences: normalization and reverse complement.
use vstd::prelude::*;
use vstd::utf8::valid_utf8;

use crate::error::KmerError;

verus! {

/// The uppercase form of an ASCII letter; every other byte is kept.
pub open spec fn upper(b: u8) -> u8 {
    if 97 <= b <= 122 {
        (b - 32) as u8
    } else {
        b
    }
}

/// A raw sequence with every lowercase ASCII letter made uppercase.
pub open spec fn normalized(raw: Seq<u8>) -> Seq<u8> {
    raw.map_values(|b: u8| upper(b))
}

/// The Watson-Crick complement of a symbol, extended to the IUPAC
/// ambiguity codes; any other byte is its own complement.
pub open spec fn complement(b: u8) -> u8 {
    match b {
        0x61u8 => 0x74u8, // a -> t
        0x41u8 => 0x54u8, // A -> T
        0x63u8 => 0x67u8, // c -> g
        0x43u8 => 0x47u8, // C -> G
        0x67u8 => 0x63u8, // g -> c
        0x47u8 => 0x43u8, // G -> C
        0x74u8 => 0x61u8, // t -> a
        0x54u8 => 0x41u8, // T -> A
        0x72u8 => 0x79u8, // r -> y
        0x79u8 => 0x72u8, // y -> r
        0x6bu8 => 0x6du8, // k -> m
        0x6du8 => 0x6bu8, // m -> k
        0x62u8 => 0x76u8, // b -> v
        0x76u8 => 0x62u8, // v -> b
        0x64u8 => 0x68u8, // d -> h
        0x68u8 => 0x64u8, // h -> d
        0x52u8 => 0x59u8, // R -> Y
        0x59u8 => 0x52u8, // Y -> R
        0x4bu8 => 0x4du8, // K -> M
        0x4du8 => 0x4bu8, // M -> K
        0x42u8 => 0x56u8, // B -> V
        0x56u8 => 0x42u8, // V -> B
        0x44u8 => 0x48u8, // D -> H
        0x48u8 => 0x44u8, // H -> D
        _ => b, // s, w, S, W, N and everything else
    }
}

/// The reverse complement: the symbols in reverse order, each complemented.
pub open spec fn revcomp(s: Seq<u8>) -> Seq<u8> {
    Seq::new(s.len(), |i: int| complement(s[s.len() - 1 - i]))
}

/// Complementing a symbol twice gives it back.
pub proof fn lemma_complement_involution(b: u8)
    ensures
        complement(complement(b)) == b,
{
}

/// Taking the reverse complement twice gives the sequence back.
pub proof fn lemma_revcomp_involution(s: Seq<u8>)
    ensures
        revcomp(revcomp(s)) == s,
{
    assert forall|i: int| 0 <= i < s.len() implies #[trigger] revcomp(revcomp(s))[i] == s[i] by {
        lemma_complement_involution(s[i]);
    }
    assert(revcomp(revcomp(s)) =~= s);
}

/// The window of the reverse complement that lies opposite a window of the
/// sequence is that window's reverse complement.
pub proof fn lemma_revcomp_window(s: Seq<u8>, p: int, k: int)
    requires
        0 <= p,
        0 <= k,
        p + k <= s.len(),
    ensures
        revcomp(s).subrange(s.len() - p - k, s.len() - p) == revcomp(s.subrange(p, p + k)),
{
    assert(revcomp(s).subrange(s.len() - p - k, s.len() - p) =~= revcomp(s.subrange(p, p + k)));
}

/// Relies on std::str::from_utf8: it succeeds exactly on well-formed UTF-8.
#[verifier::external_body]
fn is_utf8(bytes: &[u8]) -> (r: bool)
    ensures
        r == valid_utf8(bytes@),
{
    std::str::from_utf8(bytes).is_ok()
}

/// Relies on needletail's Sequence::reverse_complement: the bytes reversed,
/// each mapped through needletail::sequence::complement.
#[verifier::external_body]
pub(crate) fn reverse_complement_of(s: &[u8]) -> (r: Vec<u8>)
    ensures
        r@ == revcomp(s@),
{
    needletail::Sequence::reverse_complement(s)
}

/// The uppercase form of one byte.
pub fn upper_byte(b: u8) -> (r: u8)
    ensures
        r == upper(b),
{
    if 97 <= b && b <= 122 {
        b - 32
    } else {
        b
    }
}

/// Turns raw sequence bytes into a normalized sequence of the same length:
/// lowercase letters become uppercase and every other byte passes through.
/// Fails when the bytes are not valid UTF-8 text.
pub fn normalize(raw: &[u8]) -> (r: Result<Vec<u8>, KmerError>)
    ensures
        r is Ok <==> valid_utf8(raw@),
        r is Ok ==> r->Ok_0@ == normalized(raw@),
        r is Err ==> r->Err_0 == KmerError::InvalidEncoding,
{
    if !is_utf8(raw) {
        return Err(KmerError::InvalidEncoding);
    }
    let mut out: Vec<u8> = Vec::with_capacity(raw.len());
    let mut i: usize = 0;
    while i < raw.len()
        invariant
            i <= raw@.len(),
            out@ == normalized(raw@).subrange(0, i as int),
        decreases raw@.len() - i,
    {
        out.push(upper_byte(raw[i]));
        i = i + 1;
        assert(out@ =~= normalized(raw@).subrange(0, i as int));
    }
    assert(out@ =~= normalized(raw@));
    Ok(out)
}

/// The reverse complement of a sequence.
pub fn reverse_complement(s: &[u8]) -> (r: Vec<u8>)
    ensures
        r@ == revcomp(s@),
{
    reverse_complement_of(s)
}

} // verus!
