//! Counting canonical k-mers over a stream of sequence records.
use vstd::prelude::*;
use vstd::utf8::valid_utf8;

use crate::canonical::{canonical, lex_less_at, CanonicalKmer};
use crate::error::KmerError;
use crate::nucleotide::{lemma_revcomp_window, normalize, normalized, reverse_complement_of, revcomp};
use crate::table::{bump, count_in, CountTable};
use crate::window::windows;

verus! {

/// One read of the input stream: an identifier and its raw sequence bytes.
pub struct SequenceRecord {
    pub id: Vec<u8>,
    pub seq: Vec<u8>,
}

/// What the counting driver does with a record that cannot be processed.
#[derive(Debug, Clone, Copy, PartialEq, Eq, Structural)]
pub enum OnInvalid {
    /// Stop at the first such record and report it.
    Abort,
    /// Leave the record out and go on with the next one.
    Skip,
}

/// The canonical k-mers of one raw read, in window order.
pub open spec fn read_kmers(raw: Seq<u8>, k: nat) -> Seq<Seq<u8>> {
    windows(normalized(raw), k).map_values(|w: Seq<u8>| canonical(w).0)
}

/// A count mapping with one more occurrence of each k-mer of `ks`.
pub open spec fn tally(m: Map<Seq<u8>, nat>, ks: Seq<Seq<u8>>) -> Map<Seq<u8>, nat>
    decreases ks.len(),
{
    if ks.len() == 0 {
        m
    } else {
        bump(tally(m, ks.drop_last()), ks.last())
    }
}

/// The canonical k-mers of a stream of raw reads, read after read.
pub open spec fn stream_kmers(reads: Seq<Seq<u8>>, k: nat) -> Seq<Seq<u8>>
    decreases reads.len(),
{
    if reads.len() == 0 {
        Seq::empty()
    } else {
        stream_kmers(reads.drop_last(), k) + read_kmers(reads.last(), k)
    }
}

/// The count table of a stream of raw reads.
pub open spec fn stream_counts(reads: Seq<Seq<u8>>, k: nat) -> Map<Seq<u8>, nat> {
    tally(Map::empty(), stream_kmers(reads, k))
}

/// Two count mappings summed key by key.
pub open spec fn merge(a: Map<Seq<u8>, nat>, b: Map<Seq<u8>, nat>) -> Map<Seq<u8>, nat> {
    Map::new(
        |x: Seq<u8>| a.contains_key(x) || b.contains_key(x),
        |x: Seq<u8>| count_in(a, x) + count_in(b, x),
    )
}

/// The reads of a stream that are well-formed text, in order.
pub open spec fn valid_reads(reads: Seq<Seq<u8>>) -> Seq<Seq<u8>>
    decreases reads.len(),
{
    if reads.len() == 0 {
        Seq::empty()
    } else if valid_utf8(reads.last()) {
        valid_reads(reads.drop_last()).push(reads.last())
    } else {
        valid_reads(reads.drop_last())
    }
}

/// The raw sequences of a list of records.
pub open spec fn record_seqs(recs: Seq<SequenceRecord>) -> Seq<Seq<u8>> {
    recs.map_values(|r: SequenceRecord| r.seq@)
}

/// The summed length of a stream of reads.
pub open spec fn total_len(reads: Seq<Seq<u8>>) -> nat
    decreases reads.len(),
{
    if reads.len() == 0 {
        0
    } else {
        total_len(reads.drop_last()) + reads.last().len()
    }
}

/// Tallying two runs of k-mers one after the other is tallying them joined.
pub proof fn lemma_tally_append(m: Map<Seq<u8>, nat>, a: Seq<Seq<u8>>, b: Seq<Seq<u8>>)
    ensures
        tally(tally(m, a), b) == tally(m, a + b),
    decreases b.len(),
{
    if b.len() == 0 {
        assert(a + b =~= a);
    } else {
        lemma_tally_append(m, a, b.drop_last());
        assert((a + b).drop_last() =~= a + b.drop_last());
    }
}

/// Tallying onto a mapping adds the tally of an empty one to it.
pub proof fn lemma_tally_merge(m: Map<Seq<u8>, nat>, ks: Seq<Seq<u8>>)
    ensures
        tally(m, ks) == merge(m, tally(Map::empty(), ks)),
    decreases ks.len(),
{
    if ks.len() == 0 {
        assert(merge(m, Map::empty()) =~= m);
    } else {
        lemma_tally_merge(m, ks.drop_last());
        let t = tally(Map::<Seq<u8>, nat>::empty(), ks.drop_last());
        assert(bump(merge(m, t), ks.last()) =~= merge(m, bump(t, ks.last())));
    }
}

/// The k-mers of two streams one after the other are those of each, joined.
pub proof fn lemma_stream_kmers_append(a: Seq<Seq<u8>>, b: Seq<Seq<u8>>, k: nat)
    ensures
        stream_kmers(a + b, k) == stream_kmers(a, k) + stream_kmers(b, k),
    decreases b.len(),
{
    if b.len() == 0 {
        assert(a + b =~= a);
        assert(stream_kmers(a, k) + stream_kmers(b, k) =~= stream_kmers(a, k));
    } else {
        lemma_stream_kmers_append(a, b.drop_last(), k);
        assert((a + b).drop_last() =~= a + b.drop_last());
        assert((a + b).last() == b.last());
        assert(stream_kmers(a, k) + stream_kmers(b.drop_last(), k) + read_kmers(b.last(), k)
            =~= stream_kmers(a, k) + (stream_kmers(b.drop_last(), k) + read_kmers(b.last(), k)));
    }
}

/// Counting a stream split into two parts and summing the two tables key by
/// key gives the table of the whole stream.
pub proof fn lemma_counts_additive(a: Seq<Seq<u8>>, b: Seq<Seq<u8>>, k: nat)
    ensures
        stream_counts(a + b, k) == merge(stream_counts(a, k), stream_counts(b, k)),
{
    lemma_stream_kmers_append(a, b, k);
    lemma_tally_append(Map::empty(), stream_kmers(a, k), stream_kmers(b, k));
    lemma_tally_merge(stream_counts(a, k), stream_kmers(b, k));
}

/// The reads of a stream sent to one side of a split: read `i` goes to the
/// first side when `to_first[i]` holds, to the second otherwise, in order.
pub open spec fn side_of_split(reads: Seq<Seq<u8>>, to_first: Seq<bool>, first: bool) -> Seq<Seq<u8>>
    decreases reads.len(),
{
    if reads.len() == 0 || to_first.len() == 0 {
        Seq::empty()
    } else if to_first.last() == first {
        side_of_split(reads.drop_last(), to_first.drop_last(), first).push(reads.last())
    } else {
        side_of_split(reads.drop_last(), to_first.drop_last(), first)
    }
}

/// Counting one more read adds the tally of its k-mers to the table.
pub proof fn lemma_stream_counts_push(reads: Seq<Seq<u8>>, read: Seq<u8>, k: nat)
    ensures
        stream_counts(reads.push(read), k) == merge(
            stream_counts(reads, k),
            tally(Map::empty(), read_kmers(read, k)),
        ),
{
    assert(reads.push(read).drop_last() =~= reads);
    lemma_tally_append(Map::empty(), stream_kmers(reads, k), read_kmers(read, k));
    lemma_tally_merge(stream_counts(reads, k), read_kmers(read, k));
}

/// Splitting a stream into two sub-streams in any way, counting each and
/// summing the two tables key by key gives the table of the whole stream.
pub proof fn lemma_counts_additive_any_split(reads: Seq<Seq<u8>>, to_first: Seq<bool>, k: nat)
    requires
        to_first.len() == reads.len(),
    ensures
        stream_counts(reads, k) == merge(
            stream_counts(side_of_split(reads, to_first, true), k),
            stream_counts(side_of_split(reads, to_first, false), k),
        ),
    decreases reads.len(),
{
    if reads.len() == 0 {
        assert(merge(Map::empty(), Map::empty()) =~= Map::<Seq<u8>, nat>::empty());
    } else {
        let rest = reads.drop_last();
        let mask = to_first.drop_last();
        let a = side_of_split(rest, mask, true);
        let b = side_of_split(rest, mask, false);
        let t = tally(Map::<Seq<u8>, nat>::empty(), read_kmers(reads.last(), k));
        lemma_counts_additive_any_split(rest, mask, k);
        assert(rest.push(reads.last()) =~= reads);
        lemma_stream_counts_push(rest, reads.last(), k);
        let sa = stream_counts(a, k);
        let sb = stream_counts(b, k);
        if to_first.last() {
            lemma_stream_counts_push(a, reads.last(), k);
            assert(merge(merge(sa, sb), t) =~= merge(merge(sa, t), sb));
        } else {
            lemma_stream_counts_push(b, reads.last(), k);
            assert(merge(merge(sa, sb), t) =~= merge(sa, merge(sb, t)));
        }
    }
}

/// Two counting runs over the same stream with the same k-mer size end in
/// the same key-to-count mapping.
pub proof fn lemma_counts_deterministic(
    reads: Seq<Seq<u8>>,
    k: nat,
    first: CountTable,
    second: CountTable,
)
    requires
        first@ == stream_counts(reads, k),
        second@ == stream_counts(reads, k),
    ensures
        first@ == second@,
{
}

/// When every read is well-formed text, no read is left out.
pub proof fn lemma_valid_reads_all(reads: Seq<Seq<u8>>)
    requires
        forall|i: int| 0 <= i < reads.len() ==> valid_utf8(#[trigger] reads[i]),
    ensures
        valid_reads(reads) == reads,
    decreases reads.len(),
{
    if reads.len() > 0 {
        lemma_valid_reads_all(reads.drop_last());
        assert(reads.drop_last().push(reads.last()) =~= reads);
    }
}

/// The reads kept from a stream are no longer in all than the stream.
pub proof fn lemma_valid_reads_len(reads: Seq<Seq<u8>>)
    ensures
        total_len(valid_reads(reads)) <= total_len(reads),
    decreases reads.len(),
{
    if reads.len() > 0 {
        lemma_valid_reads_len(reads.drop_last());
        let v = valid_reads(reads.drop_last());
        if valid_utf8(reads.last()) {
            assert(v.push(reads.last()).drop_last() =~= v);
        }
    }
}

impl CountTable {
    /// Adds one occurrence of a canonical k-mer, inserting it with count one
    /// when it is new.
    pub fn accumulate(&mut self, kmer: &CanonicalKmer)
        requires
            old(self).wf(),
            old(self).total_spec() < usize::MAX,
        ensures
            final(self).wf(),
            final(self)@ == bump(old(self)@, kmer.kmer@),
            final(self).total_spec() == old(self).total_spec() + 1,
    {
        assert(kmer.kmer@.subrange(0, kmer.kmer@.len() as int) =~= kmer.kmer@);
        self.add_at(kmer.kmer.as_slice(), 0, kmer.kmer.len());
    }

    /// Normalizes one raw read and adds each of its canonical k-mers to the
    /// table. Fails, leaving the table as it was, when `k` is zero or the read
    /// is not valid text.
    pub fn add_sequence(&mut self, raw: &[u8], k: usize) -> (r: Result<(), KmerError>)
        requires
            old(self).wf(),
            old(self).total_spec() + raw@.len() <= usize::MAX,
        ensures
            final(self).wf(),
            k == 0 ==> r == Err::<(), KmerError>(KmerError::InvalidKmerSize),
            k > 0 && !valid_utf8(raw@) ==> r == Err::<(), KmerError>(KmerError::InvalidEncoding),
            r is Err ==> *final(self) == *old(self),
            k > 0 && valid_utf8(raw@) ==> {
                &&& r is Ok
                &&& final(self)@ == tally(old(self)@, read_kmers(raw@, k as nat))
                &&& final(self).total_spec() == old(self).total_spec() + read_kmers(
                    raw@,
                    k as nat,
                ).len()
            },
    {
        if k == 0 {
            return Err(KmerError::InvalidKmerSize);
        }
        let norm = match normalize(raw) {
            Ok(v) => v,
            Err(e) => {
                return Err(e);
            },
        };
        let ghost ks = read_kmers(raw@, k as nat);
        let ghost s = norm@;
        let ghost start = self@;
        let ghost start_total = self.total_spec();
        let len = norm.len();
        if k > len {
            assert(ks.len() == 0);
            return Ok(());
        }
        let rc = reverse_complement_of(norm.as_slice());
        let n = len - k + 1;
        let mut p: usize = 0;
        while p < n
            invariant
                self.wf(),
                1 <= k <= len,
                len == s.len(),
                n == len - k + 1,
                p <= n,
                s == norm@,
                s == normalized(raw@),
                rc@ == revcomp(s),
                ks == read_kmers(raw@, k as nat),
                ks.len() == n,
                s.len() == raw@.len(),
                start_total + raw@.len() <= usize::MAX,
                self@ == tally(start, ks.take(p as int)),
                self.total_spec() == start_total + p,
            decreases n - p,
        {
            let ghost w = s.subrange(p as int, p + k);
            proof {
                lemma_revcomp_window(s, p as int, k as int);
            }
            let rc_start = len - p - k;
            if lex_less_at(rc.as_slice(), rc_start, norm.as_slice(), p, k) {
                self.add_at(rc.as_slice(), rc_start, k);
            } else {
                self.add_at(norm.as_slice(), p, k);
            }
            assert(ks[p as int] == canonical(w).0);
            assert(ks.take(p + 1).drop_last() =~= ks.take(p as int));
            p = p + 1;
        }
        assert(ks.take(n as int) =~= ks);
        Ok(())
    }
}

/// Counts the canonical k-mers of every record, one record at a time in
/// order, into one table. A record whose sequence is not valid text stops
/// the count with that record's identifier under `OnInvalid::Abort`, and is
/// left out under `OnInvalid::Skip`. Fails at once when `k` is zero.
pub fn count_kmers(records: &Vec<SequenceRecord>, k: usize, on_invalid: OnInvalid) -> (r: Result<
    CountTable,
    KmerError,
>)
    requires
        total_len(record_seqs(records@)) <= usize::MAX,
    ensures
        k == 0 ==> r == Err::<CountTable, KmerError>(KmerError::InvalidKmerSize),
        k > 0 && on_invalid == OnInvalid::Skip ==> r is Ok && r->Ok_0.wf() && r->Ok_0@ == stream_counts(
            valid_reads(record_seqs(records@)),
            k as nat,
        ),
        k > 0 && on_invalid == OnInvalid::Abort && (forall|i: int|
            0 <= i < records@.len() ==> valid_utf8(#[trigger] records@[i].seq@)) ==> r is Ok
            && r->Ok_0.wf() && r->Ok_0@ == stream_counts(record_seqs(records@), k as nat),
        k > 0 && on_invalid == OnInvalid::Abort && !(forall|i: int|
            0 <= i < records@.len() ==> valid_utf8(#[trigger] records@[i].seq@)) ==> exists|i: int|
            0 <= i < records@.len() && !valid_utf8(records@[i].seq@) && (forall|j: int|
                0 <= j < i ==> valid_utf8(#[trigger] records@[j].seq@)) && r is Err
                && r->Err_0 is InvalidRecord && r->Err_0->InvalidRecord_0@ == records@[i].id@,
{
    if k == 0 {
        return Err(KmerError::InvalidKmerSize);
    }
    let ghost seqs = record_seqs(records@);
    let mut table = CountTable::new();
    let mut i: usize = 0;
    while i < records.len()
        invariant
            1 <= k,
            seqs == record_seqs(records@),
            total_len(seqs) <= usize::MAX,
            i <= records@.len(),
            table.wf(),
            table@ == stream_counts(valid_reads(seqs.take(i as int)), k as nat),
            table.total_spec() <= total_len(valid_reads(seqs.take(i as int))),
            on_invalid == OnInvalid::Abort ==> forall|j: int|
                0 <= j < i ==> valid_utf8(#[trigger] records@[j].seq@),
        decreases records@.len() - i,
    {
        let rec = &records[i];
        let ghost before = seqs.take(i as int);
        let ghost after = seqs.take(i + 1);
        assert(after.drop_last() =~= before);
        assert(after.last() == rec.seq@);
        proof {
            lemma_valid_reads_len(seqs.take(i as int));
            lemma_prefix_len(seqs, i as int);
            lemma_valid_reads_len(after);
        }
        let ghost v = valid_reads(before);
        match table.add_sequence(rec.seq.as_slice(), k) {
            Ok(()) => {
                proof {
                    assert(valid_reads(after) == v.push(rec.seq@));
                    assert(v.push(rec.seq@).drop_last() =~= v);
                    lemma_tally_append(Map::empty(), stream_kmers(v, k as nat), read_kmers(rec.seq@, k as nat));
                    lemma_read_kmers_len(rec.seq@, k as nat);
                }
            },
            Err(_) => {
                if on_invalid == OnInvalid::Abort {
                    assert(!valid_utf8(records@[i as int].seq@));
                    return Err(KmerError::InvalidRecord(rec.id.clone()));
                }
                assert(valid_reads(after) == v);
            },
        }
        i = i + 1;
    }
    assert(seqs.take(records@.len() as int) =~= seqs);
    proof {
        if on_invalid == OnInvalid::Abort {
            lemma_valid_reads_all(seqs);
        }
    }
    Ok(table)
}

/// A prefix of a stream is no longer in all than the stream, and the next
/// read fits beside it.
proof fn lemma_prefix_len(reads: Seq<Seq<u8>>, i: int)
    requires
        0 <= i < reads.len(),
    ensures
        total_len(reads.take(i)) + reads[i].len() <= total_len(reads),
    decreases reads.len(),
{
    if i < reads.len() - 1 {
        lemma_prefix_len(reads.drop_last(), i);
        assert(reads.drop_last().take(i) =~= reads.take(i));
    } else {
        assert(reads.drop_last() =~= reads.take(i));
    }
}

/// A read has at most as many k-mers as bytes.
proof fn lemma_read_kmers_len(raw: Seq<u8>, k: nat)
    requires
        k >= 1,
    ensures
        read_kmers(raw, k).len() <= raw.len(),
{
}

} // verus!
