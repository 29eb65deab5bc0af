use kmer_counter::canonical::canonicalize;
use kmer_counter::counting::{count_kmers, OnInvalid, SequenceRecord};
use kmer_counter::error::KmerError;
use kmer_counter::nucleotide::{normalize, reverse_complement};
use kmer_counter::table::CountTable;
use kmer_counter::window::{kmer_windows, window_count};

fn record(id: &str, seq: &[u8]) -> SequenceRecord {
    SequenceRecord { id: id.as_bytes().to_vec(), seq: seq.to_vec() }
}

fn sorted_entries(table: &CountTable) -> Vec<(Vec<u8>, usize)> {
    let mut e = table.entries();
    e.sort();
    e
}

#[test]
fn acgt_pairs_count_ac_twice() {
    let windows = kmer_windows(b"ACGT", 2).unwrap();
    assert_eq!(windows, vec![b"AC".to_vec(), b"CG".to_vec(), b"GT".to_vec()]);
    let rcs: Vec<Vec<u8>> = windows.iter().map(|w| reverse_complement(w)).collect();
    assert_eq!(rcs, vec![b"GT".to_vec(), b"CG".to_vec(), b"AC".to_vec()]);

    let ac = canonicalize(b"AC");
    assert_eq!(ac.kmer, b"AC".to_vec());
    assert!(ac.forward);
    let cg = canonicalize(b"CG");
    assert_eq!(cg.kmer, b"CG".to_vec());
    assert!(cg.forward);
    let gt = canonicalize(b"GT");
    assert_eq!(gt.kmer, b"AC".to_vec());
    assert!(!gt.forward);

    let table = count_kmers(&vec![record("r1", b"ACGT")], 2, OnInvalid::Abort).unwrap();
    assert_eq!(sorted_entries(&table), vec![(b"AC".to_vec(), 2), (b"CG".to_vec(), 1)]);
}

#[test]
fn empty_read_leaves_table_unchanged() {
    assert_eq!(kmer_windows(b"", 3).unwrap().len(), 0);
    let mut table = CountTable::new();
    table.add_sequence(b"ACGTA", 3).unwrap();
    let before = sorted_entries(&table);
    table.add_sequence(b"", 3).unwrap();
    assert_eq!(sorted_entries(&table), before);
    assert_eq!(table.total(), 3);
}

#[test]
fn poly_a_and_poly_t_share_one_key() {
    let recs = vec![record("a", b"AAAA"), record("t", b"TTTT")];
    let table = count_kmers(&recs, 4, OnInvalid::Abort).unwrap();
    assert_eq!(sorted_entries(&table), vec![(b"AAAA".to_vec(), 2)]);
}

#[test]
fn window_count_formula() {
    assert_eq!(window_count(10, 3), Ok(8));
    assert_eq!(window_count(3, 3), Ok(1));
    assert_eq!(window_count(2, 3), Ok(0));
    assert_eq!(window_count(0, 1), Ok(0));
    assert_eq!(window_count(5, 0), Err(KmerError::InvalidKmerSize));
    assert_eq!(kmer_windows(b"ACGTACGTAC", 3).unwrap().len(), 8);
    assert_eq!(kmer_windows(b"AC", 3).unwrap().len(), 0);
    assert_eq!(kmer_windows(b"ACGT", 0), Err(KmerError::InvalidKmerSize));
}

#[test]
fn windows_keep_ambiguity_codes() {
    let windows = kmer_windows(b"AGNCT", 2).unwrap();
    assert_eq!(windows, vec![b"AG".to_vec(), b"GN".to_vec(), b"NC".to_vec(), b"CT".to_vec()]);
}

#[test]
fn canonical_of_reverse_complement_is_the_same() {
    for kmer in [&b"GGTAC"[..], b"TTTGA", b"ACGTT", b"CATG", b"A", b"NRYAC"] {
        let rc = reverse_complement(kmer);
        assert_eq!(canonicalize(&rc).kmer, canonicalize(kmer).kmer);
    }
}

#[test]
fn palindromes_are_their_own_canonical_form() {
    for kmer in [&b"ACGT"[..], b"CG", b"GAATTC", b""] {
        assert_eq!(reverse_complement(kmer), kmer.to_vec());
        let c = canonicalize(kmer);
        assert_eq!(c.kmer, kmer.to_vec());
        assert!(c.forward);
    }
}

#[test]
fn split_stream_counts_sum_to_whole() {
    let a = vec![record("1", b"ACGTTGCA"), record("2", b"GGGCCC")];
    let b = vec![record("3", b"TTACGA"), record("4", b"acgtac")];
    let whole: Vec<SequenceRecord> =
        a.iter().chain(b.iter()).map(|r| record("x", &r.seq)).collect();
    let ta = count_kmers(&a, 3, OnInvalid::Abort).unwrap();
    let tb = count_kmers(&b, 3, OnInvalid::Abort).unwrap();
    let tw = count_kmers(&whole, 3, OnInvalid::Abort).unwrap();
    let mut keys: Vec<Vec<u8>> = sorted_entries(&tw).into_iter().map(|e| e.0).collect();
    keys.extend(ta.entries().into_iter().map(|e| e.0));
    keys.extend(tb.entries().into_iter().map(|e| e.0));
    for key in &keys {
        assert_eq!(tw.get(key), ta.get(key) + tb.get(key));
    }
    assert_eq!(tw.total(), ta.total() + tb.total());
    assert_eq!(tw.total(), 6 + 4 + 4 + 4);
}

#[test]
fn counting_twice_gives_same_table() {
    let recs = vec![record("1", b"ACGTTGCAAC"), record("2", b"GATTACA"), record("3", b"CCCGGG")];
    let t1 = count_kmers(&recs, 4, OnInvalid::Abort).unwrap();
    let t2 = count_kmers(&recs, 4, OnInvalid::Abort).unwrap();
    assert_eq!(sorted_entries(&t1), sorted_entries(&t2));
    assert_eq!(t1.distinct(), t2.distinct());
}

#[test]
fn normalize_uppercases_and_keeps_others() {
    assert_eq!(normalize(b"acgTnRx-"), Ok(b"ACGTNRX-".to_vec()));
    assert_eq!(normalize(b""), Ok(Vec::new()));
    assert_eq!(normalize(&[b'A', 0xff, b'C']), Err(KmerError::InvalidEncoding));
}

#[test]
fn reverse_complement_maps_each_base() {
    assert_eq!(reverse_complement(b"AACC"), b"GGTT".to_vec());
    assert_eq!(reverse_complement(b"ACGTN"), b"NACGT".to_vec());
    assert_eq!(reverse_complement(b"RYKMBVDH"), b"DHBVKMRY".to_vec());
    assert_eq!(reverse_complement(b"acgt"), b"acgt".to_vec());
}

#[test]
fn lowercase_reads_count_like_uppercase() {
    let t1 = count_kmers(&vec![record("1", b"gattaca")], 3, OnInvalid::Abort).unwrap();
    let t2 = count_kmers(&vec![record("1", b"GATTACA")], 3, OnInvalid::Abort).unwrap();
    assert_eq!(sorted_entries(&t1), sorted_entries(&t2));
    assert_eq!(t1.get(b"AAT"), 1);
    assert_eq!(t1.get(b"ATC"), 1);
    assert_eq!(t1.get(b"ATT"), 0);
    assert_eq!(t1.get(b"GAT"), 0);
}

#[test]
fn zero_kmer_size_is_rejected() {
    let recs = vec![record("1", b"ACGT")];
    assert!(matches!(count_kmers(&recs, 0, OnInvalid::Abort), Err(KmerError::InvalidKmerSize)));
    let mut table = CountTable::new();
    assert_eq!(table.add_sequence(b"ACGT", 0), Err(KmerError::InvalidKmerSize));
    assert_eq!(table.total(), 0);
}

#[test]
fn invalid_record_aborts_with_its_id() {
    let recs = vec![record("good", b"ACGT"), record("bad", &[b'A', 0xc3, b'G']), record("bad2", &[0xff])];
    match count_kmers(&recs, 2, OnInvalid::Abort) {
        Err(KmerError::InvalidRecord(id)) => assert_eq!(id, b"bad".to_vec()),
        _ => panic!("expected an invalid record"),
    }
}

#[test]
fn invalid_record_is_skipped_on_request() {
    let recs = vec![record("good", b"ACGT"), record("bad", &[0xff, b'A', b'C']), record("more", b"GT")];
    let table = count_kmers(&recs, 2, OnInvalid::Skip).unwrap();
    assert_eq!(sorted_entries(&table), vec![(b"AC".to_vec(), 3), (b"CG".to_vec(), 1)]);
}

#[test]
fn invalid_sequence_leaves_table_unchanged() {
    let mut table = CountTable::new();
    table.add_sequence(b"ACGT", 2).unwrap();
    assert_eq!(table.add_sequence(&[0xfe, b'A'], 2), Err(KmerError::InvalidEncoding));
    assert_eq!(sorted_entries(&table), vec![(b"AC".to_vec(), 2), (b"CG".to_vec(), 1)]);
}

#[test]
fn accumulate_inserts_then_increments() {
    let mut table = CountTable::new();
    let c = canonicalize(b"TTG");
    assert_eq!(c.kmer, b"CAA".to_vec());
    table.accumulate(&c);
    table.accumulate(&c);
    table.accumulate(&canonicalize(b"CAA"));
    assert_eq!(table.get(b"CAA"), 3);
    assert_eq!(table.get(b"TTG"), 0);
    assert_eq!(table.distinct(), 1);
    assert_eq!(table.total(), 3);
}

#[test]
fn interleaved_split_counts_sum_to_whole() {
    let reads: Vec<&[u8]> = vec![b"ACGTTG", b"GGATCC", b"TTTTAA", b"CAGCAG", b"GTAC"];
    let to_first = [true, false, false, true, false];
    let whole: Vec<SequenceRecord> = reads.iter().map(|r| record("w", r)).collect();
    let a: Vec<SequenceRecord> =
        reads.iter().zip(to_first.iter()).filter(|p| *p.1).map(|p| record("a", p.0)).collect();
    let b: Vec<SequenceRecord> =
        reads.iter().zip(to_first.iter()).filter(|p| !*p.1).map(|p| record("b", p.0)).collect();
    let tw = count_kmers(&whole, 2, OnInvalid::Abort).unwrap();
    let ta = count_kmers(&a, 2, OnInvalid::Abort).unwrap();
    let tb = count_kmers(&b, 2, OnInvalid::Abort).unwrap();
    for (key, count) in tw.entries() {
        assert_eq!(count, ta.get(&key) + tb.get(&key));
    }
    assert_eq!(tw.distinct() <= ta.distinct() + tb.distinct(), true);
    assert_eq!(tw.total(), 5 + 5 + 5 + 5 + 3);
}
