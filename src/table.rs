//! The count table: canonical k-mers and how often each was seen.
use vstd::prelude::*;

verus! {

/// How often `x` occurs in a count mapping; zero when it is absent.
pub open spec fn count_in(m: Map<Seq<u8>, nat>, x: Seq<u8>) -> nat {
    if m.contains_key(x) {
        m[x]
    } else {
        0
    }
}

/// The mapping with one more occurrence of `x`.
pub open spec fn bump(m: Map<Seq<u8>, nat>, x: Seq<u8>) -> Map<Seq<u8>, nat> {
    m.insert(x, count_in(m, x) + 1)
}

/// A mapping from k-mers to occurrence counts, keys kept unique.
pub struct CountTable {
    keys: Vec<Vec<u8>>,
    counts: Vec<usize>,
    total: usize,
    model: Ghost<Map<Seq<u8>, nat>>,
}

impl View for CountTable {
    type V = Map<Seq<u8>, nat>;

    closed spec fn view(&self) -> Map<Seq<u8>, nat> {
        self.model@
    }
}

impl CountTable {
    /// The table's internal invariant: one entry per distinct key, each entry
    /// agreeing with the mapping, and no count above the running total.
    pub closed spec fn wf(&self) -> bool {
        &&& self.keys@.len() == self.counts@.len()
        &&& forall|i: int, j: int|
            0 <= i < j < self.keys@.len() ==> self.keys@[i]@ != self.keys@[j]@
        &&& forall|i: int|
            0 <= i < self.keys@.len() ==> self.model@.contains_key(#[trigger] self.keys@[i]@)
                && self.model@[self.keys@[i]@] == self.counts@[i] as nat
        &&& forall|x: Seq<u8>|
            #[trigger] self.model@.contains_key(x) ==> exists|i: int|
                0 <= i < self.keys@.len() && self.keys@[i]@ == x
        &&& forall|x: Seq<u8>| #[trigger] self.model@.contains_key(x) ==> self.model@[x] <= self.total
    }

    /// The number of k-mer occurrences added so far.
    pub closed spec fn total_spec(&self) -> nat {
        self.total as nat
    }

    /// An empty table.
    pub fn new() -> (r: CountTable)
        ensures
            r.wf(),
            r@ == Map::<Seq<u8>, nat>::empty(),
            r.total_spec() == 0,
    {
        CountTable { keys: Vec::new(), counts: Vec::new(), total: 0, model: Ghost(Map::empty()) }
    }

    /// The number of k-mer occurrences added so far.
    pub fn total(&self) -> (r: usize)
        ensures
            r == self.total_spec(),
    {
        self.total
    }

    /// The number of distinct k-mers in the table.
    pub fn distinct(&self) -> (r: usize)
        requires
            self.wf(),
        ensures
            r == self@.dom().len(),
            self@.dom().finite(),
    {
        proof {
            self.lemma_dom_is_keys();
        }
        self.keys.len()
    }

    proof fn lemma_dom_is_keys(&self)
        requires
            self.wf(),
        ensures
            self@.dom().finite(),
            self@.dom().len() == self.keys@.len(),
    {
        let ks = self.keys@.map_values(|v: Vec<u8>| v@);
        assert(self@.dom() =~= ks.to_set()) by {
            assert forall|x: Seq<u8>| self@.dom().contains(x) implies ks.to_set().contains(x) by {
                let i = choose|i: int| 0 <= i < self.keys@.len() && self.keys@[i]@ == x;
                assert(ks[i] == x);
            }
            assert forall|x: Seq<u8>| ks.to_set().contains(x) implies self@.dom().contains(x) by {
                let i = choose|i: int| 0 <= i < ks.len() && ks[i] == x;
                assert(self.model@.contains_key(self.keys@[i]@));
            }
        }
        assert(ks.no_duplicates());
        ks.unique_seq_to_set();
    }

    /// Whether `key` equals `src[start..start + len]`.
    fn key_matches(key: &Vec<u8>, src: &[u8], start: usize, len: usize) -> (r: bool)
        requires
            start + len <= src@.len(),
        ensures
            r == (key@ == src@.subrange(start as int, start + len)),
    {
        if key.len() != len {
            return false;
        }
        let mut j: usize = 0;
        while j < len
            invariant
                j <= len,
                key@.len() == len,
                start + len <= src.len(),
                key@.subrange(0, j as int) == src@.subrange(start as int, start + j),
            decreases len - j,
        {
            if key[j] != src[start + j] {
                assert(key@[j as int] != src@.subrange(start as int, start + len)[j as int]);
                return false;
            }
            j = j + 1;
            assert(key@.subrange(0, j as int) =~= src@.subrange(start as int, start + j));
        }
        assert(key@ =~= key@.subrange(0, len as int));
        true
    }

    /// The index of the entry whose key is `src[start..start + len]`, if any.
    fn find(&self, src: &[u8], start: usize, len: usize) -> (r: Option<usize>)
        requires
            self.wf(),
            start + len <= src@.len(),
        ensures
            match r {
                Some(i) => i < self.keys@.len() && self.keys@[i as int]@ == src@.subrange(
                    start as int,
                    start + len,
                ),
                None => !self@.contains_key(src@.subrange(start as int, start + len)),
            },
    {
        let mut i: usize = 0;
        while i < self.keys.len()
            invariant
                self.wf(),
                start + len <= src@.len(),
                i <= self.keys@.len(),
                forall|j: int| 0 <= j < i ==> self.keys@[j]@ != src@.subrange(start as int, start + len),
            decreases self.keys@.len() - i,
        {
            if Self::key_matches(&self.keys[i], src, start, len) {
                return Some(i);
            }
            i = i + 1;
        }
        None
    }

    /// Adds one occurrence of the k-mer `src[start..start + len]`, inserting it
    /// with count one when it is new.
    pub fn add_at(&mut self, src: &[u8], start: usize, len: usize)
        requires
            old(self).wf(),
            start + len <= src@.len(),
            old(self).total_spec() < usize::MAX,
        ensures
            final(self).wf(),
            final(self)@ == bump(old(self)@, src@.subrange(start as int, start + len)),
            final(self).total_spec() == old(self).total_spec() + 1,
    {
        let ghost x = src@.subrange(start as int, start + len);
        match self.find(src, start, len) {
            Some(i) => {
                let c = self.counts[i];
                self.counts.set(i, c + 1);
                self.model = Ghost(bump(self.model@, x));
                self.total = self.total + 1;
                assert forall|y: Seq<u8>| #[trigger] self.model@.contains_key(y) implies exists|j: int|
                    0 <= j < self.keys@.len() && self.keys@[j]@ == y by {
                    if y != x {
                        assert(old(self).model@.contains_key(y));
                    } else {
                        assert(self.keys@[i as int]@ == y);
                    }
                }
            },
            None => {
                let mut key: Vec<u8> = Vec::with_capacity(len);
                let mut j: usize = 0;
                while j < len
                    invariant
                        j <= len,
                        start + len <= src.len(),
                        key@ == src@.subrange(start as int, start + j),
                    decreases len - j,
                {
                    key.push(src[start + j]);
                    j = j + 1;
                    assert(key@ =~= src@.subrange(start as int, start + j));
                }
                let ghost n = self.keys@.len();
                self.keys.push(key);
                self.counts.push(1);
                self.model = Ghost(bump(self.model@, x));
                self.total = self.total + 1;
                assert(self.keys@[n as int]@ == x);
                assert forall|y: Seq<u8>| #[trigger] self.model@.contains_key(y) implies exists|j: int|
                    0 <= j < self.keys@.len() && self.keys@[j]@ == y by {
                    if y != x {
                        assert(old(self).model@.contains_key(y));
                        let j = choose|j: int| 0 <= j < old(self).keys@.len() && old(self).keys@[j]@ == y;
                        assert(self.keys@[j]@ == y);
                    }
                }
            },
        }
    }

    /// How often `kmer` was counted; zero when it never was.
    pub fn get(&self, kmer: &[u8]) -> (r: usize)
        requires
            self.wf(),
        ensures
            r == count_in(self@, kmer@),
    {
        assert(kmer@.subrange(0, kmer@.len() as int) =~= kmer@);
        match self.find(kmer, 0, kmer.len()) {
            Some(i) => self.counts[i],
            None => 0,
        }
    }

    /// Every key of the table with its count, each key once, in no promised order.
    pub fn entries(&self) -> (r: Vec<(Vec<u8>, usize)>)
        requires
            self.wf(),
        ensures
            forall|i: int| 0 <= i < r@.len() ==> #[trigger] self@.contains_key(r@[i].0@)
                && self@[r@[i].0@] == r@[i].1 as nat,
            forall|x: Seq<u8>| #[trigger] self@.contains_key(x) ==> exists|i: int|
                0 <= i < r@.len() && r@[i].0@ == x,
            forall|i: int, j: int| 0 <= i < j < r@.len() ==> r@[i].0@ != r@[j].0@,
    {
        let mut out: Vec<(Vec<u8>, usize)> = Vec::new();
        let mut i: usize = 0;
        while i < self.keys.len()
            invariant
                self.wf(),
                i <= self.keys@.len(),
                out@.len() == i,
                forall|j: int| 0 <= j < i ==> (#[trigger] out@[j]).0@ == self.keys@[j]@
                    && out@[j].1 == self.counts@[j],
            decreases self.keys@.len() - i,
        {
            let key = self.keys[i].clone();
            out.push((key, self.counts[i]));
            i = i + 1;
        }
        assert forall|x: Seq<u8>| #[trigger] self@.contains_key(x) implies exists|i: int|
            0 <= i < out@.len() && out@[i].0@ == x by {
            let i = choose|i: int| 0 <= i < self.keys@.len() && self.keys@[i]@ == x;
            assert(out@[i].0@ == x);
        }
        out
    }
}

} // verus!
