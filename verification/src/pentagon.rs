//! The pentagon: long-term memory of labelled vectors. Storing under a label
//! replaces what that label held; lookups go by label.

use vstd::prelude::*;
use crate::hypervector::{mismatch_count, Hypervector};
use crate::text::str_eq;

verus! {

/// Labelled vectors, each label at most once.
pub struct PentagonStorage {
    pub dim: usize,
    pub memory_bank: Vec<(String, Hypervector)>,
}

/// No label occurs twice.
pub open spec fn labels_distinct(bank: Seq<(String, Hypervector)>) -> bool {
    forall|i: int, j: int| 0 <= i < j < bank.len() ==> (#[trigger] bank[i]).0@ != (#[trigger] bank[j]).0@
}

/// The bank as a map from label to vector.
pub open spec fn bank_map(bank: Seq<(String, Hypervector)>) -> Map<Seq<char>, (usize, Seq<u64>)>
    decreases bank.len(),
{
    if bank.len() == 0 {
        Map::empty()
    } else {
        bank_map(bank.drop_last()).insert(bank.last().0@, bank.last().1@)
    }
}

proof fn lemma_bank_map_dom(bank: Seq<(String, Hypervector)>, l: Seq<char>)
    ensures
        bank_map(bank).dom().contains(l) <==> exists|i: int| 0 <= i < bank.len() && (#[trigger] bank[i]).0@ == l,
    decreases bank.len(),
{
    if bank.len() > 0 {
        lemma_bank_map_dom(bank.drop_last(), l);
        if bank_map(bank.drop_last()).dom().contains(l) {
            let i = choose|i: int| 0 <= i < bank.drop_last().len() && (#[trigger] bank.drop_last()[i]).0@ == l;
            assert(bank[i] == bank.drop_last()[i]);
        }
        if exists|i: int| 0 <= i < bank.len() && (#[trigger] bank[i]).0@ == l {
            let i = choose|i: int| 0 <= i < bank.len() && (#[trigger] bank[i]).0@ == l;
            if i < bank.len() - 1 {
                assert(bank.drop_last()[i] == bank[i]);
            }
        }
    }
}

proof fn lemma_bank_map_at(bank: Seq<(String, Hypervector)>, i: int)
    requires
        labels_distinct(bank),
        0 <= i < bank.len(),
    ensures
        bank_map(bank).dom().contains(bank[i].0@),
        bank_map(bank)[bank[i].0@] == bank[i].1@,
    decreases bank.len(),
{
    if i < bank.len() - 1 {
        lemma_bank_map_at(bank.drop_last(), i);
        assert(bank.drop_last()[i] == bank[i]);
    }
}

proof fn lemma_bank_map_len(bank: Seq<(String, Hypervector)>)
    requires
        labels_distinct(bank),
    ensures
        bank_map(bank).dom().finite(),
        bank_map(bank).dom().len() == bank.len(),
    decreases bank.len(),
{
    if bank.len() > 0 {
        let pre = bank.drop_last();
        assert(labels_distinct(pre)) by {
            assert forall|i: int, j: int| 0 <= i < j < pre.len() implies (#[trigger] pre[i]).0@ != (#[trigger] pre[j]).0@ by {
                assert(pre[i] == bank[i] && pre[j] == bank[j]);
            }
        }
        lemma_bank_map_len(pre);
        lemma_bank_map_dom(pre, bank.last().0@);
        if bank_map(pre).dom().contains(bank.last().0@) {
            let i = choose|i: int| 0 <= i < pre.len() && (#[trigger] pre[i]).0@ == bank.last().0@;
            assert(pre[i] == bank[i]);
        }
    }
}

impl PentagonStorage {
    /// Labels are distinct.
    pub open spec fn wf(&self) -> bool {
        labels_distinct(self.memory_bank@)
    }

    /// The stored vectors by label.
    pub open spec fn contents(&self) -> Map<Seq<char>, (usize, Seq<u64>)> {
        bank_map(self.memory_bank@)
    }

    /// An empty pentagon for vectors of dimension `dim`.
    pub fn new(dim: usize) -> (p: Self)
        ensures
            p.wf(),
            p.dim == dim,
            p.contents() == Map::<Seq<char>, (usize, Seq<u64>)>::empty(),
    {
        PentagonStorage { dim, memory_bank: Vec::new() }
    }

    fn position(&self, label: &str) -> (r: Option<usize>)
        requires
            self.wf(),
        ensures
            match r {
                Some(i) => i < self.memory_bank@.len() && self.memory_bank@[i as int].0@ == label@,
                None => forall|i: int| 0 <= i < self.memory_bank@.len() ==> (#[trigger] self.memory_bank@[i]).0@ != label@,
            },
    {
        let mut i: usize = 0;
        while i < self.memory_bank.len()
            invariant
                i <= self.memory_bank@.len(),
                forall|j: int| 0 <= j < i ==> (#[trigger] self.memory_bank@[j]).0@ != label@,
            decreases self.memory_bank@.len() - i,
        {
            if str_eq(self.memory_bank[i].0.as_str(), label) {
                return Some(i);
            }
            i = i + 1;
        }
        None
    }

    /// Stores `hv` under `label`, replacing what the label held.
    pub fn store(&mut self, label: &str, hv: Hypervector)
        requires
            old(self).wf(),
        ensures
            final(self).wf(),
            final(self).dim == old(self).dim,
            final(self).contents() == old(self).contents().insert(label@, hv@),
    {
        let ghost before = self.memory_bank@;
        let ghost v = hv@;
        match self.position(label) {
            Some(i) => {
                let name = self.memory_bank[i].0.clone();
                self.memory_bank.set(i, (name, hv));
                proof {
                    let after = self.memory_bank@;
                    assert forall|a: int, b: int| 0 <= a < b < after.len() implies (#[trigger] after[a]).0@ != (#[trigger] after[b]).0@ by {
                        assert(after[a].0@ == before[a].0@);
                        assert(after[b].0@ == before[b].0@);
                    }
                    assert forall|l: Seq<char>| #[trigger] bank_map(after).dom().contains(l) == old(self).contents().insert(label@, v).dom().contains(l) by {
                        lemma_bank_map_dom(after, l);
                        lemma_bank_map_dom(before, l);
                        if exists|k: int| 0 <= k < after.len() && (#[trigger] after[k]).0@ == l {
                            let k = choose|k: int| 0 <= k < after.len() && (#[trigger] after[k]).0@ == l;
                            assert(after[k].0@ == before[k].0@);
                        }
                        if exists|k: int| 0 <= k < before.len() && (#[trigger] before[k]).0@ == l {
                            let k = choose|k: int| 0 <= k < before.len() && (#[trigger] before[k]).0@ == l;
                            assert(after[k].0@ == before[k].0@);
                        }
                    }
                    assert forall|l: Seq<char>| #[trigger] bank_map(after).dom().contains(l) implies bank_map(after)[l]
                        == old(self).contents().insert(label@, v)[l] by {
                        lemma_bank_map_dom(after, l);
                        let k = choose|k: int| 0 <= k < after.len() && (#[trigger] after[k]).0@ == l;
                        lemma_bank_map_at(after, k);
                        if k != i {
                            assert(after[k] == before[k]);
                            lemma_bank_map_at(before, k);
                        }
                    }
                    assert(bank_map(after) =~= old(self).contents().insert(label@, v));
                }
            },
            None => {
                let name = String::from_str(label);
                self.memory_bank.push((name, hv));
                proof {
                    let after = self.memory_bank@;
                    assert(after.drop_last() =~= before);
                    assert forall|a: int, b: int| 0 <= a < b < after.len() implies (#[trigger] after[a]).0@ != (#[trigger] after[b]).0@ by {
                        if b < after.len() - 1 {
                            assert(after[a] == before[a] && after[b] == before[b]);
                        } else {
                            assert(after[a] == before[a]);
                        }
                    }
                }
            },
        }
    }

    /// The vector stored under `label`, if any.
    pub fn get(&self, label: &str) -> (r: Option<&Hypervector>)
        requires
            self.wf(),
        ensures
            match r {
                Some(hv) => self.contents().dom().contains(label@) && hv@ == self.contents()[label@],
                None => !self.contents().dom().contains(label@),
            },
    {
        proof {
            lemma_bank_map_dom(self.memory_bank@, label@);
        }
        match self.position(label) {
            Some(i) => {
                proof {
                    lemma_bank_map_at(self.memory_bank@, i as int);
                }
                Some(&self.memory_bank[i].1)
            },
            None => None,
        }
    }

    /// The first stored entry whose vector differs from `query` in the fewest
    /// bits, with that count; `None` when nothing is stored. The most similar
    /// concept is the one with the fewest differing bits.
    pub fn closest(&self, query: &Hypervector) -> (r: Option<(usize, u64)>)
        requires
            query.dim <= usize::MAX - 63,
            forall|i: int| 0 <= i < self.memory_bank@.len() ==> (#[trigger] self.memory_bank@[i]).1.dim <= usize::MAX - 63,
        ensures
            self.memory_bank@.len() == 0 <==> r is None,
            r matches Some((i, m)) ==> {
                &&& i < self.memory_bank@.len()
                &&& m == mismatch_count(*query, self.memory_bank@[i as int].1)
                &&& forall|j: int| 0 <= j < self.memory_bank@.len() ==> m <= mismatch_count(
                    *query,
                    #[trigger] self.memory_bank@[j].1,
                )
                &&& forall|j: int| 0 <= j < i ==> m < mismatch_count(*query, #[trigger] self.memory_bank@[j].1)
            },
    {
        if self.memory_bank.len() == 0 {
            return None;
        }
        let mut best: usize = 0;
        let mut best_m: u64 = query.hamming_mismatches(&self.memory_bank[0].1);
        let mut i: usize = 1;
        while i < self.memory_bank.len()
            invariant
                1 <= i <= self.memory_bank@.len(),
                best < i,
                query.dim <= usize::MAX - 63,
                forall|k: int| 0 <= k < self.memory_bank@.len() ==> (#[trigger] self.memory_bank@[k]).1.dim <= usize::MAX - 63,
                best_m == mismatch_count(*query, self.memory_bank@[best as int].1),
                forall|j: int| 0 <= j < i ==> best_m <= mismatch_count(*query, #[trigger] self.memory_bank@[j].1),
                forall|j: int| 0 <= j < best ==> best_m < mismatch_count(*query, #[trigger] self.memory_bank@[j].1),
            decreases self.memory_bank@.len() - i,
        {
            let m = query.hamming_mismatches(&self.memory_bank[i].1);
            if m < best_m {
                best = i;
                best_m = m;
            }
            i = i + 1;
        }
        Some((best, best_m))
    }

    /// Number of labels stored.
    pub fn size(&self) -> (n: usize)
        requires
            self.wf(),
        ensures
            n == self.contents().dom().len(),
    {
        proof {
            lemma_bank_map_len(self.memory_bank@);
        }
        self.memory_bank.len()
    }
}

/// A read after a write gives back what was written, and leaves other
/// labels as they were.
pub proof fn law_store_then_get(
    contents: Map<Seq<char>, (usize, Seq<u64>)>,
    label: Seq<char>,
    hv: (usize, Seq<u64>),
    other: Seq<char>,
)
    ensures
        contents.insert(label, hv).dom().contains(label),
        contents.insert(label, hv)[label] == hv,
        other != label ==> contents.insert(label, hv).dom().contains(other) == contents.dom().contains(other),
        other != label && contents.dom().contains(other) ==> contents.insert(label, hv)[other] == contents[other],
{
}

} // verus!
