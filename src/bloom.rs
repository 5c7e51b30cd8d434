//! The ancestor filter: a counting bloom filter kept in step with the chain of
//! ancestors of the element being matched.
use vstd::prelude::*;
use vstd::multiset::Multiset;
use crate::document::Document;
use crate::selector::{concat_all, fingerprints_of, EngineAnswers};
use selectors::bloom::BloomFilter;

verus! {

broadcast use vstd::seq_lib::group_seq_properties;

/// A counting bloom filter of selectors, with 8-bit counters. Verus cannot take
/// the declaration of `CountingBloomFilter`, whose bound names a trait of
/// selectors, so the filter is held here out of Verus's sight.
#[verifier::external_body]
pub struct CountingFilter {
    inner: BloomFilter,
}

/// The hashes that a counting bloom filter holds, each as often as it was
/// inserted and not yet removed.
pub uninterp spec fn bloom_contents(f: CountingFilter) -> Multiset<u32>;

/// Relies on `CountingBloomFilter::new` of selectors: a new filter holds nothing.
#[verifier::external_body]
fn bloom_new() -> (r: CountingFilter)
    ensures
        bloom_contents(r) == Multiset::<u32>::empty(),
{
    CountingFilter { inner: BloomFilter::new() }
}

/// Relies on `CountingBloomFilter::insert_hash` of selectors: the hash is added once
/// (a saturated counter stays saturated, so nothing is lost).
#[verifier::external_body]
fn bloom_insert(f: &mut CountingFilter, hash: u32)
    ensures
        bloom_contents(*final(f)) == bloom_contents(*old(f)).insert(hash),
{
    f.inner.insert_hash(hash)
}

/// Relies on `CountingBloomFilter::remove_hash` of selectors: one copy of a hash that
/// the filter holds is taken out. Removing a hash it does not hold could underflow a
/// counter, so that is excluded.
#[verifier::external_body]
fn bloom_remove(f: &mut CountingFilter, hash: u32)
    requires
        bloom_contents(*old(f)).contains(hash),
    ensures
        bloom_contents(*final(f)) == bloom_contents(*old(f)).remove(hash),
{
    f.inner.remove_hash(hash)
}

/// Relies on `CountingBloomFilter::might_contain_hash` of selectors: it never answers
/// false for a hash that the filter holds (it may answer true for one it does not).
#[verifier::external_body]
fn bloom_might_contain(f: &CountingFilter, hash: u32) -> (r: bool)
    ensures
        bloom_contents(*f).contains(hash) ==> r,
{
    f.inner.might_contain_hash(hash)
}

/// The filter, with the stack of elements whose fingerprints it holds: each
/// entry is an element and the fingerprints that it added.
pub struct AncestorFilter {
    pub filter: CountingFilter,
    pub pushed: Vec<(usize, Vec<u32>)>,
}

/// The fingerprints held for the entries of a stack, one entry after another.
pub open spec fn stack_hashes(pushed: Seq<(usize, Vec<u32>)>) -> Seq<u32> {
    concat_all(pushed.map_values(|p: (usize, Vec<u32>)| p.1@))
}

/// The elements of a stack, outermost first.
pub open spec fn stack_elements(pushed: Seq<(usize, Vec<u32>)>) -> Seq<usize> {
    pushed.map_values(|p: (usize, Vec<u32>)| p.0)
}

proof fn lemma_stack_push(pushed: Seq<(usize, Vec<u32>)>, e: (usize, Vec<u32>))
    ensures
        stack_hashes(pushed.push(e)) == stack_hashes(pushed) + e.1@,
        stack_elements(pushed.push(e)) == stack_elements(pushed).push(e.0),
{
    let m = pushed.push(e).map_values(|p: (usize, Vec<u32>)| p.1@);
    assert(m.drop_last() =~= pushed.map_values(|p: (usize, Vec<u32>)| p.1@));
    assert(stack_elements(pushed.push(e)) =~= stack_elements(pushed).push(e.0));
}

impl AncestorFilter {
    /// The filter holds exactly the fingerprints of the stack's entries.
    pub open spec fn wf(&self) -> bool {
        bloom_contents(self.filter) == stack_hashes(self.pushed@).to_multiset()
    }

    /// Every entry holds the fingerprints that `answers` gives its element.
    pub open spec fn agrees(&self, answers: &EngineAnswers) -> bool {
        forall|k: int|
            0 <= k < self.pushed@.len() ==> (#[trigger] self.pushed@[k]).0 < answers.fingerprints@.len()
                && self.pushed@[k].1@ == answers.fingerprints@[self.pushed@[k].0 as int]@
    }

    /// The fingerprints that the filter holds.
    pub open spec fn contents(&self) -> Multiset<u32> {
        bloom_contents(self.filter)
    }

    /// Creates an empty filter.
    pub fn new() -> (r: AncestorFilter)
        ensures
            r.wf(),
            r.pushed@.len() == 0,
    {
        let r = AncestorFilter { filter: bloom_new(), pushed: Vec::new() };
        proof {
            assert(stack_hashes(r.pushed@) =~= Seq::<u32>::empty());
            let m = Seq::<u32>::empty().to_multiset();
            assert(m.len() == 0);
            vstd::multiset::lemma_multiset_empty_len(m);
            assert(m =~= Multiset::<u32>::empty());
        }
        r
    }

    /// Enters element `e`, adding its fingerprints.
    fn push(&mut self, e: usize, hashes: Vec<u32>)
        requires
            old(self).wf(),
        ensures
            final(self).wf(),
            final(self).pushed@ == old(self).pushed@.push((e, hashes)),
    {
        let ghost base = stack_hashes(self.pushed@);
        let mut k: usize = 0;
        while k < hashes.len()
            invariant
                k <= hashes@.len(),
                self.pushed@ == old(self).pushed@,
                base == stack_hashes(old(self).pushed@),
                bloom_contents(self.filter) == (base + hashes@.take(k as int)).to_multiset(),
            decreases hashes@.len() - k,
        {
            proof {
                assert(base + hashes@.take(k + 1) =~= (base + hashes@.take(k as int)).push(hashes@[k as int]));
            }
            bloom_insert(&mut self.filter, hashes[k]);
            k = k + 1;
        }
        proof {
            assert(hashes@.take(k as int) =~= hashes@);
            lemma_stack_push(self.pushed@, (e, hashes));
        }
        self.pushed.push((e, hashes));
    }

    /// Leaves the innermost element, taking its fingerprints out.
    fn pop(&mut self)
        requires
            old(self).wf(),
            old(self).pushed@.len() > 0,
        ensures
            final(self).wf(),
            final(self).pushed@ == old(self).pushed@.drop_last(),
    {
        let top = self.pushed.pop().unwrap();
        let hashes = top.1;
        let ghost base = stack_hashes(self.pushed@);
        proof {
            assert(old(self).pushed@ =~= self.pushed@.push(top));
            assert(self.pushed@ =~= old(self).pushed@.drop_last());
            lemma_stack_push(self.pushed@, top);
            assert(hashes@.take(hashes@.len() as int) =~= hashes@);
        }
        let mut k: usize = hashes.len();
        while k > 0
            invariant
                k <= hashes@.len(),
                self.pushed@ == old(self).pushed@.drop_last(),
                base == stack_hashes(self.pushed@),
                bloom_contents(self.filter) == (base + hashes@.take(k as int)).to_multiset(),
            decreases k,
        {
            proof {
                assert(base + hashes@.take(k as int) =~= (base + hashes@.take(k - 1)).push(hashes@[k - 1]));
                assert((base + hashes@.take(k - 1)).push(hashes@[k - 1]).to_multiset().remove(hashes@[k - 1])
                    =~= (base + hashes@.take(k - 1)).to_multiset());
            }
            bloom_remove(&mut self.filter, hashes[k - 1]);
            k = k - 1;
        }
        proof {
            assert(base + hashes@.take(0) =~= base);
        }
    }

    /// Brings the filter in step with element `e`, at depth `depth`: afterwards it
    /// holds exactly the fingerprints of `e`'s element ancestors. Entries for
    /// ancestors shared with the previous element stay; the others are removed,
    /// and the newly entered ancestors are added.
    pub fn insert_parents_recovering(
        &mut self,
        doc: &Document,
        answers: &EngineAnswers,
        e: usize,
        depth: usize,
    )
        requires
            old(self).wf(),
            old(self).agrees(answers),
            doc.wf(),
            e < doc.nodes@.len(),
            answers.fingerprints@.len() == doc.nodes@.len(),
            depth == doc.depth(e as int),
        ensures
            final(self).wf(),
            final(self).agrees(answers),
            stack_elements(final(self).pushed@) == doc.element_ancestors(e as int),
            final(self).contents() == fingerprints_of(answers, doc.element_ancestors(e as int)).to_multiset(),
    {
        let chain = doc.element_ancestors_of(e);
        while self.pushed.len() > depth
            invariant
                self.wf(),
                self.agrees(answers),
            decreases self.pushed@.len(),
        {
            self.pop();
        }
        let mut k: usize = 0;
        while k < self.pushed.len() && k < chain.len() && self.pushed[k].0 == chain[k]
            invariant
                self.wf(),
                self.agrees(answers),
                k <= self.pushed@.len(),
                k <= chain@.len(),
                forall|j: int| 0 <= j < k ==> (#[trigger] self.pushed@[j]).0 == chain@[j],
            decreases self.pushed@.len() - k,
        {
            k = k + 1;
        }
        while self.pushed.len() > k
            invariant
                self.wf(),
                self.agrees(answers),
                k <= self.pushed@.len(),
                k <= chain@.len(),
                forall|j: int| 0 <= j < k ==> (#[trigger] self.pushed@[j]).0 == chain@[j],
            decreases self.pushed@.len(),
        {
            self.pop();
        }
        while k < chain.len()
            invariant
                self.wf(),
                self.agrees(answers),
                doc.wf(),
                chain@ == doc.element_ancestors(e as int),
                answers.fingerprints@.len() == doc.nodes@.len(),
                k <= chain@.len(),
                self.pushed@.len() == k,
                forall|j: int| 0 <= j < k ==> (#[trigger] self.pushed@[j]).0 == chain@[j],
            decreases chain@.len() - k,
        {
            let a = chain[k];
            proof {
                lemma_ancestors_in_range(doc, e as int);
            }
            let hashes = answers.fingerprints[a].clone();
            assert(hashes@ =~= answers.fingerprints@[a as int]@);
            self.push(a, hashes);
            k = k + 1;
        }
        proof {
            let p = self.pushed@;
            assert(stack_elements(p) =~= chain@);
            assert(p.map_values(|q: (usize, Vec<u32>)| q.1@) =~= chain@.map_values(
                |a: usize| answers.fingerprints@[a as int]@,
            ));
        }
    }

    /// The fast-reject test: false only if some hash in `hashes` is certainly
    /// absent. It never rejects when every hash is held.
    pub fn might_contain_all(&self, hashes: &Vec<u32>) -> (r: bool)
        ensures
            (forall|h: u32| hashes@.contains(h) ==> self.contents().contains(h)) ==> r,
    {
        let mut k: usize = 0;
        while k < hashes.len()
            invariant
                k <= hashes@.len(),
            decreases hashes@.len() - k,
        {
            if !bloom_might_contain(&self.filter, hashes[k]) {
                assert(hashes@.contains(hashes@[k as int]));
                return false;
            }
            k = k + 1;
        }
        true
    }
}

/// Every element ancestor of a node is a node of the document.
pub proof fn lemma_ancestors_in_range(doc: &Document, i: int)
    requires
        doc.wf(),
    ensures
        forall|k: int|
            0 <= k < doc.element_ancestors(i).len() ==> #[trigger] doc.element_ancestors(i)[k]
                < doc.nodes@.len() && doc.is_element(doc.element_ancestors(i)[k] as int),
    decreases i,
{
    if 0 <= i < doc.parents@.len() {
        match doc.parents@[i] {
            Some(p) => if p < i {
                lemma_ancestors_in_range(doc, p as int);
                let up = doc.element_ancestors(p as int);
                if doc.is_element(p as int) {
                    assert(doc.element_ancestors(i) == up.push(p));
                    assert forall|k: int| 0 <= k < up.len() + 1 implies #[trigger] up.push(p)[k]
                        < doc.nodes@.len() && doc.is_element(up.push(p)[k] as int) by {
                        if k < up.len() {
                            assert(up.push(p)[k] == up[k]);
                        }
                    }
                } else {
                    assert(doc.element_ancestors(i) == up);
                }
            },
            None => {},
        }
    }
}

} // verus!
