//! An index of selectors by key, to narrow the candidates for an element.
use vstd::prelude::*;
use crate::node::Element;
use crate::selector::{RuleKey, SelectorInfo};

verus! {

/// Selectors filed in buckets, one bucket per key; each bucket holds selector
/// indices in increasing order.
#[derive(Clone, Debug)]
pub struct SelectorMap {
    pub buckets: Vec<(RuleKey, Vec<usize>)>,
}

impl SelectorMap {
    /// The map files exactly the selectors `0..selectors.len()`, each once, under its own key.
    pub open spec fn wf(&self, selectors: Seq<SelectorInfo>) -> bool {
        let b = self.buckets@;
        &&& forall|x: int, y: int|
            0 <= x < b.len() && 0 <= y < b.len() && x != y ==> #[trigger] b[x].0.spec_key()
                != #[trigger] b[y].0.spec_key()
        &&& forall|x: int| 0 <= x < b.len() ==> (#[trigger] b[x]).1@.no_duplicates()
        &&& forall|x: int, k: int|
            0 <= x < b.len() && 0 <= k < b[x].1@.len() ==> {
                let s = #[trigger] b[x].1@[k];
                s < selectors.len() && selectors[s as int].key.spec_key() == b[x].0.spec_key()
            }
        &&& forall|s: int|
            #![trigger selectors[s]]
            0 <= s < selectors.len() ==> exists|x: int|
                0 <= x < b.len() && (#[trigger] b[x]).1@.contains(s as usize)
                    && selectors[s].key.spec_key() == b[x].0.spec_key()
    }

    /// Returns the candidates for element `e`: every selector whose key `e` carries, each once.
    pub fn query(&self, selectors: &Vec<SelectorInfo>, e: &Element) -> (r: Vec<usize>)
        requires
            self.wf(selectors@),
        ensures
            r@.no_duplicates(),
            forall|s: usize|
                r@.contains(s) <==> s < selectors@.len() && selectors@[s as int].key.applies_to(*e),
    {
        let ghost b = self.buckets@;
        let mut out: Vec<usize> = Vec::new();
        let mut x: usize = 0;
        while x < self.buckets.len()
            invariant
                self.wf(selectors@),
                b == self.buckets@,
                x <= b.len(),
                out@.no_duplicates(),
                forall|s: usize|
                    out@.contains(s) ==> s < selectors@.len() && exists|y: int|
                        0 <= y < x && (#[trigger] b[y]).1@.contains(s) && b[y].0.applies_to(*e),
                forall|y: int, s: usize|
                    0 <= y < x && b[y].0.applies_to(*e) && #[trigger] b[y].1@.contains(s)
                        ==> out@.contains(s),
            decreases b.len() - x,
        {
            if self.buckets[x].0.applies(e) {
                let list = &self.buckets[x].1;
                let ghost before = out@;
                let mut k: usize = 0;
                while k < list.len()
                    invariant
                        self.wf(selectors@),
                        b == self.buckets@,
                        x < b.len(),
                        *list == b[x as int].1,
                        b[x as int].0.applies_to(*e),
                        k <= list@.len(),
                        out@ == before + list@.take(k as int),
                        before.no_duplicates(),
                        forall|s: usize|
                            before.contains(s) ==> s < selectors@.len() && exists|y: int|
                                0 <= y < x && (#[trigger] b[y]).1@.contains(s) && b[y].0.applies_to(
                                    *e,
                                ),
                        out@.no_duplicates(),
                    decreases list@.len() - k,
                {
                    let s = list[k];
                    proof {
                        assert(b[x as int].1@.contains(s));
                        if before.contains(s) {
                            let y = choose|y: int|
                                0 <= y < x && (#[trigger] b[y]).1@.contains(s) && b[y].0.applies_to(
                                    *e,
                                );
                            let ky = choose|ky: int| 0 <= ky < b[y].1@.len() && b[y].1@[ky] == s;
                            assert(selectors@[s as int].key.spec_key() == b[y].0.spec_key());
                            assert(selectors@[s as int].key.spec_key() == b[x as int].0.spec_key());
                        }
                        assert(!list@.take(k as int).contains(s)) by {
                            if list@.take(k as int).contains(s) {
                                let j = choose|j: int| 0 <= j < k && list@.take(k as int)[j] == s;
                                assert(list@[j] == list@[k as int]);
                            }
                        }
                        assert(list@.take(k + 1) =~= list@.take(k as int).push(s));
                    }
                    out.push(s);
                    k = k + 1;
                }
                proof {
                    assert(list@.take(k as int) =~= list@);
                    assert forall|s: usize| out@.contains(s) implies s < selectors@.len() && exists|y: int|
                        0 <= y < x + 1 && (#[trigger] b[y]).1@.contains(s) && b[y].0.applies_to(*e) by {
                        if !before.contains(s) {
                            let j = choose|j: int| 0 <= j < out@.len() && out@[j] == s;
                            assert(list@[j - before.len()] == s);
                            assert(b[x as int].1@.contains(s));
                        } else {
                            let y = choose|y: int|
                                0 <= y < x && (#[trigger] b[y]).1@.contains(s) && b[y].0.applies_to(*e);
                            assert(b[y].1@.contains(s));
                        }
                    }
                    assert forall|y: int, s: usize|
                        0 <= y < x + 1 && b[y].0.applies_to(*e) && #[trigger] b[y].1@.contains(s)
                            implies out@.contains(s) by {
                        if y == x {
                            let j = choose|j: int| 0 <= j < list@.len() && list@[j] == s;
                            assert(out@[before.len() + j] == s);
                        } else {
                            assert(before.contains(s));
                            let j = choose|j: int| 0 <= j < before.len() && before[j] == s;
                            assert(out@[j] == s);
                        }
                    }
                }
            }
            x = x + 1;
        }
        proof {
            assert forall|s: usize|
                out@.contains(s) <==> s < selectors@.len() && selectors@[s as int].key.applies_to(*e) by {
                if out@.contains(s) {
                    let y = choose|y: int|
                        0 <= y < x && (#[trigger] b[y]).1@.contains(s) && b[y].0.applies_to(*e);
                    let ky = choose|ky: int| 0 <= ky < b[y].1@.len() && b[y].1@[ky] == s;
                    assert(selectors@[s as int].key.spec_key() == b[y].0.spec_key());
                }
                if s < selectors@.len() && selectors@[s as int].key.applies_to(*e) {
                    let y = choose|y: int|
                        0 <= y < b.len() && (#[trigger] b[y]).1@.contains(s)
                            && selectors@[s as int].key.spec_key() == b[y].0.spec_key();
                    assert(b[y].0.applies_to(*e));
                }
            }
        }
        out
    }
}

/// Files every selector of `selectors` under its key.
pub fn build_selector_map(selectors: &Vec<SelectorInfo>) -> (r: SelectorMap)
    ensures
        r.wf(selectors@),
{
    let mut buckets: Vec<(RuleKey, Vec<usize>)> = Vec::new();
    let mut i: usize = 0;
    while i < selectors.len()
        invariant
            i <= selectors@.len(),
            (SelectorMap { buckets }).wf(selectors@.take(i as int)),
        decreases selectors@.len() - i,
    {
        let ghost sel_i = selectors@.take(i as int);
        let ghost sel_n = selectors@.take(i + 1);
        assert(sel_n =~= sel_i.push(selectors@[i as int]));
        let key = &selectors[i].key;
        let mut x: usize = 0;
        let mut found = false;
        while x < buckets.len()
            invariant_except_break
                !found,
            invariant
                x <= buckets@.len(),
                forall|y: int| 0 <= y < x ==> (#[trigger] buckets@[y]).0.spec_key() != key.spec_key(),
            ensures
                found ==> x < buckets@.len() && buckets@[x as int].0.spec_key() == key.spec_key(),
                !found ==> x == buckets@.len(),
            decreases buckets@.len() - x,
        {
            if buckets[x].0.same(key) {
                found = true;
                break;
            }
            x = x + 1;
        }
        let ghost old_b = buckets@;
        if found {
            let mut list = buckets[x].1.clone();
            assert(list@ =~= old_b[x as int].1@);
            list.push(i);
            let k = buckets[x].0.copy_key();
            buckets.set(x, (k, list));
            proof {
                let b = buckets@;
                assert forall|y: int, z: int|
                    0 <= y < b.len() && 0 <= z < b.len() && y != z implies #[trigger] b[y].0.spec_key()
                        != #[trigger] b[z].0.spec_key() by {
                    assert(old_b[y].0.spec_key() == b[y].0.spec_key());
                    assert(old_b[z].0.spec_key() == b[z].0.spec_key());
                }
                assert forall|y: int| 0 <= y < b.len() implies (#[trigger] b[y]).1@.no_duplicates() by {
                    if y == x {
                        assert forall|k: int| 0 <= k < old_b[y].1@.len() implies old_b[y].1@[k] != i by {
                            let s = old_b[y].1@[k];
                            assert(s < sel_i.len());
                        }
                    }
                }
                assert forall|y: int, k: int| 0 <= y < b.len() && 0 <= k < b[y].1@.len() implies {
                    let s = #[trigger] b[y].1@[k];
                    s < sel_n.len() && sel_n[s as int].key.spec_key() == b[y].0.spec_key()
                } by {
                    if y == x && k == old_b[y].1@.len() {
                    } else {
                        assert(b[y].1@[k] == old_b[y].1@[k]);
                    }
                }
                assert forall|s: int| #![trigger sel_n[s]] 0 <= s < sel_n.len() implies exists|y: int|
                    0 <= y < b.len() && (#[trigger] b[y]).1@.contains(s as usize)
                        && sel_n[s].key.spec_key() == b[y].0.spec_key() by {
                    if s == i {
                        assert(b[x as int].1@.last() == i);
                        assert(b[x as int].1@.contains(s as usize));
                    } else {
                        assert(sel_i[s] == sel_n[s]);
                        let y = choose|y: int|
                            0 <= y < old_b.len() && (#[trigger] old_b[y]).1@.contains(s as usize)
                                && sel_i[s].key.spec_key() == old_b[y].0.spec_key();
                        let k = choose|k: int| 0 <= k < old_b[y].1@.len() && old_b[y].1@[k] == s as usize;
                        assert(b[y].1@[k] == s as usize);
                    }
                }
            }
        } else {
            let k = key.copy_key();
            buckets.push((k, vec![i]));
            proof {
                let b = buckets@;
                assert forall|y: int, z: int|
                    0 <= y < b.len() && 0 <= z < b.len() && y != z implies #[trigger] b[y].0.spec_key()
                        != #[trigger] b[z].0.spec_key() by {
                    if y < old_b.len() {
                        assert(old_b[y] == b[y]);
                    }
                    if z < old_b.len() {
                        assert(old_b[z] == b[z]);
                    }
                }
                assert forall|y: int| 0 <= y < b.len() implies (#[trigger] b[y]).1@.no_duplicates() by {
                    if y < old_b.len() {
                        assert(old_b[y] == b[y]);
                    }
                }
                assert forall|y: int, k: int| 0 <= y < b.len() && 0 <= k < b[y].1@.len() implies {
                    let s = #[trigger] b[y].1@[k];
                    s < sel_n.len() && sel_n[s as int].key.spec_key() == b[y].0.spec_key()
                } by {
                    if y < old_b.len() {
                        assert(old_b[y] == b[y]);
                    }
                }
                assert forall|s: int| #![trigger sel_n[s]] 0 <= s < sel_n.len() implies exists|y: int|
                    0 <= y < b.len() && (#[trigger] b[y]).1@.contains(s as usize)
                        && sel_n[s].key.spec_key() == b[y].0.spec_key() by {
                    if s == i {
                        assert(b[old_b.len() as int].1@[0] == i);
                        assert(b[old_b.len() as int].1@.contains(s as usize));
                    } else {
                        assert(sel_i[s] == sel_n[s]);
                        let y = choose|y: int|
                            0 <= y < old_b.len() && (#[trigger] old_b[y]).1@.contains(s as usize)
                                && sel_i[s].key.spec_key() == old_b[y].0.spec_key();
                        assert(old_b[y] == b[y]);
                    }
                }
            }
        }
        i = i + 1;
    }
    assert(selectors@.take(i as int) =~= selectors@);
    SelectorMap { buckets }
}

} // verus!
