//! The style-sharing cache: recently matched elements that later elements may
//! share their results with.
use vstd::prelude::*;

verus! {

/// How many candidates the cache keeps.
pub const SHARING_CACHE_SIZE: usize = 31;

/// A bounded cache of candidates, most recently used first: each entry is a
/// sharing signature and the element that was matched with it.
#[derive(Clone, Debug)]
pub struct SharingCache {
    pub entries: Vec<(u64, usize)>,
    pub capacity: usize,
}

/// The position of the first entry with signature `sig`.
pub open spec fn first_with(entries: Seq<(u64, usize)>, sig: u64) -> Option<int> {
    if exists|k: int| 0 <= k < entries.len() && (#[trigger] entries[k]).0 == sig {
        Some(
            choose|k: int|
                0 <= k < entries.len() && (#[trigger] entries[k]).0 == sig && forall|j: int|
                    0 <= j < k ==> (#[trigger] entries[j]).0 != sig,
        )
    } else {
        None
    }
}

proof fn lemma_first_with(entries: Seq<(u64, usize)>, sig: u64, k: int)
    requires
        0 <= k < entries.len(),
        entries[k].0 == sig,
        forall|j: int| 0 <= j < k ==> (#[trigger] entries[j]).0 != sig,
    ensures
        first_with(entries, sig) == Some(k),
{
    let c = choose|c: int|
        0 <= c < entries.len() && (#[trigger] entries[c]).0 == sig && forall|j: int|
            0 <= j < c ==> (#[trigger] entries[j]).0 != sig;
    if c < k {
        assert(entries[c].0 != sig);
    }
    if k < c {
        assert(entries[k].0 != sig);
    }
}

/// The entries after a hit at position `k`: that entry moves to the front.
pub open spec fn move_to_front(entries: Seq<(u64, usize)>, k: int) -> Seq<(u64, usize)> {
    seq![entries[k]] + entries.remove(k)
}

/// The entries after inserting a candidate: it goes to the front and the
/// least recently used entry falls out when the cache is full.
pub open spec fn insert_front(entries: Seq<(u64, usize)>, entry: (u64, usize), capacity: nat) -> Seq<
    (u64, usize),
> {
    let all = seq![entry] + entries;
    if all.len() > capacity {
        all.take(capacity as int)
    } else {
        all
    }
}

/// One visit of the cache by an element `e` with signature `sig`: the cache
/// afterwards, and the element that `e` shares with, if any. A hit moves the
/// candidate to the front; a miss offers `e` as a candidate.
pub open spec fn cache_step(entries: Seq<(u64, usize)>, capacity: nat, sig: Option<u64>, e: usize) -> (
    Seq<(u64, usize)>,
    Option<usize>,
) {
    match sig {
        None => (entries, None),
        Some(g) => match first_with(entries, g) {
            Some(k) => (move_to_front(entries, k), Some(entries[k].1)),
            None => (insert_front(entries, (g, e), capacity), None),
        },
    }
}

impl SharingCache {
    /// Creates an empty cache that keeps at most `capacity` candidates.
    pub fn new(capacity: usize) -> (r: SharingCache)
        ensures
            r.entries@.len() == 0,
            r.capacity == capacity,
    {
        SharingCache { entries: Vec::new(), capacity }
    }

    /// Looks for a candidate with the same signature. On a hit, returns the
    /// candidate element, whose entry becomes the most recently used. An element
    /// without a signature never shares.
    pub fn share_style_if_possible(&mut self, sig: Option<u64>) -> (r: Option<usize>)
        ensures
            match sig {
                None => r.is_none() && final(self).entries@ == old(self).entries@,
                Some(g) => match first_with(old(self).entries@, g) {
                    Some(k) => r == Some(old(self).entries@[k].1) && final(self).entries@
                        == move_to_front(old(self).entries@, k),
                    None => r.is_none() && final(self).entries@ == old(self).entries@,
                },
            },
            final(self).capacity == old(self).capacity,
            forall|x: (u64, usize)| #[trigger]
                final(self).entries@.contains(x) ==> old(self).entries@.contains(x),
            r matches Some(o) ==> sig matches Some(g) && old(self).entries@.contains((g, o)),
    {
        if sig.is_none() {
            return None;
        }
        let g = sig.unwrap();
        let mut k: usize = 0;
        while k < self.entries.len()
            invariant
                k <= self.entries@.len(),
                self.entries@ == old(self).entries@,
                self.capacity == old(self).capacity,
                sig == Some(g),
                forall|j: int| 0 <= j < k ==> (#[trigger] self.entries@[j]).0 != g,
            decreases self.entries@.len() - k,
        {
            if self.entries[k].0 == g {
                proof {
                    lemma_first_with(self.entries@, g, k as int);
                }
                let hit = self.entries.remove(k);
                self.entries.insert(0, hit);
                proof {
                    let o = old(self).entries@;
                    assert(self.entries@ =~= move_to_front(o, k as int));
                    assert forall|x: (u64, usize)| #[trigger] self.entries@.contains(x) implies o.contains(x) by {
                        let j = choose|j: int| 0 <= j < self.entries@.len() && self.entries@[j] == x;
                        if j == 0 {
                            assert(o[k as int] == x);
                        } else if j - 1 < k {
                            assert(o[j - 1] == x);
                        } else {
                            assert(o[j] == x);
                        }
                    }
                    assert(o[k as int] == (g, hit.1));
                    assert(o.contains((g, hit.1)));
                    assert(first_with(o, g) == Some(k as int));
                    assert(self.entries@ == move_to_front(o, k as int));
                }
                return Some(hit.1);
            }
            k = k + 1;
        }
        None
    }

    /// Offers a just-matched element as a candidate. An element without a
    /// signature, or a cache of capacity zero, takes nothing.
    pub fn insert_if_possible(&mut self, sig: Option<u64>, e: usize)
        ensures
            match sig {
                None => final(self).entries@ == old(self).entries@,
                Some(g) => final(self).entries@ == insert_front(
                    old(self).entries@,
                    (g, e),
                    old(self).capacity as nat,
                ),
            },
            final(self).capacity == old(self).capacity,
            final(self).entries@.len() <= final(self).capacity || final(self).entries@ == old(
                self,
            ).entries@,
            forall|x: (u64, usize)| #[trigger]
                final(self).entries@.contains(x) ==> old(self).entries@.contains(x) || (sig
                    matches Some(g) && x == (g, e)),
    {
        match sig {
            None => {},
            Some(g) => {
                self.entries.insert(0, (g, e));
                if self.entries.len() > self.capacity {
                    self.entries.truncate(self.capacity);
                }
                proof {
                    let o = old(self).entries@;
                    let all = seq![(g, e)] + o;
                    assert(old(self).entries@.insert(0, (g, e)) =~= all);
                    assert forall|x: (u64, usize)| #[trigger] self.entries@.contains(x) implies o.contains(x)
                        || x == (g, e) by {
                        let j = choose|j: int| 0 <= j < self.entries@.len() && self.entries@[j] == x;
                        if j > 0 {
                            assert(all[j] == o[j - 1]);
                        }
                    }
                }
            },
        }
    }
}

} // verus!
