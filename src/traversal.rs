//! The traversal driver: a preorder walk over the elements of a document that
//! matches each one by the chosen strategy.
use vstd::prelude::*;
use crate::bloom::AncestorFilter;
use crate::document::{lemma_stack_children, reversed_from, stack_order, Document};
use crate::node::{start_tag_of, Node};
use crate::selector::{element_at, engine_consistent, engine_matches, fits, hashes_present, EngineAnswers, SelectorInfo};
use crate::selector_map::SelectorMap;
use crate::sharing::{cache_step, SharingCache, SHARING_CACHE_SIZE};
use crate::stats::{combine_spec, is_zero, lemma_sum_concat, lemma_sum_map_hits, lemma_sum_sharing, sum_stats, Statistics};

verus! {

broadcast use vstd::seq_lib::group_seq_properties;

/// How an element's matching selectors are found.
#[derive(Clone, Copy, Debug, PartialEq, Eq, Structural)]
pub enum Algorithm {
    /// Test every selector against the element.
    Naive,
    /// Test only the candidates that the selector map returns.
    WithSelectorMap,
    /// As with the selector map, but reject first by the ancestor filter.
    WithBloomFilter,
    /// Share with an interchangeable element seen before when there is one;
    /// else as with the ancestor filter.
    WithStyleSharing,
}

/// The result for one element: the selectors that matched it, or the element
/// whose result it shares.
#[derive(Clone, Debug)]
pub enum SelectorsOrSharedStyles {
    Selectors(Vec<usize>),
    SharedWithElement(u64),
}

/// The record of one element: its identity key (its node index), its start
/// tag, the key of its parent element, its result, and the work it took.
#[derive(Clone, Debug)]
pub struct ElementMatches {
    pub id: u64,
    pub html: String,
    pub parent: Option<u64>,
    pub selectors: SelectorsOrSharedStyles,
    pub stats: Statistics,
}

/// The records of all elements of a document, in the order they were visited.
#[derive(Clone, Debug)]
pub struct DocumentMatches(pub Vec<ElementMatches>);

/// The counters that a strategy keeps, all at zero.
pub open spec fn zero_for(alg: Algorithm) -> Statistics {
    Statistics {
        fast_rejects: if alg == Algorithm::WithBloomFilter || alg == Algorithm::WithStyleSharing {
            Some(0u64)
        } else {
            None
        },
        slow_rejects: Some(0u64),
        selector_map_hits: if alg == Algorithm::Naive {
            None
        } else {
            Some(0u64)
        },
        sharing_instances: if alg == Algorithm::WithStyleSharing {
            Some(0u64)
        } else {
            None
        },
    }
}

/// The selectors that a selector map offers for element `e`.
pub open spec fn candidates(doc: &Document, selectors: Seq<SelectorInfo>, e: int) -> Set<usize> {
    Set::new(
        |s: usize| s < selectors.len() && selectors[s as int].key.applies_to(element_at(doc, e)),
    )
}

/// `list` is a correct direct result for element `e` under `alg`.
pub open spec fn direct_ok(
    alg: Algorithm,
    doc: &Document,
    selectors: Seq<SelectorInfo>,
    answers: &EngineAnswers,
    e: int,
    list: Seq<usize>,
) -> bool {
    &&& list.no_duplicates()
    &&& ascending(list)
    &&& match alg {
        Algorithm::Naive => forall|s: usize|
            #[trigger] list.contains(s) <==> s < selectors.len() && engine_matches(
                answers,
                e,
                s as int,
            ),
        Algorithm::WithSelectorMap => forall|s: usize| #[trigger]
            list.contains(s) <==> candidates(doc, selectors, e).contains(s) && engine_matches(
                answers,
                e,
                s as int,
            ),
        _ => {
            &&& forall|s: usize| #[trigger]
                list.contains(s) ==> candidates(doc, selectors, e).contains(s) && engine_matches(
                    answers,
                    e,
                    s as int,
                )
            &&& forall|s: usize|
                #![trigger candidates(doc, selectors, e).contains(s)]
                candidates(doc, selectors, e).contains(s) && engine_matches(answers, e, s as int)
                    && hashes_present(doc, selectors, answers, e, s as int) ==> list.contains(s)
        },
    }
}

/// `st` is the work of matching element `e` directly under `alg`, which found
/// `found` selectors.
pub open spec fn direct_stats_ok(
    alg: Algorithm,
    doc: &Document,
    selectors: Seq<SelectorInfo>,
    e: int,
    found: nat,
    st: Statistics,
) -> bool {
    let c = candidates(doc, selectors, e).len();
    match alg {
        Algorithm::Naive => st == Statistics {
            fast_rejects: None,
            slow_rejects: Some((selectors.len() - found) as u64),
            selector_map_hits: None,
            sharing_instances: None,
        },
        Algorithm::WithSelectorMap => st == Statistics {
            fast_rejects: None,
            slow_rejects: Some((c - found) as u64),
            selector_map_hits: Some(c as u64),
            sharing_instances: None,
        },
        _ => {
            &&& st.fast_rejects matches Some(f)
            &&& st.slow_rejects matches Some(sl)
            &&& f + sl + found == c
            &&& st.selector_map_hits == Some(c as u64)
            &&& st.sharing_instances == if alg == Algorithm::WithStyleSharing {
                Some(0u64)
            } else {
                None
            }
        },
    }
}

/// The work recorded for an element that shares another's result.
pub open spec fn shared_stats() -> Statistics {
    Statistics {
        fast_rejects: Some(0u64),
        slow_rejects: Some(0u64),
        selector_map_hits: Some(0u64),
        sharing_instances: Some(1u64),
    }
}

/// Each value is smaller than the next.
pub open spec fn ascending(s: Seq<usize>) -> bool {
    forall|a: int, b: int| 0 <= a < b < s.len() ==> s[a] < s[b]
}

/// An ascending sequence has no duplicates.
proof fn lemma_ascending_no_dup(s: Seq<usize>)
    requires
        ascending(s),
    ensures
        s.no_duplicates(),
{
    assert forall|a: int, b: int| 0 <= a < s.len() && 0 <= b < s.len() && a != b implies s[a] != s[b] by {
        if a < b {
            assert(s[a] < s[b]);
        } else {
            assert(s[b] < s[a]);
        }
    }
}

/// Two ascending sequences with the same members are equal.
pub proof fn lemma_ascending_unique(x: Seq<usize>, y: Seq<usize>)
    requires
        ascending(x),
        ascending(y),
        forall|v: usize| x.contains(v) <==> y.contains(v),
    ensures
        x == y,
    decreases x.len() + y.len(),
{
    if x.len() == 0 || y.len() == 0 {
        if x.len() > 0 {
            assert(x.contains(x[0]));
        }
        if y.len() > 0 {
            assert(y.contains(y[0]));
        }
        assert(x =~= y);
    } else {
        assert(x.contains(x[0]));
        assert(y.contains(y[0]));
        let j = choose|j: int| 0 <= j < y.len() && y[j] == x[0];
        let k = choose|k: int| 0 <= k < x.len() && x[k] == y[0];
        if j > 0 {
            assert(y[0] < y[j]);
            if k > 0 {
                assert(x[0] < x[k]);
            }
        }
        assert(x[0] == y[0]);
        let xs = x.drop_first();
        let ys = y.drop_first();
        assert forall|v: usize| xs.contains(v) <==> ys.contains(v) by {
            if xs.contains(v) {
                let i = choose|i: int| 0 <= i < xs.len() && xs[i] == v;
                assert(x[i + 1] == v);
                assert(x[0] < x[i + 1]);
                assert(y.contains(v));
                let t = choose|t: int| 0 <= t < y.len() && y[t] == v;
                assert(t != 0);
                assert(ys[t - 1] == v);
            }
            if ys.contains(v) {
                let i = choose|i: int| 0 <= i < ys.len() && ys[i] == v;
                assert(y[i + 1] == v);
                assert(y[0] < y[i + 1]);
                assert(x.contains(v));
                let t = choose|t: int| 0 <= t < x.len() && x[t] == v;
                assert(t != 0);
                assert(xs[t - 1] == v);
            }
        }
        lemma_ascending_unique(xs, ys);
        assert(x =~= seq![x[0]] + xs);
        assert(y =~= seq![y[0]] + ys);
    }
}

/// Inserts `x` into an ascending vector, keeping it ascending.
fn insert_sorted(v: &mut Vec<usize>, x: usize)
    requires
        ascending(old(v)@),
        !old(v)@.contains(x),
    ensures
        ascending(final(v)@),
        final(v)@.len() == old(v)@.len() + 1,
        forall|y: usize| #[trigger] final(v)@.contains(y) <==> old(v)@.contains(y) || y == x,
{
    let mut i: usize = 0;
    while i < v.len() && v[i] < x
        invariant
            i <= v@.len(),
            v@ == old(v)@,
            forall|j: int| 0 <= j < i ==> #[trigger] v@[j] < x,
        decreases v@.len() - i,
    {
        i = i + 1;
    }
    proof {
        if i < v@.len() {
            assert(v@[i as int] != x);
        }
    }
    v.insert(i, x);
    proof {
        let o = old(v)@;
        assert(v@ =~= o.insert(i as int, x));
        assert forall|a: int, b: int| 0 <= a < b < v@.len() implies v@[a] < v@[b] by {
            if b < i {
                assert(v@[a] == o[a] && v@[b] == o[b]);
            } else if b == i {
                assert(v@[a] == o[a]);
            } else if a == i {
                assert(v@[b] == o[b - 1]);
                if b - 1 > i {
                    assert(o[i as int] < o[b - 1]);
                }
            } else if a < i {
                assert(v@[a] == o[a] && v@[b] == o[b - 1]);
            } else {
                assert(v@[a] == o[a - 1] && v@[b] == o[b - 1]);
            }
        }
        assert forall|y: usize| #[trigger] v@.contains(y) <==> o.contains(y) || y == x by {
            if v@.contains(y) {
                let t = choose|t: int| 0 <= t < v@.len() && v@[t] == y;
                if t < i {
                    assert(o[t] == y);
                } else if t > i {
                    assert(o[t - 1] == y);
                }
            }
            if o.contains(y) {
                let t = choose|t: int| 0 <= t < o.len() && o[t] == y;
                if t < i {
                    assert(v@[t] == y);
                } else {
                    assert(v@[t + 1] == y);
                }
            }
            if y == x {
                assert(v@[i as int] == y);
            }
        }
    }
}

/// Pushing a new value keeps a sequence free of duplicates.
pub proof fn lemma_push_no_dup(s: Seq<usize>, x: usize)
    requires
        s.no_duplicates(),
        !s.contains(x),
    ensures
        s.push(x).no_duplicates(),
{
    assert forall|i: int, j: int| 0 <= i < j < s.len() + 1 implies s.push(x)[i] != s.push(x)[j] by {
        if j == s.len() {
            assert(s.push(x)[i] == s[i]);
        }
    }
}

/// Matches element `e` against every selector.
fn match_all(answers: &EngineAnswers, e: usize, m: usize) -> (r: (Vec<usize>, u64))
    requires
        e < answers.matches@.len(),
        answers.matches@[e as int]@.len() == m,
    ensures
        r.0@.no_duplicates(),
        ascending(r.0@),
        forall|s: usize| #[trigger] r.0@.contains(s) <==> s < m && engine_matches(answers, e as int, s as int),
        r.1 == m - r.0@.len(),
{
    let row = &answers.matches[e];
    let mut out: Vec<usize> = Vec::new();
    let mut s: usize = 0;
    while s < m
        invariant
            s <= m,
            *row == answers.matches@[e as int],
            row@.len() == m,
            out@.no_duplicates(),
            out@.len() <= s,
            forall|t: usize| #[trigger] out@.contains(t) <==> t < s && engine_matches(answers, e as int, t as int),
            ascending(out@),
            forall|j: int| 0 <= j < out@.len() ==> #[trigger] out@[j] < s,
        decreases m - s,
    {
        if row[s] {
            proof {
                assert(!out@.contains(s));
                lemma_push_no_dup(out@, s);
            }
            let ghost before = out@;
            out.push(s);
            proof {
                assert forall|a: int, b: int| 0 <= a < b < out@.len() implies out@[a] < out@[b] by {
                    assert(out@[a] == before[a]);
                    if b < before.len() {
                        assert(out@[b] == before[b]);
                    }
                }
            }
        }
        s = s + 1;
    }
    let slow = (m - out.len()) as u64;
    (out, slow)
}

/// Tests the candidates of element `e`, rejecting first by the ancestor
/// filter when one is given. Returns the matches, the fast rejects and the
/// slow rejects.
fn match_candidates(
    selectors: &Vec<SelectorInfo>,
    answers: &EngineAnswers,
    cands: &Vec<usize>,
    e: usize,
    filter: Option<&AncestorFilter>,
) -> (r: (Vec<usize>, u64, u64))
    requires
        e < answers.matches@.len(),
        answers.matches@[e as int]@.len() == selectors@.len(),
        cands@.no_duplicates(),
        forall|s: usize| #[trigger] cands@.contains(s) ==> s < selectors@.len(),
    ensures
        r.0@.no_duplicates(),
        ascending(r.0@),
        forall|s: usize| #[trigger] r.0@.contains(s) ==> cands@.contains(s) && engine_matches(answers, e as int, s as int),
        filter is None ==> forall|s: usize| cands@.contains(s) && engine_matches(answers, e as int, s as int) ==> #[trigger] r.0@.contains(s),
        filter matches Some(f) ==> forall|s: usize|
            cands@.contains(s) && engine_matches(answers, e as int, s as int) && (forall|h: u32|
                selectors@[s as int].ancestor_hashes@.contains(h) ==> f.contents().contains(h))
                ==> #[trigger] r.0@.contains(s),
        filter is None ==> r.1 == 0,
        r.1 + r.2 + r.0@.len() == cands@.len(),
{
    let row = &answers.matches[e];
    let mut out: Vec<usize> = Vec::new();
    let mut fast: u64 = 0;
    let mut slow: u64 = 0;
    let mut k: usize = 0;
    while k < cands.len()
        invariant
            k <= cands@.len(),
            *row == answers.matches@[e as int],
            row@.len() == selectors@.len(),
            cands@.no_duplicates(),
            forall|s: usize| #[trigger] cands@.contains(s) ==> s < selectors@.len(),
            out@.no_duplicates(),
            ascending(out@),
            fast + slow + out@.len() == k,
            filter is None ==> fast == 0,
            forall|s: usize| #[trigger] out@.contains(s) ==> cands@.take(k as int).contains(s) && engine_matches(answers, e as int, s as int),
            filter is None ==> forall|s: usize| cands@.take(k as int).contains(s) && engine_matches(answers, e as int, s as int) ==> #[trigger] out@.contains(s),
            filter matches Some(f) ==> forall|s: usize|
                cands@.take(k as int).contains(s) && engine_matches(answers, e as int, s as int) && (forall|h: u32|
                    selectors@[s as int].ancestor_hashes@.contains(h) ==> f.contents().contains(h))
                    ==> #[trigger] out@.contains(s),
        decreases cands@.len() - k,
    {
        let s = cands[k];
        proof {
            assert(cands@.take(k + 1) =~= cands@.take(k as int).push(s));
            assert(cands@.contains(s));
            assert(!cands@.take(k as int).contains(s)) by {
                if cands@.take(k as int).contains(s) {
                    let j = choose|j: int| 0 <= j < k && cands@.take(k as int)[j] == s;
                    assert(cands@[j] == cands@[k as int]);
                }
            }
        }
        let passes = match filter {
            Some(f) => f.might_contain_all(&selectors[s].ancestor_hashes),
            None => true,
        };
        if !passes {
            fast = fast + 1;
        } else if row[s] {
            proof {
                if out@.contains(s) {
                    assert(cands@.take(k as int).contains(s));
                }
            }
            insert_sorted(&mut out, s);
            proof {
                lemma_ascending_no_dup(out@);
            }
        } else {
            slow = slow + 1;
        }
        k = k + 1;
    }
    proof {
        assert(cands@.take(k as int) =~= cands@);
    }
    (out, fast, slow)
}

/// A sequence without duplicates whose members are those of a set has the
/// set's size.
proof fn lemma_len_of_members(l: Seq<usize>, c: Set<usize>)
    requires
        l.no_duplicates(),
        forall|s: usize| #[trigger] l.contains(s) <==> c.contains(s),
    ensures
        l.len() == c.len(),
{
    assert(l.to_set() =~= c);
    l.unique_seq_to_set();
}

/// Matches element `e` directly under `alg`: every selector for `Naive`, the
/// selector map's candidates otherwise, and with the ancestor filter first
/// for the filtering strategies, whose filter must hold exactly the
/// fingerprints of `e`'s element ancestors.
fn match_direct(
    alg: Algorithm,
    doc: &Document,
    selectors: &Vec<SelectorInfo>,
    map: &SelectorMap,
    answers: &EngineAnswers,
    e: usize,
    filter: &AncestorFilter,
) -> (r: (Vec<usize>, Statistics))
    requires
        doc.wf(),
        fits(doc, selectors@, answers),
        map.wf(selectors@),
        doc.is_element(e as int),
        alg == Algorithm::WithBloomFilter || alg == Algorithm::WithStyleSharing ==> filter.contents()
            == crate::selector::ancestor_fingerprints(doc, answers, e as int).to_multiset(),
    ensures
        direct_ok(alg, doc, selectors@, answers, e as int, r.0@),
        direct_stats_ok(alg, doc, selectors@, e as int, r.0@.len(), r.1),
{
    let m = selectors.len();
    if alg == Algorithm::Naive {
        let (list, slow) = match_all(answers, e, m);
        let st = Statistics {
            fast_rejects: None,
            slow_rejects: Some(slow),
            selector_map_hits: None,
            sharing_instances: None,
        };
        return (list, st);
    }
    let element = match &doc.nodes[e] {
        Node::Element(el) => el,
        _ => {
            assert(false);
            return (Vec::new(), Statistics::zero(false, false, false, false));
        },
    };
    assert(*element == element_at(doc, e as int));
    let cands = map.query(selectors, element);
    let ghost cset = candidates(doc, selectors@, e as int);
    proof {
        assert forall|s: usize| #[trigger] cands@.contains(s) <==> cset.contains(s) by {}
        lemma_len_of_members(cands@, cset);
    }
    let use_filter = alg == Algorithm::WithBloomFilter || alg == Algorithm::WithStyleSharing;
    let (list, fast, slow) = if use_filter {
        match_candidates(selectors, answers, &cands, e, Some(filter))
    } else {
        match_candidates(selectors, answers, &cands, e, None)
    };
    let hits = cands.len() as u64;
    let st = Statistics {
        fast_rejects: if use_filter {
            Some(fast)
        } else {
            None
        },
        slow_rejects: Some(slow),
        selector_map_hits: Some(hits),
        sharing_instances: if alg == Algorithm::WithStyleSharing {
            Some(0)
        } else {
            None
        },
    };
    proof {
        if use_filter {
            assert forall|s: usize|
                #![trigger cset.contains(s)]
                cset.contains(s) && engine_matches(answers, e as int, s as int) && hashes_present(
                    doc,
                    selectors@,
                    answers,
                    e as int,
                    s as int,
                ) implies list@.contains(s) by {
                assert(cands@.contains(s));
                assert forall|h: u32| selectors@[s as int].ancestor_hashes@.contains(h) implies filter.contents().contains(h) by {
                    assert(crate::selector::ancestor_fingerprints(doc, answers, e as int).contains(h));
                }
            }
        }
    }
    (list, st)
}

/// The style-sharing cache over a sequence of elements, each visiting it in
/// turn: the cache afterwards, and for each element the one it shares with.
pub open spec fn sharing_run(answers: &EngineAnswers, elements: Seq<usize>) -> (Seq<(u64, usize)>, Seq<Option<usize>>)
    decreases elements.len(),
{
    if elements.len() == 0 {
        (Seq::empty(), Seq::empty())
    } else {
        let prev = sharing_run(answers, elements.drop_last());
        let e = elements.last();
        let step = cache_step(prev.0, SHARING_CACHE_SIZE as nat, answers.sharing_keys@[e as int], e);
        (step.0, prev.1.push(step.1))
    }
}

/// Under style sharing, record `k` shares exactly when the cache says so, and
/// with the element it names.
pub open spec fn shares_as_cache_says(recs: Seq<ElementMatches>, shares: Seq<Option<usize>>) -> bool {
    forall|k: int|
        0 <= k < recs.len() ==> match #[trigger] shares[k] {
            Some(o) => recs[k].selectors == SelectorsOrSharedStyles::SharedWithElement(o as u64),
            None => recs[k].selectors is Selectors,
        }
}

/// An element index as an identity key.
pub open spec fn opt_key(p: Option<usize>) -> Option<u64> {
    match p {
        Some(x) => Some(x as u64),
        None => None,
    }
}

/// Record `k` of `recs` is right for the element it names.
pub open spec fn record_ok(
    alg: Algorithm,
    doc: &Document,
    selectors: Seq<SelectorInfo>,
    answers: &EngineAnswers,
    recs: Seq<ElementMatches>,
    k: int,
) -> bool {
    let r = recs[k];
    let e = r.id as int;
    &&& r.html@ == start_tag_of(element_at(doc, e))
    &&& r.parent == opt_key(doc.parent_element(e))
    &&& match r.selectors {
        SelectorsOrSharedStyles::Selectors(list) => direct_ok(
            alg,
            doc,
            selectors,
            answers,
            e,
            list@,
        ) && direct_stats_ok(alg, doc, selectors, e, list@.len(), r.stats),
        SelectorsOrSharedStyles::SharedWithElement(o) => {
            &&& alg == Algorithm::WithStyleSharing
            &&& r.stats == shared_stats()
            &&& answers.sharing_keys@[e] is Some
            &&& exists|k2: int|
                0 <= k2 < k && (#[trigger] recs[k2]).id == o && recs[k2].selectors is Selectors
                    && answers.sharing_keys@[e] == answers.sharing_keys@[o as int]
        },
    }
}

/// The records cover each element of the document exactly once, and each is right.
pub open spec fn traversal_ok(
    alg: Algorithm,
    doc: &Document,
    selectors: Seq<SelectorInfo>,
    answers: &EngineAnswers,
    recs: Seq<ElementMatches>,
) -> bool {
    &&& forall|k: int| 0 <= k < recs.len() ==> record_ok(alg, doc, selectors, answers, recs, k)
    &&& forall|k: int|
        0 <= k < recs.len() ==> (#[trigger] recs[k]).id < doc.nodes@.len() && doc.is_element(
            recs[k].id as int,
        )
    &&& forall|k1: int, k2: int|
        0 <= k1 < recs.len() && 0 <= k2 < recs.len() && k1 != k2 ==> (#[trigger] recs[k1]).id
            != (#[trigger] recs[k2]).id
    &&& forall|i: int|
        0 <= i < doc.nodes@.len() && #[trigger] doc.is_element(i) ==> exists|k: int|
            0 <= k < recs.len() && (#[trigger] recs[k]).id == i
    &&& recs.map_values(|m: ElementMatches| m.id) == doc.elements_in(doc.subtree(0)).map_values(
        |x: usize| x as u64,
    )
    &&& alg == Algorithm::WithStyleSharing ==> shares_as_cache_says(
        recs,
        sharing_run(answers, doc.elements_in(doc.subtree(0))).1,
    )
}

/// Determinism: two runs of one strategy visit the same elements in the same
/// order, with the same parents and start tags, the same elements share and
/// with the same elements, and the selector-map hits and sharing instances
/// agree record by record and in total. Under the naive and the selector-map
/// strategies every record also finds the same selectors, in the same
/// ascending order, with the same work, so the two runs' statistics are
/// identical. (How the filtering
/// strategies split their rejects between fast and slow rests on the state of
/// the bloom filter, which no contract here determines.)
pub proof fn lemma_runs_deterministic(
    alg: Algorithm,
    doc: &Document,
    selectors: Seq<SelectorInfo>,
    answers: &EngineAnswers,
    a: Seq<ElementMatches>,
    b: Seq<ElementMatches>,
)
    requires
        traversal_ok(alg, doc, selectors, answers, a),
        traversal_ok(alg, doc, selectors, answers, b),
    ensures
        a.len() == b.len(),
        forall|k: int|
            0 <= k < a.len() ==> (#[trigger] a[k]).id == b[k].id && a[k].parent == b[k].parent
                && a[k].html@ == b[k].html@,
        alg == Algorithm::Naive || alg == Algorithm::WithSelectorMap ==> forall|k: int|
            0 <= k < a.len() ==> (#[trigger] a[k]).stats == b[k].stats && (a[k].selectors matches SelectorsOrSharedStyles::Selectors(l1)
                && b[k].selectors matches SelectorsOrSharedStyles::Selectors(l2) && l1@ == l2@),
        alg == Algorithm::Naive || alg == Algorithm::WithSelectorMap ==> sum_stats(
            zero_for(alg),
            a.map_values(|m: ElementMatches| m.stats),
        ) == sum_stats(zero_for(alg), b.map_values(|m: ElementMatches| m.stats)),
        forall|k: int|
            0 <= k < a.len() ==> (#[trigger] a[k]).stats.selector_map_hits == b[k].stats.selector_map_hits
                && a[k].stats.sharing_instances == b[k].stats.sharing_instances
                && (a[k].selectors is SharedWithElement <==> b[k].selectors is SharedWithElement)
                && (a[k].selectors is SharedWithElement ==> a[k].selectors == b[k].selectors),
        sum_stats(zero_for(alg), a.map_values(|m: ElementMatches| m.stats)).selector_map_hits
            == sum_stats(zero_for(alg), b.map_values(|m: ElementMatches| m.stats)).selector_map_hits,
        sum_stats(zero_for(alg), a.map_values(|m: ElementMatches| m.stats)).sharing_instances
            == sum_stats(zero_for(alg), b.map_values(|m: ElementMatches| m.stats)).sharing_instances,
{
    let ia = a.map_values(|m: ElementMatches| m.id);
    let ib = b.map_values(|m: ElementMatches| m.id);
    assert(ia == ib);
    assert(a.len() == ia.len());
    assert forall|k: int| 0 <= k < a.len() implies (#[trigger] a[k]).id == b[k].id && a[k].parent == b[k].parent
        && a[k].html@ == b[k].html@ by {
        assert(ia[k] == ib[k]);
        assert(record_ok(alg, doc, selectors, answers, a, k));
        assert(record_ok(alg, doc, selectors, answers, b, k));
    }
    if alg == Algorithm::Naive || alg == Algorithm::WithSelectorMap {
        assert forall|k: int| 0 <= k < a.len() implies (#[trigger] a[k]).stats == b[k].stats && (a[k].selectors matches SelectorsOrSharedStyles::Selectors(l1)
            && b[k].selectors matches SelectorsOrSharedStyles::Selectors(l2) && l1@ == l2@) by {
            assert(ia[k] == ib[k]);
            assert(record_ok(alg, doc, selectors, answers, a, k));
            assert(record_ok(alg, doc, selectors, answers, b, k));
            if let (SelectorsOrSharedStyles::Selectors(l1), SelectorsOrSharedStyles::Selectors(l2)) = (a[k].selectors, b[k].selectors) {
                assert(l1@.to_set() =~= l2@.to_set());
                l1@.unique_seq_to_set();
                l2@.unique_seq_to_set();
                lemma_ascending_unique(l1@, l2@);
            }
        }
        assert(a.map_values(|m: ElementMatches| m.stats) =~= b.map_values(|m: ElementMatches| m.stats));
    }
    let shares = sharing_run(answers, doc.elements_in(doc.subtree(0))).1;
    assert forall|k: int| 0 <= k < a.len() implies (#[trigger] a[k]).stats.selector_map_hits == b[k].stats.selector_map_hits
        && a[k].stats.sharing_instances == b[k].stats.sharing_instances
        && (a[k].selectors is SharedWithElement <==> b[k].selectors is SharedWithElement)
        && (a[k].selectors is SharedWithElement ==> a[k].selectors == b[k].selectors) by {
        assert(ia[k] == ib[k]);
        assert(record_ok(alg, doc, selectors, answers, a, k));
        assert(record_ok(alg, doc, selectors, answers, b, k));
        if alg == Algorithm::WithStyleSharing {
            assert(shares_as_cache_says(a, shares));
            assert(shares_as_cache_says(b, shares));
            let _ = shares[k];
        }
    }
    let sa = a.map_values(|m: ElementMatches| m.stats);
    let sb = b.map_values(|m: ElementMatches| m.stats);
    assert forall|k: int| 0 <= k < sa.len() implies (#[trigger] sa[k]).selector_map_hits == sb[k].selector_map_hits by {
        assert(a[k].stats.selector_map_hits == b[k].stats.selector_map_hits);
    }
    assert forall|k: int| 0 <= k < sa.len() implies (#[trigger] sa[k]).sharing_instances == sb[k].sharing_instances by {
        assert(a[k].stats.sharing_instances == b[k].stats.sharing_instances);
    }
    lemma_sum_map_hits(zero_for(alg), sa, sb);
    lemma_sum_sharing(zero_for(alg), sa, sb);
}

/// The aggregate of `f` over the elements of node `i`'s subtree, in preorder.
pub open spec fn subtree_sum(doc: &Document, f: spec_fn(usize) -> Statistics, zero: Statistics, i: int) -> Statistics {
    sum_stats(zero, doc.elements_in(doc.subtree(i)).map_values(f))
}

/// The contribution of node `i` itself: `f(i)` if it is an element.
pub open spec fn own_sum(doc: &Document, f: spec_fn(usize) -> Statistics, zero: Statistics, i: int) -> Statistics {
    sum_stats(zero, doc.elements_in(seq![i as usize]).map_values(f))
}

/// The aggregates of the subtrees of node `i`'s children from the `k`-th on,
/// combined in order.
pub open spec fn children_sum(doc: &Document, f: spec_fn(usize) -> Statistics, zero: Statistics, i: int, k: int) -> Statistics
    decreases doc.children@[i]@.len() - k,
{
    if 0 <= i < doc.children@.len() && 0 <= k < doc.children@[i]@.len() {
        combine_spec(subtree_sum(doc, f, zero, doc.children@[i]@[k] as int), children_sum(doc, f, zero, i, k + 1))
    } else {
        zero
    }
}

/// Picking the elements out of two sequences one after the other.
pub proof fn lemma_elements_in_concat(doc: &Document, a: Seq<usize>, b: Seq<usize>)
    ensures
        doc.elements_in(a + b) == doc.elements_in(a) + doc.elements_in(b),
    decreases b.len(),
{
    if b.len() == 0 {
        assert(a + b =~= a);
        assert(doc.elements_in(a) + doc.elements_in(b) =~= doc.elements_in(a));
    } else {
        assert((a + b).drop_last() =~= a + b.drop_last());
        assert((a + b).last() == b.last());
        lemma_elements_in_concat(doc, a, b.drop_last());
        if doc.is_element(b.last() as int) {
            assert(doc.elements_in(a) + doc.elements_in(b) =~= (doc.elements_in(a) + doc.elements_in(b.drop_last())).push(b.last()));
        }
    }
}

proof fn lemma_forest_sum(doc: &Document, f: spec_fn(usize) -> Statistics, zero: Statistics, i: usize, k: int)
    requires
        doc.wf(),
        is_zero(zero),
        i < doc.nodes@.len(),
        0 <= k <= doc.children@[i as int]@.len(),
    ensures
        sum_stats(zero, doc.elements_in(doc.forest(i as int, k)).map_values(f)) == children_sum(doc, f, zero, i as int, k),
    decreases doc.children@[i as int]@.len() - k,
{
    if k < doc.children@[i as int]@.len() {
        let c = doc.children@[i as int]@[k];
        assert(0 < c < doc.nodes@.len() && doc.parents@[c as int] == Some(i));
        assert(doc.parents@[c as int] matches Some(p) && p < c);
        assert(doc.forest(i as int, k) == doc.subtree(c as int) + doc.forest(i as int, k + 1));
        lemma_forest_sum(doc, f, zero, i, k + 1);
        lemma_elements_in_concat(doc, doc.subtree(c as int), doc.forest(i as int, k + 1));
        let x = doc.elements_in(doc.subtree(c as int));
        let y = doc.elements_in(doc.forest(i as int, k + 1));
        assert((x + y).map_values(f) =~= x.map_values(f) + y.map_values(f));
        lemma_sum_concat(zero, x.map_values(f), y.map_values(f));
    } else {
        assert(doc.forest(i as int, k) =~= Seq::<usize>::empty());
        assert(doc.elements_in(doc.forest(i as int, k)).map_values(f) =~= Seq::<Statistics>::empty());
    }
}

/// Statistics additivity: for any per-element contributions `f`, the
/// aggregate over a node's subtree is its own contribution combined with the
/// aggregates over its children's subtrees, in order.
pub proof fn lemma_subtree_additivity(doc: &Document, f: spec_fn(usize) -> Statistics, zero: Statistics, i: usize)
    requires
        doc.wf(),
        is_zero(zero),
        i < doc.nodes@.len(),
    ensures
        subtree_sum(doc, f, zero, i as int) == combine_spec(own_sum(doc, f, zero, i as int), children_sum(doc, f, zero, i as int, 0)),
{
    assert(doc.subtree(i as int) == seq![i] + doc.forest(i as int, 0));
    lemma_elements_in_concat(doc, seq![i], doc.forest(i as int, 0));
    let x = doc.elements_in(seq![i]);
    let y = doc.elements_in(doc.forest(i as int, 0));
    assert((x + y).map_values(f) =~= x.map_values(f) + y.map_values(f));
    lemma_sum_concat(zero, x.map_values(f), y.map_values(f));
    lemma_forest_sum(doc, f, zero, i, 0);
}

/// The work that a run recorded for element `id`.
pub open spec fn recorded_stats(recs: Seq<ElementMatches>) -> spec_fn(usize) -> Statistics {
    |id: usize| recs[choose|k: int| 0 <= k < recs.len() && (#[trigger] recs[k]).id == id as u64].stats
}

/// The statistics of a run are the aggregate, over the whole tree, of the
/// work it recorded per element; with the law above, each subtree's aggregate
/// is its root's work plus its children's subtrees.
pub proof fn lemma_run_total_is_tree_sum(
    alg: Algorithm,
    doc: &Document,
    selectors: Seq<SelectorInfo>,
    answers: &EngineAnswers,
    recs: Seq<ElementMatches>,
)
    requires
        doc.wf(),
        traversal_ok(alg, doc, selectors, answers, recs),
    ensures
        sum_stats(zero_for(alg), recs.map_values(|m: ElementMatches| m.stats)) == subtree_sum(
            doc,
            recorded_stats(recs),
            zero_for(alg),
            0,
        ),
{
    let ids = doc.elements_in(doc.subtree(0));
    let f = recorded_stats(recs);
    let ia = recs.map_values(|m: ElementMatches| m.id);
    assert(ia == ids.map_values(|x: usize| x as u64));
    assert(recs.len() == ids.len());
    assert forall|k: int| 0 <= k < recs.len() implies recs.map_values(|m: ElementMatches| m.stats)[k] == #[trigger] ids.map_values(f)[k] by {
        assert(ia[k] == recs[k].id);
        assert(ia[k] == ids[k] as u64);
        let j = choose|j: int| 0 <= j < recs.len() && (#[trigger] recs[j]).id == ids[k] as u64;
        assert(recs[k].id == ids[k] as u64);
        if j != k {
            assert(recs[j].id != recs[k].id);
        }
    }
    assert(recs.map_values(|m: ElementMatches| m.stats) =~= ids.map_values(f));
}

/// Determinism of the matches under every strategy: over a consistent
/// selector engine, two runs of one strategy give each record the same
/// result, down to the order of its selectors.
pub proof fn lemma_runs_deterministic_consistent(
    alg: Algorithm,
    doc: &Document,
    selectors: Seq<SelectorInfo>,
    answers: &EngineAnswers,
    a: Seq<ElementMatches>,
    b: Seq<ElementMatches>,
)
    requires
        doc.wf(),
        engine_consistent(doc, selectors, answers),
        traversal_ok(alg, doc, selectors, answers, a),
        traversal_ok(alg, doc, selectors, answers, b),
    ensures
        a.len() == b.len(),
        forall|k: int|
            0 <= k < a.len() ==> match (#[trigger] a[k]).selectors {
                SelectorsOrSharedStyles::Selectors(l1) => b[k].selectors matches SelectorsOrSharedStyles::Selectors(l2) && l1@ == l2@,
                SelectorsOrSharedStyles::SharedWithElement(o) => b[k].selectors == SelectorsOrSharedStyles::SharedWithElement(o),
            },
{
    lemma_runs_deterministic(alg, doc, selectors, answers, a, b);
    assert forall|k: int| 0 <= k < a.len() implies match (#[trigger] a[k]).selectors {
        SelectorsOrSharedStyles::Selectors(l1) => b[k].selectors matches SelectorsOrSharedStyles::Selectors(l2) && l1@ == l2@,
        SelectorsOrSharedStyles::SharedWithElement(o) => b[k].selectors == SelectorsOrSharedStyles::SharedWithElement(o),
    } by {
        assert(a[k].id == b[k].id);
        assert(record_ok(alg, doc, selectors, answers, a, k));
        assert(record_ok(alg, doc, selectors, answers, b, k));
        let e = a[k].id as int;
        assert(a[k].id < doc.nodes@.len() && doc.is_element(e));
        if let (SelectorsOrSharedStyles::Selectors(l1), SelectorsOrSharedStyles::Selectors(l2)) = (a[k].selectors, b[k].selectors) {
            assert forall|v: usize| l1@.contains(v) <==> l2@.contains(v) by {
                if v < selectors.len() && engine_matches(answers, e, v as int) {
                    assert(selectors[v as int].key.applies_to(element_at(doc, e)));
                    assert(candidates(doc, selectors, e).contains(v));
                }
            }
            lemma_ascending_unique(l1@, l2@);
        }
    }
}

proof fn lemma_record_ok_push(
    alg: Algorithm,
    doc: &Document,
    selectors: Seq<SelectorInfo>,
    answers: &EngineAnswers,
    recs: Seq<ElementMatches>,
    r: ElementMatches,
    k: int,
)
    requires
        0 <= k < recs.len(),
        record_ok(alg, doc, selectors, answers, recs, k),
    ensures
        record_ok(alg, doc, selectors, answers, recs.push(r), k),
{
    let rs = recs.push(r);
    assert(rs[k] == recs[k]);
    if let SelectorsOrSharedStyles::SharedWithElement(o) = recs[k].selectors {
        let k2 = choose|k2: int|
            0 <= k2 < k && (#[trigger] recs[k2]).id == o && recs[k2].selectors is Selectors
                && answers.sharing_keys@[recs[k].id as int] == answers.sharing_keys@[o as int];
        assert(rs[k2] == recs[k2]);
    }
}

/// A sequence of distinct values below `n` has at most `n` members.
proof fn lemma_distinct_bounded(s: Seq<usize>, n: nat)
    requires
        s.no_duplicates(),
        forall|k: int| 0 <= k < s.len() ==> (#[trigger] s[k]) < n,
    ensures
        s.len() <= n,
    decreases n,
{
    if n == 0 {
        if s.len() > 0 {
            assert(s[0] < n);
        }
    } else {
        let top = (n - 1) as usize;
        if s.contains(top) {
            let k = choose|k: int| 0 <= k < s.len() && s[k] == top;
            let t = s.remove(k);
            assert forall|j: int| 0 <= j < t.len() implies (#[trigger] t[j]) < n - 1 by {
                if j < k {
                    assert(t[j] == s[j]);
                    assert(s[j] != s[k]);
                } else {
                    assert(t[j] == s[j + 1]);
                    assert(s[j + 1] != s[k]);
                }
            }
            assert(t.no_duplicates()) by {
                assert forall|a: int, b: int| 0 <= a < b < t.len() implies t[a] != t[b] by {
                    let a2 = if a < k { a } else { a + 1 };
                    let b2 = if b < k { b } else { b + 1 };
                    assert(t[a] == s[a2]);
                    assert(t[b] == s[b2]);
                }
            }
            lemma_distinct_bounded(t, (n - 1) as nat);
        } else {
            assert forall|j: int| 0 <= j < s.len() implies (#[trigger] s[j]) < n - 1 by {
                assert(s.contains(s[j]));
            }
            lemma_distinct_bounded(s, (n - 1) as nat);
        }
    }
}

/// When a node is visited exactly when its parent is, and the root is, every node is.
proof fn lemma_all_visited(doc: &Document, visited: Seq<bool>, j: int)
    requires
        doc.wf(),
        visited.len() == doc.nodes@.len(),
        visited[0],
        forall|c: int|
            1 <= c < doc.nodes@.len() ==> #[trigger] visited[c] == visited[doc.parents@[c].unwrap() as int],
        0 <= j < doc.nodes@.len(),
    ensures
        visited[j],
    decreases j,
{
    if j > 0 {
        assert(doc.parents@[j] matches Some(p) && p < j);
        lemma_all_visited(doc, visited, doc.parents@[j].unwrap() as int);
    }
}

/// The result and work of element `e` are right, given the records before it.
pub open spec fn outcome_ok(
    alg: Algorithm,
    doc: &Document,
    selectors: Seq<SelectorInfo>,
    answers: &EngineAnswers,
    prefix: Seq<ElementMatches>,
    e: int,
    sel: SelectorsOrSharedStyles,
    st: Statistics,
) -> bool {
    match sel {
        SelectorsOrSharedStyles::Selectors(list) => direct_ok(alg, doc, selectors, answers, e, list@)
            && direct_stats_ok(alg, doc, selectors, e, list@.len(), st),
        SelectorsOrSharedStyles::SharedWithElement(o) => {
            &&& alg == Algorithm::WithStyleSharing
            &&& st == shared_stats()
            &&& answers.sharing_keys@[e] is Some
            &&& exists|k2: int|
                0 <= k2 < prefix.len() && (#[trigger] prefix[k2]).id == o && prefix[k2].selectors is Selectors
                    && answers.sharing_keys@[e] == answers.sharing_keys@[o as int]
        },
    }
}

/// Pushes `cs` onto the stack, last first, so that the first is on top.
fn push_children(stack: &mut Vec<usize>, cs: &Vec<usize>)
    requires
        old(stack)@.no_duplicates(),
        cs@.no_duplicates(),
        forall|x: usize| #[trigger] cs@.contains(x) ==> !old(stack)@.contains(x),
    ensures
        final(stack)@.no_duplicates(),
        forall|x: usize| #[trigger] final(stack)@.contains(x) <==> old(stack)@.contains(x) || cs@.contains(x),
        final(stack)@ == old(stack)@ + reversed_from(cs@, 0),
{
    let mut k: usize = cs.len();
    while k > 0
        invariant
            k <= cs@.len(),
            cs@.no_duplicates(),
            forall|x: usize| #[trigger] cs@.contains(x) ==> !old(stack)@.contains(x),
            stack@.no_duplicates(),
            forall|x: usize| #[trigger] stack@.contains(x) <==> old(stack)@.contains(x) || cs@.subrange(k as int, cs@.len() as int).contains(x),
            stack@ == old(stack)@ + reversed_from(cs@, k as int),
        decreases k,
    {
        k = k - 1;
        let c = cs[k];
        proof {
            let rest = cs@.subrange(k + 1, cs@.len() as int);
            let all = cs@.subrange(k as int, cs@.len() as int);
            assert(cs@.contains(c));
            if stack@.contains(c) {
                assert(rest.contains(c));
                let t = choose|t: int| 0 <= t < rest.len() && #[trigger] rest[t] == c;
                assert(cs@[k + 1 + t] == cs@[k as int]);
            }
            lemma_push_no_dup(stack@, c);
            assert forall|x: usize| #[trigger] all.contains(x) <==> x == c || rest.contains(x) by {
                if all.contains(x) {
                    let t = choose|t: int| 0 <= t < all.len() && #[trigger] all[t] == x;
                    if t > 0 {
                        assert(rest[t - 1] == x);
                    }
                }
                if rest.contains(x) {
                    let t = choose|t: int| 0 <= t < rest.len() && #[trigger] rest[t] == x;
                    assert(all[t + 1] == x);
                }
                if x == c {
                    assert(all[0] == x);
                }
            }
        }
        let ghost before = stack@;
        stack.push(c);
        proof {
            assert(reversed_from(cs@, k as int) == reversed_from(cs@, k + 1).push(c));
            assert(stack@ =~= old(stack)@ + reversed_from(cs@, k as int));
        }
    }
    proof {
        assert(cs@.subrange(0, cs@.len() as int) =~= cs@);
    }
}

/// Walks the document in preorder and matches every element under `alg`.
/// Returns one record per element, in the order visited, and the sum of
/// their work.
#[verifier::rlimit(100)]
pub fn traverse(
    doc: &Document,
    selectors: &Vec<SelectorInfo>,
    map: &SelectorMap,
    answers: &EngineAnswers,
    alg: Algorithm,
) -> (r: (DocumentMatches, Statistics))
    requires
        doc.wf(),
        fits(doc, selectors@, answers),
        map.wf(selectors@),
    ensures
        traversal_ok(alg, doc, selectors@, answers, r.0.0@),
        r.1 == sum_stats(zero_for(alg), r.0.0@.map_values(|m: ElementMatches| m.stats)),
{
    let n = doc.nodes.len();
    let mut visited: Vec<bool> = vec![false; n];
    let mut stack: Vec<usize> = vec![0];
    let mut out: Vec<ElementMatches> = Vec::new();
    let mut total = Statistics::zero(
        alg == Algorithm::WithBloomFilter || alg == Algorithm::WithStyleSharing,
        true,
        alg != Algorithm::Naive,
        alg == Algorithm::WithStyleSharing,
    );
    let mut filter = AncestorFilter::new();
    let mut cache = SharingCache::new(SHARING_CACHE_SIZE);
    let ghost mut order: Seq<usize> = Seq::empty();
    proof {
        assert(stack@ == seq![0usize]);
        assert(seq![0usize].drop_last() =~= Seq::<usize>::empty());
        assert(stack_order(doc, seq![0usize]) == doc.subtree(0) + stack_order(doc, Seq::<usize>::empty()));
        assert(stack_order(doc, seq![0usize]) =~= doc.subtree(0));
        assert(order + stack_order(doc, stack@) =~= doc.subtree(0));
        assert(out@.map_values(|m: ElementMatches| m.id) =~= doc.elements_in(order).map_values(|x: usize| x as u64));
        assert(total == zero_for(alg));
        assert(doc.elements_in(order) == Seq::<usize>::empty());
        assert(out@.map_values(|m: ElementMatches| m.stats) =~= Seq::<Statistics>::empty());
        assert forall|j: int| 1 <= j < n implies (#[trigger] visited@[j] || stack@.contains(j as usize)) == visited@[doc.parents@[j].unwrap() as int] by {
            assert(doc.parents@[j] matches Some(p) && p < j);
        }
    }
    while stack.len() > 0
        invariant
            doc.wf(),
            fits(doc, selectors@, answers),
            map.wf(selectors@),
            n == doc.nodes@.len(),
            visited@.len() == n,
            forall|j: int| 0 <= j < n ==> (#[trigger] visited@[j] <==> order.contains(j as usize)),
            order.no_duplicates(),
            forall|k: int| 0 <= k < order.len() ==> (#[trigger] order[k]) < n,
            stack@.no_duplicates(),
            forall|k: int|
                0 <= k < stack@.len() ==> (#[trigger] stack@[k]) < n && !visited@[stack@[k] as int],
            forall|j: int|
                1 <= j < n ==> (#[trigger] visited@[j] || stack@.contains(j as usize)) == visited@[doc.parents@[j].unwrap() as int],
            visited@[0] || (stack@ == seq![0usize] && order.len() == 0),
            order + stack_order(doc, stack@) == doc.subtree(0),
            out@.map_values(|m: ElementMatches| m.id) == doc.elements_in(order).map_values(|x: usize| x as u64),
            cache.capacity == SHARING_CACHE_SIZE,
            alg == Algorithm::WithStyleSharing ==> cache.entries@ == sharing_run(answers, doc.elements_in(order)).0,
            alg == Algorithm::WithStyleSharing ==> sharing_run(answers, doc.elements_in(order)).1.len() == out@.len(),
            alg == Algorithm::WithStyleSharing ==> shares_as_cache_says(out@, sharing_run(answers, doc.elements_in(order)).1),
            forall|k: int| 0 <= k < out@.len() ==> record_ok(alg, doc, selectors@, answers, out@, k),
            forall|k: int|
                0 <= k < out@.len() ==> (#[trigger] out@[k]).id < n && doc.is_element(out@[k].id as int)
                    && visited@[out@[k].id as int],
            forall|k1: int, k2: int|
                0 <= k1 < out@.len() && 0 <= k2 < out@.len() && k1 != k2 ==> (#[trigger] out@[k1]).id
                    != (#[trigger] out@[k2]).id,
            forall|i: int|
                0 <= i < n && #[trigger] doc.is_element(i) && visited@[i] ==> exists|k: int|
                    0 <= k < out@.len() && (#[trigger] out@[k]).id == i,
            total == sum_stats(zero_for(alg), out@.map_values(|m: ElementMatches| m.stats)),
            filter.wf(),
            filter.agrees(answers),
            forall|x: (u64, usize)| #[trigger]
                cache.entries@.contains(x) ==> x.1 < n && answers.sharing_keys@[x.1 as int] == Some(x.0)
                    && exists|k: int|
                    0 <= k < out@.len() && (#[trigger] out@[k]).id == x.1 && out@[k].selectors is Selectors,
        decreases n - order.len(),
    {
        let ghost old_stack = stack@;
        let ghost old_visited = visited@;
        let ghost old_out = out@;
        let ghost old_order = order;
        let ghost cache_start = cache.entries@;
        let i = stack.pop().unwrap();
        proof {
            assert(old_stack =~= stack@.push(i));
            assert(old_stack[old_stack.len() - 1] == i);
            assert(!visited@[i as int]);
            assert(!order.contains(i));
            lemma_push_no_dup(order, i);
            assert forall|k: int| 0 <= k < order.push(i).len() implies (#[trigger] order.push(i)[k]) < n by {
                if k < order.len() {
                    assert(order.push(i)[k] == order[k]);
                }
            }
            lemma_distinct_bounded(order.push(i), n as nat);
            assert(!stack@.contains(i)) by {
                if stack@.contains(i) {
                    let t = choose|t: int| #![auto] 0 <= t < stack@.len() && stack@[t] == i;
                    assert(old_stack[t] == old_stack[old_stack.len() - 1]);
                }
            }
        }
        visited.set(i, true);
        proof {
            order = order.push(i);
        }
        if doc.nodes[i].is_element() {
            let element = match &doc.nodes[i] {
                Node::Element(el) => el,
                _ => {
                    assert(false);
                    return (DocumentMatches(out), total);
                },
            };
            assert(*element == element_at(doc, i as int));
            let html = element.start_tag();
            let parent = match doc.parent_element_of(i) {
                Some(p) => Some(p as u64),
                None => None,
            };
            let sig = answers.sharing_keys[i];
            let mut fresh = false;
            let (sel, st) = if alg == Algorithm::Naive || alg == Algorithm::WithSelectorMap {
                let (l, st) = match_direct(alg, doc, selectors, map, answers, i, &filter);
                let sel = SelectorsOrSharedStyles::Selectors(l);
                assert(outcome_ok(alg, doc, selectors@, answers, out@, i as int, sel, st));
                (sel, st)
            } else {
                let chain = doc.element_ancestors_of(i);
                filter.insert_parents_recovering(doc, answers, i, chain.len());
                let ghost cache_before = cache.entries@;
                let shared = if alg == Algorithm::WithStyleSharing {
                    cache.share_style_if_possible(sig)
                } else {
                    None
                };
                match shared {
                    Some(o) => {
                        let st = Statistics {
                            fast_rejects: Some(0),
                            slow_rejects: Some(0),
                            selector_map_hits: Some(0),
                            sharing_instances: Some(1),
                        };
                        let sel = SelectorsOrSharedStyles::SharedWithElement(o as u64);
                        assert(alg == Algorithm::WithStyleSharing && cache_step(cache_start, SHARING_CACHE_SIZE as nat, sig, i) == (cache.entries@, Some(o)));
                        proof {
                            let g = sig.unwrap();
                            assert(cache_before.contains((g, o)));
                            let k2 = choose|k: int|
                                0 <= k < out@.len() && (#[trigger] out@[k]).id == o && out@[k].selectors is Selectors;
                            assert(answers.sharing_keys@[o as int] == Some(g));
                            assert(out@[k2].id == o as u64);
                        }
                        assert(outcome_ok(alg, doc, selectors@, answers, out@, i as int, sel, st));
                        (sel, st)
                    },
                    None => {
                        let (l, st) = match_direct(alg, doc, selectors, map, answers, i, &filter);
                        fresh = alg == Algorithm::WithStyleSharing;
                        let sel = SelectorsOrSharedStyles::Selectors(l);
                        assert(alg == Algorithm::WithStyleSharing ==> cache_step(cache_start, SHARING_CACHE_SIZE as nat, sig, i).1 is None
                            && cache.entries@ == cache_start && cache_step(cache_start, SHARING_CACHE_SIZE as nat, sig, i).0 == match sig {
                                Some(g) => crate::sharing::insert_front(cache_start, (g, i), SHARING_CACHE_SIZE as nat),
                                None => cache_start,
                            });
                        assert(outcome_ok(alg, doc, selectors@, answers, out@, i as int, sel, st));
                        (sel, st)
                    },
                }
            };
            assert(outcome_ok(alg, doc, selectors@, answers, out@, i as int, sel, st));
            assert(fresh ==> sel is Selectors);
            assert(alg == Algorithm::WithStyleSharing ==> match sel {
                SelectorsOrSharedStyles::SharedWithElement(o) => !fresh && cache_step(cache_start, SHARING_CACHE_SIZE as nat, sig, i) == (cache.entries@, Some(o as usize)),
                SelectorsOrSharedStyles::Selectors(_) => fresh && cache_step(cache_start, SHARING_CACHE_SIZE as nat, sig, i).1 is None
                    && cache.entries@ == cache_start && cache_step(cache_start, SHARING_CACHE_SIZE as nat, sig, i).0 == match sig {
                        Some(g) => crate::sharing::insert_front(cache_start, (g, i), SHARING_CACHE_SIZE as nat),
                        None => cache_start,
                    },
            });
            let rec = ElementMatches { id: i as u64, html, parent, selectors: sel, stats: st };
            proof {
                let recs = out@.push(rec);
                assert forall|k: int| 0 <= k < out@.len() implies record_ok(alg, doc, selectors@, answers, recs, k) by {
                    lemma_record_ok_push(alg, doc, selectors@, answers, out@, rec, k);
                }
                if let SelectorsOrSharedStyles::SharedWithElement(o) = rec.selectors {
                    let k2 = choose|k2: int|
                        0 <= k2 < out@.len() && (#[trigger] out@[k2]).id == o && out@[k2].selectors is Selectors
                            && answers.sharing_keys@[i as int] == answers.sharing_keys@[o as int];
                    assert(recs[k2] == out@[k2]);
                }
                assert(record_ok(alg, doc, selectors@, answers, recs, out@.len() as int));
                assert(recs.map_values(|m: ElementMatches| m.stats).drop_last() =~= out@.map_values(|m: ElementMatches| m.stats));
            }
            total = total.combine(&rec.stats);
            out.push(rec);
            proof {
                assert(order.drop_last() =~= old_order);
                assert(doc.elements_in(order) == doc.elements_in(old_order).push(i));
                assert(out@.len() == old_out.len() + 1);
                assert(out@[old_out.len() as int].id == i as u64);
                assert forall|j: int| 0 <= j < old_out.len() implies out@[j] == old_out[j] by {}
                assert(out@.map_values(|m: ElementMatches| m.id) =~= old_out.map_values(|m: ElementMatches| m.id).push(i as u64));
                assert(doc.elements_in(order).map_values(|x: usize| x as u64) =~= doc.elements_in(old_order).map_values(|x: usize| x as u64).push(i as u64));
                assert forall|k: int| 0 <= k < out@.len() implies (#[trigger] out@[k]).id < n && doc.is_element(out@[k].id as int)
                    && visited@[out@[k].id as int] by {
                    if k < old_out.len() {
                        assert(out@[k] == old_out[k]);
                    }
                }
                assert forall|k1: int, k2: int|
                    0 <= k1 < out@.len() && 0 <= k2 < out@.len() && k1 != k2 implies (#[trigger] out@[k1]).id
                        != (#[trigger] out@[k2]).id by {
                    if k1 < old_out.len() {
                        assert(out@[k1] == old_out[k1]);
                        assert(old_visited[old_out[k1].id as int]);
                    }
                    if k2 < old_out.len() {
                        assert(out@[k2] == old_out[k2]);
                        assert(old_visited[old_out[k2].id as int]);
                    }
                }
                assert forall|j: int|
                    0 <= j < n && #[trigger] doc.is_element(j) && visited@[j] implies exists|k: int|
                        0 <= k < out@.len() && (#[trigger] out@[k]).id == j by {
                    if j == i {
                        assert(out@[old_out.len() as int].id == j);
                    } else {
                        assert(old_visited[j]);
                        let k = choose|k: int| 0 <= k < old_out.len() && (#[trigger] old_out[k]).id == j;
                        assert(out@[k] == old_out[k]);
                    }
                }
            }
            let ghost cache_mid = cache.entries@;
            if fresh {
                cache.insert_if_possible(sig, i);
            }
            proof {
                if alg == Algorithm::WithStyleSharing {
                    let e_old = doc.elements_in(old_order);
                    let e_new = doc.elements_in(order);
                    assert(e_new == e_old.push(i));
                    assert(e_new.drop_last() =~= e_old);
                    let prev = sharing_run(answers, e_old);
                    assert(prev.0 == cache_start);
                    let step = cache_step(cache_start, SHARING_CACHE_SIZE as nat, sig, i);
                    assert(sharing_run(answers, e_new) == (step.0, prev.1.push(step.1)));
                    assert(cache.entries@ == step.0);
                    let shares = prev.1.push(step.1);
                    assert forall|k: int| 0 <= k < out@.len() implies match #[trigger] shares[k] {
                        Some(o) => out@[k].selectors == SelectorsOrSharedStyles::SharedWithElement(o as u64),
                        None => out@[k].selectors is Selectors,
                    } by {
                        if k < old_out.len() {
                            assert(shares[k] == prev.1[k]);
                            assert(out@[k] == old_out[k]);
                        }
                    }
                }
            }
            proof {
                assert forall|x: (u64, usize)| #[trigger] cache.entries@.contains(x) implies x.1 < n
                    && answers.sharing_keys@[x.1 as int] == Some(x.0) && exists|k: int|
                    0 <= k < out@.len() && (#[trigger] out@[k]).id == x.1 && out@[k].selectors is Selectors by {
                    if cache_mid.contains(x) {
                        let k = choose|k: int|
                            0 <= k < old_out.len() && (#[trigger] old_out[k]).id == x.1 && old_out[k].selectors is Selectors;
                        assert(out@[k] == old_out[k]);
                    } else {
                        assert(out@[old_out.len() as int].id == x.1);
                    }
                }
            }
        }
        else {
            proof {
                assert(order.drop_last() =~= old_order);
                assert(!doc.is_element(i as int));
                assert(doc.elements_in(order) == doc.elements_in(old_order));
            }
        }
        let cs = doc.children(i);
        proof {
            assert forall|x: usize| #[trigger] cs@.contains(x) implies !stack@.contains(x) && x < n && !visited@[x as int] && doc.parents@[x as int] == Some(i) by {
                let t = choose|t: int| #![auto] 0 <= t < cs@.len() && cs@[t] == x;
                assert(doc.children@[i as int]@[t] == x);
                assert(!old_visited[x as int] && !old_stack.contains(x));
                if stack@.contains(x) {
                    let u = choose|u: int| #![auto] 0 <= u < stack@.len() && stack@[u] == x;
                    assert(old_stack[u] == x);
                }
            }
        }
        let ghost popped = stack@;
        push_children(&mut stack, cs);
        proof {
            lemma_stack_children(doc, popped, i, 0);
            assert(old_stack.drop_last() =~= popped);
            assert(stack_order(doc, old_stack) == doc.subtree(i as int) + stack_order(doc, popped));
            assert(doc.subtree(i as int) == seq![i] + doc.forest(i as int, 0));
            assert(order + stack_order(doc, stack@) =~= old_order + stack_order(doc, old_stack));
            assert forall|k: int| 0 <= k < stack@.len() implies (#[trigger] stack@[k]) < n && !visited@[stack@[k] as int] by {
                let x = stack@[k];
                assert(stack@.contains(x));
                if !cs@.contains(x) {
                    let u = choose|u: int| #![auto] 0 <= u < popped.len() && popped[u] == x;
                    assert(old_stack[u] == x);
                    assert(x != i);
                }
            }
            assert forall|j: int| 1 <= j < n implies (#[trigger] visited@[j] || stack@.contains(j as usize)) == visited@[doc.parents@[j].unwrap() as int] by {
                let p = doc.parents@[j].unwrap();
                assert(doc.parents@[j] matches Some(q) && q < j);
                if p == i {
                    assert(doc.children@[i as int]@.contains(j as usize));
                } else {
                    assert(!cs@.contains(j as usize)) by {
                        if cs@.contains(j as usize) {
                            let t = choose|t: int| #![auto] 0 <= t < cs@.len() && cs@[t] == j as usize;
                            assert(doc.children@[i as int]@[t] == j as usize);
                        }
                    }
                    if j as usize != i {
                        assert(old_stack.contains(j as usize) == stack@.contains(j as usize)) by {
                            if old_stack.contains(j as usize) {
                                let u = choose|u: int| #![auto] 0 <= u < old_stack.len() && old_stack[u] == j as usize;
                                assert(u < old_stack.len() - 1);
                                assert(popped[u] == j as usize);
                            }
                            if popped.contains(j as usize) {
                                let u = choose|u: int| #![auto] 0 <= u < popped.len() && popped[u] == j as usize;
                                assert(old_stack[u] == j as usize);
                            }
                        }
                    }
                }
            }
        }
    }
    proof {
        assert(stack@ =~= Seq::<usize>::empty());
        assert(order =~= doc.subtree(0));
        assert forall|j: int| 1 <= j < n implies #[trigger] visited@[j] == visited@[doc.parents@[j].unwrap() as int] by {
            assert(!stack@.contains(j as usize));
        }
        assert forall|j: int| 0 <= j < n implies #[trigger] visited@[j] by {
            lemma_all_visited(doc, visited@, j);
        }
    }
    (DocumentMatches(out), total)
}

} // verus!
