//! Selector matching over HTML documents, with several strategies that must agree.
//!
//! A document is a tree of nodes ([`document::Document`]). The selector engine's
//! answers for a document ([`selector::EngineAnswers`]) say which selectors match
//! which elements. [`traversal::traverse`] walks the elements in preorder and
//! finds each one's matches by one of four strategies; [`canonical`] turns a run
//! into selector texts per element, the form in which runs are compared.
use vstd::prelude::*;

pub mod node;
pub mod document;
pub mod selector;
pub mod selector_map;
pub mod bloom;
pub mod sharing;
pub mod stats;
pub mod traversal;
pub mod canonical;
pub mod result;
pub mod parse;

use crate::canonical::{
    canonical, lemma_converted_canonical, lemma_converted_position,
    lemma_converted_resolve, lemma_run_well_formed, has_distinct_ids, ids_distinct, lemma_strategies_agree, position_of, resolve,
    set_position_of, set_resolve, SerDocumentMatches, SetDocumentMatches,
};
use crate::document::Document;
use crate::selector::{engine_consistent, fits, EngineAnswers, SelectorInfo};
use crate::selector_map::{build_selector_map, SelectorMap};
use crate::traversal::{traverse, traversal_ok, Algorithm, DocumentMatches, SelectorsOrSharedStyles};

verus! {

/// Matches every element of the document against every selector.
pub fn match_selectors(document: &Document, selectors: &Vec<SelectorInfo>, answers: &EngineAnswers) -> (r: DocumentMatches)
    requires
        document.wf(),
        fits(document, selectors@, answers),
    ensures
        traversal_ok(Algorithm::Naive, document, selectors@, answers, r.0@),
{
    let map = build_selector_map(selectors);
    traverse(document, selectors, &map, answers, Algorithm::Naive).0
}

/// Matches every element of the document against the candidates that the
/// selector map offers for it.
pub fn match_selectors_with_selector_map(
    document: &Document,
    selectors: &Vec<SelectorInfo>,
    selector_map: &SelectorMap,
    answers: &EngineAnswers,
) -> (r: DocumentMatches)
    requires
        document.wf(),
        fits(document, selectors@, answers),
        selector_map.wf(selectors@),
    ensures
        traversal_ok(Algorithm::WithSelectorMap, document, selectors@, answers, r.0@),
{
    traverse(document, selectors, selector_map, answers, Algorithm::WithSelectorMap).0
}

/// The canonical form of a run: each element key once, with the texts of the
/// selectors it resolves to. `None` when two records have the same key or
/// some record does not resolve.
pub fn canonicalize(matches: &DocumentMatches, selectors: &Vec<SelectorInfo>) -> (r: Option<SerDocumentMatches>)
    requires
        indices_below(matches.0@, selectors@.len()),
    ensures
        r is Some <==> ids_distinct(matches.0@) && all_resolve(matches.0@),
        r matches Some(x) ==> x.keys_distinct() && x.view_map() == canonical(matches.0@, selectors@),
{
    if !has_distinct_ids(matches) {
        return None;
    }
    let set = SetDocumentMatches::from_matches(matches, selectors);
    let r = SerDocumentMatches::from_set(&set);
    proof {
        let recs = matches.0@;
        lemma_converted_canonical(recs, selectors@, set.0@);
        assert forall|p: int| 0 <= p < recs.len() implies (set_position_of(set.0@, (#[trigger] set.0@[p]).id) == Some(p)
            ==> set_resolve(set.0@, p) is Some) == (position_of(recs, recs[p].id) == Some(p) ==> resolve(recs, p) is Some) by {
            assert(set.0@[p].id == recs[p].id);
            lemma_converted_position(recs, selectors@, set.0@, recs[p].id);
            lemma_converted_resolve(recs, selectors@, set.0@, p);
        }
        if r is Some {
            assert forall|p: int| 0 <= p < recs.len() && position_of(recs, (#[trigger] recs[p]).id) == Some(p) implies resolve(recs, p) is Some by {
                assert(set.0@[p].id == recs[p].id);
            }
        } else {
            let p = choose|p: int| !(0 <= p < set.0@.len() && set_position_of(set.0@, (#[trigger] set.0@[p]).id) == Some(p)
                ==> set_resolve(set.0@, p) is Some);
            assert(set.0@[p].id == recs[p].id);
        }
    }
    r
}

/// Every first record of an element in a run resolves.
pub open spec fn all_resolve(recs: Seq<crate::traversal::ElementMatches>) -> bool {
    forall|p: int|
        0 <= p < recs.len() && position_of(recs, (#[trigger] recs[p]).id) == Some(p) ==> resolve(recs, p) is Some
}

/// Every selector index in a run names one of `m` selectors.
pub open spec fn indices_below(recs: Seq<crate::traversal::ElementMatches>, m: nat) -> bool {
    forall|k: int| 0 <= k < recs.len() ==> match #[trigger] recs[k].selectors {
        SelectorsOrSharedStyles::Selectors(list) => forall|j: int| 0 <= j < list@.len() ==> (#[trigger] list@[j]) < m,
        _ => true,
    }
}

/// Whether two runs have the same canonical form: neither repeats a key, both
/// resolve, and they give every element key the same selector texts.
pub fn runs_agree(run: &DocumentMatches, other: &DocumentMatches, selectors: &Vec<SelectorInfo>) -> (r: bool)
    requires
        indices_below(run.0@, selectors@.len()),
        indices_below(other.0@, selectors@.len()),
    ensures
        r == (ids_distinct(run.0@) && ids_distinct(other.0@) && all_resolve(run.0@) && all_resolve(other.0@)
            && canonical(run.0@, selectors@) == canonical(other.0@, selectors@)),
{
    let a = canonicalize(run, selectors);
    let b = canonicalize(other, selectors);
    match (a, b) {
        (Some(x), Some(y)) => x.equivalent(&y),
        _ => false,
    }
}

/// The oracle of the whole engine: runs `alg` and the naive strategy on the
/// document and returns whether their canonical forms agree, with the two
/// runs. Over a consistent selector engine they always agree; where they do
/// not, the runs show where.
pub fn strategies_agree(document: &Document, selectors: &Vec<SelectorInfo>, answers: &EngineAnswers, alg: Algorithm) -> (r: (bool, DocumentMatches, DocumentMatches))
    requires
        document.wf(),
        fits(document, selectors@, answers),
    ensures
        traversal_ok(alg, document, selectors@, answers, r.1.0@),
        traversal_ok(Algorithm::Naive, document, selectors@, answers, r.2.0@),
        r.0 == (canonical(r.1.0@, selectors@) == canonical(r.2.0@, selectors@)),
        engine_consistent(document, selectors@, answers) ==> r.0,
{
    let map = build_selector_map(selectors);
    let (run, _) = traverse(document, selectors, &map, answers, alg);
    let (naive, _) = traverse(document, selectors, &map, answers, Algorithm::Naive);
    proof {
        lemma_run_well_formed(alg, document, selectors@, answers, run.0@);
        lemma_run_well_formed(Algorithm::Naive, document, selectors@, answers, naive.0@);
        assert(ids_distinct(run.0@));
        assert(ids_distinct(naive.0@));
        if engine_consistent(document, selectors@, answers) {
            lemma_strategies_agree(alg, document, selectors@, answers, run.0@, naive.0@);
        }
    }
    let agree = runs_agree(&run, &naive, selectors);
    proof {
        assert(all_resolve(run.0@)) by {
            assert forall|p: int| 0 <= p < run.0@.len() && position_of(run.0@, (#[trigger] run.0@[p]).id) == Some(p) implies resolve(run.0@, p) is Some by {
                assert(resolve(run.0@, p) is Some);
            }
        }
        assert(all_resolve(naive.0@)) by {
            assert forall|p: int| 0 <= p < naive.0@.len() && position_of(naive.0@, (#[trigger] naive.0@[p]).id) == Some(p) implies resolve(naive.0@, p) is Some by {
                assert(resolve(naive.0@, p) is Some);
            }
        }
    }
    (agree, run, naive)
}

} // verus!
