//! What the selector engine tells the matcher about selectors and elements.
use vstd::prelude::*;
use crate::document::Document;
use crate::node::{attr_value, classes_of, contains_str, id_key, str_eq, str_views, Element, Node};

verus! {

/// The cheap discriminator that a selector map files a selector under: the id,
/// a class or the local name required by its rightmost compound selector, or
/// none of those.
#[derive(Clone, Debug)]
pub enum RuleKey {
    Id(String),
    Class(String),
    LocalName(String),
    Universal,
}

impl RuleKey {
    /// The key as a kind tag and a name.
    pub open spec fn spec_key(&self) -> (nat, Seq<char>) {
        match self {
            RuleKey::Id(s) => (0, s@),
            RuleKey::Class(s) => (1, s@),
            RuleKey::LocalName(s) => (2, s@),
            RuleKey::Universal => (3, Seq::empty()),
        }
    }

    /// Whether two keys are the same.
    pub fn same(&self, other: &RuleKey) -> (r: bool)
        ensures
            r == (self.spec_key() == other.spec_key()),
    {
        match (self, other) {
            (RuleKey::Id(a), RuleKey::Id(b)) => str_eq(a.as_str(), b.as_str()),
            (RuleKey::Class(a), RuleKey::Class(b)) => str_eq(a.as_str(), b.as_str()),
            (RuleKey::LocalName(a), RuleKey::LocalName(b)) => str_eq(a.as_str(), b.as_str()),
            (RuleKey::Universal, RuleKey::Universal) => true,
            _ => false,
        }
    }

    /// Returns a copy of the key.
    pub fn copy_key(&self) -> (r: RuleKey)
        ensures
            r.spec_key() == self.spec_key(),
    {
        match self {
            RuleKey::Id(s) => RuleKey::Id(s.clone()),
            RuleKey::Class(s) => RuleKey::Class(s.clone()),
            RuleKey::LocalName(s) => RuleKey::LocalName(s.clone()),
            RuleKey::Universal => RuleKey::Universal,
        }
    }

    /// The element carries this key.
    pub open spec fn applies_to(&self, e: Element) -> bool {
        match self {
            RuleKey::Id(s) => attr_value(e.attrs@, id_key()) == Some(s@),
            RuleKey::Class(s) => classes_of(e.attrs@).contains(s@),
            RuleKey::LocalName(s) => e.name@ == s@,
            RuleKey::Universal => true,
        }
    }

    /// Whether the element carries this key.
    pub fn applies(&self, e: &Element) -> (r: bool)
        ensures
            r == self.applies_to(*e),
    {
        match self {
            RuleKey::Id(s) => match e.id() {
                Some(v) => str_eq(v, s.as_str()),
                None => false,
            },
            RuleKey::Class(s) => {
                let classes = e.classes();
                let r = contains_str(&classes, s.as_str());
                proof {
                    assert(r == str_views(classes@).contains(s@));
                }
                r
            },
            RuleKey::LocalName(s) => str_eq(e.name(), s.as_str()),
            RuleKey::Universal => true,
        }
    }
}

/// A selector as the matcher sees it: its text, the key under which a selector
/// map files it, and the fingerprints that its ancestor combinators require.
#[derive(Clone, Debug)]
pub struct SelectorInfo {
    pub text: String,
    pub key: RuleKey,
    pub ancestor_hashes: Vec<u32>,
}

/// The answers of the selector engine for one document and one selector list:
/// `matches[i][s]` says whether selector `s` matches node `i`; `fingerprints[i]`
/// holds the fingerprints that element `i` adds to an ancestor filter;
/// `sharing_keys[i]` is the style-sharing signature of element `i`, if it may
/// share at all (two elements with the same signature are interchangeable).
#[derive(Clone, Debug)]
pub struct EngineAnswers {
    pub matches: Vec<Vec<bool>>,
    pub fingerprints: Vec<Vec<u32>>,
    pub sharing_keys: Vec<Option<u64>>,
}

/// Whether `(doc, selectors, answers)` belong together: one row per node, one
/// column per selector.
pub open spec fn fits(doc: &Document, selectors: Seq<SelectorInfo>, answers: &EngineAnswers) -> bool {
    &&& answers.matches@.len() == doc.nodes@.len()
    &&& answers.fingerprints@.len() == doc.nodes@.len()
    &&& answers.sharing_keys@.len() == doc.nodes@.len()
    &&& forall|i: int|
        0 <= i < doc.nodes@.len() ==> (#[trigger] answers.matches@[i])@.len() == selectors.len()
}

/// Whether the answers have one row per node and one column per selector.
pub fn answers_fit(doc: &Document, selectors: &Vec<SelectorInfo>, answers: &EngineAnswers) -> (r: bool)
    ensures
        r == fits(doc, selectors@, answers),
{
    let n = doc.nodes.len();
    if answers.matches.len() != n || answers.fingerprints.len() != n || answers.sharing_keys.len() != n {
        return false;
    }
    let mut i: usize = 0;
    while i < n
        invariant
            i <= n,
            n == doc.nodes@.len(),
            answers.matches@.len() == n,
            forall|j: int| 0 <= j < i ==> (#[trigger] answers.matches@[j])@.len() == selectors@.len(),
        decreases n - i,
    {
        if answers.matches[i].len() != selectors.len() {
            return false;
        }
        i = i + 1;
    }
    true
}

/// Selector `s` matches node `i` according to the engine.
pub open spec fn engine_matches(answers: &EngineAnswers, i: int, s: int) -> bool {
    answers.matches@[i]@[s]
}

/// The element at node `i`.
pub open spec fn element_at(doc: &Document, i: int) -> Element {
    match doc.nodes@[i] {
        Node::Element(e) => e,
        _ => Element { name: arbitrary(), attrs: arbitrary() },
    }
}

/// The sequences of `s`, one after another.
pub open spec fn concat_all(s: Seq<Seq<u32>>) -> Seq<u32>
    decreases s.len(),
{
    if s.len() == 0 {
        Seq::empty()
    } else {
        concat_all(s.drop_last()) + s.last()
    }
}

/// The fingerprints of the given elements, one element after another.
pub open spec fn fingerprints_of(answers: &EngineAnswers, elements: Seq<usize>) -> Seq<u32> {
    concat_all(elements.map_values(|a: usize| answers.fingerprints@[a as int]@))
}

/// The fingerprints of all element ancestors of node `i`, outermost first.
pub open spec fn ancestor_fingerprints(doc: &Document, answers: &EngineAnswers, i: int) -> Seq<u32> {
    fingerprints_of(answers, doc.element_ancestors(i))
}

/// Every ancestor fingerprint that selector `s` requires is present among those
/// of node `i`'s element ancestors.
pub open spec fn hashes_present(
    doc: &Document,
    selectors: Seq<SelectorInfo>,
    answers: &EngineAnswers,
    i: int,
    s: int,
) -> bool {
    forall|h: u32| #[trigger]
        selectors[s].ancestor_hashes@.contains(h) ==> ancestor_fingerprints(doc, answers, i).contains(
            h,
        )
}

/// What a sound selector engine guarantees: a selector matches an element only
/// if the element carries the selector's key and every ancestor fingerprint the
/// selector requires is present; elements with the same sharing signature are
/// matched by the same selectors.
pub open spec fn engine_consistent(
    doc: &Document,
    selectors: Seq<SelectorInfo>,
    answers: &EngineAnswers,
) -> bool {
    &&& forall|i: int, s: int|
        0 <= i < doc.nodes@.len() && 0 <= s < selectors.len() && doc.is_element(i)
            && #[trigger] engine_matches(answers, i, s) ==> selectors[s].key.applies_to(
            element_at(doc, i),
        ) && hashes_present(doc, selectors, answers, i, s)
    &&& forall|i: int, j: int|
        0 <= i < doc.nodes@.len() && 0 <= j < doc.nodes@.len() && doc.is_element(i)
            && doc.is_element(j) && (#[trigger] answers.sharing_keys@[i]) is Some
            && answers.sharing_keys@[i] == #[trigger] answers.sharing_keys@[j] ==> answers.matches@[i]@
            == answers.matches@[j]@
}

} // verus!
