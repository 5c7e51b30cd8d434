//! Canonical results: sharing references resolved and selectors replaced by
//! their text, so that the results of two strategies can be compared.
use vstd::prelude::*;
use crate::node::{contains_str, str_views};
use crate::document::Document;
use crate::selector::{engine_consistent, engine_matches, fits, EngineAnswers, SelectorInfo};
use crate::traversal::{direct_ok, traversal_ok, record_ok, candidates, Algorithm};
use crate::traversal::{DocumentMatches, ElementMatches, SelectorsOrSharedStyles};

verus! {

broadcast use vstd::seq_lib::group_seq_properties;

/// The texts of the given selectors.
pub open spec fn texts(selectors: Seq<SelectorInfo>, ids: Set<usize>) -> Set<Seq<char>> {
    ids.map(|s: usize| selectors[s as int].text@)
}

/// The position of the first record of element `id`.
#[verifier::opaque]
pub open spec fn position_of(recs: Seq<ElementMatches>, id: u64) -> Option<int> {
    if exists|p: int| 0 <= p < recs.len() && (#[trigger] recs[p]).id == id {
        Some(
            choose|p: int|
                0 <= p < recs.len() && (#[trigger] recs[p]).id == id && forall|q: int|
                    0 <= q < p ==> (#[trigger] recs[q]).id != id,
        )
    } else {
        None
    }
}

proof fn lemma_position_of(recs: Seq<ElementMatches>, id: u64, p: int)
    requires
        0 <= p < recs.len(),
        recs[p].id == id,
        forall|q: int| 0 <= q < p ==> (#[trigger] recs[q]).id != id,
    ensures
        position_of(recs, id) == Some(p),
{
    reveal(position_of);
    let c = choose|c: int|
        0 <= c < recs.len() && (#[trigger] recs[c]).id == id && forall|q: int|
            0 <= q < c ==> (#[trigger] recs[q]).id != id;
    if c < p {
        assert(recs[c].id != id);
    }
    if p < c {
        assert(recs[p].id != id);
    }
}

proof fn lemma_position_none(recs: Seq<ElementMatches>, id: u64)
    requires
        forall|j: int| 0 <= j < recs.len() ==> (#[trigger] recs[j]).id != id,
    ensures
        position_of(recs, id) is None,
{
    reveal(position_of);
}

proof fn lemma_position_exists(recs: Seq<ElementMatches>, id: u64, w: int)
    requires
        0 <= w < recs.len(),
        recs[w].id == id,
    ensures
        position_of(recs, id) matches Some(p) && 0 <= p <= w && recs[p].id == id && forall|q: int|
            0 <= q < p ==> (#[trigger] recs[q]).id != id,
    decreases w,
{
    if exists|q: int| 0 <= q < w && (#[trigger] recs[q]).id == id {
        let q = choose|q: int| 0 <= q < w && (#[trigger] recs[q]).id == id;
        lemma_position_exists(recs, id, q);
    } else {
        lemma_position_of(recs, id, w);
    }
}

/// A record position is found for every key that has a record.
proof fn lemma_position_some(recs: Seq<ElementMatches>, id: u64)
    requires
        position_of(recs, id) is Some,
    ensures
        position_of(recs, id) matches Some(p) && 0 <= p < recs.len() && recs[p].id == id && forall|q: int|
            0 <= q < p ==> (#[trigger] recs[q]).id != id,
{
    reveal(position_of);
    let w = choose|w: int| 0 <= w < recs.len() && (#[trigger] recs[w]).id == id;
    lemma_position_exists(recs, id, w);
}

/// The selectors that the record at position `p` stands for: its own, or, by
/// following references to earlier records, those of the record it shares
/// with. `None` when a reference leads nowhere or forward.
pub open spec fn resolve(recs: Seq<ElementMatches>, p: int) -> Option<Set<usize>>
    decreases p,
{
    if 0 <= p < recs.len() {
        match recs[p].selectors {
            SelectorsOrSharedStyles::Selectors(list) => Some(list@.to_set()),
            SelectorsOrSharedStyles::SharedWithElement(o) => match position_of(recs, o) {
                Some(q) => if 0 <= q < p {
                    resolve(recs, q)
                } else {
                    None
                },
                None => None,
            },
        }
    } else {
        None
    }
}

/// How many references are followed to resolve the record at position `p`.
pub open spec fn hops(recs: Seq<ElementMatches>, p: int) -> nat
    decreases p,
{
    if 0 <= p < recs.len() {
        match recs[p].selectors {
            SelectorsOrSharedStyles::Selectors(_) => 0,
            SelectorsOrSharedStyles::SharedWithElement(o) => match position_of(recs, o) {
                Some(q) => if 0 <= q < p {
                    1 + hops(recs, q)
                } else {
                    1
                },
                None => 1,
            },
        }
    } else {
        0
    }
}

/// Sharing acyclicity: resolving the record at position `p` follows at most
/// `p` references, each to an earlier record, so it ends within the number
/// of records before it.
pub proof fn lemma_resolution_bounded(recs: Seq<ElementMatches>, p: int)
    requires
        0 <= p < recs.len(),
        resolve(recs, p) is Some,
    ensures
        hops(recs, p) <= p,
    decreases p,
{
    if let SelectorsOrSharedStyles::SharedWithElement(o) = recs[p].selectors {
        let q = position_of(recs, o).unwrap();
        lemma_resolution_bounded(recs, q);
    }
}

/// The canonical form of a run: for each element key whose record resolves,
/// the texts of the selectors that matched it.
pub open spec fn canonical(recs: Seq<ElementMatches>, selectors: Seq<SelectorInfo>) -> Map<u64, Set<Seq<char>>> {
    Map::new(
        |id: u64| position_of(recs, id) is Some && resolve(recs, position_of(recs, id).unwrap()) is Some,
        |id: u64| texts(selectors, resolve(recs, position_of(recs, id).unwrap()).unwrap()),
    )
}

/// The selectors that the engine says match node `e`.
pub open spec fn match_set(answers: &EngineAnswers, m: nat, e: int) -> Set<usize> {
    Set::new(|s: usize| s < m && engine_matches(answers, e, s as int))
}

/// In a run over a consistent engine, every record resolves to exactly the
/// selectors that match its element.
pub proof fn lemma_run_resolves(
    alg: Algorithm,
    doc: &Document,
    selectors: Seq<SelectorInfo>,
    answers: &EngineAnswers,
    recs: Seq<ElementMatches>,
    p: int,
)
    requires
        doc.wf(),
        fits(doc, selectors, answers),
        engine_consistent(doc, selectors, answers),
        traversal_ok(alg, doc, selectors, answers, recs),
        0 <= p < recs.len(),
    ensures
        resolve(recs, p) == Some(match_set(answers, selectors.len(), recs[p].id as int)),
    decreases p,
{
    let e = recs[p].id as int;
    let m = selectors.len();
    assert(record_ok(alg, doc, selectors, answers, recs, p));
    assert(recs[p].id < doc.nodes@.len() && doc.is_element(e));
    match recs[p].selectors {
        SelectorsOrSharedStyles::Selectors(list) => {
            assert(direct_ok(alg, doc, selectors, answers, e, list@));
            assert forall|s: usize| list@.to_set().contains(s) <==> match_set(answers, m, e).contains(s) by {
                if s < m && engine_matches(answers, e, s as int) {
                    assert(selectors[s as int].key.applies_to(crate::selector::element_at(doc, e)));
                    assert(candidates(doc, selectors, e).contains(s));
                }
                if list@.contains(s) && alg != Algorithm::Naive {
                    assert(candidates(doc, selectors, e).contains(s));
                }
            }
            assert(list@.to_set() =~= match_set(answers, m, e));
        },
        SelectorsOrSharedStyles::SharedWithElement(o) => {
            let k2 = choose|k2: int|
                0 <= k2 < p && (#[trigger] recs[k2]).id == o && recs[k2].selectors is Selectors
                    && answers.sharing_keys@[e] == answers.sharing_keys@[o as int];
            assert forall|q: int| 0 <= q < k2 implies (#[trigger] recs[q]).id != o by {
                assert(recs[q].id != recs[k2].id);
            }
            lemma_position_of(recs, o, k2);
            lemma_run_resolves(alg, doc, selectors, answers, recs, k2);
            assert(recs[k2].id < doc.nodes@.len() && doc.is_element(o as int));
            assert(answers.matches@[e]@ == answers.matches@[o as int]@);
            assert(match_set(answers, m, e) =~= match_set(answers, m, o as int));
        },
    }
}

/// Every record of a run resolves, and every selector index in it is in range.
pub proof fn lemma_run_well_formed(
    alg: Algorithm,
    doc: &Document,
    selectors: Seq<SelectorInfo>,
    answers: &EngineAnswers,
    recs: Seq<ElementMatches>,
)
    requires
        traversal_ok(alg, doc, selectors, answers, recs),
    ensures
        forall|p: int| 0 <= p < recs.len() ==> #[trigger] resolve(recs, p) is Some,
        forall|k: int| 0 <= k < recs.len() ==> match #[trigger] recs[k].selectors {
            SelectorsOrSharedStyles::Selectors(list) => forall|j: int| 0 <= j < list@.len() ==> (#[trigger] list@[j]) < selectors.len(),
            _ => true,
        },
{
    assert forall|p: int| 0 <= p < recs.len() implies #[trigger] resolve(recs, p) is Some by {
        lemma_run_resolves_some(alg, doc, selectors, answers, recs, p);
    }
    assert forall|k: int| 0 <= k < recs.len() implies match #[trigger] recs[k].selectors {
        SelectorsOrSharedStyles::Selectors(list) => forall|j: int| 0 <= j < list@.len() ==> (#[trigger] list@[j]) < selectors.len(),
        _ => true,
    } by {
        assert(record_ok(alg, doc, selectors, answers, recs, k));
        if let SelectorsOrSharedStyles::Selectors(list) = recs[k].selectors {
            assert forall|j: int| 0 <= j < list@.len() implies (#[trigger] list@[j]) < selectors.len() by {
                assert(list@.contains(list@[j]));
            }
        }
    }
}

proof fn lemma_run_resolves_some(
    alg: Algorithm,
    doc: &Document,
    selectors: Seq<SelectorInfo>,
    answers: &EngineAnswers,
    recs: Seq<ElementMatches>,
    p: int,
)
    requires
        traversal_ok(alg, doc, selectors, answers, recs),
        0 <= p < recs.len(),
    ensures
        resolve(recs, p) is Some,
    decreases p,
{
    assert(record_ok(alg, doc, selectors, answers, recs, p));
    if let SelectorsOrSharedStyles::SharedWithElement(o) = recs[p].selectors {
        let k2 = choose|k2: int|
            0 <= k2 < p && (#[trigger] recs[k2]).id == o && recs[k2].selectors is Selectors
                && answers.sharing_keys@[recs[p].id as int] == answers.sharing_keys@[o as int];
        assert forall|q: int| 0 <= q < k2 implies (#[trigger] recs[q]).id != o by {
            assert(recs[q].id != recs[k2].id);
        }
        lemma_position_of(recs, o, k2);
        assert(resolve(recs, k2) is Some);
    }
}

/// The canonical form of a run over a consistent engine maps each element to
/// the texts of the selectors that match it.
proof fn lemma_run_canonical(
    alg: Algorithm,
    doc: &Document,
    selectors: Seq<SelectorInfo>,
    answers: &EngineAnswers,
    recs: Seq<ElementMatches>,
)
    requires
        doc.wf(),
        fits(doc, selectors, answers),
        engine_consistent(doc, selectors, answers),
        traversal_ok(alg, doc, selectors, answers, recs),
    ensures
        canonical(recs, selectors) == Map::new(
            |id: u64| id < doc.nodes@.len() && doc.is_element(id as int),
            |id: u64| texts(selectors, match_set(answers, selectors.len(), id as int)),
        ),
{
    let target = Map::new(
        |id: u64| id < doc.nodes@.len() && doc.is_element(id as int),
        |id: u64| texts(selectors, match_set(answers, selectors.len(), id as int)),
    );
    let c = canonical(recs, selectors);
    assert forall|id: u64| c.contains_key(id) <==> target.contains_key(id) by {
        if position_of(recs, id) is Some {
            lemma_position_some(recs, id);
            let p = position_of(recs, id).unwrap();
            assert(recs[p].id == id);
            assert(recs[p].id < doc.nodes@.len() && doc.is_element(recs[p].id as int));
            lemma_run_resolves(alg, doc, selectors, answers, recs, p);
        }
        if target.contains_key(id) {
            let i = id as int;
            assert(doc.is_element(i));
            let k = choose|k: int| 0 <= k < recs.len() && (#[trigger] recs[k]).id == i;
            assert(recs[k].id == id);
            lemma_position_exists(recs, id, k);
            let p = position_of(recs, id).unwrap();
            lemma_run_resolves(alg, doc, selectors, answers, recs, p);
        }
    }
    assert forall|id: u64| c.contains_key(id) implies c[id] == target[id] by {
        lemma_position_some(recs, id);
        let p = position_of(recs, id).unwrap();
        lemma_run_resolves(alg, doc, selectors, answers, recs, p);
    }
    assert(c =~= target);
}

/// Two runs of one strategy over a consistent selector engine have the same
/// canonical form.
pub proof fn lemma_runs_agree(
    alg: Algorithm,
    doc: &Document,
    selectors: Seq<SelectorInfo>,
    answers: &EngineAnswers,
    first: Seq<ElementMatches>,
    second: Seq<ElementMatches>,
)
    requires
        doc.wf(),
        fits(doc, selectors, answers),
        engine_consistent(doc, selectors, answers),
        traversal_ok(alg, doc, selectors, answers, first),
        traversal_ok(alg, doc, selectors, answers, second),
    ensures
        canonical(first, selectors) == canonical(second, selectors),
{
    lemma_run_canonical(alg, doc, selectors, answers, first);
    lemma_run_canonical(alg, doc, selectors, answers, second);
}

/// Cross-strategy equivalence: over a consistent selector engine, every
/// strategy's run has the same canonical form as the naive run.
pub proof fn lemma_strategies_agree(
    alg: Algorithm,
    doc: &Document,
    selectors: Seq<SelectorInfo>,
    answers: &EngineAnswers,
    run: Seq<ElementMatches>,
    naive_run: Seq<ElementMatches>,
)
    requires
        doc.wf(),
        fits(doc, selectors, answers),
        engine_consistent(doc, selectors, answers),
        traversal_ok(alg, doc, selectors, answers, run),
        traversal_ok(Algorithm::Naive, doc, selectors, answers, naive_run),
    ensures
        canonical(run, selectors) == canonical(naive_run, selectors),
{
    lemma_run_canonical(alg, doc, selectors, answers, run);
    lemma_run_canonical(Algorithm::Naive, doc, selectors, answers, naive_run);
}

/// The result of one element with selectors as text: the texts that matched
/// it, or the element whose result it shares.
#[derive(Clone, Debug)]
pub enum SetSelectorsOrSharedStyles {
    Selectors(Vec<String>),
    SharedWithElement(u64),
}

/// The record of one element with selectors as text.
#[derive(Clone, Debug)]
pub struct SetElementMatches {
    pub id: u64,
    pub html: String,
    pub selectors: SetSelectorsOrSharedStyles,
}

/// The records of a run with selectors as text, in the order visited.
#[derive(Clone, Debug)]
pub struct SetDocumentMatches(pub Vec<SetElementMatches>);

/// The position of the first text record of element `id`.
#[verifier::opaque]
pub open spec fn set_position_of(recs: Seq<SetElementMatches>, id: u64) -> Option<int> {
    if exists|p: int| 0 <= p < recs.len() && (#[trigger] recs[p]).id == id {
        Some(
            choose|p: int|
                0 <= p < recs.len() && (#[trigger] recs[p]).id == id && forall|q: int|
                    0 <= q < p ==> (#[trigger] recs[q]).id != id,
        )
    } else {
        None
    }
}

proof fn lemma_set_position_of(recs: Seq<SetElementMatches>, id: u64, p: int)
    requires
        0 <= p < recs.len(),
        recs[p].id == id,
        forall|q: int| 0 <= q < p ==> (#[trigger] recs[q]).id != id,
    ensures
        set_position_of(recs, id) == Some(p),
{
    reveal(set_position_of);
    let c = choose|c: int|
        0 <= c < recs.len() && (#[trigger] recs[c]).id == id && forall|q: int|
            0 <= q < c ==> (#[trigger] recs[q]).id != id;
    if c < p {
        assert(recs[c].id != id);
    }
    if p < c {
        assert(recs[p].id != id);
    }
}

proof fn lemma_set_position_none(recs: Seq<SetElementMatches>, id: u64)
    requires
        forall|j: int| 0 <= j < recs.len() ==> (#[trigger] recs[j]).id != id,
    ensures
        set_position_of(recs, id) is None,
{
    reveal(set_position_of);
}

proof fn lemma_set_position_some(recs: Seq<SetElementMatches>, id: u64)
    requires
        set_position_of(recs, id) is Some,
    ensures
        set_position_of(recs, id) matches Some(p) && 0 <= p < recs.len() && recs[p].id == id,
{
    reveal(set_position_of);
    let w = choose|w: int| 0 <= w < recs.len() && (#[trigger] recs[w]).id == id;
    lemma_set_position_exists(recs, id, w);
}

proof fn lemma_set_position_exists(recs: Seq<SetElementMatches>, id: u64, w: int)
    requires
        0 <= w < recs.len(),
        recs[w].id == id,
    ensures
        set_position_of(recs, id) matches Some(p) && 0 <= p <= w && recs[p].id == id && forall|q: int|
            0 <= q < p ==> (#[trigger] recs[q]).id != id,
    decreases w,
{
    if exists|q: int| 0 <= q < w && (#[trigger] recs[q]).id == id {
        let q = choose|q: int| 0 <= q < w && (#[trigger] recs[q]).id == id;
        lemma_set_position_exists(recs, id, q);
    } else {
        lemma_set_position_of(recs, id, w);
    }
}

/// The position of the text record that the record at `p` takes its texts
/// from, following references to earlier records.
pub open spec fn set_resolve(recs: Seq<SetElementMatches>, p: int) -> Option<int>
    decreases p,
{
    if 0 <= p < recs.len() {
        match recs[p].selectors {
            SetSelectorsOrSharedStyles::Selectors(_) => Some(p),
            SetSelectorsOrSharedStyles::SharedWithElement(o) => match set_position_of(recs, o) {
                Some(q) => if 0 <= q < p {
                    set_resolve(recs, q)
                } else {
                    None
                },
                None => None,
            },
        }
    } else {
        None
    }
}

/// The texts that the record at `p` resolves to.
pub open spec fn set_texts(recs: Seq<SetElementMatches>, p: int) -> Set<Seq<char>> {
    match recs[set_resolve(recs, p).unwrap()].selectors {
        SetSelectorsOrSharedStyles::Selectors(v) => str_views(v@).to_set(),
        _ => Set::empty(),
    }
}

/// `set` is `recs` with every selector replaced by its text, each text once.
pub open spec fn converted(recs: Seq<ElementMatches>, selectors: Seq<SelectorInfo>, set: Seq<SetElementMatches>) -> bool {
    &&& set.len() == recs.len()
    &&& forall|k: int| 0 <= k < recs.len() ==> {
        &&& (#[trigger] set[k]).id == recs[k].id
        &&& set[k].html@ == recs[k].html@
        &&& match recs[k].selectors {
            SelectorsOrSharedStyles::Selectors(list) => set[k].selectors matches SetSelectorsOrSharedStyles::Selectors(v)
                && str_views(v@).no_duplicates() && str_views(v@).to_set() == texts(selectors, list@.to_set()),
            SelectorsOrSharedStyles::SharedWithElement(o) => set[k].selectors == SetSelectorsOrSharedStyles::SharedWithElement(o),
        }
    }
}

/// Resolution commutes with replacing selectors by their text.
pub(crate) proof fn lemma_converted_resolve(recs: Seq<ElementMatches>, selectors: Seq<SelectorInfo>, set: Seq<SetElementMatches>, p: int)
    requires
        converted(recs, selectors, set),
        0 <= p < recs.len(),
    ensures
        resolve(recs, p) is Some <==> set_resolve(set, p) is Some,
        resolve(recs, p) is Some ==> set_texts(set, p) == texts(selectors, resolve(recs, p).unwrap()),
    decreases p,
{
    assert(set[p].id == recs[p].id);
    if let SelectorsOrSharedStyles::SharedWithElement(o) = recs[p].selectors {
        if position_of(recs, o) is Some {
            lemma_position_some(recs, o);
            let q = position_of(recs, o).unwrap();
            assert(set[q].id == recs[q].id);
            assert forall|j: int| 0 <= j < q implies (#[trigger] set[j]).id != o by {
                assert(set[j].id == recs[j].id);
                assert(recs[j].id != o);
            }
            lemma_set_position_of(set, o, q);
            if 0 <= q < p {
                lemma_converted_resolve(recs, selectors, set, q);
            }
        } else {
            assert forall|j: int| 0 <= j < set.len() implies (#[trigger] set[j]).id != o by {
                assert(set[j].id == recs[j].id);
                if recs[j].id == o {
                    lemma_position_exists(recs, o, j);
                }
            }
            lemma_set_position_none(set, o);
        }
    }
}

/// No two records of a run have the same key: a repeated key is a defect.
pub open spec fn ids_distinct(recs: Seq<ElementMatches>) -> bool {
    forall|a: int, b: int|
        0 <= a < recs.len() && 0 <= b < recs.len() && a != b ==> (#[trigger] recs[a]).id != (#[trigger] recs[b]).id
}

/// Whether no two records of a run have the same key.
pub fn has_distinct_ids(matches: &DocumentMatches) -> (r: bool)
    ensures
        r == ids_distinct(matches.0@),
{
    let recs = &matches.0;
    let mut a: usize = 0;
    while a < recs.len()
        invariant
            a <= recs@.len(),
            *recs == matches.0,
            forall|x: int, y: int| 0 <= x < a && 0 <= y < recs@.len() && x != y ==> (#[trigger] recs@[x]).id != (#[trigger] recs@[y]).id,
        decreases recs@.len() - a,
    {
        let mut b: usize = 0;
        while b < recs.len()
            invariant
                a < recs@.len(),
                b <= recs@.len(),
                *recs == matches.0,
                forall|x: int, y: int| 0 <= x < a && 0 <= y < recs@.len() && x != y ==> (#[trigger] recs@[x]).id != (#[trigger] recs@[y]).id,
                forall|y: int| 0 <= y < b && y != a ==> recs@[a as int].id != (#[trigger] recs@[y]).id,
            decreases recs@.len() - b,
        {
            if b != a && recs[a].id == recs[b].id {
                return false;
            }
            b = b + 1;
        }
        a = a + 1;
    }
    true
}

/// The texts of the selectors with the given indices, each text once.
fn texts_of(selectors: &Vec<SelectorInfo>, list: &Vec<usize>) -> (r: Vec<String>)
    requires
        forall|k: int| 0 <= k < list@.len() ==> (#[trigger] list@[k]) < selectors@.len(),
    ensures
        str_views(r@).no_duplicates(),
        str_views(r@).to_set() == texts(selectors@, list@.to_set()),
{
    let mut out: Vec<String> = Vec::new();
    let mut k: usize = 0;
    while k < list.len()
        invariant
            k <= list@.len(),
            forall|j: int| 0 <= j < list@.len() ==> (#[trigger] list@[j]) < selectors@.len(),
            str_views(out@).no_duplicates(),
            str_views(out@).to_set() == texts(selectors@, list@.take(k as int).to_set()),
        decreases list@.len() - k,
    {
        let s = list[k];
        let t = &selectors[s].text;
        proof {
            assert(list@.take(k + 1) =~= list@.take(k as int).push(s));
            assert(list@.take(k + 1).to_set() =~= list@.take(k as int).to_set().insert(s));
        }
        if !contains_str(&out, t.as_str()) {
            let c = t.clone();
            proof {
                assert(str_views(out@.push(c)) =~= str_views(out@).push(c@));
                assert forall|a: int, b: int| 0 <= a < b < str_views(out@.push(c)).len() implies str_views(out@.push(c))[a] != str_views(out@.push(c))[b] by {
                    if b == out@.len() {
                        assert(str_views(out@).contains(str_views(out@)[a]));
                    }
                }
            }
            let ghost before = out@;
            out.push(c);
            proof {
                let nt = list@.take(k + 1).to_set();
                let ot = list@.take(k as int).to_set();
                assert(str_views(out@) =~= str_views(before).push(t@));
                assert forall|y: Seq<char>| str_views(out@).to_set().contains(y) <==> texts(selectors@, nt).contains(y) by {
                    if str_views(out@).to_set().contains(y) {
                        if y == t@ {
                            assert(nt.contains(s));
                        } else {
                            assert(str_views(before).contains(y));
                            assert(texts(selectors@, ot).contains(y));
                            let x = choose|x: usize| ot.contains(x) && selectors@[x as int].text@ == y;
                            assert(nt.contains(x));
                        }
                    }
                    if texts(selectors@, nt).contains(y) {
                        let x = choose|x: usize| nt.contains(x) && selectors@[x as int].text@ == y;
                        if x == s {
                            assert(str_views(out@)[str_views(before).len() as int] == y);
                        } else {
                            assert(ot.contains(x));
                            assert(texts(selectors@, ot).contains(y));
                            assert(str_views(before).to_set().contains(y));
                            let j = choose|j: int| 0 <= j < str_views(before).len() && str_views(before)[j] == y;
                            assert(str_views(out@)[j] == y);
                        }
                    }
                }
                assert(str_views(out@).to_set() =~= texts(selectors@, nt));
            }
        } else {
            proof {
                let nt = list@.take(k + 1).to_set();
                let ot = list@.take(k as int).to_set();
                assert forall|y: Seq<char>| str_views(out@).to_set().contains(y) <==> texts(selectors@, nt).contains(y) by {
                    if str_views(out@).to_set().contains(y) {
                        assert(texts(selectors@, ot).contains(y));
                        let x = choose|x: usize| ot.contains(x) && selectors@[x as int].text@ == y;
                        assert(nt.contains(x));
                    }
                    if texts(selectors@, nt).contains(y) {
                        let x = choose|x: usize| nt.contains(x) && selectors@[x as int].text@ == y;
                        if x == s {
                            assert(str_views(out@).contains(t@));
                        } else {
                            assert(ot.contains(x));
                            assert(texts(selectors@, ot).contains(y));
                        }
                    }
                }
                assert(str_views(out@).to_set() =~= texts(selectors@, nt));
            }
        }
        k = k + 1;
    }
    proof {
        assert(list@.take(k as int) =~= list@);
    }
    out
}

proof fn lemma_push_to_set(s: Seq<Seq<char>>, x: Seq<char>)
    ensures
        s.push(x).to_set() == s.to_set().insert(x),
{
    assert forall|y: Seq<char>| s.push(x).contains(y) <==> s.contains(y) || y == x by {
        if s.push(x).contains(y) {
            let i = choose|i: int| 0 <= i < s.len() + 1 && s.push(x)[i] == y;
            if i < s.len() {
                assert(s[i] == y);
            }
        }
        if s.contains(y) {
            let i = choose|i: int| 0 <= i < s.len() && s[i] == y;
            assert(s.push(x)[i] == y);
        }
        if y == x {
            assert(s.push(x)[s.len() as int] == y);
        }
    }
    assert(s.push(x).to_set() =~= s.to_set().insert(x));
}

/// The strings of `v`, each once, in order of first appearance.
fn distinct_strings(v: &Vec<String>) -> (r: Vec<String>)
    ensures
        str_views(r@).no_duplicates(),
        str_views(r@).to_set() == str_views(v@).to_set(),
{
    let mut out: Vec<String> = Vec::new();
    let mut k: usize = 0;
    while k < v.len()
        invariant
            k <= v@.len(),
            str_views(out@).no_duplicates(),
            str_views(out@).to_set() == str_views(v@.take(k as int)).to_set(),
        decreases v@.len() - k,
    {
        let ghost before = out@;
        proof {
            assert(str_views(v@.take(k + 1)) =~= str_views(v@.take(k as int)).push(v@[k as int]@));
        }
        if !contains_str(&out, v[k].as_str()) {
            let c = v[k].clone();
            out.push(c);
            proof {
                assert(str_views(out@) =~= str_views(before).push(v@[k as int]@));
                assert forall|a: int, b: int| 0 <= a < b < str_views(out@).len() implies str_views(out@)[a] != str_views(out@)[b] by {
                    if b == before.len() {
                        assert(str_views(before).contains(str_views(before)[a]));
                    }
                }
                lemma_push_to_set(str_views(before), v@[k as int]@);
                lemma_push_to_set(str_views(v@.take(k as int)), v@[k as int]@);
                assert(str_views(out@).to_set() =~= str_views(v@.take(k + 1)).to_set());
            }
        } else {
            proof {
                lemma_push_to_set(str_views(v@.take(k as int)), v@[k as int]@);
                assert(str_views(out@).to_set().contains(v@[k as int]@));
                assert(str_views(out@).to_set() =~= str_views(v@.take(k + 1)).to_set());
            }
        }
        k = k + 1;
    }
    proof {
        assert(v@.take(k as int) =~= v@);
    }
    out
}

impl SetDocumentMatches {
    /// Replaces every selector of a run by its text.
    pub fn from_matches(matches: &DocumentMatches, selectors: &Vec<SelectorInfo>) -> (r: SetDocumentMatches)
        requires
            ids_distinct(matches.0@),
            forall|k: int| 0 <= k < matches.0@.len() ==> match #[trigger] matches.0@[k].selectors {
                SelectorsOrSharedStyles::Selectors(list) => forall|j: int| 0 <= j < list@.len() ==> (#[trigger] list@[j]) < selectors@.len(),
                _ => true,
            },
        ensures
            converted(matches.0@, selectors@, r.0@),
    {
        let mut out: Vec<SetElementMatches> = Vec::new();
        let mut k: usize = 0;
        while k < matches.0.len()
            invariant
                k <= matches.0@.len(),
                forall|j: int| 0 <= j < matches.0@.len() ==> match #[trigger] matches.0@[j].selectors {
                    SelectorsOrSharedStyles::Selectors(list) => forall|i: int| 0 <= i < list@.len() ==> (#[trigger] list@[i]) < selectors@.len(),
                    _ => true,
                },
                converted(matches.0@.take(k as int), selectors@, out@),
            decreases matches.0@.len() - k,
        {
            let rec = &matches.0[k];
            let sel = match &rec.selectors {
                SelectorsOrSharedStyles::Selectors(list) => SetSelectorsOrSharedStyles::Selectors(texts_of(selectors, list)),
                SelectorsOrSharedStyles::SharedWithElement(o) => SetSelectorsOrSharedStyles::SharedWithElement(*o),
            };
            let item = SetElementMatches { id: rec.id, html: rec.html.clone(), selectors: sel };
            out.push(item);
            proof {
                let pre = matches.0@.take(k + 1);
                assert forall|j: int| 0 <= j < pre.len() implies {
                    &&& (#[trigger] out@[j]).id == pre[j].id
                    &&& out@[j].html@ == pre[j].html@
                    &&& match pre[j].selectors {
                        SelectorsOrSharedStyles::Selectors(list) => out@[j].selectors matches SetSelectorsOrSharedStyles::Selectors(v)
                            && str_views(v@).no_duplicates() && str_views(v@).to_set() == texts(selectors@, list@.to_set()),
                        SelectorsOrSharedStyles::SharedWithElement(o) => out@[j].selectors == SetSelectorsOrSharedStyles::SharedWithElement(o),
                    }
                } by {
                    if j < k {
                        assert(pre[j] == matches.0@.take(k as int)[j]);
                    }
                }
            }
            k = k + 1;
        }
        proof {
            assert(matches.0@.take(k as int) =~= matches.0@);
        }
        SetDocumentMatches(out)
    }

    /// Returns the position of the first record of element `id`.
    fn position(&self, id: u64) -> (r: Option<usize>)
        ensures
            match r {
                Some(p) => p < self.0@.len() && self.0@[p as int].id == id && set_position_of(self.0@, id) == Some(p as int),
                None => set_position_of(self.0@, id) is None,
            },
    {
        let mut p: usize = 0;
        while p < self.0.len()
            invariant
                p <= self.0@.len(),
                forall|q: int| 0 <= q < p ==> (#[trigger] self.0@[q]).id != id,
            decreases self.0@.len() - p,
        {
            if self.0[p].id == id {
                proof {
                    lemma_set_position_of(self.0@, id, p as int);
                }
                return Some(p);
            }
            p = p + 1;
        }
        proof {
            lemma_set_position_none(self.0@, id);
        }
        None
    }

    /// Returns the texts of the selectors that matched element `id`, following
    /// sharing references to earlier records. A dangling or forward reference
    /// is a broken run, so it is excluded.
    pub fn find_selectors(&self, id: u64) -> (r: &Vec<String>)
        requires
            set_position_of(self.0@, id) matches Some(p) && set_resolve(self.0@, p) is Some,
        ensures
            str_views(r@).to_set() == set_texts(self.0@, set_position_of(self.0@, id).unwrap()),
    {
        self.resolve_texts(id).unwrap()
    }

    /// As `find_selectors`, but `None` when `id` has no record or a reference
    /// leads nowhere or forward.
    fn resolve_texts(&self, id: u64) -> (r: Option<&Vec<String>>)
        ensures
            match set_position_of(self.0@, id) {
                Some(p) => match set_resolve(self.0@, p) {
                    Some(_) => r matches Some(v) && str_views(v@).to_set() == set_texts(self.0@, p),
                    None => r is None,
                },
                None => r is None,
            },
    {
        let mut p = match self.position(id) {
            Some(p) => p,
            None => {
                return None;
            },
        };
        let ghost start = p as int;
        loop
            invariant
                p < self.0@.len(),
                set_position_of(self.0@, id) == Some(start),
                set_resolve(self.0@, start) == set_resolve(self.0@, p as int),
            decreases p,
        {
            match &self.0[p].selectors {
                SetSelectorsOrSharedStyles::Selectors(v) => {
                    return Some(v);
                },
                SetSelectorsOrSharedStyles::SharedWithElement(o) => {
                    match self.position(*o) {
                        Some(q) => {
                            if q < p {
                                p = q;
                            } else {
                                return None;
                            }
                        },
                        None => {
                            return None;
                        },
                    }
                },
            }
        }
    }
}

/// The canonical form of text records: for each element key whose record
/// resolves, its texts.
pub open spec fn set_canonical(recs: Seq<SetElementMatches>) -> Map<u64, Set<Seq<char>>> {
    Map::new(
        |id: u64| set_position_of(recs, id) is Some && set_resolve(recs, set_position_of(recs, id).unwrap()) is Some,
        |id: u64| set_texts(recs, set_position_of(recs, id).unwrap()),
    )
}

/// Replacing selectors by their text keeps record positions.
pub(crate) proof fn lemma_converted_position(recs: Seq<ElementMatches>, selectors: Seq<SelectorInfo>, set: Seq<SetElementMatches>, id: u64)
    requires
        converted(recs, selectors, set),
    ensures
        position_of(recs, id) == set_position_of(set, id),
{
    if position_of(recs, id) is Some {
        lemma_position_some(recs, id);
        let p = position_of(recs, id).unwrap();
        assert(set[p].id == recs[p].id);
        assert forall|j: int| 0 <= j < p implies (#[trigger] set[j]).id != id by {
            assert(set[j].id == recs[j].id);
            assert(recs[j].id != id);
        }
        lemma_set_position_of(set, id, p);
    } else {
        assert forall|j: int| 0 <= j < set.len() implies (#[trigger] set[j]).id != id by {
            assert(set[j].id == recs[j].id);
            if recs[j].id == id {
                lemma_position_exists(recs, id, j);
            }
        }
        lemma_set_position_none(set, id);
    }
}

/// Replacing selectors by their text keeps the canonical form.
pub proof fn lemma_converted_canonical(recs: Seq<ElementMatches>, selectors: Seq<SelectorInfo>, set: Seq<SetElementMatches>)
    requires
        converted(recs, selectors, set),
    ensures
        set_canonical(set) == canonical(recs, selectors),
{
    let a = set_canonical(set);
    let b = canonical(recs, selectors);
    assert forall|id: u64| a.contains_key(id) <==> b.contains_key(id) by {
        lemma_converted_position(recs, selectors, set, id);
        if position_of(recs, id) is Some {
            lemma_position_some(recs, id);
            lemma_converted_resolve(recs, selectors, set, position_of(recs, id).unwrap());
        }
    }
    assert forall|id: u64| a.contains_key(id) implies a[id] == b[id] by {
        lemma_converted_position(recs, selectors, set, id);
        lemma_position_some(recs, id);
        lemma_converted_resolve(recs, selectors, set, position_of(recs, id).unwrap());
    }
    assert(a =~= b);
}

/// No key stands twice among the entries.
pub open spec fn keys_distinct_seq(s: Seq<(SerElementKey, SerElementMatches)>) -> bool {
    forall|a: int, b: int|
        0 <= a < s.len() && 0 <= b < s.len() && a != b ==> (#[trigger] s[a]).0 != (#[trigger] s[b]).0
}

/// The canonical result of one element.
#[derive(Clone, Debug)]
pub struct SerElementMatches {
    pub html: String,
    pub selectors: Vec<String>,
}

/// The key of an element in a canonical result.
#[derive(Clone, Copy, Debug, PartialEq, Eq, Structural)]
pub struct SerElementKey(pub u64);

/// The canonical result of a run: each element with the texts of the
/// selectors that matched it, no text twice.
#[derive(Clone, Debug)]
pub struct SerDocumentMatches(pub Vec<(SerElementKey, SerElementMatches)>);

impl SerDocumentMatches {
    /// The canonical form as a map from element key to selector texts.
    pub open spec fn view_map(&self) -> Map<u64, Set<Seq<char>>> {
        Map::new(
            |id: u64| exists|k: int| 0 <= k < self.0@.len() && (#[trigger] self.0@[k]).0.0 == id,
            |id: u64|
                str_views(
                    self.0@[choose|k: int| 0 <= k < self.0@.len() && (#[trigger] self.0@[k]).0.0 == id].1.selectors@,
                ).to_set(),
        )
    }

    /// No key stands twice.
    pub open spec fn keys_distinct(&self) -> bool {
        keys_distinct_seq(self.0@)
    }
}

impl SerDocumentMatches {
    /// With distinct keys, the entry at `k` gives the texts of its key.
    pub proof fn lemma_view_map_at(&self, k: int)
        requires
            self.keys_distinct(),
            0 <= k < self.0@.len(),
        ensures
            self.view_map().contains_key(self.0@[k].0.0),
            self.view_map()[self.0@[k].0.0] == str_views(self.0@[k].1.selectors@).to_set(),
    {
        let id = self.0@[k].0.0;
        let c = choose|c: int| 0 <= c < self.0@.len() && (#[trigger] self.0@[c]).0.0 == id;
        if c != k {
            assert(self.0@[c].0 != self.0@[k].0);
        }
    }

    /// Canonicalizes text records: one entry per element key, at its first
    /// record, with the texts that record resolves to. `None` when some such
    /// record does not resolve.
    pub fn from_set(set: &SetDocumentMatches) -> (r: Option<SerDocumentMatches>)
        ensures
            r is Some <==> forall|p: int|
                0 <= p < set.0@.len() && set_position_of(set.0@, (#[trigger] set.0@[p]).id) == Some(p)
                    ==> set_resolve(set.0@, p) is Some,
            r matches Some(x) ==> x.keys_distinct() && x.view_map() == set_canonical(set.0@)
                && entries_ok(set.0@, x.0@, set.0@.len() as int),
    {
        let ghost recs = set.0@;
        let mut out: Vec<(SerElementKey, SerElementMatches)> = Vec::new();
        let mut k: usize = 0;
        while k < set.0.len()
            invariant
                recs == set.0@,
                k <= recs.len(),
                keys_distinct_seq(out@),
                entries_ok(recs, out@, k as int),
                covered(recs, out@, k as int),
            decreases recs.len() - k,
        {
            let id = set.0[k].id;
            let first = set.position(id);
            if first == Some(k) {
                match set.resolve_texts(id) {
                    Some(v) => {
                        let entry = (SerElementKey(id), SerElementMatches { html: set.0[k].html.clone(), selectors: distinct_strings(v) });
                        let ghost before = out@;
                        out.push(entry);
                        proof {
                            lemma_from_set_push(recs, before, entry, k as int);
                        }
                    },
                    None => {
                        proof {
                            assert(recs[k as int].id == id);
                        }
                        return None;
                    },
                }
            } else {
                proof {
                    lemma_from_set_skip(recs, out@, k as int);
                }
            }
            k = k + 1;
        }
        let r = SerDocumentMatches(out);
        proof {
            lemma_from_set_done(recs, r);
        }
        Some(r)
    }

    /// Whether two canonical results give every element key the same set of
    /// selector texts.
    pub fn equivalent(&self, other: &SerDocumentMatches) -> (r: bool)
        ensures
            self.keys_distinct() && other.keys_distinct() ==> (r == (self.view_map() == other.view_map())),
    {
        let mut k: usize = 0;
        while k < self.0.len()
            invariant
                k <= self.0@.len(),
                forall|j: int| 0 <= j < k ==> exists|b: int| 0 <= b < other.0@.len() && (#[trigger] other.0@[b]).0 == (#[trigger] self.0@[j]).0
                    && str_views(other.0@[b].1.selectors@).to_set() == str_views(self.0@[j].1.selectors@).to_set(),
            decreases self.0@.len() - k,
        {
            let key = self.0[k].0.0;
            let mut b: usize = 0;
            let mut found = false;
            while b < other.0.len()
                invariant_except_break
                    !found,
                invariant
                    b <= other.0@.len(),
                    forall|c: int| 0 <= c < b ==> (#[trigger] other.0@[c]).0.0 != key,
                ensures
                    found ==> b < other.0@.len() && other.0@[b as int].0.0 == key,
                    !found ==> b == other.0@.len(),
                decreases other.0@.len() - b,
            {
                if other.0[b].0.0 == key {
                    found = true;
                    break;
                }
                b = b + 1;
            }
            if !found {
                proof {
                    if self.keys_distinct() && other.keys_distinct() {
                        self.lemma_view_map_at(k as int);
                        assert(!other.view_map().contains_key(key));
                    }
                }
                return false;
            }
            if !same_texts(&self.0[k].1.selectors, &other.0[b].1.selectors) {
                proof {
                    if self.keys_distinct() && other.keys_distinct() {
                        self.lemma_view_map_at(k as int);
                        other.lemma_view_map_at(b as int);
                    }
                }
                return false;
            }
            proof {
                assert(other.0@[b as int].0 == self.0@[k as int].0);
            }
            k = k + 1;
        }
        let mut b: usize = 0;
        while b < other.0.len()
            invariant
                b <= other.0@.len(),
                forall|j: int| 0 <= j < b ==> exists|a: int| 0 <= a < self.0@.len() && (#[trigger] self.0@[a]).0 == (#[trigger] other.0@[j]).0,
            decreases other.0@.len() - b,
        {
            let key = other.0[b].0.0;
            let mut a: usize = 0;
            let mut found = false;
            while a < self.0.len()
                invariant_except_break
                    !found,
                invariant
                    a <= self.0@.len(),
                    forall|c: int| 0 <= c < a ==> (#[trigger] self.0@[c]).0.0 != key,
                ensures
                    found ==> a < self.0@.len() && self.0@[a as int].0.0 == key,
                    !found ==> a == self.0@.len(),
                decreases self.0@.len() - a,
            {
                if self.0[a].0.0 == key {
                    found = true;
                    break;
                }
                a = a + 1;
            }
            if !found {
                proof {
                    if self.keys_distinct() && other.keys_distinct() {
                        other.lemma_view_map_at(b as int);
                        assert(!self.view_map().contains_key(key));
                    }
                }
                return false;
            }
            proof {
                assert(self.0@[a as int].0 == other.0@[b as int].0);
            }
            b = b + 1;
        }
        proof {
            if self.keys_distinct() && other.keys_distinct() {
                let x = self.view_map();
                let y = other.view_map();
                assert forall|id: u64| x.contains_key(id) <==> y.contains_key(id) by {
                    if x.contains_key(id) {
                        let j = choose|j: int| 0 <= j < self.0@.len() && (#[trigger] self.0@[j]).0.0 == id;
                        let c = choose|c: int| 0 <= c < other.0@.len() && (#[trigger] other.0@[c]).0 == (#[trigger] self.0@[j]).0
                            && str_views(other.0@[c].1.selectors@).to_set() == str_views(self.0@[j].1.selectors@).to_set();
                        assert(other.0@[c].0.0 == id);
                    }
                    if y.contains_key(id) {
                        let j = choose|j: int| 0 <= j < other.0@.len() && (#[trigger] other.0@[j]).0.0 == id;
                        let c = choose|c: int| 0 <= c < self.0@.len() && (#[trigger] self.0@[c]).0 == (#[trigger] other.0@[j]).0;
                        assert(self.0@[c].0.0 == id);
                    }
                }
                assert forall|id: u64| x.contains_key(id) implies x[id] == y[id] by {
                    let j = choose|j: int| 0 <= j < self.0@.len() && (#[trigger] self.0@[j]).0.0 == id;
                    let c = choose|c: int| 0 <= c < other.0@.len() && (#[trigger] other.0@[c]).0 == (#[trigger] self.0@[j]).0
                        && str_views(other.0@[c].1.selectors@).to_set() == str_views(self.0@[j].1.selectors@).to_set();
                    self.lemma_view_map_at(j);
                    other.lemma_view_map_at(c);
                }
                assert(x =~= y);
            }
        }
        true
    }
}

/// Each entry is the canonical result of a key whose first record is before `k`.
pub open spec fn entries_ok(recs: Seq<SetElementMatches>, out: Seq<(SerElementKey, SerElementMatches)>, k: int) -> bool {
    forall|j: int| 0 <= j < out.len() ==> (set_position_of(recs, (#[trigger] out[j]).0.0) matches Some(p)
        && 0 <= p < k && set_resolve(recs, p) is Some
        && str_views(out[j].1.selectors@).to_set() == set_texts(recs, p)
        && str_views(out[j].1.selectors@).no_duplicates()
        && out[j].1.html@ == recs[p].html@)
}

/// Every first record before `k` resolves and has an entry.
pub open spec fn covered(recs: Seq<SetElementMatches>, out: Seq<(SerElementKey, SerElementMatches)>, k: int) -> bool {
    forall|p: int| 0 <= p < k && set_position_of(recs, (#[trigger] recs[p]).id) == Some(p) ==> set_resolve(recs, p) is Some && exists|j: int|
        0 <= j < out.len() && (#[trigger] out[j]).0.0 == recs[p].id
}

proof fn lemma_from_set_push(recs: Seq<SetElementMatches>, before: Seq<(SerElementKey, SerElementMatches)>, entry: (SerElementKey, SerElementMatches), k: int)
    requires
        0 <= k < recs.len(),
        keys_distinct_seq(before),
        entries_ok(recs, before, k),
        covered(recs, before, k),
        entry.0.0 == recs[k].id,
        set_position_of(recs, recs[k].id) == Some(k),
        set_resolve(recs, k) is Some,
        str_views(entry.1.selectors@).to_set() == set_texts(recs, k),
        str_views(entry.1.selectors@).no_duplicates(),
        entry.1.html@ == recs[k].html@,
    ensures
        keys_distinct_seq(before.push(entry)),
        entries_ok(recs, before.push(entry), k + 1),
        covered(recs, before.push(entry), k + 1),
{
    let out = before.push(entry);
    assert forall|j: int| 0 <= j < before.len() implies (#[trigger] before[j]).0 != entry.0 by {
        let p = set_position_of(recs, before[j].0.0).unwrap();
        assert(p < k);
    }
    assert forall|a: int, b: int| 0 <= a < out.len() && 0 <= b < out.len() && a != b implies (#[trigger] out[a]).0 != (#[trigger] out[b]).0 by {
        if a < before.len() && b < before.len() {
            assert(out[a] == before[a] && out[b] == before[b]);
        } else if a < before.len() {
            assert(out[a] == before[a]);
        } else {
            assert(out[b] == before[b]);
        }
    }
    assert forall|j: int| 0 <= j < out.len() implies (set_position_of(recs, (#[trigger] out[j]).0.0) matches Some(p)
        && 0 <= p < k + 1 && set_resolve(recs, p) is Some
        && str_views(out[j].1.selectors@).to_set() == set_texts(recs, p)) by {
        if j < before.len() {
            assert(out[j] == before[j]);
        }
    }
    assert forall|p: int| 0 <= p < k + 1 && set_position_of(recs, (#[trigger] recs[p]).id) == Some(p) implies set_resolve(recs, p) is Some && exists|j: int|
        0 <= j < out.len() && (#[trigger] out[j]).0.0 == recs[p].id by {
        if p < k {
            let j = choose|j: int| 0 <= j < before.len() && (#[trigger] before[j]).0.0 == recs[p].id;
            assert(out[j] == before[j]);
        } else {
            assert(out[before.len() as int].0.0 == recs[p].id);
        }
    }
}

proof fn lemma_from_set_skip(recs: Seq<SetElementMatches>, out: Seq<(SerElementKey, SerElementMatches)>, k: int)
    requires
        0 <= k < recs.len(),
        entries_ok(recs, out, k),
        covered(recs, out, k),
        set_position_of(recs, recs[k].id) != Some(k),
    ensures
        entries_ok(recs, out, k + 1),
        covered(recs, out, k + 1),
{
}

proof fn lemma_from_set_done(recs: Seq<SetElementMatches>, r: SerDocumentMatches)
    requires
        r.keys_distinct(),
        entries_ok(recs, r.0@, recs.len() as int),
        covered(recs, r.0@, recs.len() as int),
    ensures
        r.view_map() == set_canonical(recs),
{
    let out = r.0@;
    let a = r.view_map();
    let b = set_canonical(recs);
    assert forall|id: u64| a.contains_key(id) <==> b.contains_key(id) by {
        if a.contains_key(id) {
            let j = choose|j: int| 0 <= j < out.len() && (#[trigger] out[j]).0.0 == id;
            assert(set_position_of(recs, out[j].0.0) is Some);
        }
        if b.contains_key(id) {
            lemma_set_position_some(recs, id);
            let p = set_position_of(recs, id).unwrap();
            assert(recs[p].id == id);
            let j = choose|j: int| 0 <= j < out.len() && (#[trigger] out[j]).0.0 == recs[p].id;
        }
    }
    assert forall|id: u64| a.contains_key(id) implies a[id] == b[id] by {
        let j = choose|j: int| 0 <= j < out.len() && (#[trigger] out[j]).0.0 == id;
        r.lemma_view_map_at(j);
    }
    assert(a =~= b);
}

/// Whether every string of `a` is in `b`.
fn all_in(a: &Vec<String>, b: &Vec<String>) -> (r: bool)
    ensures
        r == (forall|x: Seq<char>| str_views(a@).contains(x) ==> str_views(b@).contains(x)),
{
    let mut k: usize = 0;
    while k < a.len()
        invariant
            k <= a@.len(),
            forall|j: int| 0 <= j < k ==> str_views(b@).contains(#[trigger] str_views(a@)[j]),
        decreases a@.len() - k,
    {
        if !contains_str(b, a[k].as_str()) {
            assert(str_views(a@).contains(str_views(a@)[k as int]));
            return false;
        }
        k = k + 1;
    }
    true
}

/// Whether two vectors hold the same set of strings.
fn same_texts(a: &Vec<String>, b: &Vec<String>) -> (r: bool)
    ensures
        r == (str_views(a@).to_set() == str_views(b@).to_set()),
{
    let x = all_in(a, b);
    let y = all_in(b, a);
    proof {
        if x && y {
            assert(str_views(a@).to_set() =~= str_views(b@).to_set());
        }
        if str_views(a@).to_set() == str_views(b@).to_set() {
            assert forall|v: Seq<char>| str_views(a@).contains(v) implies str_views(b@).contains(v) by {
                assert(str_views(a@).to_set().contains(v));
            }
            assert forall|v: Seq<char>| str_views(b@).contains(v) implies str_views(a@).contains(v) by {
                assert(str_views(b@).to_set().contains(v));
            }
        }
    }
    x && y
}

} // verus!
