use mach_6::bloom::AncestorFilter;
use mach_6::canonical::{SerDocumentMatches, SetDocumentMatches, SetElementMatches, SetSelectorsOrSharedStyles};
use mach_6::document::Document;
use mach_6::node::{Element, Node};
use mach_6::selector::{EngineAnswers, RuleKey, SelectorInfo};
use mach_6::selector_map::build_selector_map;
use mach_6::sharing::SharingCache;
use mach_6::stats::Statistics;
use mach_6::traversal::{traverse, Algorithm, DocumentMatches, SelectorsOrSharedStyles};
use mach_6::{canonicalize, match_selectors, match_selectors_with_selector_map, runs_agree, strategies_agree};

const ALL: [Algorithm; 4] = [
    Algorithm::Naive,
    Algorithm::WithSelectorMap,
    Algorithm::WithBloomFilter,
    Algorithm::WithStyleSharing,
];

fn el(name: &str, attrs: &[(&str, &str)]) -> Node {
    Node::Element(Element::new(
        name.to_string(),
        attrs.iter().map(|(k, v)| (k.to_string(), v.to_string())).collect(),
    ))
}

fn sel(text: &str, key: RuleKey, hashes: &[u32]) -> SelectorInfo {
    SelectorInfo { text: text.to_string(), key, ancestor_hashes: hashes.to_vec() }
}

fn name(s: &str) -> RuleKey {
    RuleKey::LocalName(s.to_string())
}

struct Fixture {
    doc: Document,
    selectors: Vec<SelectorInfo>,
    answers: EngineAnswers,
}

/// html > body > ten divs. Each div gets the attributes `div_attrs(i)` and the
/// sharing signature `sig(i)`.
fn ten_divs(div_attrs: &dyn Fn(usize) -> Vec<(String, String)>, sig: &dyn Fn(usize) -> Option<u64>) -> Fixture {
    let mut doc = Document::new_document();
    let html = doc.append(0, el("html", &[]));
    let body = doc.append(html, el("body", &[]));
    let mut divs = Vec::new();
    for i in 0..10 {
        divs.push(doc.append(body, Node::Element(Element::new("div".to_string(), div_attrs(i)))));
    }
    let selectors = vec![
        sel("div", name("div"), &[]),
        sel("body div", name("div"), &[20]),
        sel(".item", RuleKey::Class("item".to_string()), &[]),
        sel("html", name("html"), &[]),
        sel("p div", name("div"), &[30]),
        sel(".item .item", RuleKey::Class("item".to_string()), &[40]),
    ];
    let n = doc.node_count();
    let mut matches = vec![vec![false; selectors.len()]; n];
    let mut fingerprints = vec![Vec::new(); n];
    let mut sharing_keys = vec![None; n];
    matches[html][3] = true;
    fingerprints[html] = vec![10];
    fingerprints[body] = vec![20];
    for (i, &d) in divs.iter().enumerate() {
        matches[d][0] = true;
        matches[d][1] = true;
        let has_item = div_attrs(i).iter().any(|(k, v)| k == "class" && v == "item");
        matches[d][2] = has_item;
        fingerprints[d] = vec![3, 40];
        sharing_keys[d] = sig(i);
    }
    Fixture { doc, selectors, answers: EngineAnswers { matches, fingerprints, sharing_keys } }
}

fn identical() -> Fixture {
    ten_divs(&|_| vec![("class".to_string(), "item".to_string())], &|_| Some(99))
}

fn run(f: &Fixture, alg: Algorithm) -> (DocumentMatches, Statistics) {
    let map = build_selector_map(&f.selectors);
    traverse(&f.doc, &f.selectors, &map, &f.answers, alg)
}

fn outcome(o: &SelectorsOrSharedStyles) -> (Vec<usize>, Option<u64>) {
    match o {
        SelectorsOrSharedStyles::Selectors(v) => (v.clone(), None),
        SelectorsOrSharedStyles::SharedWithElement(e) => (Vec::new(), Some(*e)),
    }
}

#[test]
fn identical_siblings_share_nine_times() {
    let f = identical();
    let (_, st) = run(&f, Algorithm::WithStyleSharing);
    assert_eq!(st.sharing_instances, Some(9));
    for alg in [Algorithm::Naive, Algorithm::WithSelectorMap, Algorithm::WithBloomFilter] {
        let (_, st) = run(&f, alg);
        assert_eq!(st.sharing_instances, None);
    }
}

#[test]
fn distinct_siblings_share_in_five_pairs() {
    let f = ten_divs(
        &|i| vec![("class".to_string(), "item".to_string()), (format!("data-{i}"), "x".to_string())],
        &|i| Some(100 + (i / 2) as u64),
    );
    let (m, st) = run(&f, Algorithm::WithStyleSharing);
    assert_eq!(st.sharing_instances, Some(5));
    let shared = m.0.iter().filter(|r| matches!(r.selectors, SelectorsOrSharedStyles::SharedWithElement(_))).count();
    assert_eq!(shared, 5);
    assert!(strategies_agree(&f.doc, &f.selectors, &f.answers, Algorithm::WithStyleSharing).0);
}

#[test]
fn ineligible_elements_never_share() {
    let f = ten_divs(&|_| vec![("class".to_string(), "item".to_string())], &|_| None);
    let (_, st) = run(&f, Algorithm::WithStyleSharing);
    assert_eq!(st.sharing_instances, Some(0));
}

#[test]
fn naive_statistics() {
    let f = identical();
    let (m, st) = run(&f, Algorithm::Naive);
    assert_eq!(m.0.len(), 12);
    assert_eq!(
        st,
        Statistics { fast_rejects: None, slow_rejects: Some(5 + 6 + 30), selector_map_hits: None, sharing_instances: None }
    );
}

#[test]
fn selector_map_statistics() {
    let f = identical();
    let (_, st) = run(&f, Algorithm::WithSelectorMap);
    assert_eq!(
        st,
        Statistics { fast_rejects: None, slow_rejects: Some(20), selector_map_hits: Some(51), sharing_instances: None }
    );
}

#[test]
fn bloom_filter_rejects_fast() {
    let f = identical();
    let (_, st) = run(&f, Algorithm::WithBloomFilter);
    assert_eq!(st.selector_map_hits, Some(51));
    assert_eq!(st.fast_rejects.unwrap() + st.slow_rejects.unwrap(), 20);
    assert_eq!(st.fast_rejects, Some(20));
    assert_eq!(st.sharing_instances, None);
}

#[test]
fn traversal_is_preorder_with_parents() {
    let f = identical();
    for alg in ALL {
        let (m, _) = run(&f, alg);
        let ids: Vec<u64> = m.0.iter().map(|r| r.id).collect();
        assert_eq!(ids, (1..=12).collect::<Vec<u64>>());
        assert_eq!(m.0[0].parent, None);
        assert_eq!(m.0[1].parent, Some(1));
        for r in &m.0[2..] {
            assert_eq!(r.parent, Some(2));
            assert_eq!(r.html, "<div class=\"item\">");
        }
        assert_eq!(m.0[0].html, "<html>");
    }
}

#[test]
fn runs_are_deterministic() {
    let f = identical();
    for alg in ALL {
        let (a, sa) = run(&f, alg);
        let (b, sb) = run(&f, alg);
        assert_eq!(sa, sb);
        assert_eq!(a.0.len(), b.0.len());
        for (x, y) in a.0.iter().zip(b.0.iter()) {
            assert_eq!(x.id, y.id);
            assert_eq!(x.parent, y.parent);
            assert_eq!(x.html, y.html);
            assert_eq!(outcome(&x.selectors), outcome(&y.selectors));
            assert_eq!(x.stats, y.stats);
        }
    }
}

#[test]
fn all_strategies_agree_with_naive() {
    let f = identical();
    for alg in ALL {
        assert!(strategies_agree(&f.doc, &f.selectors, &f.answers, alg).0);
    }
    let naive = canonicalize(&match_selectors(&f.doc, &f.selectors, &f.answers), &f.selectors).unwrap();
    let map = build_selector_map(&f.selectors);
    let with_map =
        canonicalize(&match_selectors_with_selector_map(&f.doc, &f.selectors, &map, &f.answers), &f.selectors).unwrap();
    assert!(naive.equivalent(&with_map));
    let div = naive.0.iter().find(|(k, _)| k.0 == 3).unwrap();
    let mut texts = div.1.selectors.clone();
    texts.sort();
    assert_eq!(texts, vec![".item".to_string(), "body div".to_string(), "div".to_string()]);
}

#[test]
fn unsound_sharing_is_detected() {
    // The signatures claim the divs are interchangeable, but the engine says
    // that only the first one matches `.item`.
    let f = ten_divs(
        &|i| if i == 0 { vec![("class".to_string(), "item".to_string())] } else { vec![] },
        &|_| Some(99),
    );
    assert!(strategies_agree(&f.doc, &f.selectors, &f.answers, Algorithm::WithBloomFilter).0);
    let (agree, run, naive) = strategies_agree(&f.doc, &f.selectors, &f.answers, Algorithm::WithStyleSharing);
    assert!(!agree);
    assert!(!runs_agree(&run, &naive, &f.selectors));
}

#[test]
fn statistics_add_up_over_records() {
    let f = identical();
    for alg in ALL {
        let (m, st) = run(&f, alg);
        let zero = Statistics::zero(
            alg == Algorithm::WithBloomFilter || alg == Algorithm::WithStyleSharing,
            true,
            alg != Algorithm::Naive,
            alg == Algorithm::WithStyleSharing,
        );
        let sum = m.0.iter().fold(zero, |acc, r| acc.combine(&r.stats));
        assert_eq!(sum, st);
        let (left, right) = m.0.split_at(2);
        let a = left.iter().fold(zero, |acc, r| acc.combine(&r.stats));
        let b = right.iter().fold(zero, |acc, r| acc.combine(&r.stats));
        assert_eq!(a.combine(&b), st);
    }
}

#[test]
fn combine_propagates_missing_counters() {
    let a = Statistics { fast_rejects: Some(1), slow_rejects: Some(2), selector_map_hits: None, sharing_instances: Some(u64::MAX) };
    let b = Statistics { fast_rejects: None, slow_rejects: Some(3), selector_map_hits: Some(4), sharing_instances: Some(1) };
    let c = a.combine(&b);
    assert_eq!(
        c,
        Statistics { fast_rejects: None, slow_rejects: Some(5), selector_map_hits: None, sharing_instances: Some(u64::MAX) }
    );
    assert_eq!(c, b.combine(&a));
}

#[test]
fn selector_map_query() {
    let f = identical();
    let map = build_selector_map(&f.selectors);
    let div = match f.doc.node(3) {
        Node::Element(e) => e.clone(),
        _ => unreachable!(),
    };
    let mut c = map.query(&f.selectors, &div);
    c.sort();
    assert_eq!(c, vec![0, 1, 2, 4, 5]);
    let html = match f.doc.node(1) {
        Node::Element(e) => e.clone(),
        _ => unreachable!(),
    };
    assert_eq!(map.query(&f.selectors, &html), vec![3]);
}

#[test]
fn ancestor_filter_follows_branches() {
    // html > (a > x, b > y)
    let mut doc = Document::new_document();
    let html = doc.append(0, el("html", &[]));
    let a = doc.append(html, el("a", &[]));
    let x = doc.append(a, el("x", &[]));
    let b = doc.append(html, el("b", &[]));
    let y = doc.append(b, el("y", &[]));
    let n = doc.node_count();
    let answers = EngineAnswers {
        matches: vec![Vec::new(); n],
        fingerprints: vec![vec![], vec![1], vec![2], vec![3], vec![4], vec![5]],
        sharing_keys: vec![None; n],
    };
    let mut filter = AncestorFilter::new();
    filter.insert_parents_recovering(&doc, &answers, x, 2);
    assert_eq!(filter.pushed.iter().map(|p| p.0).collect::<Vec<_>>(), vec![html, a]);
    assert!(filter.might_contain_all(&vec![1, 2]));
    filter.insert_parents_recovering(&doc, &answers, y, 2);
    assert_eq!(filter.pushed.iter().map(|p| p.0).collect::<Vec<_>>(), vec![html, b]);
    assert!(filter.might_contain_all(&vec![1, 4]));
    assert!(!filter.might_contain_all(&vec![2]));
    filter.insert_parents_recovering(&doc, &answers, html, 0);
    assert!(filter.pushed.is_empty());
}

#[test]
fn sharing_cache_is_bounded_and_recent_first() {
    let mut cache = SharingCache::new(2);
    cache.insert_if_possible(Some(1), 10);
    cache.insert_if_possible(Some(2), 20);
    cache.insert_if_possible(Some(3), 30);
    assert_eq!(cache.entries, vec![(3, 30), (2, 20)]);
    assert_eq!(cache.share_style_if_possible(Some(1)), None);
    assert_eq!(cache.share_style_if_possible(Some(2)), Some(20));
    assert_eq!(cache.entries, vec![(2, 20), (3, 30)]);
    assert_eq!(cache.share_style_if_possible(None), None);
    cache.insert_if_possible(None, 40);
    assert_eq!(cache.entries.len(), 2);
    let mut empty = SharingCache::new(0);
    empty.insert_if_possible(Some(1), 1);
    assert!(empty.entries.is_empty());
}

fn set_rec(id: u64, sel: SetSelectorsOrSharedStyles) -> SetElementMatches {
    SetElementMatches { id, html: format!("<e{id}>"), selectors: sel }
}

#[test]
fn sharing_chains_resolve() {
    let set = SetDocumentMatches(vec![
        set_rec(5, SetSelectorsOrSharedStyles::Selectors(vec!["a".to_string()])),
        set_rec(6, SetSelectorsOrSharedStyles::SharedWithElement(5)),
        set_rec(7, SetSelectorsOrSharedStyles::SharedWithElement(6)),
        set_rec(8, SetSelectorsOrSharedStyles::SharedWithElement(9)),
        set_rec(9, SetSelectorsOrSharedStyles::Selectors(vec![])),
    ]);
    assert_eq!(set.find_selectors(7), &vec!["a".to_string()]);
    assert_eq!(set.find_selectors(5), &vec!["a".to_string()]);
    assert_eq!(set.find_selectors(9), &Vec::<String>::new());
    // 8 refers forward to 9, so the records do not canonicalize.
    assert!(SerDocumentMatches::from_set(&set).is_none());
}

#[test]
fn canonical_forms_compare_by_text() {
    let set_a = SetDocumentMatches(vec![
        set_rec(1, SetSelectorsOrSharedStyles::Selectors(vec!["a".to_string(), "b".to_string()])),
        set_rec(2, SetSelectorsOrSharedStyles::SharedWithElement(1)),
    ]);
    let set_b = SetDocumentMatches(vec![
        set_rec(2, SetSelectorsOrSharedStyles::Selectors(vec!["b".to_string(), "a".to_string()])),
        set_rec(1, SetSelectorsOrSharedStyles::Selectors(vec!["a".to_string(), "b".to_string()])),
    ]);
    let set_c = SetDocumentMatches(vec![
        set_rec(1, SetSelectorsOrSharedStyles::Selectors(vec!["a".to_string()])),
        set_rec(2, SetSelectorsOrSharedStyles::Selectors(vec!["a".to_string(), "b".to_string()])),
    ]);
    let a = SerDocumentMatches::from_set(&set_a).unwrap();
    let b = SerDocumentMatches::from_set(&set_b).unwrap();
    let c = SerDocumentMatches::from_set(&set_c).unwrap();
    assert!(a.equivalent(&b));
    assert!(!a.equivalent(&c));
    assert_eq!(a.0[1].1.selectors, vec!["a".to_string(), "b".to_string()]);
}

#[test]
fn duplicate_selector_texts_collapse() {
    let mut doc = Document::new_document();
    let p = doc.append(0, el("p", &[]));
    let selectors = vec![sel("p", name("p"), &[]), sel("p", name("p"), &[])];
    let answers = EngineAnswers { matches: vec![vec![false, false], vec![true, true]], fingerprints: vec![vec![], vec![]], sharing_keys: vec![None, None] };
    let m = match_selectors(&doc, &selectors, &answers);
    let c = canonicalize(&m, &selectors).unwrap();
    assert_eq!(c.0.len(), 1);
    assert_eq!((c.0[0].0).0, p as u64);
    assert_eq!(c.0[0].1.selectors, vec!["p".to_string()]);
}

#[test]
fn runs_agree_compares_canonical_forms() {
    let f = identical();
    let (naive, _) = run(&f, Algorithm::Naive);
    let (sharing, _) = run(&f, Algorithm::WithStyleSharing);
    assert!(runs_agree(&sharing, &naive, &f.selectors));
    let mut changed = naive.clone();
    changed.0[0].selectors = SelectorsOrSharedStyles::Selectors(vec![0]);
    assert!(!runs_agree(&changed, &naive, &f.selectors));
    let mut dangling = naive.clone();
    dangling.0[0].selectors = SelectorsOrSharedStyles::SharedWithElement(2);
    assert!(!runs_agree(&dangling, &naive, &f.selectors));
}

#[test]
fn canonical_entries_keep_start_tags_and_drop_repeated_texts() {
    let set = SetDocumentMatches(vec![
        set_rec(1, SetSelectorsOrSharedStyles::Selectors(vec!["a".to_string(), "a".to_string(), "b".to_string()])),
        set_rec(2, SetSelectorsOrSharedStyles::SharedWithElement(1)),
    ]);
    let c = SerDocumentMatches::from_set(&set).unwrap();
    assert_eq!(c.0[0].1.selectors, vec!["a".to_string(), "b".to_string()]);
    assert_eq!(c.0[0].1.html, "<e1>");
    assert_eq!(c.0[1].1.html, "<e2>");
    assert_eq!(c.0[1].1.selectors, vec!["a".to_string(), "b".to_string()]);
}

#[test]
fn repeated_keys_do_not_canonicalize() {
    let f = identical();
    let (mut m, _) = run(&f, Algorithm::Naive);
    assert!(canonicalize(&m, &f.selectors).is_some());
    m.0[1].id = m.0[0].id;
    assert!(canonicalize(&m, &f.selectors).is_none());
    let (naive, _) = run(&f, Algorithm::Naive);
    assert!(!runs_agree(&m, &naive, &f.selectors));
}

#[test]
fn matched_selectors_are_ascending() {
    let f = identical();
    for alg in ALL {
        let (m, _) = run(&f, alg);
        for r in &m.0 {
            if let SelectorsOrSharedStyles::Selectors(v) = &r.selectors {
                assert!(v.windows(2).all(|w| w[0] < w[1]));
            }
        }
        if let SelectorsOrSharedStyles::Selectors(v) = &m.0[2].selectors {
            assert_eq!(v, &vec![0, 1, 2]);
        } else {
            panic!("the first div matches directly");
        }
    }
}

#[test]
fn answers_must_fit_the_document() {
    let f = identical();
    assert!(mach_6::selector::answers_fit(&f.doc, &f.selectors, &f.answers));
    let mut short = f.answers.clone();
    short.matches[3].pop();
    assert!(!mach_6::selector::answers_fit(&f.doc, &f.selectors, &short));
}
