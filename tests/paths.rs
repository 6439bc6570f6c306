use ast_paths::{ApplyVisitors, FnCreator, Hit, Marker, MarkerTree, Pending, VisitWithPath};

const SRC: &str = "('foo', 'bar', ['baz']);";

fn span_of(text: &str) -> Marker {
    let lo = SRC.find(text).expect("text not found") as u32;
    Marker { lo, hi: lo + text.len() as u32 }
}

/// The significant nodes of `('foo', 'bar', ['baz']);`: the statement, the
/// parenthesized expression, the sequence, its three elements, and `'baz'`.
fn sample() -> Vec<MarkerTree> {
    let arr = MarkerTree::node(span_of("['baz']"), vec![MarkerTree::leaf(span_of("'baz'"))]);
    let seq = MarkerTree::node(
        span_of("'foo', 'bar', ['baz']"),
        vec![MarkerTree::leaf(span_of("'foo'")), MarkerTree::leaf(span_of("'bar'")), arr],
    );
    let paren = MarkerTree::node(span_of("('foo', 'bar', ['baz'])"), vec![seq]);
    vec![MarkerTree::node(span_of(SRC), vec![paren])]
}

/// The string literals of the sample, by path, as a transform would see them.
fn literals() -> Vec<(Vec<usize>, String)> {
    vec![
        (vec![0, 0, 0, 0], "'foo'".to_string()),
        (vec![0, 0, 0, 1], "'bar'".to_string()),
        (vec![0, 0, 0, 2, 0], "'baz'".to_string()),
    ]
}

fn replace_at(lits: &mut Vec<(Vec<usize>, String)>, hits: &[Hit], from: &str, to: &str) {
    for h in hits {
        for l in lits.iter_mut() {
            if l.0 == h.path {
                l.1 = l.1.replace(from, to);
            }
        }
    }
}

fn pairs(hits: &[Hit]) -> Vec<(Vec<usize>, usize)> {
    hits.iter().map(|h| (h.path.clone(), h.id)).collect()
}

#[test]
fn case_1() {
    let stmt_span = span_of(SRC);
    let expr_span = span_of("('foo', 'bar', ['baz'])");
    let seq_span = span_of("'foo', 'bar', ['baz']");
    let bar_span = span_of("'bar'");
    let baz_span = span_of("'baz'");
    let m = sample();

    {
        let bar_span_vec = vec![stmt_span, expr_span, seq_span, bar_span];
        let map = vec![Pending { key: stmt_span, chain: bar_span_vec, id: 0 }];
        let hits = ApplyVisitors::new(map).visit_nodes(&m);
        let mut lits = literals();
        replace_at(&mut lits, &hits, "bar", "bar-success");
        let s = format!("{:?}", lits);
        assert!(s.contains("bar-success"), "Should be replaced: {:#?}", lits);
    }

    {
        let wrong_span_vec = vec![baz_span];
        let map = vec![Pending { key: stmt_span, chain: wrong_span_vec, id: 0 }];
        let hits = ApplyVisitors::new(map).visit_nodes(&m);
        let mut lits = literals();
        replace_at(&mut lits, &hits, "bar", "bar-success");
        let s = format!("{:?}", lits);
        assert!(!s.contains("bar-success"), "Should not be replaced: {:#?}", lits);
    }
}

#[test]
fn correct_chain_targets_only_bar() {
    let chain = vec![span_of(SRC), span_of("('foo', 'bar', ['baz'])"), span_of("'foo', 'bar', ['baz']"), span_of("'bar'")];
    let hits = ApplyVisitors::from_chains(&vec![chain]).visit_nodes(&sample());
    assert_eq!(pairs(&hits), vec![(vec![0, 0, 0, 1], 0)]);
    let mut lits = literals();
    replace_at(&mut lits, &hits, "bar", "bar-success");
    assert_eq!(lits[0].1, "'foo'");
    assert_eq!(lits[1].1, "'bar-success'");
    assert_eq!(lits[2].1, "'baz'");
}

#[test]
fn inconsistent_chain_does_not_match() {
    let chain = vec![span_of("'baz'")];
    let map = vec![Pending { key: span_of(SRC), chain, id: 0 }];
    assert!(ApplyVisitors::new(map).visit_nodes(&sample()).is_empty());
    // Keyed on its own marker, a one-element chain only reaches top-level nodes.
    let hits = ApplyVisitors::from_chains(&vec![vec![span_of("'baz'")]]).visit_nodes(&sample());
    assert!(hits.is_empty());
}

#[test]
fn unknown_last_marker_is_ignored() {
    let chain = vec![span_of(SRC), span_of("('foo', 'bar', ['baz'])"), Marker { lo: 100, hi: 105 }];
    let hits = ApplyVisitors::from_chains(&vec![chain]).visit_nodes(&sample());
    assert!(hits.is_empty());
}

#[test]
fn diverging_chains_apply_independently() {
    let prefix = vec![span_of(SRC), span_of("('foo', 'bar', ['baz'])"), span_of("'foo', 'bar', ['baz']")];
    let mut to_foo = prefix.clone();
    to_foo.push(span_of("'foo'"));
    let mut to_baz = prefix.clone();
    to_baz.push(span_of("['baz']"));
    to_baz.push(span_of("'baz'"));
    let hits = ApplyVisitors::from_chains(&vec![to_baz, to_foo]).visit_nodes(&sample());
    assert_eq!(pairs(&hits), vec![(vec![0, 0, 0, 2, 0], 0), (vec![0, 0, 0, 0], 1)]);
}

#[test]
fn ancestor_and_descendant_both_apply() {
    let outer = vec![span_of(SRC)];
    let inner = vec![span_of(SRC), span_of("('foo', 'bar', ['baz'])")];
    let hits = ApplyVisitors::from_chains(&vec![inner, outer]).visit_nodes(&sample());
    assert_eq!(pairs(&hits), vec![(vec![0, 0], 0), (vec![0], 1)]);
}

#[test]
fn duplicate_registration_applies_twice_in_order() {
    let chain = vec![span_of(SRC), span_of("('foo', 'bar', ['baz'])"), span_of("'foo', 'bar', ['baz']"), span_of("'bar'")];
    let map = vec![
        Pending { key: span_of(SRC), chain: chain.clone(), id: 7 },
        Pending { key: span_of(SRC), chain: chain.clone(), id: 7 },
    ];
    let hits = ApplyVisitors::new(map).visit_nodes(&sample());
    assert_eq!(pairs(&hits), vec![(vec![0, 0, 0, 1], 7), (vec![0, 0, 0, 1], 7)]);
    let hits = ApplyVisitors::from_chains(&vec![chain.clone(), chain]).visit_nodes(&sample());
    assert_eq!(pairs(&hits), vec![(vec![0, 0, 0, 1], 0), (vec![0, 0, 0, 1], 1)]);
    let mut lits = literals();
    replace_at(&mut lits, &hits, "bar", "bar-x");
    assert_eq!(lits[1].1, "'bar-x-x'");
}

#[test]
fn clones_are_told_apart_by_their_ancestors() {
    let a = Marker { lo: 0, hi: 10 };
    let b = Marker { lo: 20, hi: 30 };
    let x = Marker { lo: 2, hi: 5 };
    let forest = vec![
        MarkerTree::node(a, vec![MarkerTree::leaf(x)]),
        MarkerTree::node(b, vec![MarkerTree::leaf(x)]),
    ];
    let hits = ApplyVisitors::from_chains(&vec![vec![b, x]]).visit_nodes(&forest);
    assert_eq!(pairs(&hits), vec![(vec![1, 0], 0)]);
    let hits = ApplyVisitors::from_chains(&vec![vec![a, x], vec![b, x]]).visit_nodes(&forest);
    assert_eq!(pairs(&hits), vec![(vec![0, 0], 0), (vec![1, 0], 1)]);
}

#[test]
fn same_marker_twice_under_one_parent() {
    let a = Marker { lo: 0, hi: 10 };
    let x = Marker { lo: 2, hi: 5 };
    let forest = vec![MarkerTree::node(a, vec![MarkerTree::leaf(x), MarkerTree::leaf(x)])];
    let hits = ApplyVisitors::from_chains(&vec![vec![a, x]]).visit_nodes(&forest);
    assert_eq!(pairs(&hits), vec![(vec![0, 0], 0), (vec![0, 1], 0)]);
}

#[test]
fn visit_if_required_paths_are_relative() {
    let m = sample();
    let chain = vec![span_of(SRC), span_of("('foo', 'bar', ['baz'])")];
    let a = ApplyVisitors::from_chains(&vec![chain]);
    let hits = a.visit_if_required(&m[0]);
    assert_eq!(pairs(&hits), vec![(vec![0], 0)]);
    assert!(a.visit_if_required(&m[0].children[0]).is_empty());
}

#[test]
fn empty_inputs_apply_nothing() {
    assert!(ApplyVisitors::new(vec![]).visit_nodes(&sample()).is_empty());
    assert!(ApplyVisitors::from_chains(&vec![vec![span_of(SRC)]]).visit_nodes(&vec![]).is_empty());
}

#[test]
fn from_chains_keys_on_first_marker() {
    let c0 = vec![span_of(SRC), span_of("'bar'")];
    let c1 = vec![span_of("'baz'")];
    let a = ApplyVisitors::from_chains(&vec![c0.clone(), c1.clone()]);
    assert_eq!(a.index, 0);
    assert_eq!(a.visitors.len(), 2);
    assert_eq!(a.visitors[0].key, span_of(SRC));
    assert_eq!(a.visitors[0].chain, c0);
    assert_eq!(a.visitors[0].id, 0);
    assert_eq!(a.visitors[1].key, span_of("'baz'"));
    assert_eq!(a.visitors[1].chain, c1);
    assert_eq!(a.visitors[1].id, 1);
}

fn accept_last(last: Marker) -> FnCreator<&'static str, impl Fn(&[Marker]) -> Option<&'static str>> {
    FnCreator::new(move |p: &[Marker]| if p.last() == Some(&last) { Some("bar-success") } else { None })
}

#[test]
fn recording_is_preorder() {
    let mut v = VisitWithPath::new(FnCreator::new(|p: &[Marker]| Some(p.to_vec())));
    v.visit_nodes(&sample());
    assert!(v.spans.is_empty());
    let stmt = span_of(SRC);
    let paren = span_of("('foo', 'bar', ['baz'])");
    let seq = span_of("'foo', 'bar', ['baz']");
    let expected = vec![
        vec![stmt],
        vec![stmt, paren],
        vec![stmt, paren, seq],
        vec![stmt, paren, seq, span_of("'foo'")],
        vec![stmt, paren, seq, span_of("'bar'")],
        vec![stmt, paren, seq, span_of("['baz']")],
        vec![stmt, paren, seq, span_of("['baz']"), span_of("'baz'")],
    ];
    let recorded = v.into_visitors();
    let chains: Vec<Vec<Marker>> = recorded.iter().map(|r| r.0.clone()).collect();
    let offered: Vec<Vec<Marker>> = recorded.iter().map(|r| r.1.clone()).collect();
    assert_eq!(chains, expected);
    assert_eq!(offered, expected);
}

#[test]
fn record_then_apply_round_trip() {
    let m = sample();
    let mut v = VisitWithPath::new(accept_last(span_of("'bar'")));
    v.visit_nodes(&m);
    let recorded = v.into_visitors();
    assert_eq!(recorded.len(), 1);
    assert_eq!(recorded[0].1, "bar-success");
    let chains: Vec<Vec<Marker>> = recorded.iter().map(|r| r.0.clone()).collect();
    let hits = ApplyVisitors::from_chains(&chains).visit_nodes(&m);
    assert_eq!(pairs(&hits), vec![(vec![0, 0, 0, 1], 0)]);
    let mut lits = literals();
    replace_at(&mut lits, &hits, "bar", recorded[hits[0].id].1);
    assert_eq!(lits[1].1, "'bar-success'");
}

#[test]
fn key_disagreeing_with_chain_start_never_matches() {
    let stmt = span_of(SRC);
    let paren = span_of("('foo', 'bar', ['baz'])");
    let map = vec![Pending { key: stmt, chain: vec![span_of("'baz'"), paren], id: 0 }];
    assert!(ApplyVisitors::new(map).visit_nodes(&sample()).is_empty());
    let map = vec![Pending { key: stmt, chain: vec![stmt, paren], id: 3 }];
    assert_eq!(pairs(&ApplyVisitors::new(map).visit_nodes(&sample())), vec![(vec![0, 0], 3)]);
}

#[test]
fn offer_records_only_accepted_answers() {
    let mut v = VisitWithPath::new(accept_last(span_of("'bar'")));
    v.spans = vec![span_of(SRC)];
    v.offer(None);
    assert!(v.visitors.is_empty());
    v.offer(Some("t"));
    assert_eq!(v.visitors.len(), 1);
    assert_eq!(v.visitors[0].0, vec![span_of(SRC)]);
    assert_eq!(v.visitors[0].1, "t");
    assert_eq!(v.spans, vec![span_of(SRC)]);
}
