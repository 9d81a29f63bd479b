use scope_layers::interval::Interval;
use scope_layers::spans::SpanMap;

fn runs<V: Copy>(m: &SpanMap<V>) -> Vec<(usize, V)> {
    m.spans.iter().map(|sp| (sp.len, sp.val)).collect()
}

#[test]
fn uniform_covers_whole_range() {
    let m: SpanMap<u32> = SpanMap::uniform(7, 4);
    assert_eq!(m.total, 7);
    assert_eq!(runs(&m), vec![(7usize, 4u32)]);
}

#[test]
fn uniform_empty_has_no_spans() {
    let m: SpanMap<u32> = SpanMap::uniform(0, 4);
    assert_eq!(m.total, 0);
    assert_eq!(m.spans.len(), 0);
}

#[test]
fn push_span_appends_runs() {
    let mut m: SpanMap<u32> = SpanMap::new();
    m.push_span(3, 1);
    m.push_span(2, 2);
    m.push_span(0, 9);
    assert_eq!(m.total, 5);
    assert_eq!(runs(&m), vec![(3usize, 1u32), (2, 2)]);
}

#[test]
fn subseq_rebases_and_clips() {
    let mut m: SpanMap<u32> = SpanMap::new();
    m.push_span(3, 1);
    m.push_span(4, 2);
    m.push_span(3, 3);
    let s = m.subseq(Interval::new(2, 8));
    assert_eq!(s.total, 6);
    assert_eq!(runs(&s), vec![(1usize, 1u32), (4, 2), (1, 3)]);
}

#[test]
fn edit_replaces_with_different_length() {
    let mut m: SpanMap<u32> = SpanMap::new();
    m.push_span(4, 1);
    m.push_span(4, 2);
    let mut repl: SpanMap<u32> = SpanMap::new();
    repl.push_span(2, 9);
    m.edit(Interval::new(2, 6), &repl);
    assert_eq!(m.total, 6);
    assert_eq!(runs(&m), vec![(2usize, 1u32), (2, 9), (2, 2)]);
}

#[test]
fn edit_with_empty_replacement_deletes() {
    let mut m: SpanMap<u32> = SpanMap::new();
    m.push_span(4, 1);
    m.push_span(4, 2);
    let repl: SpanMap<u32> = SpanMap::new();
    m.edit(Interval::new(3, 5), &repl);
    assert_eq!(m.total, 6);
    assert_eq!(runs(&m), vec![(3usize, 1u32), (3, 2)]);
}

#[test]
fn merge_walks_both_boundaries() {
    let mut a: SpanMap<u32> = SpanMap::new();
    a.push_span(4, 10);
    a.push_span(4, 20);
    let mut b: SpanMap<u32> = SpanMap::new();
    b.push_span(2, 1);
    b.push_span(6, 2);
    let m = a.merge(&b, |x: u32, y: Option<u32>| match y {
        Some(y) => x + y,
        None => x,
    });
    assert_eq!(m.total, 8);
    assert_eq!(runs(&m), vec![(2usize, 11u32), (2, 12), (4, 22)]);
}

#[test]
fn iterate_hands_back_ascending_triples_each_time() {
    let mut m: SpanMap<u32> = SpanMap::new();
    m.push_span(3, 7);
    m.push_span(2, 8);
    let once = m.iterate();
    assert_eq!(once, vec![(0usize, 3usize, 7u32), (3, 5, 8)]);
    // restartable: a fresh call yields the sequence from the start
    assert_eq!(m.iterate(), once);
}
