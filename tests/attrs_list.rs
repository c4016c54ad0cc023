use text_attrs::{Attrs, AttrsList, AttrsOwned, Color, Family, SpanMap};

fn tagged(n: usize) -> Attrs<'static> {
    Attrs::new().metadata(n)
}

fn owned(n: usize) -> AttrsOwned {
    AttrsOwned::new(tagged(n))
}

#[test]
fn overlapping_spans_scenario() {
    let mut list = AttrsList::new(tagged(0));
    list.add_span(0..5, tagged(1));
    list.add_span(3..8, tagged(2));
    assert_eq!(list.spans(), vec![(0..3, owned(1)), (3..8, owned(2))]);
    assert_eq!(list.get_span(2), tagged(1));
    assert_eq!(list.get_span(3), tagged(2));
    assert_eq!(list.get_span(10), tagged(0));

    let new = list.split_off(5);
    assert_eq!(list.spans(), vec![(0..3, owned(1)), (3..5, owned(2))]);
    assert_eq!(new.spans(), vec![(0..3, owned(2))]);
    assert_eq!(new.defaults(), tagged(0));
}

#[test]
fn empty_range_is_ignored() {
    let mut list = AttrsList::new(tagged(0));
    list.add_span(2..6, tagged(1));
    list.add_span(4..4, tagged(2));
    assert_eq!(list.spans(), vec![(2..6, owned(1))]);
    assert_eq!(list.get_span(4), tagged(1));
}

#[test]
fn inner_span_cuts_outer_in_two() {
    let mut list = AttrsList::new(tagged(0));
    list.add_span(0..10, tagged(1));
    list.add_span(4..6, tagged(2));
    assert_eq!(
        list.spans(),
        vec![(0..4, owned(1)), (4..6, owned(2)), (6..10, owned(1))]
    );
}

#[test]
fn covering_span_replaces_all_inside() {
    let mut list = AttrsList::new(tagged(0));
    list.add_span(1..3, tagged(1));
    list.add_span(3..5, tagged(2));
    list.add_span(7..9, tagged(3));
    list.add_span(2..8, tagged(4));
    assert_eq!(
        list.spans(),
        vec![(1..2, owned(1)), (2..8, owned(4)), (8..9, owned(3))]
    );
}

#[test]
fn last_write_wins_per_offset() {
    let mut list = AttrsList::new(tagged(0));
    list.add_span(0..4, tagged(1));
    list.add_span(2..6, tagged(2));
    list.add_span(5..9, tagged(3));
    list.add_span(1..2, tagged(4));
    let expected = [1, 4, 2, 2, 2, 3, 3, 3, 3, 0, 0];
    for (i, want) in expected.iter().enumerate() {
        assert_eq!(list.get_span(i), tagged(*want), "offset {}", i);
    }
}

#[test]
fn adjacent_equal_spans_stay_apart() {
    let mut list = AttrsList::new(tagged(0));
    list.add_span(0..2, tagged(1));
    list.add_span(2..4, tagged(1));
    assert_eq!(list.spans(), vec![(0..2, owned(1)), (2..4, owned(1))]);
}

#[test]
fn spans_never_overlap_after_many_inserts() {
    let mut list = AttrsList::new(tagged(0));
    let ranges = [(5, 9), (0, 3), (2, 7), (8, 12), (1, 11), (11, 12), (0, 1), (6, 6)];
    for (n, &(s, e)) in ranges.iter().enumerate() {
        list.add_span(s..e, tagged(n + 1));
    }
    let spans = list.spans();
    for w in spans.windows(2) {
        assert!(w[0].0.end <= w[1].0.start);
    }
    for (r, _) in &spans {
        assert!(r.start < r.end);
    }
}

#[test]
fn clear_spans_keeps_defaults() {
    let mut list = AttrsList::new(tagged(7));
    list.add_span(0..3, tagged(1));
    list.clear_spans();
    assert!(list.spans().is_empty());
    assert_eq!(list.get_span(1), tagged(7));
    assert_eq!(list.defaults(), tagged(7));
}

#[test]
fn split_at_zero_moves_everything() {
    let mut list = AttrsList::new(tagged(0));
    list.add_span(0..3, tagged(1));
    list.add_span(5..8, tagged(2));
    let before = list.spans();
    let new = list.split_off(0);
    assert!(list.spans().is_empty());
    assert_eq!(new.spans(), before);
}

#[test]
fn split_past_end_moves_nothing() {
    let mut list = AttrsList::new(tagged(0));
    list.add_span(0..3, tagged(1));
    list.add_span(5..8, tagged(2));
    let before = list.spans();
    let new = list.split_off(20);
    assert_eq!(list.spans(), before);
    assert!(new.spans().is_empty());
}

#[test]
fn split_at_span_edge() {
    let mut list = AttrsList::new(tagged(0));
    list.add_span(0..3, tagged(1));
    list.add_span(3..8, tagged(2));
    let new = list.split_off(3);
    assert_eq!(list.spans(), vec![(0..3, owned(1))]);
    assert_eq!(new.spans(), vec![(0..5, owned(2))]);
}

#[test]
fn split_keeps_every_offset() {
    let mut list = AttrsList::new(tagged(0));
    list.add_span(1..4, tagged(1));
    list.add_span(6..10, tagged(2));
    list.add_span(12..13, tagged(3));
    let before: Vec<Attrs> = (0..16).map(|i| list.get_span(i)).collect();
    let before: Vec<AttrsOwned> = before.into_iter().map(AttrsOwned::new).collect();
    let index = 7;
    let new = list.split_off(index);
    for i in 0..16 {
        if i < index {
            assert_eq!(AttrsOwned::new(list.get_span(i)), before[i]);
        } else {
            assert_eq!(AttrsOwned::new(new.get_span(i - index)), before[i]);
        }
    }
}

#[test]
fn defaults_with_named_family() {
    let defaults = Attrs::new().family(Family::Name("Inter")).color(Color::rgb(1, 1, 1));
    let list = AttrsList::new(defaults);
    assert_eq!(list.defaults(), defaults);
    assert_eq!(list.get_span(0), defaults);
}

#[test]
fn span_map_lookup_and_gaps() {
    let mut map = SpanMap::new();
    map.insert(2..4, owned(1));
    map.insert(6..9, owned(2));
    assert_eq!(map.get(1), None);
    assert_eq!(map.get(2), Some(&owned(1)));
    assert_eq!(map.get(3), Some(&owned(1)));
    assert_eq!(map.get(4), None);
    assert_eq!(map.get(8), Some(&owned(2)));
    assert_eq!(map.get(9), None);
    let right = map.split_off(7);
    assert_eq!(map.entries(), vec![(2..4, owned(1)), (6..7, owned(2))]);
    assert_eq!(right.entries(), vec![(0..2, owned(2))]);
    map.clear();
    assert!(map.entries().is_empty());
}

#[test]
fn span_map_key_value_and_exact_remove() {
    let mut map = SpanMap::new();
    map.insert(0..10, owned(1));
    map.insert(3..5, owned(2));
    assert_eq!(map.get_key_value(7), Some((&(5..10), &owned(1))));
    assert_eq!(map.get_key_value(4), Some((&(3..5), &owned(2))));
    assert_eq!(map.get_key_value(10), None);
    map.remove(&(3..5));
    assert_eq!(map.entries(), vec![(0..3, owned(1)), (5..10, owned(1))]);
    assert_eq!(map.get(4), None);
    map.remove(&(0..3));
    map.remove(&(5..10));
    assert!(map.entries().is_empty());
}

#[test]
fn span_map_insert_at_both_ends() {
    let mut map = SpanMap::new();
    map.insert(4..6, owned(1));
    map.insert(0..2, owned(2));
    map.insert(8..usize::MAX, owned(3));
    assert_eq!(
        map.entries(),
        vec![(0..2, owned(2)), (4..6, owned(1)), (8..usize::MAX, owned(3))]
    );
    assert_eq!(map.get(usize::MAX - 1), Some(&owned(3)));
    assert_eq!(map.get(usize::MAX), None);
}

#[test]
fn lists_compare_by_defaults_and_spans() {
    let mut a = AttrsList::new(tagged(0));
    let mut b = AttrsList::new(tagged(0));
    assert!(a == b);
    a.add_span(0..4, tagged(1));
    assert!(a != b);
    b.add_span(0..4, tagged(1));
    assert!(a == b);
    b.add_span(2..4, tagged(1));
    assert!(a != b);
    assert!(AttrsList::new(tagged(0)) != AttrsList::new(tagged(1)));
}
