use dq_core::spans::{SpanContext, SpanMap, SpanRecomputeDelta, ValueSpan, apply_delta};

fn span(start: usize, end: usize) -> ValueSpan {
    ValueSpan {
        value_range: start..end,
        line_range: start..end,
        indent: 0,
        context: SpanContext::BlockMapValue,
    }
}

#[test]
fn apply_delta_zero_shift_is_noop() {
    let mut map = SpanMap::new();
    map.insert("/a".into(), span(0, 5));
    map.insert("/b".into(), span(10, 20));
    let snapshot = map.clone();
    apply_delta(
        &mut map,
        SpanRecomputeDelta {
            at: 5,
            old_len: 3,
            new_len: 3,
        },
    );
    assert_eq!(map, snapshot, "zero shift must not mutate any span");
}

#[test]
fn apply_delta_positive_shift_moves_right_spans_right() {
    let mut map = SpanMap::new();
    map.insert("/before".into(), span(0, 4)); // ends at 4 < 8: untouched
    map.insert("/edit".into(), span(5, 8)); // overlaps edit: untouched (caller updates)
    map.insert("/after".into(), span(10, 20)); // starts at 10 >= 8: shifts +3
    apply_delta(
        &mut map,
        SpanRecomputeDelta {
            at: 5,
            old_len: 3,
            new_len: 6,
        },
    );
    assert_eq!(map.get("/before").unwrap().value_range, 0..4);
    assert_eq!(map.get("/edit").unwrap().value_range, 5..8);
    assert_eq!(map.get("/after").unwrap().value_range, 13..23);
    assert_eq!(map.get("/after").unwrap().line_range, 13..23);
}

#[test]
fn apply_delta_negative_shift_moves_right_spans_left() {
    let mut map = SpanMap::new();
    map.insert("/before".into(), span(0, 4));
    map.insert("/after".into(), span(20, 25));
    apply_delta(
        &mut map,
        SpanRecomputeDelta {
            at: 5,
            old_len: 10,
            new_len: 4,
        },
    );
    assert_eq!(map.get("/before").unwrap().value_range, 0..4);
    assert_eq!(map.get("/after").unwrap().value_range, 14..19);
}

#[test]
fn apply_delta_leaves_left_and_overlapping_spans_alone() {
    let mut map = SpanMap::new();
    map.insert("/left".into(), span(0, 3));
    map.insert("/overlapping".into(), span(8, 14)); // crosses 10..12
    map.insert("/at_start".into(), span(10, 12)); // starts exactly at edit
    apply_delta(
        &mut map,
        SpanRecomputeDelta {
            at: 10,
            old_len: 2,
            new_len: 5,
        },
    );
    assert_eq!(map.get("/left").unwrap().value_range, 0..3);
    assert_eq!(map.get("/overlapping").unwrap().value_range, 8..14);
    assert_eq!(map.get("/at_start").unwrap().value_range, 10..12);
}
