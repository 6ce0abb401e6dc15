use spirolab::bisect::{Bisection, Verdict, MAX_OPERATIONS};

/// Points on a line; the midpoint is the arithmetic mean.
fn refine(new: i64, previous: i64, tolerance: i64, cap: u32) -> (Vec<(i64, i64)>, Bisection<i64>) {
    let mut bisection = Bisection::with_cap(new, previous, cap);
    let mut segments = Vec::new();
    while let Some((from, to)) = bisection.pending() {
        let verdict = if (from - to).abs() < tolerance {
            Verdict::Short
        } else {
            Verdict::Long((from + to) / 2)
        };
        if let Some(segment) = bisection.step(verdict) {
            segments.push(segment);
        }
    }
    (segments, bisection)
}

#[test]
fn the_cap_is_ten_thousand() {
    assert_eq!(MAX_OPERATIONS, 10_000);
}

#[test]
fn first_chord_runs_from_previous_to_new() {
    let bisection = Bisection::new(8i64, 0i64);
    assert_eq!(bisection.pending(), Some((0, 8)));
    assert_eq!(bisection.operations(), 0);
    assert!(!bisection.is_capped());
}

#[test]
fn short_chord_is_emitted_at_once() {
    let mut bisection = Bisection::new(8i64, 0i64);
    assert_eq!(bisection.step(Verdict::Short), Some((0, 8)));
    assert_eq!(bisection.pending(), None);
    assert_eq!(bisection.operations(), 1);
    assert!(!bisection.is_capped());
}

#[test]
fn long_chord_gets_its_first_half_judged_next() {
    let mut bisection = Bisection::new(8i64, 0i64);
    assert_eq!(bisection.step(Verdict::Long(4)), None);
    assert_eq!(bisection.pending(), Some((0, 4)));
    assert_eq!(bisection.step(Verdict::Short), Some((0, 4)));
    assert_eq!(bisection.pending(), Some((4, 8)));
    assert_eq!(bisection.step(Verdict::Short), Some((4, 8)));
    assert_eq!(bisection.pending(), None);
    assert_eq!(bisection.operations(), 3);
}

#[test]
fn verdict_with_nothing_pending_is_ignored() {
    let mut bisection = Bisection::new(8i64, 0i64);
    assert_eq!(bisection.step(Verdict::Short), Some((0, 8)));
    assert_eq!(bisection.step(Verdict::Short), None);
    assert_eq!(bisection.step(Verdict::Long(3)), None);
    assert_eq!(bisection.pending(), None);
    assert_eq!(bisection.operations(), 1);
}

#[test]
fn segments_come_in_traversal_order() {
    let (segments, bisection) = refine(8, 0, 3, MAX_OPERATIONS);
    assert_eq!(segments, vec![(0, 2), (2, 4), (4, 6), (6, 8)]);
    assert_eq!(bisection.operations(), 7);
    assert!(!bisection.is_capped());
}

#[test]
fn settled_polyline_is_connected() {
    for tolerance in 2i64..50 {
        let (segments, bisection) = refine(1000, -37, tolerance, MAX_OPERATIONS);
        assert!(!bisection.is_capped());
        assert!(!segments.is_empty());
        assert_eq!(segments[0].0, -37);
        assert_eq!(segments[segments.len() - 1].1, 1000);
        for pair in segments.windows(2) {
            assert_eq!(pair[0].1, pair[1].0);
        }
    }
}

#[test]
fn every_segment_is_within_tolerance() {
    for tolerance in 2i64..50 {
        let (segments, _) = refine(1000, 0, tolerance, MAX_OPERATIONS);
        for (from, to) in segments {
            assert!((from - to).abs() < tolerance);
        }
    }
}

#[test]
fn small_cap_leaves_the_chord_unfinished_but_within_tolerance() {
    let (segments, bisection) = refine(1000, 0, 3, 25);
    assert!(bisection.is_capped());
    assert_eq!(bisection.operations(), 25);
    assert_eq!(bisection.pending(), None);
    assert!(segments.len() < 25);
    for (from, to) in &segments {
        assert!((from - to).abs() < 3);
    }
    let (whole, finished) = refine(1000, 0, 3, MAX_OPERATIONS);
    assert!(!finished.is_capped());
    assert_eq!(&whole[..segments.len()], &segments[..]);
}

#[test]
fn cap_of_zero_does_nothing() {
    let mut bisection = Bisection::with_cap(8i64, 0i64, 0);
    assert_eq!(bisection.pending(), None);
    assert!(bisection.is_capped());
    assert_eq!(bisection.step(Verdict::Short), None);
    assert_eq!(bisection.operations(), 0);
}

#[test]
fn unreachable_tolerance_stops_at_the_cap() {
    let (segments, bisection) = refine(1000, 0, 0, MAX_OPERATIONS);
    assert!(segments.is_empty());
    assert!(bisection.is_capped());
    assert_eq!(bisection.operations(), MAX_OPERATIONS);
}

#[test]
fn finer_tolerance_never_emits_fewer_segments() {
    let mut previous_count = 0usize;
    for tolerance in (2i64..200).rev() {
        let (segments, bisection) = refine(5000, 0, tolerance, MAX_OPERATIONS);
        assert!(!bisection.is_capped());
        assert!(segments.len() >= previous_count);
        previous_count = segments.len();
    }
    assert_eq!(refine(5000, 0, 5001, MAX_OPERATIONS).0.len(), 1);
    assert_eq!(refine(5000, 0, 5000, MAX_OPERATIONS).0.len(), 2);
}

#[test]
fn segment_count_is_bounded_by_operations() {
    for tolerance in 2i64..50 {
        let (segments, bisection) = refine(1000, 0, tolerance, MAX_OPERATIONS);
        let operations = bisection.operations() as usize;
        assert_eq!(operations, 2 * segments.len() - 1);
    }
}
