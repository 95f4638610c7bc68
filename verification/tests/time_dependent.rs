use td_router::graph::time_dependent::{
    abs_diff, period, ATIpp, Line, MonotoneLine, Segment, TTIpp,
};

#[test]
fn test_ttipp_to_atipp() {
    assert_eq!(TTIpp::new(2, 2).into_atipp(10), ATIpp::new(2, 4));
    assert_eq!(TTIpp::new(6, 5).into_atipp(10), ATIpp::new(6, 1));
}

#[test]
fn test_tt_line_to_monotone_at_line() {
    assert_eq!(
        Line { from: TTIpp::new(2, 2), to: TTIpp::new(4, 5) }.into_monotone_at_line(10),
        MonotoneLine(Line { from: ATIpp::new(2, 4), to: ATIpp::new(4, 9) })
    );
    assert_eq!(
        Line { from: TTIpp::new(4, 5), to: TTIpp::new(2, 2) }.into_monotone_at_line(10),
        MonotoneLine(Line { from: ATIpp::new(4, 9), to: ATIpp::new(12, 14) })
    );
    assert_eq!(
        Line { from: TTIpp::new(8, 3), to: TTIpp::new(2, 2) }.into_monotone_at_line(10),
        MonotoneLine(Line { from: ATIpp::new(8, 11), to: ATIpp::new(12, 14) })
    );
}

#[test]
fn period_is_one_day_of_milliseconds() {
    assert_eq!(period(), 86_400_000);
}

#[test]
fn abs_diff_is_symmetric() {
    assert_eq!(abs_diff(3, 10), 7);
    assert_eq!(abs_diff(10, 3), 7);
    assert_eq!(abs_diff(5, 5), 0);
}

#[test]
fn points_convert_both_ways() {
    let tt = TTIpp::new(7, 5);
    assert_eq!(tt.as_tuple(), (7, 5));
    let at = tt.into_atipp(100);
    assert_eq!(at.as_tuple(), (7, 12));
    assert_eq!(at.into_ttipp(), tt);
    let mut shifted = at;
    shifted.shift(100);
    assert_eq!(shifted, ATIpp::new(107, 112));
    let difference = TTIpp::new(2, 9).sub(TTIpp::new(5, 4));
    assert_eq!((difference.x, difference.y), (-3, 5));
}

#[test]
fn travel_time_line_interpolates_towards_first_value() {
    let rising = MonotoneLine(Line::new(TTIpp::new(0, 10), TTIpp::new(10, 15)));
    assert_eq!(rising.interpolate_tt(0), 10);
    assert_eq!(rising.interpolate_tt(5), 12);
    assert_eq!(rising.interpolate_tt(10), 15);
    let falling = MonotoneLine(Line::new(TTIpp::new(0, 15), TTIpp::new(10, 10)));
    assert_eq!(falling.interpolate_tt(5), 13);
    assert_eq!(falling.interpolate_tt(9), 11);
    assert_eq!(falling.interpolate_tt(10), 10);
    assert_eq!(rising.delta_x(), 10);
    assert_eq!(rising.delta_y(), 5);
}

#[test]
fn arrival_line_gives_travel_time() {
    let line = MonotoneLine(Line::new(ATIpp::new(2, 4), ATIpp::new(12, 24)));
    assert_eq!(line.interpolate_tt(2), 2);
    assert_eq!(line.interpolate_tt(7), 7);
    assert_eq!(line.interpolate_tt(12), 12);
    assert_eq!(line.delta_x(), 10);
    assert_eq!(line.delta_y(), 20);
    let back = line.into_monotone_tt_line();
    assert_eq!(back, MonotoneLine(Line::new(TTIpp::new(2, 2), TTIpp::new(12, 12))));
    let mut moved = line;
    moved.shift(10);
    assert_eq!(moved, MonotoneLine(Line::new(ATIpp::new(12, 14), ATIpp::new(22, 34))));
}

#[test]
fn wrapping_line_is_unrolled() {
    let line = Line::new(TTIpp::new(8, 3), TTIpp::new(2, 2));
    assert_eq!(
        line.into_monotone_tt_line(10),
        MonotoneLine(Line::new(TTIpp::new(8, 3), TTIpp::new(12, 2)))
    );
    let folded = MonotoneLine(Line::new(TTIpp::new(8, 13), TTIpp::new(12, 2))).apply_periodicity(10);
    assert_eq!(folded, Line::new(TTIpp::new(8, 3), TTIpp::new(2, 2)));
}

#[test]
fn segments_evaluate_and_compare() {
    let segment = Segment::new((2, 10), (6, 18));
    assert_eq!(segment.valid.start, 2);
    assert_eq!(segment.valid.end, 6);
    assert_eq!(segment.eval(4, 100), 14);
    assert_eq!(segment.start_of_valid_at_val(100), 12);
    assert_eq!(segment.end_of_valid_at_val(100), 24);
    // the same line through other points, for the same moments
    let mut other = Segment::new((0, 6), (8, 22));
    other.valid = 2..6;
    assert!(segment.is_equivalent_to(&other, 100));
    let mut steeper = Segment::new((0, 6), (8, 30));
    steeper.valid = 2..6;
    assert!(!segment.is_equivalent_to(&steeper, 100));
    let elsewhere = Segment::new((2, 10), (7, 20));
    assert!(!segment.is_equivalent_to(&elsewhere, 100));
}

#[test]
fn arrival_segment_ranges() {
    let segment = Segment::new((2, 10), (6, 18)).into_monotone_at_segment(100);
    assert_eq!(segment.line, MonotoneLine(Line::new(ATIpp::new(2, 12), ATIpp::new(6, 24))));
    assert_eq!(segment.valid, 2..6);
    assert_eq!(segment.valid_value_range(), 12..24);
    let mut moved = segment;
    moved.shift(100);
    assert_eq!(moved.valid, 102..106);
    assert_eq!(moved.line, MonotoneLine(Line::new(ATIpp::new(102, 112), ATIpp::new(106, 124))));
}
