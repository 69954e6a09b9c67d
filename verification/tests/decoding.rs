use scan_sheet::bars_found::BarsFound;
use scan_sheet::decode::{
    decode_entries, BarConflictError, LayoutResult, LayoutResultError, LayoutResultOption,
    SevenSegmentError,
};
use scan_sheet::scan_sheet_layout::{
    Bar, BarId, BarIdGenerator, HighLevelField, HighLevelKind, HighLevelPageDescription, LayoutEntry,
    PageLayout, SevenSegmentDigit, SevenSegmentDisplay,
};
use std::collections::HashSet;

const A: usize = 0;
const B: usize = 1;
const C: usize = 2;
const D: usize = 3;
const E: usize = 4;
const F: usize = 5;
const G: usize = 6;

fn checkbox_and_number() -> PageLayout {
    let description = HighLevelPageDescription {
        document_title: String::from("sheet"),
        fields: vec![
            HighLevelField { kind: HighLevelKind::Boolean, descriptor: String::from("a") },
            HighLevelField { kind: HighLevelKind::SevenSegmentDisplay(2), descriptor: String::from("n") },
        ],
    };
    description.layout()
}

fn checkbox(layout: &PageLayout) -> Bar {
    match &layout.fields()[0] {
        LayoutEntry::Boolean(bar) => *bar,
        _ => panic!("the first field is a checkbox"),
    }
}

fn number(layout: &PageLayout) -> &SevenSegmentDisplay {
    match &layout.fields()[1] {
        LayoutEntry::SevenSegmentDisplay(display) => display,
        _ => panic!("the second field is a number"),
    }
}

fn marks_on(display: &SevenSegmentDisplay, digit: usize, segments: &[usize]) -> Vec<(u128, u128)> {
    segments.iter().map(|&k| display.digits[digit].bars[k].mean_position()).collect()
}

fn read_alone(digit: &SevenSegmentDigit, segments: &[usize]) -> Result<u64, SevenSegmentError> {
    let bars = segments.iter().map(|&k| digit.bars[k].mean_position()).collect();
    digit.get_digit(&BarsFound { bars }, &mut HashSet::new())
}

#[test]
fn a_blank_sheet_reads_false_and_empty() {
    let layout = checkbox_and_number();
    let found = BarsFound { bars: vec![] };
    assert_eq!(checkbox(&layout).is_set(&found, &mut HashSet::new()), Ok(false));
    assert_eq!(number(&layout).as_number(&found, &mut HashSet::new()), Err(SevenSegmentError::Empty));
    assert_eq!(
        layout.interpret_targets(&found),
        Err(LayoutResultError::SevenSegmentError(SevenSegmentError::Empty))
    );
}

#[test]
fn a_checked_box_reads_true() {
    let layout = checkbox_and_number();
    let found = BarsFound { bars: vec![checkbox(&layout).mean_position()] };
    let mut names = HashSet::new();
    assert_eq!(checkbox(&layout).is_set(&found, &mut names), Ok(true));
    assert!(names.contains(&0) && names.len() == 1);
    assert_eq!(number(&layout).as_number(&found, &mut names), Err(SevenSegmentError::Empty));
    assert_eq!(
        layout.interpret_targets(&found),
        Err(LayoutResultError::SevenSegmentError(SevenSegmentError::Empty))
    );
}

#[test]
fn a_five_in_the_right_digit_reads_five() {
    let layout = checkbox_and_number();
    let found = BarsFound { bars: marks_on(number(&layout), 1, &[A, C, D, F, G]) };
    assert_eq!(number(&layout).as_number(&found, &mut HashSet::new()), Ok(5));
    assert_eq!(
        layout.interpret_targets(&found),
        Ok(LayoutResult { result: vec![LayoutResultOption::Boolean(false), LayoutResultOption::Number(5)] })
    );
}

#[test]
fn a_gap_on_the_right_of_a_digit_is_an_error() {
    let layout = checkbox_and_number();
    let found = BarsFound { bars: marks_on(number(&layout), 0, &[A, B, D, E, G]) };
    assert_eq!(number(&layout).as_number(&found, &mut HashSet::new()), Err(SevenSegmentError::Empty));
    assert_eq!(
        layout.interpret_targets(&found),
        Err(LayoutResultError::SevenSegmentError(SevenSegmentError::Empty))
    );
}

#[test]
fn segments_that_show_no_digit_are_invalid() {
    let layout = checkbox_and_number();
    for digit in 0..2 {
        let found = BarsFound { bars: marks_on(number(&layout), digit, &[A, G]) };
        assert_eq!(
            number(&layout).as_number(&found, &mut HashSet::new()),
            Err(SevenSegmentError::Invalid(0b1000001))
        );
        assert_eq!(
            layout.interpret_targets(&found),
            Err(LayoutResultError::SevenSegmentError(SevenSegmentError::Invalid(0b1000001)))
        );
    }
}

#[test]
fn an_invalid_digit_left_of_an_empty_one_is_reported_as_invalid() {
    let layout = checkbox_and_number();
    let found = BarsFound { bars: marks_on(number(&layout), 0, &[B]) };
    assert_eq!(
        number(&layout).as_number(&found, &mut HashSet::new()),
        Err(SevenSegmentError::Invalid(0b0100000))
    );
}

#[test]
fn a_mark_at_the_threshold_does_not_set_a_bar() {
    let bar = Bar { x: 1750, y: 2310, is_horizontal: true, id: BarId { inner: 0 } };
    assert_eq!(bar.mean_position(), (1855, 2345));
    let set = |x: u128, y: u128| bar.is_set(&BarsFound { bars: vec![(x, y)] }, &mut HashSet::new());
    assert_eq!(set(1855, 2345), Ok(true));
    assert_eq!(set(1855 + 69, 2345), Ok(true));
    assert_eq!(set(1855 + 70, 2345), Ok(false));
    assert_eq!(set(1855 - 70, 2345), Ok(false));
    assert_eq!(set(1855, 2345 - 69), Ok(true));
    assert_eq!(set(1855, 2345 + 70), Ok(false));
    // 42 * 42 + 56 * 56 = 70 * 70
    assert_eq!(set(1855 + 42, 2345 + 56), Ok(false));
    assert_eq!(set(1855 - 42, 2345 - 56), Ok(false));
    assert_eq!(set(1855 + 41, 2345 + 56), Ok(true));
    assert_eq!(set(1855 - 42, 2345 + 55), Ok(true));
    assert_eq!(set(0, 0), Ok(false));
    assert_eq!(set(u128::MAX, u128::MAX), Ok(false));
}

#[test]
fn a_standing_bar_has_its_center_lower() {
    let bar = Bar { x: 1000, y: 2000, is_horizontal: false, id: BarId { inner: 0 } };
    assert_eq!(bar.mean_position(), (1035, 2105));
    assert_eq!(bar.is_set(&BarsFound { bars: vec![(1035, 2105)] }, &mut HashSet::new()), Ok(true));
    assert_eq!(bar.is_set(&BarsFound { bars: vec![(1105, 2035)] }, &mut HashSet::new()), Ok(false));
}

#[test]
fn any_of_several_marks_sets_a_bar() {
    let bar = Bar { x: 1750, y: 2310, is_horizontal: true, id: BarId { inner: 7 } };
    let found = BarsFound { bars: vec![(0, 0), (1860, 2340), (1850, 2350), (9, 9)] };
    let mut names = HashSet::new();
    assert_eq!(bar.is_set(&found, &mut names), Ok(true));
    assert_eq!(names.len(), 1);
    assert!(names.contains(&7));
}

#[test]
fn a_bar_that_is_set_twice_is_a_conflict() {
    let bar = Bar { x: 1750, y: 2310, is_horizontal: true, id: BarId { inner: 3 } };
    let found = BarsFound { bars: vec![(1855, 2345)] };
    let mut names = HashSet::new();
    assert_eq!(bar.is_set(&found, &mut names), Ok(true));
    assert_eq!(bar.is_set(&found, &mut names), Err(BarConflictError));
    assert_eq!(bar.is_set(&BarsFound { bars: vec![] }, &mut names), Ok(false));
    let fields = vec![LayoutEntry::Boolean(bar), LayoutEntry::Boolean(bar)];
    assert_eq!(decode_entries(&fields, &found), Err(LayoutResultError::BarConflictError));
    assert_eq!(
        decode_entries(&fields, &BarsFound { bars: vec![] }),
        Ok(LayoutResult { result: vec![LayoutResultOption::Boolean(false), LayoutResultOption::Boolean(false)] })
    );
}

#[test]
fn a_conflict_in_a_digit_is_a_bar_conflict() {
    let mut generator = BarIdGenerator::new();
    let digit = SevenSegmentDigit::new(0, 0, &mut generator);
    let found = BarsFound { bars: vec![digit.bars[2].mean_position()] };
    let mut names = HashSet::new();
    names.insert(2);
    assert_eq!(digit.get_digit(&found, &mut names), Err(SevenSegmentError::BarConflict));
    let display = SevenSegmentDisplay { digits: vec![digit] };
    assert_eq!(display.as_number(&found, &mut names), Err(SevenSegmentError::BarConflict));
    let fields = vec![
        LayoutEntry::Boolean(Bar { x: 322, y: 413, is_horizontal: false, id: BarId { inner: 2 } }),
        LayoutEntry::SevenSegmentDisplay(display),
    ];
    assert_eq!(
        decode_entries(&fields, &found),
        Err(LayoutResultError::SevenSegmentError(SevenSegmentError::BarConflict))
    );
}

#[test]
fn errors_are_made_from_errors() {
    assert_eq!(SevenSegmentError::from(BarConflictError), SevenSegmentError::BarConflict);
    assert_eq!(LayoutResultError::from(BarConflictError), LayoutResultError::BarConflictError);
    assert_eq!(
        LayoutResultError::from(SevenSegmentError::Invalid(3)),
        LayoutResultError::SevenSegmentError(SevenSegmentError::Invalid(3))
    );
}

#[test]
fn each_digit_has_its_segments() {
    let mut generator = BarIdGenerator::new();
    let digit = SevenSegmentDigit::new(1000, 1000, &mut generator);
    assert_eq!(read_alone(&digit, &[]), Err(SevenSegmentError::Empty));
    assert_eq!(read_alone(&digit, &[A, B, C, D, E, F]), Ok(0));
    assert_eq!(read_alone(&digit, &[B, C]), Ok(1));
    assert_eq!(read_alone(&digit, &[A, B, D, E, G]), Ok(2));
    assert_eq!(read_alone(&digit, &[A, B, C, D, G]), Ok(3));
    assert_eq!(read_alone(&digit, &[B, C, F, G]), Ok(4));
    assert_eq!(read_alone(&digit, &[A, C, D, F, G]), Ok(5));
    assert_eq!(read_alone(&digit, &[A, C, D, E, F, G]), Ok(6));
    assert_eq!(read_alone(&digit, &[C, D, E, F, G]), Ok(6));
    assert_eq!(read_alone(&digit, &[A, B, C]), Ok(7));
    assert_eq!(read_alone(&digit, &[A, B, C, D, E, F, G]), Ok(8));
    assert_eq!(read_alone(&digit, &[A, B, C, D, F, G]), Ok(9));
    assert_eq!(read_alone(&digit, &[A, B, C, F, G]), Ok(9));
    assert_eq!(read_alone(&digit, &[G]), Err(SevenSegmentError::Invalid(0b0000001)));
    assert_eq!(read_alone(&digit, &[A]), Err(SevenSegmentError::Invalid(0b1000000)));
    assert_eq!(read_alone(&digit, &[B, C, D, E, F, G]), Err(SevenSegmentError::Invalid(0b0111111)));
    // the order of the marks does not matter
    assert_eq!(read_alone(&digit, &[G, F, D, C, A]), Ok(5));
}

#[test]
fn the_segments_found_set_are_remembered() {
    let mut generator = BarIdGenerator::new();
    generator.next();
    let digit = SevenSegmentDigit::new(1000, 1000, &mut generator);
    let found = BarsFound { bars: vec![digit.bars[B].mean_position(), digit.bars[C].mean_position()] };
    let mut names = HashSet::new();
    assert_eq!(digit.get_digit(&found, &mut names), Ok(1));
    assert_eq!(names.len(), 2);
    assert!(names.contains(&2) && names.contains(&3));
}

#[test]
fn digits_count_from_the_right() {
    let layout = checkbox_and_number();
    let display = number(&layout);
    let mut bars = marks_on(display, 0, &[B, C, F, G]);
    bars.extend(marks_on(display, 1, &[A, B, D, E, G]));
    let found = BarsFound { bars };
    assert_eq!(display.as_number(&found, &mut HashSet::new()), Ok(42));
    assert_eq!(
        layout.interpret_targets(&found),
        Ok(LayoutResult { result: vec![LayoutResultOption::Boolean(false), LayoutResultOption::Number(42)] })
    );
}

#[test]
fn empty_digits_may_stand_on_the_left_only() {
    let mut generator = BarIdGenerator::new();
    let display = SevenSegmentDisplay::new(0, 0, 4, &mut generator);
    let two = [A, B, D, E, G];
    let three = [A, B, C, D, G];
    let mut bars = marks_on(&display, 2, &two);
    bars.extend(marks_on(&display, 3, &three));
    assert_eq!(display.as_number(&BarsFound { bars }, &mut HashSet::new()), Ok(23));
    let mut bars = marks_on(&display, 0, &[A, C, D, F, G]);
    bars.extend(marks_on(&display, 2, &two));
    bars.extend(marks_on(&display, 3, &three));
    assert_eq!(
        display.as_number(&BarsFound { bars }, &mut HashSet::new()),
        Err(SevenSegmentError::Empty)
    );
    let mut bars = marks_on(&display, 0, &[B, C]);
    bars.extend(marks_on(&display, 1, &[A, B, C, D, E, F]));
    bars.extend(marks_on(&display, 2, &[A, B, C, D, E, F]));
    bars.extend(marks_on(&display, 3, &[A, B, C, D, E, F]));
    assert_eq!(display.as_number(&BarsFound { bars }, &mut HashSet::new()), Ok(1000));
}

#[test]
fn a_display_without_digits_is_empty() {
    let display = SevenSegmentDisplay { digits: vec![] };
    assert_eq!(
        display.as_number(&BarsFound { bars: vec![(5, 5)] }, &mut HashSet::new()),
        Err(SevenSegmentError::Empty)
    );
}

#[test]
fn nineteen_nines_fit() {
    let mut generator = BarIdGenerator::new();
    let display = SevenSegmentDisplay::new(0, 0, 19, &mut generator);
    let mut bars = Vec::new();
    for d in 0..19 {
        bars.extend(marks_on(&display, d, &[A, B, C, D, F, G]));
    }
    assert_eq!(
        display.as_number(&BarsFound { bars }, &mut HashSet::new()),
        Ok(9_999_999_999_999_999_999)
    );
    let last = marks_on(&display, 0, &[B, C]);
    assert_eq!(
        display.as_number(&BarsFound { bars: last }, &mut HashSet::new()),
        Err(SevenSegmentError::Empty)
    );
    let first = marks_on(&display, 18, &[B, C]);
    assert_eq!(display.as_number(&BarsFound { bars: first }, &mut HashSet::new()), Ok(1));
}

#[test]
fn reading_twice_reads_the_same() {
    let layout = checkbox_and_number();
    let mut bars = marks_on(number(&layout), 1, &[A, B, C]);
    bars.push(checkbox(&layout).mean_position());
    let found = BarsFound { bars };
    let first = layout.interpret_targets(&found);
    let second = layout.interpret_targets(&found);
    assert_eq!(first, second);
    assert_eq!(
        first,
        Ok(LayoutResult { result: vec![LayoutResultOption::Boolean(true), LayoutResultOption::Number(7)] })
    );
}

#[test]
fn the_first_error_ends_the_reading() {
    let description = HighLevelPageDescription {
        document_title: String::from("sheet"),
        fields: vec![
            HighLevelField { kind: HighLevelKind::SevenSegmentDisplay(1), descriptor: String::from("m") },
            HighLevelField { kind: HighLevelKind::SevenSegmentDisplay(1), descriptor: String::from("n") },
        ],
    };
    let layout = description.layout();
    let second = match &layout.fields()[1] {
        LayoutEntry::SevenSegmentDisplay(display) => display,
        _ => panic!("the second field is a number"),
    };
    let found = BarsFound { bars: marks_on(second, 0, &[G]) };
    assert_eq!(
        layout.interpret_targets(&found),
        Err(LayoutResultError::SevenSegmentError(SevenSegmentError::Empty))
    );
}

#[test]
fn one_mark_may_set_two_bars() {
    let near = Bar { x: 1000, y: 1000, is_horizontal: true, id: BarId { inner: 0 } };
    let nearby = Bar { x: 1010, y: 1010, is_horizontal: true, id: BarId { inner: 1 } };
    let fields = vec![LayoutEntry::Boolean(near), LayoutEntry::Boolean(nearby)];
    let found = BarsFound { bars: vec![(1110, 1040)] };
    assert_eq!(
        decode_entries(&fields, &found),
        Ok(LayoutResult { result: vec![LayoutResultOption::Boolean(true), LayoutResultOption::Boolean(true)] })
    );
}
