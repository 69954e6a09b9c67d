use scan_sheet::image::Color;
use scan_sheet::make::dummy;
use scan_sheet::scan_sheet_elements::{template_color, Element, ElementKind, Shape};
use scan_sheet::scan_sheet_layout::{
    Bar, BarId, BarIdGenerator, HighLevelField, HighLevelKind, HighLevelPageDescription, LayoutEntry,
    SevenSegmentDigit, SevenSegmentDisplay,
};

fn page(fields: Vec<(&str, HighLevelKind)>) -> HighLevelPageDescription {
    HighLevelPageDescription {
        document_title: String::from("sheet"),
        fields: fields
            .into_iter()
            .map(|(descriptor, kind)| HighLevelField { kind, descriptor: String::from(descriptor) })
            .collect(),
    }
}

fn all_bars(description: &HighLevelPageDescription) -> Vec<Bar> {
    let layout = description.layout();
    let mut bars = Vec::new();
    for entry in layout.fields().iter() {
        match entry {
            LayoutEntry::Boolean(bar) => bars.push(*bar),
            LayoutEntry::SevenSegmentDisplay(display) => {
                for digit in display.digits.iter() {
                    for bar in digit.bars.iter() {
                        bars.push(*bar);
                    }
                }
            }
        }
    }
    bars
}

#[test]
fn the_sample_page_has_four_fields() {
    let description = dummy();
    assert_eq!(description.document_title, "test1");
    assert_eq!(description.fields.len(), 4);
    assert_eq!(description.fields[0].kind, HighLevelKind::Boolean);
    assert_eq!(description.fields[0].descriptor, "boom");
    assert_eq!(description.fields[1].kind, HighLevelKind::Boolean);
    assert_eq!(description.fields[1].descriptor, "another");
    assert_eq!(description.fields[2].kind, HighLevelKind::SevenSegmentDisplay(2));
    assert_eq!(description.fields[2].descriptor, "another one");
    assert_eq!(description.fields[3].kind, HighLevelKind::Boolean);
    assert_eq!(description.fields[3].descriptor, "hardcore");
    assert!(description.is_well_formed());
}

#[test]
fn a_display_of_twenty_digits_is_too_long() {
    assert!(page(vec![("n", HighLevelKind::SevenSegmentDisplay(19))]).is_well_formed());
    assert!(!page(vec![("a", HighLevelKind::Boolean), ("n", HighLevelKind::SevenSegmentDisplay(20))])
        .is_well_formed());
}

#[test]
fn bar_ids_are_handed_out_from_zero() {
    let mut generator = BarIdGenerator::new();
    assert_eq!(generator.next(), BarId { inner: 0 });
    assert_eq!(generator.next(), BarId { inner: 1 });
    let bar = Bar::new(3, 4, false, &mut generator);
    assert_eq!(bar, Bar { x: 3, y: 4, is_horizontal: false, id: BarId { inner: 2 } });
}

#[test]
fn bar_ids_are_unique_and_dense() {
    let bars = all_bars(&dummy());
    assert_eq!(bars.len(), 1 + 1 + 14 + 1);
    for (i, bar) in bars.iter().enumerate() {
        assert_eq!(bar.id, BarId { inner: i as u128 });
    }
    let none = all_bars(&page(vec![]));
    assert_eq!(none.len(), 0);
    let zero_digits = all_bars(&page(vec![("n", HighLevelKind::SevenSegmentDisplay(0)), ("b", HighLevelKind::Boolean)]));
    assert_eq!(zero_digits.len(), 1);
    assert_eq!(zero_digits[0].id, BarId { inner: 0 });
}

#[test]
fn a_checkbox_stands_behind_its_label() {
    let layout = page(vec![("a", HighLevelKind::Boolean), ("boom", HighLevelKind::Boolean)]).layout();
    // 0.2 + 0.6 * 0.05 * 1 + 0.02 = 0.25 of 7000; 0.3 + 0.03 = 0.33 of 7000
    match &layout.fields()[0] {
        LayoutEntry::Boolean(bar) => {
            assert_eq!(*bar, Bar { x: 1750, y: 2310, is_horizontal: true, id: BarId { inner: 0 } });
            assert_eq!(bar.mean_position(), (1855, 2345));
        }
        _ => panic!("a checkbox was asked for"),
    }
    // 0.2 + 0.6 * 0.05 * 4 + 0.02 = 0.34 of 7000; 0.4 + 0.03 = 0.43 of 7000
    match &layout.fields()[1] {
        LayoutEntry::Boolean(bar) => {
            assert_eq!(*bar, Bar { x: 2380, y: 3010, is_horizontal: true, id: BarId { inner: 1 } });
        }
        _ => panic!("a checkbox was asked for"),
    }
}

#[test]
fn the_width_of_a_label_counts_its_bytes() {
    let layout = page(vec![("\u{e9}", HighLevelKind::Boolean)]).layout();
    match &layout.fields()[0] {
        LayoutEntry::Boolean(bar) => assert_eq!(bar.x, 1400 + 2 * 210 + 140),
        _ => panic!("a checkbox was asked for"),
    }
}

#[test]
fn the_segments_of_a_digit_stand_in_their_places() {
    let mut generator = BarIdGenerator::new();
    let digit = SevenSegmentDigit::new(1000, 2000, &mut generator);
    let expected = vec![
        (1091, 2000, true),
        (1322, 2091, false),
        (1322, 2413, false),
        (1091, 2644, true),
        (1000, 2413, false),
        (1000, 2091, false),
        (1091, 2322, true),
    ];
    assert_eq!(digit.bars.len(), 7);
    for (k, bar) in digit.bars.iter().enumerate() {
        assert_eq!((bar.x, bar.y, bar.is_horizontal), expected[k]);
        assert_eq!(bar.id, BarId { inner: k as u128 });
    }
    assert_eq!(digit.bars[0].mean_position(), (1196, 2035));
    assert_eq!(digit.bars[1].mean_position(), (1357, 2196));
}

#[test]
fn the_digits_of_a_display_stand_side_by_side() {
    let mut generator = BarIdGenerator::new();
    generator.next();
    let display = SevenSegmentDisplay::new(1750, 2800, 3, &mut generator);
    assert_eq!(display.digits.len(), 3);
    for (d, digit) in display.digits.iter().enumerate() {
        // 2 * 0.01 + 0.03 + 0.03 = 0.08 of 7000 from digit to digit
        assert_eq!(digit.bars[5].x, 1750 + 560 * d as u128);
        assert_eq!(digit.bars[5].y, 2800 + 91);
        assert_eq!(digit.bars[0].id, BarId { inner: 1 + 7 * d as u128 });
        assert_eq!(digit.bars[6].id, BarId { inner: 7 + 7 * d as u128 });
    }
    assert_eq!(generator.next(), BarId { inner: 22 });
}

#[test]
fn a_sheet_is_drawn_title_first() {
    let layout = page(vec![("a", HighLevelKind::Boolean), ("n", HighLevelKind::SevenSegmentDisplay(2))]).layout();
    assert_eq!(layout.title(), "sheet");
    let sheet = layout.to_elements();
    let elements = &sheet.elements;
    assert_eq!(elements.len(), 1 + 4 + 2 + 1 + 14);
    assert_eq!(elements[0], Element { x: 2100, y: 350, kind: ElementKind::Title(String::from("sheet")) });
    // 1 - 2 / 14 - 0.05 of 7000 is 5650
    assert_eq!(elements[1], Element { x: 350, y: 350, kind: ElementKind::Aligner });
    assert_eq!(elements[2], Element { x: 5650, y: 350, kind: ElementKind::Aligner });
    assert_eq!(elements[3], Element { x: 5650, y: 5650, kind: ElementKind::Aligner });
    assert_eq!(elements[4], Element { x: 350, y: 5650, kind: ElementKind::Aligner });
    assert_eq!(
        elements[5],
        Element { x: 1400, y: 2100, kind: ElementKind::FieldDescriptor(String::from("a")) }
    );
    assert_eq!(
        elements[6],
        Element { x: 1400, y: 2800, kind: ElementKind::FieldDescriptor(String::from("n")) }
    );
    assert_eq!(elements[7], Element { x: 1750, y: 2310, kind: ElementKind::HorizontalBar });
    assert_eq!(elements[8], Element { x: 1841, y: 2800, kind: ElementKind::HorizontalBar });
    assert_eq!(elements[9], Element { x: 2072, y: 2891, kind: ElementKind::VerticalBar });
    assert_eq!(elements[15], Element { x: 1750 + 560 + 91, y: 2800, kind: ElementKind::HorizontalBar });
    assert_eq!(elements[21], Element { x: 1750 + 560 + 91, y: 2800 + 322, kind: ElementKind::HorizontalBar });
}

#[test]
fn the_elements_of_a_display_are_its_bars() {
    let mut generator = BarIdGenerator::new();
    let display = SevenSegmentDisplay::new(0, 0, 2, &mut generator);
    let elements = display.elements_iter();
    assert_eq!(elements.len(), 14);
    for d in 0..2 {
        for k in 0..7 {
            let bar = display.digits[d].bars[k];
            assert_eq!(elements[7 * d + k], bar.to_element());
            let kind = if bar.is_horizontal { ElementKind::HorizontalBar } else { ElementKind::VerticalBar };
            assert_eq!(elements[7 * d + k], Element { x: bar.x, y: bar.y, kind });
        }
    }
}

#[test]
fn elements_have_their_shapes() {
    let blue = Color::from_rgb(0xCF, 0xE2, 0xF3);
    assert_eq!(template_color(), blue);
    assert!(!template_color().is_darker_than(110));
    assert_eq!(
        Element { x: 350, y: 5650, kind: ElementKind::Aligner }.shape(),
        Shape::Ring {
            cx: 850,
            cy: 6150,
            outer: 500,
            inner: 350,
            fill: Color::from_rgb(0, 0, 0),
            hole: Color::from_rgb(255, 255, 255)
        }
    );
    assert_eq!(
        Element { x: 10, y: 20, kind: ElementKind::HorizontalBar }.shape(),
        Shape::Rectangle { x: 10, y: 20, width: 210, height: 70, fill: blue }
    );
    assert_eq!(
        Element { x: 10, y: 20, kind: ElementKind::VerticalBar }.shape(),
        Shape::Rectangle { x: 10, y: 20, width: 70, height: 210, fill: blue }
    );
    assert_eq!(
        Element { x: 1400, y: 2100, kind: ElementKind::FieldDescriptor(String::from("a")) }.shape(),
        Shape::Text { x: 1400, baseline: 2450, font_size: 350, text: String::from("a"), fill: blue }
    );
    assert_eq!(
        Element { x: 2100, y: 350, kind: ElementKind::Title(String::from("t")) }.shape(),
        Shape::Text { x: 2100, baseline: 1260, font_size: 910, text: String::from("t"), fill: blue }
    );
    assert!(ElementKind::Title(String::from("t")).is_title());
    assert!(!ElementKind::FieldDescriptor(String::from("t")).is_title());
    assert!(!ElementKind::Aligner.is_title());
}
