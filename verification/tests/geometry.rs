use ayed::panels::{compute_layout, LayoutInfo, LayoutPlace, Sides};
use ayed::position::Position;
use ayed::ui::layout::{Rect, Size};
use ayed::ui::style::{parse_u8, priority_from_str, Color};

#[test]
fn rect_edges_and_intersection() {
    let r = Rect::new(2, 3, 4, 5);
    assert_eq!(r.bottom(), 7);
    assert_eq!(r.right(), 5);
    assert!(r.contains_position(Position::new(5, 7)));
    assert!(!r.contains_position(Position::new(6, 7)));
    let i = r.intersection(Rect::new(4, 0, 10, 4)).unwrap();
    assert_eq!((i.x, i.y, i.width, i.height), (4, 3, 2, 1));
    assert!(r.intersection(Rect::new(20, 20, 1, 1)).is_none());
}

#[test]
fn rect_grown_and_cells() {
    let g = Rect::new(1, 1, 2, 2).grown(1, 0, 1, 0);
    assert_eq!((g.x, g.y, g.width, g.height), (0, 0, 3, 3));
    let cells = Rect::new(0, 0, 2, 2).cells();
    assert_eq!(
        cells,
        vec![Position::new(0, 0), Position::new(1, 0), Position::new(0, 1), Position::new(1, 1)]
    );
}

#[test]
fn colors_from_hex() {
    assert_eq!(Color::from_hex("#0a0B0c"), Ok(Color { r: 10, g: 11, b: 12 }));
    assert_eq!(Color::from_hex("0a0b0c"), Err(()));
    assert_eq!(Color::from_hex("#0a0b0g"), Err(()));
    assert_eq!(Color::from_hex("#0a0b0"), Err(()));
}

#[test]
fn u8_parsing_and_priorities() {
    assert_eq!(parse_u8("255"), Ok(255));
    assert_eq!(parse_u8("+7"), Ok(7));
    assert_eq!(parse_u8("256"), Err(()));
    assert_eq!(parse_u8(""), Err(()));
    assert_eq!(parse_u8("-1"), Err(()));
    assert_eq!(priority_from_str("priority:12"), Ok(12));
    assert_eq!(priority_from_str("priority:priority:3"), Ok(3));
    assert_eq!(priority_from_str("12"), Err(()));
    assert_eq!(priority_from_str("priority:x"), Err(()));
}

fn info(place: LayoutPlace, width: Option<i32>, height: Option<i32>) -> LayoutInfo {
    LayoutInfo { place, width, height, padding: None }
}

#[test]
fn layout_places_south_panels_at_the_bottom() {
    let infos = vec![
        info(LayoutPlace::Center, None, None),
        info(LayoutPlace::South, None, Some(1)),
        info(LayoutPlace::FloatCenter, Some(10), Some(4)),
        info(LayoutPlace::ManuallyManaged, None, None),
        info(LayoutPlace::FloatBottomRight, Some(5), Some(2)),
        LayoutInfo {
            place: LayoutPlace::South,
            width: None,
            height: Some(3),
            padding: Some(Sides { top: 1, bottom: 0, left: 0, right: 0 }),
        },
    ];
    let rects = compute_layout(Size::new(80, 24), &infos);
    let r = |i: usize| rects[i].map(|r| (r.x, r.y, r.width, r.height));
    // The first South panel takes the last row.
    assert_eq!(r(1), Some((0, 23, 80, 1)));
    // The second one the three rows above it, less its top padding.
    assert_eq!(r(5), Some((0, 21, 80, 2)));
    // The others share the 21 rows left.
    assert_eq!(r(0), Some((0, 0, 80, 21)));
    assert_eq!(r(2), Some((35, 8, 10, 4)));
    assert_eq!(r(3), None);
    assert_eq!(r(4), Some((2, 0, 5, 2)));
}
