use freecell_solver::ocr::reading_order;
use freecell_solver::screen::{crop, Point, PointerEvent, Region, Selection};

fn at(x: i32, y: i32) -> Point {
    Point { x, y }
}

#[test]
fn reading_order_goes_top_to_bottom_then_left_to_right() {
    let places = vec![at(300, 20), at(10, 80), at(100, 20), at(10, 20), at(200, 80), at(5, 300)];
    assert_eq!(reading_order(&places), vec![3, 2, 0, 1, 4, 5]);
}

#[test]
fn reading_order_keeps_points_at_one_place_in_order() {
    let places = vec![at(7, 7), at(1, 1), at(7, 7), at(1, 1), at(7, 7)];
    assert_eq!(reading_order(&places), vec![1, 3, 0, 2, 4]);
}

#[test]
fn reading_order_of_nothing_and_of_one() {
    assert_eq!(reading_order(&vec![]), Vec::<usize>::new());
    assert_eq!(reading_order(&vec![at(-5, 9)]), vec![0]);
}

#[test]
fn reading_order_handles_the_ends_of_the_range() {
    let places = vec![
        at(i32::MAX, i32::MAX),
        at(i32::MIN, i32::MAX),
        at(i32::MAX, i32::MIN),
        at(i32::MIN, i32::MIN),
        at(0, 0),
    ];
    assert_eq!(reading_order(&places), vec![3, 2, 4, 1, 0]);
}

#[test]
fn reading_order_agrees_with_a_stable_sort() {
    let mut x: u64 = 99;
    let mut places = Vec::new();
    for _ in 0..300 {
        x = x.wrapping_mul(6364136223846793005).wrapping_add(1442695040888963407);
        places.push(at(((x >> 40) % 13) as i32 - 6, ((x >> 20) % 7) as i32 - 3));
    }
    let mut expected: Vec<usize> = (0..places.len()).collect();
    expected.sort_by_key(|&i| (places[i].y, places[i].x));
    assert_eq!(reading_order(&places), expected);
}

#[test]
fn region_spans_two_corners_in_either_order() {
    let expected = Region { x_min: 10, y_min: 20, x_max: 50, y_max: 90 };
    assert_eq!(Region::spanning(at(10, 20), at(50, 90)), expected);
    assert_eq!(Region::spanning(at(50, 90), at(10, 20)), expected);
    assert_eq!(Region::spanning(at(50, 20), at(10, 90)), expected);
    assert_eq!(Region::spanning(at(10, 90), at(50, 20)), expected);
    assert_eq!(expected.width(), 40);
    assert_eq!(expected.height(), 70);
}

#[test]
fn region_size_covers_the_whole_range() {
    let all = Region::spanning(at(i32::MIN, i32::MAX), at(i32::MAX, i32::MIN));
    assert_eq!(all.width(), u32::MAX);
    assert_eq!(all.height(), u32::MAX);
    let none = Region { x_min: 5, y_min: 5, x_max: 5, y_max: 2 };
    assert_eq!(none.width(), 0);
    assert_eq!(none.height(), 0);
}

/// A frame of `w` by `h` pixels whose bytes tell where they are.
fn frame(w: usize, h: usize) -> Vec<u8> {
    let mut bytes = Vec::new();
    for y in 0..h {
        for x in 0..w {
            bytes.extend([x as u8, y as u8, (10 * y + x) as u8, 255]);
        }
    }
    bytes
}

#[test]
fn crop_cuts_the_pixels_of_the_region() {
    let bytes = frame(5, 4);
    let region = Region { x_min: 1, y_min: 2, x_max: 4, y_max: 4 };
    let pixels = crop(&bytes, 20, &region);
    assert_eq!(
        pixels,
        vec![
            1, 2, 21, 255, 2, 2, 22, 255, 3, 2, 23, 255, //
            1, 3, 31, 255, 2, 3, 32, 255, 3, 3, 33, 255,
        ]
    );
}

#[test]
fn crop_of_the_whole_frame_is_the_frame() {
    let bytes = frame(5, 4);
    let region = Region { x_min: 0, y_min: 0, x_max: 5, y_max: 4 };
    assert_eq!(crop(&bytes, 20, &region), bytes);
}

#[test]
fn crop_leaves_pixels_outside_the_frame_blank() {
    let bytes = frame(3, 2);
    // one row above the frame, one below; the column left of it is outside
    let region = Region { x_min: -1, y_min: -1, x_max: 2, y_max: 3 };
    let pixels = crop(&bytes, 12, &region);
    assert_eq!(
        pixels,
        vec![
            0, 0, 0, 0, 0, 0, 0, 0, 0, 0, 0, 0, //
            0, 0, 0, 0, 0, 0, 0, 255, 1, 0, 1, 255, //
            0, 0, 0, 0, 0, 1, 10, 255, 1, 1, 11, 255, //
            0, 0, 0, 0, 0, 0, 0, 0, 0, 0, 0, 0,
        ]
    );
}

#[test]
fn crop_stops_at_the_last_whole_pixel() {
    // seven bytes: one whole pixel and a torn one
    let bytes = vec![1, 2, 3, 4, 5, 6, 7];
    let region = Region { x_min: 0, y_min: 0, x_max: 2, y_max: 1 };
    assert_eq!(crop(&bytes, 8, &region), vec![1, 2, 3, 4, 0, 0, 0, 0]);
    assert_eq!(crop(&[], 8, &region), vec![0; 8]);
}

#[test]
fn crop_of_an_empty_region_is_empty() {
    let bytes = frame(3, 2);
    let region = Region { x_min: 2, y_min: 0, x_max: 2, y_max: 2 };
    assert_eq!(crop(&bytes, 12, &region), Vec::<u8>::new());
    let backwards = Region { x_min: 2, y_min: 1, x_max: 0, y_max: 0 };
    assert_eq!(crop(&bytes, 12, &backwards), Vec::<u8>::new());
}

#[test]
fn second_click_chooses_the_region() {
    let mut selection = Selection::new();
    assert_eq!(selection.position, at(0, 0));
    assert_eq!(selection.on_event(PointerEvent::Moved { x: 40, y: 70 }), None);
    assert_eq!(selection.on_event(PointerEvent::Other), None);
    assert_eq!(selection.on_event(PointerEvent::LeftPressed), None);
    assert_eq!(selection.first, Some(at(40, 70)));
    assert_eq!(selection.second, None);
    assert_eq!(selection.on_event(PointerEvent::Moved { x: 15, y: 200 }), None);
    assert_eq!(selection.on_event(PointerEvent::Moved { x: 10, y: 90 }), None);
    assert_eq!(
        selection.on_event(PointerEvent::LeftPressed),
        Some(Region { x_min: 10, y_min: 70, x_max: 40, y_max: 90 })
    );
    assert_eq!(selection.second, Some(at(10, 90)));
}

#[test]
fn clicks_after_the_second_change_nothing() {
    let mut selection = Selection::new();
    selection.on_event(PointerEvent::Moved { x: 1, y: 2 });
    selection.on_event(PointerEvent::LeftPressed);
    selection.on_event(PointerEvent::Moved { x: 3, y: 4 });
    assert!(selection.on_event(PointerEvent::LeftPressed).is_some());
    selection.on_event(PointerEvent::Moved { x: 5, y: 6 });
    let before = selection;
    assert_eq!(selection.on_event(PointerEvent::LeftPressed), None);
    assert_eq!(selection, before);
    assert_eq!(selection.first, Some(at(1, 2)));
    assert_eq!(selection.second, Some(at(3, 4)));
    assert_eq!(selection.position, at(5, 6));
}

#[test]
fn two_clicks_at_one_place_choose_an_empty_region() {
    let mut selection = Selection::new();
    assert_eq!(selection.on_event(PointerEvent::LeftPressed), None);
    let region = selection.on_event(PointerEvent::LeftPressed).unwrap();
    assert_eq!(region, Region { x_min: 0, y_min: 0, x_max: 0, y_max: 0 });
    assert_eq!(region.width(), 0);
}
