use pixel_fsm::picture::black;
use pixel_fsm::picture::blue;
use pixel_fsm::picture::green;
use pixel_fsm::picture::red;
use pixel_fsm::picture::white;
use pixel_fsm::picture::yellow;
use pixel_fsm::picture::Color;
use pixel_fsm::picture::Picture;
use pixel_fsm::point::surrounding;
use pixel_fsm::point::Point;

fn grid(rows: &[&[Color]]) -> Picture {
    let height = rows.len() as i32;
    let width = if rows.is_empty() { 0 } else { rows[0].len() as i32 };
    let mut pixels = vec![];
    for row in rows {
        for c in row.iter() {
            pixels.push(*c);
        }
    }
    Picture { pixels, width, height }
}

#[test]
fn point_constructors() {
    assert_eq!(Point::zero(), Point { x: 0, y: 0 });
    assert_eq!(Point::from(3, -4), Point { x: 3, y: -4 });
}

#[test]
fn point_arithmetic() {
    assert_eq!(Point::from(1, 2) + Point::from(10, -20), Point::from(11, -18));
    assert_eq!(Point::from(1, 2) - Point::from(10, -20), Point::from(-9, 22));
    assert_eq!(Point::from(1, -1) * 3, Point::from(3, -3));
    assert_eq!(Point::from(7, 5) * 0, Point::zero());
}

#[test]
fn canonical_neighbor_order() {
    let offsets = surrounding();
    assert_eq!(offsets.len(), 8);
    assert_eq!(offsets[0], Point::from(1, 0));
    assert_eq!(offsets[1], Point::from(0, -1));
    assert_eq!(offsets[2], Point::from(-1, 0));
    assert_eq!(offsets[3], Point::from(0, 1));
    assert_eq!(offsets[4], Point::from(1, 1));
    assert_eq!(offsets[5], Point::from(1, -1));
    assert_eq!(offsets[6], Point::from(-1, -1));
    assert_eq!(offsets[7], Point::from(-1, 1));
}

#[test]
fn palette() {
    assert_eq!(red(), Color::from(255, 0, 0));
    assert_eq!(green(), Color::from(0, 255, 0));
    assert_eq!(blue(), Color::from(0, 0, 255));
    assert_eq!(yellow(), Color::from(255, 255, 0));
    assert_eq!(white(), Color::from(255, 255, 255));
    assert_eq!(black(), Color::from(0, 0, 0));
}

#[test]
fn colors_compare_channel_by_channel() {
    assert_eq!(Color::from(1, 2, 3), Color { r: 1, g: 2, b: 3 });
    assert_ne!(Color::from(1, 2, 3), Color::from(1, 2, 4));
    assert_ne!(Color::from(1, 2, 3), Color::from(3, 2, 1));
}

#[test]
fn loop_marker_palette() {
    assert!(black().loop_marker());
    assert!(Color::from(254, 0, 0).loop_marker());
    assert!(Color::from(17, 0, 0).loop_marker());
    assert!(!red().loop_marker());
    assert!(!Color::from(0, 1, 0).loop_marker());
    assert!(!Color::from(0, 0, 1).loop_marker());
    assert!(!white().loop_marker());
}

#[test]
fn in_bounds_is_exclusive_of_width_and_height() {
    let p = grid(&[&[red(), green(), blue()], &[white(), black(), yellow()]]);
    assert!(p.in_bounds(Point::from(0, 0)));
    assert!(p.in_bounds(Point::from(2, 1)));
    assert!(!p.in_bounds(Point::from(3, 0)));
    assert!(!p.in_bounds(Point::from(0, 2)));
    assert!(!p.in_bounds(Point::from(-1, 0)));
    assert!(!p.in_bounds(Point::from(0, -1)));
}

#[test]
fn get_reads_row_by_row() {
    let p = grid(&[&[red(), green(), blue()], &[white(), black(), yellow()]]);
    assert_eq!(p.get(0, 0), red());
    assert_eq!(p.get(2, 0), blue());
    assert_eq!(p.get(0, 1), white());
    assert_eq!(p.get(1, 1), black());
    assert_eq!(p.get_point(Point::from(2, 1)), yellow());
}

#[test]
fn set_changes_one_pixel() {
    let mut p = grid(&[&[red(), green(), blue()], &[white(), black(), yellow()]]);
    p.set(1, 1, red());
    p.set_point(Point::from(2, 0), white());
    assert_eq!(p.pixels, vec![red(), green(), white(), white(), red(), yellow()]);
    assert_eq!(p.width, 3);
    assert_eq!(p.height, 2);
}

#[test]
fn four_corners_share_a_color() {
    let p = grid(&[&[red(), green(), red()], &[blue(), blue(), blue()], &[red(), white(), red()]]);
    assert_eq!(p.four_corners(), Some(red()));
}

#[test]
fn four_corners_differ() {
    let p = grid(&[&[red(), green(), red()], &[red(), white(), blue()]]);
    assert_eq!(p.four_corners(), None);
}

#[test]
fn four_white_corners_are_no_marker() {
    let p = grid(&[&[white(), green(), white()], &[white(), red(), white()]]);
    assert_eq!(p.four_corners(), None);
}

#[test]
fn four_corners_of_a_single_pixel() {
    assert_eq!(grid(&[&[green()]]).four_corners(), Some(green()));
}

#[test]
fn find_first_goes_row_by_row() {
    let p = grid(&[&[red(), green(), white()], &[blue(), green(), blue()]]);
    assert_eq!(p.find_first(green()), Some(Point::from(1, 0)));
    assert_eq!(p.find_first(blue()), Some(Point::from(0, 1)));
    assert_eq!(p.find_first(yellow()), None);
}

#[test]
fn subpicture_is_inclusive() {
    let p = grid(&[
        &[red(), green(), blue()],
        &[white(), black(), yellow()],
        &[blue(), blue(), red()],
    ]);
    let sub = p.subpicture(1, 0, 2, 1);
    assert_eq!(sub.width, 2);
    assert_eq!(sub.height, 2);
    assert_eq!(sub.pixels, vec![green(), blue(), black(), yellow()]);
    let one = p.subpicture(2, 2, 2, 2);
    assert_eq!((one.width, one.height), (1, 1));
    assert_eq!(one.pixels, vec![red()]);
    let all = p.subpicture(0, 0, 2, 2);
    assert_eq!(all.pixels, p.pixels);
}

#[test]
fn subpicture_of_an_empty_region() {
    let p = grid(&[&[red(), green(), blue()]]);
    let sub = p.subpicture(2, 0, 1, 0);
    assert_eq!(sub.width, 0);
    assert_eq!(sub.height, 1);
    assert!(sub.pixels.is_empty());
}

#[test]
fn rotate_exchanges_columns_and_rows() {
    let p = grid(&[&[red(), green(), blue()], &[white(), black(), yellow()]]);
    let turned = p.rotate();
    assert_eq!(turned.width, 2);
    assert_eq!(turned.height, 3);
    assert_eq!(turned.pixels, vec![red(), white(), green(), black(), blue(), yellow()]);
    for i in 0..3 {
        for j in 0..2 {
            assert_eq!(turned.get(j, i), p.get(i, j));
        }
    }
}

#[test]
fn from_raw_reads_three_bytes_per_pixel() {
    let data = [255, 0, 0, 0, 255, 0, 0, 0, 255, 1, 2, 3, 4, 5, 6, 7, 8, 9];
    let p = Picture::from_raw(3, 2, &data).expect("the data fits");
    assert_eq!(p.width, 3);
    assert_eq!(p.height, 2);
    assert_eq!(
        p.pixels,
        vec![
            red(),
            green(),
            blue(),
            Color::from(1, 2, 3),
            Color::from(4, 5, 6),
            Color::from(7, 8, 9)
        ]
    );
}

#[test]
fn from_raw_ignores_bytes_beyond_the_picture() {
    let data = [9, 8, 7, 6, 5, 4, 3];
    let p = Picture::from_raw(1, 2, &data).expect("the data fits");
    assert_eq!(p.pixels, vec![Color::from(9, 8, 7), Color::from(6, 5, 4)]);
}

#[test]
fn from_raw_refuses_short_data() {
    let data = [1, 2, 3, 4, 5];
    assert!(Picture::from_raw(2, 1, &data).is_none());
}

#[test]
fn from_raw_refuses_dimensions_beyond_a_coordinate() {
    assert!(Picture::from_raw(0x8000_0000, 0, &[]).is_none());
    assert!(Picture::from_raw(0, 0x8000_0000, &[]).is_none());
    let empty = Picture::from_raw(0x7fff_ffff, 0, &[]).expect("no pixel needs no data");
    assert_eq!((empty.width, empty.height), (0x7fff_ffff, 0));
    assert!(empty.pixels.is_empty());
}

#[test]
fn well_formed_compares_storage_and_dimensions() {
    assert!(grid(&[&[red(), green()], &[blue(), white()]]).well_formed());
    assert!(Picture { pixels: vec![], width: 0, height: 0 }.well_formed());
    assert!(Picture { pixels: vec![], width: 5, height: 0 }.well_formed());
    assert!(!Picture { pixels: vec![red()], width: 2, height: 1 }.well_formed());
    assert!(!Picture { pixels: vec![red(), red(), red()], width: 2, height: 1 }.well_formed());
    assert!(!Picture { pixels: vec![], width: -1, height: 0 }.well_formed());
    assert!(!Picture { pixels: vec![red()], width: -1, height: -1 }.well_formed());
    assert!(!Picture { pixels: vec![], width: i32::MAX, height: i32::MAX }.well_formed());
}
