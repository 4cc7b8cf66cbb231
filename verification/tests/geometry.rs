use gdsfill::area::check_polygons;
use gdsfill::area::total_area;
use gdsfill::boundary::poly_to_boundary;
use gdsfill::boundary::rect_to_boundary;
use gdsfill::contain::is_rect;
use gdsfill::dedup::remove_repeated;
use gdsfill::geom::to_dbu;
use gdsfill::geom::Point;
use gdsfill::geom::Polygon;
use gdsfill::geom::Rect;
use gdsfill::num::floor_div;
use gdsfill::num::floor_div_wide;
use gdsfill::num::isqrt_of;
use gdsfill::num::scale_component;
use gdsfill::order::sort_indices;

fn rect(x0: i64, y0: i64, x1: i64, y1: i64) -> Rect {
    Rect { x0, y0, x1, y1 }
}

fn poly(points: &[(i64, i64)]) -> Polygon {
    Polygon::new(points.iter().map(|p| Point { x: p.0, y: p.1 }).collect(), Vec::new())
}

fn square(x0: i64, y0: i64, x1: i64, y1: i64) -> Polygon {
    rect(x0, y0, x1, y1).to_polygon()
}

fn twice(polys: &[Polygon]) -> i128 {
    total_area(polys).unwrap()
}

#[test]
fn covered_length_counts_overlaps_once() {
    assert_eq!(gdsfill::covered_x_length(&[(0, 5), (3, 8), (10, 12)]), 10);
    assert_eq!(gdsfill::covered_x_length(&[(0, 10), (2, 3)]), 10);
    assert_eq!(gdsfill::covered_x_length(&[]), 0);
    assert_eq!(gdsfill::covered_x_length(&[(-4, -4)]), 0);
}

#[test]
fn rect_union_area_counts_overlaps_once() {
    assert_eq!(gdsfill::rect_union_area(&[(0, 0, 10, 10), (5, 5, 15, 15)]), 175);
    assert_eq!(gdsfill::rect_union_area(&[(0, 0, 10, 10), (0, 0, 10, 10)]), 100);
    assert_eq!(gdsfill::rect_union_area(&[(0, 0, 10, 10), (20, 0, 30, 10), (0, 0, 30, 1)]), 210);
    assert_eq!(gdsfill::rect_union_area(&[]), 0);
    assert_eq!(gdsfill::rect_union_area(&[(5, 0, 5, 10)]), 0);
}

#[test]
fn coordinates_round_halves_away_from_zero() {
    assert_eq!(to_dbu(0), 0);
    assert_eq!(to_dbu(1), 1);
    assert_eq!(to_dbu(-1), -1);
    assert_eq!(to_dbu(2), 1);
    assert_eq!(to_dbu(3), 2);
    assert_eq!(to_dbu(-3), -2);
}

#[test]
fn integer_helpers() {
    assert_eq!(floor_div(7, 2), 3);
    assert_eq!(floor_div(-7, 2), -4);
    assert_eq!(floor_div_wide(-8, 2), -4);
    assert_eq!(isqrt_of(0), 0);
    assert_eq!(isqrt_of(24), 4);
    assert_eq!(isqrt_of(25), 5);
    assert_eq!(scale_component(3, 10, 25), 6);
    assert_eq!(scale_component(-4, 10, 25), -8);
    assert_eq!(scale_component(1, 10, 2), 7);
}

#[test]
fn indices_sort_stably() {
    assert_eq!(sort_indices(&vec![3, 1, 2, 1]), vec![1, 3, 2, 0]);
    assert_eq!(sort_indices(&Vec::new()), Vec::<usize>::new());
}

#[test]
fn offset_grows_rectangle_on_all_sides() {
    let grown = gdsfill::offset_polygon(&square(0, 0, 10, 20), 3);
    assert_eq!(grown.bounding_rect(), Some(rect(-3, -3, 13, 23)));
    assert_eq!(grown.unsigned_area2(), Some(2 * 16 * 26));
}

#[test]
fn offset_ignores_winding() {
    let clockwise = poly(&[(0, 0), (0, 20), (10, 20), (10, 0)]);
    let grown = gdsfill::offset_polygon(&clockwise, 3);
    assert_eq!(grown.bounding_rect(), Some(rect(-3, -3, 13, 23)));
    assert_eq!(grown.unsigned_area2(), Some(2 * 16 * 26));
}

#[test]
fn reversed_ring_grows_to_the_reversed_ring() {
    let ring = poly(&[(0, 0), (100, 0), (140, 70), (30, 90)]);
    let mut back = ring.exterior.clone();
    back.reverse();
    let grown = gdsfill::offset_polygon(&ring, 12);
    let mut other = gdsfill::offset_polygon(&Polygon::new(back, vec![]), 12).exterior;
    other.reverse();
    assert_eq!(grown.exterior, other);
    assert_ne!(grown.exterior, ring.exterior);
}

#[test]
fn thinnest_needles_grow_at_the_tip() {
    let far = 2_000_000_000;
    let needle = poly(&[(-far, 0), (far, 0), (-far, 1)]);
    let grown = gdsfill::offset_polygon(&needle, 10);
    assert_eq!(grown.exterior[1], Point { x: far + 40, y: 0 });
    let mut back = needle.exterior.clone();
    back.reverse();
    let mut other = gdsfill::offset_polygon(&Polygon::new(back, vec![]), 10).exterior;
    other.reverse();
    assert_eq!(grown.exterior, other);
}

#[test]
fn offset_of_sharp_vertex_is_limited() {
    let thin = poly(&[(0, 0), (1000, 1), (0, 2)]);
    let grown = gdsfill::offset_polygon(&thin, 10);
    let b = grown.bounding_rect().unwrap();
    assert!(b.x1 <= 1000 + 40);
    assert!(b.x1 > 1000 + 30);
}

#[test]
fn offset_moves_diagonal_corner_by_root_two() {
    let diamond = poly(&[(0, -1000), (1000, 0), (0, 1000), (-1000, 0)]);
    let grown = gdsfill::offset_polygon(&diamond, 100);
    assert_eq!(grown.bounding_rect(), Some(rect(-1141, -1141, 1141, 1141)));
}

#[test]
fn offset_of_short_ring_is_a_copy() {
    let segment = poly(&[(0, 0), (5, 5)]);
    let same = gdsfill::offset_polygon(&segment, 7);
    assert_eq!(same.exterior, segment.exterior);
}

#[test]
fn offset_by_nothing_keeps_holes() {
    let frame = Polygon::new(
        square(0, 0, 100, 100).exterior,
        vec![square(10, 10, 90, 90).exterior],
    );
    let same = gdsfill::offset_polygons(&[frame], 0);
    assert_eq!(same.len(), 1);
    assert_eq!(same[0].holes.len(), 1);
}

#[test]
fn offset_polygons_grows_each() {
    let grown = gdsfill::offset_polygons(&[square(0, 0, 10, 10), square(50, 50, 60, 60)], 5);
    assert_eq!(grown[0].bounding_rect(), Some(rect(-5, -5, 15, 15)));
    assert_eq!(grown[1].bounding_rect(), Some(rect(45, 45, 65, 65)));
}

#[test]
fn rectangles_are_recognised() {
    assert!(is_rect(&square(0, 0, 10, 20)));
    assert!(!is_rect(&poly(&[(0, 0), (10, 0), (0, 10)])));
    assert!(!is_rect(&poly(&[(0, 0), (10, 5), (5, 10), (0, 5)])));
}

#[test]
fn contained_rectangles_are_removed() {
    let l_shape = poly(&[(12, 12), (18, 12), (18, 14), (14, 14), (14, 18), (12, 18)]);
    let polys = vec![
        square(10, 10, 20, 20),
        square(0, 0, 100, 100),
        l_shape,
        square(0, 0, 100, 100),
        square(90, 90, 110, 110),
    ];
    let kept = gdsfill::remove_contained_polygons(&polys);
    assert_eq!(kept.len(), 3);
    assert_eq!(kept[0].bounding_rect(), Some(rect(0, 0, 100, 100)));
    assert_eq!(kept[1].bounding_rect(), Some(rect(0, 0, 100, 100)));
    assert_eq!(kept[2].bounding_rect(), Some(rect(90, 90, 110, 110)));
    assert_eq!(gdsfill::remove_contained_polygons(&kept).len(), 3);
}

#[test]
fn boxes_decide_what_is_contained() {
    let triangle = poly(&[(2, 2), (4, 2), (2, 4)]);
    let kept = gdsfill::remove_contained_polygons(&[square(0, 0, 10, 10), triangle]);
    assert_eq!(kept.len(), 1);
    assert_eq!(kept[0].bounding_rect(), Some(rect(0, 0, 10, 10)));
    let l_shape = poly(&[(0, 0), (10, 0), (10, 2), (2, 2), (2, 10), (0, 10)]);
    let kept = gdsfill::remove_contained_polygons(&[square(5, 5, 8, 8), l_shape]);
    assert_eq!(kept.len(), 1);
    assert_eq!(kept[0].exterior.len(), 7);
}

#[test]
fn removal_of_nested_rectangles_keeps_cover() {
    let polys = vec![square(4, 4, 6, 6), square(2, 2, 8, 8), square(0, 0, 10, 10)];
    let kept = gdsfill::remove_contained_polygons(&polys);
    assert_eq!(kept.len(), 1);
    assert_eq!(gdsfill::union_area(&kept), gdsfill::union_area(&polys));
}

#[test]
fn repeated_rings_are_collected_once() {
    let polys = vec![square(0, 0, 10, 10), square(0, 0, 10, 12), square(0, 0, 10, 10)];
    let kept = remove_repeated(&polys);
    assert_eq!(kept.len(), 2);
    assert_eq!(kept[1].bounding_rect(), Some(rect(0, 0, 10, 12)));
}

#[test]
fn polygons_out_of_range_are_found() {
    assert!(check_polygons(&[square(0, 0, 10, 10)]));
    assert!(!check_polygons(&[square(0, 0, 0x1_0000_0000, 10)]));
    assert!(rect(-5, -5, 5, 5).check());
    assert!(!rect(-0x8000_0001, 0, 5, 5).check());
}

#[test]
fn holes_count_against_the_area() {
    let frame = Polygon::new(square(0, 0, 10, 10).exterior, vec![square(2, 2, 8, 8).exterior]);
    assert_eq!(frame.unsigned_area2(), Some(2 * (100 - 36)));
    assert_eq!(twice(&[frame, square(20, 0, 30, 10)]), 2 * (100 - 36 + 100));
}

#[test]
fn boundaries_are_closed_and_in_database_units() {
    let b = rect_to_boundary(&rect(-4, 2, 7, 9), 34, 4);
    assert_eq!(b.layer, 34);
    assert_eq!(b.datatype, 4);
    assert_eq!(b.xy, vec![(-2, 1), (4, 1), (4, 5), (-2, 5), (-2, 1)]);
    let p = poly_to_boundary(&poly(&[(0, 0), (20, 0), (0, 10)]), 1, 250);
    assert_eq!(p.datatype, 250);
    assert_eq!(p.xy, vec![(0, 0), (10, 0), (0, 5), (0, 0)]);
}

#[test]
fn boundary_coordinates_saturate() {
    let b = rect_to_boundary(&rect(-0x40_0000_0000, 0, 0x40_0000_0000, 2), 1, 1);
    assert_eq!(b.xy[0], (i32::MIN, 0));
    assert_eq!(b.xy[1], (i32::MAX, 0));
}

#[test]
fn rectangle_from_any_two_corners() {
    assert_eq!(Rect::new(5, 1, -3, 9), rect(-3, 1, 5, 9));
    assert_eq!(rect(0, 0, 3, 4).area(), 12);
    assert!(rect(0, 0, 3, 4).intersects(&rect(3, 4, 5, 5)));
    assert!(!rect(0, 0, 3, 4).intersects(&rect(4, 0, 5, 5)));
    assert!(rect(0, 0, 9, 9).encloses(&rect(0, 3, 9, 4)));
    assert_eq!(rect(0, 0, 1, 1).grown(2), rect(-2, -2, 3, 3));
}
