use gdsfill::area::total_area;
use gdsfill::density::reference_area;
use gdsfill::density::tile_density;
use gdsfill::density::Measure;
use gdsfill::geom::Point;
use gdsfill::geom::Polygon;
use gdsfill::geom::Rect;
use gdsfill::morph::dilate;
use gdsfill::morph::edge_bands;
use gdsfill::morph::erode;
use gdsfill::morph::Morph;
use gdsfill::overlay::intersection;
use gdsfill::overlay::share;
use gdsfill::overlay::subtract;
use gdsfill::tiles::count_tiles;
use gdsfill::tiles::tile_at;
use gdsfill::tiles::Grid;
use gdsfill::touch::any_touches;
use gdsfill::touch::Keepout;
use gdsfill::touch::Outline;

fn rect(x0: i64, y0: i64, x1: i64, y1: i64) -> Rect {
    Rect { x0, y0, x1, y1 }
}

fn poly(points: &[(i64, i64)]) -> Polygon {
    Polygon::new(points.iter().map(|p| Point { x: p.0, y: p.1 }).collect(), Vec::new())
}

fn square(x0: i64, y0: i64, x1: i64, y1: i64) -> Polygon {
    rect(x0, y0, x1, y1).to_polygon()
}

fn twice(polys: &[Polygon]) -> i128 {
    total_area(polys).unwrap()
}

#[test]
fn merging_joins_overlaps() {
    let merged = gdsfill::merge_polygons(&[square(0, 0, 10, 10), square(5, 5, 15, 15)]);
    assert_eq!(merged.len(), 1);
    assert_eq!(twice(&merged), 2 * 175);
    assert_eq!(merged[0].bounding_rect(), Some(rect(0, 0, 15, 15)));
}

#[test]
fn merging_ignores_winding() {
    let clockwise = poly(&[(5, 5), (5, 15), (15, 15), (15, 5)]);
    let merged = gdsfill::merge_polygons(&[square(0, 0, 10, 10), clockwise]);
    assert_eq!(merged.len(), 1);
    assert_eq!(twice(&merged), 2 * 175);
}

#[test]
fn merging_keeps_disjoint_shapes_apart() {
    let merged = gdsfill::merge_polygons(&[square(0, 0, 10, 10), square(20, 0, 30, 10)]);
    assert_eq!(merged.len(), 2);
    assert_eq!(twice(&merged), 2 * 200);
}

#[test]
fn merging_one_polygon_returns_it() {
    let odd = poly(&[(0, 0), (10, 10), (10, 0), (0, 10)]);
    let merged = gdsfill::merge_polygons(&[odd]);
    assert_eq!(merged.len(), 1);
    assert_eq!(merged[0].exterior.len(), 5);
    assert!(gdsfill::merge_polygons(&[]).is_empty());
}

#[test]
fn merging_a_frame_makes_a_hole() {
    let merged = gdsfill::merge_polygons(&[
        square(0, 0, 100, 10),
        square(0, 90, 100, 100),
        square(0, 0, 10, 100),
        square(90, 0, 100, 100),
    ]);
    assert_eq!(merged.len(), 1);
    assert_eq!(merged[0].holes.len(), 1);
    assert_eq!(twice(&merged), 2 * (100 * 100 - 80 * 80));
    assert_eq!(reference_area(&merged), Some(2 * 100 * 100));
}

#[test]
fn intersection_is_the_common_part() {
    let parts = intersection(&square(0, 0, 10, 10), &square(5, 5, 20, 20));
    assert_eq!(parts.len(), 1);
    assert_eq!(parts[0].bounding_rect(), Some(rect(5, 5, 10, 10)));
    assert!(intersection(&square(0, 0, 10, 10), &square(20, 20, 30, 30)).is_empty());
}

#[test]
fn subtraction_leaves_the_rest() {
    let rest = subtract(&[square(0, 0, 100, 100)], &[square(20, 20, 40, 40), square(90, 0, 200, 100)]).unwrap();
    assert_eq!(twice(&rest), 2 * (90 * 100 - 400));
    let common = share(&[square(0, 0, 100, 100)], &[square(20, 20, 40, 40), square(90, 0, 200, 100)]);
    assert_eq!(twice(&common), 2 * (400 + 1000));
}

#[test]
fn union_area_of_rectangles_and_others() {
    assert_eq!(gdsfill::union_area(&[square(0, 0, 10, 10), square(5, 5, 15, 15)]), Some(2 * 175));
    let triangle = poly(&[(20, 0), (30, 0), (20, 10)]);
    assert_eq!(gdsfill::union_area(&[square(0, 0, 10, 10), triangle]), Some(2 * 100 + 100));
    assert_eq!(gdsfill::union_area(&[]), Some(0));
}

#[test]
fn clipped_area_counts_listed_polygons() {
    let polys = vec![square(0, 0, 10, 10), square(5, 5, 25, 25), square(100, 100, 110, 110)];
    let tile = square(5, 5, 20, 20);
    assert_eq!(gdsfill::clipped_area(&polys, &[0], &tile), Some(2 * 25));
    assert_eq!(gdsfill::clipped_area(&polys, &[0, 1, 2], &tile), Some(2 * (25 + 225)));
    assert_eq!(gdsfill::clipped_area(&polys, &[], &tile), Some(0));
}

#[test]
fn merged_area_counts_overlaps_once_in_any_window() {
    let polys = vec![square(0, 0, 10, 10), square(0, 0, 10, 10), square(5, 0, 30, 10)];
    let tile = rect(0, 0, 20, 20);
    assert_eq!(gdsfill::tiled_merge_area(&polys, &[0, 1, 2], &tile, None), Some(2 * 200));
    assert_eq!(gdsfill::tiled_merge_area(&polys, &[0, 1, 2], &tile, Some(7)), Some(2 * 200));
    assert_eq!(gdsfill::tiled_merge_area(&polys, &[0, 1], &tile, Some(100)), Some(2 * 100));
}

#[test]
fn tiles_cover_the_area() {
    assert_eq!(count_tiles(100, 30), 4);
    assert_eq!(count_tiles(90, 30), 3);
    assert_eq!(count_tiles(0, 30), 0);
    let area = rect(-10, 0, 90, 50);
    assert_eq!(tile_at(&area, 30, 0, 0), rect(-10, 0, 20, 30));
    assert_eq!(tile_at(&area, 30, 3, 1), rect(80, 30, 90, 50));
    let grid = Grid::over(&area, 30).unwrap();
    assert_eq!((grid.nx, grid.ny), (4, 2));
    let mut sum = 0;
    for iy in 0..grid.ny {
        for ix in 0..grid.nx {
            sum += tile_at(&area, 30, ix, iy).area();
        }
    }
    assert_eq!(sum, area.area());
}

#[test]
fn index_lists_polygons_by_tile() {
    let polys = vec![square(0, 0, 10, 10), square(25, 0, 35, 5), square(-50, 3, -40, 4), square(100, 5, 110, 6)];
    let index = gdsfill::build_tile_index(&polys, 0, 0, 10, 4, 1);
    assert_eq!(index, vec![vec![0, 2], vec![0], vec![1], vec![1, 3]]);
}

#[test]
fn bands_follow_all_edges() {
    let bands = edge_bands(&[square(0, 0, 100, 100)], 10);
    assert_eq!(bands.len(), 4);
    assert_eq!(gdsfill::union_area(&bands), Some(2 * (120 * 120 - 80 * 80)));
    let frame = Polygon::new(square(0, 0, 100, 100).exterior, vec![square(40, 40, 60, 60).exterior]);
    assert_eq!(edge_bands(&[frame], 10).len(), 8);
}

#[test]
fn growing_and_shrinking_a_square_undo_each_other() {
    let grown = dilate(vec![square(0, 0, 100, 100)], 25).unwrap();
    assert_eq!(twice(&grown), 2 * 150 * 150);
    let back = erode(&grown, 25).unwrap();
    assert_eq!(twice(&back), 2 * 100 * 100);
    assert_eq!(back[0].bounding_rect(), Some(rect(0, 0, 100, 100)));
    assert!(erode(&vec![square(0, 0, 100, 100)], 50).unwrap().is_empty());
}

#[test]
fn closing_fills_narrow_gaps_only() {
    let closing = Morph::Closing { grow: 20, shrink: 20 };
    let near = vec![square(0, 0, 100, 100), square(130, 0, 230, 100)];
    let closed = closing.apply_tiled(&near, 50).unwrap();
    assert_eq!(gdsfill::union_area(&closed), Some(2 * 230 * 100));
    let whole = closing.apply_tiled(&near, 1000).unwrap();
    assert_eq!(gdsfill::union_area(&whole), Some(2 * 230 * 100));
    let far = vec![square(0, 0, 100, 100), square(160, 0, 260, 100)];
    let open = closing.apply_tiled(&far, 50).unwrap();
    assert_eq!(gdsfill::union_area(&open), Some(2 * 2 * 100 * 100));
}

#[test]
fn closing_with_less_shrinking_leaves_a_margin() {
    let closing = Morph::Closing { grow: 20, shrink: 15 };
    let closed = closing.apply_tiled(&[square(0, 0, 100, 100)], 1000).unwrap();
    assert_eq!(gdsfill::union_area(&closed), Some(2 * 110 * 110));
}

#[test]
fn well_bands_are_the_same_in_any_window() {
    let well = vec![square(0, 0, 100, 100), square(50, 0, 150, 100)];
    let bands = Morph::Bands { space: 10 };
    for window in [20, 64, 1000] {
        let out = bands.apply_tiled(&well, window).unwrap();
        let ring = 2 * (170 * 120 - 130 * 80);
        assert_eq!(gdsfill::union_area(&out), Some(ring));
    }
}

#[test]
fn nothing_has_no_bands() {
    assert!(Morph::Bands { space: 10 }.apply_tiled(&[], 100).unwrap().is_empty());
}

#[test]
fn range_limits_stop_the_closing() {
    let edge = square(0x7fff_ff00, 0, 0x8000_0000, 100);
    assert!(Morph::Closing { grow: 100, shrink: 100 }.apply_tiled(&[edge], 100).is_none());
}

#[test]
fn rectangle_keepouts_touch_at_their_edge() {
    let k = Keepout::of_rect(rect(0, 0, 10, 10));
    assert!(k.touches_rect(&rect(10, 10, 20, 20)));
    assert!(!k.touches_rect(&rect(11, 0, 20, 20)));
}

#[test]
fn polygon_keepouts_touch_by_shape() {
    let triangle = poly(&[(0, 0), (100, 0), (0, 100)]);
    let k = Keepout { bbox: triangle.bounding_rect().unwrap(), shape: Some(triangle) };
    assert!(k.touches_rect(&rect(10, 10, 20, 20)));
    assert!(k.touches_rect(&rect(50, 50, 60, 60)));
    assert!(!k.touches_rect(&rect(80, 80, 90, 90)));
    assert!(k.touches_rect(&rect(-10, -10, 200, 200)));
    assert!(!any_touches(&vec![k], &rect(80, 80, 90, 90)));
}

#[test]
fn keepout_hole_leaves_room() {
    let frame = Polygon::new(square(0, 0, 100, 100).exterior, vec![square(20, 20, 80, 80).exterior]);
    let k = Keepout { bbox: rect(0, 0, 100, 100), shape: Some(frame) };
    assert!(!k.touches_rect(&rect(30, 30, 70, 70)));
    assert!(k.touches_rect(&rect(20, 30, 70, 70)));
}

#[test]
fn outline_holds_by_centre() {
    let l_shape = poly(&[(0, 0), (100, 0), (100, 50), (50, 50), (50, 100), (0, 100)]);
    let outline = Outline::new(&[l_shape]);
    assert!(outline.inside(&rect(10, 10, 20, 20)));
    assert!(!outline.inside(&rect(60, 60, 90, 90)));
    assert!(outline.inside(&rect(40, 30, 59, 40)));
    assert!(!outline.inside(&rect(90, 10, 110, 20)));
    assert!(Outline::new(&[]).inside(&rect(1000, 1000, 1001, 1001)));
}

#[test]
fn outline_ignores_holes() {
    let frame = Polygon::new(square(0, 0, 100, 100).exterior, vec![square(20, 20, 80, 80).exterior]);
    assert!(Outline::new(&[frame]).inside(&rect(40, 40, 60, 60)));
}

#[test]
fn density_of_a_tile() {
    let drawing = vec![square(0, 0, 10, 10), square(5, 0, 15, 10)];
    let fill = vec![square(0, 20, 10, 30)];
    let tile = rect(0, 0, 20, 25);
    let merged = Measure { merge: true, window: Some(6) };
    let d = tile_density(&drawing, &vec![0, 1], &fill, &vec![0], &tile, &merged).unwrap();
    assert_eq!((d.draw_area, d.fill_area, d.tile_area), (2 * 150, 2 * 50, 2 * 500));
    let plain = Measure { merge: false, window: None };
    let d = tile_density(&drawing, &vec![0, 1], &fill, &vec![0], &tile, &plain).unwrap();
    assert_eq!(d.draw_area, 2 * 200);
}

/// Does an odd number of upright edges pass left of the cell?
fn covers(p: &Polygon, x: i64, y: i64) -> bool {
    let mut n = 0;
    for ring in std::iter::once(&p.exterior).chain(&p.holes) {
        for e in ring.windows(2) {
            let (lo, hi) = (e[0].y.min(e[1].y), e[0].y.max(e[1].y));
            if e[0].x == e[1].x && e[0].x <= x && lo <= y && y < hi {
                n += 1;
            }
        }
    }
    n % 2 == 1
}

#[test]
fn merged_rectangles_cover_each_cell_once() {
    let sets: [&[(i64, i64, i64, i64)]; 5] = [
        &[(0, 0, 4, 4), (2, 2, 6, 6)],
        &[(0, 0, 4, 4), (4, 0, 8, 4), (0, 4, 8, 8)],
        &[(0, 0, 10, 2), (0, 8, 10, 10), (0, 0, 2, 10), (8, 0, 10, 10), (4, 4, 6, 6)],
        &[(0, 0, 4, 4), (4, 4, 8, 8), (0, 4, 4, 8)],
        &[(0, 0, 9, 9), (3, 3, 5, 5), (3, 3, 5, 5), (1, 7, 12, 8)],
    ];
    for set in sets {
        for turn in [false, true] {
            let mut rects: Vec<Polygon> = set.iter().map(|&(a, b, c, d)| square(a, b, c, d)).collect();
            if turn {
                rects.reverse();
                rects[0].exterior.reverse();
            }
            let merged = gdsfill::merge_polygons(&rects);
            for x in -2..14 {
                for y in -2..14 {
                    let inside = set.iter().any(|&(a, b, c, d)| a <= x && x < c && b <= y && y < d);
                    let count = merged.iter().filter(|p| covers(p, x, y)).count();
                    assert_eq!(count, inside as usize, "{set:?} {x} {y}");
                }
            }
        }
    }
}

#[test]
fn merged_blocks_cover_each_cell_once() {
    let l = [(0, 0), (8, 0), (8, 2), (2, 2), (2, 8), (0, 8)];
    let u = [(1, 1), (9, 1), (9, 9), (7, 9), (7, 3), (3, 3), (3, 9), (1, 9)];
    let t = [(4, 0), (6, 0), (6, 10), (10, 10), (10, 12), (0, 12), (0, 10), (4, 10)];
    let make = |xy: &[(i64, i64)], back: bool| {
        let mut ring: Vec<Point> = xy.iter().map(|&(x, y)| Point { x, y }).collect();
        if back {
            ring.reverse();
        }
        Polygon::new(ring, vec![])
    };
    for turn in 0..8 {
        let blocks = vec![make(&l, turn & 1 > 0), make(&u, turn & 2 > 0), make(&t, turn & 4 > 0)];
        let merged = gdsfill::merge_polygons(&blocks);
        for x in -1..12 {
            for y in -1..14 {
                let inside = blocks.iter().any(|p| covers(p, x, y));
                let count = merged.iter().filter(|p| covers(p, x, y)).count();
                assert_eq!(count, inside as usize, "{turn} {x} {y}");
            }
        }
    }
}

#[test]
fn rectangles_cross_in_a_rectangle() {
    let base = square(0, 0, 10, 10);
    let cases = [
        (rect(2, 3, 7, 8), Some(rect(2, 3, 7, 8))),
        (rect(-5, -5, 20, 20), Some(rect(0, 0, 10, 10))),
        (rect(0, 0, 10, 10), Some(rect(0, 0, 10, 10))),
        (rect(-3, 2, 4, 30), Some(rect(0, 2, 4, 10))),
        (rect(0, 0, 10, 4), Some(rect(0, 0, 10, 4))),
        (rect(4, 0, 6, 10), Some(rect(4, 0, 6, 10))),
        (rect(10, 0, 20, 10), None),
        (rect(10, 10, 20, 20), None),
        (rect(11, 0, 20, 10), None),
    ];
    for (r, want) in cases {
        for flip in [false, true] {
            let mut other = r.to_polygon();
            if flip {
                other.exterior.reverse();
            }
            for parts in [intersection(&base, &other), intersection(&other, &base)] {
                assert_eq!(parts.len(), want.is_some() as usize);
                if let Some(w) = want {
                    assert_eq!(parts[0].exterior.len(), 5);
                    assert!(parts[0].holes.is_empty());
                    assert_eq!(parts[0].bounding_rect(), Some(w));
                    assert!(gdsfill::contain::is_rect(&parts[0]));
                }
            }
        }
    }
}
