use gdsfill::boundary::design_tops;
use gdsfill::boundary::fill_cell;
use gds21::GdsArrayRef;
use gds21::GdsBoundary;
use gds21::GdsElement;
use gds21::GdsLibrary;
use gds21::GdsPath;
use gds21::GdsPoint;
use gds21::GdsStrans;
use gds21::GdsStruct;
use gds21::GdsStructRef;
use gds21::GdsTextElem;
use gdsfill::erase::plan_erase;
use gdsfill::erase::plan_replace;
use gdsfill::gds::list_turns;
use gdsfill::gds::to_layout;
use gdsfill::gds::ReadError;
use gdsfill::gds::Turn;
use gdsfill::erase::EraseTargets;
use gdsfill::flatten::flatten;
use gdsfill::flatten::top_cells;
use gdsfill::geom::Point;
use gdsfill::geom::Rect;
use gdsfill::is_fill_element;
use gdsfill::layout::ArrayRef;
use gdsfill::layout::Boundary;
use gdsfill::layout::Cell;
use gdsfill::layout::Element;
use gdsfill::layout::Layout;
use gdsfill::layout::LayoutError;
use gdsfill::layout::PathElement;
use gdsfill::layout::Strans;
use gdsfill::layout::StructRef;
use gdsfill::path::draw_path;
use gdsfill::path::path_to_polygons;
use gdsfill::path::FinePoint;
use gdsfill::path::FINE;
use gdsfill::transform::aref_instance_transforms;
use gdsfill::transform::AffineTransform;
use gdsfill::LayerMap;

const ONE: i64 = 0x1_0000_0000;

fn rect(x0: i64, y0: i64, x1: i64, y1: i64) -> Rect {
    Rect { x0, y0, x1, y1 }
}

fn boundary(layer: i16, datatype: i16, x0: i32, y0: i32, x1: i32, y1: i32) -> Element {
    Element::Boundary(Boundary {
        layer,
        datatype,
        xy: vec![(x0, y0), (x1, y0), (x1, y1), (x0, y1), (x0, y0)],
    })
}

fn path(points: Vec<(i32, i32)>, width: Option<i32>, path_type: Option<i16>) -> PathElement {
    PathElement { layer: 1, datatype: 0, xy: points, width, path_type, begin_extn: None, end_extn: None }
}

fn place(name: &str, x: i32, y: i32, strans: Option<Strans>) -> Element {
    Element::StructRef(StructRef { name: name.to_string(), xy: (x, y), strans })
}

fn cell(name: &str, elems: Vec<Element>) -> Cell {
    Cell { name: name.to_string(), elems }
}

fn quarter_turn() -> Strans {
    Strans { reflected: false, cos: 0, sin: ONE }
}

#[test]
fn identity_doubles_into_layout_units() {
    assert_eq!(AffineTransform::identity().apply(3, -4), Point { x: 6, y: -8 });
}

#[test]
fn rotation_and_reflection() {
    let turn = AffineTransform::from_strans_xy(&Some(quarter_turn()), 0, 0);
    assert_eq!(turn.apply(1, 0), Point { x: 0, y: 2 });
    assert_eq!(turn.apply(0, 1), Point { x: -2, y: 0 });
    let mirror = AffineTransform::from_strans_xy(&Some(Strans { reflected: true, cos: ONE, sin: 0 }), 0, 0);
    assert_eq!(mirror.apply(5, 7), Point { x: 10, y: -14 });
    let both = AffineTransform::from_strans_xy(&Some(Strans { reflected: true, cos: 0, sin: ONE }), 0, 0);
    assert_eq!(both.apply(1, 0), Point { x: 0, y: 2 });
    assert_eq!(both.apply(0, 1), Point { x: 2, y: 0 });
}

#[test]
fn placement_moves_after_rotation() {
    let r = StructRef { name: "A".to_string(), xy: (10, 20), strans: Some(quarter_turn()) };
    assert_eq!(AffineTransform::from_sref(&r).apply(1, 0), Point { x: 20, y: 42 });
}

#[test]
fn composition_applies_inner_first() {
    let shift = AffineTransform::from_strans_xy(&None, 10 * ONE as i128, 0);
    let turn = AffineTransform::from_strans_xy(&Some(quarter_turn()), 0, 0);
    let turn_after = turn.compose(&shift).unwrap();
    let shift_after = shift.compose(&turn).unwrap();
    assert_eq!(turn_after.apply(1, 0), Point { x: 0, y: 22 });
    assert_eq!(shift_after.apply(1, 0), Point { x: 20, y: 2 });
    let same = AffineTransform::identity().compose(&turn).unwrap();
    assert_eq!(same.apply(3, 5), turn.apply(3, 5));
}

#[test]
fn magnification_scales() {
    let double = AffineTransform::from_strans_xy(&Some(Strans { reflected: false, cos: 2 * ONE, sin: 0 }), 0, 0);
    assert_eq!(double.apply(3, 4), Point { x: 12, y: 16 });
}

#[test]
fn transforms_have_limits() {
    let huge = AffineTransform::from_strans_xy(&None, 0x7fff_ffff_ffff_ffff_ffff_ffff, 0);
    assert!(!huge.check());
    assert!(AffineTransform::identity().check());
}

#[test]
fn array_instances_by_column_then_row() {
    let a = ArrayRef {
        name: "A".to_string(),
        origin: (0, 0),
        col_end: (20, 0),
        row_end: (0, 30),
        cols: 2,
        rows: 3,
        strans: None,
    };
    let all = aref_instance_transforms(&a, &AffineTransform::identity()).unwrap();
    let corners: Vec<Point> = all.iter().map(|t| t.apply(0, 0)).collect();
    assert_eq!(
        corners,
        vec![
            Point { x: 0, y: 0 },
            Point { x: 0, y: 20 },
            Point { x: 0, y: 40 },
            Point { x: 20, y: 0 },
            Point { x: 20, y: 20 },
            Point { x: 20, y: 40 },
        ]
    );
    let none = ArrayRef { cols: 0, ..a };
    assert!(aref_instance_transforms(&none, &AffineTransform::identity()).unwrap().is_empty());
}

#[test]
fn straight_path_is_a_rectangle() {
    let t = AffineTransform::identity();
    let fine = path_to_polygons(&path(vec![(0, 0), (10, 0)], Some(4), None), &t).unwrap();
    assert_eq!(fine.len(), 1);
    assert_eq!(fine[0].exterior[0], FinePoint { x: 0, y: -2 * FINE });
    assert_eq!(fine[0].exterior[2], FinePoint { x: 10 * FINE, y: 2 * FINE });
    let flush = draw_path(&path(vec![(0, 0), (10, 0)], Some(4), None), &t).unwrap();
    assert_eq!(flush.len(), 1);
    assert_eq!(flush[0].bounding_rect(), Some(rect(0, -4, 20, 4)));
    let square = draw_path(&path(vec![(0, 0), (10, 0)], Some(4), Some(2)), &t).unwrap();
    assert_eq!(square[0].bounding_rect(), Some(rect(-4, -4, 24, 4)));
    let mut own = path(vec![(0, 0), (0, 10)], Some(4), Some(4));
    own.begin_extn = Some(1);
    own.end_extn = Some(3);
    let custom = draw_path(&own, &t).unwrap();
    assert_eq!(custom[0].bounding_rect(), Some(rect(-4, -2, 4, 26)));
}

#[test]
fn bent_path_extends_at_its_ends_only() {
    let t = AffineTransform::identity();
    let parts = draw_path(&path(vec![(0, 0), (10, 0), (10, 0), (10, 10)], Some(4), Some(2)), &t).unwrap();
    assert_eq!(parts.len(), 2);
    assert_eq!(parts[0].bounding_rect(), Some(rect(-4, -4, 20, 4)));
    assert_eq!(parts[1].bounding_rect(), Some(rect(16, 0, 24, 24)));
}

#[test]
fn paths_without_width_or_segment_draw_nothing() {
    let t = AffineTransform::identity();
    assert!(path_to_polygons(&path(vec![(0, 0), (10, 0)], None, None), &t).unwrap().is_empty());
    assert!(path_to_polygons(&path(vec![(0, 0), (10, 0)], Some(-4), None), &t).unwrap().is_empty());
    assert!(path_to_polygons(&path(vec![(0, 0)], Some(4), None), &t).unwrap().is_empty());
    let widest = path(vec![(0, 5), (10, 5)], Some(i32::MAX), None);
    assert_eq!(path_to_polygons(&widest, &t).unwrap().len(), 1);
    assert!(draw_path(&widest, &t).is_none());
    let far = AffineTransform { tx: 1 << 70, ..AffineTransform::identity() };
    assert!(path_to_polygons(&path(vec![(0, 0), (10, 0)], Some(4), None), &far).is_none());
}

/// Area of a ring, in squared database units.
fn fine_area(ring: &[FinePoint]) -> f64 {
    let unit = FINE as f64;
    let doubled: f64 = ring
        .windows(2)
        .map(|e| e[0].x as f64 * e[1].y as f64 - e[1].x as f64 * e[0].y as f64)
        .sum();
    doubled / 2.0 / unit / unit
}

#[test]
fn diagonal_path_keeps_its_area() {
    let t = AffineTransform::identity();
    let short = path_to_polygons(&path(vec![(0, 0), (1, 1)], Some(1), None), &t).unwrap();
    assert_eq!(short[0].exterior.len(), 5);
    assert!((fine_area(&short[0].exterior) - 2f64.sqrt()).abs() < 1e-6);
    let long = path_to_polygons(&path(vec![(0, 0), (300, 400)], Some(7), Some(2)), &t).unwrap();
    assert!((fine_area(&long[0].exterior) - 7.0 * 507.0).abs() < 1e-3);
    let mut own = path(vec![(0, 0), (-3, 4)], Some(2), Some(4));
    own.begin_extn = Some(1);
    own.end_extn = Some(-2);
    let custom = path_to_polygons(&own, &t).unwrap();
    assert!((fine_area(&custom[0].exterior) - 2.0 * 4.0).abs() < 1e-5);
}

#[test]
fn hierarchy_is_flattened_into_the_top_frame() {
    let layout = Layout {
        cells: vec![
            cell("LEAF", vec![boundary(1, 0, 0, 0, 10, 5), boundary(2, 0, 0, 0, 1, 1)]),
            cell("MID", vec![place("LEAF", 100, 0, None), place("LEAF", 0, 0, Some(quarter_turn()))]),
            cell("TOP", vec![place("MID", 0, 1000, None), place("GONE", 0, 0, None), Element::Other]),
        ],
    };
    assert_eq!(top_cells(&layout), vec![2]);
    let flat = flatten(&layout, &Some(vec![(1, 0)])).unwrap();
    assert_eq!(flat.len(), 2);
    assert_eq!(flat[0].poly.bounding_rect(), Some(rect(200, 2000, 220, 2010)));
    assert_eq!(flat[1].poly.bounding_rect(), Some(rect(-10, 2000, 0, 2020)));
    assert_eq!(flatten(&layout, &None).unwrap().len(), 4);
}

#[test]
fn flattening_errors() {
    let own = Layout { cells: vec![cell("A", vec![place("B", 0, 0, None)]), cell("B", vec![place("A", 0, 0, None)])] };
    assert!(top_cells(&own).is_empty());
    assert!(flatten(&own, &None).unwrap().is_empty());
    let reached = Layout {
        cells: vec![
            cell("TOP", vec![place("A", 0, 0, None)]),
            cell("A", vec![place("B", 0, 0, None)]),
            cell("B", vec![place("A", 0, 0, None)]),
        ],
    };
    assert_eq!(flatten(&reached, &None).err(), Some(LayoutError::Recursion));
    let far = Layout { cells: vec![cell("TOP", vec![boundary(1, 0, 0, 0, i32::MAX, 1)])] };
    assert_eq!(flatten(&far, &None).err(), Some(LayoutError::OutOfRange));
    assert!(flatten(&far, &Some(vec![(9, 9)])).unwrap().is_empty());
}

#[test]
fn layer_map_collects_by_key() {
    let layout = Layout {
        cells: vec![cell(
            "TOP",
            vec![
                boundary(1, 0, 0, 0, 10, 10),
                boundary(1, 0, 5, 5, 15, 15),
                boundary(1, 0, 0, 0, 10, 10),
                boundary(1, 4, 50, 50, 60, 60),
            ],
        )],
    };
    let mut map = LayerMap::build(&layout).unwrap();
    assert_eq!(map.polygons(1, 0).len(), 2);
    assert_eq!(map.polygons(1, 4).len(), 1);
    assert!(map.polygons(3, 0).is_empty());
    assert_eq!(map.bbox(1, 0), Some(rect(0, 0, 30, 30)));
    assert_eq!(map.bbox(3, 0), None);
    assert!(map.merge(1, 0));
    assert_eq!(map.polygons(1, 0).len(), 1);
    assert!(map.merge(3, 0));
    map.drop(1, 4);
    assert!(map.polygons(1, 4).is_empty());
    assert_eq!(map.polygons(1, 0).len(), 1);
    let only = LayerMap::build_for(&layout, &Some(vec![(1, 4)])).unwrap();
    assert!(only.polygons(1, 0).is_empty());
    assert_eq!(only.polygons(1, 4).len(), 1);
}

#[test]
fn layer_map_removes_contained() {
    let layout = Layout {
        cells: vec![cell("TOP", vec![boundary(1, 0, 0, 0, 10, 10), boundary(1, 0, 2, 2, 4, 4)])],
    };
    let mut map = LayerMap::build(&layout).unwrap();
    map.remove_contained(1, 0);
    assert_eq!(map.polygons(1, 0).len(), 1);
    map.remove_contained(7, 7);
}

#[test]
fn inner_rectangle_of_a_seal_ring() {
    let layout = Layout {
        cells: vec![cell(
            "TOP",
            vec![
                boundary(39, 4, 0, 0, 5, 100),
                boundary(39, 4, 95, 0, 100, 100),
                boundary(39, 4, 0, 0, 100, 6),
                boundary(39, 4, 0, 93, 100, 100),
            ],
        )],
    };
    let map = LayerMap::build(&layout).unwrap();
    let chip = map.bbox(39, 4).unwrap();
    assert_eq!(chip, rect(0, 0, 200, 200));
    assert_eq!(map.inner_rect(39, 4, &chip), Some(rect(10, 12, 190, 186)));
    assert_eq!(map.inner_rect(1, 0, &chip), None);
}

#[test]
fn closed_ring_leaves_no_inner_rectangle() {
    let layout = Layout {
        cells: vec![cell("TOP", vec![boundary(39, 4, 0, 0, 60, 100), boundary(39, 4, 50, 0, 100, 100)])],
    };
    let map = LayerMap::build(&layout).unwrap();
    assert_eq!(map.inner_rect(39, 4, &rect(0, 0, 200, 200)), None);
}

#[test]
fn design_cells_are_unplaced_and_unmarked() {
    let layout = Layout {
        cells: vec![
            cell("$$CONTEXT", vec![]),
            cell("LEAF", vec![]),
            cell("TOP", vec![place("LEAF", 0, 0, None)]),
            cell("OTHER", vec![]),
        ],
    };
    assert_eq!(design_tops(&layout), vec![2, 3]);
    assert_eq!(fill_cell(&layout), Some(2));
    assert_eq!(top_cells(&layout), vec![0, 2, 3]);
    assert_eq!(fill_cell(&Layout { cells: vec![cell("$$A", vec![])] }), None);
    assert_eq!(fill_cell(&Layout { cells: vec![cell("$", vec![])] }), Some(0));
}

#[test]
fn fill_elements_are_boundaries_and_paths() {
    let targets = [(34, 4)];
    assert!(is_fill_element(&boundary(34, 4, 0, 0, 1, 1), &targets));
    assert!(!is_fill_element(&boundary(34, 0, 0, 0, 1, 1), &targets));
    let mut p = path(vec![(0, 0), (1, 0)], Some(1), None);
    p.layer = 34;
    p.datatype = 4;
    assert!(is_fill_element(&Element::Path(p), &targets));
    assert!(!is_fill_element(&place("A", 0, 0, None), &targets));
    assert!(!is_fill_element(&Element::Other, &targets));
}

#[test]
fn erasure_keeps_everything_else() {
    let layout = Layout {
        cells: vec![
            cell("A", vec![boundary(34, 4, 0, 0, 1, 1), boundary(34, 0, 0, 0, 1, 1), Element::Other]),
            cell("B", vec![boundary(34, 250, 0, 0, 1, 1), place("A", 0, 0, None), boundary(34, 4, 0, 0, 1, 1)]),
        ],
    };
    let targets = EraseTargets { fill: vec![(34, 4)], debug: vec![(34, 250), (34, 251)] };
    let plan = plan_erase(&layout, &targets);
    assert_eq!(plan.keep, vec![vec![false, true, true], vec![false, true, false]]);
    assert_eq!(plan.erased_fill, 2);
    assert_eq!(plan.erased_debug, 1);
}

#[test]
fn erasing_twice_erases_nothing_more() {
    let layout = Layout { cells: vec![cell("A", vec![boundary(34, 0, 0, 0, 1, 1), Element::Other])] };
    let targets = EraseTargets { fill: vec![(34, 4)], debug: vec![(34, 250)] };
    let plan = plan_erase(&layout, &targets);
    assert_eq!(plan.keep, vec![vec![true, true]]);
    assert_eq!((plan.erased_fill, plan.erased_debug), (0, 0));
}

#[test]
fn needed_layers_are_those_of_the_whole() {
    let layout = Layout {
        cells: vec![
            cell("TOP", vec![place("LEAF", 5, 5, None), boundary(2, 0, 0, 0, 9, 9), boundary(1, 3, 0, 0, 4, 4)]),
            cell("LEAF", vec![boundary(1, 0, 0, 0, 2, 2), boundary(1, 0, 0, 0, 2, 2), boundary(2, 0, 1, 1, 3, 3)]),
        ],
    };
    let all = LayerMap::build(&layout).unwrap();
    let some = LayerMap::build_for(&layout, &Some(vec![(1, 0), (7, 7)])).unwrap();
    assert_eq!(all.polygons(1, 0).len(), 1);
    assert_eq!(some.polygons(1, 0)[0].exterior, all.polygons(1, 0)[0].exterior);
    assert_eq!(all.polygons(2, 0).len(), 2);
    assert!(some.polygons(2, 0).is_empty() && some.polygons(1, 3).is_empty() && some.polygons(7, 7).is_empty());
}

#[test]
fn composed_transforms_apply_in_turn() {
    let diagonal = Strans { reflected: false, cos: 3_037_000_500, sin: 3_037_000_500 };
    let outer = AffineTransform::from_strans_xy(&Some(diagonal), 7 << 32, -(3i128 << 32));
    let inner = AffineTransform::from_strans_xy(&Some(Strans { reflected: true, ..diagonal }), 11 << 32, 5 << 32);
    let both = outer.compose(&inner).unwrap();
    for (x, y) in [(0, 0), (100, 37), (-5000, 12_345)] {
        let (u, v) = inner.apply_fixed(x, y);
        let (p, q) = both.apply_fixed(x, y);
        let bound = (1i128 << 32) * (x.abs() as i128 + y.abs() as i128 + 1);
        assert!((2 * ((p << 32) - (outer.a * u + outer.b * v + (outer.tx << 32)))).abs() <= bound);
        assert!((2 * ((q << 32) - (outer.c * u + outer.d * v + (outer.ty << 32)))).abs() <= bound);
    }
}

#[test]
fn erasing_a_filled_cell_is_erasing_the_cell() {
    let t = EraseTargets { fill: vec![(1, 22)], debug: vec![(1, 250), (1, 251)] };
    let before = vec![boundary(1, 0, 0, 0, 1, 1), boundary(1, 22, 0, 0, 2, 2), boundary(2, 22, 0, 0, 3, 3)];
    let count = before.len();
    let mut layout = Layout { cells: vec![cell("A", before)] };
    let plain = plan_erase(&layout, &t).keep[0].clone();
    layout.cells[0].elems.push(boundary(1, 22, 5, 5, 6, 6));
    layout.cells[0].elems.push(boundary(1, 251, 5, 5, 6, 6));
    let filled = plan_erase(&layout, &t).keep[0].clone();
    assert_eq!(plain, vec![true, false, true]);
    assert_eq!(filled[..count], plain[..]);
    assert_eq!(filled[count..], [false, false]);
    assert_eq!(plan_replace(&layout.cells[0], 22), vec![true, false, false, false, true]);
}

fn library() -> GdsLibrary {
    let xy = |p: &[(i32, i32)]| GdsPoint::vec(p);
    let turned = GdsStrans { reflected: true, mag: Some(2.0), angle: Some(90.0), ..Default::default() };
    let mut top = GdsStruct::new("TOP");
    top.elems.push(GdsElement::GdsBoundary(GdsBoundary {
        layer: 8,
        datatype: 22,
        xy: xy(&[(0, 0), (4, 0), (4, -3), (0, 0)]),
        ..Default::default()
    }));
    top.elems.push(GdsElement::GdsPath(GdsPath {
        layer: 9,
        datatype: 1,
        xy: xy(&[(1, 2), (3, 4)]),
        width: Some(6),
        path_type: Some(4),
        begin_extn: Some(5),
        end_extn: Some(-7),
        ..Default::default()
    }));
    top.elems.push(GdsElement::GdsStructRef(GdsStructRef {
        name: "LEAF".to_string(),
        xy: GdsPoint::new(10, -20),
        strans: Some(turned.clone()),
        ..Default::default()
    }));
    top.elems.push(GdsElement::GdsTextElem(GdsTextElem {
        string: "label".to_string(),
        layer: 1,
        texttype: 0,
        xy: GdsPoint::new(0, 0),
        ..Default::default()
    }));
    top.elems.push(GdsElement::GdsArrayRef(GdsArrayRef {
        name: "LEAF".to_string(),
        xy: [GdsPoint::new(1, 2), GdsPoint::new(31, 2), GdsPoint::new(1, 42)],
        cols: 3,
        rows: 4,
        strans: Some(turned),
        ..Default::default()
    }));
    let mut lib = GdsLibrary::new("lib");
    lib.structs = vec![top, GdsStruct::new("LEAF")];
    lib
}

fn bytes_of(lib: &GdsLibrary) -> Vec<u8> {
    let mut bytes = Vec::new();
    lib.write(&mut bytes).unwrap();
    bytes
}

#[test]
fn libraries_are_read_from_bytes() {
    let lib = gdsfill::read_gds(bytes_of(&library())).unwrap();
    let key = (Some(2f64.to_bits()), Some(90f64.to_bits()));
    assert_eq!(list_turns(&lib), vec![key]);
    let turn = Turn { mag: key.0, angle: key.1, cos: 0, sin: 2 << 32 };
    let layout = to_layout(&lib, &vec![turn]).unwrap();
    let strans = Some(Strans { reflected: true, cos: 0, sin: 2 << 32 });
    assert_eq!(layout.cells.len(), 2);
    assert_eq!(layout.cells[0].name, "TOP");
    assert_eq!(layout.cells[1].name, "LEAF");
    assert!(layout.cells[1].elems.is_empty());
    assert_eq!(
        layout.cells[0].elems,
        vec![
            Element::Boundary(Boundary { layer: 8, datatype: 22, xy: vec![(0, 0), (4, 0), (4, -3), (0, 0)] }),
            Element::Path(PathElement {
                layer: 9,
                datatype: 1,
                xy: vec![(1, 2), (3, 4)],
                width: Some(6),
                path_type: Some(4),
                begin_extn: Some(5),
                end_extn: Some(-7),
            }),
            Element::StructRef(StructRef { name: "LEAF".to_string(), xy: (10, -20), strans }),
            Element::Other,
            Element::ArrayRef(ArrayRef {
                name: "LEAF".to_string(),
                origin: (1, 2),
                col_end: (31, 2),
                row_end: (1, 42),
                cols: 3,
                rows: 4,
                strans,
            }),
        ]
    );
    assert!(to_layout(&lib, &vec![]).is_none());
    assert!(to_layout(&lib, &vec![Turn { angle: None, ..turn }]).is_none());
}

#[test]
fn unreadable_bytes_are_refused() {
    assert!(matches!(gdsfill::read_gds(vec![]), Err(ReadError::Invalid(_))));
    assert!(matches!(gdsfill::read_gds(vec![0, 3, 0, 0]), Err(ReadError::Invalid(_))));
    let good = bytes_of(&library());
    let mut cut = good.clone();
    cut.truncate(good.len() - 4);
    assert!(matches!(gdsfill::read_gds(cut), Err(ReadError::Invalid(_))));
    // The second record begins the library: a header, then two dates.
    assert_eq!(good[6..10], [0, 28, 1, 2]);
    for (at, value) in [(12, 13), (14, 32), (16, 24), (18, 60), (20, 60), (24, 0), (26, 0)] {
        let mut bad = good.clone();
        bad[at] = 0;
        bad[at + 1] = value;
        assert!(matches!(gdsfill::read_gds(bad), Err(ReadError::Broken)), "{at}");
    }
    let mut leap = good.clone();
    leap[10..16].copy_from_slice(&[0x07, 0xd0, 0, 2, 0, 29]);
    assert!(gdsfill::read_gds(leap.clone()).is_ok());
    leap[10..12].copy_from_slice(&[0x07, 0x6c]);
    assert!(matches!(gdsfill::read_gds(leap), Err(ReadError::Broken)));
    let mut nameless = good[..34].to_vec();
    nameless.extend([0, 4, 2, 6]);
    assert!(matches!(gdsfill::read_gds(nameless), Err(ReadError::Broken)));
}
