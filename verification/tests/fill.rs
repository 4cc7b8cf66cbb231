use gdsfill::boundary::fill_cell;
use gdsfill::chip::Chip;
use gdsfill::chip::Purpose;
use gdsfill::chip::RunError;
use gdsfill::config::AlgorithmKind;
use gdsfill::config::FillConfig;
use gdsfill::config::LayerFillConfig;
use gdsfill::context::target_positions;
use gdsfill::erase::erase_targets;
use gdsfill::erase::plan_erase;
use gdsfill::fill::lattice::clip_to_tile;
use gdsfill::fill::lattice::generate_fill;
use gdsfill::fill::lattice::is_valid_placement;
use gdsfill::fill::lattice::iter_fill_positions;
use gdsfill::fill::lattice::Lattice;
use gdsfill::fill::measure;
use gdsfill::fill::output::FillOutput;
use gdsfill::density::total_densities;
use gdsfill::density::TileDensity;
use gdsfill::fill::overlap::fill_overlap_tile;
use gdsfill::fill::plan::LayerPlan;
use gdsfill::fill::plan::PlacedLayer;
use gdsfill::fill::plan::TileFill;
use gdsfill::fill::report::collect_rects;
use gdsfill::fill::report::tile_order;
use gdsfill::fill::report::total_areas;
use gdsfill::fill::report::under_density;
use gdsfill::fill::sizing::snap_up;
use gdsfill::fill::sizing::Sizing;
use gdsfill::fill::square::fill_square_tile;
use gdsfill::fill::tile::TileSite;
use gdsfill::fill::track::fill_track_tile;
use gdsfill::fill::track::TrackGrid;
use gdsfill::fill::TileCtx;
use gdsfill::geom::Point;
use gdsfill::geom::Polygon;
use gdsfill::geom::Rect;
use gdsfill::layout::Boundary;
use gdsfill::layout::Cell;
use gdsfill::layout::Element;
use gdsfill::layout::Layout;
use gdsfill::layout::LayoutError;
use gdsfill::layout::StructRef;
use gdsfill::pdk::gf180mcu;
use gdsfill::pdk::ihp_sg13;
use gdsfill::pdk::FillAlgorithm;
use gdsfill::pdk::OverlapParams;
use gdsfill::pdk::PdkConstants;
use gdsfill::pdk::PdkLayer;
use gdsfill::pdk::SquareParams;
use gdsfill::pdk::TrackOrientation;
use gdsfill::pdk::TrackParams;
use gdsfill::survey::LayerSurvey;
use gdsfill::touch::Keepout;
use gdsfill::touch::Outline;
use gdsfill::LayerMap;
use gdsfill::RunContext;

fn rect(x0: i64, y0: i64, x1: i64, y1: i64) -> Rect {
    Rect { x0, y0, x1, y1 }
}

fn context(target_percent: i64, tile: Rect) -> TileCtx {
    TileCtx {
        running: 0,
        target_density: target_percent * 1_000_000,
        deviation: 2_000_000,
        db_unit_nm: 1,
        tile_area: 2 * tile.area(),
        grid_dbu: 5,
        chip_corner: Point { x: 0, y: 0 },
    }
}

fn squares(width: i64, space: i64) -> SquareParams {
    SquareParams {
        min_width: width,
        max_width: width,
        min_space: space,
        max_space: space,
        clipping: true,
        origin_nm: (0, 0),
    }
}

fn overlap(extension: i64, cover: bool) -> OverlapParams {
    OverlapParams {
        min_width: 100,
        max_width: 500,
        min_extension: extension,
        min_space: 100,
        ref_layer: "A".to_string(),
        cover,
    }
}

fn tracks(orientation: TrackOrientation) -> TrackParams {
    TrackParams {
        min_width: 100,
        max_width: 400,
        min_space: 100,
        max_space: 1000,
        orientation,
        gaps: 100,
        cell_height: 3780,
        aggressive_fill: false,
        pass_fracs: vec![1000, 500],
        free_heights_nm: vec![400, 100],
    }
}

fn gap(a: &Rect, b: &Rect) -> i64 {
    let dx = (b.x0 - a.x1).max(a.x0 - b.x1);
    let dy = (b.y0 - a.y1).max(a.y0 - b.y1);
    dx.max(dy)
}

fn all_apart(rects: &[Rect], space: i64) -> bool {
    (0..rects.len()).all(|i| (0..i).all(|j| gap(&rects[i], &rects[j]) >= space))
}

fn shape(layer: i16, datatype: i16, x0: i32, y0: i32, x1: i32, y1: i32) -> Element {
    Element::Boundary(Boundary { layer, datatype, xy: vec![(x0, y0), (x1, y0), (x1, y1), (x0, y1), (x0, y0)] })
}

fn top(elems: Vec<Element>) -> Layout {
    Layout { cells: vec![Cell { name: "TOP".to_string(), elems }] }
}

fn only(names: &[&str], algorithm: Option<AlgorithmKind>) -> FillConfig {
    FillConfig {
        pdk: None,
        layers: Some(
            names
                .iter()
                .map(|n| (n.to_string(), LayerFillConfig { density: 35_000_000, deviation: 5_000_000, algorithm }))
                .collect(),
        ),
    }
}

fn gf(names: &[&str]) -> RunContext {
    RunContext::new("gf180mcuA", Some(only(names, None)), None).ok().unwrap()
}

fn run(plan: &LayerPlan) -> Vec<TileFill> {
    tile_order(plan.grid.nx, plan.grid.ny).into_iter().map(|(ix, iy)| plan.tile(ix, iy).unwrap()).collect()
}

#[test]
fn lattice_shifts_every_second_column() {
    let lattice = Lattice { anchor: Point { x: 0, y: 0 }, size: 20, space: 20 };
    let expected = vec![
        rect(0, 0, 20, 20),
        rect(0, 40, 20, 60),
        rect(0, 80, 20, 100),
        rect(40, 20, 60, 40),
        rect(40, 60, 60, 80),
        rect(80, 0, 100, 20),
        rect(80, 40, 100, 60),
        rect(80, 80, 100, 100),
    ];
    let tile = rect(0, 0, 100, 100);
    assert_eq!(iter_fill_positions(&tile, &lattice, false), expected);
    assert_eq!(generate_fill(&tile, &Vec::new(), &lattice, 20, false), expected);
    let blocked = generate_fill(&tile, &vec![Keepout::of_rect(rect(45, 25, 50, 30))], &lattice, 20, false);
    assert_eq!(blocked.len(), 7);
    assert!(!blocked.contains(&rect(40, 20, 60, 40)));
    assert!(all_apart(&expected, 20));
}

#[test]
fn lattice_continues_across_tiles() {
    let lattice = Lattice { anchor: Point { x: 0, y: 0 }, size: 20, space: 20 };
    let right = iter_fill_positions(&rect(100, 0, 200, 100), &lattice, false);
    assert_eq!(right[0], rect(120, 20, 140, 40));
}

#[test]
fn squares_are_clipped_to_the_tile() {
    let lattice = Lattice { anchor: Point { x: 0, y: 0 }, size: 20, space: 20 };
    let tile = rect(0, 0, 95, 30);
    let clipped = generate_fill(&tile, &Vec::new(), &lattice, 10, true);
    assert_eq!(
        clipped,
        vec![rect(0, 0, 20, 20), rect(40, 20, 60, 30), rect(80, 0, 95, 20)]
    );
    assert_eq!(generate_fill(&tile, &Vec::new(), &lattice, 20, true), vec![rect(0, 0, 20, 20)]);
    assert_eq!(clip_to_tile(&rect(-5, 5, 10, 40), &tile), rect(0, 5, 10, 30));
    assert!(is_valid_placement(&tile, &rect(80, 0, 100, 20), &Vec::new(), true));
    assert!(!is_valid_placement(&tile, &rect(80, 0, 100, 20), &Vec::new(), false));
    assert!(!is_valid_placement(&tile, &rect(90, 0, 110, 20), &Vec::new(), true));
}

#[test]
fn sizes_follow_the_coverage() {
    let s = Sizing { min_width: 2000, max_width: 10000, min_space: 800, max_space: 8000, step: 20 };
    assert_eq!(s.analytical_params(250_000_000_000), (8000, 8000));
    assert_eq!(s.analytical_params(0), (2000, 8000));
    assert_eq!(s.analytical_params(1_000_000_000_000), (10000, 800));
    let (size, space) = s.analytical_params(640_000_000_000);
    assert_eq!((size, space), (10000, 2500 / 20 * 20));
    assert_eq!(snap_up(2001, 20), 2020);
    assert_eq!(snap_up(2000, 20), 2000);
}

#[test]
fn square_fill_keeps_space_from_the_tile_edge() {
    let tile = rect(0, 0, 20_000, 20_000);
    let out = fill_square_tile(&tile, &Vec::new(), &squares(1000, 1000), &context(9, tile));
    assert_eq!(out.len(), 9);
    assert_eq!(out[0], rect(4000, 6000, 6000, 8000));
    assert_eq!(measure(&out), 9 * 2 * 2000 * 2000);
    assert!(all_apart(&out, 2000));
    assert!(out.iter().all(|r| r.x0 > 2000 && r.y0 > 2000 && r.x1 < 18_000 && r.y1 < 18_000));
}

#[test]
fn square_fill_stops_at_the_target() {
    let tile = rect(0, 0, 20_000, 20_000);
    let full = TileCtx { running: 2 * tile.area() / 10, ..context(10, tile) };
    assert!(fill_square_tile(&tile, &Vec::new(), &squares(1000, 1000), &full).is_empty());
    let near = TileCtx { running: 2 * tile.area() * 9 / 100, ..context(10, tile) };
    assert!(fill_square_tile(&tile, &Vec::new(), &squares(1000, 1000), &near).is_empty());
    let short = TileCtx { running: 2 * tile.area() * 8 / 100, ..context(10, tile) };
    assert!(!fill_square_tile(&tile, &Vec::new(), &squares(1000, 1000), &short).is_empty());
}

#[test]
fn square_fill_searches_for_the_density() {
    let tile = rect(0, 0, 200_000, 200_000);
    let sq = SquareParams { max_width: 5000, max_space: 4000, ..squares(1000, 400) };
    let out = fill_square_tile(&tile, &Vec::new(), &sq, &context(30, tile));
    let percent = measure(&out) * 100 / (2 * tile.area());
    assert!((28..=32).contains(&percent));
}

#[test]
fn square_fill_starts_at_its_origin() {
    let tile = rect(0, 0, 20_000, 20_000);
    let moved = SquareParams { origin_nm: (500, 0), ..squares(1000, 1000) };
    let out = fill_square_tile(&tile, &Vec::new(), &moved, &context(9, tile));
    assert!(out.iter().all(|r| (r.x0 - 1000) % 4000 == 0));
}

#[test]
fn origins_share_no_square() {
    let tile = rect(0, 0, 20_000, 20_000);
    let place = |origin_nm| {
        let sq = SquareParams { origin_nm, ..squares(1000, 1000) };
        fill_square_tile(&tile, &Vec::new(), &sq, &context(9, tile))
    };
    let base = place((0, 0));
    assert!(!base.is_empty());
    for origin in [(500, 0), (0, 500), (4000, 500)] {
        let moved = place(origin);
        assert!(!moved.is_empty());
        assert!(moved.iter().all(|r| !base.contains(r)));
    }
}

#[test]
fn lattices_of_different_pitch_can_meet() {
    let tile = rect(0, 0, 20_000, 20_000);
    let room = rect(6640, 6640, 8640, 8640);
    let keepouts = || {
        vec![
            Keepout::of_rect(rect(0, 0, room.x0 - 1, 20_000)),
            Keepout::of_rect(rect(room.x1 + 1, 0, 20_000, 20_000)),
            Keepout::of_rect(rect(0, 0, 20_000, room.y0 - 1)),
            Keepout::of_rect(rect(0, room.y1 + 1, 20_000, 20_000)),
        ]
    };
    let ctx = TileCtx { target_density: 21_522_383, deviation: 100_000, ..context(0, tile) };
    for origin in [0, 500] {
        let sq = SquareParams {
            min_space: 400,
            max_space: 6000,
            clipping: false,
            origin_nm: (origin, origin),
            ..squares(1000, 1000)
        };
        assert_eq!(fill_square_tile(&tile, &keepouts(), &sq, &ctx), vec![room]);
    }
}

#[test]
fn squares_of_neighbouring_tiles_stay_apart() {
    let (a, b) = (rect(0, 0, 20_000, 20_000), rect(20_000, 0, 40_000, 20_000));
    let left = fill_square_tile(&a, &Vec::new(), &squares(1000, 1000), &context(9, a));
    let right = fill_square_tile(&b, &Vec::new(), &squares(1000, 1000), &context(9, b));
    assert!(left.iter().all(|r| right.iter().all(|s| gap(r, s) > 4000)));
}

#[test]
fn covering_fill_extends_references() {
    let tile = rect(0, 0, 1000, 1000);
    let refs = vec![rect(100, 100, 300, 300), rect(600, 600, 700, 700)];
    let out = fill_overlap_tile(&Vec::new(), &overlap(50, true), &refs, &context(50, tile));
    assert_eq!(out, vec![rect(0, 0, 400, 400), rect(500, 500, 800, 800)]);
    let keepout = vec![Keepout::of_rect(rect(400, 400, 410, 410))];
    let out = fill_overlap_tile(&keepout, &overlap(50, true), &refs, &context(50, tile));
    assert_eq!(out, vec![rect(500, 500, 800, 800)]);
    assert!(fill_overlap_tile(&Vec::new(), &overlap(50, true), &Vec::new(), &context(50, tile)).is_empty());
}

#[test]
fn stripes_take_the_height_that_is_missing() {
    let tile = rect(0, 0, 1000, 1000);
    let out = fill_overlap_tile(&Vec::new(), &overlap(0, false), &vec![rect(0, 0, 600, 600)], &context(12, tile));
    assert_eq!(out, vec![rect(0, 200, 600, 400)]);
    let extended = fill_overlap_tile(&Vec::new(), &overlap(20, false), &vec![rect(0, 0, 600, 600)], &context(99, tile));
    assert_eq!(extended, vec![rect(-40, 40, 640, 560)]);
}

#[test]
fn stripes_need_room() {
    let tile = rect(0, 0, 1000, 1000);
    let low = vec![rect(0, 0, 600, 190)];
    assert!(fill_overlap_tile(&Vec::new(), &overlap(0, false), &low, &context(12, tile)).is_empty());
}

#[test]
fn track_fill_stays_in_the_core() {
    let tile = rect(0, 0, 20_000, 20_000);
    let core = rect(1000, 3000, 15_000, 30_000);
    for orientation in [TrackOrientation::Horizontal, TrackOrientation::Vertical] {
        let out = fill_track_tile(
            &tile,
            &vec![Keepout::of_rect(rect(5000, 5000, 9000, 9000))],
            &tracks(orientation),
            &[core.to_polygon()],
            &context(30, tile),
            &Point { x: 1000, y: 3000 },
        );
        assert!(!out.is_empty());
        assert!(all_apart(&out, 201));
        assert!(out.iter().all(|r| core.encloses(r) && tile.encloses(r)));
        assert!(out.iter().all(|r| !r.intersects(&rect(5000, 5000, 9000, 9000))));
    }
}

#[test]
fn track_fill_stays_on_its_tracks() {
    let tile = rect(0, 0, 20_000, 20_000);
    let core = [rect(0, 0, 20_000, 20_000).to_polygon()];
    let blocked: Vec<Keepout> = (0..100).map(|k| Keepout::of_rect(rect(200 * k - 20, 0, 200 * k + 20, 20_000))).collect();
    let tp = tracks(TrackOrientation::Vertical);
    let none = fill_track_tile(&tile, &blocked, &tp, &core, &context(60, tile), &Point { x: 0, y: 0 });
    assert!(none.is_empty());
    for orientation in [TrackOrientation::Horizontal, TrackOrientation::Vertical] {
        let tp = tracks(orientation);
        let out = fill_track_tile(&tile, &Vec::new(), &tp, &core, &context(60, tile), &Point { x: 60, y: 130 });
        assert!(!out.is_empty());
        assert!(out.iter().all(|r| match orientation {
            TrackOrientation::Vertical => (r.x0 + r.x1 - 2 * 60) % 400 == 0,
            TrackOrientation::Horizontal => (r.y0 + r.y1 - 2 * 130) % 400 == 0,
        }));
    }
}

#[test]
fn track_sizes_follow_the_pitch() {
    let grid = TrackGrid {
        gaps: 960,
        min_space: 840,
        min_size: 2000,
        max_size: 10_000,
        step: 20,
        orientation: TrackOrientation::Vertical,
    };
    assert_eq!(grid.list_perp_sizes(&vec![1000, 600, 300], 10), vec![9600, 5760, 2880, 2000]);
    assert_eq!(grid.list_perp_sizes(&vec![50], 10), vec![2000]);
}

#[test]
fn track_fill_keeps_space_between_tiles() {
    let (a, b) = (rect(0, 0, 20_000, 20_000), rect(20_000, 0, 40_000, 20_000));
    let core = [rect(0, 0, 40_000, 20_000).to_polygon()];
    let tp = tracks(TrackOrientation::Horizontal);
    let origin = Point { x: 0, y: 0 };
    let left = fill_track_tile(&a, &Vec::new(), &tp, &core, &context(40, a), &origin);
    let right = fill_track_tile(&b, &Vec::new(), &tp, &core, &context(40, b), &origin);
    assert!(!left.is_empty() && !right.is_empty());
    assert!(left.iter().all(|r| right.iter().all(|s| s.x0 - r.x1 >= 200)));
}

#[test]
fn track_fill_needs_a_core() {
    let tile = rect(0, 0, 20_000, 20_000);
    let none: Vec<Polygon> = Vec::new();
    let out = fill_track_tile(
        &tile,
        &Vec::new(),
        &tracks(TrackOrientation::Vertical),
        &none,
        &context(30, tile),
        &Point { x: 0, y: 0 },
    );
    assert!(out.is_empty());
}

#[test]
fn algorithms_fill_what_is_left() {
    let tile = rect(0, 0, 20_000, 20_000);
    let outline = Outline::new(&[rect(0, 0, 20_000, 9_000).to_polygon()]);
    let site = TileSite {
        tile,
        outline: &outline,
        refs: vec![rect(15_000, 2000, 16_000, 3000)],
        cores: vec![tile.to_polygon()],
        phase: Point { x: 0, y: 0 },
        ctx: context(40, tile),
    };
    let algorithms = vec![
        FillAlgorithm::Square(squares(1000, 1000)),
        FillAlgorithm::Overlap(overlap(0, true)),
        FillAlgorithm::Track(tracks(TrackOrientation::Horizontal)),
    ];
    let all = site.fill(Vec::new(), &algorithms, None).unwrap();
    assert!(all.iter().all(|r| r.y0 + r.y1 < 18_000));
    assert!(all_apart(&all, 201));
    assert!(all.contains(&rect(4000, 6000, 6000, 8000)));
    assert!(all.contains(&rect(15_000, 2000, 16_000, 3000)));
    let squares_only = site.fill(Vec::new(), &algorithms, Some(AlgorithmKind::Square)).unwrap();
    assert!(squares_only.iter().all(|r| r.x1 - r.x0 == 2000));
    assert!(squares_only.len() < all.len());
}

#[test]
fn crossed_sizes_fail_where_fill_is_wanted() {
    let tile = rect(0, 0, 20_000, 20_000);
    let outline = Outline::new(&[tile.to_polygon()]);
    let crossed = OverlapParams { min_width: 101, max_width: 104, ..overlap(0, false) };
    let algorithms = vec![FillAlgorithm::Overlap(crossed)];
    let site = |refs, percent| TileSite {
        tile,
        outline: &outline,
        refs,
        cores: vec![],
        phase: Point { x: 0, y: 0 },
        ctx: context(percent, tile),
    };
    let refs = vec![rect(15_000, 2000, 16_000, 3000)];
    assert_eq!(site(refs.clone(), 40).fill(Vec::new(), &algorithms, None), None);
    assert_eq!(site(refs.clone(), 0).fill(Vec::new(), &algorithms, None), Some(vec![]));
    assert_eq!(site(vec![], 40).fill(Vec::new(), &algorithms, None), Some(vec![]));
    assert_eq!(site(refs, 40).fill(Vec::new(), &algorithms, Some(AlgorithmKind::Square)), Some(vec![]));
}

#[test]
fn tiles_in_rows() {
    assert_eq!(tile_order(2, 2), vec![(0, 0), (1, 0), (0, 1), (1, 1)]);
    assert!(tile_order(0, 5).is_empty());
}

#[test]
fn metal_fill_keeps_its_rules() {
    let ctx = gf(&["Metal1"]);
    let layout = top(vec![shape(0, 0, 0, 0, 40_000, 40_000), shape(34, 0, 8000, 8000, 16_000, 16_000)]);
    let targets = target_positions(&ctx);
    assert_eq!(targets, vec![2]);
    let chip = Chip::load(&ctx, &layout, &targets, Purpose::Fill).unwrap();
    assert_eq!(chip.area, rect(0, 0, 80_000, 80_000));
    assert_eq!(chip.density_area, 2 * 80_000 * 80_000);
    let plan = LayerPlan::new(&ctx, &chip, 2, &Vec::new()).unwrap();
    assert_eq!((plan.grid.nx, plan.grid.ny), (2, 2));
    let tiles = run(&plan);
    assert_eq!(tiles[0].draw_area, 2 * 16_000 * 16_000);
    assert_eq!(tiles[1].draw_area, 0);
    let rects = collect_rects(&tiles);
    assert!(!rects.is_empty());
    let drawn = rect(16_000, 16_000, 32_000, 32_000);
    let inner = rect(10_400, 10_400, 69_600, 69_600);
    assert!(rects.iter().all(|r| gap(r, &drawn) > 800));
    assert!(rects.iter().all(|r| inner.encloses(r)));
    assert!(all_apart(&rects, 480));
    let mut output = FillOutput::new();
    assert_eq!(output.add_layer(plan.layer, &tiles), rects.len());
    assert_eq!(output.boundaries.len(), rects.len());
    assert_eq!((output.boundaries[0].layer, output.boundaries[0].datatype), (34, 4));
    assert_eq!(output.placed.len(), 1);
    assert_eq!(output.placed[0].key, (34, 4));
    assert_eq!(output.placed[0].rects, rects);
    let first = rects[0];
    assert_eq!(output.boundaries[0].xy[0], ((first.x0 / 2) as i32, (first.y0 / 2) as i32));
    assert!(output.add_inspection(&plan));
    assert_eq!(output.boundaries.len(), rects.len() + plan.keepouts.len() + 1);
    assert_eq!(output.boundaries[rects.len()].datatype, 250);
    assert_eq!(output.boundaries[rects.len() + plan.keepouts.len()].datatype, 251);
    let totals = total_areas(&tiles).unwrap();
    assert_eq!(totals.draw, 2 * 16_000 * 16_000);
    assert_eq!(totals.old, 0);
    assert_eq!(totals.new, measure(&rects));
    assert_eq!(under_density(&tiles, 100_000_000, 0), vec![0, 1, 2, 3]);
    assert!(under_density(&tiles, 0, 0).is_empty());
}

fn outline_of(layer: i16, xy: &[(i32, i32)]) -> Element {
    let mut xy = xy.to_vec();
    xy.push(xy[0]);
    Element::Boundary(Boundary { layer, datatype: 0, xy })
}

#[test]
fn fill_keeps_off_metal_inside_an_l() {
    let ctx = gf(&["Metal1"]);
    let l = [(6000, 6000), (34_000, 6000), (34_000, 8000), (8000, 8000), (8000, 34_000), (6000, 34_000)];
    let layout = top(vec![
        shape(0, 0, 0, 0, 40_000, 40_000),
        outline_of(34, &l),
        shape(34, 0, 18_000, 18_000, 22_000, 22_000),
    ]);
    let chip = Chip::load(&ctx, &layout, &target_positions(&ctx), Purpose::Fill).unwrap();
    assert_eq!(chip.map.polygons(34, 0).len(), 2);
    let plan = LayerPlan::new(&ctx, &chip, 2, &Vec::new()).unwrap();
    assert_eq!(plan.drawing.len(), 1);
    let rects = collect_rects(&run(&plan));
    let inner = rect(36_000, 36_000, 44_000, 44_000);
    assert!(rects.iter().any(|r| gap(r, &inner) < 4000));
    assert!(rects.iter().all(|r| gap(r, &inner) >= 800));
    assert!(rects.iter().all(|r| gap(r, &rect(12_000, 12_000, 68_000, 16_000)) >= 800));
    assert!(rects.iter().all(|r| gap(r, &rect(12_000, 12_000, 16_000, 68_000)) >= 800));
}

#[test]
fn fill_keeps_off_metal_inside_a_ring() {
    let ctx = gf(&["Metal1"]);
    let ring = [
        (6000, 6000),
        (34_000, 6000),
        (34_000, 34_000),
        (6000, 34_000),
        (6000, 7000),
        (7000, 7000),
        (7000, 33_000),
        (33_000, 33_000),
        (33_000, 7000),
        (6000, 7000),
    ];
    let mut elems = vec![shape(0, 0, 0, 0, 40_000, 40_000), outline_of(34, &ring)];
    for k in 0..4 {
        elems.push(shape(34, 0, 10_000 + 5000 * k, 12_000, 12_000 + 5000 * k, 30_000));
    }
    let layout = top(elems);
    let chip = Chip::load(&ctx, &layout, &target_positions(&ctx), Purpose::Fill).unwrap();
    let plan = LayerPlan::new(&ctx, &chip, 2, &Vec::new()).unwrap();
    let rects = collect_rects(&run(&plan));
    assert!(!rects.is_empty());
    for k in 0..4 {
        let bar = rect(20_000 + 10_000 * k, 24_000, 24_000 + 10_000 * k, 60_000);
        assert!(rects.iter().all(|r| gap(r, &bar) >= 800));
    }
    let marked = top(vec![
        shape(0, 0, 0, 0, 40_000, 40_000),
        shape(75, 0, 18_000, 18_000, 22_000, 22_000),
    ]);
    let chip = Chip::load(&ctx, &marked, &target_positions(&ctx), Purpose::Fill).unwrap();
    let plan = LayerPlan::new(&ctx, &chip, 2, &Vec::new()).unwrap();
    let rects = collect_rects(&run(&plan));
    assert!(rects.iter().all(|r| gap(r, &rect(36_000, 36_000, 44_000, 44_000)) >= 2400));
}

#[test]
fn fill_avoids_grown_triangles() {
    let ctx = gf(&["Metal1"]);
    let triangle = Element::Boundary(Boundary {
        layer: 34,
        datatype: 0,
        xy: vec![(8000, 8000), (30_000, 8000), (8000, 30_000), (8000, 8000)],
    });
    let layout = top(vec![shape(0, 0, 0, 0, 40_000, 40_000), triangle]);
    let chip = Chip::load(&ctx, &layout, &target_positions(&ctx), Purpose::Fill).unwrap();
    let plan = LayerPlan::new(&ctx, &chip, 2, &Vec::new()).unwrap();
    let rects = collect_rects(&run(&plan));
    assert!(rects.iter().any(|r| r.x0 > 32_000 && r.x1 < 60_000 && r.y0 > 32_000 && r.y1 < 60_000));
    assert!(rects.iter().all(|r| r.x0 + r.y0 > 76_000 + 1000 || r.x1 < 16_000 || r.y1 < 16_000));
}

#[test]
fn erasing_undoes_filling() {
    let ctx = gf(&["Metal1"]);
    let mut layout = top(vec![shape(0, 0, 0, 0, 40_000, 40_000), shape(34, 0, 8000, 8000, 16_000, 16_000)]);
    let targets = target_positions(&ctx);
    let chip = Chip::load(&ctx, &layout, &targets, Purpose::Fill).unwrap();
    let plan = LayerPlan::new(&ctx, &chip, 2, &Vec::new()).unwrap();
    let mut output = FillOutput::new();
    assert!(output.add_inspection(&plan));
    let count = output.add_layer(plan.layer, &run(&plan));
    let inspected = output.boundaries.len() - count;
    let before = layout.cells[0].elems.len();
    layout.cells[0].elems.extend(output.boundaries.into_iter().map(Element::Boundary));
    let erasure = plan_erase(&layout, &erase_targets(&ctx));
    assert_eq!(erasure.erased_fill, count as u128);
    assert_eq!(erasure.erased_debug, inspected as u128);
    assert!(erasure.keep[0].iter().enumerate().all(|(i, &k)| k == (i < before)));
}

#[test]
fn drawn_fill_counts_as_old() {
    let ctx = gf(&["Metal1"]);
    let layout = top(vec![shape(0, 0, 0, 0, 40_000, 40_000), shape(34, 4, 8000, 8000, 16_000, 16_000)]);
    let targets = target_positions(&ctx);
    let chip = Chip::load(&ctx, &layout, &targets, Purpose::Fill).unwrap();
    let plan = LayerPlan::new(&ctx, &chip, 2, &Vec::new()).unwrap();
    let tiles = run(&plan);
    assert_eq!((tiles[0].draw_area, tiles[0].old_area), (0, 2 * 16_000 * 16_000));
}

#[test]
fn poly_covers_dummy_comp() {
    let ctx = gf(&["COMP", "Poly2"]);
    let layout = top(vec![shape(0, 0, 0, 0, 40_000, 40_000)]);
    let targets = target_positions(&ctx);
    let chip = Chip::load(&ctx, &layout, &targets, Purpose::Fill).unwrap();
    let comp = LayerPlan::new(&ctx, &chip, 0, &Vec::new()).unwrap();
    let rects = collect_rects(&run(&comp));
    assert!(!rects.is_empty());
    assert!(rects.iter().all(|r| r.x1 - r.x0 == 2000 && r.y1 - r.y0 == 2000));
    assert!(all_apart(&rects, 1200));
    let placed = vec![PlacedLayer { key: (22, 4), rects }];
    let poly = LayerPlan::new(&ctx, &chip, 1, &placed).unwrap();
    assert_eq!(poly.refs.len(), placed[0].rects.len());
    let covers = collect_rects(&run(&poly));
    assert!(!covers.is_empty());
    assert!(covers.iter().all(|r| placed[0].rects.contains(&rect(r.x0 + 120, r.y0 + 120, r.x1 - 120, r.y1 - 120))));
}

#[test]
fn comp_fill_avoids_narrow_gaps_and_wells() {
    let ctx = gf(&["COMP"]);
    let layout = top(vec![
        shape(0, 0, 0, 0, 40_000, 40_000),
        shape(22, 0, 10_000, 10_000, 12_000, 30_000),
        shape(22, 0, 15_000, 10_000, 17_000, 30_000),
        shape(21, 0, 22_000, 10_000, 30_000, 30_000),
    ]);
    let targets = target_positions(&ctx);
    let chip = Chip::load(&ctx, &layout, &targets, Purpose::Fill).unwrap();
    let plan = LayerPlan::new(&ctx, &chip, 0, &Vec::new()).unwrap();
    let rects = collect_rects(&run(&plan));
    assert!(!rects.is_empty());
    let closed = rect(20_000 - 1400, 20_000 - 1400, 34_000 + 1400, 60_000 + 1400);
    assert!(rects.iter().all(|r| !r.intersects(&closed)));
    let (outer, inner) = (rect(43_480, 19_480, 60_520, 60_520), rect(44_520, 20_520, 59_480, 59_480));
    assert!(rects.iter().all(|r| !r.intersects(&outer) || inner.encloses(r)));
    assert!(rects.iter().any(|r| inner.encloses(r)));
}

#[test]
fn densities_of_a_layer() {
    let ctx = gf(&["Metal1"]);
    let layout = top(vec![
        shape(0, 0, 0, 0, 40_000, 40_000),
        shape(34, 0, 0, 0, 8000, 8000),
        shape(34, 0, 4000, 0, 12_000, 8000),
        shape(34, 4, 20_000, 0, 24_000, 8000),
    ]);
    let targets = target_positions(&ctx);
    let chip = Chip::load(&ctx, &layout, &targets, Purpose::Density).unwrap();
    let survey = LayerSurvey::new(&ctx, &chip, 2).unwrap();
    assert_eq!((survey.grid.nx, survey.grid.ny), (1, 1));
    let d = survey.tile(0, 0).unwrap();
    assert_eq!(d.draw_area, 2 * 24_000 * 16_000);
    assert_eq!(d.fill_area, 2 * 8_000 * 16_000);
    assert_eq!(d.tile_area, 2 * 80_000 * 80_000);
    let totals = total_densities(&vec![d, d]).unwrap();
    assert_eq!((totals.draw, totals.fill), (4 * 24_000 * 16_000, 4 * 8_000 * 16_000));
    let huge = TileDensity { draw_area: i128::MAX, fill_area: 0, tile_area: 1 };
    assert_eq!(total_densities(&vec![huge, d]), None);
}

fn ihp_layer(gds_layer: i16) -> PdkLayer {
    PdkLayer {
        gds_layer,
        drawing_datatype: 0,
        fill_datatype: 22,
        nofill_datatype: Some(23),
        max_depth: 10,
        algorithms: vec![
            FillAlgorithm::Track(tracks(TrackOrientation::Horizontal)),
            FillAlgorithm::Square(squares(1000, 420)),
        ],
        default_density: 40_000_000,
        default_deviation: 5_000_000,
        tile_width_nm: 20_000,
        merge_for_density: false,
        merge_window_nm: None,
    }
}

fn ihp_table() -> PdkConstants {
    let layers = [
        ("Metal1", 8),
        ("Activ", 1),
        ("GatPoly", 5),
        ("Metal2", 10),
        ("Metal3", 30),
        ("Metal4", 50),
        ("Metal5", 67),
        ("TopMetal1", 126),
        ("TopMetal2", 134),
    ];
    PdkConstants {
        layers: layers.iter().map(|&(name, gds)| (name.to_string(), ihp_layer(gds))).collect(),
        db_unit_nm: 1,
        tile_width_nm: 800_000,
        fill_boundary_layer: Some((39, 0)),
        density_boundary_layer: Some((39, 4)),
        grid_dbu: 5,
    }
}

#[test]
fn core_rows_anchor_the_tracks() {
    let ctx = RunContext::new("ihp-sg13g2", None, Some(ihp_table())).ok().unwrap();
    let layout = top(vec![
        shape(39, 0, 0, 0, 40_000, 40_000),
        shape(39, 4, -1000, -1000, 41_000, 41_000),
        shape(189, 4, 5000, 6000, 15_000, 9780),
        shape(189, 4, 5000, 9780, 14_000, 13_560),
        shape(189, 4, 0, 0, 50_000, 30_000),
        shape(8, 23, 7000, 7000, 8000, 8000),
    ]);
    let targets = target_positions(&ctx);
    let chip = Chip::load(&ctx, &layout, &targets, Purpose::Fill).unwrap();
    assert_eq!(chip.cores.len(), 1);
    assert_eq!(chip.cores[0].bounding_rect(), Some(rect(10_000, 12_000, 30_000, 27_120)));
    assert_eq!(chip.density_area, 2 * 84_000 * 84_000);
    let plan = LayerPlan::new(&ctx, &chip, 0, &Vec::new()).unwrap();
    assert_eq!(plan.phase, Point { x: 10_000, y: 12_000 });
    let rects = collect_rects(&run(&plan));
    assert!(!rects.is_empty());
    assert!(rects.iter().all(|r| gap(r, &rect(14_000, 14_000, 16_000, 16_000)) > 0));
}

#[test]
fn ihp_keepouts_surround_drawn_metal() {
    let table = ihp_table();
    let layout = top(vec![shape(8, 0, 0, 0, 1000, 1000)]);
    let map = LayerMap::build(&layout).unwrap();
    let out = ihp_sg13::build_keepout(&map, "Metal1", &table.layers[0].1, 1);
    assert_eq!(out.len(), 1);
    let b = out[0].bounding_rect().unwrap();
    assert!(b.x0 < 0 && b.x0 == b.y0 && b.x1 == 2000 - b.x0);
    assert!(ihp_sg13::build_keepout(&map, "Other", &table.layers[0].1, 1).is_empty());
    assert!(ihp_sg13::compute_core_area(&map, 1).is_empty());
}

#[test]
fn die_edge_is_kept_out() {
    let b = gf180mcu::for_variant('B').unwrap();
    let map = LayerMap::build(&top(vec![])).unwrap();
    let out = gf180mcu::build_keepout(&map, &rect(0, 0, 80_000, 80_000), "Metal1", &b.layers[2].1, 5).unwrap();
    assert_eq!(out.len(), 4);
    assert_eq!(out[0].bounding_rect(), Some(rect(0, 0, 10_400, 80_000)));
    assert!(gf180mcu::build_keepout(&map, &rect(0, 0, 9, 9), "Other", &b.layers[2].1, 5).unwrap().is_empty());
}

#[test]
fn loading_errors() {
    let ctx = gf(&["Metal1"]);
    let targets = target_positions(&ctx);
    let load = |c: &RunContext, l: &Layout| Chip::load(c, l, &targets, Purpose::Fill).err();
    assert_eq!(load(&ctx, &top(vec![])), Some(RunError::BoundaryMissing(0, 0)));
    let mut no_layer = gf(&["Metal1"]);
    no_layer.pdk.fill_boundary_layer = None;
    assert_eq!(load(&no_layer, &top(vec![])), Some(RunError::NoBoundaryLayer));
    let mut no_unit = gf(&["Metal1"]);
    no_unit.pdk.db_unit_nm = 0;
    assert_eq!(load(&no_unit, &top(vec![])), Some(RunError::Unusable));
    let far = top(vec![shape(0, 0, 0, 0, i32::MAX, 1)]);
    assert_eq!(load(&ctx, &far), Some(RunError::Layout(LayoutError::OutOfRange)));
    let own = Layout {
        cells: vec![
            Cell {
                name: "TOP".to_string(),
                elems: vec![Element::StructRef(StructRef { name: "A".to_string(), xy: (0, 0), strans: None })],
            },
            Cell {
                name: "A".to_string(),
                elems: vec![Element::StructRef(StructRef { name: "A".to_string(), xy: (0, 0), strans: None })],
            },
        ],
    };
    assert_eq!(load(&ctx, &own), Some(RunError::Layout(LayoutError::Recursion)));
    assert_eq!(fill_cell(&own), Some(0));
}

#[test]
fn planning_errors() {
    let ctx = gf(&["Metal1"]);
    let targets = target_positions(&ctx);
    let layout = top(vec![shape(0, 0, 0, 0, 40_000, 40_000)]);
    let chip = Chip::load(&ctx, &layout, &targets, Purpose::Fill).unwrap();
    let plan = |c: &RunContext, chip: &Chip| LayerPlan::new(c, chip, 2, &Vec::new()).err();
    assert_eq!(plan(&ctx, &chip), None);
    let mut narrow = gf(&["Metal1"]);
    narrow.pdk.layers[2].1.tile_width_nm = 0;
    assert_eq!(plan(&narrow, &chip), Some(RunError::Unusable));
    let mut dense = gf(&["Metal1"]);
    dense.config = Some(FillConfig {
        pdk: None,
        layers: Some(vec![(
            "Metal1".to_string(),
            LayerFillConfig { density: i64::MAX, deviation: 0, algorithm: None },
        )]),
    });
    assert_eq!(plan(&dense, &chip), Some(RunError::Unusable));
    let line = top(vec![shape(0, 0, 0, 0, 40_000, 0)]);
    let flat = Chip::load(&ctx, &line, &targets, Purpose::Fill).unwrap();
    assert_eq!(plan(&ctx, &flat), Some(RunError::NoTiles));
    let edge = top(vec![shape(0, 0, 0, 0, 40_000, 40_000), shape(22, 0, 0x3fff_ff00, 0, 0x4000_0000, 100)]);
    let far = Chip::load(&gf(&["COMP"]), &edge, &vec![0], Purpose::Fill).unwrap();
    assert_eq!(LayerPlan::new(&ctx, &far, 0, &Vec::new()).err(), Some(RunError::OutOfRange));
    let mut wide = gf(&["Metal1"]);
    wide.pdk.tile_width_nm = -5;
    assert_eq!(LayerSurvey::new(&wide, &chip, 2).err(), Some(RunError::Unusable));
    let drawn = top(vec![shape(0, 0, 0, 0, 40_000, 0), shape(34, 0, 0, 0, 10, 10)]);
    let crowded = Chip::load(&ctx, &drawn, &targets, Purpose::Fill).unwrap();
    assert_eq!(LayerSurvey::new(&ctx, &crowded, 2).err(), Some(RunError::NoTiles));
}

#[test]
fn flat_chips_have_no_tiles() {
    let mut ctx = gf(&["Metal1"]);
    let targets = target_positions(&ctx);
    let line = top(vec![shape(0, 0, 0, 0, 40_000, 0)]);
    let flat = Chip::load(&ctx, &line, &targets, Purpose::Fill).unwrap();
    let survey = LayerSurvey::new(&ctx, &flat, 2).unwrap();
    assert_eq!(survey.grid.nx * survey.grid.ny, 0);
    ctx.pdk.layers[2].0 = "Other".to_string();
    let plan = LayerPlan::new(&ctx, &flat, 2, &Vec::new()).unwrap();
    assert_eq!(plan.grid.nx * plan.grid.ny, 0);
}

#[test]
fn fill_stays_inside_an_uneven_outline() {
    let ctx = gf(&["Metal1"]);
    let layout = top(vec![
        Element::Boundary(Boundary {
            layer: 0,
            datatype: 0,
            xy: vec![(0, 0), (80_000, 0), (80_000, 40_000), (40_000, 40_000), (40_000, 80_000), (0, 80_000), (0, 0)],
        }),
    ]);
    let targets = target_positions(&ctx);
    let chip = Chip::load(&ctx, &layout, &targets, Purpose::Fill).unwrap();
    let plan = LayerPlan::new(&ctx, &chip, 2, &Vec::new()).unwrap();
    let rects = collect_rects(&run(&plan));
    assert!(!rects.is_empty());
    assert!(rects.iter().all(|r| r.x0 + r.x1 < 160_000 || r.y0 + r.y1 < 160_000));
}
