use gdsfill::config::AlgorithmKind;
use gdsfill::config::FillConfig;
use gdsfill::config::LayerFillConfig;
use gdsfill::context::process_family;
use gdsfill::context::target_positions;
use gdsfill::context::unknown_layers;
use gdsfill::context::ContextError;
use gdsfill::context::ProcessFamily;
use gdsfill::erase::erase_targets;
use gdsfill::get_target_layers;
use gdsfill::is_gzip;
use gdsfill::pdk::gf180mcu;
use gdsfill::pdk::ihp_sg13;
use gdsfill::pdk::offset_to_units;
use gdsfill::pdk::to_units;
use gdsfill::pdk::FillAlgorithm;
use gdsfill::pdk::LayerFault;
use gdsfill::pdk::OverlapParams;
use gdsfill::pdk::PdkConstants;
use gdsfill::pdk::PdkFault;
use gdsfill::pdk::PdkLayer;
use gdsfill::pdk::SquareParams;
use gdsfill::pdk::TrackOrientation;
use gdsfill::pdk::TrackParams;
use gdsfill::validate_process;
use gdsfill::RunContext;

fn square(min_width: i64, max_width: i64) -> FillAlgorithm {
    FillAlgorithm::Square(SquareParams {
        min_width,
        max_width,
        min_space: 420,
        max_space: 4000,
        clipping: true,
        origin_nm: (0, 0),
    })
}

fn track(gaps: i64, cell_height: i64) -> FillAlgorithm {
    FillAlgorithm::Track(TrackParams {
        min_width: 1000,
        max_width: 5000,
        min_space: 420,
        max_space: 4000,
        orientation: TrackOrientation::Horizontal,
        gaps,
        cell_height,
        aggressive_fill: false,
        pass_fracs: vec![1000, 500],
        free_heights_nm: vec![5000, 1000],
    })
}

fn layer(gds_layer: i16, algorithms: Vec<FillAlgorithm>) -> PdkLayer {
    PdkLayer {
        gds_layer,
        drawing_datatype: 0,
        fill_datatype: 22,
        nofill_datatype: Some(23),
        max_depth: 10,
        algorithms,
        default_density: 50_000_000,
        default_deviation: 5_000_000,
        tile_width_nm: 100_000,
        merge_for_density: false,
        merge_window_nm: None,
    }
}

fn table(layers: Vec<(&str, PdkLayer)>) -> PdkConstants {
    PdkConstants {
        layers: layers.into_iter().map(|(n, l)| (n.to_string(), l)).collect(),
        db_unit_nm: 1,
        tile_width_nm: 800_000,
        fill_boundary_layer: Some((39, 0)),
        density_boundary_layer: Some((39, 4)),
        grid_dbu: 5,
    }
}

fn config(pdk: Option<&str>, layers: &[&str]) -> FillConfig {
    FillConfig {
        pdk: pdk.map(|s| s.to_string()),
        layers: Some(
            layers
                .iter()
                .map(|n| {
                    let o = LayerFillConfig { density: 60_000_000, deviation: 1_000_000, algorithm: None };
                    (n.to_string(), o)
                })
                .collect(),
        ),
    }
}

#[test]
fn lengths_become_half_units() {
    assert_eq!(to_units(100, 1), 200);
    assert_eq!(to_units(100, 5), 40);
    assert_eq!(to_units(2, 5), 1);
    assert_eq!(to_units(1, 5), 0);
    assert_eq!(offset_to_units(-500, 5), -200);
    assert_eq!(offset_to_units(500, 5), 200);
}

#[test]
fn ihp_rules_read_these_layers() {
    assert_eq!(
        ihp_sg13::needed_layers(),
        vec![
            ihp_sg13::ACTIV,
            ihp_sg13::GATPOLY,
            ihp_sg13::CONT,
            ihp_sg13::NSD_BLK,
            ihp_sg13::PSD,
            ihp_sg13::SALBLOCK,
            ihp_sg13::NWELL,
            ihp_sg13::NBULAY,
            ihp_sg13::PWBLK,
            ihp_sg13::TRANS,
            (189, 4),
        ]
    );
}

#[test]
fn gf_rules_read_these_layers() {
    let v = gf180mcu::needed_layers();
    assert_eq!(v.len(), 24);
    assert_eq!(v[0], gf180mcu::DIE_LAYER);
    assert_eq!(v[1], (22, 0));
    assert_eq!(v[23], (81, 0));
    assert!(v.contains(&(220, 0)));
}

#[test]
fn gf_variants_differ_in_metals() {
    assert_eq!(gf180mcu::for_variant('A').unwrap().layers.len(), 5);
    assert_eq!(gf180mcu::for_variant('B').unwrap().layers.len(), 6);
    assert_eq!(gf180mcu::for_variant('C').unwrap().layers.len(), 7);
    let d = gf180mcu::for_variant('D').unwrap();
    assert_eq!(d.layers.len(), 7);
    assert!(gf180mcu::for_variant('E').is_none());
    let names: Vec<&str> = d.layers.iter().map(|l| l.0.as_str()).collect();
    assert_eq!(names, vec!["COMP", "Poly2", "Metal1", "Metal2", "Metal3", "Metal4", "Metal5"]);
    assert_eq!(d.layers[6].1.gds_layer, 81);
    assert_eq!(d.db_unit_nm, 5);
    assert_eq!(d.tile_width_dbu(), 40_000);
    assert_eq!(d.tile_width_units(), 80_000);
}

#[test]
fn top_metal_keeps_the_wider_space() {
    let b = gf180mcu::for_variant('B').unwrap();
    assert_eq!(gf180mcu::find_square_space(&b.layers[2].1), gf180mcu::DM_SPACE);
    assert_eq!(gf180mcu::find_square_space(&b.layers[5].1), gf180mcu::DM_SPACE_TOP);
    assert_eq!(gf180mcu::find_square_space(&b.layers[1].1), gf180mcu::DM_SPACE);
}

#[test]
fn gf_rule_families() {
    assert_eq!(gf180mcu::find_family("Metal3"), Some(gf180mcu::Family::Metal));
    assert_eq!(gf180mcu::find_family("COMP"), Some(gf180mcu::Family::Comp));
    assert_eq!(gf180mcu::find_family("Poly2"), Some(gf180mcu::Family::Poly2));
    assert_eq!(gf180mcu::find_family("Metal6"), None);
    assert_eq!(gf180mcu::closing(gf180mcu::Family::Comp), Some((10_000, 6_500, 30_000)));
    assert_eq!(gf180mcu::closing(gf180mcu::Family::Poly2), Some((10_000, 6_800, 30_000)));
    assert_eq!(gf180mcu::closing(gf180mcu::Family::Metal), None);
    let wells = gf180mcu::list_well_rules(gf180mcu::Family::Comp);
    assert_eq!(wells.iter().map(|r| r.space).collect::<Vec<i64>>(), vec![1300, 4000, 1300, 1300]);
    assert!(gf180mcu::list_well_rules(gf180mcu::Family::Metal).is_empty());
}

#[test]
fn tables_of_all_variants_are_valid() {
    for v in ['A', 'B', 'C', 'D'] {
        assert!(gf180mcu::for_variant(v).unwrap().validate("gf180mcu").is_ok());
    }
}

#[test]
fn validation_names_the_fault() {
    let fault = |pdk: PdkConstants| {
        let e = pdk.validate("p").err().unwrap();
        assert_eq!(e.process, "p");
        e.fault
    };
    let good = || table(vec![("M1", layer(8, vec![square(1000, 5000)]))]);
    assert!(good().validate("p").is_ok());
    assert_eq!(fault(PdkConstants { db_unit_nm: 0, ..good() }), PdkFault::DatabaseUnit(0));
    assert_eq!(fault(PdkConstants { tile_width_nm: -1, ..good() }), PdkFault::TileWidth(-1));
    assert_eq!(fault(PdkConstants { grid_dbu: 0, ..good() }), PdkFault::Grid(0));
    let one = |l: PdkLayer| fault(table(vec![("M1", layer(8, vec![square(1, 1)])), ("M2", l)]));
    let bad_tile = PdkLayer { tile_width_nm: 0, ..layer(10, vec![square(1, 1)]) };
    assert_eq!(one(bad_tile), PdkFault::Layer(1, LayerFault::TileWidth(0)));
    let bad_window = PdkLayer { merge_window_nm: Some(0), ..layer(10, vec![square(1, 1)]) };
    assert_eq!(one(bad_window), PdkFault::Layer(1, LayerFault::MergeWindow(0)));
    assert_eq!(one(layer(10, vec![])), PdkFault::Layer(1, LayerFault::NoAlgorithm));
    assert_eq!(one(layer(10, vec![track(0, 1)])), PdkFault::Layer(1, LayerFault::TrackPitch(0)));
    assert_eq!(one(layer(10, vec![track(1, 0)])), PdkFault::Layer(1, LayerFault::CellHeight(0)));
    assert_eq!(one(layer(10, vec![square(0, 1)])), PdkFault::Layer(1, LayerFault::MinWidth(0)));
    assert_eq!(one(layer(10, vec![square(5, 4)])), PdkFault::Layer(1, LayerFault::MaxWidth { max: 4, min: 5 }));
}

#[test]
fn processes_by_name() {
    assert_eq!(process_family("ihp-sg13g2"), Some(ProcessFamily::IhpSg13));
    assert_eq!(process_family("ihp-sg13cmos5l"), Some(ProcessFamily::IhpSg13));
    assert_eq!(process_family("gf180mcuC"), Some(ProcessFamily::Gf180mcu));
    assert_eq!(process_family("gf180mcuE"), None);
    assert_eq!(process_family("gf180mcuAA"), None);
    assert_eq!(process_family("sky130"), None);
    assert_eq!(PdkConstants::for_process("gf180mcuA", None).unwrap().layers.len(), 5);
    assert!(PdkConstants::for_process("ihp-sg13g2", None).is_none());
    let named = |names: &[&'static str]| {
        Some(table(names.iter().map(|&n| (n, layer(8, vec![square(1, 1)]))).collect()))
    };
    let small = ["GatPoly", "Activ", "Metal1", "Metal2", "Metal3", "Metal4", "TopMetal1"];
    let large = ["Activ", "GatPoly", "Metal1", "Metal2", "Metal3", "Metal4", "Metal5", "TopMetal1", "TopMetal2"];
    assert_eq!(PdkConstants::for_process("ihp-sg13g2", named(&large)).unwrap().layers.len(), 9);
    assert_eq!(PdkConstants::for_process("ihp-sg13cmos5l", named(&small)).unwrap().layers[0].0, "GatPoly");
    assert!(PdkConstants::for_process("ihp-sg13g2", named(&small)).is_none());
    assert!(PdkConstants::for_process("ihp-sg13cmos5l", named(&large)).is_none());
    let twice = ["Activ", "GatPoly", "Metal1", "Metal2", "Metal3", "Metal3", "TopMetal1"];
    assert!(PdkConstants::for_process("ihp-sg13cmos5l", named(&twice)).is_none());
}

#[test]
fn contexts_reject_mismatch_and_unknown() {
    assert!(RunContext::new("gf180mcuA", None, None).is_ok());
    assert!(RunContext::new("gf180mcuA", Some(config(Some("gf180mcuA"), &[])), None).is_ok());
    match RunContext::new("gf180mcuA", Some(config(Some("gf180mcuB"), &[])), None) {
        Err(ContextError::ProcessMismatch { process, config_pdk }) => {
            assert_eq!(process, "gf180mcuA");
            assert_eq!(config_pdk, "gf180mcuB");
        }
        _ => panic!("no mismatch"),
    }
    match RunContext::new("other", None, None) {
        Err(ContextError::UnknownProcess(p)) => assert_eq!(p, "other"),
        _ => panic!("known"),
    }
    assert!(validate_process("a", &Some(config(None, &[]))).is_ok());
    assert!(validate_process("a", &None).is_ok());
    assert!(validate_process("a", &Some(config(Some("b"), &[]))).is_err());
}

#[test]
fn all_layers_by_gds_number() {
    let ctx = RunContext::new("gf180mcuA", None, None).ok().unwrap();
    let names: Vec<&str> = get_target_layers(&ctx).iter().map(|t| t.0).collect();
    assert_eq!(names, vec!["COMP", "Poly2", "Metal1", "Metal2", "Metal3"]);
    assert_eq!(target_positions(&ctx), vec![0, 1, 2, 3, 4]);
    assert!(unknown_layers(&ctx).is_empty());
}

#[test]
fn configured_layers_by_gds_number() {
    let c = config(None, &["Metal3", "Metal9", "COMP"]);
    let ctx = RunContext::new("gf180mcuA", Some(c), None).ok().unwrap();
    let names: Vec<&str> = get_target_layers(&ctx).iter().map(|t| t.0).collect();
    assert_eq!(names, vec!["COMP", "Metal3"]);
    assert_eq!(unknown_layers(&ctx), vec!["Metal9".to_string()]);
}

#[test]
fn configuration_by_layer() {
    let mut c = config(None, &["A", "B"]);
    if let Some(layers) = &mut c.layers {
        layers[1].1.algorithm = Some(AlgorithmKind::Track);
    }
    assert_eq!(c.layer_names(), vec!["A".to_string(), "B".to_string()]);
    assert_eq!(c.layer("B").unwrap().algorithm, Some(AlgorithmKind::Track));
    assert_eq!(c.layer("A").unwrap().density, 60_000_000);
    assert!(c.layer("C").is_none());
    let none = FillConfig { pdk: None, layers: None };
    assert!(none.layer_names().is_empty());
    assert!(none.layer("A").is_none());
}

#[test]
fn erasure_covers_fill_and_inspection() {
    let c = config(None, &["Metal1"]);
    let ctx = RunContext::new("gf180mcuA", Some(c), None).ok().unwrap();
    let t = erase_targets(&ctx);
    assert_eq!(t.fill, vec![(34, 4)]);
    assert_eq!(t.debug, vec![(34, 250), (34, 251)]);
}

#[test]
fn gzip_by_extension() {
    assert!(is_gzip(Some("gz")));
    assert!(!is_gzip(Some("gds")));
    assert!(!is_gzip(Some("GZ")));
    assert!(!is_gzip(None));
}

#[test]
fn usable_parameters() {
    assert!(square(1000, 5000).check_usable(1, 5, true, true));
    assert!(!square(5000, 1000).check_usable(1, 5, true, true));
    assert!(track(480, 3780).check_usable(1, 5, true, true));
    let overlap = |min_width, max_width, cover| {
        FillAlgorithm::Overlap(OverlapParams {
            min_width,
            max_width,
            min_extension: 100,
            min_space: 100,
            ref_layer: "A".to_string(),
            cover,
        })
    };
    assert!(overlap(1000, 5000, false).check_usable(1, 5, true, true));
    assert!(!overlap(1001, 1004, false).check_usable(1, 5, true, true));
    assert!(overlap(1001, 1004, true).check_usable(1, 5, true, true));
    assert!(overlap(1001, 1004, false).check_usable(1, 5, false, true));
    assert!(!track(480, 3780).check_usable(1, 5000, true, true));
    assert!(track(480, 3780).check_usable(1, 5000, true, false));
    assert!(track(0, 3780).check_usable(1, 5, true, true));
}
