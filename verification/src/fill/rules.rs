//! What each process asks of its fill: the space to keep from which layer.

use crate::chip::Chip;
use crate::chip::Purpose;
use crate::context::RunContext;
use crate::fill::plan::process_keepouts;
use crate::fill::plan::LayerPlan;
use crate::fill::plan::PlacedLayer;
use crate::fill::spacing::alike_slack;
use crate::fill::spacing::are_boxes_alike;
use crate::fill::spacing::keeps_off;
use crate::fill::spacing::kept_shape;
use crate::fill::spacing::layer_rules;
use crate::flatten::Drawn;
use crate::geom::bounds;
use crate::geom::Rect;
use crate::geom::Shape;
use crate::layer_map::LayerMap;
use crate::morph::Morph;
use crate::offset::grown_shapes;
use crate::pdk::gf180mcu;
use crate::pdk::ihp_sg13;
use crate::pdk::keepout::edge_ring;
use crate::pdk::keepout::rect_shapes;
use crate::pdk::keepout::ruled_shapes;
use crate::pdk::keepout::SpaceRule;
use crate::pdk::units_of;
use crate::pdk::FillAlgorithm;
use crate::pdk::PdkLayer;
use vstd::prelude::*;

verus! {

/// The names of the layers with rules differ from each other.
proof fn layer_names_differ()
    ensures
        "Activ"@ != "GatPoly"@,
        "COMP"@ != "Poly2"@,
        !is_metal_name("Activ"@),
        !is_metal_name("GatPoly"@),
        !is_metal_name("COMP"@),
        !is_metal_name("Poly2"@),
        forall|m: Seq<char>| #[trigger] is_metal_name(m) ==> m.len() == 6,
        forall|m: Seq<char>| #[trigger] is_top_name(m) ==> m.len() == 9,
        "Activ"@.len() == 5,
        "GatPoly"@.len() == 7,
{
    reveal_strlit("Activ");
    reveal_strlit("GatPoly");
    reveal_strlit("COMP");
    reveal_strlit("Poly2");
    reveal_strlit("Metal1");
    reveal_strlit("Metal2");
    reveal_strlit("Metal3");
    reveal_strlit("Metal4");
    reveal_strlit("Metal5");
    reveal_strlit("TopMetal1");
    reveal_strlit("TopMetal2");
    assert("Activ"@.len() == 5 && "GatPoly"@.len() == 7);
    assert("COMP"@.len() == 4 && "Poly2"@.len() == 5);
    assert("Metal1"@.len() == 6 && "Metal2"@.len() == 6 && "Metal3"@.len() == 6 && "Metal4"@.len() == 6
        && "Metal5"@.len() == 6);
    assert("TopMetal1"@.len() == 9 && "TopMetal2"@.len() == 9);
}

/// The name of one of the thin metals.
pub open spec fn is_metal_name(name: Seq<char>) -> bool {
    name == "Metal1"@ || name == "Metal2"@ || name == "Metal3"@ || name == "Metal4"@ || name == "Metal5"@
}

/// The name of one of the thick metals of the SG13 processes.
pub open spec fn is_top_name(name: Seq<char>) -> bool {
    name == "TopMetal1"@ || name == "TopMetal2"@
}

/// A process of the IHP SG13 family.
pub open spec fn is_sg13(process: Seq<char>) -> bool {
    process == "ihp-sg13g2"@ || process == "ihp-sg13cmos5l"@
}

/// A process of the gf180mcu family.
pub open spec fn is_gf180(process: Seq<char>) -> bool {
    process == "gf180mcuA"@ || process == "gf180mcuB"@ || process == "gf180mcuC"@ || process == "gf180mcuD"@
}

proof fn families_differ(process: Seq<char>)
    requires
        is_gf180(process),
    ensures
        !is_sg13(process),
{
    reveal_strlit("ihp-sg13g2");
    reveal_strlit("ihp-sg13cmos5l");
    reveal_strlit("gf180mcuA");
    reveal_strlit("gf180mcuB");
    reveal_strlit("gf180mcuC");
    reveal_strlit("gf180mcuD");
    assert(process.len() == 9);
}

impl<'a> LayerPlan<'a> {
    /// The rectangle at position `a` of a tile is at least `nm` nanometres from
    /// the rectangle that drawn shape `j` is.
    pub open spec fn keeps_from(
        self,
        ctx: RunContext,
        drawn: Seq<Drawn>,
        ix: int,
        iy: int,
        a: int,
        j: int,
        nm: int,
    ) -> bool {
        keeps_off(
            bounds(drawn[j].shape.exterior).spec_grown(
                units_of(nm, ctx.pdk.db_unit_nm as int) - alike_slack(drawn, j),
            ),
            self.fill_of(ix, iy)[a],
            self.tile_rect(ix, iy),
        )
    }

    /// Drawn shape `j` is on the drawing or on the fill layer of the plan.
    pub open spec fn is_own(self, key: (i16, i16)) -> bool {
        key.0 == self.layer.gds_layer && (key.1 == self.layer.drawing_datatype || key.1 == self.layer.fill_datatype)
    }

    /// Fill of the layer and a drawn rectangle that is no boundary of the chip.
    pub open spec fn is_beside(
        self,
        ctx: RunContext,
        chip: Chip,
        targets: Seq<usize>,
        drawn: Seq<Drawn>,
        k: int,
        placed: Seq<PlacedLayer>,
        ix: int,
        iy: int,
        a: int,
        j: int,
    ) -> bool {
        &&& self.is_spaced(ctx, chip, k, placed, ix, iy, a)
        &&& chip.holds_drawn(ctx, targets, Purpose::Fill, drawn)
        &&& 0 <= j < drawn.len()
        &&& are_boxes_alike(drawn, j)
        &&& ctx.pdk.fill_boundary_layer matches Some(b) && b != drawn[j].key
        &&& ctx.pdk.density_boundary_layer matches Some(b) && b != drawn[j].key
    }

    proof fn rule_keeps(
        self,
        ctx: RunContext,
        chip: Chip,
        targets: Seq<usize>,
        drawn: Seq<Drawn>,
        k: int,
        placed: Seq<PlacedLayer>,
        ix: int,
        iy: int,
        a: int,
        j: int,
        i: int,
        nm: int,
    )
        requires
            self.is_beside(ctx, chip, targets, drawn, k, placed, ix, iy, a, j),
            ({
                let rules = layer_rules(ctx.process@, ctx.pdk.layers@[k].0@, *self.layer);
                0 <= i < rules.len() && rules[i].key == drawn[j].key && rules[i].space == nm
            }),
        ensures
            self.keeps_from(ctx, drawn, ix, iy, a, j, nm),
    {
        self.fill_keeps_space(ctx, chip, targets, drawn, k, placed, ix, iy, a, i, j);
    }

    /// On the SG13 processes, fill of a thick metal keeps 3 um from the rectangles
    /// drawn or filled on that metal, and 4.9 um from those on Trans; it keeps off
    /// the layer's no-fill markers.
    pub proof fn top_metal_keeps_its_space(
        self,
        ctx: RunContext,
        chip: Chip,
        targets: Seq<usize>,
        drawn: Seq<Drawn>,
        k: int,
        placed: Seq<PlacedLayer>,
        ix: int,
        iy: int,
        a: int,
        j: int,
    )
        requires
            is_sg13(ctx.process@),
            is_top_name(ctx.pdk.layers@[k].0@),
            self.is_beside(ctx, chip, targets, drawn, k, placed, ix, iy, a, j),
        ensures
            self.is_own(drawn[j].key) ==> self.keeps_from(ctx, drawn, ix, iy, a, j, 3000),
            drawn[j].key == (26i16, 0i16) ==> self.keeps_from(ctx, drawn, ix, iy, a, j, 4900),
            self.layer.nofill_datatype matches Some(d) && drawn[j].key == (self.layer.gds_layer, d) ==> self.keeps_from(
                ctx,
                drawn,
                ix,
                iy,
                a,
                j,
                0,
            ),
    {
        layer_names_differ();
        let name = ctx.pdk.layers@[k].0@;
        let rules = layer_rules(ctx.process@, name, *self.layer);
        assert(*self.layer == ctx.pdk.layers@[k].1);
        let base: int = if self.layer.nofill_datatype is Some {
            3
        } else {
            2
        };
        assert(!is_metal_name(name));
        assert(rules == ihp_sg13::family_rules(ihp_sg13::Family::TopMetal, *self.layer));
        if self.is_own(drawn[j].key) {
            if drawn[j].key.1 == self.layer.drawing_datatype {
                self.rule_keeps(ctx, chip, targets, drawn, k, placed, ix, iy, a, j, 0, 3000);
            } else {
                self.rule_keeps(ctx, chip, targets, drawn, k, placed, ix, iy, a, j, 1, 3000);
            }
        }
        if drawn[j].key == (26i16, 0i16) {
            assert(rules[base].key == drawn[j].key);
            self.rule_keeps(ctx, chip, targets, drawn, k, placed, ix, iy, a, j, base, 4900);
        }
        if let Some(d) = self.layer.nofill_datatype {
            if drawn[j].key == (self.layer.gds_layer, d) {
                self.rule_keeps(ctx, chip, targets, drawn, k, placed, ix, iy, a, j, 2, 0);
            }
        }
    }

    /// On the SG13 processes, fill of a thin metal keeps 0.42 um from the
    /// rectangles drawn or filled on that metal, and 1 um from those on Trans; it
    /// keeps off the layer's no-fill markers.
    pub proof fn thin_metal_keeps_its_space(
        self,
        ctx: RunContext,
        chip: Chip,
        targets: Seq<usize>,
        drawn: Seq<Drawn>,
        k: int,
        placed: Seq<PlacedLayer>,
        ix: int,
        iy: int,
        a: int,
        j: int,
    )
        requires
            is_sg13(ctx.process@),
            is_metal_name(ctx.pdk.layers@[k].0@),
            self.is_beside(ctx, chip, targets, drawn, k, placed, ix, iy, a, j),
        ensures
            self.is_own(drawn[j].key) ==> self.keeps_from(ctx, drawn, ix, iy, a, j, 420),
            drawn[j].key == (26i16, 0i16) ==> self.keeps_from(ctx, drawn, ix, iy, a, j, 1000),
            self.layer.nofill_datatype matches Some(d) && drawn[j].key == (self.layer.gds_layer, d) ==> self.keeps_from(
                ctx,
                drawn,
                ix,
                iy,
                a,
                j,
                0,
            ),
    {
        layer_names_differ();
        let name = ctx.pdk.layers@[k].0@;
        let rules = layer_rules(ctx.process@, name, *self.layer);
        assert(*self.layer == ctx.pdk.layers@[k].1);
        let base: int = if self.layer.nofill_datatype is Some {
            3
        } else {
            2
        };
        assert(rules == ihp_sg13::family_rules(ihp_sg13::Family::Metal, *self.layer));
        if self.is_own(drawn[j].key) {
            if drawn[j].key.1 == self.layer.drawing_datatype {
                self.rule_keeps(ctx, chip, targets, drawn, k, placed, ix, iy, a, j, 0, 420);
            } else {
                self.rule_keeps(ctx, chip, targets, drawn, k, placed, ix, iy, a, j, 1, 420);
            }
        }
        if drawn[j].key == (26i16, 0i16) {
            assert(rules[base].key == drawn[j].key);
            self.rule_keeps(ctx, chip, targets, drawn, k, placed, ix, iy, a, j, base, 1000);
        }
        if let Some(d) = self.layer.nofill_datatype {
            if drawn[j].key == (self.layer.gds_layer, d) {
                self.rule_keeps(ctx, chip, targets, drawn, k, placed, ix, iy, a, j, 2, 0);
            }
        }
    }

    /// On the SG13 processes, fill of Activ keeps 0.42 um from the rectangles drawn
    /// or filled on Activ, 1 um from those on Trans, NWell and nBuLay, 1.1 um from
    /// those on GatPoly and Cont, and 1.5 um from those on PWell:block; it keeps off
    /// the layer's no-fill markers.
    pub proof fn activ_keeps_its_space(
        self,
        ctx: RunContext,
        chip: Chip,
        targets: Seq<usize>,
        drawn: Seq<Drawn>,
        k: int,
        placed: Seq<PlacedLayer>,
        ix: int,
        iy: int,
        a: int,
        j: int,
    )
        requires
            is_sg13(ctx.process@),
            ctx.pdk.layers@[k].0@ == "Activ"@,
            self.is_beside(ctx, chip, targets, drawn, k, placed, ix, iy, a, j),
        ensures
            self.is_own(drawn[j].key) ==> self.keeps_from(ctx, drawn, ix, iy, a, j, 420),
            drawn[j].key == (26i16, 0i16) ==> self.keeps_from(ctx, drawn, ix, iy, a, j, 1000),
            drawn[j].key == (5i16, 0i16) ==> self.keeps_from(ctx, drawn, ix, iy, a, j, 1100),
            drawn[j].key == (6i16, 0i16) ==> self.keeps_from(ctx, drawn, ix, iy, a, j, 1100),
            drawn[j].key == (31i16, 0i16) ==> self.keeps_from(ctx, drawn, ix, iy, a, j, 1000),
            drawn[j].key == (32i16, 0i16) ==> self.keeps_from(ctx, drawn, ix, iy, a, j, 1000),
            drawn[j].key == (46i16, 21i16) ==> self.keeps_from(ctx, drawn, ix, iy, a, j, 1500),
            self.layer.nofill_datatype matches Some(d) && drawn[j].key == (self.layer.gds_layer, d) ==> self.keeps_from(
                ctx,
                drawn,
                ix,
                iy,
                a,
                j,
                0,
            ),
    {
        layer_names_differ();
        let name = ctx.pdk.layers@[k].0@;
        let rules = layer_rules(ctx.process@, name, *self.layer);
        assert(*self.layer == ctx.pdk.layers@[k].1);
        let base: int = if self.layer.nofill_datatype is Some {
            3
        } else {
            2
        };
        assert(rules == ihp_sg13::family_rules(ihp_sg13::Family::Activ, *self.layer));
        if self.is_own(drawn[j].key) {
            if drawn[j].key.1 == self.layer.drawing_datatype {
                self.rule_keeps(ctx, chip, targets, drawn, k, placed, ix, iy, a, j, 0, 420);
            } else {
                self.rule_keeps(ctx, chip, targets, drawn, k, placed, ix, iy, a, j, 1, 420);
            }
        }
        if drawn[j].key == (26i16, 0i16) {
            assert(rules[base].key == drawn[j].key);
            self.rule_keeps(ctx, chip, targets, drawn, k, placed, ix, iy, a, j, base, 1000);
        }
        if drawn[j].key == (5i16, 0i16) {
            assert(rules[base + 1].key == drawn[j].key);
            self.rule_keeps(ctx, chip, targets, drawn, k, placed, ix, iy, a, j, base + 1, 1100);
        }
        if drawn[j].key == (6i16, 0i16) {
            assert(rules[base + 2].key == drawn[j].key);
            self.rule_keeps(ctx, chip, targets, drawn, k, placed, ix, iy, a, j, base + 2, 1100);
        }
        if drawn[j].key == (31i16, 0i16) {
            assert(rules[base + 3].key == drawn[j].key);
            self.rule_keeps(ctx, chip, targets, drawn, k, placed, ix, iy, a, j, base + 3, 1000);
        }
        if drawn[j].key == (32i16, 0i16) {
            assert(rules[base + 4].key == drawn[j].key);
            self.rule_keeps(ctx, chip, targets, drawn, k, placed, ix, iy, a, j, base + 4, 1000);
        }
        if drawn[j].key == (46i16, 21i16) {
            assert(rules[base + 5].key == drawn[j].key);
            self.rule_keeps(ctx, chip, targets, drawn, k, placed, ix, iy, a, j, base + 5, 1500);
        }
        if let Some(d) = self.layer.nofill_datatype {
            if drawn[j].key == (self.layer.gds_layer, d) {
                self.rule_keeps(ctx, chip, targets, drawn, k, placed, ix, iy, a, j, 2, 0);
            }
        }
    }

    /// On the SG13 processes, fill of GatPoly keeps 1.1 um from the rectangles drawn
    /// or filled on GatPoly and from those on Activ, Cont, pSD, nSD:block, SalBlock,
    /// NWell, nBuLay and Trans; it keeps off the layer's no-fill markers.
    pub proof fn gatpoly_keeps_its_space(
        self,
        ctx: RunContext,
        chip: Chip,
        targets: Seq<usize>,
        drawn: Seq<Drawn>,
        k: int,
        placed: Seq<PlacedLayer>,
        ix: int,
        iy: int,
        a: int,
        j: int,
    )
        requires
            is_sg13(ctx.process@),
            ctx.pdk.layers@[k].0@ == "GatPoly"@,
            self.is_beside(ctx, chip, targets, drawn, k, placed, ix, iy, a, j),
        ensures
            self.is_own(drawn[j].key) ==> self.keeps_from(ctx, drawn, ix, iy, a, j, 1100),
            drawn[j].key == (1i16, 0i16) ==> self.keeps_from(ctx, drawn, ix, iy, a, j, 1100),
            drawn[j].key == (6i16, 0i16) ==> self.keeps_from(ctx, drawn, ix, iy, a, j, 1100),
            drawn[j].key == (14i16, 0i16) ==> self.keeps_from(ctx, drawn, ix, iy, a, j, 1100),
            drawn[j].key == (7i16, 21i16) ==> self.keeps_from(ctx, drawn, ix, iy, a, j, 1100),
            drawn[j].key == (28i16, 0i16) ==> self.keeps_from(ctx, drawn, ix, iy, a, j, 1100),
            drawn[j].key == (31i16, 0i16) ==> self.keeps_from(ctx, drawn, ix, iy, a, j, 1100),
            drawn[j].key == (32i16, 0i16) ==> self.keeps_from(ctx, drawn, ix, iy, a, j, 1100),
            drawn[j].key == (26i16, 0i16) ==> self.keeps_from(ctx, drawn, ix, iy, a, j, 1100),
            self.layer.nofill_datatype matches Some(d) && drawn[j].key == (self.layer.gds_layer, d) ==> self.keeps_from(
                ctx,
                drawn,
                ix,
                iy,
                a,
                j,
                0,
            ),
    {
        layer_names_differ();
        let name = ctx.pdk.layers@[k].0@;
        let rules = layer_rules(ctx.process@, name, *self.layer);
        assert(*self.layer == ctx.pdk.layers@[k].1);
        let base: int = if self.layer.nofill_datatype is Some {
            3
        } else {
            2
        };
        assert(rules == ihp_sg13::family_rules(ihp_sg13::Family::GatPoly, *self.layer));
        if self.is_own(drawn[j].key) {
            if drawn[j].key.1 == self.layer.drawing_datatype {
                self.rule_keeps(ctx, chip, targets, drawn, k, placed, ix, iy, a, j, 0, 1100);
            } else {
                self.rule_keeps(ctx, chip, targets, drawn, k, placed, ix, iy, a, j, 1, 1100);
            }
        }
        if drawn[j].key == (1i16, 0i16) {
            assert(rules[base].key == drawn[j].key);
            self.rule_keeps(ctx, chip, targets, drawn, k, placed, ix, iy, a, j, base, 1100);
        }
        if drawn[j].key == (6i16, 0i16) {
            assert(rules[base + 1].key == drawn[j].key);
            self.rule_keeps(ctx, chip, targets, drawn, k, placed, ix, iy, a, j, base + 1, 1100);
        }
        if drawn[j].key == (14i16, 0i16) {
            assert(rules[base + 2].key == drawn[j].key);
            self.rule_keeps(ctx, chip, targets, drawn, k, placed, ix, iy, a, j, base + 2, 1100);
        }
        if drawn[j].key == (7i16, 21i16) {
            assert(rules[base + 3].key == drawn[j].key);
            self.rule_keeps(ctx, chip, targets, drawn, k, placed, ix, iy, a, j, base + 3, 1100);
        }
        if drawn[j].key == (28i16, 0i16) {
            assert(rules[base + 4].key == drawn[j].key);
            self.rule_keeps(ctx, chip, targets, drawn, k, placed, ix, iy, a, j, base + 4, 1100);
        }
        if drawn[j].key == (31i16, 0i16) {
            assert(rules[base + 5].key == drawn[j].key);
            self.rule_keeps(ctx, chip, targets, drawn, k, placed, ix, iy, a, j, base + 5, 1100);
        }
        if drawn[j].key == (32i16, 0i16) {
            assert(rules[base + 6].key == drawn[j].key);
            self.rule_keeps(ctx, chip, targets, drawn, k, placed, ix, iy, a, j, base + 6, 1100);
        }
        if drawn[j].key == (26i16, 0i16) {
            assert(rules[base + 7].key == drawn[j].key);
            self.rule_keeps(ctx, chip, targets, drawn, k, placed, ix, iy, a, j, base + 7, 1100);
        }
        if let Some(d) = self.layer.nofill_datatype {
            if drawn[j].key == (self.layer.gds_layer, d) {
                self.rule_keeps(ctx, chip, targets, drawn, k, placed, ix, iy, a, j, 2, 0);
            }
        }
    }

    /// On the gf180mcu processes, fill of COMP keeps 3 um from the rectangles filled
    /// on COMP, 1.5 um from those on Poly2, 3.5 um from those on RES_MK and NDMY, 7 um
    /// from those on Pad, and 3 um from those on IND_MK.
    pub proof fn comp_keeps_its_space(
        self,
        ctx: RunContext,
        chip: Chip,
        targets: Seq<usize>,
        drawn: Seq<Drawn>,
        k: int,
        placed: Seq<PlacedLayer>,
        ix: int,
        iy: int,
        a: int,
        j: int,
    )
        requires
            is_gf180(ctx.process@),
            ctx.pdk.layers@[k].0@ == "COMP"@,
            self.is_beside(ctx, chip, targets, drawn, k, placed, ix, iy, a, j),
        ensures
            drawn[j].key == (self.layer.gds_layer, self.layer.fill_datatype) ==> self.keeps_from(ctx, drawn, ix, iy, a, j, 3000),
            drawn[j].key == (30i16, 0i16) ==> self.keeps_from(ctx, drawn, ix, iy, a, j, 1500),
            drawn[j].key == (110i16, 5i16) ==> self.keeps_from(ctx, drawn, ix, iy, a, j, 3500),
            drawn[j].key == (37i16, 0i16) ==> self.keeps_from(ctx, drawn, ix, iy, a, j, 7000),
            drawn[j].key == (151i16, 5i16) ==> self.keeps_from(ctx, drawn, ix, iy, a, j, 3000),
            drawn[j].key == (111i16, 5i16) ==> self.keeps_from(ctx, drawn, ix, iy, a, j, 3500),
    {
        layer_names_differ();
        families_differ(ctx.process@);
        let name = ctx.pdk.layers@[k].0@;
        let rules = layer_rules(ctx.process@, name, *self.layer);
        assert(*self.layer == ctx.pdk.layers@[k].1);
        assert(rules == gf180mcu::family_rules(gf180mcu::Family::Comp, *self.layer));
        if drawn[j].key == (self.layer.gds_layer, self.layer.fill_datatype) {
            self.rule_keeps(ctx, chip, targets, drawn, k, placed, ix, iy, a, j, 0, 3000);
        }
        if drawn[j].key == (30i16, 0i16) {
            self.rule_keeps(ctx, chip, targets, drawn, k, placed, ix, iy, a, j, 1, 1500);
        }
        if drawn[j].key == (110i16, 5i16) {
            self.rule_keeps(ctx, chip, targets, drawn, k, placed, ix, iy, a, j, 2, 3500);
        }
        if drawn[j].key == (37i16, 0i16) {
            self.rule_keeps(ctx, chip, targets, drawn, k, placed, ix, iy, a, j, 3, 7000);
        }
        if drawn[j].key == (151i16, 5i16) {
            self.rule_keeps(ctx, chip, targets, drawn, k, placed, ix, iy, a, j, 4, 3000);
        }
        if drawn[j].key == (111i16, 5i16) {
            self.rule_keeps(ctx, chip, targets, drawn, k, placed, ix, iy, a, j, 5, 3500);
        }
    }

    /// On the gf180mcu processes, fill of Poly2 keeps 2.4 um from the rectangles
    /// filled on Poly2, 5 um from those drawn on Poly2, 19.7 um from those on RES_MK,
    /// 6.7 um from those on Pad, 3 um from those on IND_MK and MTPMK, 29.7 um from
    /// those on NDMY, 8 um from those on PMNDMY, and 2 um from those on the lower two
    /// metals.
    pub proof fn poly2_keeps_its_space(
        self,
        ctx: RunContext,
        chip: Chip,
        targets: Seq<usize>,
        drawn: Seq<Drawn>,
        k: int,
        placed: Seq<PlacedLayer>,
        ix: int,
        iy: int,
        a: int,
        j: int,
    )
        requires
            is_gf180(ctx.process@),
            ctx.pdk.layers@[k].0@ == "Poly2"@,
            self.is_beside(ctx, chip, targets, drawn, k, placed, ix, iy, a, j),
        ensures
            drawn[j].key == (self.layer.gds_layer, self.layer.fill_datatype) ==> self.keeps_from(ctx, drawn, ix, iy, a, j, 2400),
            drawn[j].key == (30i16, 0i16) ==> self.keeps_from(ctx, drawn, ix, iy, a, j, 5000),
            drawn[j].key == (110i16, 5i16) ==> self.keeps_from(ctx, drawn, ix, iy, a, j, 19_700),
            drawn[j].key == (37i16, 0i16) ==> self.keeps_from(ctx, drawn, ix, iy, a, j, 6700),
            drawn[j].key == (151i16, 5i16) ==> self.keeps_from(ctx, drawn, ix, iy, a, j, 3000),
            drawn[j].key == (122i16, 5i16) ==> self.keeps_from(ctx, drawn, ix, iy, a, j, 3000),
            drawn[j].key == (111i16, 5i16) ==> self.keeps_from(ctx, drawn, ix, iy, a, j, 29_700),
            drawn[j].key == (152i16, 5i16) ==> self.keeps_from(ctx, drawn, ix, iy, a, j, 8000),
            drawn[j].key == (34i16, 0i16) ==> self.keeps_from(ctx, drawn, ix, iy, a, j, 2000),
            drawn[j].key == (36i16, 0i16) ==> self.keeps_from(ctx, drawn, ix, iy, a, j, 2000),
    {
        layer_names_differ();
        families_differ(ctx.process@);
        let name = ctx.pdk.layers@[k].0@;
        let rules = layer_rules(ctx.process@, name, *self.layer);
        assert(*self.layer == ctx.pdk.layers@[k].1);
        assert(rules == gf180mcu::family_rules(gf180mcu::Family::Poly2, *self.layer));
        if drawn[j].key == (self.layer.gds_layer, self.layer.fill_datatype) {
            self.rule_keeps(ctx, chip, targets, drawn, k, placed, ix, iy, a, j, 0, 2400);
        }
        if drawn[j].key == (30i16, 0i16) {
            self.rule_keeps(ctx, chip, targets, drawn, k, placed, ix, iy, a, j, 1, 5000);
        }
        if drawn[j].key == (110i16, 5i16) {
            self.rule_keeps(ctx, chip, targets, drawn, k, placed, ix, iy, a, j, 2, 19_700);
        }
        if drawn[j].key == (37i16, 0i16) {
            self.rule_keeps(ctx, chip, targets, drawn, k, placed, ix, iy, a, j, 3, 6700);
        }
        if drawn[j].key == (151i16, 5i16) {
            self.rule_keeps(ctx, chip, targets, drawn, k, placed, ix, iy, a, j, 4, 3000);
        }
        if drawn[j].key == (122i16, 5i16) {
            self.rule_keeps(ctx, chip, targets, drawn, k, placed, ix, iy, a, j, 5, 3000);
        }
        if drawn[j].key == (111i16, 5i16) {
            self.rule_keeps(ctx, chip, targets, drawn, k, placed, ix, iy, a, j, 6, 29_700);
        }
        if drawn[j].key == (152i16, 5i16) {
            self.rule_keeps(ctx, chip, targets, drawn, k, placed, ix, iy, a, j, 7, 8000);
        }
        if drawn[j].key == (34i16, 0i16) {
            self.rule_keeps(ctx, chip, targets, drawn, k, placed, ix, iy, a, j, 8, 2000);
        }
        if drawn[j].key == (36i16, 0i16) {
            self.rule_keeps(ctx, chip, targets, drawn, k, placed, ix, iy, a, j, 9, 2000);
        }
    }

    /// On the gf180mcu processes, fill of a metal keeps 2 um from the rectangles drawn
    /// on that metal, the least space of its squares from those filled on it, and 6 um
    /// from those on the marker layers of fuses, MIM plates and memory cells.
    pub proof fn metal_keeps_its_space(
        self,
        ctx: RunContext,
        chip: Chip,
        targets: Seq<usize>,
        drawn: Seq<Drawn>,
        k: int,
        placed: Seq<PlacedLayer>,
        ix: int,
        iy: int,
        a: int,
        j: int,
    )
        requires
            is_gf180(ctx.process@),
            is_metal_name(ctx.pdk.layers@[k].0@),
            self.is_beside(ctx, chip, targets, drawn, k, placed, ix, iy, a, j),
        ensures
            drawn[j].key == (self.layer.gds_layer, self.layer.fill_datatype) ==> (self.layer.algorithms@.len() > 0 ==> (
            self.layer.algorithms@[0] matches FillAlgorithm::Square(sq) ==> self.keeps_from(
                ctx,
                drawn,
                ix,
                iy,
                a,
                j,
                sq.min_space as int,
            ))),
            drawn[j].key == (self.layer.gds_layer, self.layer.drawing_datatype) ==> self.keeps_from(ctx, drawn, ix, iy, a, j, 2000),
            drawn[j].key == (75i16, 0i16) ==> self.keeps_from(ctx, drawn, ix, iy, a, j, 6000),
            drawn[j].key == (220i16, 0i16) ==> self.keeps_from(ctx, drawn, ix, iy, a, j, 6000),
            drawn[j].key == (96i16, 1i16) ==> self.keeps_from(ctx, drawn, ix, iy, a, j, 6000),
            drawn[j].key == (152i16, 5i16) ==> self.keeps_from(ctx, drawn, ix, iy, a, j, 6000),
            drawn[j].key == (122i16, 5i16) ==> self.keeps_from(ctx, drawn, ix, iy, a, j, 6000),
            drawn[j].key == (173i16, 5i16) ==> self.keeps_from(ctx, drawn, ix, iy, a, j, 6000),
    {
        layer_names_differ();
        families_differ(ctx.process@);
        let name = ctx.pdk.layers@[k].0@;
        let rules = layer_rules(ctx.process@, name, *self.layer);
        assert(*self.layer == ctx.pdk.layers@[k].1);
        assert(rules == gf180mcu::family_rules(gf180mcu::Family::Metal, *self.layer));
        if drawn[j].key == (self.layer.gds_layer, self.layer.drawing_datatype) {
            self.rule_keeps(ctx, chip, targets, drawn, k, placed, ix, iy, a, j, 0, 2000);
        }
        if drawn[j].key == (self.layer.gds_layer, self.layer.fill_datatype) && self.layer.algorithms@.len() > 0 {
            if let FillAlgorithm::Square(sq) = self.layer.algorithms@[0] {
                self.rule_keeps(ctx, chip, targets, drawn, k, placed, ix, iy, a, j, 1, sq.min_space as int);
            }
        }
        if drawn[j].key == (75i16, 0i16) {
            assert(rules[2].key == drawn[j].key);
            self.rule_keeps(ctx, chip, targets, drawn, k, placed, ix, iy, a, j, 2, 6000);
        }
        if drawn[j].key == (220i16, 0i16) {
            assert(rules[3].key == drawn[j].key);
            self.rule_keeps(ctx, chip, targets, drawn, k, placed, ix, iy, a, j, 3, 6000);
        }
        if drawn[j].key == (96i16, 1i16) {
            assert(rules[4].key == drawn[j].key);
            self.rule_keeps(ctx, chip, targets, drawn, k, placed, ix, iy, a, j, 4, 6000);
        }
        if drawn[j].key == (152i16, 5i16) {
            assert(rules[5].key == drawn[j].key);
            self.rule_keeps(ctx, chip, targets, drawn, k, placed, ix, iy, a, j, 5, 6000);
        }
        if drawn[j].key == (122i16, 5i16) {
            assert(rules[6].key == drawn[j].key);
            self.rule_keeps(ctx, chip, targets, drawn, k, placed, ix, iy, a, j, 6, 6000);
        }
        if drawn[j].key == (173i16, 5i16) {
            assert(rules[7].key == drawn[j].key);
            self.rule_keeps(ctx, chip, targets, drawn, k, placed, ix, iy, a, j, 7, 6000);
        }
    }

    /// On the gf180mcu processes, fill keeps 26 um from all four edges of the chip.
    pub proof fn fill_keeps_from_scribe_line(
        self,
        ctx: RunContext,
        chip: Chip,
        k: int,
        placed: Seq<PlacedLayer>,
        ix: int,
        iy: int,
        a: int,
    )
        requires
            is_gf180(ctx.process@),
            ({
                let name = ctx.pdk.layers@[k].0@;
                is_metal_name(name) || name == "COMP"@ || name == "Poly2"@
            }),
            self.is_spaced(ctx, chip, k, placed, ix, iy, a),
        ensures
            ({
                let r = self.fill_of(ix, iy)[a];
                let space = units_of(26_000, ctx.pdk.db_unit_nm as int);
                chip.area.x0 + space <= r.x0 && r.x1 <= chip.area.x1 - space && chip.area.y0 + space <= r.y0 && r.y1
                    <= chip.area.y1 - space
            }),
    {
        families_differ(ctx.process@);
        self.fill_keeps_from_die_edge(ctx, chip, k, placed, ix, iy, a);
    }
}

/// The keep-outs that the gf180mcu processes make of circuit COMP: closed by 10 um
/// to each side, and then eroded by less, so that 3.5 um stay for fill of COMP and
/// 3.2 um for fill of Poly2.
pub open spec fn comp_kept(map: LayerMap, name: Seq<char>, db: int) -> Option<Seq<Shape>> {
    let shrink = if name == "COMP"@ {
        10_000 - 3500
    } else {
        10_000 - 3200
    };
    (Morph::Closing { grow: units_of(10_000, db) as i64, shrink: units_of(shrink, db) as i64 }).result(
        map.shapes((22i16, 0i16)),
        units_of(30_000, db),
    )
}

/// On the gf180mcu processes, circuit COMP, closed so that gaps below 20 um are
/// filled, is a keep-out of COMP and of Poly2.
pub proof fn closed_comp_is_kept_out(
    process: Seq<char>,
    map: LayerMap,
    area: Rect,
    name: Seq<char>,
    layer: PdkLayer,
    db: int,
    p: int,
)
    requires
        is_gf180(process),
        name == "COMP"@ || name == "Poly2"@,
        process_keepouts(process, map, area, name, layer, db) is Some,
    ensures
        comp_kept(map, name, db) is Some,
        0 <= p < comp_kept(map, name, db)->0.len() ==> process_keepouts(process, map, area, name, layer, db)->0.contains(
            comp_kept(map, name, db)->0[p],
        ),
{
    layer_names_differ();
    families_differ(process);
    let f = gf180mcu::family_of(name)->0;
    assert(gf180mcu::closed_comp(map, f, db) == comp_kept(map, name, db));
    let kept = comp_kept(map, name, db)->0;
    let all = process_keepouts(process, map, area, name, layer, db)->0;
    if 0 <= p < kept.len() {
        assert(all[p] == kept[p]);
    }
}

/// The band to both sides of the edges of a well, `nm` nanometres wide.
pub open spec fn well_edges(map: LayerMap, well: (i16, i16), nm: int, db: int) -> Option<Seq<Shape>> {
    (Morph::Bands { space: units_of(nm, db) as i64 }).result(map.shapes(well), units_of(100_000, db))
}

/// The well is NWELL, LVPWELL or Dualgate.
pub open spec fn is_thin_well(well: (i16, i16)) -> bool {
    well == (21i16, 0i16) || well == (204i16, 0i16) || well == (55i16, 0i16)
}

/// On the gf180mcu processes, the edges of the wells are keep-outs to both sides:
/// fill of COMP keeps 1.3 um from those of NWELL, LVPWELL and Dualgate and 4 um
/// from those of DNWELL, fill of Poly2 keeps 1 um and 2 um.
pub proof fn well_edges_are_kept_out(
    process: Seq<char>,
    map: LayerMap,
    area: Rect,
    name: Seq<char>,
    layer: PdkLayer,
    db: int,
    well: (i16, i16),
    nm: int,
    p: int,
)
    requires
        is_gf180(process),
        name == "COMP"@ ==> is_thin_well(well) && nm == 1300 || well == (12i16, 0i16) && nm == 4000,
        name == "Poly2"@ ==> is_thin_well(well) && nm == 1000 || well == (12i16, 0i16) && nm == 2000,
        name == "COMP"@ || name == "Poly2"@,
        process_keepouts(process, map, area, name, layer, db) is Some,
    ensures
        well_edges(map, well, nm, db) is Some,
        0 <= p < well_edges(map, well, nm, db)->0.len() ==> process_keepouts(
            process,
            map,
            area,
            name,
            layer,
            db,
        )->0.contains(well_edges(map, well, nm, db)->0[p]),
{
    layer_names_differ();
    families_differ(process);
    let f = gf180mcu::family_of(name)->0;
    let rules = gf180mcu::well_rules(f);
    let i: int = if well == (21i16, 0i16) {
        0
    } else if well == (12i16, 0i16) {
        1
    } else if well == (204i16, 0i16) {
        2
    } else {
        3
    };
    assert(f == if name == "COMP"@ {
        gf180mcu::Family::Comp
    } else {
        gf180mcu::Family::Poly2
    });
    assert(rules.len() == 4);
    assert(rules[i].key == well && rules[i].space == nm);
    let comp = gf180mcu::closed_comp(map, f, db)->0;
    let wells = gf180mcu::well_bands(map, rules, db, 4)->0;
    let all = process_keepouts(process, map, area, name, layer, db)->0;
    bands_hold_well(map, rules, db, 4, i, p);
    let edges = well_edges(map, well, nm, db)->0;
    if 0 <= p < edges.len() {
        let q = choose|q: int| 0 <= q < wells.len() && wells[q] == edges[p];
        assert(all[comp.len() + q] == edges[p]);
    }
}

proof fn bands_hold_well(map: LayerMap, rules: Seq<SpaceRule>, db: int, n: int, i: int, p: int)
    requires
        0 <= i < n <= rules.len(),
        gf180mcu::well_bands(map, rules, db, n) is Some,
    ensures
        well_edges(map, rules[i].key, rules[i].space as int, db) is Some,
        ({
            let edges = well_edges(map, rules[i].key, rules[i].space as int, db)->0;
            0 <= p < edges.len() ==> gf180mcu::well_bands(map, rules, db, n)->0.contains(edges[p])
        }),
    decreases n,
{
    let now = gf180mcu::well_bands(map, rules, db, n)->0;
    let before = gf180mcu::well_bands(map, rules, db, n - 1)->0;
    let edges = well_edges(map, rules[i].key, rules[i].space as int, db)->0;
    if i == n - 1 {
        if 0 <= p < edges.len() {
            assert(now[before.len() + p] == edges[p]);
        }
    } else {
        bands_hold_well(map, rules, db, n - 1, i, p);
        if 0 <= p < edges.len() {
            let q = choose|q: int| 0 <= q < before.len() && before[q] == edges[p];
            assert(now[q] == edges[p]);
        }
    }
}

/// The key is that of the drawing or of the fill of the layer.
pub open spec fn is_own_key(layer: PdkLayer, key: (i16, i16)) -> bool {
    key == (layer.gds_layer, layer.drawing_datatype) || key == (layer.gds_layer, layer.fill_datatype)
}

/// On the SG13 processes fill of the layer keeps `nm` nanometres from what is drawn
/// on the key.
pub open spec fn sg13_asks(name: Seq<char>, layer: PdkLayer, key: (i16, i16), nm: int) -> bool {
    let trans = key == (26i16, 0i16);
    ||| layer.nofill_datatype matches Some(d) && key == (layer.gds_layer, d) && nm == 0
    ||| is_top_name(name) && (is_own_key(layer, key) && nm == 3000 || trans && nm == 4900)
    ||| is_metal_name(name) && (is_own_key(layer, key) && nm == 420 || trans && nm == 1000)
    ||| name == "Activ"@ && {
        ||| is_own_key(layer, key) && nm == 420
        ||| (trans || key == (31i16, 0i16) || key == (32i16, 0i16)) && nm == 1000
        ||| (key == (5i16, 0i16) || key == (6i16, 0i16)) && nm == 1100
        ||| key == (46i16, 21i16) && nm == 1500
    }
    ||| name == "GatPoly"@ && nm == 1100 && {
        ||| is_own_key(layer, key) || trans || key == (1i16, 0i16) || key == (6i16, 0i16) || key == (14i16, 0i16)
        ||| key == (7i16, 21i16) || key == (28i16, 0i16) || key == (31i16, 0i16) || key == (32i16, 0i16)
    }
}

/// On the gf180mcu processes fill of the layer keeps `nm` nanometres from what is
/// drawn on the key.
pub open spec fn gf180_asks(name: Seq<char>, layer: PdkLayer, key: (i16, i16), nm: int) -> bool {
    let fill = key == (layer.gds_layer, layer.fill_datatype);
    ||| name == "COMP"@ && {
        ||| (fill || key == (151i16, 5i16)) && nm == 3000
        ||| key == (30i16, 0i16) && nm == 1500
        ||| (key == (110i16, 5i16) || key == (111i16, 5i16)) && nm == 3500
        ||| key == (37i16, 0i16) && nm == 7000
    }
    ||| name == "Poly2"@ && {
        ||| fill && nm == 2400
        ||| key == (30i16, 0i16) && nm == 5000
        ||| key == (110i16, 5i16) && nm == 19_700
        ||| key == (37i16, 0i16) && nm == 6700
        ||| (key == (151i16, 5i16) || key == (122i16, 5i16)) && nm == 3000
        ||| key == (111i16, 5i16) && nm == 29_700
        ||| key == (152i16, 5i16) && nm == 8000
        ||| (key == (34i16, 0i16) || key == (36i16, 0i16)) && nm == 2000
    }
    ||| is_metal_name(name) && {
        ||| key == (layer.gds_layer, layer.drawing_datatype) && nm == 2000
        ||| fill && nm == gf180mcu::square_space(layer.algorithms@, 0)
        ||| nm == 6000 && (key == (75i16, 0i16) || key == (220i16, 0i16) || key == (96i16, 1i16) || key == (152i16, 5i16)
            || key == (122i16, 5i16) || key == (173i16, 5i16))
    }
}

/// A shape of the map on a key that the rules ask to keep from, grown as they ask.
pub open spec fn has_cause(
    process: Seq<char>,
    map: LayerMap,
    name: Seq<char>,
    layer: PdkLayer,
    db: int,
    key: (i16, i16),
    nm: int,
    j: int,
    g: Shape,
) -> bool {
    &&& is_sg13(process) && sg13_asks(name, layer, key, nm) || is_gf180(process) && gf180_asks(name, layer, key, nm)
    &&& 0 <= j < map.shapes(key).len()
    &&& g == kept_shape(map.shapes(key)[j], units_of(nm, db))
}

proof fn ruled_shape_has_its_rule(map: LayerMap, rules: Seq<SpaceRule>, db: int, n: int, p: int) -> (at: (int, int))
    requires
        0 <= n <= rules.len(),
        0 <= p < ruled_shapes(map, rules, db, n).len(),
    ensures
        0 <= at.0 < n,
        0 <= at.1 < map.shapes(rules[at.0].key).len(),
        ruled_shapes(map, rules, db, n)[p] == kept_shape(
            map.shapes(rules[at.0].key)[at.1],
            units_of(rules[at.0].space as int, db),
        ),
    decreases n,
{
    let before = ruled_shapes(map, rules, db, n - 1);
    if p < before.len() {
        ruled_shape_has_its_rule(map, rules, db, n - 1, p)
    } else {
        let amount = units_of(rules[n - 1].space as int, db);
        let grown = grown_shapes(map.shapes(rules[n - 1].key), amount);
        assert(ruled_shapes(map, rules, db, n)[p] == grown[p - before.len()]);
        (n - 1, p - before.len())
    }
}

/// On the SG13 processes there is no keep-out without a cause: each is a shape on a
/// layer that the rules of the filled layer name, grown by the space that they ask
/// for and by no more.
pub proof fn sg13_keepouts_have_a_cause(
    process: Seq<char>,
    map: LayerMap,
    area: Rect,
    name: Seq<char>,
    layer: PdkLayer,
    db: int,
    p: int,
)
    requires
        is_sg13(process),
        process_keepouts(process, map, area, name, layer, db) matches Some(v) && 0 <= p < v.len(),
    ensures
        exists|key: (i16, i16), nm: int, j: int| #[trigger]
            has_cause(
                process,
                map,
                name,
                layer,
                db,
                key,
                nm,
                j,
                process_keepouts(process, map, area, name, layer, db)->0[p],
            ),
{
    layer_names_differ();
    let g = process_keepouts(process, map, area, name, layer, db)->0[p];
    let f = ihp_sg13::family_of(name)->0;
    let rules = ihp_sg13::family_rules(f, layer);
    let (i, j) = ruled_shape_has_its_rule(map, rules, db, rules.len() as int, p);
    let nm = rules[i].space as int;
    assert(is_top_name(name) ==> !is_metal_name(name));
    let base: int = if layer.nofill_datatype is Some {
        3
    } else {
        2
    };
    let rest = i - base;
    assert(sg13_asks(name, layer, rules[i].key, nm));
    assert(has_cause(process, map, name, layer, db, rules[i].key, nm, j, g));
}

/// On the gf180mcu processes there is no keep-out without a cause: each is a part of
/// closed COMP or of the band along a well, a shape on a layer that the rules of the
/// filled layer name, grown by the space that they ask for and by no more, or one of
/// the four bands of 26 um inside the edges of the chip.
pub proof fn gf180_keepouts_have_a_cause(
    process: Seq<char>,
    map: LayerMap,
    area: Rect,
    name: Seq<char>,
    layer: PdkLayer,
    db: int,
    p: int,
)
    requires
        is_gf180(process),
        process_keepouts(process, map, area, name, layer, db) matches Some(v) && 0 <= p < v.len(),
    ensures
        ({
            let g = process_keepouts(process, map, area, name, layer, db)->0[p];
            ||| (name == "COMP"@ || name == "Poly2"@) && comp_kept(map, name, db)->0.contains(g)
            ||| (name == "COMP"@ || name == "Poly2"@) && exists|w: (i16, i16), nm: int| #[trigger]
                is_kept_well(name, w, nm) && well_edges(map, w, nm, db)->0.contains(g)
            ||| exists|key: (i16, i16), nm: int, j: int| #[trigger]
                has_cause(process, map, name, layer, db, key, nm, j, g)
            ||| rect_shapes(edge_ring(area, units_of(26_000, db))).contains(g)
        }),
{
    layer_names_differ();
    families_differ(process);
    let all = process_keepouts(process, map, area, name, layer, db)->0;
    let g = all[p];
    let f = gf180mcu::family_of(name)->0;
    let comp = gf180mcu::closed_comp(map, f, db)->0;
    let wells = gf180mcu::well_bands(map, gf180mcu::well_rules(f), db, gf180mcu::well_rules(f).len() as int)->0;
    let rules = gf180mcu::family_rules(f, layer);
    let ruled = ruled_shapes(map, rules, db, rules.len() as int);
    let ring = rect_shapes(edge_ring(area, units_of(26_000, db)));
    if p < comp.len() {
        assert(gf180mcu::closed_comp(map, f, db) == comp_kept(map, name, db));
        assert(comp[p] == g);
    } else if p < comp.len() + wells.len() {
        assert(wells[p - comp.len()] == g);
        let i = band_is_of_well(map, gf180mcu::well_rules(f), db, gf180mcu::well_rules(f).len() as int, p - comp.len());
        let rule = gf180mcu::well_rules(f)[i];
        assert(is_kept_well(name, rule.key, rule.space as int));
    } else if p < comp.len() + wells.len() + ruled.len() {
        let q = p - comp.len() - wells.len();
        assert(ruled[q] == g);
        let (i, j) = ruled_shape_has_its_rule(map, rules, db, rules.len() as int, q);
        if f == gf180mcu::Family::Metal && i >= 2 {
            assert(rules[i].key == gf180mcu::markers()[i - 2]);
        }
        assert(gf180_asks(name, layer, rules[i].key, rules[i].space as int));
        assert(has_cause(process, map, name, layer, db, rules[i].key, rules[i].space as int, j, g));
    } else {
        assert(ring[p - comp.len() - wells.len() - ruled.len()] == g);
    }
}

/// Fill of the layer keeps `nm` nanometres from the edges of the well.
pub open spec fn is_kept_well(name: Seq<char>, well: (i16, i16), nm: int) -> bool {
    ||| name == "COMP"@ && (is_thin_well(well) && nm == 1300 || well == (12i16, 0i16) && nm == 4000)
    ||| name == "Poly2"@ && (is_thin_well(well) && nm == 1000 || well == (12i16, 0i16) && nm == 2000)
}

proof fn band_is_of_well(map: LayerMap, rules: Seq<SpaceRule>, db: int, n: int, p: int) -> (i: int)
    requires
        0 <= n <= rules.len(),
        gf180mcu::well_bands(map, rules, db, n) matches Some(v) && 0 <= p < v.len(),
    ensures
        0 <= i < n,
        well_edges(map, rules[i].key, rules[i].space as int, db)->0.contains(
            gf180mcu::well_bands(map, rules, db, n)->0[p],
        ),
    decreases n,
{
    let now = gf180mcu::well_bands(map, rules, db, n)->0;
    let before = gf180mcu::well_bands(map, rules, db, n - 1)->0;
    if p < before.len() {
        assert(now[p] == before[p]);
        band_is_of_well(map, rules, db, n - 1, p)
    } else {
        let edges = well_edges(map, rules[n - 1].key, rules[n - 1].space as int, db)->0;
        assert(edges[p - before.len()] == now[p]);
        n - 1
    }
}

} // verus!
