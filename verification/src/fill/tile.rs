//! The fill of one tile: the algorithms of a layer, one after the other.

use crate::config::AlgorithmKind;
use crate::fill::are_fill_rects;
use crate::fill::fill_area;
use crate::fill::is_fill_rect;
use crate::fill::measure;
use crate::fill::overlap::are_layout_rects;
use crate::fill::overlap::fill_overlap_tile;
use crate::fill::overlap::has_stripe_width;
use crate::fill::overlap::overlap_fill;
use crate::fill::overlap::OverlapSizes;
use crate::fill::square::fill_square_tile;
use crate::fill::square::search_is_valid;
use crate::fill::square::SquareSearch;
use crate::fill::track::fill_track_tile;
use crate::fill::track::track_fill;
use crate::fill::track::track_fill_is_tidy;
use crate::fill::track::track_run;
use crate::fill::track::with_placed;
use crate::fill::track::TrackGrid;
use crate::fill::usable::usable_alike;
use crate::fill::AREA_CAP;
use crate::fill::TileCtx;
use crate::geom::min_of;
use crate::geom::shapes_in_range;
use crate::geom::shapes_of;
use crate::geom::Point;
use crate::geom::Polygon;
use crate::geom::Rect;
use crate::geom::Shape;
use crate::pdk::is_length;
use crate::pdk::to_units;
use crate::pdk::units_bounds;
use crate::pdk::units_of;
use crate::pdk::FillAlgorithm;
use crate::pdk::OverlapParams;
use crate::touch::is_blocked;
use crate::touch::keepouts_in_reach;
use crate::touch::keepouts_of;
use crate::touch::rect_keepout;
use crate::touch::Keepout;
use crate::touch::KeepoutShape;
use crate::touch::Outline;
use vstd::prelude::*;

verus! {

impl FillAlgorithm {
    /// The kind of the algorithm.
    pub open spec fn kind(self) -> AlgorithmKind {
        match self {
            FillAlgorithm::Square(_) => AlgorithmKind::Square,
            FillAlgorithm::Track(_) => AlgorithmKind::Track,
            FillAlgorithm::Overlap(_) => AlgorithmKind::Overlap,
        }
    }

    /// The algorithm is one that `only` asks for; without it, each one is.
    pub open spec fn is_asked(self, only: Option<AlgorithmKind>) -> bool {
        only matches Some(k) ==> self.kind() == k
    }

    /// The space that later fill keeps from what the algorithm places.
    pub open spec fn space(self) -> i64 {
        match self {
            FillAlgorithm::Square(p) => p.min_space,
            FillAlgorithm::Track(p) => p.min_space,
            FillAlgorithm::Overlap(p) => p.min_space,
        }
    }

    /// The parameters can be used with this database unit and grid, where
    /// there are references, and cores.  Without them, overlap and track
    /// algorithms place nothing, so only their space matters.  The same holds
    /// of track algorithms without a width, a height or a pitch.
    pub open spec fn is_usable(self, ctx: TileCtx, refs: bool, cores: bool) -> bool {
        match self {
            FillAlgorithm::Square(p) => p.usable(),
            FillAlgorithm::Track(p) => is_length(p.min_space as int) && (cores && p.has_tracks() ==> p.usable()
                && TrackGrid::of(p, ctx).valid()),
            FillAlgorithm::Overlap(p) => is_length(p.min_space as int) && (refs ==> p.usable() && (p.cover
                || has_stripe_width(p, ctx))),
        }
    }

    /// Is the algorithm one that `only` asks for?
    pub fn test_asked(&self, only: Option<AlgorithmKind>) -> (b: bool)
        ensures
            b == self.is_asked(only),
    {
        match only {
            None => true,
            Some(k) => match self {
                FillAlgorithm::Square(_) => k == AlgorithmKind::Square,
                FillAlgorithm::Track(_) => k == AlgorithmKind::Track,
                FillAlgorithm::Overlap(_) => k == AlgorithmKind::Overlap,
            },
        }
    }

    /// The space that later fill keeps from what the algorithm places.
    fn get_space(&self) -> (s: i64)
        ensures
            s == self.space(),
    {
        match self {
            FillAlgorithm::Square(p) => p.min_space,
            FillAlgorithm::Track(p) => p.min_space,
            FillAlgorithm::Overlap(p) => p.min_space,
        }
    }
}

/// A tile to fill.
#[derive(Debug)]
pub struct TileSite<'a> {
    pub tile: Rect,
    /// Where fill belongs.
    pub outline: &'a Outline,
    /// Fill of the reference layer near the tile.
    pub refs: Vec<Rect>,
    /// Core polygons near the tile.
    pub cores: Vec<Polygon>,
    /// Origin of the tracks.
    pub phase: Point,
    /// The context before any fill is placed.
    pub ctx: TileCtx,
}

/// A tile to fill, as its values.
pub struct Site {
    pub tile: Rect,
    pub outline: Outline,
    pub refs: Seq<Rect>,
    pub cores: Seq<Shape>,
    pub phase: Point,
    pub ctx: TileCtx,
}

impl<'a> View for TileSite<'a> {
    type V = Site;

    open spec fn view(&self) -> Site {
        Site {
            tile: self.tile,
            outline: *self.outline,
            refs: self.refs@,
            cores: shapes_of(self.cores@),
            phase: self.phase,
            ctx: self.ctx,
        }
    }
}

/// How far the fill of a tile has come: the area that counts, the keep-outs
/// and the rectangles placed.
pub struct TileState {
    pub running: int,
    pub keepouts: Seq<KeepoutShape>,
    pub rects: Seq<Rect>,
}

/// How far the fill of a tile has come.
struct Progress {
    running: i128,
    keepouts: Vec<Keepout>,
    rects: Vec<Rect>,
}

impl Progress {
    spec fn view(&self) -> TileState {
        TileState { running: self.running as int, keepouts: keepouts_of(self.keepouts@), rects: self.rects@ }
    }

    /// Everything is within the limits of the algorithms.
    spec fn valid(self) -> bool {
        &&& 0 <= self.running <= AREA_CAP
        &&& keepouts_in_reach(keepouts_of(self.keepouts@))
        &&& are_fill_rects(self.rects@)
    }
}

/// Those of the first `n` rectangles that the outline holds.
pub open spec fn held(outline: Outline, rects: Seq<Rect>, n: int) -> Seq<Rect>
    decreases n,
{
    if n <= 0 {
        Seq::empty()
    } else if outline.holds(rects[n - 1]) {
        held(outline, rects, n - 1).push(rects[n - 1])
    } else {
        held(outline, rects, n - 1)
    }
}

proof fn held_are_held(outline: Outline, rects: Seq<Rect>, n: int)
    requires
        0 <= n <= rects.len(),
    ensures
        forall|a: int|
            0 <= a < held(outline, rects, n).len() ==> outline.holds(#[trigger] held(outline, rects, n)[a])
                && rects.contains(held(outline, rects, n)[a]),
    decreases n,
{
    if n > 0 {
        held_are_held(outline, rects, n - 1);
        let (before, now) = (held(outline, rects, n - 1), held(outline, rects, n));
        assert forall|a: int| 0 <= a < now.len() implies outline.holds(#[trigger] now[a]) && rects.contains(now[a]) by {
            if a < before.len() {
                assert(now[a] == before[a]);
            } else {
                assert(now[a] == rects[n - 1]);
            }
        }
    }
}

/// The rectangles that the outline holds.
fn keep_held(outline: &Outline, rects: Vec<Rect>) -> (out: Vec<Rect>)
    requires
        outline.valid(),
        are_fill_rects(rects@),
    ensures
        out@ == held(*outline, rects@, rects@.len() as int),
        are_fill_rects(out@),
{
    let mut out: Vec<Rect> = Vec::new();
    let mut i: usize = 0;
    while i < rects.len()
        invariant
            i <= rects@.len(),
            outline.valid(),
            are_fill_rects(rects@),
            out@ == held(*outline, rects@, i as int),
            are_fill_rects(out@),
        decreases rects@.len() - i,
    {
        assert(is_fill_rect(rects@[i as int]));
        if outline.inside(&rects[i]) {
            out.push(rects[i]);
        }
        i = i + 1;
    }
    out
}

impl Site {
    /// Everything is within the limits of the algorithms.
    pub open spec fn valid(self) -> bool {
        &&& self.tile.in_range()
        &&& self.tile.ordered()
        &&& self.outline.valid()
        &&& are_layout_rects(self.refs)
        &&& shapes_in_range(self.cores)
        &&& self.phase.in_range()
        &&& self.ctx.valid()
    }

    /// The algorithm is usable here once the given area counts, or has nothing to
    /// place.
    pub open spec fn can_run(self, algorithm: FillAlgorithm, running: int) -> bool {
        self.ctx_at(running).wants_fill() ==> algorithm.is_usable(self.ctx, self.refs.len() > 0, self.cores.len() > 0)
    }

    /// The context once the given area counts.
    pub open spec fn ctx_at(self, running: int) -> TileCtx {
        TileCtx { running: running as i128, ..self.ctx }
    }

    /// What an algorithm generates, inside the outline or not.
    pub open spec fn generated(self, algorithm: FillAlgorithm, keepouts: Seq<KeepoutShape>, running: int) -> Seq<Rect> {
        let ctx = self.ctx_at(running);
        match algorithm {
            FillAlgorithm::Square(sq) => SquareSearch::of(self.tile, sq, ctx).result(keepouts),
            FillAlgorithm::Overlap(op) => overlap_fill(keepouts, op, self.refs, ctx),
            FillAlgorithm::Track(tp) => track_fill(self.tile, keepouts, tp, self.cores, ctx, self.phase),
        }
    }

    /// What an algorithm places: what it generates inside the outline.
    pub open spec fn placed(self, algorithm: FillAlgorithm, keepouts: Seq<KeepoutShape>, running: int) -> Seq<Rect> {
        let all = self.generated(algorithm, keepouts, running);
        held(self.outline, all, all.len() as int)
    }

    /// The state after an algorithm.  Later fill keeps its space from what was
    /// placed.  Overlap fill does not count as area covered.
    pub open spec fn next(self, algorithm: FillAlgorithm, state: TileState) -> TileState {
        let new = self.placed(algorithm, state.keepouts, state.running);
        TileState {
            running: if algorithm is Overlap {
                state.running
            } else {
                min_of(state.running + fill_area(new), AREA_CAP as int)
            },
            keepouts: with_placed(
                state.keepouts,
                new,
                units_of(algorithm.space() as int, self.ctx.db_unit_nm as int),
            ),
            rects: state.rects + new,
        }
    }

    /// The state before any algorithm.
    pub open spec fn start(self, keepouts: Seq<KeepoutShape>) -> TileState {
        TileState { running: self.ctx.running as int, keepouts, rects: Seq::empty() }
    }

    /// The state after those of the first `n` algorithms that are asked for.
    pub open spec fn after(
        self,
        keepouts: Seq<KeepoutShape>,
        algorithms: Seq<FillAlgorithm>,
        only: Option<AlgorithmKind>,
        n: int,
    ) -> TileState
        decreases n,
    {
        if n <= 0 {
            self.start(keepouts)
        } else {
            let before = self.after(keepouts, algorithms, only, n - 1);
            if algorithms[n - 1].is_asked(only) {
                self.next(algorithms[n - 1], before)
            } else {
                before
            }
        }
    }

    /// Algorithm `i`, if it is asked for, can run where its turn comes.
    pub open spec fn can_step(
        self,
        keepouts: Seq<KeepoutShape>,
        algorithms: Seq<FillAlgorithm>,
        only: Option<AlgorithmKind>,
        i: int,
    ) -> bool {
        algorithms[i].is_asked(only) ==> self.can_run(algorithms[i], self.after(keepouts, algorithms, only, i).running)
    }

    /// Each algorithm that is asked for is usable where its turn comes and fill is
    /// still wanted.
    pub open spec fn can_use(
        self,
        keepouts: Seq<KeepoutShape>,
        algorithms: Seq<FillAlgorithm>,
        only: Option<AlgorithmKind>,
    ) -> bool {
        forall|i: int| 0 <= i < algorithms.len() ==> #[trigger] self.can_step(keepouts, algorithms, only, i)
    }

    /// The fill of the tile.
    pub open spec fn result(
        self,
        keepouts: Seq<KeepoutShape>,
        algorithms: Seq<FillAlgorithm>,
        only: Option<AlgorithmKind>,
    ) -> Seq<Rect> {
        self.after(keepouts, algorithms, only, algorithms.len() as int).rects
    }
}

impl<'a> TileSite<'a> {
    /// The context once the given area counts.
    fn context_at(&self, running: i128) -> (ctx: TileCtx)
        requires
            self@.valid(),
            0 <= running <= AREA_CAP,
        ensures
            ctx == self@.ctx_at(running as int),
            ctx.valid(),
    {
        TileCtx {
            running,
            target_density: self.ctx.target_density,
            deviation: self.ctx.deviation,
            db_unit_nm: self.ctx.db_unit_nm,
            tile_area: self.ctx.tile_area,
            grid_dbu: self.ctx.grid_dbu,
            chip_corner: self.ctx.chip_corner,
        }
    }

    /// What one algorithm places.
    fn place(&self, algorithm: &FillAlgorithm, keepout: &Vec<Keepout>, running: i128) -> (out: Vec<Rect>)
        requires
            self@.valid(),
            algorithm.is_usable(self.ctx, self@.refs.len() > 0, self@.cores.len() > 0),
            0 <= running <= AREA_CAP,
            keepouts_in_reach(keepouts_of(keepout@)),
        ensures
            out@ == self@.placed(*algorithm, keepouts_of(keepout@), running as int),
            are_fill_rects(out@),
    {
        let ctx = self.context_at(running);
        let all = match algorithm {
            FillAlgorithm::Square(sq) => fill_square_tile(&self.tile, keepout, sq, &ctx),
            FillAlgorithm::Overlap(op) => {
                assert(OverlapSizes::of(*op, ctx) == OverlapSizes::of(*op, self.ctx));
                fill_overlap_tile(keepout, op, &self.refs, &ctx)
            },
            FillAlgorithm::Track(tp) => {
                assert(TrackGrid::of(*tp, ctx) == TrackGrid::of(*tp, self.ctx));
                fill_track_tile(&self.tile, keepout, tp, &self.cores, &ctx, &self.phase)
            },
        };
        assert(ctx == self@.ctx_at(running as int));
        keep_held(self.outline, all)
    }

    /// Run one algorithm.  Returns false, and changes nothing, if fill is wanted
    /// and the algorithm is not usable.
    fn run_one(&self, algorithm: &FillAlgorithm, progress: &mut Progress) -> (done: bool)
        requires
            self@.valid(),
            old(progress).valid(),
        ensures
            final(progress).valid(),
            done == self@.can_run(*algorithm, old(progress)@.running),
            done ==> final(progress)@ == self@.next(*algorithm, old(progress)@),
            !done ==> final(progress)@ == old(progress)@,
    {
        let ghost state = progress@;
        let ctx = self.context_at(progress.running);
        if !ctx.is_below_target() {
            proof {
                self@.idle_changes_nothing(*algorithm, state);
            }
            return true;
        }
        proof {
            usable_alike(*algorithm, self.ctx, self.refs@.len() > 0, self.cores@.len() > 0);
        }
        if !algorithm.check_usable(ctx.db_unit_nm, ctx.grid_dbu, self.refs.len() > 0, self.cores.len() > 0) {
            return false;
        }
        let mut new = self.place(algorithm, &progress.keepouts, progress.running);
        let ghost placed = new@;
        let space = to_units(algorithm.get_space(), self.ctx.db_unit_nm);
        add_keepouts(&mut progress.keepouts, &new, space);
        match algorithm {
            FillAlgorithm::Overlap(_) => {},
            _ => {
                let added = measure(&new);
                progress.running = if added > AREA_CAP - progress.running {
                    AREA_CAP
                } else {
                    progress.running + added
                };
            },
        }
        progress.rects.append(&mut new);
        assert(progress.rects@ =~= state.rects + placed);
        true
    }

    /// Fill the tile: each algorithm that `only` asks for, in order, on the
    /// space that the ones before it left.  `None` if an algorithm is not usable
    /// when its turn comes and fill is still wanted.
    pub fn fill(&self, keepout: Vec<Keepout>, algorithms: &Vec<FillAlgorithm>, only: Option<AlgorithmKind>) -> (out: Option<
        Vec<Rect>,
    >)
        requires
            self@.valid(),
            keepouts_in_reach(keepouts_of(keepout@)),
        ensures
            out is Some <==> self@.can_use(keepouts_of(keepout@), algorithms@, only),
            out matches Some(v) ==> v@ == self@.result(keepouts_of(keepout@), algorithms@, only) && are_fill_rects(v@),
    {
        let ghost base = keepouts_of(keepout@);
        let mut progress = Progress { running: self.ctx.running, keepouts: keepout, rects: Vec::new() };
        let mut i: usize = 0;
        assert(progress@ == self@.start(base));
        while i < algorithms.len()
            invariant
                i <= algorithms@.len(),
                self@.valid(),
                base == keepouts_of(keepout@),
                forall|k: int| 0 <= k < i ==> #[trigger] self@.can_step(base, algorithms@, only, k),
                progress.valid(),
                progress@ == self@.after(base, algorithms@, only, i as int),
            decreases algorithms@.len() - i,
        {
            if algorithms[i].test_asked(only) {
                if !self.run_one(&algorithms[i], &mut progress) {
                    assert(!self@.can_step(base, algorithms@, only, i as int));
                    return None;
                }
            }
            i = i + 1;
        }
        Some(progress.rects)
    }
}

/// Add rectangles grown by `space` to the keep-outs.
fn add_keepouts(keepouts: &mut Vec<Keepout>, rects: &Vec<Rect>, space: i64)
    requires
        keepouts_in_reach(keepouts_of(old(keepouts)@)),
        are_fill_rects(rects@),
        0 <= space <= 0x8000_0001,
    ensures
        keepouts_of(final(keepouts)@) == with_placed(keepouts_of(old(keepouts)@), rects@, space as int),
        keepouts_in_reach(keepouts_of(final(keepouts)@)),
{
    let ghost start = keepouts_of(keepouts@);
    let mut i: usize = 0;
    assert(with_placed(start, rects@.take(0), space as int) =~= start);
    while i < rects.len()
        invariant
            i <= rects@.len(),
            are_fill_rects(rects@),
            0 <= space <= 0x8000_0001,
            keepouts_of(keepouts@) == with_placed(start, rects@.take(i as int), space as int),
            keepouts_in_reach(keepouts_of(keepouts@)),
        decreases rects@.len() - i,
    {
        let ghost before = keepouts_of(keepouts@);
        let r = rects[i];
        assert(is_fill_rect(rects@[i as int]));
        let grown = Rect { x0: r.x0 - space, y0: r.y0 - space, x1: r.x1 + space, y1: r.y1 + space };
        keepouts.push(Keepout::of_rect(grown));
        proof {
            assert(grown == r.spec_grown(space as int));
            assert(keepouts_of(keepouts@) =~= before.push(rect_keepout(grown)));
            assert(with_placed(start, rects@.take(i + 1), space as int) =~= before.push(rect_keepout(grown)));
        }
        i = i + 1;
    }
    assert(rects@.take(i as int) =~= rects@);
}

/// Rectangles with ordered corners have no negative area.
proof fn area_is_not_negative(rects: Seq<Rect>, n: int)
    requires
        0 <= n <= rects.len(),
        forall|a: int| 0 <= a < rects.len() ==> (#[trigger] rects[a]).ordered(),
    ensures
        0 <= crate::fill::rect_area_sum(rects, n),
    decreases n,
{
    if n > 0 {
        area_is_not_negative(rects, n - 1);
        let r = rects[n - 1];
        assert(r.width() * r.height() >= 0) by (nonlinear_arith)
            requires
                r.width() >= 0,
                r.height() >= 0,
        ;
    }
}

/// The sizes of usable parameters are valid.
proof fn sizes_are_valid(op: OverlapParams, ctx: TileCtx)
    requires
        op.usable(),
        ctx.valid(),
    ensures
        OverlapSizes::of(op, ctx).valid(),
{
    let db = ctx.db_unit_nm as int;
    units_bounds(op.min_width as int, db);
    units_bounds(op.max_width as int, db);
    units_bounds(op.min_extension as int, db);
}

/// `r` is ordered and lies within a rectangle that touches no keep-out.
pub open spec fn is_clear_of(keepouts: Seq<KeepoutShape>, r: Rect) -> bool {
    r.ordered() && exists|outer: Rect| #[trigger] outer.spec_encloses(r) && !is_blocked(keepouts, outer)
}

impl Site {
    /// An algorithm changes nothing where no fill is wanted.
    proof fn idle_changes_nothing(self, algorithm: FillAlgorithm, state: TileState)
        requires
            self.valid(),
            0 <= state.running <= AREA_CAP,
            !self.ctx_at(state.running).wants_fill(),
        ensures
            self.next(algorithm, state) == state,
    {
        let all = self.generated(algorithm, state.keepouts, state.running);
        assert(all =~= Seq::empty());
        let new = self.placed(algorithm, state.keepouts, state.running);
        assert(new =~= Seq::empty());
        let next = self.next(algorithm, state);
        assert(next.keepouts =~= state.keepouts);
        assert(next.rects =~= state.rects);
    }

    /// What the algorithm at position `k` places.
    pub open spec fn placed_at(
        self,
        keepouts: Seq<KeepoutShape>,
        algorithms: Seq<FillAlgorithm>,
        only: Option<AlgorithmKind>,
        k: int,
    ) -> Seq<Rect> {
        let before = self.after(keepouts, algorithms, only, k);
        if algorithms[k].is_asked(only) {
            self.placed(algorithms[k], before.keepouts, before.running)
        } else {
            Seq::empty()
        }
    }

    /// `r` lies in the tile and touches no keep-out.
    pub open spec fn is_clear_inside(self, keepouts: Seq<KeepoutShape>, r: Rect) -> bool {
        self.tile.spec_encloses(r) && !is_blocked(keepouts, r)
    }

    /// What an algorithm generates is clear of the keep-outs.
    proof fn generated_is_clear(self, algorithm: FillAlgorithm, keepouts: Seq<KeepoutShape>, running: int)
        requires
            self.valid(),
            self.can_run(algorithm, running),
            0 <= running <= AREA_CAP,
        ensures
            forall|a: int|
                0 <= a < self.generated(algorithm, keepouts, running).len() ==> is_clear_of(
                    keepouts,
                    #[trigger] self.generated(algorithm, keepouts, running)[a],
                ),
            !(algorithm is Overlap) ==> forall|a: int|
                0 <= a < self.generated(algorithm, keepouts, running).len() ==> self.is_clear_inside(
                    keepouts,
                    #[trigger] self.generated(algorithm, keepouts, running)[a],
                ),
    {
        let ctx = self.ctx_at(running);
        let all = self.generated(algorithm, keepouts, running);
        match algorithm {
            FillAlgorithm::Square(sq) => if ctx.wants_fill() {
                let search = SquareSearch::of(self.tile, sq, ctx);
                search_is_valid(self.tile, sq, ctx);
                search.result_is_legal(keepouts);
                assert forall|a: int| 0 <= a < all.len() implies is_clear_of(keepouts, #[trigger] all[a]) by {
                    assert(search.is_clear(keepouts, all[a]));
                    assert(all[a].spec_encloses(all[a]));
                }
                assert forall|a: int| 0 <= a < all.len() implies self.is_clear_inside(keepouts, #[trigger] all[a]) by {
                    assert(search.is_clear(keepouts, all[a]));
                }
            },
            FillAlgorithm::Overlap(op) => if self.refs.len() > 0 && ctx.wants_fill() {
                let sizes = OverlapSizes::of(op, ctx);
                assert(sizes == OverlapSizes::of(op, self.ctx));
                sizes_are_valid(op, ctx);
                if op.cover {
                    sizes.covers_are_legal(keepouts, self.refs, self.refs.len() as int);
                    assert forall|a: int| 0 <= a < all.len() implies is_clear_of(keepouts, #[trigger] all[a]) by {
                        assert(sizes.is_legal_cover(keepouts, self.refs, all[a]));
                        assert(all[a].spec_encloses(all[a]));
                    }
                } else {
                    sizes.stripes_are_legal(ctx, keepouts, self.refs);
                    let h = sizes.common_height(ctx, sizes.carriers(keepouts, self.refs, self.refs.len() as int));
                    assert forall|a: int| 0 <= a < all.len() implies is_clear_of(keepouts, #[trigger] all[a]) by {
                        assert(sizes.is_legal_stripe(keepouts, self.refs, h, all[a]));
                        let c = choose|c: Rect|
                            #[trigger] self.refs.contains(c) && all[a] == crate::fill::overlap::centered_on(
                                c,
                                sizes.stripe_width(c),
                                h,
                            ) && !is_blocked(keepouts, sizes.highest_stripe(c)) && sizes.highest_stripe(
                                c,
                            ).spec_encloses(all[a]);
                        assert(sizes.highest_stripe(c).spec_encloses(all[a]));
                    }
                }
            },
            FillAlgorithm::Track(tp) => if self.cores.len() > 0 && tp.has_tracks() && ctx.wants_fill() {
                assert(TrackGrid::of(tp, ctx) == TrackGrid::of(tp, self.ctx));
                track_fill_is_tidy(self.tile, keepouts, tp, self.cores, ctx, self.phase);
                let run = track_run(self.tile, tp, ctx, self.phase);
                assert forall|a: int| 0 <= a < all.len() implies is_clear_of(keepouts, #[trigger] all[a]) by {
                    assert(run.is_inside(all[a]));
                    assert(all[a].spec_encloses(all[a]));
                }
                assert forall|a: int| 0 <= a < all.len() implies self.is_clear_inside(keepouts, #[trigger] all[a]) by {
                    assert(run.is_inside(all[a]));
                }
            },
        }
    }

    /// The running area stays within its limits.
    proof fn running_is_bounded(
        self,
        keepouts: Seq<KeepoutShape>,
        algorithms: Seq<FillAlgorithm>,
        only: Option<AlgorithmKind>,
        n: int,
    )
        requires
            self.valid(),
            self.can_use(keepouts, algorithms, only),
            0 <= n <= algorithms.len(),
        ensures
            0 <= self.after(keepouts, algorithms, only, n).running <= AREA_CAP,
        decreases n,
    {
        if n > 0 {
            self.running_is_bounded(keepouts, algorithms, only, n - 1);
            let before = self.after(keepouts, algorithms, only, n - 1);
            if algorithms[n - 1].is_asked(only) {
                assert(self.can_step(keepouts, algorithms, only, n - 1));
                let new = self.placed(algorithms[n - 1], before.keepouts, before.running);
                let all = self.generated(algorithms[n - 1], before.keepouts, before.running);
                self.generated_is_clear(algorithms[n - 1], before.keepouts, before.running);
                held_are_held(self.outline, all, all.len() as int);
                assert forall|a: int| 0 <= a < new.len() implies (#[trigger] new[a]).ordered() by {
                    let b = choose|b: int| 0 <= b < all.len() && all[b] == new[a];
                    assert(is_clear_of(before.keepouts, all[b]));
                }
                area_is_not_negative(new, new.len() as int);
            }
        }
    }

    /// What an algorithm places is held by the outline and clear of the
    /// keep-outs at that point.
    pub proof fn placed_is_clear(
        self,
        keepouts: Seq<KeepoutShape>,
        algorithms: Seq<FillAlgorithm>,
        only: Option<AlgorithmKind>,
        k: int,
    )
        requires
            self.valid(),
            self.can_use(keepouts, algorithms, only),
            0 <= k < algorithms.len(),
        ensures
            forall|a: int|
                0 <= a < self.placed_at(keepouts, algorithms, only, k).len() ==> self.outline.holds(
                    #[trigger] self.placed_at(keepouts, algorithms, only, k)[a],
                ) && is_clear_of(
                    self.after(keepouts, algorithms, only, k).keepouts,
                    self.placed_at(keepouts, algorithms, only, k)[a],
                ),
    {
        if algorithms[k].is_asked(only) {
            let before = self.after(keepouts, algorithms, only, k);
            assert(self.can_step(keepouts, algorithms, only, k));
            self.running_is_bounded(keepouts, algorithms, only, k);
            let all = self.generated(algorithms[k], before.keepouts, before.running);
            let new = self.placed_at(keepouts, algorithms, only, k);
            self.generated_is_clear(algorithms[k], before.keepouts, before.running);
            held_are_held(self.outline, all, all.len() as int);
            assert forall|a: int| 0 <= a < new.len() implies self.outline.holds(#[trigger] new[a]) && is_clear_of(
                before.keepouts,
                new[a],
            ) by {
                let b = choose|b: int| 0 <= b < all.len() && all[b] == new[a];
                assert(is_clear_of(before.keepouts, all[b]));
            }
        }
    }

    /// Keep-outs are only ever added, and what is placed joins them, grown.
    proof fn keepouts_accumulate(
        self,
        keepouts: Seq<KeepoutShape>,
        algorithms: Seq<FillAlgorithm>,
        only: Option<AlgorithmKind>,
        m: int,
        n: int,
    )
        requires
            0 <= m <= n <= algorithms.len(),
        ensures
            forall|r: Rect|
                is_blocked(self.after(keepouts, algorithms, only, m).keepouts, r) ==> #[trigger] is_blocked(
                    self.after(keepouts, algorithms, only, n).keepouts,
                    r,
                ),
        decreases n - m,
    {
        if m < n {
            self.keepouts_accumulate(keepouts, algorithms, only, m, n - 1);
            let (before, now) = (
                self.after(keepouts, algorithms, only, n - 1).keepouts,
                self.after(keepouts, algorithms, only, n).keepouts,
            );
            assert forall|r: Rect|
                is_blocked(self.after(keepouts, algorithms, only, m).keepouts, r) implies #[trigger] is_blocked(
                now,
                r,
            ) by {
                assert(is_blocked(before, r));
                let i = choose|i: int| 0 <= i < before.len() && (#[trigger] before[i]).blocks(r);
                assert(now[i] == before[i]);
            }
        }
    }

    /// Every rectangle of the fill is held by the outline and lies within one
    /// that touches none of the keep-outs.
    pub proof fn fill_is_clear(
        self,
        keepouts: Seq<KeepoutShape>,
        algorithms: Seq<FillAlgorithm>,
        only: Option<AlgorithmKind>,
        n: int,
    )
        requires
            self.valid(),
            self.can_use(keepouts, algorithms, only),
            0 <= n <= algorithms.len(),
        ensures
            forall|a: int|
                0 <= a < self.after(keepouts, algorithms, only, n).rects.len() ==> self.outline.holds(
                    #[trigger] self.after(keepouts, algorithms, only, n).rects[a],
                ) && is_clear_of(keepouts, self.after(keepouts, algorithms, only, n).rects[a]),
        decreases n,
    {
        if n > 0 {
            self.fill_is_clear(keepouts, algorithms, only, n - 1);
            self.placed_is_clear(keepouts, algorithms, only, n - 1);
            self.keepouts_accumulate(keepouts, algorithms, only, 0, n - 1);
            let new = self.placed_at(keepouts, algorithms, only, n - 1);
            let before = self.after(keepouts, algorithms, only, n - 1);
            let rects = self.after(keepouts, algorithms, only, n).rects;
            assert(rects =~= before.rects + new);
            assert forall|a: int| 0 <= a < rects.len() implies self.outline.holds(#[trigger] rects[a]) && is_clear_of(
                keepouts,
                rects[a],
            ) by {
                if a < before.rects.len() {
                    assert(rects[a] == before.rects[a]);
                } else {
                    let r = new[a - before.rects.len()];
                    assert(rects[a] == r);
                    assert(is_clear_of(before.keepouts, r));
                    let outer = choose|outer: Rect|
                        #[trigger] outer.spec_encloses(r) && !is_blocked(before.keepouts, outer);
                    assert(!is_blocked(keepouts, outer)) by {
                        if is_blocked(keepouts, outer) {
                            assert(is_blocked(before.keepouts, outer));
                        }
                    }
                }
            }
        }
    }

    /// Without overlap algorithms, every rectangle of the fill lies in the tile
    /// and touches none of the keep-outs.
    pub proof fn fill_is_clear_inside(
        self,
        keepouts: Seq<KeepoutShape>,
        algorithms: Seq<FillAlgorithm>,
        only: Option<AlgorithmKind>,
        n: int,
    )
        requires
            self.valid(),
            self.can_use(keepouts, algorithms, only),
            0 <= n <= algorithms.len(),
            forall|i: int| 0 <= i < algorithms.len() ==> !(#[trigger] algorithms[i] is Overlap),
        ensures
            forall|a: int|
                0 <= a < self.after(keepouts, algorithms, only, n).rects.len() ==> self.is_clear_inside(
                    keepouts,
                    #[trigger] self.after(keepouts, algorithms, only, n).rects[a],
                ),
        decreases n,
    {
        if n > 0 {
            self.fill_is_clear_inside(keepouts, algorithms, only, n - 1);
            self.running_is_bounded(keepouts, algorithms, only, n - 1);
            self.keepouts_accumulate(keepouts, algorithms, only, 0, n - 1);
            let before = self.after(keepouts, algorithms, only, n - 1);
            let rects = self.after(keepouts, algorithms, only, n).rects;
            assert(!(algorithms[n - 1] is Overlap));
            assert(self.can_step(keepouts, algorithms, only, n - 1));
            if algorithms[n - 1].is_asked(only) {
                let all = self.generated(algorithms[n - 1], before.keepouts, before.running);
                let new = self.placed(algorithms[n - 1], before.keepouts, before.running);
                self.generated_is_clear(algorithms[n - 1], before.keepouts, before.running);
                held_are_held(self.outline, all, all.len() as int);
                assert forall|a: int| 0 <= a < rects.len() implies self.is_clear_inside(keepouts, #[trigger] rects[a]) by {
                    if a < before.rects.len() {
                        assert(rects[a] == before.rects[a]);
                    } else {
                        let r = new[a - before.rects.len()];
                        assert(rects[a] == r);
                        let b = choose|b: int| 0 <= b < all.len() && all[b] == r;
                        assert(self.is_clear_inside(before.keepouts, all[b]));
                        assert(!is_blocked(keepouts, r)) by {
                            if is_blocked(keepouts, r) {
                                assert(is_blocked(before.keepouts, r));
                            }
                        }
                    }
                }
            }
        }
    }

    /// What a later algorithm places keeps more than the space of an earlier
    /// one from everything that the earlier one placed.
    pub proof fn algorithms_keep_apart(
        self,
        keepouts: Seq<KeepoutShape>,
        algorithms: Seq<FillAlgorithm>,
        only: Option<AlgorithmKind>,
        j: int,
        k: int,
        a: int,
        b: int,
    )
        requires
            self.valid(),
            self.can_use(keepouts, algorithms, only),
            0 <= j < k < algorithms.len(),
            0 <= a < self.placed_at(keepouts, algorithms, only, j).len(),
            0 <= b < self.placed_at(keepouts, algorithms, only, k).len(),
        ensures
            !self.placed_at(keepouts, algorithms, only, j)[a].spec_grown(
                units_of(algorithms[j].space() as int, self.ctx.db_unit_nm as int),
            ).meets(self.placed_at(keepouts, algorithms, only, k)[b]),
    {
        let space = units_of(algorithms[j].space() as int, self.ctx.db_unit_nm as int);
        let early = self.placed_at(keepouts, algorithms, only, j);
        let late = self.placed_at(keepouts, algorithms, only, k)[b];
        let grown = early[a].spec_grown(space);
        self.placed_is_clear(keepouts, algorithms, only, k);
        let at_k = self.after(keepouts, algorithms, only, k).keepouts;
        let outer = choose|outer: Rect| #[trigger] outer.spec_encloses(late) && !is_blocked(at_k, outer);
        if grown.meets(late) {
            let at_j = self.after(keepouts, algorithms, only, j).keepouts;
            let next = self.after(keepouts, algorithms, only, j + 1).keepouts;
            assert(next == with_placed(at_j, early, space));
            assert(next[at_j.len() + a] == rect_keepout(grown));
            assert(grown.meets(outer));
            assert(next[at_j.len() + a].blocks(outer));
            assert(is_blocked(next, outer));
            self.keepouts_accumulate(keepouts, algorithms, only, j + 1, k);
            assert(is_blocked(at_k, outer));
        }
    }
}

} // verus!
