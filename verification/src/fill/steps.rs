//! How the algorithms of a layer follow upon each other in a tile.

use crate::config::AlgorithmKind;
use crate::fill::amounts::covered;
use crate::fill::amounts::lacks_fill;
use crate::fill::amounts::sum_is_covered;
use crate::fill::overlap::overlap_fill;
use crate::fill::square::SquareSearch;
use crate::fill::tile::held;
use crate::fill::tile::is_clear_of;
use crate::fill::tile::Site;
use crate::fill::track::track_fill;
use crate::fill::TileCtx;
use crate::geom::Rect;
use crate::pdk::units_of;
use crate::pdk::FillAlgorithm;
use crate::touch::is_blocked;
use crate::touch::KeepoutShape;
use vstd::prelude::*;

verus! {

/// An area never counts for more than this.
pub open spec fn capped(area: int) -> int {
    if area > 0x1_0000_0000_0000_0000_0000_0000 {
        0x1_0000_0000_0000_0000_0000_0000
    } else {
        area
    }
}

/// The least space of the algorithm, in nanometres.
pub open spec fn least_space(algorithm: FillAlgorithm) -> int {
    match algorithm {
        FillAlgorithm::Square(p) => p.min_space as int,
        FillAlgorithm::Track(p) => p.min_space as int,
        FillAlgorithm::Overlap(p) => p.min_space as int,
    }
}

/// The algorithm is of the kind.
pub open spec fn is_kind(algorithm: FillAlgorithm, kind: AlgorithmKind) -> bool {
    match kind {
        AlgorithmKind::Square => algorithm is Square,
        AlgorithmKind::Track => algorithm is Track,
        AlgorithmKind::Overlap => algorithm is Overlap,
    }
}

proof fn cover_is_not_negative(rects: Seq<Rect>)
    requires
        forall|a: int| 0 <= a < rects.len() ==> (#[trigger] rects[a]).ordered(),
    ensures
        covered(rects) >= 0,
    decreases rects.len(),
{
    if rects.len() > 0 {
        let before = rects.drop_last();
        assert forall|a: int| 0 <= a < before.len() implies (#[trigger] before[a]).ordered() by {
            assert(before[a] == rects[a]);
        }
        cover_is_not_negative(before);
        let r = rects.last();
        assert((r.x1 - r.x0) * (r.y1 - r.y0) >= 0) by (nonlinear_arith)
            requires
                r.x0 <= r.x1,
                r.y0 <= r.y1,
        ;
    }
}

impl Site {
    /// What the squares and the rectangles on tracks of the first `n` algorithms
    /// cover, doubled.  Overlap fill, which lies over other fill, does not count.
    pub open spec fn counted(
        self,
        keepouts: Seq<KeepoutShape>,
        algorithms: Seq<FillAlgorithm>,
        only: Option<AlgorithmKind>,
        n: int,
    ) -> int
        decreases n,
    {
        if n <= 0 {
            0
        } else {
            self.counted(keepouts, algorithms, only, n - 1) + if algorithms[n - 1] is Overlap {
                0
            } else {
                covered(self.placed_at(keepouts, algorithms, only, n - 1))
            }
        }
    }

    /// Each algorithm starts from what is there and what those before it placed.
    pub proof fn running_counts_what_is_placed(
        self,
        keepouts: Seq<KeepoutShape>,
        algorithms: Seq<FillAlgorithm>,
        only: Option<AlgorithmKind>,
        n: int,
    )
        requires
            self.valid(),
            self.can_use(keepouts, algorithms, only),
            0 <= n <= algorithms.len(),
        ensures
            self.after(keepouts, algorithms, only, n).running == capped(
                self.ctx.running + self.counted(keepouts, algorithms, only, n),
            ),
            self.counted(keepouts, algorithms, only, n) >= 0,
        decreases n,
    {
        if n > 0 {
            self.running_counts_what_is_placed(keepouts, algorithms, only, n - 1);
            self.placed_is_clear(keepouts, algorithms, only, n - 1);
            let state = self.after(keepouts, algorithms, only, n - 1);
            let new = self.placed_at(keepouts, algorithms, only, n - 1);
            assert forall|a: int| 0 <= a < new.len() implies (#[trigger] new[a]).ordered() by {
                assert(is_clear_of(state.keepouts, new[a]));
            }
            cover_is_not_negative(new);
            sum_is_covered(new);
        }
    }

    /// What an algorithm places is added to what is there.
    pub proof fn fill_grows_by_what_is_placed(
        self,
        keepouts: Seq<KeepoutShape>,
        algorithms: Seq<FillAlgorithm>,
        only: Option<AlgorithmKind>,
        n: int,
    )
        requires
            0 < n <= algorithms.len(),
        ensures
            self.after(keepouts, algorithms, only, n).rects == self.after(keepouts, algorithms, only, n - 1).rects
                + self.placed_at(keepouts, algorithms, only, n - 1),
            self.after(keepouts, algorithms, only, 0).rects.len() == 0,
    {
        let before = self.after(keepouts, algorithms, only, n - 1).rects;
        assert(before + Seq::<Rect>::empty() =~= before);
    }

    /// The context of an algorithm once `area`, doubled, is placed.
    pub open spec fn ctx_after(self, area: int) -> TileCtx {
        TileCtx { running: capped(self.ctx.running + area) as i128, ..self.ctx }
    }

    /// Each algorithm that is asked for fills what is left: it places what its
    /// method finds with the area counted so far, as far as the outline holds it.
    pub proof fn each_algorithm_fills_the_rest(
        self,
        keepouts: Seq<KeepoutShape>,
        algorithms: Seq<FillAlgorithm>,
        only: Option<AlgorithmKind>,
        k: int,
        r: Rect,
    )
        requires
            self.valid(),
            self.can_use(keepouts, algorithms, only),
            0 <= k < algorithms.len(),
            only matches Some(kind) ==> is_kind(algorithms[k], kind),
        ensures
            ({
                let ctx = self.ctx_after(self.counted(keepouts, algorithms, only, k));
                let seen = self.after(keepouts, algorithms, only, k).keepouts;
                let found = match algorithms[k] {
                    FillAlgorithm::Square(sq) => SquareSearch::of(self.tile, sq, ctx).result(seen),
                    FillAlgorithm::Track(tp) => track_fill(self.tile, seen, tp, self.cores, ctx, self.phase),
                    FillAlgorithm::Overlap(op) => overlap_fill(seen, op, self.refs, ctx),
                };
                self.placed_at(keepouts, algorithms, only, k).contains(r) <==> found.contains(r) && self.outline.holds(r)
            }),
    {
        self.running_counts_what_is_placed(keepouts, algorithms, only, k);
        let state = self.after(keepouts, algorithms, only, k);
        let all = self.generated(algorithms[k], state.keepouts, state.running);
        held_iff(self, all, all.len() as int, r);
        assert(all.take(all.len() as int) =~= all);
    }

    /// An algorithm of another kind than the one asked for places nothing.
    pub proof fn other_kinds_are_skipped(
        self,
        keepouts: Seq<KeepoutShape>,
        algorithms: Seq<FillAlgorithm>,
        kind: AlgorithmKind,
        k: int,
    )
        requires
            0 <= k < algorithms.len(),
            !is_kind(algorithms[k], kind),
        ensures
            self.placed_at(keepouts, algorithms, Some(kind), k).len() == 0,
            self.after(keepouts, algorithms, Some(kind), k + 1) == self.after(keepouts, algorithms, Some(kind), k),
    {
    }

    /// A later algorithm sees the keep-outs and, grown by the least space of its
    /// algorithm, everything that is placed; nothing else stands in its way.
    pub proof fn later_fill_sees_what_is_placed(
        self,
        keepouts: Seq<KeepoutShape>,
        algorithms: Seq<FillAlgorithm>,
        only: Option<AlgorithmKind>,
        n: int,
        r: Rect,
    )
        requires
            0 <= n <= algorithms.len(),
        ensures
            is_blocked(self.after(keepouts, algorithms, only, n).keepouts, r) <==> is_blocked(keepouts, r) || exists|
                k: int,
                a: int,
            |
                0 <= k < n && 0 <= a < self.placed_at(keepouts, algorithms, only, k).len() && (
                #[trigger] self.placed_at(keepouts, algorithms, only, k)[a]).spec_grown(
                    units_of(least_space(algorithms[k]), self.ctx.db_unit_nm as int),
                ).meets(r),
        decreases n,
    {
        if n > 0 {
            self.later_fill_sees_what_is_placed(keepouts, algorithms, only, n - 1, r);
            let space = units_of(least_space(algorithms[n - 1]), self.ctx.db_unit_nm as int);
            let before = self.after(keepouts, algorithms, only, n - 1).keepouts;
            let now = self.after(keepouts, algorithms, only, n).keepouts;
            let new = self.placed_at(keepouts, algorithms, only, n - 1);
            assert(now.len() == before.len() + new.len());
            assert forall|i: int| 0 <= i < before.len() implies #[trigger] now[i] == before[i] by {}
            assert forall|a: int| 0 <= a < new.len() implies (#[trigger] now[before.len() + a]).blocks(r)
                == new[a].spec_grown(space).meets(r) by {}
            if is_blocked(before, r) {
                let i = choose|i: int| 0 <= i < before.len() && (#[trigger] before[i]).blocks(r);
                assert(now[i].blocks(r));
            }
            if is_blocked(now, r) && !is_blocked(before, r) {
                let i = choose|i: int| 0 <= i < now.len() && (#[trigger] now[i]).blocks(r);
                if i < before.len() {
                    assert(before[i].blocks(r));
                }
                let a = i - before.len();
                assert(now[before.len() + a].blocks(r));
                assert(self.placed_at(keepouts, algorithms, only, n - 1)[a].spec_grown(space).meets(r));
            }
            if exists|k: int, a: int|
                0 <= k < n && 0 <= a < self.placed_at(keepouts, algorithms, only, k).len() && (
                #[trigger] self.placed_at(keepouts, algorithms, only, k)[a]).spec_grown(
                    units_of(least_space(algorithms[k]), self.ctx.db_unit_nm as int),
                ).meets(r) {
                let (k, a) = choose|k: int, a: int|
                    0 <= k < n && 0 <= a < self.placed_at(keepouts, algorithms, only, k).len() && (
                    #[trigger] self.placed_at(keepouts, algorithms, only, k)[a]).spec_grown(
                        units_of(least_space(algorithms[k]), self.ctx.db_unit_nm as int),
                    ).meets(r);
                if k == n - 1 {
                    assert(now[before.len() + a].blocks(r));
                }
            }
        }
    }
}

/// What the outline holds of a list.
proof fn held_iff(site: Site, rects: Seq<Rect>, n: int, r: Rect)
    requires
        0 <= n <= rects.len(),
    ensures
        held(site.outline, rects, n).contains(r) <==> rects.take(n).contains(r) && site.outline.holds(r),
    decreases n,
{
    let now = held(site.outline, rects, n);
    if n > 0 {
        held_iff(site, rects, n - 1, r);
        let before = held(site.outline, rects, n - 1);
        let (a, b) = (rects.take(n - 1), rects.take(n));
        assert(b =~= a.push(rects[n - 1]));
        if before.contains(r) {
            let i = choose|i: int| 0 <= i < before.len() && before[i] == r;
            assert(now[i] == r);
        }
        if a.contains(r) {
            let i = choose|i: int| 0 <= i < a.len() && a[i] == r;
            assert(b[i] == r);
        }
        if r == rects[n - 1] {
            assert(b[n - 1] == r);
            if site.outline.holds(r) {
                assert(now[before.len() as int] == r);
            }
        }
        if now.contains(r) {
            let i = choose|i: int| 0 <= i < now.len() && now[i] == r;
            if i < before.len() {
                assert(before[i] == r);
            }
        }
        if b.contains(r) {
            let i = choose|i: int| 0 <= i < b.len() && b[i] == r;
            if i < n - 1 {
                assert(a[i] == r);
            }
        }
    }
}

impl Site {
    /// An algorithm whose turn comes when no more than half the deviation is missing
    /// has nothing to place, and need not be usable.
    pub proof fn idle_algorithm_need_not_be_usable(
        self,
        keepouts: Seq<KeepoutShape>,
        algorithms: Seq<FillAlgorithm>,
        only: Option<AlgorithmKind>,
        k: int,
    )
        requires
            self.valid(),
            0 <= k < algorithms.len(),
            0 <= self.after(keepouts, algorithms, only, k).running <= 0x1_0000_0000_0000_0000_0000_0000,
            ({
                let running = self.after(keepouts, algorithms, only, k).running;
                !lacks_fill(TileCtx { running: running as i128, ..self.ctx })
            }),
        ensures
            self.can_step(keepouts, algorithms, only, k),
            self.placed_at(keepouts, algorithms, only, k).len() == 0,
    {
    }

    /// Squares cannot be placed with parameters outside of their limits: where they
    /// are asked for and fill is lacking, the tile is refused.
    pub proof fn unusable_squares_are_refused(
        self,
        keepouts: Seq<KeepoutShape>,
        algorithms: Seq<FillAlgorithm>,
        only: Option<AlgorithmKind>,
        k: int,
    )
        requires
            0 <= k < algorithms.len(),
            only matches Some(kind) ==> is_kind(algorithms[k], kind),
            algorithms[k] matches FillAlgorithm::Square(sq) && !sq.usable(),
            0 <= self.after(keepouts, algorithms, only, k).running <= 0x1_0000_0000_0000_0000_0000_0000,
            ({
                let running = self.after(keepouts, algorithms, only, k).running;
                lacks_fill(TileCtx { running: running as i128, ..self.ctx })
            }),
        ensures
            !self.can_use(keepouts, algorithms, only),
    {
        assert(!self.can_step(keepouts, algorithms, only, k));
    }
}

} // verus!
