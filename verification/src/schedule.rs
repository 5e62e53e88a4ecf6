//! The record of a run of the dispatcher over one frame, the rules that
//! every run obeys, and what follows from the rules.
//!
//! A run is a list of levels, one for each depth of the layer tree. A level
//! is a list of passes: in a pass one layer is offered to every decoder of
//! the pool, in pool order. A decoder that has claimed a layer in a level is
//! used up for that level and is not asked again in it.

use crate::layer::Layer;
use crate::tree::total;
use vstd::prelude::*;

verus! {

/// One pass over the pool for one layer.
pub struct Pass {
    /// The place in the frame's layer list of the layer on offer.
    pub layer: int,
    /// For each decoder, whether it was used up when the pass began.
    pub used: Seq<bool>,
    /// For each decoder, whether it claimed the layer in this pass.
    pub claimed: Seq<bool>,
}

impl Pass {
    /// The decoder at `j` was asked in this pass: the layer was offered to
    /// its runner, and so to its worker if the runner has one.
    pub open spec fn asked(self, j: int) -> bool {
        !self.used[j]
    }

    /// Some decoder claimed the layer in this pass.
    pub open spec fn any_claim(self) -> bool {
        exists|j: int| 0 <= j < self.claimed.len() && #[trigger] self.claimed[j]
    }

    /// The decoder at `j` is used up when the pass ends.
    pub open spec fn used_after(self, j: int) -> bool {
        self.used[j] || self.claimed[j]
    }

    /// The pass is over a pool of `pool` decoders, and only a decoder that
    /// was asked has claimed.
    pub open spec fn obeys(self, pool: int) -> bool {
        &&& self.used.len() == pool
        &&& self.claimed.len() == pool
        &&& forall|j: int| 0 <= j < pool && #[trigger] self.claimed[j] ==> !self.used[j]
    }

    /// The pass comes next after `prev` in a level: the decoders used up are
    /// those that were used up when `prev` ended, and the layer is the same
    /// one if `prev` had a claim and the next one if it had none.
    pub open spec fn follows(self, prev: Pass) -> bool {
        &&& forall|j: int| 0 <= j < self.used.len() ==> #[trigger] self.used[j] == prev.used_after(j)
        &&& self.layer == prev.layer + if prev.any_claim() {
            0int
        } else {
            1int
        }
    }
}

/// The passes of one level: the layers at `first`, `first + 1`, ...,
/// `first + width - 1` of the frame's layer list, each offered until a pass
/// over the pool brings no claim.
pub struct LevelRun {
    pub first: int,
    pub width: int,
    pub passes: Seq<Pass>,
}

impl LevelRun {
    /// The level starts at its first layer with no decoder used up, every
    /// pass follows the one before, and the level ends with the pass without
    /// a claim on its last layer.
    pub open spec fn obeys(self, pool: int) -> bool {
        &&& self.width > 0
        &&& self.passes.len() > 0
        &&& self.passes[0].layer == self.first
        &&& forall|j: int| 0 <= j < pool ==> !#[trigger] self.passes[0].used[j]
        &&& forall|k: int| 0 <= k < self.passes.len() ==> (#[trigger] self.passes[k]).obeys(pool)
        &&& forall|k: int|
            1 <= k < self.passes.len() ==> (#[trigger] self.passes[k]).follows(self.passes[k - 1])
        &&& !self.passes.last().any_claim()
        &&& self.passes.last().layer == self.first + self.width - 1
    }

    /// No decoder claimed anything in this level.
    pub open spec fn quiet(self) -> bool {
        forall|k: int| 0 <= k < self.passes.len() ==> !(#[trigger] self.passes[k]).any_claim()
    }
}

/// The record of one frame's decoding.
pub struct FrameRun {
    /// The levels, from the roots down.
    pub levels: Seq<LevelRun>,
    /// For each layer of the frame's layer list, the children that the
    /// decoders attached to it, in the order they were attached.
    pub attached: Seq<Seq<Layer>>,
}

impl FrameRun {
    /// No decoder claimed anything in this run.
    pub open spec fn quiet(self) -> bool {
        forall|i: int| 0 <= i < self.levels.len() ==> (#[trigger] self.levels[i]).quiet()
    }

    /// The run is that of a frame with `roots` roots that came out with the
    /// child counts `counts`: the first level is that of the roots, each
    /// further level is that of the children of the level before, and the
    /// last level is the one whose layers got no children.
    pub open spec fn obeys(self, pool: int, roots: int, counts: Seq<usize>) -> bool {
        &&& (self.levels.len() == 0) == (roots == 0)
        &&& roots == 0 ==> counts.len() == 0
        &&& self.levels.len() > 0 ==> {
            &&& self.levels[0].first == 0
            &&& self.levels[0].width == roots
            &&& self.levels.last().first + self.levels.last().width == counts.len()
            &&& total(counts, counts.len() as int) == total(counts, self.levels.last().first)
        }
        &&& forall|i: int| 0 <= i < self.levels.len() ==> (#[trigger] self.levels[i]).obeys(pool)
        &&& forall|i: int|
            1 <= i < self.levels.len() ==> {
                &&& (#[trigger] self.levels[i]).first == self.levels[i - 1].first + self.levels[i
                    - 1].width
                &&& self.levels[i].width == total(counts, self.levels[i].first) - total(
                    counts,
                    self.levels[i - 1].first,
                )
            }
    }
}

/// The number of decoders that are not used up.
pub open spec fn free(used: Seq<bool>) -> nat
    decreases used.len(),
{
    if used.len() == 0 {
        0
    } else {
        free(used.drop_last()) + if used.last() {
            0nat
        } else {
            1nat
        }
    }
}

/// Where decoders are only ever used up, no more are free after than before.
pub proof fn lemma_free_monotone(before: Seq<bool>, after: Seq<bool>)
    requires
        before.len() == after.len(),
        forall|j: int| 0 <= j < before.len() && before[j] ==> after[j],
    ensures
        free(after) <= free(before),
    decreases before.len(),
{
    if before.len() > 0 {
        lemma_free_monotone(before.drop_last(), after.drop_last());
    }
}

/// A claim uses a decoder up: fewer are free after it than before.
pub proof fn lemma_claim_uses_up(before: Seq<bool>, after: Seq<bool>, w: int)
    requires
        before.len() == after.len(),
        forall|j: int| 0 <= j < before.len() && before[j] ==> after[j],
        0 <= w < before.len(),
        !before[w],
        after[w],
    ensures
        free(after) < free(before),
    decreases before.len(),
{
    if w == before.len() - 1 {
        lemma_free_monotone(before.drop_last(), after.drop_last());
    } else {
        lemma_claim_uses_up(before.drop_last(), after.drop_last(), w);
    }
}

/// Where no decoder is used up, all are free.
pub proof fn lemma_free_all(used: Seq<bool>)
    requires
        forall|j: int| 0 <= j < used.len() ==> !#[trigger] used[j],
    ensures
        free(used) == used.len(),
    decreases used.len(),
{
    if used.len() > 0 {
        lemma_free_all(used.drop_last());
    }
}

proof fn lemma_budget(level: LevelRun, pool: int, k: int)
    requires
        level.obeys(pool),
        0 <= k < level.passes.len(),
    ensures
        free(level.passes[k].used) + k - (level.passes[k].layer - level.first) <= pool,
    decreases k,
{
    assert(level.passes[k].obeys(pool));
    if k == 0 {
        lemma_free_all(level.passes[0].used);
    } else {
        let prev = level.passes[k - 1];
        let next = level.passes[k];
        lemma_budget(level, pool, k - 1);
        assert(prev.obeys(pool));
        assert(next.follows(prev));
        if prev.any_claim() {
            let w = choose|w: int| 0 <= w < prev.claimed.len() && #[trigger] prev.claimed[w];
            assert(next.used[w] == prev.used_after(w));
            assert forall|j: int| 0 <= j < prev.used.len() && prev.used[j] implies next.used[j] by {
                assert(next.used[j] == prev.used_after(j));
            }
            lemma_claim_uses_up(prev.used, next.used, w);
        } else {
            assert forall|j: int| 0 <= j < prev.used.len() && prev.used[j] implies next.used[j] by {
                assert(next.used[j] == prev.used_after(j));
            }
            lemma_free_monotone(prev.used, next.used);
        }
    }
}

/// A level ends: each of its layers is left by one pass without a claim,
/// and every other pass uses up a decoder for the level, so there are no
/// more passes than layers and decoders together.
pub proof fn lemma_level_is_bounded(level: LevelRun, pool: int)
    requires
        level.obeys(pool),
    ensures
        level.passes.len() <= level.width + pool,
{
    lemma_budget(level, pool, level.passes.len() - 1);
}

proof fn lemma_level_starts(run: FrameRun, pool: int, roots: int, counts: Seq<usize>, i: int)
    requires
        run.obeys(pool, roots, counts),
        0 <= i < run.levels.len(),
    ensures
        i <= run.levels[i].first,
    decreases i,
{
    if i > 0 {
        lemma_level_starts(run, pool, roots, counts, i - 1);
        lemma_levels_advance(run, pool, roots, counts, i);
    }
}

/// A run has no more levels than the frame has layers in the end: every
/// level settles at least one layer.
pub proof fn lemma_levels_are_bounded(run: FrameRun, pool: int, roots: int, counts: Seq<usize>)
    requires
        run.obeys(pool, roots, counts),
    ensures
        run.levels.len() <= counts.len(),
{
    if run.levels.len() > 0 {
        let last = run.levels.len() - 1;
        lemma_level_starts(run, pool, roots, counts, last);
        assert(run.levels[last].obeys(pool));
    }
}

/// A pool without decoders claims nothing.
pub proof fn lemma_empty_pool_is_quiet(run: FrameRun, roots: int, counts: Seq<usize>)
    requires
        run.obeys(0, roots, counts),
    ensures
        run.quiet(),
{
    assert forall|i: int| 0 <= i < run.levels.len() implies (#[trigger] run.levels[i]).quiet() by {
        let level = run.levels[i];
        assert(level.obeys(0));
        assert forall|k: int| 0 <= k < level.passes.len() implies !(
        #[trigger] level.passes[k]).any_claim() by {
            assert(level.passes[k].obeys(0));
        }
    }
}

/// A decoder that is used up after some pass of a level is used up in every
/// later pass of the level.
pub proof fn lemma_used_stays(level: LevelRun, pool: int, j: int, k1: int, k2: int)
    requires
        level.obeys(pool),
        0 <= j < pool,
        0 <= k1 < k2 < level.passes.len(),
        level.passes[k1].used_after(j),
    ensures
        level.passes[k2].used[j],
    decreases k2 - k1,
{
    assert(level.passes[k2].follows(level.passes[k2 - 1]));
    assert(level.passes[k2].obeys(pool));
    if k1 < k2 - 1 {
        lemma_used_stays(level, pool, j, k1, k2 - 1);
    }
}

/// Within one level a decoder claims at most once, and once it has claimed
/// it is not asked again in that level, whatever layers come later.
pub proof fn lemma_one_claim_per_level(level: LevelRun, pool: int, j: int, k1: int, k2: int)
    requires
        level.obeys(pool),
        0 <= j < pool,
        0 <= k1 < k2 < level.passes.len(),
        level.passes[k1].claimed[j],
    ensures
        !level.passes[k2].asked(j),
        !level.passes[k2].claimed[j],
{
    lemma_used_stays(level, pool, j, k1, k2);
    assert(level.passes[k2].obeys(pool));
}

/// After a pass in which some decoder claimed the layer, the same layer is
/// offered once more, and every decoder that is not yet used up is asked
/// again.
pub proof fn lemma_asked_again_after_claim(level: LevelRun, pool: int, k: int, j: int)
    requires
        level.obeys(pool),
        0 <= k < level.passes.len(),
        level.passes[k].any_claim(),
        0 <= j < pool,
        !level.passes[k].used_after(j),
    ensures
        k + 1 < level.passes.len(),
        level.passes[k + 1].layer == level.passes[k].layer,
        level.passes[k + 1].asked(j),
{
    assert(level.passes[k + 1].follows(level.passes[k]));
    assert(level.passes[k + 1].obeys(pool));
}

/// A layer is left exactly when a pass over the pool brought no claim: the
/// pass after one without a claim is on the next layer, the pass after one
/// with a claim is on the same layer, and the last pass of a level is
/// without a claim.
pub proof fn lemma_halts_on_empty_pass(level: LevelRun, pool: int, k: int)
    requires
        level.obeys(pool),
        0 <= k < level.passes.len(),
    ensures
        level.passes[k].any_claim() ==> k + 1 < level.passes.len() && level.passes[k + 1].layer
            == level.passes[k].layer,
        !level.passes[k].any_claim() && k + 1 < level.passes.len() ==> level.passes[k + 1].layer
            == level.passes[k].layer + 1,
{
    if k + 1 < level.passes.len() {
        assert(level.passes[k + 1].follows(level.passes[k]));
    }
}

/// The passes of a level go through its layers in order, without leaving
/// one out.
pub proof fn lemma_layers_in_order(level: LevelRun, pool: int, k: int)
    requires
        level.obeys(pool),
        0 <= k < level.passes.len(),
    ensures
        level.first <= level.passes[k].layer <= level.first + level.width - 1,
        k > 0 ==> level.passes[k - 1].layer <= level.passes[k].layer <= level.passes[k - 1].layer
            + 1,
{
    lemma_layers_rise(level, pool, 0, k);
    lemma_layers_rise(level, pool, k, level.passes.len() - 1);
    if k > 0 {
        assert(level.passes[k].follows(level.passes[k - 1]));
    }
}

proof fn lemma_layers_rise(level: LevelRun, pool: int, a: int, b: int)
    requires
        level.obeys(pool),
        0 <= a <= b < level.passes.len(),
    ensures
        level.passes[a].layer <= level.passes[b].layer,
    decreases b - a,
{
    if a < b {
        lemma_layers_rise(level, pool, a, b - 1);
        assert(level.passes[b].follows(level.passes[b - 1]));
    }
}

/// Every level starts behind the one before, every level but the last gave
/// children to the next, and the last level gave none: the run goes on while
/// layers are added and ends with the first level that adds none.
pub proof fn lemma_levels_advance(
    run: FrameRun,
    pool: int,
    roots: int,
    counts: Seq<usize>,
    i: int,
)
    requires
        run.obeys(pool, roots, counts),
        0 <= i < run.levels.len(),
    ensures
        i > 0 ==> run.levels[i - 1].first < run.levels[i].first,
        i + 1 < run.levels.len() ==> total(counts, run.levels[i + 1].first) > total(
            counts,
            run.levels[i].first,
        ),
        i + 1 == run.levels.len() ==> total(counts, counts.len() as int) == total(
            counts,
            run.levels[i].first,
        ),
{
    if i > 0 {
        assert(run.levels[i - 1].obeys(pool));
        assert(run.levels[i].first == run.levels[i - 1].first + run.levels[i - 1].width);
    }
    if i + 1 < run.levels.len() {
        assert(run.levels[i + 1].obeys(pool));
        assert(run.levels[i + 1].width == total(counts, run.levels[i + 1].first) - total(
            counts,
            run.levels[i].first,
        ));
    }
}

} // verus!
