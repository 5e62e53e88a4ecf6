//! Runs in the making: what holds of the passes of a layer, of the layers of
//! a level and of the levels of a frame while the dispatcher goes through
//! them, and how each step carries it on.

use crate::layer::Layer;
use crate::schedule::{FrameRun, LevelRun, Pass};
use crate::tree::{lemma_total_agree, total};
use vstd::prelude::*;

verus! {

/// The passes `added` are those of one layer, the one at `layer`, offered
/// to a pool of which the decoders `used` were used up: each pass but the
/// last brought a claim, the last brought none, and a decoder is used up in
/// a pass if it was before or has claimed since.
#[verifier::opaque]
pub open spec fn fixpoint(added: Seq<Pass>, pool: int, layer: int, used: Seq<bool>) -> bool {
    &&& added.len() > 0
    &&& forall|q: int|
        0 <= q < added.len() ==> (#[trigger] added[q]).obeys(pool) && added[q].layer == layer
    &&& forall|j: int| 0 <= j < pool ==> added[0].used[j] == #[trigger] used[j]
    &&& forall|q: int, j: int|
        1 <= q < added.len() && 0 <= j < pool ==> #[trigger] added[q].used[j] == added[q
            - 1].used_after(j)
    &&& forall|q: int| 0 <= q < added.len() - 1 ==> (#[trigger] added[q]).any_claim()
    &&& !added.last().any_claim()
}

/// The passes `passes` are those of the first `k` layers of a level that
/// starts at `first`, and the decoders `used` are used up after them.
#[verifier::opaque]
pub open spec fn level_so_far(
    passes: Seq<Pass>,
    pool: int,
    first: int,
    k: int,
    used: Seq<bool>,
) -> bool {
    &&& used.len() == pool
    &&& forall|q: int| 0 <= q < passes.len() ==> (#[trigger] passes[q]).obeys(pool)
    &&& forall|q: int| 1 <= q < passes.len() ==> (#[trigger] passes[q]).follows(passes[q - 1])
    &&& passes.len() == 0 ==> k == 0 && forall|j: int| 0 <= j < pool ==> !#[trigger] used[j]
    &&& passes.len() > 0 ==> {
        &&& k > 0
        &&& passes[0].layer == first
        &&& forall|j: int| 0 <= j < pool ==> !#[trigger] passes[0].used[j]
        &&& !passes.last().any_claim()
        &&& passes.last().layer == first + k - 1
        &&& forall|j: int| 0 <= j < pool ==> #[trigger] used[j] == passes.last().used_after(j)
    }
}

/// The passes of one more layer carry a level one layer further.
pub proof fn lemma_level_grows(
    passes: Seq<Pass>,
    added: Seq<Pass>,
    pool: int,
    first: int,
    k: int,
    used: Seq<bool>,
    after: Seq<bool>,
)
    requires
        level_so_far(passes, pool, first, k, used),
        k >= 0,
        fixpoint(added, pool, first + k, used),
        after.len() == pool,
        forall|j: int| 0 <= j < pool ==> #[trigger] after[j] == added.last().used_after(j),
    ensures
        level_so_far(passes + added, pool, first, k + 1, after),
{
    reveal(level_so_far);
    reveal(fixpoint);
    let all = passes + added;
    let n = passes.len() as int;
    assert forall|q: int| 0 <= q < all.len() implies (#[trigger] all[q]).obeys(pool) by {
        if q < n {
            assert(all[q] == passes[q]);
        } else {
            assert(all[q] == added[q - n]);
        }
    }
    assert forall|q: int| 1 <= q < all.len() implies (#[trigger] all[q]).follows(all[q - 1]) by {
        if q < n {
            assert(all[q] == passes[q]);
            assert(all[q - 1] == passes[q - 1]);
        } else if q == n {
            assert(all[q] == added[0]);
            assert(all[q - 1] == passes.last());
            assert(added[0].obeys(pool));
            assert forall|j: int| 0 <= j < all[q].used.len() implies #[trigger] all[q].used[j]
                == all[q - 1].used_after(j) by {
                assert(added[0].used[j] == used[j]);
            }
        } else {
            assert(all[q] == added[q - n]);
            assert(all[q - 1] == added[q - n - 1]);
            assert(added[q - n].obeys(pool));
            assert(added[q - n - 1].any_claim());
        }
    }
    assert(all.last() == added.last());
    if n == 0 {
        assert(all[0] == added[0]);
        assert forall|j: int| 0 <= j < pool implies !#[trigger] all[0].used[j] by {
            assert(added[0].used[j] == used[j]);
        }
    } else {
        assert(all[0] == passes[0]);
    }
}

/// A level that has gone through all its layers obeys the rules.
pub proof fn lemma_level_done(
    passes: Seq<Pass>,
    pool: int,
    first: int,
    width: int,
    used: Seq<bool>,
)
    requires
        level_so_far(passes, pool, first, width, used),
        width > 0,
    ensures
        (LevelRun { first, width, passes }).obeys(pool),
{
    reveal(level_so_far);
}

/// Before the first layer of a level no decoder is used up.
pub proof fn lemma_level_begins(pool: int, first: int, used: Seq<bool>)
    requires
        used.len() == pool,
        forall|j: int| 0 <= j < pool ==> !#[trigger] used[j],
    ensures
        level_so_far(Seq::empty(), pool, first, 0, used),
{
    reveal(level_so_far);
}

/// A layer whose first pass brought no claim had no other pass.
pub proof fn lemma_fixpoint_quiet(added: Seq<Pass>, pool: int, layer: int, used: Seq<bool>)
    requires
        fixpoint(added, pool, layer, used),
    ensures
        added.len() > 0,
        !added[0].any_claim() ==> added.len() == 1,
{
    reveal(fixpoint);
}

/// The passes `passes` brought no claim.
pub open spec fn quiet_passes(passes: Seq<Pass>) -> bool {
    forall|k: int| 0 <= k < passes.len() ==> !(#[trigger] passes[k]).any_claim()
}

/// Passes that brought no claim are made of passes that brought no claim.
pub proof fn lemma_quiet_passes_split(earlier: Seq<Pass>, added: Seq<Pass>)
    requires
        quiet_passes(earlier + added),
    ensures
        quiet_passes(earlier),
        quiet_passes(added),
{
    let all = earlier + added;
    assert forall|k: int| 0 <= k < earlier.len() implies !(#[trigger] earlier[k]).any_claim() by {
        assert(all[k] == earlier[k]);
    }
    assert forall|k: int| 0 <= k < added.len() implies !(#[trigger] added[k]).any_claim() by {
        assert(all[earlier.len() + k] == added[k]);
    }
}

/// The levels `levels` brought no claim.
pub open spec fn quiet_levels(levels: Seq<LevelRun>) -> bool {
    forall|i: int| 0 <= i < levels.len() ==> (#[trigger] levels[i]).quiet()
}

/// Levels that brought no claim are made of levels that brought no claim.
pub proof fn lemma_quiet_levels_split(earlier: Seq<LevelRun>, level: LevelRun)
    requires
        quiet_levels(earlier.push(level)),
    ensures
        quiet_levels(earlier),
        level.quiet(),
{
    let all = earlier.push(level);
    assert forall|i: int| 0 <= i < earlier.len() implies (#[trigger] earlier[i]).quiet() by {
        assert(all[i] == earlier[i]);
    }
    assert(all[earlier.len() as int] == level);
}

/// The levels `levels` are those gone through so far in the decoding of a
/// frame with `roots` roots, with `done` layers settled under the child
/// counts `counts` and `waiting` layers still to come.
#[verifier::opaque]
pub open spec fn levels_so_far(
    levels: Seq<LevelRun>,
    pool: int,
    roots: int,
    counts: Seq<usize>,
    done: int,
    waiting: int,
) -> bool {
    &&& levels.len() == 0 ==> done == 0 && waiting == roots
    &&& levels.len() > 0 ==> {
        &&& levels[0].first == 0
        &&& levels[0].width == roots
        &&& levels.last().first + levels.last().width == done
        &&& waiting == total(counts, done) - total(counts, levels.last().first)
    }
    &&& forall|i: int| 0 <= i < levels.len() ==> (#[trigger] levels[i]).obeys(pool)
    &&& forall|i: int|
        0 <= i < levels.len() ==> 0 <= (#[trigger] levels[i]).first && levels[i].first
            + levels[i].width <= done
    &&& forall|i: int|
        1 <= i < levels.len() ==> {
            &&& (#[trigger] levels[i]).first == levels[i - 1].first + levels[i - 1].width
            &&& levels[i].width == total(counts, levels[i].first) - total(
                counts,
                levels[i - 1].first,
            )
        }
}

/// Before the first level all the roots wait.
pub proof fn lemma_levels_begin(pool: int, roots: int, counts: Seq<usize>)
    ensures
        levels_so_far(Seq::empty(), pool, roots, counts, 0, roots),
{
    reveal(levels_so_far);
}

/// One more level carries the run one level further: the layers that
/// waited are settled, and their children wait.
pub proof fn lemma_levels_grow(
    earlier: Seq<LevelRun>,
    level: LevelRun,
    pool: int,
    roots: int,
    counts1: Seq<usize>,
    counts2: Seq<usize>,
    done1: int,
    waiting1: int,
)
    requires
        levels_so_far(earlier, pool, roots, counts1, done1, waiting1),
        level.obeys(pool),
        level.first == done1,
        level.width == waiting1,
        0 <= done1 == counts1.len(),
        counts1.is_prefix_of(counts2),
        counts2.len() == done1 + waiting1,
        waiting1 == roots + total(counts1, done1) - done1,
    ensures
        levels_so_far(
            earlier.push(level),
            pool,
            roots,
            counts2,
            done1 + waiting1,
            roots + total(counts2, done1 + waiting1) - (done1 + waiting1),
        ),
{
    reveal(levels_so_far);
    let levels = earlier.push(level);
    assert forall|x: int| 0 <= x <= done1 implies total(counts2, x) == total(counts1, x) by {
        lemma_total_agree(counts2, counts1, x);
    }
    assert forall|i: int| 0 <= i < levels.len() implies (#[trigger] levels[i]).obeys(pool) by {
        if i < earlier.len() {
            assert(levels[i] == earlier[i]);
        }
    }
    assert forall|i: int| 0 <= i < levels.len() implies 0 <= (#[trigger] levels[i]).first
        && levels[i].first + levels[i].width <= done1 + waiting1 by {
        if i < earlier.len() {
            assert(levels[i] == earlier[i]);
        }
    }
    assert forall|i: int| 1 <= i < levels.len() implies {
        &&& (#[trigger] levels[i]).first == levels[i - 1].first + levels[i - 1].width
        &&& levels[i].width == total(counts2, levels[i].first) - total(
            counts2,
            levels[i - 1].first,
        )
    } by {
        assert(levels[i - 1] == earlier[i - 1]);
        assert(0 <= earlier[i - 1].first && earlier[i - 1].first + earlier[i - 1].width <= done1);
        if i < earlier.len() {
            assert(levels[i] == earlier[i]);
            assert(0 <= earlier[i].first && earlier[i].first + earlier[i].width <= done1);
        } else {
            assert(earlier.last() == earlier[i - 1]);
        }
    }
    if earlier.len() == 0 {
        assert(levels[0] == level);
    } else {
        assert(levels[0] == earlier[0]);
    }
    assert(levels.last() == level);
}

/// When nothing waits any more the levels gone through are a run that
/// obeys the rules.
pub proof fn lemma_levels_done(
    levels: Seq<LevelRun>,
    attached: Seq<Seq<Layer>>,
    pool: int,
    roots: int,
    counts: Seq<usize>,
)
    requires
        levels_so_far(levels, pool, roots, counts, counts.len() as int, 0),
        0 <= roots,
    ensures
        (FrameRun { levels, attached }).obeys(pool, roots, counts),
{
    reveal(levels_so_far);
    if levels.len() > 0 {
        assert(levels[0].obeys(pool));
    }
}

} // verus!
