//! The shape of a layer tree, kept as one count of children per layer.
//!
//! The layers of a frame are listed level by level: the roots, then the
//! children of the first root, of the second, and so on through every layer
//! in the list. So the children of a layer stand in one block, and the blocks
//! follow each other in the order of their parents.

use vstd::prelude::*;

verus! {

/// The sum of the first `upto` counts.
pub open spec fn total(counts: Seq<usize>, upto: int) -> int
    decreases upto,
{
    if upto <= 0 {
        0
    } else {
        total(counts, upto - 1) + counts[upto - 1]
    }
}

/// Where the children of layer `i` start in the layer list.
pub open spec fn child_start(roots: int, counts: Seq<usize>, i: int) -> int {
    roots + total(counts, i)
}

/// `counts` gives the shape of a list of `len` layers of which the first
/// `roots` are roots: there is one count for each layer, every layer but the
/// roots is some layer's child, and children come after their parent.
pub open spec fn well_shaped(roots: int, counts: Seq<usize>, len: int) -> bool {
    &&& 0 <= roots
    &&& counts.len() == len
    &&& child_start(roots, counts, len) == len
    &&& forall|i: int| 0 <= i < len ==> i < #[trigger] child_start(roots, counts, i)
}

/// The place `p` is in the block of children of layer `i`.
pub open spec fn in_block(roots: int, counts: Seq<usize>, i: int, p: int) -> bool {
    child_start(roots, counts, i) <= p < child_start(roots, counts, i + 1)
}

/// The first layer at or after `i` whose block of children ends after `p`.
pub open spec fn parent_from(roots: int, counts: Seq<usize>, p: int, i: int) -> int
    decreases counts.len() - i,
{
    if i >= counts.len() {
        i
    } else if p < child_start(roots, counts, i + 1) {
        i
    } else {
        parent_from(roots, counts, p, i + 1)
    }
}

/// The parent of the layer at place `p`.
pub open spec fn parent(roots: int, counts: Seq<usize>, p: int) -> int {
    parent_from(roots, counts, p, 0)
}

/// A sum of counts does not change when a count is added at the end, and the
/// sum over all of them grows by that count.
pub proof fn lemma_total_push(counts: Seq<usize>, x: usize, upto: int)
    requires
        0 <= upto <= counts.len(),
    ensures
        total(counts.push(x), upto) == total(counts, upto),
        total(counts.push(x), counts.len() as int + 1) == total(counts, counts.len() as int) + x,
{
    lemma_total_agree(counts.push(x), counts, upto);
    lemma_total_agree(counts.push(x), counts, counts.len() as int);
}

/// Sums over two lists of counts agree as far as the lists do.
pub proof fn lemma_total_agree(a: Seq<usize>, b: Seq<usize>, upto: int)
    requires
        0 <= upto <= a.len(),
        upto <= b.len(),
        forall|i: int| 0 <= i < upto ==> a[i] == b[i],
    ensures
        total(a, upto) == total(b, upto),
    decreases upto,
{
    if upto > 0 {
        lemma_total_agree(a, b, upto - 1);
    }
}

/// A longer sum is no smaller.
pub proof fn lemma_total_monotone(counts: Seq<usize>, a: int, b: int)
    requires
        0 <= a <= b,
    ensures
        0 <= total(counts, a) <= total(counts, b),
    decreases b,
{
    if a < b {
        lemma_total_monotone(counts, a, b - 1);
    } else if a > 0 {
        lemma_total_monotone(counts, a - 1, a - 1);
    }
}

proof fn lemma_parent_from(roots: int, counts: Seq<usize>, p: int, i: int)
    requires
        0 <= i < counts.len(),
        child_start(roots, counts, i) <= p < child_start(roots, counts, counts.len() as int),
    ensures
        i <= parent_from(roots, counts, p, i) < counts.len(),
        child_start(roots, counts, parent_from(roots, counts, p, i)) <= p,
        p < child_start(roots, counts, parent_from(roots, counts, p, i) + 1),
    decreases counts.len() - i,
{
    if p >= child_start(roots, counts, i + 1) {
        lemma_parent_from(roots, counts, p, i + 1);
    }
}

/// In a well-shaped list every layer but the roots has exactly one parent,
/// which stands before it: the one layer whose block of children holds it.
pub proof fn lemma_parent_unique(roots: int, counts: Seq<usize>, len: int, p: int)
    requires
        well_shaped(roots, counts, len),
        roots <= p < len,
    ensures
        0 <= parent(roots, counts, p) < p,
        in_block(roots, counts, parent(roots, counts, p), p),
        forall|j: int|
            0 <= j < len && #[trigger] in_block(roots, counts, j, p) ==> j == parent(
                roots,
                counts,
                p,
            ),
{
    let r = parent(roots, counts, p);
    lemma_parent_from(roots, counts, p, 0);
    assert(r < child_start(roots, counts, r));
    assert forall|j: int| 0 <= j < len && #[trigger] in_block(roots, counts, j, p) implies j
        == r by {
        if j < r {
            lemma_total_monotone(counts, j + 1, r);
        } else if j > r {
            lemma_total_monotone(counts, r + 1, j);
        }
    }
}

/// A place in the block of a layer lies behind the roots and within the
/// list, and the layer is its parent.
pub proof fn lemma_block_holds(roots: int, counts: Seq<usize>, len: int, i: int, p: int)
    requires
        well_shaped(roots, counts, len),
        0 <= i < len,
        in_block(roots, counts, i, p),
    ensures
        roots <= p < len,
        parent(roots, counts, p) == i,
{
    lemma_blocks_tile(roots, counts, len, i);
    lemma_parent_unique(roots, counts, len, p);
}

/// The blocks of children of a well-shaped list follow each other without a
/// gap from the end of the roots to the end of the list, so to read them off
/// one pass over the counts is enough.
pub proof fn lemma_blocks_tile(roots: int, counts: Seq<usize>, len: int, i: int)
    requires
        well_shaped(roots, counts, len),
        0 <= i < len,
    ensures
        child_start(roots, counts, 0) == roots,
        child_start(roots, counts, i + 1) == child_start(roots, counts, i) + counts[i],
        roots <= child_start(roots, counts, i) <= child_start(roots, counts, i + 1) <= len,
{
    lemma_total_monotone(counts, 0, i);
    lemma_total_monotone(counts, i + 1, len);
}

} // verus!
