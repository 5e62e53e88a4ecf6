//! The working collection of one frame's decoding: the layers that are done,
//! in the order of the frame's layer list, with their child counts, and the
//! layers that wait their turn.

use crate::decoder::LayerStack;
use crate::layer::{staged, Layer};
use crate::tree::{child_start, lemma_total_monotone, lemma_total_push, well_shaped};
use std::collections::VecDeque;
use vstd::prelude::*;

verus! {

/// The layers `settled`, with their child counts `counts`, and the layers
/// `pending`, are those of a frame of `limit` bytes whose roots were
/// `origin`, and `attached` lists for each settled layer the children it was
/// given.
///
/// Each settled layer has its count, which is the number of its children;
/// the children of the settled layers stand in blocks behind the roots, in
/// the order of their parents; each child lies within the frame and within
/// the payload of its parent; and each layer is what it was when it became
/// known, or an extension of it.
#[verifier::opaque]
pub open spec fn shaped(
    limit: usize,
    settled: Seq<Layer>,
    counts: Seq<usize>,
    pending: Seq<Layer>,
    origin: Seq<Layer>,
    attached: Seq<Seq<Layer>>,
) -> bool {
    let roots = origin.len() as int;
    let done = settled.len() as int;
    let known = settled + pending;
    &&& counts.len() == done
    &&& attached.len() == done
    &&& child_start(roots, counts, done) == known.len()
    &&& forall|i: int| 0 <= i < done ==> i < #[trigger] child_start(roots, counts, i)
    &&& forall|i: int| 0 <= i < roots ==> (#[trigger] known[i]).extends(origin[i], limit)
    &&& forall|i: int| 0 <= i < done ==> (#[trigger] attached[i]).len() == counts[i]
    &&& forall|i: int, m: int|
        0 <= i < done && 0 <= m < attached[i].len() ==> {
            &&& (#[trigger] attached[i][m]).fits(limit)
            &&& attached[i][m].child_of(settled[i].payload)
            &&& known[child_start(roots, counts, i) + m].extends(attached[i][m], limit)
        }
}

/// In a shaped worklist there is one count for each settled layer, and the
/// roots and the children counted so far are the layers known.
pub proof fn lemma_shaped_size(
    limit: usize,
    settled: Seq<Layer>,
    counts: Seq<usize>,
    pending: Seq<Layer>,
    origin: Seq<Layer>,
    attached: Seq<Seq<Layer>>,
)
    requires
        shaped(limit, settled, counts, pending, origin, attached),
    ensures
        counts.len() == settled.len(),
        attached.len() == settled.len(),
        child_start(origin.len() as int, counts, settled.len() as int) == settled.len()
            + pending.len(),
{
    reveal(shaped);
}

/// In a shaped worklist the roots stand first, each as it was or extended.
pub proof fn lemma_shaped_root(
    limit: usize,
    settled: Seq<Layer>,
    counts: Seq<usize>,
    pending: Seq<Layer>,
    origin: Seq<Layer>,
    attached: Seq<Seq<Layer>>,
    i: int,
)
    requires
        shaped(limit, settled, counts, pending, origin, attached),
        0 <= i < origin.len(),
    ensures
        i < (settled + pending).len(),
        (settled + pending)[i].extends(origin[i], limit),
{
    reveal(shaped);
    lemma_total_monotone(counts, 0, settled.len() as int);
}

/// In a shaped worklist the `m`-th child that was attached to the settled
/// layer at `i` stands at the `m`-th place of that layer's block, as it was
/// attached or extended, within the frame and within the payload of its
/// parent.
pub proof fn lemma_shaped_child(
    limit: usize,
    settled: Seq<Layer>,
    counts: Seq<usize>,
    pending: Seq<Layer>,
    origin: Seq<Layer>,
    attached: Seq<Seq<Layer>>,
    i: int,
    m: int,
)
    requires
        shaped(limit, settled, counts, pending, origin, attached),
        0 <= i < settled.len(),
        0 <= m < counts[i],
    ensures
        attached.len() == settled.len(),
        attached[i].len() == counts[i],
        attached[i][m].fits(limit),
        attached[i][m].child_of(settled[i].payload),
        (settled + pending)[child_start(origin.len() as int, counts, i) + m].extends(attached[i][m], limit),
{
    reveal(shaped);
    assert(attached[i].len() == counts[i]);
    assert(attached[i][m].fits(limit));
}

/// A shaped worklist in which nothing waits holds a well-shaped list.
pub proof fn lemma_shaped_done(
    limit: usize,
    settled: Seq<Layer>,
    counts: Seq<usize>,
    origin: Seq<Layer>,
    attached: Seq<Seq<Layer>>,
)
    requires
        shaped(limit, settled, counts, Seq::empty(), origin, attached),
    ensures
        well_shaped(origin.len() as int, counts, settled.len() as int),
{
    reveal(shaped);
}

/// The layers of a frame while it is decoded. A layer is taken from the
/// front of `pending`, decoded, and put at the end of `settled`; its
/// children go to the end of `pending`. So a layer never moves once it is
/// settled, and the layers come out level by level.
pub struct Worklist<'a> {
    pub data: &'a Vec<u8>,
    pub settled: Vec<Layer>,
    pub counts: Vec<usize>,
    pub pending: VecDeque<Layer>,
}

impl<'a> Worklist<'a> {
    /// Every layer known, in the order of the frame's layer list.
    pub open spec fn known(self) -> Seq<Layer> {
        self.settled@ + self.pending@
    }

    /// The worklist is that of a frame whose roots were `origin`, and
    /// `attached` lists for each settled layer the children it was given.
    pub open spec fn wf(self, origin: Seq<Layer>, attached: Seq<Seq<Layer>>) -> bool {
        shaped(
            self.data.len(),
            self.settled@,
            self.counts@,
            self.pending@,
            origin,
            attached,
        )
    }

    /// The worklist of a frame with the bytes `data` whose layers `roots` all
    /// wait.
    pub fn seed(data: &'a Vec<u8>, roots: Vec<Layer>) -> (w: Worklist<'a>)
        ensures
            w.data@ == data@,
            w.settled@.len() == 0,
            w.counts@.len() == 0,
            w.pending@ == roots@,
            w.wf(roots@, Seq::empty()),
    {
        let mut pending: VecDeque<Layer> = VecDeque::new();
        let ghost all = roots@;
        for layer in it: roots
            invariant
                it.seq() == all,
                pending@ == all.take(it.index() as int),
        {
            pending.push_back(layer);
            assert(all.take(it.index() + 1) == all.take(it.index() as int).push(
                all[it.index() as int],
            ));
        }
        assert(all.take(all.len() as int) == all);
        let w = Worklist { data, settled: Vec::new(), counts: Vec::new(), pending };
        proof {
            reveal(shaped);
            assert(w.settled@ + w.pending@ == all);
        }
        w
    }

    /// Takes the layer whose turn it is, if one waits.
    pub fn take(&mut self) -> (target: Option<Layer>)
        ensures
            final(self).data == old(self).data,
            final(self).settled == old(self).settled,
            final(self).counts == old(self).counts,
            old(self).pending@.len() == 0 ==> target.is_none() && final(self).pending@ == old(self).pending@,
            old(self).pending@.len() > 0 ==> target == Some(old(self).pending@[0]) && final(self).pending@ == old(self).pending@.subrange(1, old(self).pending@.len() as int),
    {
        self.pending.pop_front()
    }

    /// Settles the layer that was taken last, as `target`, with the children
    /// it was given: the layer goes behind the settled ones with the number
    /// of its children, and the children wait behind all that wait.
    pub fn settle(
        &mut self,
        target: Layer,
        children: Vec<Layer>,
        Ghost(base): Ghost<Layer>,
        Ghost(origin): Ghost<Seq<Layer>>,
        Ghost(attached): Ghost<Seq<Seq<Layer>>>,
    )
        requires
            shaped(
                old(self).data.len(),
                old(self).settled@,
                old(self).counts@,
                seq![base] + old(self).pending@,
                origin,
                attached,
            ),
            target.extends(base, old(self).data.len()),
            staged(target, children@, old(self).data.len()),
        ensures
            final(self).data == old(self).data,
            final(self).settled@ == old(self).settled@.push(target),
            final(self).counts@ == old(self).counts@.push(children@.len() as usize),
            final(self).pending@ == old(self).pending@ + children@,
            final(self).wf(origin, attached.push(children@)),
    {
        let ghost limit = self.data.len();
        let ghost roots = origin.len() as int;
        let ghost done = self.settled@.len() as int;
        let ghost counts0 = self.counts@;
        let ghost before = self.settled@ + (seq![base] + self.pending@);
        let ghost kids = children@;
        self.counts.push(children.len());
        let ghost waiting = self.pending@;
        for child in it: children
            invariant
                it.seq() == kids,
                self.pending@ == waiting + kids.take(it.index() as int),
                self.data == old(self).data,
                self.settled == old(self).settled,
                self.counts@ == counts0.push(kids.len() as usize),
        {
            self.pending.push_back(child);
            assert(kids.take(it.index() + 1) == kids.take(it.index() as int).push(
                kids[it.index() as int],
            ));
        }
        assert(kids.take(kids.len() as int) == kids);
        self.settled.push(target);
        proof {
            reveal(shaped);
            let counts1 = self.counts@;
            let after = self.settled@ + self.pending@;
            let grown_list = attached.push(kids);
            lemma_total_push(counts0, kids.len() as usize, done);
            assert(before.len() == done + 1 + waiting.len());
            assert(after.len() == before.len() + kids.len());
            assert forall|i: int| 0 <= i <= done implies child_start(roots, counts1, i)
                == child_start(roots, counts0, i) by {
                lemma_total_push(counts0, kids.len() as usize, i);
            }
            assert forall|q: int| 0 <= q < before.len() implies (#[trigger] after[q]).extends(before[q], limit) by {
                if q == done {
                    assert(after[q] == target);
                    assert(before[q] == base);
                } else {
                    assert(after[q] == before[q]);
                }
            }
            assert forall|i: int| 0 <= i < roots implies (#[trigger] after[i]).extends(origin[i], limit) by {
                lemma_total_monotone(counts0, 0, done);
                assert(before[i].extends(origin[i], limit));
                assert(after[i].extends(before[i], limit));
            }
            assert forall|i: int, m: int|
                0 <= i < done + 1 && 0 <= m < grown_list[i].len() implies {
                &&& (#[trigger] grown_list[i][m]).fits(limit)
                &&& grown_list[i][m].child_of(self.settled@[i].payload)
                &&& after[child_start(roots, counts1, i) + m].extends(grown_list[i][m], limit)
            } by {
                if i < done {
                    assert(grown_list[i] == attached[i]);
                    assert(attached[i][m].fits(limit));
                    let q = child_start(roots, counts0, i) + m;
                    lemma_total_monotone(counts0, i + 1, done);
                    lemma_total_monotone(counts0, 0, i);
                    assert(0 <= q < before.len());
                    assert(before[q].extends(attached[i][m], limit));
                    assert(after[q].extends(before[q], limit));
                } else {
                    assert(grown_list[i] == kids);
                    assert(after[before.len() + m] == kids[m]);
                }
            }
        }
    }

    /// The layers as a worker sees them while `target` is on offer.
    pub fn stack<'b>(&'b self, target: &'b Layer) -> (s: LayerStack<'b>)
        ensures
            s.bytes() == self.data@,
            s.layers() == self.settled@.push(*target) + self.pending@,
            s.spec_position() == self.settled@.len(),
    {
        LayerStack::new(self.data, &self.settled, target, &self.pending)
    }
}

} // verus!
