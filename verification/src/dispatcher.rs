//! The dispatcher: it drives a pool of decoders over the layers of a frame,
//! level by level, until no decoder claims anything more.

use crate::decoder::{Context, Decoder, ExecType, Status, Worker};
use crate::frame::Frame;
use crate::layer::{grown, lemma_grown_transitive, Attr, Fault, Layer, LayerProxy, Span};
use crate::profile::Profile;
use crate::progress::{
    fixpoint, lemma_fixpoint_quiet, lemma_level_begins, lemma_level_done, lemma_level_grows,
    lemma_levels_begin, lemma_levels_done, lemma_levels_grow, lemma_quiet_levels_split,
    lemma_quiet_passes_split, level_so_far, levels_so_far, quiet_levels, quiet_passes,
};
use crate::schedule::{
    free, lemma_claim_uses_up, lemma_empty_pool_is_quiet, FrameRun, LevelRun, Pass,
};
use crate::tree::{
    child_start, in_block, lemma_block_holds, lemma_parent_unique, parent, well_shaped,
};
use crate::worklist::{
    lemma_shaped_child, lemma_shaped_done, lemma_shaped_root, lemma_shaped_size, shaped, Worklist,
};
use vstd::prelude::*;

verus! {

/// Whether an answer counts as a claim: a worker that claims has claimed,
/// and so has one that failed.
pub open spec fn absorbed(outcome: Result<Status, Fault>) -> bool {
    match outcome {
        Ok(status) => status == Status::Claimed,
        Err(_) => true,
    }
}

/// Whether what a worker gathered with its answer reaches the layer: only
/// with a claim, and only what was gathered for this layer.
pub open spec fn adopted(
    outcome: Result<Status, Fault>,
    payload: Option<Span>,
    limit: usize,
    proxy: LayerProxy,
) -> bool {
    outcome == Ok::<Status, Fault>(Status::Claimed) && Layer::accepts(payload, limit, proxy)
}

/// How an offer is settled.
pub struct Settled {
    /// Whether a claim is reported.
    pub done: bool,
    /// The fields of the layer after the offer.
    pub attrs: Seq<Attr>,
    /// The payload of the layer after the offer.
    pub payload: Option<Span>,
    /// The children of the layer after the offer.
    pub children: Seq<Layer>,
}

/// How the offer of `target`, which has the children `children`, is settled
/// in a frame of `limit` bytes when the worker answers `outcome` and has
/// gathered `proxy`.
pub open spec fn settle_offer(
    outcome: Result<Status, Fault>,
    proxy: LayerProxy,
    limit: usize,
    target: Layer,
    children: Seq<Layer>,
) -> Settled {
    if adopted(outcome, target.payload, limit, proxy) {
        Settled {
            done: true,
            attrs: target.attrs@ + proxy.attrs(),
            payload: proxy.window(),
            children: children + proxy.children(),
        }
    } else {
        Settled {
            done: absorbed(outcome),
            attrs: target.attrs@,
            payload: target.payload,
            children,
        }
    }
}

/// Settles one offer of a layer in a frame of `limit` bytes, given the
/// worker's answer and what it gathered.
///
/// A claim moves what was gathered to the layer and its children; any other
/// answer leaves both as they were. A failure counts as a claim that
/// gathered nothing.
pub fn conclude(
    outcome: Result<Status, Fault>,
    proxy: LayerProxy,
    limit: usize,
    target: &mut Layer,
    children: &mut Vec<Layer>,
) -> (done: bool)
    ensures
        proxy.sound(),
        done == settle_offer(outcome, proxy, limit, *old(target), old(children)@).done,
        final(target).id == old(target).id,
        final(target).span == old(target).span,
        final(target).attrs@ == settle_offer(
            outcome,
            proxy,
            limit,
            *old(target),
            old(children)@,
        ).attrs,
        final(target).payload == settle_offer(
            outcome,
            proxy,
            limit,
            *old(target),
            old(children)@,
        ).payload,
        final(children)@ == settle_offer(
            outcome,
            proxy,
            limit,
            *old(target),
            old(children)@,
        ).children,
        !adopted(outcome, old(target).payload, limit, proxy) ==> {
            &&& *final(target) == *old(target)
            &&& *final(children) == *old(children)
        },
        grown(*old(target), old(children)@, *final(target), final(children)@, limit),
{
    match outcome {
        Ok(Status::Claimed) => {
            target.absorb(proxy, limit, children);
            true
        },
        Ok(Status::NotApplicable) => {
            let _ = proxy.into_parts();
            false
        },
        Err(_) => {
            let _ = proxy.into_parts();
            true
        },
    }
}

/// A worker that fails is to the dispatcher a worker that claims the layer
/// and adds nothing: both offers are settled alike, whatever the failing
/// worker had gathered.
pub proof fn lemma_fault_is_bare_claim(
    fault: Fault,
    gathered: LayerProxy,
    bare: LayerProxy,
    limit: usize,
    target: Layer,
    children: Seq<Layer>,
)
    requires
        bare.untouched(),
        bare.limit() == limit,
        bare.window() == target.payload,
    ensures
        settle_offer(Err(fault), gathered, limit, target, children) == settle_offer(
            Ok(Status::Claimed),
            bare,
            limit,
            target,
            children,
        ),
{
    let a = settle_offer(Err(fault), gathered, limit, target, children);
    let b = settle_offer(Ok(Status::Claimed), bare, limit, target, children);
    assert(a.attrs =~= b.attrs);
    assert(a.children =~= b.children);
}

/// One decoder of the pool with its worker, as the dispatcher of one
/// execution class holds it. Where the decoder declares another class the
/// runner has no worker and is inactive.
pub struct Runner<D: Decoder> {
    typ: ExecType,
    declared: ExecType,
    decoder: D,
    worker: Option<D::Work>,
}

impl<D: Decoder> Runner<D> {
    /// The execution class of the dispatcher that holds the runner.
    pub closed spec fn typ(&self) -> ExecType {
        self.typ
    }

    /// The execution class that the decoder declared when it was last asked.
    pub closed spec fn declared(&self) -> ExecType {
        self.declared
    }

    /// The decoder.
    pub closed spec fn decoder(&self) -> D {
        self.decoder
    }

    /// The runner has a worker.
    pub closed spec fn active(&self) -> bool {
        self.worker.is_some()
    }

    /// The two runners are set up alike: the same decoder for the same
    /// class, both with a worker or both without.
    pub open spec fn same_setup(&self, other: &Self) -> bool {
        &&& self.typ() == other.typ()
        &&& self.declared() == other.declared()
        &&& self.decoder() == other.decoder()
        &&& self.active() == other.active()
    }

    /// A runner for `decoder` in a dispatcher of class `typ`. It is active
    /// exactly if the decoder declares that class.
    pub fn new(typ: &ExecType, ctx: &Context, decoder: D) -> (r: Runner<D>)
        ensures
            r.typ() == *typ,
            r.decoder() == decoder,
            r.active() == (r.declared() == r.typ()),
    {
        let mut runner = Runner { typ: *typ, declared: *typ, decoder, worker: None };
        runner.reset(ctx);
        runner
    }

    /// Asks the decoder for its class again and replaces the worker: by a
    /// fresh one if the class is the dispatcher's, by none if it is not.
    pub fn reset(&mut self, ctx: &Context)
        ensures
            final(self).typ() == old(self).typ(),
            final(self).decoder() == old(self).decoder(),
            final(self).active() == (final(self).declared() == final(self).typ()),
    {
        let declared = self.decoder.metadata().exec_type;
        self.declared = declared;
        self.worker = if same_class(&declared, &self.typ) {
            Some(self.decoder.new_worker(ctx))
        } else {
            None
        };
    }

    /// Whether the runner has a worker.
    pub fn is_active(&self) -> (b: bool)
        ensures
            b == self.active(),
    {
        self.worker.is_some()
    }

    /// Offers `target` to the worker and settles the offer. An inactive
    /// runner reports a claim at once and changes nothing.
    ///
    /// Whatever the worker answers, the layer and its children can only
    /// grow, and they are as they were unless a claim is reported.
    pub fn execute(
        &mut self,
        ctx: &Context,
        work: &Worklist,
        target: &mut Layer,
        children: &mut Vec<Layer>,
    ) -> (done: bool)
        ensures
            final(self).same_setup(old(self)),
            !old(self).active() ==> done && *final(self) == *old(self),
            !done || !old(self).active() ==> *final(target) == *old(target) && *final(children)
                == *old(children),
            grown(
                *old(target),
                old(children)@,
                *final(target),
                final(children)@,
                work.data.len(),
            ),
    {
        match &mut self.worker {
            Some(worker) => {
                let limit = work.data.len();
                let mut proxy = LayerProxy::new(target.payload, limit);
                let stack = work.stack(&*target);
                assert(stack.layers()[stack.spec_position() as int] == *target);
                let outcome = worker.decode(ctx, &stack, &mut proxy);
                conclude(outcome, proxy, limit, target, children)
            },
            None => true,
        }
    }
}

/// Whether two execution classes are the same.
pub fn same_class(a: &ExecType, b: &ExecType) -> (same: bool)
    ensures
        same == (*a == *b),
{
    match (a, b) {
        (ExecType::ParallelSync, ExecType::ParallelSync) => true,
        (ExecType::SerialSync, ExecType::SerialSync) => true,
        _ => false,
    }
}

/// The claim slot of one decoder for one level of the layer tree: the
/// decoder at `slot` of the pool may claim one layer, and once it has, it is
/// used up and is not asked again.
#[derive(Clone, Copy, Debug)]
pub struct OnceRunner {
    slot: usize,
    used: bool,
}

impl OnceRunner {
    /// The place of the decoder in the pool.
    pub closed spec fn slot(&self) -> usize {
        self.slot
    }

    /// The decoder has claimed a layer.
    pub closed spec fn used(&self) -> bool {
        self.used
    }

    /// A fresh claim slot for the decoder at `slot`.
    pub fn new(slot: usize) -> (r: OnceRunner)
        ensures
            r.slot() == slot,
            !r.used(),
    {
        OnceRunner { slot, used: false }
    }

    /// Whether the decoder has claimed a layer.
    pub fn is_used(&self) -> (b: bool)
        ensures
            b == self.used(),
    {
        self.used
    }

    /// Offers `target` to the decoder if it is not used up, and uses it up
    /// if it claims. A decoder that is used up, or a slot without a decoder
    /// in `pool`, reports no claim and nothing changes.
    pub fn execute<D: Decoder>(
        &mut self,
        pool: &mut Vec<Runner<D>>,
        ctx: &Context,
        work: &Worklist,
        target: &mut Layer,
        children: &mut Vec<Layer>,
    ) -> (done: bool)
        ensures
            final(self).slot() == old(self).slot(),
            final(self).used() == (old(self).used() || done),
            final(pool)@.len() == old(pool)@.len(),
            forall|q: int|
                0 <= q < old(pool)@.len() ==> (#[trigger] final(pool)@[q]).same_setup(
                    &old(pool)@[q],
                ),
            forall|q: int|
                0 <= q < old(pool)@.len() && q != old(self).slot() ==> #[trigger] final(pool)@[q]
                    == old(pool)@[q],
            old(self).used() || old(self).slot() >= old(pool)@.len() ==> !done && *final(pool)
                == *old(pool),
            !old(self).used() && old(self).slot() < old(pool)@.len() && !old(pool)@[old(self).slot() as int].active() ==> done && *final(target) == *old(target) && *final(children) == *old(children),
            !done ==> *final(target) == *old(target) && *final(children) == *old(children),
            grown(
                *old(target),
                old(children)@,
                *final(target),
                final(children)@,
                work.data.len(),
            ),
    {
        if !self.used && self.slot < pool.len() {
            let done = pool[self.slot].execute(ctx, work, target, children);
            if done {
                self.used = true;
            }
            done
        } else {
            false
        }
    }
}

/// The decoding of one frame: what the frame held, what it holds now, and
/// the record of how that came about.
pub struct Decoding {
    /// The record of the run.
    pub run: FrameRun,
    /// The number of decoders in the pool.
    pub pool: int,
    /// Whether the pool was idle, with no worker in it.
    pub idle: bool,
    /// The number of the frame's bytes.
    pub limit: usize,
    /// The layers that the frame held.
    pub origin: Seq<Layer>,
    /// The layers that the frame holds.
    pub out: Seq<Layer>,
    /// The number of children of each layer that the frame holds.
    pub counts: Seq<usize>,
}

impl Decoding {
    /// The number of roots.
    pub open spec fn roots(self) -> int {
        self.origin.len() as int
    }

    /// The place of the `m`-th child of the layer at `i`.
    pub open spec fn place(self, i: int, m: int) -> int {
        child_start(self.roots(), self.counts, i) + m
    }

    /// The place of the parent of the layer at `p`.
    pub open spec fn parent_of(self, p: int) -> int {
        parent(self.roots(), self.counts, p)
    }

    /// Which child of its parent the layer at `p` is.
    pub open spec fn rank(self, p: int) -> int {
        p - child_start(self.roots(), self.counts, self.parent_of(p))
    }

    /// The decoding is one that the dispatcher makes.
    ///
    /// The layer list is well-shaped, with the layers that the frame held as
    /// its roots, each as it was or extended; the children of each layer
    /// stand in its block in the order in which they were attached, each as
    /// it was attached or extended, within the frame and within the payload
    /// of its parent; the run obeys the rules of the schedule; and where no
    /// decoder claimed anything, or the pool was idle, the layers are those
    /// that the frame held, unchanged, with no children.
    pub open spec fn holds(self) -> bool {
        &&& well_shaped(self.roots(), self.counts, self.out.len() as int)
        &&& shaped(self.limit, self.out, self.counts, Seq::empty(), self.origin, self.run.attached)
        &&& self.run.obeys(self.pool, self.roots(), self.counts)
        &&& self.run.quiet() || self.idle ==> self.out == self.origin && forall|i: int|
            0 <= i < self.counts.len() ==> #[trigger] self.counts[i] == 0
    }
}

/// The roots of a decoded frame are the layers that the frame held, in their
/// order, each as it was or extended by the decoders.
pub proof fn lemma_roots_stay(d: Decoding, i: int)
    requires
        d.holds(),
        0 <= i < d.roots(),
    ensures
        i < d.out.len(),
        d.out[i].extends(d.origin[i], d.limit),
{
    assert(d.out + Seq::<Layer>::empty() =~= d.out);
    lemma_shaped_root(d.limit, d.out, d.counts, Seq::empty(), d.origin, d.run.attached, i);
}

/// Reading the tree off the child counts gives back what the decoders
/// attached: the child that was attached to the layer at `i` as its `m`-th
/// stands at the `m`-th place of that layer's block, has that layer as its
/// parent by the counts, and is the attached layer or an extension of it.
/// It lies within the frame and within the payload of its parent.
pub proof fn lemma_children_in_attachment_order(d: Decoding, i: int, m: int)
    requires
        d.holds(),
        0 <= i < d.out.len(),
        0 <= m < d.counts[i],
    ensures
        d.run.attached.len() == d.out.len(),
        d.run.attached[i].len() == d.counts[i],
        d.roots() <= d.place(i, m) < d.out.len(),
        d.parent_of(d.place(i, m)) == i,
        d.rank(d.place(i, m)) == m,
        d.out[d.place(i, m)].extends(d.run.attached[i][m], d.limit),
        d.out[d.place(i, m)].fits(d.limit),
        d.out[d.place(i, m)].child_of(d.out[i].payload),
{
    assert(d.out + Seq::<Layer>::empty() =~= d.out);
    lemma_shaped_child(d.limit, d.out, d.counts, Seq::empty(), d.origin, d.run.attached, i, m);
    lemma_block_holds(d.roots(), d.counts, d.out.len() as int, i, d.place(i, m));
}

/// Every layer of a decoded frame but the roots was attached by a decoder:
/// to its parent by the counts, which stands before it, at its place in the
/// parent's block.
pub proof fn lemma_every_child_was_attached(d: Decoding, p: int)
    requires
        d.holds(),
        d.roots() <= p < d.out.len(),
    ensures
        0 <= d.parent_of(p) < p,
        0 <= d.rank(p) < d.counts[d.parent_of(p)],
        d.place(d.parent_of(p), d.rank(p)) == p,
        d.out[p].extends(d.run.attached[d.parent_of(p)][d.rank(p)], d.limit),
        d.out[p].fits(d.limit),
        d.out[p].child_of(d.out[d.parent_of(p)].payload),
{
    lemma_parent_unique(d.roots(), d.counts, d.out.len() as int, p);
    assert(in_block(d.roots(), d.counts, d.parent_of(p), p));
    lemma_children_in_attachment_order(d, d.parent_of(p), d.rank(p));
}

/// Where the layers that a frame held lie within the frame, so does every
/// layer of the decoded frame.
pub proof fn lemma_layers_stay_within_frame(d: Decoding, p: int)
    requires
        d.holds(),
        forall|i: int| 0 <= i < d.roots() ==> (#[trigger] d.origin[i]).fits(d.limit),
        0 <= p < d.out.len(),
    ensures
        d.out[p].fits(d.limit),
{
    if p < d.roots() {
        lemma_roots_stay(d, p);
    } else {
        lemma_every_child_was_attached(d, p);
    }
}

/// A decoding under a pool without decoders leaves the layers as they were,
/// with no children.
pub proof fn lemma_empty_pool_changes_nothing(d: Decoding)
    requires
        d.holds(),
        d.pool == 0,
    ensures
        d.out == d.origin,
        forall|i: int| 0 <= i < d.counts.len() ==> #[trigger] d.counts[i] == 0,
{
    lemma_empty_pool_is_quiet(d.run, d.roots(), d.counts);
}

/// Every level of a decoding obeys the rules of the schedule: what holds of
/// a level that obeys them holds of each.
pub proof fn lemma_levels_obey(d: Decoding, l: int)
    requires
        d.holds(),
        0 <= l < d.run.levels.len(),
    ensures
        d.run.levels[l].obeys(d.pool),
{
}

/// For each claim slot, whether its decoder is used up.
pub open spec fn used_of(slots: Seq<OnceRunner>) -> Seq<bool> {
    Seq::new(slots.len(), |j: int| slots[j].used())
}

/// The claim slots are those of a pool of `pool` decoders, in pool order.
pub open spec fn slots_of(slots: Seq<OnceRunner>, pool: int) -> bool {
    &&& slots.len() == pool
    &&& forall|j: int| 0 <= j < pool ==> (#[trigger] slots[j]).slot() == j
}

/// The pool of one execution class: every decoder of the profile with its
/// worker, and the record of the frames that went through.
pub struct Dispatcher<D: Decoder> {
    ctx: Context,
    runners: Vec<Runner<D>>,
    history: Ghost<Seq<FrameRun>>,
}

impl<D: Decoder> Dispatcher<D> {
    /// The configuration that the workers are shown.
    pub closed spec fn context(&self) -> Context {
        self.ctx
    }

    /// The runners, in pool order.
    pub closed spec fn pool(&self) -> Seq<Runner<D>> {
        self.runners@
    }

    /// The runs of the frames processed so far, oldest first.
    pub closed spec fn history(&self) -> Seq<FrameRun> {
        self.history@
    }

    /// The two dispatchers have the same pool, set up alike, and are shown
    /// the same configuration.
    pub open spec fn same_pool(&self, other: &Self) -> bool {
        &&& self.context() == other.context()
        &&& self.pool().len() == other.pool().len()
        &&& forall|j: int|
            0 <= j < self.pool().len() ==> (#[trigger] self.pool()[j]).same_setup(&other.pool()[j])
    }

    /// A dispatcher of class `typ` for the decoders of `profile`, in the
    /// order of the profile. A decoder that declares another class gets an
    /// inactive runner.
    pub fn new(typ: &ExecType, profile: &Profile<D>) -> (d: Dispatcher<D>) where D: Copy
        ensures
            d.context() == profile.spec_context(),
            d.history().len() == 0,
            d.pool().len() == profile.spec_decoders().len(),
            forall|j: int|
                0 <= j < d.pool().len() ==> {
                    &&& (#[trigger] d.pool()[j]).typ() == *typ
                    &&& d.pool()[j].decoder() == profile.spec_decoders()[j]
                    &&& d.pool()[j].active() == (d.pool()[j].declared() == *typ)
                },
    {
        let decoders = profile.decoders();
        let n = decoders.len();
        let mut runners: Vec<Runner<D>> = Vec::new();
        let mut j: usize = 0;
        while j < n
            invariant
                j <= n,
                n == decoders@.len(),
                decoders@ == profile.spec_decoders(),
                runners@.len() == j,
                forall|q: int|
                    0 <= q < j ==> {
                        &&& (#[trigger] runners@[q]).typ() == *typ
                        &&& runners@[q].decoder() == decoders@[q]
                        &&& runners@[q].active() == (runners@[q].declared() == *typ)
                    },
            decreases n - j,
        {
            runners.push(Runner::new(typ, profile.context(), decoders[j]));
            j += 1;
        }
        Dispatcher { ctx: *profile.context(), runners, history: Ghost(Seq::empty()) }
    }

    /// The decoding of the frame that was processed last: `before` and
    /// `after` are the dispatcher, `held` and `holds` the frame, before and
    /// after it.
    pub open spec fn decoding(before: &Self, after: &Self, held: &Frame, holds: &Frame) -> Decoding {
        Decoding {
            run: after.history().last(),
            pool: before.pool().len() as int,
            idle: before.idle(),
            limit: held.spec_limit(),
            origin: held.spec_layers(),
            out: holds.spec_layers(),
            counts: holds.spec_tree_indices().skip(held.spec_tree_indices().len() as int),
        }
    }

    /// No runner of the pool has a worker: every decoder declares another
    /// class than the dispatcher's, or the pool is empty.
    pub open spec fn idle(&self) -> bool {
        forall|j: int| 0 <= j < self.pool().len() ==> !(#[trigger] self.pool()[j]).active()
    }

    /// The number of decoders in the pool.
    pub fn pool_size(&self) -> (n: usize)
        ensures
            n == self.pool().len(),
    {
        self.runners.len()
    }

    /// A fresh claim slot for every decoder of the pool, in pool order.
    pub fn runners(&self) -> (slots: Vec<OnceRunner>)
        ensures
            slots_of(slots@, self.pool().len() as int),
            forall|j: int| 0 <= j < slots@.len() ==> !(#[trigger] slots@[j]).used(),
    {
        let mut slots: Vec<OnceRunner> = Vec::new();
        let n = self.runners.len();
        let mut j: usize = 0;
        while j < n
            invariant
                j <= n,
                n == self.runners@.len(),
                slots@.len() == j,
                forall|q: int| 0 <= q < j ==> (#[trigger] slots@[q]).slot() == q && !slots@[q].used(),
            decreases n - j,
        {
            slots.push(OnceRunner::new(j));
            j += 1;
        }
        slots
    }

    /// One pass: offers `target` to every claim slot, in pool order.
    fn pass(
        &mut self,
        slots: &mut Vec<OnceRunner>,
        work: &Worklist,
        target: &mut Layer,
        children: &mut Vec<Layer>,
    ) -> (res: (usize, Ghost<Pass>))
        requires
            slots_of(old(slots)@, old(self).pool().len() as int),
        ensures
            final(self).same_pool(old(self)),
            final(self).history() == old(self).history(),
            slots_of(final(slots)@, old(self).pool().len() as int),
            res.1@.layer == work.settled@.len(),
            res.1@.obeys(old(self).pool().len() as int),
            res.1@.used == used_of(old(slots)@),
            forall|j: int|
                0 <= j < old(slots)@.len() ==> (#[trigger] final(slots)@[j]).used()
                    == res.1@.used_after(j),
            (res.0 > 0) == res.1@.any_claim(),
            res.0 == 0 || old(self).idle() ==> *final(target) == *old(target) && *final(children)
                == *old(children),
            grown(
                *old(target),
                old(children)@,
                *final(target),
                final(children)@,
                work.data.len(),
            ),
    {
        let n = slots.len();
        let ghost limit = work.data.len();
        let ghost used0 = used_of(slots@);
        let ghost mut claimed: Seq<bool> = Seq::empty();
        let ghost mut witness: int = 0;
        let mut executed: usize = 0;
        let mut j: usize = 0;
        while j < n
            invariant
                j <= n,
                n == old(self).pool().len(),
                self.same_pool(old(self)),
                self.history() == old(self).history(),
                slots_of(slots@, n as int),
                used0.len() == n,
                claimed.len() == j,
                forall|q: int|
                    0 <= q < j ==> (#[trigger] slots@[q]).used() == (used0[q] || claimed[q]),
                forall|q: int| 0 <= q < j && #[trigger] claimed[q] ==> !used0[q],
                forall|q: int| j <= q < n ==> (#[trigger] slots@[q]).used() == used0[q],
                executed <= j,
                executed == 0 ==> forall|q: int| 0 <= q < j ==> !#[trigger] claimed[q],
                executed > 0 ==> 0 <= witness < j && claimed[witness],
                executed == 0 || old(self).idle() ==> *target == *old(target) && *children == *old(children),
                grown(*old(target), old(children)@, *target, children@, limit),
                limit == work.data.len(),
            decreases n - j,
        {
            let ghost target1 = *target;
            let ghost children1 = children@;
            let ghost pool1 = self.runners@;
            let mut slot = slots[j];
            let done = slot.execute(&mut self.runners, &self.ctx, work, target, children);
            slots[j] = slot;
            proof {
                lemma_grown_transitive(
                    *old(target),
                    old(children)@,
                    target1,
                    children1,
                    *target,
                    children@,
                    limit,
                );
                claimed = claimed.push(done);
                if done {
                    witness = j as int;
                }
                assert forall|q: int| 0 <= q < self.pool().len() implies (
                #[trigger] self.pool()[q]).same_setup(&old(self).pool()[q]) by {
                    assert(self.runners@[q].same_setup(&pool1[q]));
                    assert(pool1[q].same_setup(&old(self).pool()[q]));
                }
            }
            if done {
                executed += 1;
            }
            j += 1;
        }
        let ghost pass = Pass { layer: work.settled@.len() as int, used: used0, claimed };
        proof {
            if pass.any_claim() {
                let w = choose|w: int| 0 <= w < pass.claimed.len() && #[trigger] pass.claimed[w];
                assert(executed > 0);
            }
        }
        (executed, Ghost(pass))
    }

    /// One layer: takes the layer whose turn it is, offers it in pass after
    /// pass until a pass brings no claim, and settles it with the children
    /// it was given.
    fn process_layer(
        &mut self,
        slots: &mut Vec<OnceRunner>,
        work: &mut Worklist,
        Ghost(origin): Ghost<Seq<Layer>>,
        Ghost(attached): Ghost<Seq<Seq<Layer>>>,
    ) -> (res: Ghost<(Seq<Pass>, Seq<Layer>)>)
        requires
            slots_of(old(slots)@, old(self).pool().len() as int),
            old(work).wf(origin, attached),
            old(work).pending@.len() > 0,
        ensures
            final(self).same_pool(old(self)),
            final(self).history() == old(self).history(),
            slots_of(final(slots)@, old(self).pool().len() as int),
            final(work).data == old(work).data,
            final(work).wf(origin, attached.push(res@.1)),
            final(work).settled@.len() == old(work).settled@.len() + 1,
            final(work).counts@ == old(work).counts@.push(res@.1.len() as usize),
            final(work).pending@ == old(work).pending@.subrange(
                1,
                old(work).pending@.len() as int,
            ) + res@.1,
            fixpoint(
                res@.0,
                old(self).pool().len() as int,
                old(work).settled@.len() as int,
                used_of(old(slots)@),
            ),
            forall|j: int|
                0 <= j < old(slots)@.len() ==> (#[trigger] final(slots)@[j]).used()
                    == res@.0.last().used_after(j),
            res@.0.len() == 1 || old(self).idle() ==> res@.1.len() == 0 && final(work).settled@
                == old(work).settled@.push(old(work).pending@[0]),
    {
        let ghost pool = self.pool().len() as int;
        let ghost place = work.settled@.len() as int;
        let ghost limit = work.data.len();
        let ghost used0 = used_of(slots@);
        let taken = work.take();
        let mut target = taken.unwrap();
        let ghost base = target;
        let mut children: Vec<Layer> = Vec::new();
        let ghost mut added: Seq<Pass> = Seq::empty();
        let mut again = true;
        while again
            invariant
                pool == old(self).pool().len(),
                self.same_pool(old(self)),
                self.history() == old(self).history(),
                slots_of(slots@, pool),
                used0.len() == pool,
                work.data == old(work).data,
                work.settled == old(work).settled,
                work.counts == old(work).counts,
                old(work).pending@.len() > 0,
                work.pending@ == old(work).pending@.subrange(1, old(work).pending@.len() as int),
                place == work.settled@.len(),
                limit == work.data.len(),
                grown(base, Seq::empty(), target, children@, limit),
                added.len() == 0 ==> again && target == base && children@.len() == 0 && used_of(
                    slots@,
                ) == used0,
                !again && added.len() == 1 ==> target == base && children@.len() == 0,
                old(self).idle() ==> target == base && children@.len() == 0,
                forall|q: int|
                    0 <= q < added.len() ==> (#[trigger] added[q]).obeys(pool) && added[q].layer
                        == place,
                added.len() > 0 ==> added[0].used == used0,
                forall|q: int, j: int|
                    1 <= q < added.len() && 0 <= j < pool ==> #[trigger] added[q].used[j]
                        == added[q - 1].used_after(j),
                added.len() > 0 ==> forall|j: int|
                    0 <= j < pool ==> (#[trigger] slots@[j]).used() == added.last().used_after(j),
                forall|q: int| 0 <= q < added.len() - 1 ==> (#[trigger] added[q]).any_claim(),
                again && added.len() > 0 ==> added.last().any_claim(),
                !again ==> added.len() > 0 && !added.last().any_claim(),
            decreases
                    (if again {
                        free(used_of(slots@)) + 1
                    } else {
                        0
                    }),
        {
            let ghost before = used_of(slots@);
            let ghost target1 = target;
            let ghost children1 = children@;
            let ghost earlier = added;
            let (executed, Ghost(pass)) = self.pass(slots, &*work, &mut target, &mut children);
            again = executed > 0;
            proof {
                lemma_grown_transitive(
                    base,
                    Seq::empty(),
                    target1,
                    children1,
                    target,
                    children@,
                    limit,
                );
                added = earlier.push(pass);
                let after = used_of(slots@);
                assert forall|j: int| 0 <= j < before.len() && before[j] implies after[j] by {
                    assert(slots@[j].used() == pass.used_after(j));
                }
                if again {
                    let w = choose|w: int| 0 <= w < pass.claimed.len() && #[trigger] pass.claimed[w];
                    assert(slots@[w].used() == pass.used_after(w));
                    lemma_claim_uses_up(before, after, w);
                }
                assert forall|q: int, j: int| 1 <= q < added.len() && 0 <= j < pool implies
                    #[trigger] added[q].used[j] == added[q - 1].used_after(j) by {
                    if q == earlier.len() {
                        assert(added[q] == pass);
                        assert(added[q - 1] == earlier.last());
                        assert(pass.used[j] == before[j]);
                    } else {
                        assert(added[q] == earlier[q]);
                        assert(added[q - 1] == earlier[q - 1]);
                    }
                }
                assert forall|q: int| 0 <= q < added.len() - 1 implies (
                #[trigger] added[q]).any_claim() by {
                    assert(added[q] == earlier[q]);
                }
            }
        }
        let ghost kids = children@;
        proof {
            reveal(fixpoint);
            assert(old(work).pending@ =~= seq![base] + work.pending@);
            assert(fixpoint(added, pool, place, used0));
        }
        work.settle(target, children, Ghost(base), Ghost(origin), Ghost(attached));
        Ghost((added, kids))
    }

    /// One level: every layer that waits when the level begins gets its
    /// turn, in order, with one fresh claim slot for each decoder shared by
    /// all of them. The children they are given wait for the next level.
    fn process_level(
        &mut self,
        work: &mut Worklist,
        Ghost(origin): Ghost<Seq<Layer>>,
        Ghost(attached): Ghost<Seq<Seq<Layer>>>,
    ) -> (res: Ghost<(LevelRun, Seq<Seq<Layer>>)>)
        requires
            old(work).wf(origin, attached),
            old(work).pending@.len() > 0,
        ensures
            final(self).same_pool(old(self)),
            final(self).history() == old(self).history(),
            final(work).data == old(work).data,
            final(work).wf(origin, res@.1),
            res@.0.obeys(old(self).pool().len() as int),
            res@.0.first == old(work).settled@.len(),
            res@.0.width == old(work).pending@.len(),
            final(work).settled@.len() == old(work).settled@.len() + old(work).pending@.len(),
            old(work).counts@.is_prefix_of(final(work).counts@),
            res@.0.quiet() || old(self).idle() ==> {
                &&& final(work).settled@ == old(work).settled@ + old(work).pending@
                &&& final(work).pending@.len() == 0
                &&& forall|i: int|
                    old(work).settled@.len() <= i < final(work).counts@.len() ==> #[trigger] final(work).counts@[i] == 0
            },
    {
        let ghost pool = self.pool().len() as int;
        let ghost first = work.settled@.len() as int;
        let ghost settled0 = work.settled@;
        let ghost pending0 = work.pending@;
        let ghost counts0 = work.counts@;
        let width = work.pending.len();
        let mut slots = self.runners();
        let ghost mut passes: Seq<Pass> = Seq::empty();
        let ghost mut att = attached;
        let mut k: usize = 0;
        proof {
            lemma_shaped_size(
                work.data.len(),
                work.settled@,
                work.counts@,
                work.pending@,
                origin,
                attached,
            );
            lemma_level_begins(pool, first, used_of(slots@));
            assert(settled0 + pending0.take(0) =~= settled0);
            assert(pending0.skip(0) =~= pending0);
        }
        while k < width
            invariant
                k <= width,
                width == pending0.len(),
                pool == old(self).pool().len(),
                self.same_pool(old(self)),
                self.history() == old(self).history(),
                slots_of(slots@, pool),
                work.data == old(work).data,
                work.wf(origin, att),
                work.settled@.len() == first + k,
                work.pending@.len() >= width - k,
                counts0.len() == first,
                work.counts@.len() == first + k,
                counts0.is_prefix_of(work.counts@),
                level_so_far(passes, pool, first, k as int, used_of(slots@)),
                quiet_passes(passes) || old(self).idle() ==> {
                    &&& work.settled@ == settled0 + pending0.take(k as int)
                    &&& work.pending@ == pending0.skip(k as int)
                    &&& forall|i: int| first <= i < first + k ==> #[trigger] work.counts@[i] == 0
                },
            decreases width - k,
        {
            let ghost used1 = used_of(slots@);
            let ghost pending1 = work.pending@;
            let ghost earlier = passes;
            let Ghost(step) = self.process_layer(&mut slots, work, Ghost(origin), Ghost(att));
            proof {
                let added = step.0;
                let kids = step.1;
                lemma_level_grows(
                    earlier,
                    added,
                    pool,
                    first,
                    k as int,
                    used1,
                    used_of(slots@),
                );
                passes = earlier + added;
                att = att.push(kids);
                if quiet_passes(passes) || old(self).idle() {
                    if quiet_passes(passes) {
                        lemma_quiet_passes_split(earlier, added);
                        lemma_fixpoint_quiet(added, pool, first + k, used1);
                        assert(added.len() == 1);
                    }
                    assert(pending1[0] == pending0[k as int]);
                    assert(work.settled@ =~= settled0 + pending0.take(k + 1));
                    assert(work.pending@ =~= pending0.skip(k + 1));
                }
            }
            k += 1;
        }
        let ghost level = LevelRun { first, width: width as int, passes };
        proof {
            lemma_level_done(passes, pool, first, width as int, used_of(slots@));
            if level.quiet() || old(self).idle() {
                assert(pending0.take(width as int) =~= pending0);
                assert(pending0.skip(width as int).len() == 0);
            }
        }
        Ghost((level, att))
    }

    /// Decodes one frame: the layers it holds are offered to the decoders,
    /// then the children they were given, then the children of those, level
    /// by level, until a level brings no children. The layers go back to the
    /// frame in that order, followed by the number of children of each.
    ///
    /// No failure of a decoder stops the decoding, and it ends: a layer is
    /// left after at most one pass for each decoder and one more, a level
    /// with its last layer, and the decoding with the first level that
    /// brings no children. Decoders that give a child to every layer they
    /// are offered make the tree as deep as the layer list can grow.
    pub fn process_frame(&mut self, frame: &mut Frame)
        ensures
            final(self).same_pool(old(self)),
            final(self).history().len() == old(self).history().len() + 1,
            final(self).history().drop_last() == old(self).history(),
            final(frame).spec_data() == old(frame).spec_data(),
            final(frame).spec_limit() == old(frame).spec_limit(),
            old(frame).spec_tree_indices().is_prefix_of(final(frame).spec_tree_indices()),
            old(frame).spec_tree_indices().len() == 0 ==> final(frame).decoded(),
            old(frame).spec_tree_indices().len() == 0 ==> final(frame).spec_roots() == old(frame).spec_layers().len(),
            Self::decoding(old(self), final(self), old(frame), final(frame)).holds(),
    {
        let ghost pool = self.pool().len() as int;
        let layers = frame.take_layers();
        let ghost origin = layers@;
        let ghost roots = origin.len() as int;
        let ghost indices0 = frame.spec_tree_indices();
        let mut work = Worklist::seed(frame.data(), layers);
        let ghost mut levels: Seq<LevelRun> = Seq::empty();
        let ghost mut attached: Seq<Seq<Layer>> = Seq::empty();
        proof {
            lemma_levels_begin(pool, roots, work.counts@);
            assert(work.settled@ + work.pending@ =~= origin);
        }
        while work.pending.len() > 0
            invariant
                pool == old(self).pool().len(),
                self.same_pool(old(self)),
                self.history() == old(self).history(),
                work.data@ == old(frame).spec_data(),
                work.data.len() == old(frame).spec_limit(),
                work.wf(origin, attached),
                roots == origin.len(),
                levels_so_far(
                    levels,
                    pool,
                    roots,
                    work.counts@,
                    work.settled@.len() as int,
                    work.pending@.len() as int,
                ),
                quiet_levels(levels) || old(self).idle() ==> {
                    &&& work.settled@ + work.pending@ == origin
                    &&& forall|i: int| 0 <= i < work.counts@.len() ==> #[trigger] work.counts@[i] == 0
                },
            decreases usize::MAX - work.settled@.len(),
        {
            let ghost counts1 = work.counts@;
            let ghost done1 = work.settled@.len() as int;
            let ghost waiting1 = work.pending@.len() as int;
            let ghost known1 = work.settled@ + work.pending@;
            let ghost earlier = levels;
            proof {
                lemma_shaped_size(
                    work.data.len(),
                    work.settled@,
                    work.counts@,
                    work.pending@,
                    origin,
                    attached,
                );
            }
            let Ghost(step) = self.process_level(&mut work, Ghost(origin), Ghost(attached));
            proof {
                let level = step.0;
                attached = step.1;
                levels = earlier.push(level);
                lemma_shaped_size(
                    work.data.len(),
                    work.settled@,
                    work.counts@,
                    work.pending@,
                    origin,
                    attached,
                );
                lemma_levels_grow(earlier, level, pool, roots, counts1, work.counts@, done1, waiting1);
                assert(work.settled@.len() == work.settled.len());
                if quiet_levels(levels) || old(self).idle() {
                    if quiet_levels(levels) {
                        lemma_quiet_levels_split(earlier, level);
                    }
                    assert(work.settled@ + work.pending@ =~= known1);
                    assert forall|i: int| 0 <= i < work.counts@.len() implies #[trigger] work.counts@[i]
                        == 0 by {
                        if i < done1 {
                            assert(work.counts@[i] == counts1[i]);
                        }
                    }
                }
            }
        }
        let ghost run = FrameRun { levels, attached };
        proof {
            lemma_shaped_size(
                work.data.len(),
                work.settled@,
                work.counts@,
                work.pending@,
                origin,
                attached,
            );
            assert(work.pending@ =~= Seq::<Layer>::empty());
            lemma_shaped_done(work.data.len(), work.settled@, work.counts@, origin, attached);
            lemma_levels_done(levels, attached, pool, roots, work.counts@);
            if run.quiet() || old(self).idle() {
                assert(run.quiet() ==> quiet_levels(levels));
                assert(work.settled@ =~= origin);
            }
            assert((indices0 + work.counts@).skip(indices0.len() as int) =~= work.counts@);
        }
        let Worklist { data: _, mut settled, mut counts, pending: _ } = work;
        frame.append_layers(&mut settled);
        frame.append_tree_indices(&mut counts);
        self.history = Ghost(self.history@.push(run));
        proof {
            assert(self.history@.drop_last() =~= old(self).history());
        }
    }
}

} // verus!
