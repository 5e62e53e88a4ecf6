use std::cell::Cell;

use genet_kernel::decoder::{Context, Decoder, ExecType, LayerStack, Metadata, Status, Worker};
use genet_kernel::dispatcher::{conclude, same_class, Dispatcher, OnceRunner, Runner};
use genet_kernel::frame::Frame;
use genet_kernel::layer::{Attr, Fault, Layer, LayerProxy, Span};
use genet_kernel::profile::Profile;
use genet_kernel::token::Token;
use genet_kernel::worklist::Worklist;

const ROOT: u64 = 101;
const X: u64 = 102;
const Y: u64 = 103;
const MARK: u64 = 109;
const SIZE: usize = 64;

/// What a rule-driven worker does with a layer of its kind.
#[derive(Clone, Copy, PartialEq, Eq, Debug)]
enum Act {
    /// Claims, marks the layer and gives it `children` children of kind `child`.
    Produce { child: u64, children: usize },
    /// Claims and adds nothing.
    Touch,
    /// Gathers a mark and a child, then fails.
    Fail,
    /// Gathers a mark, then says the layer is not its own.
    Decline,
    /// Claims only a layer that has a payload, and marks it.
    Refine,
    /// Claims, and gives the layer a child over the payload less ten bytes,
    /// as long as there are ten.
    Peel,
}

#[derive(Clone, Copy)]
struct Rule {
    matches: u64,
    act: Act,
    class: ExecType,
    calls: &'static Cell<usize>,
    made: &'static Cell<usize>,
}

struct RuleWorker {
    rule: Rule,
}

fn mark(span: Span) -> Attr {
    Attr { id: Token::new(MARK), typ: Token::new(MARK), span }
}

impl Worker for RuleWorker {
    fn decode(
        &mut self,
        _ctx: &Context,
        stack: &LayerStack,
        target: &mut LayerProxy,
    ) -> Result<Status, Fault> {
        self.rule.calls.set(self.rule.calls.get() + 1);
        let layer = stack.target();
        if layer.id.id() != self.rule.matches {
            return Ok(Status::NotApplicable);
        }
        let whole = Span::new(0, stack.data().len());
        match self.rule.act {
            Act::Produce { child, children } => {
                target.add_attr(mark(layer.span));
                if target.payload().is_none() {
                    target.set_payload(whole)?;
                }
                for _ in 0..children {
                    target.add_child(Layer::new(Token::new(child), whole))?;
                }
                Ok(Status::Claimed)
            }
            Act::Touch => Ok(Status::Claimed),
            Act::Fail => {
                target.add_attr(mark(layer.span));
                if target.payload().is_none() {
                    target.set_payload(whole)?;
                }
                target.add_child(Layer::new(Token::new(X), whole))?;
                Err(Fault::Malformed)
            }
            Act::Decline => {
                target.add_attr(mark(layer.span));
                Ok(Status::NotApplicable)
            }
            Act::Refine => {
                if target.payload().is_none() {
                    return Ok(Status::NotApplicable);
                }
                target.add_attr(mark(layer.span));
                Ok(Status::Claimed)
            }
            Act::Peel => {
                let window = match target.payload() {
                    Some(w) => w,
                    None => {
                        target.set_payload(layer.span)?;
                        layer.span
                    }
                };
                if window.len() >= 10 {
                    let rest = Span::new(window.start + 10, window.end);
                    let mut child = Layer::new(layer.id, rest);
                    child.payload = Some(rest);
                    target.add_child(child)?;
                }
                Ok(Status::Claimed)
            }
        }
    }
}

impl Decoder for Rule {
    type Work = RuleWorker;

    fn new_worker(&self, _ctx: &Context) -> RuleWorker {
        self.made.set(self.made.get() + 1);
        RuleWorker { rule: *self }
    }

    fn metadata(&self) -> Metadata {
        Metadata { exec_type: self.class }
    }
}

fn counter() -> &'static Cell<usize> {
    Box::leak(Box::new(Cell::new(0)))
}

fn rule(matches: u64, act: Act) -> Rule {
    Rule { matches, act, class: ExecType::ParallelSync, calls: counter(), made: counter() }
}

fn dispatcher(rules: &[Rule]) -> Dispatcher<Rule> {
    let mut profile = Profile::new(Context::new(1));
    for r in rules {
        profile.add_decoder(*r);
    }
    Dispatcher::new(&ExecType::ParallelSync, &profile)
}

fn root(id: u64) -> Layer {
    Layer::new(Token::new(id), Span::new(0, SIZE))
}

fn frame(roots: &[u64]) -> Frame {
    Frame::new(vec![0u8; SIZE], roots.iter().map(|id| root(*id)).collect())
}

fn kinds(frame: &Frame) -> Vec<u64> {
    frame.layers().iter().map(|l| l.id.id()).collect()
}

#[test]
fn two_decoders_make_a_chain() {
    let mut d = dispatcher(&[
        rule(ROOT, Act::Produce { child: X, children: 1 }),
        rule(X, Act::Produce { child: 0, children: 0 }),
    ]);
    let mut f = frame(&[ROOT]);
    d.process_frame(&mut f);
    assert_eq!(kinds(&f), vec![ROOT, X]);
    assert_eq!(f.tree_indices(), &vec![1usize, 0]);
    assert_eq!(f.layers()[0].attrs, vec![mark(Span::new(0, SIZE))]);
    assert_eq!(f.layers()[0].payload, Some(Span::new(0, SIZE)));
    assert_eq!(f.layers()[1].attrs.len(), 1);
    assert_eq!(f.parents(), Some(vec![None, Some(0)]));
}

#[test]
fn second_sibling_stays_unclaimed() {
    let a = rule(ROOT, Act::Produce { child: X, children: 1 });
    let mut d = dispatcher(&[a]);
    let mut f = frame(&[ROOT, ROOT]);
    d.process_frame(&mut f);
    assert_eq!(kinds(&f), vec![ROOT, ROOT, X]);
    assert_eq!(f.tree_indices(), &vec![1usize, 0, 0]);
    assert_eq!(f.layers()[0].attrs.len(), 1);
    assert_eq!(f.layers()[1], root(ROOT));
    assert_eq!(f.parents(), Some(vec![None, None, Some(0)]));
}

#[test]
fn empty_pool_leaves_the_roots() {
    let mut d = dispatcher(&[]);
    assert_eq!(d.pool_size(), 0);
    let mut f = frame(&[ROOT, X, ROOT]);
    let before: Vec<Layer> = f.layers().clone();
    d.process_frame(&mut f);
    assert_eq!(f.layers(), &before);
    assert_eq!(f.tree_indices(), &vec![0usize, 0, 0]);
    assert_eq!(f.data(), &vec![0u8; SIZE]);
}

#[test]
fn empty_frame_stays_empty() {
    let mut d = dispatcher(&[rule(ROOT, Act::Touch)]);
    let mut f = frame(&[]);
    d.process_frame(&mut f);
    assert!(f.layers().is_empty());
    assert!(f.tree_indices().is_empty());
    assert_eq!(f.parents(), Some(vec![]));
}

#[test]
fn a_decoder_claims_once_in_a_level() {
    let a = rule(ROOT, Act::Produce { child: X, children: 1 });
    let mut d = dispatcher(&[a]);
    let mut f = frame(&[ROOT, ROOT, ROOT]);
    d.process_frame(&mut f);
    // Level 0: asked for the first root only, where it claims. Level 1:
    // asked for the one child, which is not its own.
    assert_eq!(a.calls.get(), 2);
    assert_eq!(kinds(&f), vec![ROOT, ROOT, ROOT, X]);
    assert_eq!(f.tree_indices(), &vec![1usize, 0, 0, 0]);
    assert_eq!(f.layers()[1], root(ROOT));
    assert_eq!(f.layers()[2], root(ROOT));
}

#[test]
fn a_decoder_that_declines_is_asked_again() {
    let a = rule(ROOT, Act::Produce { child: X, children: 0 });
    let mut d = dispatcher(&[a]);
    let mut f = frame(&[X, ROOT]);
    d.process_frame(&mut f);
    // Not used up by the layer that is not its own, so it claims the next.
    assert_eq!(a.calls.get(), 2);
    assert_eq!(f.layers()[0], root(X));
    assert_eq!(f.layers()[1].attrs.len(), 1);
    assert_eq!(f.tree_indices(), &vec![0usize, 0]);
}

#[test]
fn claims_chain_on_one_layer() {
    let refine = rule(ROOT, Act::Refine);
    let open = rule(ROOT, Act::Produce { child: X, children: 0 });
    let mut d = dispatcher(&[refine, open]);
    let mut f = frame(&[ROOT]);
    d.process_frame(&mut f);
    // First pass: refine declines, open claims. Second pass: refine is asked
    // again and claims, open is used up. Third pass: nobody is asked.
    assert_eq!(refine.calls.get(), 2);
    assert_eq!(open.calls.get(), 1);
    assert_eq!(f.layers()[0].attrs.len(), 2);
    assert_eq!(f.tree_indices(), &vec![0usize]);
}

#[test]
fn a_fault_counts_as_a_bare_claim() {
    let failing = rule(ROOT, Act::Fail);
    let bare = rule(ROOT, Act::Touch);
    let mut with_fault = dispatcher(&[failing]);
    let mut with_claim = dispatcher(&[bare]);
    let mut f1 = frame(&[ROOT, ROOT]);
    let mut f2 = frame(&[ROOT, ROOT]);
    with_fault.process_frame(&mut f1);
    with_claim.process_frame(&mut f2);
    assert_eq!(f1.layers(), f2.layers());
    assert_eq!(f1.tree_indices(), f2.tree_indices());
    assert_eq!(f1.layers(), &vec![root(ROOT), root(ROOT)]);
    assert_eq!(f1.tree_indices(), &vec![0usize, 0]);
    // Both are used up by the first root and not asked for the second.
    assert_eq!(failing.calls.get(), 1);
    assert_eq!(bare.calls.get(), 1);
}

#[test]
fn what_a_declining_worker_gathered_is_dropped() {
    let mut d = dispatcher(&[rule(ROOT, Act::Decline)]);
    let mut f = frame(&[ROOT]);
    d.process_frame(&mut f);
    assert_eq!(f.layers(), &vec![root(ROOT)]);
    assert_eq!(f.tree_indices(), &vec![0usize]);
}

#[test]
fn another_class_disables_a_decoder() {
    let mut serial = rule(ROOT, Act::Produce { child: X, children: 2 });
    serial.class = ExecType::SerialSync;
    let mut d = dispatcher(&[serial]);
    let mut f = frame(&[ROOT]);
    d.process_frame(&mut f);
    assert_eq!(serial.made.get(), 0);
    assert_eq!(serial.calls.get(), 0);
    assert_eq!(f.layers(), &vec![root(ROOT)]);
    assert_eq!(f.tree_indices(), &vec![0usize]);

    let mut profile = Profile::new(Context::new(1));
    profile.add_decoder(serial);
    let mut d = Dispatcher::new(&ExecType::SerialSync, &profile);
    let mut f = frame(&[ROOT]);
    d.process_frame(&mut f);
    assert_eq!(serial.made.get(), 1);
    assert_eq!(kinds(&f), vec![ROOT, X, X]);
    assert_eq!(f.tree_indices(), &vec![2usize, 0, 0]);
}

#[test]
fn children_stand_in_blocks_in_the_order_of_their_parents() {
    const Z: u64 = 104;
    const W: u64 = 105;
    let mut d = dispatcher(&[
        rule(ROOT, Act::Produce { child: X, children: 2 }),
        rule(Y, Act::Produce { child: Z, children: 1 }),
        rule(X, Act::Produce { child: W, children: 3 }),
    ]);
    let mut f = frame(&[ROOT, Y]);
    d.process_frame(&mut f);
    // Level 0: ROOT gets X X, Y gets Z. Level 1: the first X gets W W W, the
    // second X finds its decoder used up, Z is nobody's. Level 2: nothing.
    assert_eq!(kinds(&f), vec![ROOT, Y, X, X, Z, W, W, W]);
    assert_eq!(f.tree_indices(), &vec![2usize, 1, 3, 0, 0, 0, 0, 0]);
    assert_eq!(
        f.parents(),
        Some(vec![None, None, Some(0), Some(0), Some(1), Some(2), Some(2), Some(2)])
    );
    let total: usize = f.tree_indices().iter().sum();
    assert_eq!(total, f.layers().len() - 2);
}

#[test]
fn a_chain_ends_when_a_level_adds_nothing() {
    let peel = rule(ROOT, Act::Peel);
    let mut d = dispatcher(&[peel]);
    let mut f = frame(&[ROOT]);
    d.process_frame(&mut f);
    // 64 bytes: children over 54, 44, 34, 24, 14 and 4 bytes, the last of
    // which has no ten bytes left.
    assert_eq!(f.layers().len(), 7);
    assert_eq!(f.tree_indices(), &vec![1usize, 1, 1, 1, 1, 1, 0]);
    assert_eq!(f.layers()[6].span, Span::new(60, 64));
    assert_eq!(peel.calls.get(), 7);
    for p in 1..7 {
        let parent = &f.layers()[p - 1];
        assert!(f.layers()[p].span.is_within(&parent.payload.unwrap()));
    }
}

#[test]
fn a_frame_processed_again_gets_its_counts_appended() {
    let mut d = dispatcher(&[rule(ROOT, Act::Produce { child: X, children: 1 })]);
    let mut f = frame(&[ROOT]);
    d.process_frame(&mut f);
    assert_eq!(f.tree_indices(), &vec![1usize, 0]);
    d.process_frame(&mut f);
    assert_eq!(kinds(&f), vec![ROOT, X, X]);
    assert_eq!(f.tree_indices(), &vec![1usize, 0, 1, 0, 0]);
    assert_eq!(f.parents(), None);
}

#[test]
fn fresh_claim_slots_for_every_decoder() {
    let d = dispatcher(&[rule(ROOT, Act::Touch), rule(X, Act::Touch), rule(Y, Act::Touch)]);
    let slots = d.runners();
    assert_eq!(slots.len(), 3);
    assert!(slots.iter().all(|s| !s.is_used()));
}

#[test]
fn conclude_moves_what_a_claim_gathered() {
    let mut target = root(ROOT);
    let mut children = Vec::new();
    let mut proxy = LayerProxy::new(None, SIZE);
    proxy.add_attr(mark(Span::new(0, 1)));
    proxy.set_payload(Span::new(4, 60)).unwrap();
    proxy.add_child(Layer::new(Token::new(X), Span::new(4, 10))).unwrap();
    assert!(conclude(Ok(Status::Claimed), proxy, SIZE, &mut target, &mut children));
    assert_eq!(target.attrs, vec![mark(Span::new(0, 1))]);
    assert_eq!(target.payload, Some(Span::new(4, 60)));
    assert_eq!(children, vec![Layer::new(Token::new(X), Span::new(4, 10))]);
}

#[test]
fn conclude_drops_what_was_gathered_without_a_claim() {
    for (outcome, done) in
        [(Ok(Status::NotApplicable), false), (Err(Fault::Truncated), true)]
    {
        let mut target = root(ROOT);
        let mut children = Vec::new();
        let mut proxy = LayerProxy::new(None, SIZE);
        proxy.add_attr(mark(Span::new(0, 1)));
        proxy.set_payload(Span::new(4, 60)).unwrap();
        proxy.add_child(Layer::new(Token::new(X), Span::new(4, 10))).unwrap();
        assert_eq!(conclude(outcome, proxy, SIZE, &mut target, &mut children), done);
        assert_eq!(target, root(ROOT));
        assert!(children.is_empty());
    }
}

#[test]
fn conclude_refuses_what_was_gathered_for_another_layer() {
    // The layer has a payload, the proxy was made for one without.
    let mut target = root(ROOT);
    target.payload = Some(Span::new(0, 8));
    let before = target.clone();
    let mut children = Vec::new();
    let mut proxy = LayerProxy::new(None, SIZE);
    proxy.set_payload(Span::new(4, 60)).unwrap();
    assert!(conclude(Ok(Status::Claimed), proxy, SIZE, &mut target, &mut children));
    assert_eq!(target, before);
    // The proxy was made for a frame of another length.
    let mut proxy = LayerProxy::new(Some(Span::new(0, 8)), SIZE + 1);
    proxy.add_attr(mark(Span::new(0, 1)));
    assert!(conclude(Ok(Status::Claimed), proxy, SIZE, &mut target, &mut children));
    assert_eq!(target, before);
}

#[test]
fn a_runner_is_active_for_its_class_only() {
    let ctx = Context::new(1);
    let a = rule(ROOT, Act::Produce { child: X, children: 1 });
    let data = vec![0u8; SIZE];
    let work = Worklist::seed(&data, vec![]);

    let mut active = Runner::new(&ExecType::ParallelSync, &ctx, a);
    assert!(active.is_active());
    let mut target = root(ROOT);
    let mut children = Vec::new();
    assert!(active.execute(&ctx, &work, &mut target, &mut children));
    assert_eq!(children.len(), 1);
    assert_eq!(a.calls.get(), 1);

    let mut idle = Runner::new(&ExecType::SerialSync, &ctx, a);
    assert!(!idle.is_active());
    let mut target = root(ROOT);
    let mut children = Vec::new();
    assert!(idle.execute(&ctx, &work, &mut target, &mut children));
    assert_eq!(target, root(ROOT));
    assert!(children.is_empty());
    assert_eq!(a.calls.get(), 1);
}

#[test]
fn a_claim_slot_is_used_up_by_a_claim() {
    let ctx = Context::new(1);
    let a = rule(ROOT, Act::Touch);
    let data = vec![0u8; SIZE];
    let work = Worklist::seed(&data, vec![]);
    let mut pool = vec![Runner::new(&ExecType::ParallelSync, &ctx, a)];
    let mut slot = OnceRunner::new(0);
    let mut children = Vec::new();

    let mut other = root(X);
    assert!(!slot.execute(&mut pool, &ctx, &work, &mut other, &mut children));
    assert!(!slot.is_used());
    let mut own = root(ROOT);
    assert!(slot.execute(&mut pool, &ctx, &work, &mut own, &mut children));
    assert!(slot.is_used());
    let mut again = root(ROOT);
    assert!(!slot.execute(&mut pool, &ctx, &work, &mut again, &mut children));
    assert_eq!(a.calls.get(), 2);

    let mut nowhere = OnceRunner::new(5);
    assert!(!nowhere.execute(&mut pool, &ctx, &work, &mut own, &mut children));
    assert!(!nowhere.is_used());
}

#[test]
fn classes_compare_by_name() {
    assert!(same_class(&ExecType::ParallelSync, &ExecType::ParallelSync));
    assert!(same_class(&ExecType::SerialSync, &ExecType::SerialSync));
    assert!(!same_class(&ExecType::ParallelSync, &ExecType::SerialSync));
    assert!(!same_class(&ExecType::SerialSync, &ExecType::ParallelSync));
}

#[test]
fn a_worker_sees_every_layer_of_the_frame() {
    struct Look {
        seen: &'static Cell<usize>,
        place: &'static Cell<usize>,
    }
    #[derive(Clone, Copy)]
    struct LookDecoder {
        seen: &'static Cell<usize>,
        place: &'static Cell<usize>,
    }
    impl Worker for Look {
        fn decode(
            &mut self,
            ctx: &Context,
            stack: &LayerStack,
            _target: &mut LayerProxy,
        ) -> Result<Status, Fault> {
            assert_eq!(ctx.link(), 7);
            if stack.target().id.id() == Y {
                let mut n = 0;
                while stack.get(n).is_some() {
                    n += 1;
                }
                self.seen.set(n);
                self.place.set(stack.position());
                assert_eq!(stack.get(stack.position()), Some(stack.target()));
                assert_eq!(stack.get(0).unwrap().id.id(), ROOT);
                assert_eq!(stack.get(2).unwrap().id.id(), X);
            }
            Ok(Status::NotApplicable)
        }
    }
    impl Decoder for LookDecoder {
        type Work = Look;
        fn new_worker(&self, _ctx: &Context) -> Look {
            Look { seen: self.seen, place: self.place }
        }
        fn metadata(&self) -> Metadata {
            Metadata { exec_type: ExecType::ParallelSync }
        }
    }
    let look = LookDecoder { seen: counter(), place: counter() };
    let mut profile = Profile::new(Context::new(7));
    profile.add_decoder(look);
    let mut d = Dispatcher::new(&ExecType::ParallelSync, &profile);
    let mut f = frame(&[ROOT, Y, X]);
    d.process_frame(&mut f);
    assert_eq!(look.seen.get(), 3);
    assert_eq!(look.place.get(), 1);
}
