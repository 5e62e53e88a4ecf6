//! What a decoder is to the dispatcher: a descriptor that declares how it
//! may be scheduled and makes workers, and the worker that does the decoding.

use crate::layer::{Fault, Layer, LayerProxy};
use std::collections::VecDeque;
use vstd::prelude::*;

verus! {

/// How a decoder may be scheduled.
#[derive(Clone, Copy, Debug, PartialEq, Eq, Structural)]
pub enum ExecType {
    /// Keeps nothing from one frame to the next: frames may be decoded in any
    /// order, on any thread.
    ParallelSync,
    /// May keep state across frames: frames are decoded in arrival order.
    SerialSync,
}

/// What a decoder declares of itself.
#[derive(Clone, Copy, Debug, PartialEq, Eq, Structural)]
pub struct Metadata {
    pub exec_type: ExecType,
}

/// What a worker says of the layer it was offered.
#[derive(Clone, Copy, Debug, PartialEq, Eq, Structural)]
pub enum Status {
    /// The worker knows the layer and has decoded it for this round.
    Claimed,
    /// The layer is not this worker's.
    NotApplicable,
}

/// The configuration that every decoder and worker is shown.
#[derive(Clone, Copy, Debug, PartialEq, Eq, Structural)]
pub struct Context {
    link: u32,
}

impl Context {
    /// The link type of the capture the frames come from.
    pub closed spec fn spec_link(&self) -> u32 {
        self.link
    }

    /// The configuration for a capture of link type `link`.
    pub fn new(link: u32) -> (c: Context)
        ensures
            c.spec_link() == link,
    {
        Context { link }
    }

    /// The link type of the capture the frames come from.
    #[verifier::when_used_as_spec(spec_link)]
    pub fn link(&self) -> (l: u32)
        ensures
            l == self.spec_link(),
    {
        self.link
    }
}

/// Every layer known of a frame while one of them is decoded, in the order
/// of the frame's layer list: those that are done, the one on offer, those
/// that wait. Read-only.
pub struct LayerStack<'a> {
    data: &'a Vec<u8>,
    settled: &'a Vec<Layer>,
    target: &'a Layer,
    pending: &'a VecDeque<Layer>,
}

impl<'a> LayerStack<'a> {
    /// The frame's bytes.
    pub closed spec fn bytes(self) -> Seq<u8> {
        self.data@
    }

    /// The layers, in the order of the frame's layer list.
    pub closed spec fn layers(self) -> Seq<Layer> {
        self.settled@.push(*self.target) + self.pending@
    }

    /// The place of the layer on offer.
    pub closed spec fn spec_position(self) -> nat {
        self.settled@.len()
    }

    /// The stack of a frame with bytes `data`, with `target` on offer after
    /// `settled` and before `pending`.
    pub fn new(
        data: &'a Vec<u8>,
        settled: &'a Vec<Layer>,
        target: &'a Layer,
        pending: &'a VecDeque<Layer>,
    ) -> (s: LayerStack<'a>)
        ensures
            s.bytes() == data@,
            s.layers() == settled@.push(*target) + pending@,
            s.spec_position() == settled@.len(),
    {
        LayerStack { data, settled, target, pending }
    }

    /// The frame's bytes.
    pub fn data(&self) -> (d: &Vec<u8>)
        ensures
            d@ == self.bytes(),
    {
        self.data
    }

    /// The place of the layer on offer.
    pub fn position(&self) -> (p: usize)
        ensures
            p == self.spec_position(),
            p < self.layers().len(),
    {
        self.settled.len()
    }

    /// The layer on offer.
    pub fn target(&self) -> (l: &Layer)
        ensures
            self.spec_position() < self.layers().len(),
            *l == self.layers()[self.spec_position() as int],
    {
        self.target
    }

    /// The layer at place `i`, if there is one.
    pub fn get(&self, i: usize) -> (l: Option<&Layer>)
        ensures
            i < self.layers().len() ==> l == Some(&self.layers()[i as int]),
            i >= self.layers().len() ==> l.is_none(),
    {
        let done = self.settled.len();
        if i < done {
            Some(&self.settled[i])
        } else if i == done {
            Some(self.target)
        } else if i - done - 1 < self.pending.len() {
            Some(&self.pending[i - done - 1])
        } else {
            None
        }
    }
}

/// The stateful half of a decoder: it is offered layers, one at a time.
pub trait Worker {
    /// Offers the layer `stack.target()` to the worker. A worker that knows
    /// the layer gathers what it decodes in `target` and answers `Claimed`;
    /// one that does not answers `NotApplicable`. What was gathered reaches
    /// the layer only with `Claimed`.
    ///
    /// The worker is handed a proxy through which nothing was added yet,
    /// made for this frame and for the payload of this layer.
    fn decode(&mut self, ctx: &Context, stack: &LayerStack, target: &mut LayerProxy) -> Result<
        Status,
        Fault,
    >
        requires
            stack.spec_position() < stack.layers().len(),
            old(target).untouched(),
            old(target).limit() == stack.bytes().len(),
            old(target).window() == stack.layers()[stack.spec_position() as int].payload,
    ;
}

/// The stateless half of a decoder.
pub trait Decoder {
    /// The workers this decoder makes.
    type Work: Worker;

    /// A worker with fresh state.
    fn new_worker(&self, ctx: &Context) -> Self::Work;

    /// What the decoder declares of itself.
    fn metadata(&self) -> Metadata;
}

} // verus!
