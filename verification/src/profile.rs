//! Profiles: the decoders to run and the configuration they are shown.

use crate::decoder::{Context, Decoder};
use vstd::prelude::*;

verus! {

/// The decoders of a session, in pool order, and their configuration.
pub struct Profile<D: Decoder> {
    context: Context,
    decoders: Vec<D>,
}

impl<D: Decoder> Profile<D> {
    /// The configuration.
    pub closed spec fn spec_context(&self) -> Context {
        self.context
    }

    /// The decoders, in pool order.
    pub closed spec fn spec_decoders(&self) -> Seq<D> {
        self.decoders@
    }

    /// A profile with the configuration `context` and no decoders.
    pub fn new(context: Context) -> (p: Profile<D>)
        ensures
            p.spec_context() == context,
            p.spec_decoders().len() == 0,
    {
        Profile { context, decoders: Vec::new() }
    }

    /// Adds `decoder` at the end of the pool.
    pub fn add_decoder(&mut self, decoder: D)
        ensures
            final(self).spec_context() == old(self).spec_context(),
            final(self).spec_decoders() == old(self).spec_decoders().push(decoder),
    {
        self.decoders.push(decoder);
    }

    /// The configuration.
    pub fn context(&self) -> (c: &Context)
        ensures
            *c == self.spec_context(),
    {
        &self.context
    }

    /// The decoders, in pool order.
    pub fn decoders(&self) -> (d: &Vec<D>)
        ensures
            d@ == self.spec_decoders(),
    {
        &self.decoders
    }
}

} // verus!
