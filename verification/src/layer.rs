//! Layers: decoded protocol units bound to a region of a frame's bytes, and
//! the proxy through which a worker adds to the layer it is offered.

use crate::token::Token;
use vstd::prelude::*;

verus! {

/// A half-open region `start..end` of a frame's bytes.
#[derive(Clone, Copy, Debug, PartialEq, Eq, Structural)]
pub struct Span {
    pub start: usize,
    pub end: usize,
}

impl Span {
    /// The region does not end before it starts.
    pub open spec fn valid(self) -> bool {
        self.start <= self.end
    }

    /// The region is valid and ends within the first `limit` bytes.
    pub open spec fn fits(self, limit: usize) -> bool {
        self.start <= self.end && self.end <= limit
    }

    /// The region is valid and lies inside `outer`.
    pub open spec fn within(self, outer: Span) -> bool {
        outer.start <= self.start && self.start <= self.end && self.end <= outer.end
    }

    /// The region `start..end`.
    pub fn new(start: usize, end: usize) -> (s: Span)
        ensures
            s.start == start,
            s.end == end,
    {
        Span { start, end }
    }

    /// The number of bytes in the region; zero for a region that is not valid.
    pub fn len(&self) -> (n: usize)
        ensures
            self.valid() ==> n == self.end - self.start,
            !self.valid() ==> n == 0,
    {
        if self.start <= self.end {
            self.end - self.start
        } else {
            0
        }
    }

    /// Whether the region is valid and ends within the first `limit` bytes.
    pub fn fits_in(&self, limit: usize) -> (b: bool)
        ensures
            b == self.fits(limit),
    {
        self.start <= self.end && self.end <= limit
    }

    /// Whether the region is valid and lies inside `outer`.
    pub fn is_within(&self, outer: &Span) -> (b: bool)
        ensures
            b == self.within(*outer),
    {
        outer.start <= self.start && self.start <= self.end && self.end <= outer.end
    }
}

/// A decoded field: its name, its type and the bytes it was read from.
#[derive(Clone, Copy, Debug, PartialEq, Eq, Structural)]
pub struct Attr {
    pub id: Token,
    pub typ: Token,
    pub span: Span,
}

/// Why a decode attempt, or an addition to a layer, failed.
#[derive(Clone, Copy, Debug, PartialEq, Eq, Structural)]
pub enum Fault {
    /// The bytes end before the unit does.
    Truncated,
    /// The bytes do not form the unit.
    Malformed,
    /// A child was offered to a layer that has made no payload available.
    NoPayload,
    /// A child's region does not lie within its parent's payload.
    OutsidePayload,
    /// A region does not lie within the frame's bytes.
    OutsideFrame,
    /// A payload was offered to a layer that already has one.
    PayloadAlreadySet,
}

/// One decoded protocol unit: a kind, the bytes it claims as its header, its
/// decoded fields, and the bytes it leaves to the next round of decoding.
#[derive(Clone, Debug, PartialEq, Eq)]
pub struct Layer {
    pub id: Token,
    pub span: Span,
    pub attrs: Vec<Attr>,
    pub payload: Option<Span>,
}

impl Layer {
    /// The header, and the payload if there is one, lie within the first
    /// `limit` bytes.
    pub open spec fn fits(self, limit: usize) -> bool {
        &&& self.span.fits(limit)
        &&& self.payload matches Some(p) ==> p.fits(limit)
    }

    /// `self` is `base` after decoding, in a frame of `limit` bytes: the same
    /// kind over the same bytes, with the fields of `base` first and in
    /// order, with the payload of `base` if it had one, and within the frame
    /// if `base` was.
    pub open spec fn extends(self, base: Layer, limit: usize) -> bool {
        &&& self.id == base.id
        &&& self.span == base.span
        &&& base.attrs@.is_prefix_of(self.attrs@)
        &&& base.payload.is_some() ==> self.payload == base.payload
        &&& base.fits(limit) ==> self.fits(limit)
    }

    /// The layer lies within the payload `window` of its parent.
    pub open spec fn child_of(self, window: Option<Span>) -> bool {
        window matches Some(w) && self.span.within(w)
    }

    /// A layer of kind `id` over `span`, with no fields and no payload.
    pub fn new(id: Token, span: Span) -> (l: Layer)
        ensures
            l.id == id,
            l.span == span,
            l.attrs@ == Seq::<Attr>::empty(),
            l.payload.is_none(),
    {
        Layer { id, span, attrs: Vec::new(), payload: None }
    }

    /// Whether what `proxy` holds was gathered for a layer whose payload is
    /// `payload`, in a frame of `limit` bytes: a payload set through the
    /// proxy needs a layer without one, and children gathered under another
    /// payload, or for another frame, are not this layer's.
    pub open spec fn accepts(payload: Option<Span>, limit: usize, proxy: LayerProxy) -> bool {
        &&& proxy.limit() == limit
        &&& if proxy.opened() {
            payload.is_none()
        } else {
            proxy.window() == payload
        }
    }

    /// Takes over what a worker gathered through `proxy`, if it was gathered
    /// for this layer: the fields follow the layer's own, the payload becomes
    /// the proxy's, and the children follow those in `children`. Otherwise
    /// nothing changes.
    pub fn absorb(&mut self, proxy: LayerProxy, limit: usize, children: &mut Vec<Layer>) -> (taken:
        bool)
        ensures
            proxy.sound(),
            taken == Self::accepts(old(self).payload, limit, proxy),
            grown(*old(self), old(children)@, *final(self), final(children)@, limit),
            final(self).id == old(self).id,
            final(self).span == old(self).span,
            taken ==> {
                &&& final(self).attrs@ == old(self).attrs@ + proxy.attrs()
                &&& final(self).payload == proxy.window()
                &&& final(children)@ == old(children)@ + proxy.children()
            },
            !taken ==> {
                &&& *final(self) == *old(self)
                &&& *final(children) == *old(children)
            },
    {
        let bound = proxy.frame_len();
        let (mut attrs, window, opened, mut gathered) = proxy.into_parts();
        let fitting = if opened {
            self.payload.is_none()
        } else {
            match (window, self.payload) {
                (None, None) => true,
                (Some(a), Some(b)) => a.start == b.start && a.end == b.end,
                _ => false,
            }
        };
        let taken = bound == limit && fitting;
        if taken {
            self.attrs.append(&mut attrs);
            self.payload = window;
            children.append(&mut gathered);
        }
        taken
    }

    /// Whether the header and the payload lie within the first `limit` bytes.
    pub fn fits_in(&self, limit: usize) -> (b: bool)
        ensures
            b == self.fits(limit),
    {
        let head = self.span.fits_in(limit);
        match self.payload {
            Some(p) => head && p.fits_in(limit),
            None => head,
        }
    }
}

/// What one worker adds to the layer it is offered: fields, a payload if the
/// layer has none, and children, each within the payload and within the
/// frame. A worker gets a fresh proxy at each offer; what it has gathered
/// reaches the layer only if the worker claims it.
pub struct LayerProxy {
    limit: usize,
    attrs: Vec<Attr>,
    window: Option<Span>,
    opened: bool,
    children: Vec<Layer>,
}

impl LayerProxy {
    #[verifier::type_invariant]
    spec fn inv(self) -> bool {
        &&& self.opened ==> (self.window matches Some(w) && w.fits(self.limit))
        &&& forall|i: int|
            0 <= i < self.children@.len() ==> {
                &&& (#[trigger] self.children@[i]).fits(self.limit)
                &&& self.children@[i].child_of(self.window)
            }
    }

    /// The length of the frame's bytes.
    pub closed spec fn limit(self) -> usize {
        self.limit
    }

    /// The fields gathered so far, in the order they were added.
    pub closed spec fn attrs(self) -> Seq<Attr> {
        self.attrs@
    }

    /// The payload that children must lie within: the layer's own, or the one
    /// set through this proxy.
    pub closed spec fn window(self) -> Option<Span> {
        self.window
    }

    /// Whether the payload was set through this proxy.
    pub closed spec fn opened(self) -> bool {
        self.opened
    }

    /// The children gathered so far, in the order they were added.
    pub closed spec fn children(self) -> Seq<Layer> {
        self.children@
    }

    /// Nothing has been added through this proxy.
    pub open spec fn untouched(self) -> bool {
        &&& self.attrs().len() == 0
        &&& self.children().len() == 0
        &&& !self.opened()
    }

    /// What holds of every proxy: a payload set through it lies within the
    /// frame, and so does every child, which also lies within the payload.
    pub open spec fn sound(self) -> bool {
        &&& self.opened() ==> (self.window() matches Some(w) && w.fits(self.limit()))
        &&& forall|i: int|
            0 <= i < self.children().len() ==> {
                &&& (#[trigger] self.children()[i]).fits(self.limit())
                &&& self.children()[i].child_of(self.window())
            }
    }

    /// An empty proxy for a layer whose payload is `payload`, in a frame of
    /// `limit` bytes.
    pub fn new(payload: Option<Span>, limit: usize) -> (p: LayerProxy)
        ensures
            p.limit() == limit,
            p.window() == payload,
            p.untouched(),
    {
        LayerProxy { limit, attrs: Vec::new(), window: payload, opened: false, children: Vec::new() }
    }

    /// Takes the proxy apart: the fields, the payload, whether it was set
    /// through the proxy, and the children. The parts are sound.
    pub fn into_parts(self) -> (parts: (Vec<Attr>, Option<Span>, bool, Vec<Layer>))
        ensures
            self.sound(),
            parts.0@ == self.attrs(),
            parts.1 == self.window(),
            parts.2 == self.opened(),
            parts.3@ == self.children(),
    {
        proof {
            use_type_invariant(&self);
        }
        (self.attrs, self.window, self.opened, self.children)
    }

    /// The payload that children must lie within, if there is one.
    pub fn payload(&self) -> (w: Option<Span>)
        ensures
            w == self.window(),
    {
        self.window
    }

    /// The length of the frame's bytes.
    pub fn frame_len(&self) -> (n: usize)
        ensures
            n == self.limit(),
    {
        self.limit
    }

    /// The number of children gathered so far.
    pub fn child_count(&self) -> (n: usize)
        ensures
            n == self.children().len(),
    {
        self.children.len()
    }

    /// Adds a decoded field.
    pub fn add_attr(&mut self, attr: Attr)
        ensures
            final(self).attrs() == old(self).attrs().push(attr),
            final(self).limit() == old(self).limit(),
            final(self).window() == old(self).window(),
            final(self).opened() == old(self).opened(),
            final(self).children() == old(self).children(),
    {
        proof {
            use_type_invariant(&*self);
        }
        let mut attrs: Vec<Attr> = Vec::new();
        std::mem::swap(&mut self.attrs, &mut attrs);
        attrs.push(attr);
        std::mem::swap(&mut self.attrs, &mut attrs);
    }

    /// Makes `span` the payload. Refused with `PayloadAlreadySet` where there
    /// is a payload already, and else with `OutsideFrame` where `span` does
    /// not lie within the frame; a refusal changes nothing.
    pub fn set_payload(&mut self, span: Span) -> (r: Result<(), Fault>)
        ensures
            final(self).limit() == old(self).limit(),
            final(self).attrs() == old(self).attrs(),
            final(self).children() == old(self).children(),
            old(self).window().is_some() ==> r == Err::<(), Fault>(Fault::PayloadAlreadySet),
            old(self).window().is_none() && !span.fits(old(self).limit()) ==> r == Err::<
                (),
                Fault,
            >(Fault::OutsideFrame),
            old(self).window().is_none() && span.fits(old(self).limit()) ==> r.is_ok(),
            r.is_ok() ==> final(self).window() == Some(span) && final(self).opened(),
            r.is_err() ==> final(self).window() == old(self).window() && final(self).opened()
                == old(self).opened(),
    {
        proof {
            use_type_invariant(&*self);
        }
        if self.window.is_some() {
            return Err(Fault::PayloadAlreadySet);
        }
        if !span.fits_in(self.limit) {
            return Err(Fault::OutsideFrame);
        }
        self.window = Some(span);
        self.opened = true;
        Ok(())
    }

    /// Adds a child. Refused with `NoPayload` where there is no payload, else
    /// with `OutsidePayload` where the child's header does not lie within the
    /// payload, else with `OutsideFrame` where the child does not lie within
    /// the frame; a refusal changes nothing.
    pub fn add_child(&mut self, child: Layer) -> (r: Result<(), Fault>)
        ensures
            final(self).limit() == old(self).limit(),
            final(self).attrs() == old(self).attrs(),
            final(self).window() == old(self).window(),
            final(self).opened() == old(self).opened(),
            r == Self::child_verdict(old(self).window(), old(self).limit(), child),
            r.is_ok() ==> final(self).children() == old(self).children().push(child),
            r.is_err() ==> final(self).children() == old(self).children(),
    {
        proof {
            use_type_invariant(&*self);
        }
        match self.window {
            None => Err(Fault::NoPayload),
            Some(w) => {
                if !child.span.is_within(&w) {
                    Err(Fault::OutsidePayload)
                } else if !child.fits_in(self.limit) {
                    Err(Fault::OutsideFrame)
                } else {
                    let mut children: Vec<Layer> = Vec::new();
                    std::mem::swap(&mut self.children, &mut children);
                    children.push(child);
                    std::mem::swap(&mut self.children, &mut children);
                    Ok(())
                }
            },
        }
    }

    /// Whether a child is accepted under the payload `window` in a frame of
    /// `limit` bytes, and the fault if it is not.
    pub open spec fn child_verdict(window: Option<Span>, limit: usize, child: Layer) -> Result<
        (),
        Fault,
    > {
        match window {
            None => Err(Fault::NoPayload),
            Some(w) => if !child.span.within(w) {
                Err(Fault::OutsidePayload)
            } else if !child.fits(limit) {
                Err(Fault::OutsideFrame)
            } else {
                Ok(())
            },
        }
    }
}

/// The `children` are children of `target` in a frame of `limit` bytes:
/// each lies within the frame and within the payload of `target`.
pub open spec fn staged(target: Layer, children: Seq<Layer>, limit: usize) -> bool {
    forall|m: int|
        0 <= m < children.len() ==> {
            &&& (#[trigger] children[m]).fits(limit)
            &&& children[m].child_of(target.payload)
        }
}

/// A layer `t1` with the children `c1` has grown from the layer `t0` with the
/// children `c0`: the layer is an extension, no child is lost or moved, and
/// the children are still the layer's if they were.
pub open spec fn grown(t0: Layer, c0: Seq<Layer>, t1: Layer, c1: Seq<Layer>, limit: usize) -> bool {
    &&& t1.extends(t0, limit)
    &&& c0.is_prefix_of(c1)
    &&& staged(t0, c0, limit) ==> staged(t1, c1, limit)
}

/// Growth goes on: what has grown from what has grown has grown.
pub proof fn lemma_grown_transitive(
    t0: Layer,
    c0: Seq<Layer>,
    t1: Layer,
    c1: Seq<Layer>,
    t2: Layer,
    c2: Seq<Layer>,
    limit: usize,
)
    requires
        grown(t0, c0, t1, c1, limit),
        grown(t1, c1, t2, c2, limit),
    ensures
        grown(t0, c0, t2, c2, limit),
{
}

} // verus!
