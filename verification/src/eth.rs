//! Ethernet: the decoder of the payload of a link layer.

use crate::decoder::{Context, Decoder, ExecType, LayerStack, Metadata, Status, Worker};
use crate::layer::{Attr, Fault, Layer, LayerProxy, Span};
use crate::token::Token;
use vstd::prelude::*;

verus! {

/// The number of the name `[link-1]`, the kind of layer whose payload is an
/// Ethernet frame.
pub const LINK_1: u64 = 2;

/// The number of the name `eth`.
pub const ETH: u64 = 3;

/// The number of the name `eth.src`.
pub const ETH_SRC: u64 = 4;

/// The number of the name `eth.dst`.
pub const ETH_DST: u64 = 5;

/// The number of the name `eth.len`.
pub const ETH_LEN: u64 = 6;

/// The number of the name `eth.type`.
pub const ETH_TYPE: u64 = 7;

/// The number of the name `@eth:mac`.
pub const TYPE_MAC: u64 = 8;

/// The number of the name `@enum`.
pub const TYPE_ENUM: u64 = 9;

/// The number of the name `@novalue`.
pub const TYPE_NOVALUE: u64 = 10;

/// The number of the name of an attribute without a type.
pub const TYPE_NONE: u64 = 0;

/// The number of the name `eth.type.ipv4`.
pub const ETH_TYPE_IPV4: u64 = 11;

/// The number of the name `eth.type.arp`.
pub const ETH_TYPE_ARP: u64 = 12;

/// The number of the name `eth.type.wol`.
pub const ETH_TYPE_WOL: u64 = 13;

/// The number of the name `eth.type.ipv6`.
pub const ETH_TYPE_IPV6: u64 = 14;

/// The number of the name `eth.type.eap`.
pub const ETH_TYPE_EAP: u64 = 15;

/// The length of an Ethernet header.
pub const HEADER_LEN: usize = 14;

/// The largest value of the length-or-type field that is a length.
pub const MAX_LEN: u16 = 1500;

/// The protocol that an Ethernet frame carries.
#[derive(Clone, Copy, Debug, PartialEq, Eq, Structural)]
pub enum EthTypeEnum {
    IPv4,
    ARP,
    WOL,
    IPv6,
    EAP,
    Unknown,
}

/// The protocol that the type number `data` stands for.
pub open spec fn eth_type_of(data: u16) -> EthTypeEnum {
    if data == 0x0800 {
        EthTypeEnum::IPv4
    } else if data == 0x0806 {
        EthTypeEnum::ARP
    } else if data == 0x0842 {
        EthTypeEnum::WOL
    } else if data == 0x86DD {
        EthTypeEnum::IPv6
    } else if data == 0x888E {
        EthTypeEnum::EAP
    } else {
        EthTypeEnum::Unknown
    }
}

impl Default for EthTypeEnum {
    fn default() -> (t: EthTypeEnum)
        ensures
            t == EthTypeEnum::Unknown,
    {
        EthTypeEnum::Unknown
    }
}

impl From<u16> for EthTypeEnum {
    fn from(data: u16) -> (t: EthTypeEnum) {
        match data {
            0x0800 => EthTypeEnum::IPv4,
            0x0806 => EthTypeEnum::ARP,
            0x0842 => EthTypeEnum::WOL,
            0x86DD => EthTypeEnum::IPv6,
            0x888E => EthTypeEnum::EAP,
            _ => EthTypeEnum::Unknown,
        }
    }
}

impl vstd::std_specs::convert::FromSpecImpl<u16> for EthTypeEnum {
    open spec fn obeys_from_spec() -> bool {
        true
    }

    open spec fn from_spec(data: u16) -> EthTypeEnum {
        eth_type_of(data)
    }
}

impl EthTypeEnum {
    /// The name of the attribute that marks a frame of this protocol; none
    /// for an unknown protocol.
    pub open spec fn spec_name(self) -> Option<Token> {
        match self {
            EthTypeEnum::IPv4 => Some(Token { id: ETH_TYPE_IPV4 }),
            EthTypeEnum::ARP => Some(Token { id: ETH_TYPE_ARP }),
            EthTypeEnum::WOL => Some(Token { id: ETH_TYPE_WOL }),
            EthTypeEnum::IPv6 => Some(Token { id: ETH_TYPE_IPV6 }),
            EthTypeEnum::EAP => Some(Token { id: ETH_TYPE_EAP }),
            EthTypeEnum::Unknown => None,
        }
    }

    /// The name of the attribute that marks a frame of this protocol; none
    /// for an unknown protocol.
    #[verifier::when_used_as_spec(spec_name)]
    pub fn name(self) -> (t: Option<Token>)
        ensures
            t == self.spec_name(),
    {
        match self {
            EthTypeEnum::IPv4 => Some(Token::new(ETH_TYPE_IPV4)),
            EthTypeEnum::ARP => Some(Token::new(ETH_TYPE_ARP)),
            EthTypeEnum::WOL => Some(Token::new(ETH_TYPE_WOL)),
            EthTypeEnum::IPv6 => Some(Token::new(ETH_TYPE_IPV6)),
            EthTypeEnum::EAP => Some(Token::new(ETH_TYPE_EAP)),
            EthTypeEnum::Unknown => None,
        }
    }
}

/// The number that two bytes give, most significant first.
pub open spec fn u16_of(hi: u8, lo: u8) -> u16 {
    (hi as int * 0x100 + lo as int) as u16
}

/// The region of `len` bytes that starts `off` bytes into the header at
/// `start`.
pub open spec fn field(start: usize, off: int, len: int) -> Span {
    Span { start: (start + off) as usize, end: (start + off + len) as usize }
}

/// The fields of an Ethernet header at `start` whose length-or-type field
/// holds `value`: source, destination, then the length if the value is one
/// and the type if it is not, then the mark of the protocol if the value
/// names one.
pub open spec fn eth_attrs(start: usize, value: u16) -> Seq<Attr> {
    let head = seq![
        Attr { id: Token { id: ETH_SRC }, typ: Token { id: TYPE_MAC }, span: field(start, 0, 6) },
        Attr { id: Token { id: ETH_DST }, typ: Token { id: TYPE_MAC }, span: field(start, 6, 6) },
        if value <= MAX_LEN {
            Attr {
                id: Token { id: ETH_LEN },
                typ: Token { id: TYPE_NONE },
                span: field(start, 12, 2),
            }
        } else {
            Attr {
                id: Token { id: ETH_TYPE },
                typ: Token { id: TYPE_ENUM },
                span: field(start, 12, 2),
            }
        },
    ];
    match eth_type_of(value).spec_name() {
        Some(name) => head.push(
            Attr { id: name, typ: Token { id: TYPE_NOVALUE }, span: field(start, 12, 2) },
        ),
        None => head,
    }
}

/// The Ethernet layer at the start of the region `window` of `data` is as
/// `layer` says: it claims the fourteen bytes of the header, holds the
/// fields of the header, and leaves the rest of the region as payload.
pub open spec fn is_eth_layer(layer: Layer, data: Seq<u8>, window: Span) -> bool {
    &&& layer.id == Token { id: ETH }
    &&& layer.span == field(window.start, 0, 14)
    &&& layer.payload == Some(Span { start: (window.start + 14) as usize, end: window.end })
    &&& layer.attrs@ == eth_attrs(
        window.start,
        u16_of(data[window.start + 12], data[window.start + 13]),
    )
}

/// Whether the region `window` of a frame of `limit` bytes can be
/// dissected, and the fault if it cannot: `OutsideFrame` where the region
/// does not lie within the frame, `Truncated` where it is shorter than a
/// header.
pub open spec fn eth_verdict(limit: usize, window: Span) -> Result<(), Fault> {
    if !window.fits(limit) {
        Err(Fault::OutsideFrame)
    } else if window.end - window.start < HEADER_LEN {
        Err(Fault::Truncated)
    } else {
        Ok(())
    }
}

/// What the decoder answers when it is offered a layer of kind `kind` with
/// the payload `window`, in a frame of `limit` bytes, through a proxy made
/// for a frame of `bound` bytes.
///
/// A layer that is no link layer is not this decoder's. A link layer
/// without payload fails with `NoPayload`, a proxy of another frame with
/// `OutsideFrame`, and a payload that cannot be dissected with the fault of
/// the dissection.
pub open spec fn eth_answer(kind: Token, window: Option<Span>, limit: usize, bound: usize) -> Result<
    Status,
    Fault,
> {
    if kind != (Token { id: LINK_1 }) {
        Ok(Status::NotApplicable)
    } else {
        match window {
            None => Err(Fault::NoPayload),
            Some(w) => if limit != bound {
                Err(Fault::OutsideFrame)
            } else {
                match eth_verdict(limit, w) {
                    Err(fault) => Err(fault),
                    Ok(_) => Ok(Status::Claimed),
                }
            },
        }
    }
}

/// The decoder of Ethernet frames.
#[derive(Clone, Copy, Debug, Default)]
pub struct EthDecoder {}

/// The worker of the decoder of Ethernet frames. It keeps nothing from one
/// layer to the next.
#[derive(Clone, Copy, Debug, Default)]
pub struct EthWorker {}

impl EthWorker {
    /// Dissects the Ethernet frame in the region `window` of `data`.
    pub fn dissect(data: &Vec<u8>, window: Span) -> (r: Result<Layer, Fault>)
        ensures
            r.is_ok() == eth_verdict(data.len(), window).is_ok(),
            r matches Err(fault) ==> eth_verdict(data.len(), window) == Err::<(), Fault>(fault),
            r matches Ok(layer) ==> is_eth_layer(layer, data@, window) && layer.fits(data.len())
                && layer.span.within(window),
    {
        if !window.fits_in(data.len()) {
            return Err(Fault::OutsideFrame);
        }
        if window.end - window.start < HEADER_LEN {
            return Err(Fault::Truncated);
        }
        let start = window.start;
        let value: u16 = (data[start + 12] as u16) * 0x100 + (data[start + 13] as u16);
        let mut layer = Layer::new(Token::new(ETH), Span::new(start, start + 14));
        layer.attrs.push(
            Attr {
                id: Token::new(ETH_SRC),
                typ: Token::new(TYPE_MAC),
                span: Span::new(start, start + 6),
            },
        );
        layer.attrs.push(
            Attr {
                id: Token::new(ETH_DST),
                typ: Token::new(TYPE_MAC),
                span: Span::new(start + 6, start + 12),
            },
        );
        if value <= MAX_LEN {
            layer.attrs.push(
                Attr {
                    id: Token::new(ETH_LEN),
                    typ: Token::new(TYPE_NONE),
                    span: Span::new(start + 12, start + 14),
                },
            );
        } else {
            layer.attrs.push(
                Attr {
                    id: Token::new(ETH_TYPE),
                    typ: Token::new(TYPE_ENUM),
                    span: Span::new(start + 12, start + 14),
                },
            );
        }
        let typ = EthTypeEnum::from(value);
        match typ.name() {
            Some(name) => {
                layer.attrs.push(
                    Attr {
                        id: name,
                        typ: Token::new(TYPE_NOVALUE),
                        span: Span::new(start + 12, start + 14),
                    },
                );
            },
            None => {},
        }
        layer.payload = Some(Span::new(start + 14, window.end));
        assert(layer.attrs@ =~= eth_attrs(start, value));
        Ok(layer)
    }

    /// Decodes the layer `parent` of the frame with the bytes `data`: a link
    /// layer gets the Ethernet layer of its payload as its child, and
    /// nothing else is added.
    pub fn offer(parent: &Layer, data: &Vec<u8>, target: &mut LayerProxy) -> (r: Result<
        Status,
        Fault,
    >)
        ensures
            r == eth_answer(parent.id, old(target).window(), data.len(), old(target).limit()),
            final(target).limit() == old(target).limit(),
            final(target).attrs() == old(target).attrs(),
            final(target).window() == old(target).window(),
            final(target).opened() == old(target).opened(),
            r != Ok::<Status, Fault>(Status::Claimed) ==> final(target).children() == old(target).children(),
            r == Ok::<Status, Fault>(Status::Claimed) ==> {
                &&& final(target).children().len() == old(target).children().len() + 1
                &&& final(target).children().drop_last() == old(target).children()
                &&& is_eth_layer(
                    final(target).children().last(),
                    data@,
                    old(target).window().unwrap(),
                )
            },
    {
        if parent.id.id() != LINK_1 {
            return Ok(Status::NotApplicable);
        }
        let window = match target.payload() {
            Some(window) => window,
            None => {
                return Err(Fault::NoPayload);
            },
        };
        if data.len() != target.frame_len() {
            return Err(Fault::OutsideFrame);
        }
        let layer = match Self::dissect(data, window) {
            Ok(layer) => layer,
            Err(fault) => {
                return Err(fault);
            },
        };
        let ghost before = target.children();
        match target.add_child(layer) {
            Ok(_) => {
                assert(target.children().drop_last() =~= before);
                Ok(Status::Claimed)
            },
            Err(fault) => Err(fault),
        }
    }
}

impl Worker for EthWorker {
    fn decode(&mut self, _ctx: &Context, stack: &LayerStack, target: &mut LayerProxy) -> (r: Result<
        Status,
        Fault,
    >)
        ensures
            r == eth_answer(
                stack.layers()[stack.spec_position() as int].id,
                old(target).window(),
                stack.bytes().len() as usize,
                old(target).limit(),
            ),
    {
        EthWorker::offer(stack.target(), stack.data(), target)
    }
}

impl Decoder for EthDecoder {
    type Work = EthWorker;

    fn new_worker(&self, _ctx: &Context) -> EthWorker {
        EthWorker {  }
    }

    fn metadata(&self) -> (m: Metadata)
        ensures
            m.exec_type == ExecType::ParallelSync,
    {
        Metadata { exec_type: ExecType::ParallelSync }
    }
}

} // verus!
