//! A protocol-decoding kernel: a pool of decoders is driven to a fixpoint
//! over the layers of one frame, level by level, and the result is written
//! back as a flat layer list with its tree shape.

pub mod bytes;
pub mod decoder;
pub mod dispatcher;
pub mod eth;
pub mod frame;
pub mod layer;
pub mod pcap;
pub mod profile;
pub mod progress;
pub mod schedule;
pub mod token;
pub mod tree;
pub mod worklist;
