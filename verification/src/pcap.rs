//! Capture files: the file header, the records, and the frames' bytes that
//! are made of them.
//!
//! A capture starts with 24 bytes of header: a magic number, which tells the
//! byte order of what follows and the unit of the timestamps, and at its end
//! the link type. Records follow, each with 16 bytes of header (seconds,
//! fraction of a second, bytes captured, bytes on the wire) and the bytes
//! captured.

use crate::bytes::{be_at, le_at, push_u32, read_u32, u32_bytes};
use crate::decoder::Context;
use crate::frame::Frame;
use crate::layer::{Layer, Span};
use crate::token::Token;
use vstd::prelude::*;

verus! {

/// The number of records that are read at most in one block.
pub const BLOCK_SIZE: usize = 2048;

/// The number of the name `[pcap]`, the kind of a frame's root layer.
pub const PCAP_LAYER: u64 = 1;

/// Why a capture could not be read.
#[derive(Clone, Copy, Debug, PartialEq, Eq, Structural)]
pub enum PcapError {
    /// The capture ends before the header or the record does.
    UnexpectedEof,
    /// The capture does not start with a magic number.
    WrongMagic,
}

/// The header of one record.
#[derive(Clone, Copy, Debug, PartialEq, Eq, Structural)]
pub struct Record {
    pub ts_sec: u32,
    pub ts_usec: u32,
    pub inc_len: u32,
    pub orig_len: u32,
}

/// Reads capture files.
#[derive(Clone, Copy, Debug, Default)]
pub struct PcapFileReader {}

/// The reader of capture files, as a package.
#[derive(Clone, Copy, Debug, Default)]
pub struct DefaultPackage {
    reader: PcapFileReader,
}

impl DefaultPackage {
    /// The reader.
    pub fn reader(&self) -> (r: &PcapFileReader) {
        &self.reader
    }
}

/// One capture being read: its byte order, the unit of its timestamps, its
/// link type, and how far it has been read.
#[derive(Clone, Copy, Debug, PartialEq, Eq, Structural)]
pub struct PcapFileWorker {
    /// Numbers are stored least significant byte first.
    pub le: bool,
    /// Timestamps count nanoseconds, not microseconds.
    pub nsec: bool,
    /// The link type.
    pub link: u32,
    /// The place of the next record.
    pub at: usize,
}

/// The byte order and the unit of the timestamps that a magic number stands
/// for: whether numbers are stored least significant byte first, and
/// whether timestamps count nanoseconds.
pub open spec fn magic_kind(magic: int) -> Option<(bool, bool)> {
    if magic == 0xd4c3_b2a1 {
        Some((true, false))
    } else if magic == 0xa1b2_c3d4 {
        Some((false, false))
    } else if magic == 0x4d3c_b2a1 {
        Some((true, true))
    } else if magic == 0xa1b2_3c4d {
        Some((false, true))
    } else {
        None
    }
}

/// The number at `at` in `bytes`, in the byte order `le`.
pub open spec fn u32_at(bytes: Seq<u8>, at: int, le: bool) -> u32 {
    if le {
        le_at(bytes, at) as u32
    } else {
        be_at(bytes, at) as u32
    }
}

/// The capture `capture` as it is opened: what its header says, with the
/// first record next.
pub open spec fn opened(capture: Seq<u8>) -> Result<PcapFileWorker, PcapError> {
    if capture.len() < 4 {
        Err(PcapError::UnexpectedEof)
    } else {
        match magic_kind(be_at(capture, 0)) {
            None => Err(PcapError::WrongMagic),
            Some((le, nsec)) => if capture.len() < 24 {
                Err(PcapError::UnexpectedEof)
            } else {
                Ok(PcapFileWorker { le, nsec, link: u32_at(capture, 20, le), at: 24 })
            },
        }
    }
}

/// The header of the record at `at`, if the capture holds all of it.
pub open spec fn record_at(capture: Seq<u8>, at: int, le: bool) -> Option<Record> {
    if at + 16 <= capture.len() {
        Some(
            Record {
                ts_sec: u32_at(capture, at, le),
                ts_usec: u32_at(capture, at + 4, le),
                inc_len: u32_at(capture, at + 8, le),
                orig_len: u32_at(capture, at + 12, le),
            },
        )
    } else {
        None
    }
}

/// The fraction of a second of a timestamp in nanoseconds, as far as 32 bits
/// hold it.
pub open spec fn nanos(fraction: u32, nsec: bool) -> u32 {
    if nsec {
        fraction
    } else {
        ((fraction * 1000) % 0x1_0000_0000) as u32
    }
}

/// The bytes of the frame made of the record `rec` with the bytes `data`:
/// link type, bytes captured, bytes on the wire, seconds and nanoseconds,
/// each as four bytes, most significant first, and then the bytes captured.
pub open spec fn frame_bytes(link: u32, nsec: bool, rec: Record, data: Seq<u8>) -> Seq<u8> {
    u32_bytes(link) + u32_bytes(rec.inc_len) + u32_bytes(rec.orig_len) + u32_bytes(rec.ts_sec)
        + u32_bytes(nanos(rec.ts_usec, nsec)) + data
}

/// Where the record after the one at `w.at` starts, if the capture holds
/// all of that one.
#[verifier::opaque]
pub open spec fn next_at(w: PcapFileWorker, capture: Seq<u8>) -> Option<int> {
    match record_at(capture, w.at as int, w.le) {
        None => None,
        Some(rec) => if w.at + 16 + rec.inc_len <= capture.len() {
            Some(w.at + 16 + rec.inc_len)
        } else {
            None
        },
    }
}

/// The bytes of the frame made of the record at `w.at`, if the capture holds
/// all of it.
#[verifier::opaque]
pub open spec fn frame_at(w: PcapFileWorker, capture: Seq<u8>) -> Option<Seq<u8>> {
    match next_at(w, capture) {
        None => None,
        Some(end) => Some(
            frame_bytes(
                w.link,
                w.nsec,
                record_at(capture, w.at as int, w.le).unwrap(),
                capture.subrange(w.at + 16, end),
            ),
        ),
    }
}

/// The frames made of the records from `w.at` on: at most `n` of them, and
/// none after the first record that the capture does not hold all of.
#[verifier::opaque]
pub open spec fn block_at(w: PcapFileWorker, capture: Seq<u8>, n: nat) -> Seq<Seq<u8>>
    decreases n,
{
    if n == 0 {
        Seq::empty()
    } else {
        match next_at(w, capture) {
            None => Seq::empty(),
            Some(end) => seq![frame_at(w, capture).unwrap()] + block_at(
                PcapFileWorker { at: end as usize, ..w },
                capture,
                (n - 1) as nat,
            ),
        }
    }
}

/// Where the capture has been read to after a block of at most `n` records
/// from `w.at` on: behind the last record read if all `n` were there, at the
/// end of the capture if not.
#[verifier::opaque]
pub open spec fn block_end(w: PcapFileWorker, capture: Seq<u8>, n: nat) -> int
    decreases n,
{
    if n == 0 {
        w.at as int
    } else {
        match next_at(w, capture) {
            None => capture.len() as int,
            Some(end) => block_end(PcapFileWorker { at: end as usize, ..w }, capture, (n - 1) as nat),
        }
    }
}

/// The vectors `slices` hold the byte strings `frames`, one each, in order.
pub open spec fn holds(slices: Seq<Vec<u8>>, frames: Seq<Seq<u8>>) -> bool {
    &&& slices.len() == frames.len()
    &&& forall|i: int| 0 <= i < slices.len() ==> (#[trigger] slices[i])@ == frames[i]
}

impl PcapFileReader {
    /// Opens a capture: reads its header. Fails with `UnexpectedEof` where
    /// the capture ends within the magic number, else with `WrongMagic`
    /// where the first four bytes are no magic number, else with
    /// `UnexpectedEof` where the capture ends within the header.
    pub fn new_worker(&self, _ctx: &Context, capture: &Vec<u8>) -> (r: Result<
        PcapFileWorker,
        PcapError,
    >)
        ensures
            r == opened(capture@),
    {
        let magic_number = match read_u32(capture, 0, false) {
            Some(n) => n,
            None => {
                return Err(PcapError::UnexpectedEof);
            },
        };
        let (le, nsec) = if magic_number == 0xd4c3_b2a1 {
            (true, false)
        } else if magic_number == 0xa1b2_c3d4 {
            (false, false)
        } else if magic_number == 0x4d3c_b2a1 {
            (true, true)
        } else if magic_number == 0xa1b2_3c4d {
            (false, true)
        } else {
            return Err(PcapError::WrongMagic);
        };
        match read_u32(capture, 20, le) {
            Some(network) => Ok(PcapFileWorker { le, nsec, link: network, at: 24 }),
            None => Err(PcapError::UnexpectedEof),
        }
    }
}

impl PcapFileWorker {
    /// The header of the record at `at`, if the capture holds all of it.
    pub fn record(&self, capture: &Vec<u8>, at: usize) -> (r: Option<Record>)
        ensures
            r == record_at(capture@, at as int, self.le),
    {
        if capture.len() < 16 || at > capture.len() - 16 {
            return None;
        }
        let ts_sec = read_u32(capture, at, self.le).unwrap();
        let ts_usec = read_u32(capture, at + 4, self.le).unwrap();
        let inc_len = read_u32(capture, at + 8, self.le).unwrap();
        let orig_len = read_u32(capture, at + 12, self.le).unwrap();
        Some(Record { ts_sec, ts_usec, inc_len, orig_len })
    }

    /// Reads the next record and makes the bytes of its frame. Where the
    /// capture ends before the record does, this fails with `UnexpectedEof`
    /// and nothing is left to read.
    pub fn read_one(&mut self, capture: &Vec<u8>) -> (r: Result<Vec<u8>, PcapError>)
        ensures
            final(self).le == old(self).le,
            final(self).nsec == old(self).nsec,
            final(self).link == old(self).link,
            match next_at(*old(self), capture@) {
                Some(end) => {
                    &&& (r matches Ok(bytes) && Some(bytes@) == frame_at(*old(self), capture@))
                    &&& final(self).at == end
                },
                None => {
                    &&& r == Err::<Vec<u8>, PcapError>(PcapError::UnexpectedEof)
                    &&& final(self).at == capture@.len()
                },
            },
    {
        proof {
            reveal(next_at);
            reveal(frame_at);
        }
        let rec = match self.record(capture, self.at) {
            Some(rec) => rec,
            None => {
                self.at = capture.len();
                return Err(PcapError::UnexpectedEof);
            },
        };
        assert(self.at + 16 <= capture.len());
        let start = self.at + 16;
        let size = rec.inc_len as usize;
        if size > capture.len() - start {
            self.at = capture.len();
            return Err(PcapError::UnexpectedEof);
        }
        let ts_usec = if self.nsec {
            rec.ts_usec
        } else {
            rec.ts_usec.wrapping_mul(1000)
        };
        let mut data: Vec<u8> = Vec::new();
        push_u32(&mut data, self.link);
        push_u32(&mut data, rec.inc_len);
        push_u32(&mut data, rec.orig_len);
        push_u32(&mut data, rec.ts_sec);
        push_u32(&mut data, ts_usec);
        let ghost meta = data@;
        let end = start + size;
        let mut i: usize = start;
        while i < end
            invariant
                start <= i <= end <= capture@.len(),
                data@ == meta + capture@.subrange(start as int, i as int),
            decreases end - i,
        {
            data.push(capture[i]);
            assert(capture@.subrange(start as int, i + 1) =~= capture@.subrange(
                start as int,
                i as int,
            ).push(capture@[i as int]));
            i += 1;
        }
        self.at = end;
        Ok(data)
    }

    /// Reads a block of records: as many as the capture still holds, and
    /// `BLOCK_SIZE` at most. Where it holds none, this fails with
    /// `UnexpectedEof`.
    pub fn read(&mut self, capture: &Vec<u8>) -> (r: Result<Vec<Vec<u8>>, PcapError>)
        ensures
            final(self).le == old(self).le,
            final(self).nsec == old(self).nsec,
            final(self).link == old(self).link,
            final(self).at == block_end(*old(self), capture@, BLOCK_SIZE as nat),
            block_at(*old(self), capture@, BLOCK_SIZE as nat).len() == 0 ==> r == Err::<
                Vec<Vec<u8>>,
                PcapError,
            >(PcapError::UnexpectedEof),
            block_at(*old(self), capture@, BLOCK_SIZE as nat).len() > 0 ==> (r matches Ok(slices)
                && holds(slices@, block_at(*old(self), capture@, BLOCK_SIZE as nat))),
    {
        let mut slices: Vec<Vec<u8>> = Vec::new();
        let ghost first = *self;
        let ghost mut got: Seq<Seq<u8>> = Seq::empty();
        let mut n: usize = 0;
        proof {
            assert(got + block_at(first, capture@, BLOCK_SIZE as nat) =~= block_at(
                first,
                capture@,
                BLOCK_SIZE as nat,
            ));
        }
        while n < BLOCK_SIZE
            invariant
                n <= BLOCK_SIZE,
                first == *old(self),
                self.le == first.le,
                self.nsec == first.nsec,
                self.link == first.link,
                holds(slices@, got),
                block_at(first, capture@, BLOCK_SIZE as nat) == got + block_at(
                    *self,
                    capture@,
                    (BLOCK_SIZE - n) as nat,
                ),
                block_end(first, capture@, BLOCK_SIZE as nat) == block_end(
                    *self,
                    capture@,
                    (BLOCK_SIZE - n) as nat,
                ),
            decreases BLOCK_SIZE - n,
        {
            let ghost before = *self;
            let ghost left = (BLOCK_SIZE - n) as nat;
            match self.read_one(capture) {
                Ok(s) => {
                    proof {
                        lemma_block_more(before, capture@, left);
                        assert(*self == PcapFileWorker {
                            at: next_at(before, capture@).unwrap() as usize,
                            ..before
                        });
                        let rest = block_at(*self, capture@, (left - 1) as nat);
                        assert(got + (seq![s@] + rest) =~= got.push(s@) + rest);
                        got = got.push(s@);
                    }
                    slices.push(s);
                },
                Err(err) => {
                    proof {
                        lemma_block_none(before, capture@, left);
                        lemma_block_at_end(*self, capture@, (left - 1) as nat);
                        assert(got + Seq::<Seq<u8>>::empty() =~= got);
                    }
                    if slices.len() == 0 {
                        return Err(err);
                    }
                },
            }
            n += 1;
        }
        proof {
            lemma_block_zero(*self, capture@);
            assert(got + Seq::<Seq<u8>>::empty() =~= got);
        }
        if slices.len() == 0 {
            Err(PcapError::UnexpectedEof)
        } else {
            Ok(slices)
        }
    }

    /// The frame with the bytes `bytes`: its one root layer is of kind
    /// `[pcap]`, spans all the bytes and leaves all of them as payload.
    pub fn frame(&self, bytes: Vec<u8>) -> (f: Frame)
        ensures
            f.spec_data() == bytes@,
            f.spec_tree_indices().len() == 0,
            f.spec_layers().len() == 1,
            f.spec_layers()[0].id == (Token { id: PCAP_LAYER }),
            f.spec_layers()[0].span == (Span { start: 0, end: bytes.len() }),
            f.spec_layers()[0].payload == Some(Span { start: 0, end: bytes.len() }),
            f.spec_layers()[0].attrs@.len() == 0,
    {
        let whole = Span::new(0, bytes.len());
        let mut root = Layer::new(self.layer_id(), whole);
        root.payload = Some(whole);
        let mut layers: Vec<Layer> = Vec::new();
        layers.push(root);
        Frame::new(bytes, layers)
    }

    /// The kind of the root layer of the frames of a capture.
    pub fn layer_id(&self) -> (t: Token)
        ensures
            t == (Token { id: PCAP_LAYER }),
    {
        Token::new(PCAP_LAYER)
    }
}

/// A block of no records is empty and ends where it starts.
pub proof fn lemma_block_zero(w: PcapFileWorker, capture: Seq<u8>)
    ensures
        block_at(w, capture, 0).len() == 0,
        block_end(w, capture, 0) == w.at,
{
    reveal_with_fuel(block_at, 1);
    reveal_with_fuel(block_end, 1);
}

/// Where the capture holds all of the next record, a block starts with the
/// frame made of it and goes on behind it with one record less.
pub proof fn lemma_block_more(w: PcapFileWorker, capture: Seq<u8>, n: nat)
    requires
        n > 0,
        next_at(w, capture).is_some(),
    ensures
        block_at(w, capture, n) == seq![frame_at(w, capture).unwrap()] + block_at(
            PcapFileWorker { at: next_at(w, capture).unwrap() as usize, ..w },
            capture,
            (n - 1) as nat,
        ),
        block_end(w, capture, n) == block_end(
            PcapFileWorker { at: next_at(w, capture).unwrap() as usize, ..w },
            capture,
            (n - 1) as nat,
        ),
{
    reveal_with_fuel(block_at, 1);
    reveal_with_fuel(block_end, 1);
}

/// Where the capture does not hold all of the next record, a block is
/// empty and ends at the end of the capture.
pub proof fn lemma_block_none(w: PcapFileWorker, capture: Seq<u8>, n: nat)
    requires
        n > 0,
        next_at(w, capture).is_none(),
    ensures
        block_at(w, capture, n).len() == 0,
        block_end(w, capture, n) == capture.len(),
{
    reveal_with_fuel(block_at, 1);
    reveal_with_fuel(block_end, 1);
}

/// At the end of a capture no record is left, however many are asked for.
pub proof fn lemma_block_at_end(w: PcapFileWorker, capture: Seq<u8>, n: nat)
    requires
        w.at == capture.len(),
    ensures
        block_at(w, capture, n).len() == 0,
        block_end(w, capture, n) == capture.len(),
{
    reveal(next_at);
    reveal_with_fuel(block_at, 1);
    reveal_with_fuel(block_end, 1);
}

} // verus!
