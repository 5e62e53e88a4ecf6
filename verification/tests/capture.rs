use genet_kernel::bytes::{push_u32, read_u32};
use genet_kernel::decoder::Context;
use genet_kernel::layer::Span;
use genet_kernel::pcap::{
    DefaultPackage, PcapError, PcapFileReader, PcapFileWorker, Record, BLOCK_SIZE, PCAP_LAYER,
};

fn tcp_ipv4_pcap() -> Vec<u8> {
    vec![
        0xd4, 0xc3, 0xb2, 0xa1, 0x02, 0x00, 0x04, 0x00, 0x00, 0x00, 0x00, 0x00, 0x00, 0x00, 0x00,
        0x00, 0x00, 0x00, 0x04, 0x00, 0x01, 0x00, 0x00, 0x00, 0x33, 0xf6, 0x7e, 0x58, 0x88, 0x65,
        0x0d, 0x00, 0x42, 0x00, 0x00, 0x00, 0x42, 0x00, 0x00, 0x00, 0xac, 0xbc, 0x32, 0xbc, 0x2a,
        0x87, 0x80, 0x13, 0x82, 0x62, 0xa2, 0x45, 0x08, 0x00, 0x45, 0x00, 0x00, 0x34, 0x69, 0xaf,
        0x40, 0x00, 0x31, 0x06, 0x01, 0xf7, 0xca, 0xe8, 0xee, 0x28, 0xc0, 0xa8, 0x64, 0x64, 0x00,
        0x50, 0xc4, 0x27, 0x22, 0xdd, 0xb1, 0xc0, 0x63, 0x6a, 0x47, 0x9b, 0x80, 0x10, 0x00, 0x72,
        0xf7, 0x6c, 0x00, 0x00, 0x01, 0x01, 0x08, 0x0a, 0xf9, 0x28, 0x89, 0x4f, 0x61, 0x8f, 0x78,
        0x9d,
    ]
}

fn open(capture: &Vec<u8>) -> Result<PcapFileWorker, PcapError> {
    PcapFileReader::default().new_worker(&Context::new(0), capture)
}

/// A header with the magic number `magic` and the link type `link`, both
/// written as given.
fn header(magic: [u8; 4], link: [u8; 4]) -> Vec<u8> {
    let mut h = magic.to_vec();
    h.extend_from_slice(&[0u8; 16]);
    h.extend_from_slice(&link);
    h
}

/// A record in big-endian byte order.
fn record_be(ts_sec: u32, ts_usec: u32, data: &[u8]) -> Vec<u8> {
    let mut r = Vec::new();
    r.extend_from_slice(&ts_sec.to_be_bytes());
    r.extend_from_slice(&ts_usec.to_be_bytes());
    r.extend_from_slice(&(data.len() as u32).to_be_bytes());
    r.extend_from_slice(&(data.len() as u32 + 1).to_be_bytes());
    r.extend_from_slice(data);
    r
}

#[test]
fn numbers_are_read_in_both_byte_orders() {
    let bytes = vec![0x01, 0x02, 0x03, 0x04, 0x05];
    assert_eq!(read_u32(&bytes, 0, false), Some(0x0102_0304));
    assert_eq!(read_u32(&bytes, 0, true), Some(0x0403_0201));
    assert_eq!(read_u32(&bytes, 1, false), Some(0x0203_0405));
    assert_eq!(read_u32(&bytes, 1, true), Some(0x0504_0302));
    assert_eq!(read_u32(&bytes, 2, false), None);
    assert_eq!(read_u32(&bytes, usize::MAX, true), None);
    assert_eq!(read_u32(&vec![1, 2, 3], 0, false), None);
}

#[test]
fn numbers_are_written_most_significant_byte_first() {
    let mut out = vec![9u8];
    push_u32(&mut out, 0x0102_0304);
    push_u32(&mut out, 0xfffe_0001);
    assert_eq!(out, vec![9, 1, 2, 3, 4, 0xff, 0xfe, 0, 1]);
    assert_eq!(read_u32(&out, 5, false), Some(0xfffe_0001));
}

#[test]
fn the_magic_number_tells_byte_order_and_unit() {
    let w = open(&header([0xd4, 0xc3, 0xb2, 0xa1], [1, 0, 0, 0])).unwrap();
    assert_eq!(w, PcapFileWorker { le: true, nsec: false, link: 1, at: 24 });
    let w = open(&header([0xa1, 0xb2, 0xc3, 0xd4], [0, 0, 0, 1])).unwrap();
    assert_eq!(w, PcapFileWorker { le: false, nsec: false, link: 1, at: 24 });
    let w = open(&header([0x4d, 0x3c, 0xb2, 0xa1], [0x69, 0, 0, 0])).unwrap();
    assert_eq!(w, PcapFileWorker { le: true, nsec: true, link: 0x69, at: 24 });
    let w = open(&header([0xa1, 0xb2, 0x3c, 0x4d], [0, 0, 1, 2])).unwrap();
    assert_eq!(w, PcapFileWorker { le: false, nsec: true, link: 0x102, at: 24 });
}

#[test]
fn a_capture_without_a_header_is_refused() {
    assert_eq!(open(&vec![]), Err(PcapError::UnexpectedEof));
    assert_eq!(open(&vec![0xd4, 0xc3, 0xb2]), Err(PcapError::UnexpectedEof));
    assert_eq!(open(&vec![0xd4, 0xc3, 0xb2, 0xa2]), Err(PcapError::WrongMagic));
    assert_eq!(open(&vec![0u8; 24]), Err(PcapError::WrongMagic));
    assert_eq!(open(&vec![0xd4, 0xc3, 0xb2, 0xa1]), Err(PcapError::UnexpectedEof));
    let mut short = header([0xd4, 0xc3, 0xb2, 0xa1], [1, 0, 0, 0]);
    short.pop();
    assert_eq!(open(&short), Err(PcapError::UnexpectedEof));
}

#[test]
fn a_record_becomes_the_bytes_of_a_frame() {
    let capture = tcp_ipv4_pcap();
    let mut w = open(&capture).unwrap();
    assert_eq!(
        w.record(&capture, 24),
        Some(Record { ts_sec: 0x587e_f633, ts_usec: 877_960, inc_len: 66, orig_len: 66 })
    );
    let bytes = w.read_one(&capture).unwrap();
    let mut expected = vec![
        0x00, 0x00, 0x00, 0x01, // link type
        0x00, 0x00, 0x00, 0x42, // bytes captured
        0x00, 0x00, 0x00, 0x42, // bytes on the wire
        0x58, 0x7e, 0xf6, 0x33, // seconds
        0x34, 0x54, 0x9b, 0x40, // 877 960 microseconds, in nanoseconds
    ];
    expected.extend_from_slice(&capture[40..]);
    assert_eq!(bytes, expected);
    assert_eq!(w.at, 106);
    assert_eq!(w.read_one(&capture), Err(PcapError::UnexpectedEof));
    assert_eq!(w.at, 106);
}

#[test]
fn nanoseconds_are_kept_and_microseconds_scaled_within_32_bits() {
    let mut capture = header([0xa1, 0xb2, 0x3c, 0x4d], [0, 0, 0, 1]);
    capture.extend(record_be(7, 5_000_000, &[0xaa]));
    let mut w = open(&capture).unwrap();
    let bytes = w.read_one(&capture).unwrap();
    assert_eq!(&bytes[16..20], &5_000_000u32.to_be_bytes());
    assert_eq!(&bytes[8..12], &[0, 0, 0, 2]);
    assert_eq!(&bytes[20..], &[0xaa]);

    let mut capture = header([0xa1, 0xb2, 0xc3, 0xd4], [0, 0, 0, 1]);
    capture.extend(record_be(7, 5_000_000, &[0xaa]));
    capture.extend(record_be(8, 0xffff_ffff, &[]));
    let mut w = open(&capture).unwrap();
    let bytes = w.read_one(&capture).unwrap();
    assert_eq!(&bytes[16..20], &705_032_704u32.to_be_bytes());
    let bytes = w.read_one(&capture).unwrap();
    assert_eq!(&bytes[16..20], &[0xff, 0xff, 0xfc, 0x18]);
    assert_eq!(bytes.len(), 20);
}

#[test]
fn a_record_cut_short_is_refused_and_ends_the_reading() {
    let mut capture = header([0xa1, 0xb2, 0xc3, 0xd4], [0, 0, 0, 1]);
    capture.extend(record_be(1, 2, &[1, 2, 3]));
    capture.extend(record_be(3, 4, &[4, 5, 6]));
    capture.pop();
    let mut w = open(&capture).unwrap();
    assert!(w.read_one(&capture).is_ok());
    assert_eq!(w.at, 24 + 19);
    assert_eq!(w.read_one(&capture), Err(PcapError::UnexpectedEof));
    assert_eq!(w.at, capture.len());

    // Cut within the record's header.
    let mut capture = header([0xa1, 0xb2, 0xc3, 0xd4], [0, 0, 0, 1]);
    capture.extend_from_slice(&[0u8; 15]);
    let mut w = open(&capture).unwrap();
    assert_eq!(w.record(&capture, 24), None);
    assert_eq!(w.read_one(&capture), Err(PcapError::UnexpectedEof));
    assert_eq!(w.at, capture.len());
}

#[test]
fn a_block_holds_the_records_that_are_there() {
    let mut capture = header([0xa1, 0xb2, 0xc3, 0xd4], [0, 0, 0, 1]);
    capture.extend(record_be(1, 2, &[1, 2, 3]));
    capture.extend(record_be(3, 4, &[]));
    capture.extend(record_be(5, 6, &[7; 40]));
    capture.extend_from_slice(&[0, 0, 0]);
    let mut w = open(&capture).unwrap();
    let slices = w.read(&capture).unwrap();
    assert_eq!(slices.len(), 3);
    assert_eq!(slices[0].len(), 23);
    assert_eq!(slices[1].len(), 20);
    assert_eq!(slices[2].len(), 60);
    assert_eq!(&slices[0][20..], &[1, 2, 3]);
    assert_eq!(&slices[2][12..16], &[0, 0, 0, 5]);
    assert_eq!(w.at, capture.len());
    assert_eq!(w.read(&capture), Err(PcapError::UnexpectedEof));
}

#[test]
fn a_block_holds_no_more_than_its_size() {
    let mut capture = header([0xa1, 0xb2, 0xc3, 0xd4], [0, 0, 0, 1]);
    for i in 0..(BLOCK_SIZE as u32 + 5) {
        capture.extend(record_be(i, 0, &[]));
    }
    let mut w = open(&capture).unwrap();
    let first = w.read(&capture).unwrap();
    assert_eq!(first.len(), 2048);
    assert_eq!(w.at, 24 + 16 * 2048);
    let second = w.read(&capture).unwrap();
    assert_eq!(second.len(), 5);
    assert_eq!(&second[0][12..16], &2048u32.to_be_bytes());
    assert_eq!(w.read(&capture), Err(PcapError::UnexpectedEof));
}

#[test]
fn a_capture_without_records_gives_no_block() {
    let capture = header([0xd4, 0xc3, 0xb2, 0xa1], [1, 0, 0, 0]);
    let mut w = open(&capture).unwrap();
    assert_eq!(w.read(&capture), Err(PcapError::UnexpectedEof));
    assert_eq!(w.at, 24);
}

#[test]
fn a_frame_has_one_root_over_all_its_bytes() {
    let capture = tcp_ipv4_pcap();
    let mut w = open(&capture).unwrap();
    let bytes = w.read_one(&capture).unwrap();
    let frame = w.frame(bytes.clone());
    assert_eq!(frame.data(), &bytes);
    assert_eq!(frame.layers().len(), 1);
    assert_eq!(frame.layers()[0].id.id(), PCAP_LAYER);
    assert_eq!(w.layer_id().id(), PCAP_LAYER);
    assert_eq!(frame.layers()[0].span, Span::new(0, 86));
    assert_eq!(frame.layers()[0].payload, Some(Span::new(0, 86)));
    assert!(frame.tree_indices().is_empty());
}

#[test]
fn the_package_holds_the_reader() {
    let package = DefaultPackage::default();
    let capture = tcp_ipv4_pcap();
    let w = package.reader().new_worker(&Context::new(0), &capture).unwrap();
    assert_eq!(w.link, 1);
}
