use genet_kernel::frame::Frame;
use genet_kernel::layer::{Attr, Fault, Layer, LayerProxy, Span};
use genet_kernel::profile::Profile;
use genet_kernel::decoder::Context;
use genet_kernel::eth::EthDecoder;
use genet_kernel::token::Token;

fn layer(id: u64, start: usize, end: usize) -> Layer {
    Layer::new(Token::new(id), Span::new(start, end))
}

fn decoded(counts: Vec<usize>, layers: usize) -> Frame {
    let mut f = Frame::new(vec![0u8; 8], (0..layers).map(|i| layer(i as u64, 0, 8)).collect());
    let mut counts = counts;
    f.append_tree_indices(&mut counts);
    f
}

#[test]
fn tokens_are_their_numbers() {
    assert_eq!(Token::new(7).id(), 7);
    assert!(Token::new(7).same(&Token::new(7)));
    assert!(!Token::new(7).same(&Token::new(8)));
    assert_eq!(Token::new(7), Token { id: 7 });
}

#[test]
fn spans_measure_and_compare() {
    assert_eq!(Span::new(3, 10).len(), 7);
    assert_eq!(Span::new(3, 3).len(), 0);
    assert_eq!(Span::new(10, 3).len(), 0);
    assert!(Span::new(3, 10).fits_in(10));
    assert!(!Span::new(3, 10).fits_in(9));
    assert!(!Span::new(10, 3).fits_in(100));
    assert!(Span::new(3, 10).is_within(&Span::new(3, 10)));
    assert!(Span::new(4, 4).is_within(&Span::new(3, 10)));
    assert!(!Span::new(2, 10).is_within(&Span::new(3, 10)));
    assert!(!Span::new(3, 11).is_within(&Span::new(3, 10)));
    assert!(!Span::new(6, 5).is_within(&Span::new(3, 10)));
}

#[test]
fn a_layer_fits_with_header_and_payload() {
    let mut l = layer(1, 0, 8);
    assert!(l.fits_in(8));
    assert!(!l.fits_in(7));
    l.payload = Some(Span::new(8, 12));
    assert!(!l.fits_in(8));
    assert!(l.fits_in(12));
    l.payload = Some(Span::new(12, 8));
    assert!(!l.fits_in(100));
}

#[test]
fn a_payload_is_set_once_and_within_the_frame() {
    let mut p = LayerProxy::new(None, 20);
    assert_eq!(p.frame_len(), 20);
    assert_eq!(p.payload(), None);
    assert_eq!(p.set_payload(Span::new(4, 21)), Err(Fault::OutsideFrame));
    assert_eq!(p.set_payload(Span::new(9, 4)), Err(Fault::OutsideFrame));
    assert_eq!(p.payload(), None);
    assert_eq!(p.set_payload(Span::new(4, 20)), Ok(()));
    assert_eq!(p.payload(), Some(Span::new(4, 20)));
    assert_eq!(p.set_payload(Span::new(5, 20)), Err(Fault::PayloadAlreadySet));
    assert_eq!(p.payload(), Some(Span::new(4, 20)));

    let mut p = LayerProxy::new(Some(Span::new(0, 3)), 20);
    assert_eq!(p.set_payload(Span::new(4, 21)), Err(Fault::PayloadAlreadySet));
}

#[test]
fn a_child_lies_within_payload_and_frame() {
    let mut p = LayerProxy::new(None, 20);
    assert_eq!(p.add_child(layer(1, 0, 4)), Err(Fault::NoPayload));
    p.set_payload(Span::new(4, 16)).unwrap();
    assert_eq!(p.add_child(layer(1, 3, 8)), Err(Fault::OutsidePayload));
    assert_eq!(p.add_child(layer(1, 4, 17)), Err(Fault::OutsidePayload));
    assert_eq!(p.add_child(layer(1, 9, 8)), Err(Fault::OutsidePayload));
    let mut far = layer(1, 4, 8);
    far.payload = Some(Span::new(8, 21));
    assert_eq!(p.add_child(far), Err(Fault::OutsideFrame));
    assert_eq!(p.child_count(), 0);
    let mut near = layer(1, 4, 8);
    near.payload = Some(Span::new(8, 20));
    assert_eq!(p.add_child(near.clone()), Ok(()));
    assert_eq!(p.add_child(layer(2, 16, 16)), Ok(()));
    assert_eq!(p.child_count(), 2);
    let a = Attr { id: Token::new(5), typ: Token::new(6), span: Span::new(0, 1) };
    p.add_attr(a);
    let (attrs, window, opened, children) = p.into_parts();
    assert_eq!(attrs, vec![a]);
    assert_eq!(window, Some(Span::new(4, 16)));
    assert!(opened);
    assert_eq!(children, vec![near, layer(2, 16, 16)]);
}

#[test]
fn a_layer_takes_over_what_was_gathered_for_it() {
    let a = Attr { id: Token::new(5), typ: Token::new(6), span: Span::new(0, 1) };
    let b = Attr { id: Token::new(7), typ: Token::new(6), span: Span::new(1, 2) };
    let mut target = layer(1, 0, 4);
    target.attrs.push(a);
    target.payload = Some(Span::new(4, 16));
    let mut children = vec![layer(9, 4, 5)];

    let mut p = LayerProxy::new(target.payload, 20);
    p.add_attr(b);
    p.add_child(layer(2, 5, 6)).unwrap();
    assert!(target.absorb(p, 20, &mut children));
    assert_eq!(target.attrs, vec![a, b]);
    assert_eq!(target.payload, Some(Span::new(4, 16)));
    assert_eq!(children, vec![layer(9, 4, 5), layer(2, 5, 6)]);

    // Gathered under another payload.
    let mut p = LayerProxy::new(Some(Span::new(4, 17)), 20);
    p.add_child(layer(3, 16, 17)).unwrap();
    let before = target.clone();
    assert!(!target.absorb(p, 20, &mut children));
    assert_eq!(target, before);
    assert_eq!(children.len(), 2);
}

#[test]
fn a_frame_keeps_what_it_is_given() {
    let mut f = Frame::new(vec![1, 2, 3], vec![layer(1, 0, 3)]);
    assert_eq!(f.data(), &vec![1, 2, 3]);
    assert_eq!(f.layers(), &vec![layer(1, 0, 3)]);
    assert!(f.tree_indices().is_empty());
    let mut more = vec![layer(2, 0, 1), layer(3, 1, 2)];
    f.append_layers(&mut more);
    assert!(more.is_empty());
    let mut counts = vec![2usize, 0, 0];
    f.append_tree_indices(&mut counts);
    assert!(counts.is_empty());
    assert_eq!(f.tree_indices(), &vec![2usize, 0, 0]);
    assert_eq!(f.parents(), Some(vec![None, Some(0), Some(0)]));
    let taken = f.take_layers();
    assert_eq!(taken.len(), 3);
    assert!(f.layers().is_empty());
    assert_eq!(f.parents(), None);
}

#[test]
fn parents_are_read_off_the_counts() {
    // Two roots; the first has two children, the second one; the first
    // child of the first root has one.
    let f = decoded(vec![2, 1, 1, 0, 0, 0], 6);
    assert_eq!(f.parents(), Some(vec![None, None, Some(0), Some(0), Some(1), Some(2)]));
    // A chain.
    let f = decoded(vec![1, 1, 1, 0], 4);
    assert_eq!(f.parents(), Some(vec![None, Some(0), Some(1), Some(2)]));
    // Roots only.
    let f = decoded(vec![0, 0, 0], 3);
    assert_eq!(f.parents(), Some(vec![None, None, None]));
}

#[test]
fn counts_that_give_no_tree_are_refused() {
    // Not one count for each layer.
    assert_eq!(decoded(vec![0, 0], 3).parents(), None);
    assert_eq!(decoded(vec![], 1).parents(), None);
    // More children than layers.
    assert_eq!(decoded(vec![3, 0, 0], 3).parents(), None);
    assert_eq!(decoded(vec![usize::MAX, 2], 2).parents(), None);
    // No root: every layer would be a child.
    assert_eq!(decoded(vec![1, 1], 2).parents(), None);
    // A layer that would have to be its own child.
    assert_eq!(decoded(vec![0, 0, 1], 3).parents(), None);
    assert_eq!(decoded(vec![0, 1, 0], 3).parents(), Some(vec![None, None, Some(1)]));
}

#[test]
fn a_profile_lists_its_decoders_in_order() {
    let mut p: Profile<EthDecoder> = Profile::new(Context::new(3));
    assert!(p.decoders().is_empty());
    p.add_decoder(EthDecoder::default());
    p.add_decoder(EthDecoder::default());
    assert_eq!(p.decoders().len(), 2);
    assert_eq!(p.context().link(), 3);
}
