//! Frames: one unit of capture, its layers as a flat list, and the shape of
//! the layer tree as one count of children per layer.

use crate::layer::Layer;
use crate::tree::{
    child_start, in_block, lemma_parent_unique, lemma_total_monotone, parent, total, well_shaped,
};
use vstd::prelude::*;

verus! {

/// One captured packet: its bytes, its layers in the order they were made
/// known, and, once it has been decoded, the number of children of each
/// layer.
pub struct Frame {
    data: Vec<u8>,
    layers: Vec<Layer>,
    tree_indices: Vec<usize>,
}

impl Frame {
    /// The frame's bytes.
    pub closed spec fn spec_data(&self) -> Seq<u8> {
        self.data@
    }

    /// The number of the frame's bytes.
    pub closed spec fn spec_limit(&self) -> usize {
        self.data.len()
    }

    /// The frame's layers.
    pub closed spec fn spec_layers(&self) -> Seq<Layer> {
        self.layers@
    }

    /// The number of children of each layer.
    pub closed spec fn spec_tree_indices(&self) -> Seq<usize> {
        self.tree_indices@
    }

    /// The number of layers that are no layer's child.
    pub open spec fn spec_roots(&self) -> int {
        self.spec_layers().len() - total(
            self.spec_tree_indices(),
            self.spec_tree_indices().len() as int,
        )
    }

    /// The child counts give the shape of the layer list.
    pub open spec fn decoded(&self) -> bool {
        well_shaped(self.spec_roots(), self.spec_tree_indices(), self.spec_layers().len() as int)
    }

    /// A frame with the bytes `data` and the root layers `layers`, not yet
    /// decoded.
    pub fn new(data: Vec<u8>, layers: Vec<Layer>) -> (f: Frame)
        ensures
            f.spec_data() == data@,
            f.spec_limit() == data.len(),
            f.spec_layers() == layers@,
            f.spec_tree_indices().len() == 0,
    {
        Frame { data, layers, tree_indices: Vec::new() }
    }

    /// The frame's bytes.
    pub fn data(&self) -> (d: &Vec<u8>)
        ensures
            d@ == self.spec_data(),
            d.len() == self.spec_limit(),
    {
        &self.data
    }

    /// The frame's layers.
    pub fn layers(&self) -> (l: &Vec<Layer>)
        ensures
            l@ == self.spec_layers(),
    {
        &self.layers
    }

    /// The number of children of each layer.
    pub fn tree_indices(&self) -> (t: &Vec<usize>)
        ensures
            t@ == self.spec_tree_indices(),
    {
        &self.tree_indices
    }

    /// Takes the layers out of the frame.
    pub fn take_layers(&mut self) -> (l: Vec<Layer>)
        ensures
            l@ == old(self).spec_layers(),
            final(self).spec_layers().len() == 0,
            final(self).spec_data() == old(self).spec_data(),
            final(self).spec_limit() == old(self).spec_limit(),
            final(self).spec_tree_indices() == old(self).spec_tree_indices(),
    {
        let mut out: Vec<Layer> = Vec::new();
        std::mem::swap(&mut self.layers, &mut out);
        out
    }

    /// Moves `layers` to the end of the frame's layers.
    pub fn append_layers(&mut self, layers: &mut Vec<Layer>)
        ensures
            final(self).spec_layers() == old(self).spec_layers() + old(layers)@,
            final(layers)@.len() == 0,
            final(self).spec_data() == old(self).spec_data(),
            final(self).spec_limit() == old(self).spec_limit(),
            final(self).spec_tree_indices() == old(self).spec_tree_indices(),
    {
        self.layers.append(layers);
    }

    /// Moves `indices` to the end of the frame's child counts.
    pub fn append_tree_indices(&mut self, indices: &mut Vec<usize>)
        ensures
            final(self).spec_tree_indices() == old(self).spec_tree_indices() + old(indices)@,
            final(indices)@.len() == 0,
            final(self).spec_data() == old(self).spec_data(),
            final(self).spec_limit() == old(self).spec_limit(),
            final(self).spec_layers() == old(self).spec_layers(),
    {
        self.tree_indices.append(indices);
    }

    /// The parent of the layer at place `p`: none for a root.
    pub open spec fn spec_parent(&self, p: int) -> Option<usize> {
        if p < self.spec_roots() {
            None
        } else {
            Some(parent(self.spec_roots(), self.spec_tree_indices(), p) as usize)
        }
    }

    /// The parent of every layer, read off the child counts in one pass
    /// that hands each layer the next so many layers not yet handed out.
    /// There is a result exactly if the frame is decoded.
    pub fn parents(&self) -> (r: Option<Vec<Option<usize>>>)
        ensures
            r.is_some() == self.decoded(),
            r matches Some(v) ==> {
                &&& v@.len() == self.spec_layers().len()
                &&& forall|p: int| 0 <= p < v@.len() ==> #[trigger] v@[p] == self.spec_parent(p)
            },
    {
        let len = self.layers.len();
        if self.tree_indices.len() != len {
            return None;
        }
        let ghost counts = self.tree_indices@;
        let mut sum: usize = 0;
        let mut i: usize = 0;
        while i < len
            invariant
                i <= len,
                len == self.layers@.len(),
                counts == self.tree_indices@,
                counts.len() == len,
                sum == total(counts, i as int),
                sum <= len,
            decreases len - i,
        {
            let c = self.tree_indices[i];
            if c > len - sum {
                proof {
                    lemma_total_monotone(counts, i + 1, len as int);
                }
                return None;
            }
            sum += c;
            i += 1;
        }
        let roots = len - sum;
        let mut v: Vec<Option<usize>> = Vec::new();
        let mut r: usize = 0;
        while r < roots
            invariant
                r <= roots,
                v@.len() == r,
                forall|p: int| 0 <= p < r ==> (#[trigger] v@[p]).is_none(),
            decreases roots - r,
        {
            v.push(None);
            r += 1;
        }
        let mut i: usize = 0;
        while i < len
            invariant
                i <= len,
                len == self.layers@.len(),
                counts == self.tree_indices@,
                counts.len() == len,
                roots == self.spec_roots(),
                roots + total(counts, len as int) == len,
                v@.len() == child_start(roots as int, counts, i as int),
                roots <= v@.len(),
                forall|q: int| 0 <= q < i ==> q < #[trigger] child_start(roots as int, counts, q),
                forall|p: int| 0 <= p < roots ==> (#[trigger] v@[p]).is_none(),
                forall|p: int|
                    roots <= p < v@.len() ==> (#[trigger] v@[p] matches Some(j) && j < i && in_block(
                        roots as int,
                        counts,
                        j as int,
                        p,
                    )),
            decreases len - i,
        {
            if v.len() <= i {
                return None;
            }
            let c = self.tree_indices[i];
            let mut m: usize = 0;
            proof {
                lemma_total_monotone(counts, i + 1, len as int);
                lemma_total_monotone(counts, 0, i as int);
            }
            while m < c
                invariant
                    m <= c,
                    i < len,
                    c == counts[i as int],
                    counts.len() == len,
                    v@.len() == child_start(roots as int, counts, i as int) + m,
                    child_start(roots as int, counts, i as int + 1) <= len,
                    forall|p: int| 0 <= p < roots ==> (#[trigger] v@[p]).is_none(),
                    roots <= child_start(roots as int, counts, i as int),
                    forall|p: int|
                        roots <= p < v@.len() ==> (#[trigger] v@[p] matches Some(j) && j <= i
                            && in_block(roots as int, counts, j as int, p)),
                decreases c - m,
            {
                v.push(Some(i));
                m += 1;
            }
            i += 1;
        }
        proof {
            assert(well_shaped(roots as int, counts, len as int));
            assert forall|p: int| 0 <= p < v@.len() implies #[trigger] v@[p] == self.spec_parent(
                p,
            ) by {
                if p >= roots {
                    lemma_parent_unique(roots as int, counts, len as int, p);
                }
            }
        }
        Some(v)
    }
}

} // verus!
