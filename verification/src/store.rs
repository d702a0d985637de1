//! The label store: owns the label array of one image from the moment it is
//! filled from the image's foreground mask.

use crate::forest::{cell_ok, is_forest, root, same_tree, BACKGROUND};
use crate::grid::{in_mask, mask_of};
use crate::raster::Raster;
use vstd::prelude::*;

verus! {

/// The label array that no phase has touched yet: every foreground pixel is
/// the root of a tree of its own and holds its own index, every background
/// pixel holds `-1`.
pub open spec fn initial_labels(mask: Seq<bool>) -> Seq<i32> {
    Seq::new(
        mask.len(),
        |i: int|
            if mask[i] {
                i as i32
            } else {
                -1i32
            },
    )
}

/// The untouched label array is a forest over the mask's foreground in which
/// no two cells share a tree.
pub proof fn lemma_initial_labels(mask: Seq<bool>)
    requires
        mask.len() <= i32::MAX,
    ensures
        is_forest(initial_labels(mask)),
        mask_of(initial_labels(mask)) == mask,
        forall|i: int| in_mask(mask, i) ==> root(initial_labels(mask), i) == i,
        forall|i: int, j: int| #[trigger]
            same_tree(initial_labels(mask), i, j) <==> in_mask(mask, i) && i == j,
{
    let l = initial_labels(mask);
    assert forall|i: int| 0 <= i < l.len() implies #[trigger] cell_ok(l, i) by {}
    assert(mask_of(l) =~= mask);
}

/// Why an image cannot be labeled.
#[derive(Clone, Copy, Debug, PartialEq, Eq, Structural)]
pub enum LabelError {
    /// The width of the image is not a power of two.
    WidthNotPowerOfTwo,
    /// The image has more pixels than a label can number.
    TooManyPixels,
}

/// The label array of one image, with the image's dimensions.
#[derive(Clone, Debug)]
pub struct LabelStore {
    pub width: usize,
    pub height: usize,
    pub labels: Vec<i32>,
}

impl LabelStore {
    /// The store holds one label for every cell of the grid, and the labels
    /// are a forest.
    pub open spec fn wf(&self) -> bool {
        &&& self.labels@.len() == self.width * self.height
        &&& is_forest(self.labels@)
    }

    /// Fills a new store from an image: a foreground pixel gets its own
    /// index as its label, a background pixel gets `-1`. Fails where the
    /// image has more pixels than a label can number.
    pub fn initialize(raster: &Raster) -> (store: Result<LabelStore, LabelError>)
        requires
            raster.wf(),
        ensures
            store is Ok <==> raster.pixels@.len() <= i32::MAX,
            store is Err ==> store == Err::<LabelStore, LabelError>(LabelError::TooManyPixels),
            store is Ok ==> {
                &&& store->Ok_0.wf()
                &&& store->Ok_0.width == raster.width
                &&& store->Ok_0.height == raster.height
                &&& store->Ok_0.labels@ == initial_labels(raster.mask())
            },
    {
        let cells = raster.pixels.len();
        if cells > i32::MAX as usize {
            return Err(LabelError::TooManyPixels);
        }
        let mut labels: Vec<i32> = Vec::with_capacity(cells);
        let mut index: usize = 0;
        while index < cells
            invariant
                index <= cells == raster.pixels@.len(),
                cells <= i32::MAX,
                labels@ == initial_labels(raster.mask()).subrange(0, index as int),
            decreases cells - index,
        {
            let label = if raster.pixels[index].alpha != 0 {
                index as i32
            } else {
                BACKGROUND
            };
            labels.push(label);
            assert(labels@ =~= initial_labels(raster.mask()).subrange(0, index + 1));
            index = index + 1;
        }
        proof {
            assert(labels@ =~= initial_labels(raster.mask()));
            lemma_initial_labels(raster.mask());
        }
        Ok(LabelStore { width: raster.width, height: raster.height, labels })
    }

    /// The labels as they stand.
    pub fn read(&self) -> (labels: &Vec<i32>)
        ensures
            labels@ == self.labels@,
    {
        &self.labels
    }
}

} // verus!
