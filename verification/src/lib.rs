//! Connected-component labeling of raster images, verified.
//!
//! The labels of an image are one `i32` per pixel: `-1` for a background
//! pixel, and for a foreground pixel the index of another pixel of the same
//! component, so that the labels form a forest whose roots stand for the
//! components. Three phases work on that array. The column-local labeler
//! joins the foreground pixels that lie one above the other. The merge
//! reducer joins, in `log2(width)` rounds, ever larger groups of columns
//! across the boundaries between them. The relabeler replaces every label by
//! the root of its tree. In the end two foreground pixels hold the same label
//! exactly if a path of foreground neighbours leads from one to the other,
//! and that label is the index of the first pixel of their component.
//!
//! - [`forest`]: the label forest, with `find_root`, `find_and_compress` and
//!   `unite`.
//! - [`linkage`]: what it means that a forest has been merged along a set of
//!   edges.
//! - [`grid`]: the geometry of the image, its edges and its connectivity.
//! - [`component`]: why the finished labels are those of the components.
//! - [`raster`], [`store`]: images, and the label array filled from one.
//! - [`column`], [`merge`], [`relabel`]: the three phases, by units of work.
//! - [`orchestrator`]: which phase runs when, with how many units.
//! - [`pipeline`]: the whole run on a sequential backend.
//! - [`palette`]: colors for the labels.

pub mod column;
pub mod component;
pub mod forest;
pub mod grid;
pub mod linkage;
pub mod merge;
pub mod orchestrator;
pub mod palette;
pub mod pipeline;
pub mod raster;
pub mod relabel;
pub mod store;
