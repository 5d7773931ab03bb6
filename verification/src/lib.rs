//! Detection of planar fiducial markers in grayscale images.
//!
//! A gray raster is binarized against a threshold that follows the local
//! brightness ([`threshold`]). One scan of the binary raster yields its
//! connected components with their areas, boxes and moments, and the tree in
//! which each component hangs below the component around it
//! ([`segmentation`]). Walks over that tree pick out the frames of
//! topological tags and the quadrilaterals of tags of dots ([`decode`]); the
//! moments of small dots are made up for what binarization clipped off them
//! ([`dots`]). [`pipeline`] strings these steps together.
//!
//! Everything here works on integers and is verified with Verus. The rasters
//! themselves are kept by the `image` crate; [`raster`] states what is taken
//! on trust of it and of `imageproc`.

pub mod decode;
pub mod dots;
pub mod pipeline;
pub mod raster;
pub mod segmentation;
pub mod threshold;
