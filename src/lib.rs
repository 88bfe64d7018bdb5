//! Layout and assembly of the volumetric cloud textures.
//!
//! A texture is a dense cube of RGBA8 texels stored slice by slice: the outer
//! coordinate `s` selects a slice, and inside a slice texels run over `t`, then
//! `r`. The value of each texel comes from an evaluator handed in by the caller,
//! so slices can be produced independently and then joined in index order.

mod texture;

pub use texture::{
    alpha_of, concatenates, lemma_opaque_slices_assemble_opaque, opaque, rgb_opaque_slice,
    rgba_slice, slice_len, slice_texel, slices_fit, texel_at, views, TileableCloudNoise,
    BYTES_PER_CHANNEL, DETAIL_RESOLUTION, NUM_CHANNELS, OPAQUE, SHAPE_RESOLUTION,
};
