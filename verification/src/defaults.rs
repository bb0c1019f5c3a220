//! Default settings and the values that settings may take.
//!
//! Fractional settings are IEEE single-precision bit patterns.

use vstd::prelude::*;

verus! {

/// Bits of the simplification error of static meshes: one hundredth.
pub const DEFAULT_STATIC_MESH_TARGET_ERROR: u32 = 0x3c23_d70a;

/// Bits of the weight of normals in simplification: one half.
pub const DEFAULT_STATIC_MESH_NORMAL_WEIGHT: u32 = 0x3f00_0000;

/// Bits of the weight of colors in simplification: one half.
pub const DEFAULT_STATIC_MESH_COLOR_WEIGHT: u32 = 0x3f00_0000;

/// Bits of the factor by which merging may simplify further: four.
pub const DEFAULT_STATIC_MESH_MERGE_ERROR_MULTIPLIER: u32 = 0x4080_0000;

/// Bits of the largest horizontal half-diagonal of a merge group in game units: 12288.
pub const DEFAULT_MERGE_GROUP_RADIUS: u32 = 0x4640_0000;

/// Cap on the longer axis of a source texture, in texels.
pub const DEFAULT_STATIC_TEXTURE_LONG_SIZE: u32 = 2048;

/// Cap on the shorter axis of a source texture, in texels.
pub const DEFAULT_STATIC_TEXTURE_SHORT_SIZE: u32 = 256;

/// Caps that may be chosen for the longer axis of a source texture, in texels.
pub const SUPPORTED_STATIC_TEXTURE_LONG_SIZES: [u32; 8] = [64, 128, 256, 512, 1024, 2048, 4096, 8192];

/// Caps that may be chosen for the shorter axis of a source texture, in texels.
pub const SUPPORTED_STATIC_TEXTURE_SHORT_SIZES: [u32; 7] = [64, 128, 256, 512, 1024, 2048, 4096];

/// Largest side of an atlas page, in texels.
pub const DEFAULT_STATIC_ATLAS_MAX_SIZE: u32 = 16384;

/// Largest sides of atlas pages that may be chosen, in texels.
pub const SUPPORTED_STATIC_ATLAS_SIZES: [u32; 4] = [2048, 4096, 8192, 16384];

} // verus!
