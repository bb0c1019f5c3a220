//! Static-object atlas planning, overrides and mesh bookkeeping for distant land.

pub mod atlas;
pub mod burial;
pub mod burial_laws;
pub mod byte_text;
pub mod bytes;
pub mod decimal;
pub mod defaults;
pub mod extract;
pub mod float_bits;
pub mod id_index;
pub mod key_index;
pub mod list;
pub mod merge;
pub mod metadata;
pub mod model;
pub mod nif;
pub mod nif_laws;
pub mod ordered_map;
pub mod overrides;
pub mod pair_index;
pub mod picks;
pub mod record_key;
pub mod sort;
pub mod text;
pub mod text_map;
pub mod write;
