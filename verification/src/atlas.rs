//! Texture atlas layout: page geometry, slot allocation, and cached evidence.

pub mod again;
pub mod allocate;
pub mod apply;
pub mod apply_laws;
pub mod cache;
pub mod compose;
pub mod content_laws;
pub mod digest;
pub mod digest_laws;
pub mod domain;
pub mod error;
pub mod evidence_laws;
pub mod flow;
pub mod freelist;
pub mod fresh;
pub mod graph;
pub mod group;
pub mod laws;
pub mod manager;
pub mod matching;
pub mod next_run;
pub mod output_laws;
pub mod pack;
pub mod metrics;
pub mod packer;
pub mod page_laws;
pub mod placement;
pub mod reconcile;
pub mod reconcile_laws;
pub mod plan_domain;
pub mod publish;
pub mod rect;
pub mod slot;
pub mod renames;
pub mod retain;
pub mod sizing;
pub mod spots;
pub mod tally_laws;
pub mod types;
pub mod uv;
pub mod uv_laws;
pub mod write;
