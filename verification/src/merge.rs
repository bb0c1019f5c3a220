//! Batches compatible exterior references into synthetic static meshes.

pub mod absorb;
pub mod batches;
pub mod candidate_laws;
pub mod drawn_laws;
pub mod geometry;
pub mod groups;
pub mod lod_index;
pub mod plan;
pub mod plan_laws;
pub mod survey;
pub mod survey_laws;
