//! Atlas planning metrics produced alongside the publication plan.

use crate::atlas::allocate::AtlasAllocationStats;
use crate::atlas::types::AtlasTextureSet;
use crate::atlas::uv::BindingDelta;
use vstd::prelude::*;

verus! {

/// Family-local atlas allocation path selected for the current run.
#[derive(Clone, Copy, Debug, PartialEq, Eq, Structural)]
pub enum AtlasFamilyPlanMode {
    /// Serialized family evidence and every committed page carried exactly.
    ExactCarry,
    /// Structurally valid prior slots were reconciled with the current logical groups.
    Reconciled,
    /// No comparable prior existed, so the family was packed independently.
    Fresh,
}

impl Default for AtlasFamilyPlanMode {
    fn default() -> (r: Self)
        ensures
            r == AtlasFamilyPlanMode::Fresh,
    {
        AtlasFamilyPlanMode::Fresh
    }
}

/// Aggregate binding delta for one atlas family.
#[derive(Clone, Copy, Debug, PartialEq, Eq, Structural)]
pub struct AtlasBindingDeltaMetrics {
    /// Whether structurally and inventory-valid prior evidence made the comparison exhaustive.
    pub available: bool,
    /// Logical keys introduced by the current binding relation.
    pub added: usize,
    /// Logical keys removed from the prior binding relation.
    pub removed: usize,
    /// Surviving logical keys whose page or UV-bound bits changed.
    pub changed: usize,
    /// Surviving logical keys whose complete binding tuple remained bitwise identical.
    pub unchanged: usize,
}

/// The totals of a comparison, or of none.
pub open spec fn delta_totals(delta: Option<BindingDelta>) -> AtlasBindingDeltaMetrics {
    match delta {
        Some(delta) => AtlasBindingDeltaMetrics {
            available: true,
            added: delta.added@.len() as usize,
            removed: delta.removed@.len() as usize,
            changed: delta.changed@.len() as usize,
            unchanged: delta.unchanged,
        },
        None => AtlasBindingDeltaMetrics {
            available: false,
            added: 0,
            removed: 0,
            changed: 0,
            unchanged: 0,
        },
    }
}

impl Default for AtlasBindingDeltaMetrics {
    fn default() -> (r: Self)
        ensures
            r == delta_totals(None),
    {
        AtlasBindingDeltaMetrics { available: false, added: 0, removed: 0, changed: 0, unchanged: 0 }
    }
}

/// Allocation, page-lifecycle, binding, and clean-pack-candidate metrics for one atlas family.
#[derive(Clone, Copy, Debug, PartialEq, Eq, Structural)]
pub struct AtlasFamilyMetrics {
    /// Planning mode selected for the family.
    pub plan_mode: AtlasFamilyPlanMode,
    /// Prior physical slots retained by matching.
    pub retained_slots: usize,
    /// New monotonic slots allocated this run.
    pub allocated_slots: usize,
    /// Prior active slots released this run.
    pub freed_slots: usize,
    /// Current groups with surviving prior keys that required a new slot.
    pub relocated_slots: usize,
    /// Retained slots whose persisted provider identity changed.
    pub provider_promoted_slots: usize,
    /// Sum of visible destination areas in texels.
    pub active_area: u64,
    /// Sum of active reservation areas in texels.
    pub reserved_area: u64,
    /// Sum of full retained page areas in texels.
    pub page_area: u64,
    /// Sum of border-excluded retained page areas in texels.
    pub usable_page_area: u64,
    /// Unreserved share of usable page area in parts per million.
    pub fragmentation_ppm: u32,
    /// Pages carried without publication.
    pub carried_pages: usize,
    /// Pages recomposited and published.
    pub built_pages: usize,
    /// Pages appended after existing capacity was exhausted.
    pub appended_pages: usize,
    /// Empty non-trailing pages deliberately retained for future reuse.
    pub retained_empty_pages: usize,
    /// Empty trailing pages removed without renumbering survivors.
    pub truncated_pages: usize,
    /// Exhaustive binding comparison when available.
    pub binding_delta: AtlasBindingDeltaMetrics,
}

/// The metrics of a family.
pub open spec fn metrics_of(
    plan_mode: AtlasFamilyPlanMode,
    allocation: AtlasAllocationStats,
    carried_pages: usize,
    built_pages: usize,
    delta: Option<BindingDelta>,
) -> AtlasFamilyMetrics {
    AtlasFamilyMetrics {
        plan_mode,
        retained_slots: allocation.retained_slots,
        allocated_slots: allocation.allocated_slots,
        freed_slots: allocation.freed_slots,
        relocated_slots: allocation.relocated_slots,
        provider_promoted_slots: allocation.provider_promoted_slots,
        active_area: allocation.active_area,
        reserved_area: allocation.reserved_area,
        page_area: allocation.page_area,
        usable_page_area: allocation.usable_page_area,
        fragmentation_ppm: allocation.fragmentation_ppm,
        carried_pages,
        built_pages,
        appended_pages: allocation.appended_pages,
        retained_empty_pages: allocation.retained_empty_pages,
        truncated_pages: allocation.truncated_pages,
        binding_delta: delta_totals(delta),
    }
}

/// Collects the metrics of a family.
pub fn family_metrics(
    plan_mode: AtlasFamilyPlanMode,
    allocation: &AtlasAllocationStats,
    carried_pages: usize,
    built_pages: usize,
    delta: &Option<BindingDelta>,
) -> (r: AtlasFamilyMetrics)
    ensures
        r == metrics_of(plan_mode, *allocation, carried_pages, built_pages, *delta),
{
    let binding_delta = match delta {
        Some(delta) => AtlasBindingDeltaMetrics {
            available: true,
            added: delta.added.len(),
            removed: delta.removed.len(),
            changed: delta.changed.len(),
            unchanged: delta.unchanged,
        },
        None => AtlasBindingDeltaMetrics::default(),
    };
    AtlasFamilyMetrics {
        plan_mode,
        retained_slots: allocation.retained_slots,
        allocated_slots: allocation.allocated_slots,
        freed_slots: allocation.freed_slots,
        relocated_slots: allocation.relocated_slots,
        provider_promoted_slots: allocation.provider_promoted_slots,
        active_area: allocation.active_area,
        reserved_area: allocation.reserved_area,
        page_area: allocation.page_area,
        usable_page_area: allocation.usable_page_area,
        fragmentation_ppm: allocation.fragmentation_ppm,
        carried_pages,
        built_pages,
        appended_pages: allocation.appended_pages,
        retained_empty_pages: allocation.retained_empty_pages,
        truncated_pages: allocation.truncated_pages,
        binding_delta,
    }
}

/// Report data produced while deciding atlas publication work.
#[derive(Debug)]
pub struct AtlasPlanMetrics {
    /// Final page counts for the opaque and alpha families.
    pub page_counts: AtlasTextureSet<u32>,
    /// Whether each family retained a layout-compatible digest.
    pub layout_hits: AtlasTextureSet<bool>,
    /// Number of source textures decoded during atlas planning.
    pub decoded_texture_count: usize,
    /// Page carry counts for the opaque and alpha families.
    pub carried_page_counts: AtlasTextureSet<usize>,
    /// Page build counts for the opaque and alpha families.
    pub built_page_counts: AtlasTextureSet<usize>,
    /// Allocator, page lifecycle, candidate, and binding metrics per family.
    pub family_metrics: AtlasTextureSet<AtlasFamilyMetrics>,
    /// Number of reconciled families that changed evidence without page writes.
    pub zero_page_write_reconciliation_count: usize,
    /// Number of atlas pages selected for fresh publication.
    pub dirty_page_count: usize,
    /// Conservative upper estimate for bytes written by atlas publication.
    pub publication_bytes_estimate: u64,
    /// Conservative peak-memory estimate for the no-write planning phase.
    pub planning_peak_bytes: u64,
    /// Conservative peak-memory estimate for streaming publication.
    pub publication_peak_bytes: u64,
}

} // verus!
