//! How far a subset may be simplified.

use crate::defaults::{
    DEFAULT_STATIC_MESH_COLOR_WEIGHT, DEFAULT_STATIC_MESH_MERGE_ERROR_MULTIPLIER,
    DEFAULT_STATIC_MESH_NORMAL_WEIGHT, DEFAULT_STATIC_MESH_TARGET_ERROR,
};
use crate::float_bits::{
    at_least, below, calculated, calculates, finite, higher, higher_of, is_finite, is_number,
    lower, lower_of, number_lt,
};
use crate::model::Subset;
use vstd::prelude::*;

verus! {

/// Configuration of simplification and of the error limits of merging, as bit patterns.
#[derive(Clone, Copy, Debug, PartialEq, Eq, Structural)]
pub struct StaticMeshSimplifierConfig {
    /// Relative error budget: a fraction of the largest side of the bounding box.
    pub target_error: u32,
    /// Weight of each of the three normal components.
    pub normal_weight: u32,
    /// Weight of each of the four color components.
    pub color_weight: u32,
    /// Largest relative error of merging, as a multiple of `target_error`.
    pub merge_error_multiplier: u32,
}

impl Default for StaticMeshSimplifierConfig {
    fn default() -> (r: Self)
        ensures
            r == (StaticMeshSimplifierConfig {
                target_error: DEFAULT_STATIC_MESH_TARGET_ERROR,
                normal_weight: DEFAULT_STATIC_MESH_NORMAL_WEIGHT,
                color_weight: DEFAULT_STATIC_MESH_COLOR_WEIGHT,
                merge_error_multiplier: DEFAULT_STATIC_MESH_MERGE_ERROR_MULTIPLIER,
            }),
    {
        StaticMeshSimplifierConfig {
            target_error: DEFAULT_STATIC_MESH_TARGET_ERROR,
            normal_weight: DEFAULT_STATIC_MESH_NORMAL_WEIGHT,
            color_weight: DEFAULT_STATIC_MESH_COLOR_WEIGHT,
            merge_error_multiplier: DEFAULT_STATIC_MESH_MERGE_ERROR_MULTIPLIER,
        }
    }
}

/// Relative target selected for an absolute merge-stage simplification request.
#[derive(Clone, Copy, Debug, PartialEq, Eq, Structural)]
pub struct SimplificationTarget {
    /// Bucketed absolute error divided by the subset's maximum extent, as a bit pattern.
    pub requested: u32,
    /// Requested target after applying the configured cap, as a bit pattern.
    pub effective: u32,
    /// Whether the configured cap reduced the requested target.
    pub capped: bool,
    /// Whether another simplification pass can use a larger target than the initial pass.
    pub should_simplify: bool,
}

/// Nothing is simplified.
pub open spec fn no_target() -> SimplificationTarget {
    SimplificationTarget { requested: 0, effective: 0, capped: false, should_simplify: false }
}

/// Alpha-tested subsets skip simplification because their silhouette is encoded in texture alpha.
pub open spec fn simplifiable(subset: Subset) -> bool {
    !subset.has_alpha
}

/// The target for an extent: the absolute error relative to the extent, no more than the multiple
/// of the configured error and no less than that error itself. Without an extent there is none.
pub open spec fn target_for<P: Fn(u32, u32) -> u32, Q: Fn(u32, u32) -> u32>(
    product: P,
    quotient: Q,
    config: StaticMeshSimplifierConfig,
    absolute_error: u32,
    extent: u32,
) -> SimplificationTarget {
    if at_least(0, extent) || !finite(extent) {
        no_target()
    } else {
        let requested = calculated(quotient, absolute_error, extent);
        let maximum = calculated(product, config.target_error, config.merge_error_multiplier);
        let effective = higher(lower(requested, maximum), config.target_error);
        SimplificationTarget {
            requested,
            effective,
            capped: below(maximum, requested),
            should_simplify: below(config.target_error, effective),
        }
    }
}

impl Subset {
    /// Whether the subset may lose triangles to simplification.
    pub fn allows_simplification(&self) -> (r: bool)
        ensures
            r == simplifiable(*self),
    {
        !self.has_alpha
    }

    /// Converts an absolute merge-stage error into a relative target, caps it at the configured
    /// merge multiplier, and reports whether it exceeds the initial target.
    pub fn absolute_simplification_target_for_extent<
        P: Fn(u32, u32) -> u32,
        Q: Fn(u32, u32) -> u32,
    >(
        product: &P,
        quotient: &Q,
        config: StaticMeshSimplifierConfig,
        absolute_error: u32,
        extent: u32,
    ) -> (r: SimplificationTarget)
        requires
            calculates(*product),
            calculates(*quotient),
        ensures
            r == target_for(*product, *quotient, config, absolute_error, extent),
    {
        if !number_lt(0, extent) || !is_finite(extent) {
            return SimplificationTarget {
                requested: 0,
                effective: 0,
                capped: false,
                should_simplify: false,
            };
        }
        let requested: u32 = quotient(absolute_error, extent);
        let maximum: u32 = product(config.target_error, config.merge_error_multiplier);
        let effective: u32 = higher_of(lower_of(requested, maximum), config.target_error);
        SimplificationTarget {
            requested,
            effective,
            capped: number_lt(maximum, requested),
            should_simplify: number_lt(config.target_error, effective),
        }
    }

    /// The simplification target of the subset, whose largest side is `extent`.
    pub fn absolute_simplification_target_with_extent<
        P: Fn(u32, u32) -> u32,
        Q: Fn(u32, u32) -> u32,
    >(
        &self,
        product: &P,
        quotient: &Q,
        config: StaticMeshSimplifierConfig,
        absolute_error: u32,
        extent: u32,
    ) -> (r: SimplificationTarget)
        requires
            calculates(*product),
            calculates(*quotient),
        ensures
            r == if simplifiable(*self) {
                target_for(*product, *quotient, config, absolute_error, extent)
            } else {
                no_target()
            },
    {
        if !self.allows_simplification() {
            return SimplificationTarget {
                requested: 0,
                effective: 0,
                capped: false,
                should_simplify: false,
            };
        }
        Self::absolute_simplification_target_for_extent(
            product,
            quotient,
            config,
            absolute_error,
            extent,
        )
    }
}

/// A subset is simplified further only with a target above the configured error, and that target
/// never exceeds the configured multiple of the error.
pub proof fn lemma_target_within_cap<P: Fn(u32, u32) -> u32, Q: Fn(u32, u32) -> u32>(
    product: P,
    quotient: Q,
    config: StaticMeshSimplifierConfig,
    absolute_error: u32,
    extent: u32,
)
    requires
        is_number(calculated(product, config.target_error, config.merge_error_multiplier)),
    ensures
        ({
            let target = target_for(product, quotient, config, absolute_error, extent);
            let maximum = calculated(product, config.target_error, config.merge_error_multiplier);
            &&& target.should_simplify ==> below(config.target_error, target.effective)
            &&& target.should_simplify ==> !below(maximum, target.effective)
        }),
{
}

} // verus!
