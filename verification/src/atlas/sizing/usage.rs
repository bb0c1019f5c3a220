//! How densely textures are used, per texture and domain.

use crate::text::{lemma_text_order, lemma_text_transitive, str_eq, str_lt, text_le, text_lt};
use vstd::prelude::*;

verus! {

/// Bit pattern of single-precision infinity.
pub const INFINITE_DENSITY: u32 = 0x7f80_0000;

/// Triangle identity used to break equal density measurements deterministically.
#[derive(Debug)]
pub struct UseId {
    pub static_key: String,
    pub subset_index: u32,
    pub triangle_index: u32,
}

/// A measured use as plain values: density, static, subset, and triangle.
pub type UseRank = (u32, Seq<char>, u32, u32);

/// Accumulator per texture and domain: extrema, fallback flags, and tie-breaks by identity, so the
/// result never depends on the order of accumulation.
///
/// Densities are IEEE single-precision bit patterns without sign, which order as the numbers do.
#[derive(Debug)]
pub struct TextureUsageAggregate {
    /// The use that produced `area_density_min`.
    pub limiting_use: Option<UseId>,
    /// Minimum isotropic area density across valid uses. This is the sizing constraint.
    pub area_density_min: u32,
    /// Count of valid, non-degenerate measured triangles.
    pub valid_count: u64,
    /// Count of uncertain or invalid triangles. Weighed against `valid_count` rather than forcing
    /// the baseline outright, so one bad triangle cannot pin a whole texture.
    pub uncertain_count: u64,
    /// Whether the texture's own dimensions are unknown, making any measurement meaningless.
    pub needs_baseline: bool,
}

/// An accumulator as plain values.
pub struct UsageView {
    pub limiting: Option<UseRank>,
    pub valid: nat,
    pub uncertain: nat,
    pub needs_baseline: bool,
}

impl View for TextureUsageAggregate {
    type V = UsageView;

    open spec fn view(&self) -> UsageView {
        UsageView {
            limiting: match self.limiting_use {
                Some(id) => Some(
                    (
                        self.area_density_min,
                        id.static_key@,
                        id.subset_index,
                        id.triangle_index,
                    ),
                ),
                None => None,
            },
            valid: self.valid_count as nat,
            uncertain: self.uncertain_count as nat,
            needs_baseline: self.needs_baseline,
        }
    }
}

impl TextureUsageAggregate {
    /// Nothing measured means infinite density, and no density exceeds that.
    pub open spec fn wf(&self) -> bool {
        &&& self.area_density_min <= INFINITE_DENSITY
        &&& self.limiting_use is None ==> self.area_density_min == INFINITE_DENSITY
    }
}

/// Nothing measured.
pub open spec fn no_usage() -> UsageView {
    UsageView { limiting: None, valid: 0, uncertain: 0, needs_baseline: false }
}

impl Default for TextureUsageAggregate {
    fn default() -> (r: Self)
        ensures
            r.wf(),
            r@ == no_usage(),
    {
        TextureUsageAggregate {
            limiting_use: None,
            area_density_min: INFINITE_DENSITY,
            valid_count: 0,
            uncertain_count: 0,
            needs_baseline: false,
        }
    }
}

/// `a` limits more than `b`: lower density, then the smaller identity.
pub open spec fn limits_more(a: UseRank, b: UseRank) -> bool {
    ||| a.0 < b.0
    ||| a.0 == b.0 && {
        ||| text_lt(a.1, b.1)
        ||| a.1 == b.1 && (a.2 < b.2 || a.2 == b.2 && a.3 < b.3)
    }
}

/// The more limiting of two uses.
pub open spec fn more_limiting(a: Option<UseRank>, b: Option<UseRank>) -> Option<UseRank> {
    match (a, b) {
        (None, _) => b,
        (_, None) => a,
        (Some(x), Some(y)) => if limits_more(y, x) {
            b
        } else {
            a
        },
    }
}

/// Two accumulators as one.
pub open spec fn merged(a: UsageView, b: UsageView) -> UsageView {
    UsageView {
        limiting: more_limiting(a.limiting, b.limiting),
        valid: a.valid + b.valid,
        uncertain: a.uncertain + b.uncertain,
        needs_baseline: a.needs_baseline || b.needs_baseline,
    }
}

/// One valid measurement.
pub open spec fn one_use(rank: UseRank) -> UsageView {
    UsageView { limiting: Some(rank), valid: 1, uncertain: 0, needs_baseline: false }
}

/// One uncertain measurement.
pub open spec fn one_uncertain() -> UsageView {
    UsageView { limiting: None, valid: 0, uncertain: 1, needs_baseline: false }
}

/// Returns whether the measured candidate should replace the current limiting use: smaller density
/// wins, ties broken on the smaller `(static key, subset, triangle)`.
fn better_limiting(
    density: u32,
    candidate: (&str, u32, u32),
    current_density: u32,
    current_use: &Option<UseId>,
) -> (r: bool)
    ensures
        r == match *current_use {
            None => true,
            Some(id) => limits_more(
                (density, candidate.0@, candidate.1, candidate.2),
                (current_density, id.static_key@, id.subset_index, id.triangle_index),
            ),
        },
{
    match current_use {
        None => true,
        Some(current) => {
            if density != current_density {
                return density < current_density;
            }
            if !str_eq(candidate.0, current.static_key.as_str()) {
                return str_lt(candidate.0, current.static_key.as_str());
            }
            proof {
                lemma_text_order(candidate.0@, current.static_key@);
            }
            candidate.1 < current.subset_index || (candidate.1 == current.subset_index
                && candidate.2 < current.triangle_index)
        },
    }
}

impl TextureUsageAggregate {
    /// Adds one valid measurement.
    pub fn record_valid(
        &mut self,
        area_density: u32,
        static_key: &str,
        subset_index: u32,
        triangle_index: u32,
    )
        requires
            old(self).wf(),
            area_density <= INFINITE_DENSITY,
            old(self).valid_count < u64::MAX,
        ensures
            final(self).wf(),
            final(self)@ == merged(
                old(self)@,
                one_use((area_density, static_key@, subset_index, triangle_index)),
            ),
    {
        self.valid_count = self.valid_count + 1;
        if better_limiting(
            area_density,
            (static_key, subset_index, triangle_index),
            self.area_density_min,
            &self.limiting_use,
        ) {
            self.area_density_min = area_density;
            self.limiting_use = Some(
                UseId { static_key: static_key.to_owned(), subset_index, triangle_index },
            );
        }
    }

    /// Adds one uncertain measurement.
    pub fn record_uncertain(&mut self)
        requires
            old(self).wf(),
            old(self).uncertain_count < u64::MAX,
        ensures
            final(self).wf(),
            final(self)@ == merged(old(self)@, one_uncertain()),
    {
        self.uncertain_count = self.uncertain_count + 1;
    }

    /// Adds all that another accumulator holds.
    pub fn merge_from(&mut self, other: TextureUsageAggregate)
        requires
            old(self).wf(),
            other.wf(),
            old(self).valid_count + other.valid_count <= u64::MAX,
            old(self).uncertain_count + other.uncertain_count <= u64::MAX,
        ensures
            final(self).wf(),
            final(self)@ == merged(old(self)@, other@),
    {
        self.valid_count = self.valid_count + other.valid_count;
        self.uncertain_count = self.uncertain_count + other.uncertain_count;
        self.needs_baseline = self.needs_baseline || other.needs_baseline;
        match other.limiting_use {
            Some(other_use) => {
                if better_limiting(
                    other.area_density_min,
                    (
                        other_use.static_key.as_str(),
                        other_use.subset_index,
                        other_use.triangle_index,
                    ),
                    self.area_density_min,
                    &self.limiting_use,
                ) {
                    self.area_density_min = other.area_density_min;
                    self.limiting_use = Some(other_use);
                }
            },
            None => {},
        }
    }
}

proof fn lemma_limits_order(a: UseRank, b: UseRank)
    ensures
        !(limits_more(a, b) && limits_more(b, a)),
        limits_more(a, b) || limits_more(b, a) || a == b,
{
    lemma_text_order(a.1, b.1);
    lemma_text_order(b.1, a.1);
}

proof fn lemma_limits_transitive(a: UseRank, b: UseRank, c: UseRank)
    requires
        !limits_more(b, a),
        !limits_more(c, b),
    ensures
        !limits_more(c, a),
{
    lemma_text_order(a.1, b.1);
    lemma_text_order(b.1, c.1);
    lemma_text_order(a.1, c.1);
    lemma_text_order(b.1, a.1);
    lemma_text_order(c.1, b.1);
    lemma_text_order(c.1, a.1);
    if text_le(a.1, b.1) && text_le(b.1, c.1) {
        lemma_text_transitive(a.1, b.1, c.1);
    }
}

/// Accumulators merge alike in either order.
pub proof fn lemma_merge_commutative(a: UsageView, b: UsageView)
    ensures
        merged(a, b) == merged(b, a),
{
    if a.limiting is Some && b.limiting is Some {
        lemma_limits_order(a.limiting->0, b.limiting->0);
    }
}

/// How accumulators are bracketed does not matter.
pub proof fn lemma_merge_associative(a: UsageView, b: UsageView, c: UsageView)
    ensures
        merged(merged(a, b), c) == merged(a, merged(b, c)),
{
    if a.limiting is Some && b.limiting is Some && c.limiting is Some {
        let x = a.limiting->0;
        let y = b.limiting->0;
        let z = c.limiting->0;
        lemma_limits_order(x, y);
        lemma_limits_order(y, z);
        lemma_limits_order(x, z);
        if !limits_more(y, x) && !limits_more(z, y) {
            lemma_limits_transitive(x, y, z);
        }
        if limits_more(y, x) && limits_more(z, y) {
            if !limits_more(z, x) {
                lemma_limits_transitive(x, z, y);
            }
        }
        assert(more_limiting(more_limiting(a.limiting, b.limiting), c.limiting) == more_limiting(
            a.limiting,
            more_limiting(b.limiting, c.limiting),
        ));
    }
}

/// Merging with an empty accumulator changes nothing.
pub proof fn lemma_merge_identity(a: UsageView)
    ensures
        merged(a, no_usage()) == a,
        merged(no_usage(), a) == a,
{
}

} // verus!
