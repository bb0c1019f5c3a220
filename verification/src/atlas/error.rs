//! Failures of atlas layout and validation.

use vstd::prelude::*;

verus! {

/// Why an atlas operation failed.
#[derive(Clone, Copy, Debug, PartialEq, Eq, Structural)]
pub enum AtlasError {
    RectRightOverflow,
    RectBottomOverflow,
    BorderOverflow,
    PageNarrowerThanBorders,
    PageShorterThanBorders,
    PageWithoutInterior,
    OccupiedOutsideInterior,
    MatchingScoreOverflow,
    MatchingWeightOverflow,
    MatchingTieOverflow,
    MatchingPathOverflow,
    ReservationOriginOverflow,
    ReservationXUnderflow,
    ReservationYUnderflow,
    ReservationExtrusionOverflow,
    ReservationWidthOverflow,
    ReservationHeightOverflow,
    ReservationOutsideInterior,
    ContentExceedsReservation,
    DestinationXOverflow,
    DestinationYOverflow,
    PageIdExceedsRange,
    SourceRectMissing,
    SourceSizeMissing,
    SlotWithoutKeys,
    KeyReferencesMissingSlot,
    SlotReferencesMissingPage,
    SlotIdOverflow,
    ActiveAreaOverflow,
    ReservedAreaOverflow,
    PageAreaOverflow,
    UsableAreaOverflow,
    ReservedExceedsUsable,
    FragmentationOverflow,
    PackingFailed,
    AppendPackingFailed,
    PreparedImageMissing,
    ProviderClaimedTwice,
}

} // verus!
