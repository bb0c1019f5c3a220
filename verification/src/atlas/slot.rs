//! Page reservations and the slots that fill them.

use crate::atlas::error::AtlasError;
use crate::atlas::rect::{contains, interior, usable_rect, CachedAtlasRect};
use crate::atlas::types::{AtlasSharedConfig, CachedAtlasSlot, Frame, LayoutItem, Rect};
use vstd::prelude::*;

verus! {

/// Distance from the corner of a reservation to the content in it.
pub open spec fn content_offset(shared: AtlasSharedConfig) -> int {
    shared.texture_extrusion + shared.texture_padding / 2
}

/// What a reservation adds to each dimension of its content.
pub open spec fn reservation_extra(shared: AtlasSharedConfig) -> int {
    shared.texture_padding + 2 * shared.texture_extrusion
}

/// The size that content of `width` by `height` reserves.
pub open spec fn reserved_size(width: u32, height: u32, shared: AtlasSharedConfig) -> Result<
    (u32, u32),
    AtlasError,
> {
    if 2 * shared.texture_extrusion > u32::MAX {
        Err(AtlasError::ReservationExtrusionOverflow)
    } else if width + reservation_extra(shared) > u32::MAX {
        Err(AtlasError::ReservationWidthOverflow)
    } else if height + reservation_extra(shared) > u32::MAX {
        Err(AtlasError::ReservationHeightOverflow)
    } else {
        Ok(
            (
                (width + reservation_extra(shared)) as u32,
                (height + reservation_extra(shared)) as u32,
            ),
        )
    }
}

/// The reservation behind a placed frame.
pub open spec fn reservation_behind(
    frame: Rect,
    page_width: u32,
    page_height: u32,
    shared: AtlasSharedConfig,
) -> Result<CachedAtlasRect, AtlasError> {
    if content_offset(shared) > u32::MAX {
        Err(AtlasError::ReservationOriginOverflow)
    } else if frame.x < content_offset(shared) {
        Err(AtlasError::ReservationXUnderflow)
    } else if frame.y < content_offset(shared) {
        Err(AtlasError::ReservationYUnderflow)
    } else {
        match reserved_size(frame.w, frame.h, shared) {
            Err(e) => Err(e),
            Ok((width, height)) => {
                let reserved = CachedAtlasRect {
                    x: (frame.x - content_offset(shared)) as u32,
                    y: (frame.y - content_offset(shared)) as u32,
                    width,
                    height,
                };
                match interior(page_width, page_height, shared.border_padding) {
                    Err(e) => Err(e),
                    Ok(usable) => if usable.fits() && reserved.fits() && usable.encloses(reserved) {
                        Ok(reserved)
                    } else {
                        Err(AtlasError::ReservationOutsideInterior)
                    },
                }
            },
        }
    }
}

/// Where content of the given size stands in a reservation.
pub open spec fn destination_within(
    reserved: CachedAtlasRect,
    width: u32,
    height: u32,
    shared: AtlasSharedConfig,
) -> Result<CachedAtlasRect, AtlasError> {
    match reserved_size(width, height, shared) {
        Err(e) => Err(e),
        Ok((required_width, required_height)) => if required_width > reserved.width
            || required_height > reserved.height {
            Err(AtlasError::ContentExceedsReservation)
        } else if reserved.x + content_offset(shared) > u32::MAX {
            Err(AtlasError::DestinationXOverflow)
        } else if reserved.y + content_offset(shared) > u32::MAX {
            Err(AtlasError::DestinationYOverflow)
        } else {
            Ok(
                CachedAtlasRect {
                    x: (reserved.x + content_offset(shared)) as u32,
                    y: (reserved.y + content_offset(shared)) as u32,
                    width,
                    height,
                },
            )
        },
    }
}

/// Grows a content size to the page area it reserves, adding padding and extrusion on both edges.
pub fn reservation_dimensions(width: u32, height: u32, shared: &AtlasSharedConfig) -> (r: Result<
    (u32, u32),
    AtlasError,
>)
    ensures
        r == reserved_size(width, height, *shared),
{
    let twice_extrusion: u32 = match shared.texture_extrusion.checked_mul(2) {
        Some(twice) => twice,
        None => {
            return Err(AtlasError::ReservationExtrusionOverflow);
        },
    };
    let reserved_width: u32 = match grown(width, shared.texture_padding, twice_extrusion) {
        Some(grown) => grown,
        None => {
            return Err(AtlasError::ReservationWidthOverflow);
        },
    };
    let reserved_height: u32 = match grown(height, shared.texture_padding, twice_extrusion) {
        Some(grown) => grown,
        None => {
            return Err(AtlasError::ReservationHeightOverflow);
        },
    };
    Ok((reserved_width, reserved_height))
}

fn grown(size: u32, padding: u32, twice_extrusion: u32) -> (r: Option<u32>)
    ensures
        r is Some <==> size + padding + twice_extrusion <= u32::MAX,
        r is Some ==> r->0 == size + padding + twice_extrusion,
{
    match size.checked_add(padding) {
        Some(padded) => padded.checked_add(twice_extrusion),
        None => None,
    }
}

/// Captures the packer reservation hidden behind a visible frame.
pub fn capture_reservation(
    frame: Rect,
    page_width: u32,
    page_height: u32,
    shared: &AtlasSharedConfig,
) -> (r: Result<CachedAtlasRect, AtlasError>)
    ensures
        r == reservation_behind(frame, page_width, page_height, *shared),
{
    let offset: u32 = match shared.texture_extrusion.checked_add(shared.texture_padding / 2) {
        Some(offset) => offset,
        None => {
            return Err(AtlasError::ReservationOriginOverflow);
        },
    };
    if frame.x < offset {
        return Err(AtlasError::ReservationXUnderflow);
    }
    if frame.y < offset {
        return Err(AtlasError::ReservationYUnderflow);
    }
    let (width, height) = reservation_dimensions(frame.w, frame.h, shared)?;
    let reserved = CachedAtlasRect { x: frame.x - offset, y: frame.y - offset, width, height };
    let usable = usable_rect(page_width, page_height, shared.border_padding)?;
    if !contains(&usable, &reserved) {
        return Err(AtlasError::ReservationOutsideInterior);
    }
    Ok(reserved)
}

/// Area that an item reserves; unrepresentable sizes count as largest.
pub fn reservation_area(item: &LayoutItem, shared: &AtlasSharedConfig) -> (r: u64)
    ensures
        r == spec_reservation_area(*item, *shared),
{
    match reservation_dimensions(item.w, item.h, shared) {
        Ok((width, height)) => {
            proof {
                crate::atlas::rect::lemma_u32_product(width, height);
            }
            width as u64 * height as u64
        },
        Err(_) => u64::MAX,
    }
}

pub open spec fn spec_reservation_area(item: LayoutItem, shared: AtlasSharedConfig) -> int {
    match reserved_size(item.w, item.h, shared) {
        Ok((width, height)) => width * height,
        Err(_) => u64::MAX as int,
    }
}

/// Places content of the given size in a reservation.
pub fn destination_in_reservation(
    reserved: CachedAtlasRect,
    width: u32,
    height: u32,
    shared: &AtlasSharedConfig,
) -> (r: Result<CachedAtlasRect, AtlasError>)
    ensures
        r == destination_within(reserved, width, height, *shared),
{
    let (required_width, required_height) = reservation_dimensions(width, height, shared)?;
    if required_width > reserved.width || required_height > reserved.height {
        return Err(AtlasError::ContentExceedsReservation);
    }
    let offset: u32 = shared.texture_extrusion + shared.texture_padding / 2;
    let x: u32 = match reserved.x.checked_add(offset) {
        Some(x) => x,
        None => {
            return Err(AtlasError::DestinationXOverflow);
        },
    };
    let y: u32 = match reserved.y.checked_add(offset) {
        Some(y) => y,
        None => {
            return Err(AtlasError::DestinationYOverflow);
        },
    };
    Ok(CachedAtlasRect { x, y, width, height })
}

/// The packer's rectangle in cached form.
pub open spec fn as_cached(rect: Rect) -> CachedAtlasRect {
    CachedAtlasRect { x: rect.x, y: rect.y, width: rect.w, height: rect.h }
}

/// A cached rectangle in the packer's form.
pub open spec fn as_packed(rect: CachedAtlasRect) -> Rect {
    Rect { x: rect.x, y: rect.y, w: rect.width, h: rect.height }
}

/// Converts a packer rectangle to its cached form.
pub fn cached_rect(rect: Rect) -> (r: CachedAtlasRect)
    ensures
        r == as_cached(rect),
{
    CachedAtlasRect { x: rect.x, y: rect.y, width: rect.w, height: rect.h }
}

/// Converts a cached rectangle to the packer's form.
pub fn restored_rect(rect: CachedAtlasRect) -> (r: Rect)
    ensures
        r == as_packed(rect),
{
    Rect::new(rect.x, rect.y, rect.width, rect.height)
}

/// Caching a rectangle loses nothing.
pub proof fn lemma_rect_round_trip(rect: Rect, cached: CachedAtlasRect)
    ensures
        as_packed(as_cached(rect)) == rect,
        as_cached(as_packed(cached)) == cached,
{
}

/// The source rectangle of a prepared item.
pub fn cached_source(item: &LayoutItem) -> (r: Result<CachedAtlasRect, AtlasError>)
    ensures
        r == (match item.source {
            Some(rect) => Ok::<CachedAtlasRect, AtlasError>(as_cached(rect)),
            None => Err(AtlasError::SourceRectMissing),
        }),
{
    match item.source {
        Some(rect) => Ok(cached_rect(rect)),
        None => Err(AtlasError::SourceRectMissing),
    }
}

/// A size as its two lanes.
pub open spec fn size_lanes(size: (u32, u32)) -> Seq<u32> {
    seq![size.0, size.1]
}

/// The source size of a prepared item.
pub fn cached_source_size(item: &LayoutItem) -> (r: Result<[u32; 2], AtlasError>)
    ensures
        r is Ok <==> item.source_size is Some,
        r is Err ==> r->Err_0 == AtlasError::SourceSizeMissing,
        r is Ok ==> r->Ok_0@ == size_lanes(item.source_size->0),
{
    match item.source_size {
        Some((width, height)) => {
            let size: [u32; 2] = [width, height];
            assert(size@ =~= seq![width, height]);
            Ok(size)
        },
        None => Err(AtlasError::SourceSizeMissing),
    }
}

/// The slot holds the content of `item` at `reserved` under `provider`.
pub open spec fn slot_holds_item(
    slot: CachedAtlasSlot,
    reserved: CachedAtlasRect,
    item: LayoutItem,
    provider: Seq<char>,
    content_fingerprint: [u8; 32],
    shared: AtlasSharedConfig,
) -> bool {
    &&& slot.reserved_rect == reserved
    &&& Ok::<CachedAtlasRect, AtlasError>(slot.destination) == destination_within(
        reserved,
        item.w,
        item.h,
        shared,
    )
    &&& item.source is Some
    &&& slot.source == as_cached(item.source->0)
    &&& item.source_size is Some
    &&& slot.source_size@ == size_lanes(item.source_size->0)
    &&& !slot.rotated
    &&& slot.trimmed == item.trimmed
    &&& slot.provider_key@ == provider
    &&& slot.content_fingerprint == content_fingerprint
}

/// The first failure of filling a reservation with an item, if there is one.
pub open spec fn slot_failure(
    reserved: CachedAtlasRect,
    item: LayoutItem,
    shared: AtlasSharedConfig,
) -> Option<AtlasError> {
    match destination_within(reserved, item.w, item.h, shared) {
        Err(e) => Some(e),
        Ok(_) => if item.source is None {
            Some(AtlasError::SourceRectMissing)
        } else if item.source_size is None {
            Some(AtlasError::SourceSizeMissing)
        } else {
            None
        },
    }
}

/// Fills a reservation with a prepared item.
pub fn fill_slot(
    slot_id: u64,
    page_id: u32,
    reserved_rect: CachedAtlasRect,
    item: &LayoutItem,
    provider_key: String,
    content_fingerprint: [u8; 32],
    shared: &AtlasSharedConfig,
) -> (r: Result<CachedAtlasSlot, AtlasError>)
    ensures
        match r {
            Ok(slot) => {
                &&& slot_failure(reserved_rect, *item, *shared) is None
                &&& slot.slot_id == slot_id
                &&& slot.page_id == page_id
                &&& slot.provider_key == provider_key
                &&& slot_holds_item(
                    slot,
                    reserved_rect,
                    *item,
                    provider_key@,
                    content_fingerprint,
                    *shared,
                )
            },
            Err(e) => slot_failure(reserved_rect, *item, *shared) == Some(e),
        },
{
    let destination = destination_in_reservation(reserved_rect, item.w, item.h, shared)?;
    let source = cached_source(item)?;
    let source_size = cached_source_size(item)?;
    Ok(
        CachedAtlasSlot {
            slot_id,
            page_id,
            reserved_rect,
            destination,
            source,
            source_size,
            rotated: false,
            trimmed: item.trimmed,
            provider_key,
            content_fingerprint,
        },
    )
}

/// The slot repeats what the packer reported of a frame.
pub open spec fn slot_repeats_frame(
    slot: CachedAtlasSlot,
    reserved: CachedAtlasRect,
    frame: Frame,
    content_fingerprint: [u8; 32],
) -> bool {
    &&& slot.reserved_rect == reserved
    &&& slot.destination == as_cached(frame.frame)
    &&& slot.source == as_cached(frame.source)
    &&& slot.source_size@ == size_lanes(frame.source_size)
    &&& slot.rotated == frame.rotated
    &&& slot.trimmed == frame.trimmed
    &&& slot.provider_key@ == frame.key@
    &&& slot.content_fingerprint == content_fingerprint
}

/// Builds the slot behind a packed frame.
pub fn slot_from_frame(
    slot_id: u64,
    page_id: usize,
    reserved_rect: CachedAtlasRect,
    frame: &Frame,
    content_fingerprint: [u8; 32],
) -> (r: Result<CachedAtlasSlot, AtlasError>)
    ensures
        r is Ok <==> page_id <= u32::MAX,
        r is Err ==> r->Err_0 == AtlasError::PageIdExceedsRange,
        r matches Ok(slot) ==> {
            &&& slot.slot_id == slot_id
            &&& slot.page_id == page_id
            &&& slot_repeats_frame(slot, reserved_rect, *frame, content_fingerprint)
        },
{
    if page_id > u32::MAX as usize {
        return Err(AtlasError::PageIdExceedsRange);
    }
    let source_size: [u32; 2] = [frame.source_size.0, frame.source_size.1];
    assert(source_size@ =~= size_lanes(frame.source_size));
    Ok(
        CachedAtlasSlot {
            slot_id,
            page_id: page_id as u32,
            reserved_rect,
            destination: cached_rect(frame.frame),
            source: cached_rect(frame.source),
            source_size,
            rotated: frame.rotated,
            trimmed: frame.trimmed,
            provider_key: frame.key.clone(),
            content_fingerprint,
        },
    )
}

/// Content placed in a reservation is captured back as that reservation.
pub proof fn lemma_reservation_round_trip(
    frame: Rect,
    page_width: u32,
    page_height: u32,
    shared: AtlasSharedConfig,
)
    requires
        reservation_behind(frame, page_width, page_height, shared) is Ok,
    ensures
        destination_within(
            reservation_behind(frame, page_width, page_height, shared)->Ok_0,
            frame.w,
            frame.h,
            shared,
        ) == Ok::<CachedAtlasRect, AtlasError>(as_cached(frame)),
{
}

} // verus!
