//! Laws of pages: what each texel shows, which pages are written and carried, and what that takes.

use crate::atlas::compose::{blit_of, composed, reaches, shown, texel, Blit};
use crate::atlas::domain::PlannedFamily;
use crate::atlas::manager::measures;
use crate::atlas::metrics::AtlasPlanMetrics;
use crate::atlas::pack::PixelImage;
use crate::atlas::publish::{
    built_jobs, built_page, canvas_bytes, carried_paths, largest_canvas, published_bytes, work_of,
    AtlasPagePublishPlan,
};
use crate::atlas::sizing::AtlasDomain;
use crate::atlas::types::{Frame, ALPHA_ATLAS_PREFIX, OPAQUE_ATLAS_PREFIX};
use crate::atlas::write::{page_name, page_path};
use crate::picks::{lemma_pick_next, picks};
use vstd::prelude::*;

verus! {

/// A frame shows its part texel by texel, turned by a quarter clockwise where it is rotated.
pub proof fn lemma_part_shown(blit: Blit, source: PixelImage, i: int, j: int)
    requires
        0 <= i,
        0 <= j,
    ensures
        !blit.rotated && i < blit.part.w && j < blit.part.h ==> shown(
            blit,
            source,
            blit.x + i,
            blit.y + j,
        ) == texel(source, blit.part.x + i, blit.part.y + j),
        blit.rotated && i < blit.part.w && j < blit.part.h ==> shown(
            blit,
            source,
            blit.x + (blit.part.h - 1 - j),
            blit.y + i,
        ) == texel(source, blit.part.x + i, blit.part.y + j),
{
}

/// Around the part, a frame shows the nearest texel of its edge.
pub proof fn lemma_edges_continued(
    blit: Blit,
    source: PixelImage,
    x: int,
    y: int,
    near_x: int,
    near_y: int,
)
    requires
        blit.part.w > 0,
        blit.part.h > 0,
        blit.x <= near_x < blit.x + if blit.rotated {
            blit.part.h
        } else {
            blit.part.w
        },
        blit.y <= near_y < blit.y + if blit.rotated {
            blit.part.w
        } else {
            blit.part.h
        },
        near_x == x || x < near_x == blit.x || x > near_x && near_x + 1 == blit.x + if blit.rotated {
            blit.part.h
        } else {
            blit.part.w
        },
        near_y == y || y < near_y == blit.y || y > near_y && near_y + 1 == blit.y + if blit.rotated {
            blit.part.w
        } else {
            blit.part.h
        },
    ensures
        shown(blit, source, x, y) == shown(blit, source, near_x, near_y),
        reaches(blit, x, y) <==> near_x - blit.extrude <= x <= near_x + blit.extrude && near_y
            - blit.extrude <= y <= near_y + blit.extrude,
{
}

/// A texel shows the last frame that reaches it; what none reaches is blank.
pub proof fn lemma_last_frame_shows(
    images: Map<Seq<char>, PixelImage>,
    frames: Seq<Frame>,
    f: int,
    end: int,
    x: int,
    y: int,
)
    requires
        0 <= end,
    ensures
        0 <= f < end && reaches(blit_of(frames[f]), x, y) && (forall|g: int|
            f < g < end ==> !reaches(blit_of(#[trigger] frames[g]), x, y)) ==> composed(
            images,
            frames,
            end,
            x,
            y,
        ) == shown(blit_of(frames[f]), images[frames[f].key@], x, y),
        (forall|g: int| 0 <= g < end ==> !reaches(blit_of(#[trigger] frames[g]), x, y))
            ==> composed(images, frames, end, x, y) == seq![0u8, 0, 0, 0],
    decreases end,
{
    if end > 0 {
        lemma_last_frame_shows(images, frames, f, end - 1, x, y);
        assert(reaches(blit_of(frames[end - 1]), x, y) || !reaches(blit_of(frames[end - 1]), x, y));
    }
}

/// The jobs of a family are its pages to build, in order, each under its own name, and the paths that
/// stay are those of its other pages, in order.
pub proof fn lemma_pages_written_or_carried(
    domain: AtlasDomain,
    work: Seq<AtlasPagePublishPlan>,
    end: int,
) -> (lists: (Seq<int>, Seq<int>))
    requires
        0 <= end <= work.len(),
    ensures
        picks(lists.0, end, |p: int| work[p] is Build),
        built_jobs(domain, work, end).len() == lists.0.len(),
        forall|k: int|
            0 <= k < lists.0.len() ==> {
                let job = #[trigger] built_jobs(domain, work, end)[k];
                let page = work[lists.0[k]]->Build_0;
                &&& job.position == lists.0[k]
                &&& job.domain == domain
                &&& domain is Opaque ==> job.format is Dxt1 && job.name == page_name(
                    OPAQUE_ATLAS_PREFIX@,
                    page.id as nat,
                )
                &&& domain is Alpha ==> job.format is Dxt5 && job.name == page_name(
                    ALPHA_ATLAS_PREFIX@,
                    page.id as nat,
                )
            },
        picks(lists.1, end, |p: int| work[p] is Carry),
        carried_paths(domain, work, end) == lists.1.map_values(
            |p: int| page_path(domain, work[p]->page_id as nat),
        ),
        lists.0.len() + lists.1.len() == end,
    decreases end,
{
    if end <= 0 {
        assert(carried_paths(domain, work, end) =~= Seq::<int>::empty().map_values(
            |p: int| page_path(domain, work[p]->page_id as nat),
        ));
        (Seq::empty(), Seq::empty())
    } else {
        let before = lemma_pages_written_or_carried(domain, work, end - 1);
        lemma_pick_next(before.0, end - 1, |p: int| work[p] is Build);
        lemma_pick_next(before.1, end - 1, |p: int| work[p] is Carry);
        let built = if work[end - 1] is Build {
            before.0.push(end - 1)
        } else {
            before.0
        };
        let carried = if work[end - 1] is Carry {
            before.1.push(end - 1)
        } else {
            before.1
        };
        assert(carried_paths(domain, work, end) =~= carried.map_values(
            |p: int| page_path(domain, work[p]->page_id as nat),
        ));
        assert forall|k: int| 0 <= k < built.len() implies {
            let job = #[trigger] built_jobs(domain, work, end)[k];
            let page = work[built[k]]->Build_0;
            &&& job.position == built[k]
            &&& job.domain == domain
            &&& domain is Opaque ==> job.format is Dxt1 && job.name == page_name(
                OPAQUE_ATLAS_PREFIX@,
                page.id as nat,
            )
            &&& domain is Alpha ==> job.format is Dxt5 && job.name == page_name(
                ALPHA_ATLAS_PREFIX@,
                page.id as nat,
            )
        } by {
            if k < before.0.len() {
                assert(built_jobs(domain, work, end)[k] == built_jobs(domain, work, end - 1)[k]);
                assert(built[k] == before.0[k]);
            }
        }
        (built, carried)
    }
}

/// Each page to build adds its canvas and a header to what is published; a carried page adds nothing.
pub proof fn lemma_published_adds(work: Seq<AtlasPagePublishPlan>, end: int)
    requires
        0 <= end < work.len(),
    ensures
        published_bytes(work, 0) == 0,
        work[end] matches AtlasPagePublishPlan::Build(page) ==> published_bytes(work, end + 1)
            - published_bytes(work, end) == 256 + 4 * (page.width * page.height),
        work[end] is Carry ==> published_bytes(work, end + 1) == published_bytes(work, end),
{
}

/// The page is one to build, of either family.
pub open spec fn builds(opaque: PlannedFamily, alpha: PlannedFamily, alpha_side: bool, w: int) -> bool {
    let work = work_of(
        if alpha_side {
            alpha.publish
        } else {
            opaque.publish
        },
    );
    0 <= w < work.len() && work[w] is Build
}

/// Bytes of the canvas of a page to build.
pub open spec fn canvas_built(
    opaque: PlannedFamily,
    alpha: PlannedFamily,
    alpha_side: bool,
    w: int,
) -> int {
    let page = work_of(
        if alpha_side {
            alpha.publish
        } else {
            opaque.publish
        },
    )[w]->Build_0;
    page.width * page.height * 4
}

/// The prepared images of both families, as far as 64 bits go, are what planning holds; publication
/// holds room for any page to build beside them, each with its copies.
pub proof fn lemma_peaks_cover_pages(
    opaque: PlannedFamily,
    alpha: PlannedFamily,
    m: AtlasPlanMetrics,
    alpha_side: bool,
    w: int,
)
    requires
        measures(opaque, alpha, m),
        builds(opaque, alpha, alpha_side, w),
    ensures
        m.planning_peak_bytes <= m.publication_peak_bytes,
        m.publication_peak_bytes == u64::MAX || m.publication_peak_bytes >= m.planning_peak_bytes
            + 4 * canvas_built(opaque, alpha, alpha_side, w),
{
    let opaque_work = work_of(opaque.publish);
    let alpha_work = work_of(alpha.publish);
    lemma_canvas_covered(opaque_work, opaque_work.len() as int, w);
    lemma_canvas_covered(alpha_work, alpha_work.len() as int, w);
}

proof fn lemma_canvas_covered(work: Seq<AtlasPagePublishPlan>, end: int, w: int)
    requires
        0 <= end <= work.len(),
    ensures
        0 <= w < end && work[w] is Build ==> {
            let page = work[w]->Build_0;
            page.width * page.height * 4 <= largest_canvas(work, end) || largest_canvas(work, end)
                == u64::MAX
        },
    decreases end,
{
    if end > 0 {
        lemma_canvas_covered(work, end - 1, w);
        if w == end - 1 && work[w] is Build {
            assert(built_page(work[w]) == Some(work[w]->Build_0));
            assert(canvas_bytes(work[w]->Build_0) == work[w]->Build_0.width
                * work[w]->Build_0.height * 4);
        }
    }
}

} // verus!
