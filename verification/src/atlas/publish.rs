//! What is done with each page of a family: carried over or composed anew.

use crate::atlas::allocate::ReconciledPage;
use crate::atlas::pack::PixelImage;
use crate::atlas::sizing::AtlasDomain;
use crate::atlas::types::Page;
use crate::atlas::write::{
    atlas_page_relative_path, atlas_page_string, domain_prefix, page_name, page_path, prefix_of,
};
use crate::list::reversed;
use crate::text::texts;
use crate::text_map::TextMap;
use vstd::prelude::*;

verus! {

/// What is done with one page.
#[derive(Debug)]
pub enum AtlasPagePublishPlan {
    /// The committed page stays as it is.
    Carry { page_id: usize },
    /// The page is composed and written.
    Build(Page),
}

/// Publication work of one family.
pub struct AtlasDomainPublishPlan {
    pub domain: AtlasDomain,
    pub pages: Vec<AtlasPagePublishPlan>,
    /// Prepared images by provider key.
    pub images: TextMap<PixelImage>,
    pub prepared_source_bytes: u64,
}

/// What is done with a reconciled page.
pub open spec fn page_work(page: ReconciledPage) -> AtlasPagePublishPlan {
    if page.dirty {
        AtlasPagePublishPlan::Build(page.page)
    } else {
        AtlasPagePublishPlan::Carry { page_id: page.page.id }
    }
}

/// What is done with all pages of a family.
pub open spec fn pages_work(pages: Seq<ReconciledPage>) -> Seq<AtlasPagePublishPlan> {
    pages.map_values(|page: ReconciledPage| page_work(page))
}

/// Every page of a family of `count` is carried.
pub open spec fn carried_work(count: nat) -> Seq<AtlasPagePublishPlan> {
    Seq::new(count, |p: int| AtlasPagePublishPlan::Carry { page_id: p as usize })
}

/// The publication work is this; a family without pages has none.
pub open spec fn publishes(
    publish: Option<AtlasDomainPublishPlan>,
    domain: AtlasDomain,
    work: Seq<AtlasPagePublishPlan>,
    images: Map<Seq<char>, PixelImage>,
    prepared_source_bytes: u64,
) -> bool {
    match publish {
        None => work.len() == 0,
        Some(plan) => {
            &&& work.len() > 0
            &&& plan.domain == domain
            &&& plan.pages@ == work
            &&& plan.images.wf()
            &&& plan.images@ == images
            &&& plan.prepared_source_bytes == prepared_source_bytes
        },
    }
}

/// Publication work of an allocated family.
pub fn domain_publish(
    domain: AtlasDomain,
    pages: Vec<ReconciledPage>,
    images: TextMap<PixelImage>,
    prepared_source_bytes: u64,
) -> (r: Option<AtlasDomainPublishPlan>)
    requires
        images.wf(),
    ensures
        publishes(r, domain, pages_work(pages@), images@, prepared_source_bytes),
{
    if pages.len() == 0 {
        return None;
    }
    let ghost source = pages@;
    let mut rest: Vec<ReconciledPage> = pages;
    let mut backward: Vec<AtlasPagePublishPlan> = Vec::new();
    while rest.len() > 0
        invariant
            rest@.len() <= source.len(),
            rest@ == source.take(rest@.len() as int),
            backward@.reverse() == pages_work(source).skip(rest@.len() as int),
        decreases rest@.len(),
    {
        let ghost before = backward@;
        let ghost n = rest@.len() as int;
        let page = rest.pop().unwrap();
        assert(page == source[n - 1]);
        if page.dirty {
            backward.push(AtlasPagePublishPlan::Build(page.page));
        } else {
            backward.push(AtlasPagePublishPlan::Carry { page_id: page.page.id });
        }
        proof {
            assert(rest@ =~= source.take(n - 1));
            assert(backward@.last() == pages_work(source)[n - 1]);
            assert(backward@.reverse() =~= seq![backward@.last()] + before.reverse());
            assert(pages_work(source).skip(n - 1) =~= seq![pages_work(source)[n - 1]]
                + pages_work(source).skip(n));
        }
    }
    let pages = reversed(backward);
    assert(pages@ =~= pages_work(source));
    Some(AtlasDomainPublishPlan { domain, pages, images, prepared_source_bytes })
}

/// Publication work of a family that is carried whole.
pub fn carry_publish(domain: AtlasDomain, page_count: usize) -> (r: Option<AtlasDomainPublishPlan>)
    ensures
        publishes(r, domain, carried_work(page_count as nat), Map::empty(), 0),
{
    if page_count == 0 {
        return None;
    }
    let mut pages: Vec<AtlasPagePublishPlan> = Vec::new();
    let mut page_id: usize = 0;
    while page_id < page_count
        invariant
            page_id <= page_count,
            pages@ == carried_work(page_id as nat),
        decreases page_count - page_id,
    {
        pages.push(AtlasPagePublishPlan::Carry { page_id });
        page_id = page_id + 1;
        assert(pages@ =~= carried_work(page_id as nat));
    }
    Some(AtlasDomainPublishPlan { domain, pages, images: TextMap::new(), prepared_source_bytes: 0 })
}

/// How many of the first `end` pages are composed anew.
pub open spec fn built_before(pages: Seq<ReconciledPage>, end: int) -> nat
    decreases end,
{
    if end <= 0 {
        0
    } else if pages[end - 1].dirty {
        built_before(pages, end - 1) + 1
    } else {
        built_before(pages, end - 1)
    }
}

/// Counts the pages that are composed anew.
pub fn count_built(pages: &[ReconciledPage]) -> (r: usize)
    ensures
        r == built_before(pages@, pages@.len() as int),
        r <= pages@.len(),
{
    let mut built: usize = 0;
    let mut i: usize = 0;
    while i < pages.len()
        invariant
            i <= pages@.len(),
            built <= i,
            built == built_before(pages@, i as int),
        decreases pages@.len() - i,
    {
        if pages[i].dirty {
            built = built + 1;
        }
        i = i + 1;
    }
    built
}

/// The page to compose, if the work is that.
pub open spec fn built_page(work: AtlasPagePublishPlan) -> Option<Page> {
    match work {
        AtlasPagePublishPlan::Carry { .. } => None,
        AtlasPagePublishPlan::Build(page) => Some(page),
    }
}

/// The page to compose, if the work is that.
pub fn build_page(work: &AtlasPagePublishPlan) -> (r: Option<&Page>)
    ensures
        match r {
            Some(page) => built_page(*work) == Some(*page),
            None => built_page(*work) is None,
        },
{
    match work {
        AtlasPagePublishPlan::Carry { .. } => None,
        AtlasPagePublishPlan::Build(page) => Some(page),
    }
}

/// Bytes of a page's canvas.
pub open spec fn canvas_bytes(page: Page) -> int {
    page.width * page.height * 4
}

/// The number, or the largest of 64 bits.
pub open spec fn capped(n: int) -> u64 {
    if n < u64::MAX {
        n as u64
    } else {
        u64::MAX
    }
}

/// Bytes of a page's canvas, or the largest number of 64 bits.
pub fn page_rgba_bytes(page: &Page) -> (r: u64)
    ensures
        r == capped(canvas_bytes(*page)),
{
    let w: u64 = page.width as u64;
    let h: u64 = page.height as u64;
    assert(0 <= w * h <= 0xffff_ffff * 0xffff_ffff) by (nonlinear_arith)
        requires
            0 <= w <= 0xffff_ffff,
            0 <= h <= 0xffff_ffff,
    ;
    let area: u64 = w * h;
    if area > u64::MAX / 4 {
        u64::MAX
    } else {
        area * 4
    }
}

/// The largest canvas among the first `end` pages that are composed.
pub open spec fn largest_canvas(work: Seq<AtlasPagePublishPlan>, end: int) -> u64
    decreases end,
{
    if end <= 0 {
        0
    } else {
        let before = largest_canvas(work, end - 1);
        match built_page(work[end - 1]) {
            Some(page) => if capped(canvas_bytes(page)) > before {
                capped(canvas_bytes(page))
            } else {
                before
            },
            None => before,
        }
    }
}

/// Bytes of the first `end` pages that are composed, each with its header, before any is encoded.
pub open spec fn published_bytes(work: Seq<AtlasPagePublishPlan>, end: int) -> int
    decreases end,
{
    if end <= 0 {
        0
    } else {
        published_bytes(work, end - 1) + match built_page(work[end - 1]) {
            Some(page) => 256 + canvas_bytes(page),
            None => 0,
        }
    }
}

pub proof fn lemma_published_grows(work: Seq<AtlasPagePublishPlan>, end: int)
    requires
        0 <= end <= work.len(),
    ensures
        published_bytes(work, end) >= 0,
    decreases end,
{
    if end > 0 {
        lemma_published_grows(work, end - 1);
        if let Some(page) = built_page(work[end - 1]) {
            assert(page.width * page.height * 4 >= 0) by (nonlinear_arith)
                requires
                    page.width >= 0,
                    page.height >= 0,
            ;
        }
    }
}

/// The publication work of a family; none where it has no pages.
pub open spec fn work_of(publish: Option<AtlasDomainPublishPlan>) -> Seq<AtlasPagePublishPlan> {
    match publish {
        Some(plan) => plan.pages@,
        None => Seq::empty(),
    }
}

/// The largest canvas of a family.
pub fn largest_built(publish: &Option<AtlasDomainPublishPlan>) -> (r: u64)
    ensures
        r == largest_canvas(work_of(*publish), work_of(*publish).len() as int),
{
    let pages = match publish {
        Some(plan) => &plan.pages,
        None => {
            return 0;
        },
    };
    let mut largest: u64 = 0;
    let mut i: usize = 0;
    while i < pages.len()
        invariant
            i <= pages@.len(),
            largest == largest_canvas(pages@, i as int),
        decreases pages@.len() - i,
    {
        if let Some(page) = build_page(&pages[i]) {
            let bytes: u64 = page_rgba_bytes(page);
            if bytes > largest {
                largest = bytes;
            }
        }
        i = i + 1;
    }
    largest
}

/// Adds the bytes that a family publishes at most.
pub fn add_published(total: u64, publish: &Option<AtlasDomainPublishPlan>) -> (r: u64)
    ensures
        r == capped(total + published_bytes(work_of(*publish), work_of(*publish).len() as int)),
{
    let pages = match publish {
        Some(plan) => &plan.pages,
        None => {
            return total;
        },
    };
    let mut sum: u64 = total;
    let mut i: usize = 0;
    while i < pages.len()
        invariant
            i <= pages@.len(),
            sum == capped(total + published_bytes(pages@, i as int)),
        decreases pages@.len() - i,
    {
        proof {
            lemma_published_grows(pages@, i as int);
            lemma_published_grows(pages@, i + 1);
        }
        if let Some(page) = build_page(&pages[i]) {
            let bytes: u64 = page_rgba_bytes(page);
            sum = sum.saturating_add(256).saturating_add(bytes);
        }
        i = i + 1;
    }
    sum
}

/// The paths of the carried pages among the first `end`, relative to the output root.
pub open spec fn carried_paths(
    domain: AtlasDomain,
    work: Seq<AtlasPagePublishPlan>,
    end: int,
) -> Seq<Seq<char>>
    decreases end,
{
    if end <= 0 {
        Seq::empty()
    } else {
        match work[end - 1] {
            AtlasPagePublishPlan::Carry { page_id } => carried_paths(domain, work, end - 1).push(
                page_path(domain, page_id as nat),
            ),
            AtlasPagePublishPlan::Build(_) => carried_paths(domain, work, end - 1),
        }
    }
}

/// Appends the paths of the carried pages of a family.
pub fn push_carried_paths(out: &mut Vec<String>, publish: &Option<AtlasDomainPublishPlan>)
    ensures
        texts(final(out)@) == texts(old(out)@) + match publish {
            Some(plan) => carried_paths(plan.domain, plan.pages@, plan.pages@.len() as int),
            None => Seq::empty(),
        },
{
    let plan = match publish {
        Some(plan) => plan,
        None => {
            assert(texts(out@) + Seq::<Seq<char>>::empty() =~= texts(out@));
            return;
        },
    };
    let mut i: usize = 0;
    assert(texts(out@) + Seq::<Seq<char>>::empty() =~= texts(out@));
    while i < plan.pages.len()
        invariant
            i <= plan.pages@.len(),
            texts(out@) == texts(old(out)@) + carried_paths(plan.domain, plan.pages@, i as int),
        decreases plan.pages@.len() - i,
    {
        let ghost before = out@;
        if let AtlasPagePublishPlan::Carry { page_id } = &plan.pages[i] {
            let path = atlas_page_relative_path(plan.domain, *page_id);
            let ghost added = path@;
            out.push(path);
            assert(texts(out@) =~= texts(before).push(added));
            assert(texts(out@) =~= texts(old(out)@) + carried_paths(
                plan.domain,
                plan.pages@,
                i + 1,
            ));
        }
        i = i + 1;
    }
}

/// The compression in which a page is written.
#[derive(Clone, Copy, Debug, PartialEq, Eq, Structural)]
pub enum PageFormat {
    /// Colour alone.
    Dxt1,
    /// Colour and alpha.
    Dxt5,
}

/// The compression of a family's pages.
pub open spec fn format_of_domain(domain: AtlasDomain) -> PageFormat {
    match domain {
        AtlasDomain::Opaque => PageFormat::Dxt1,
        AtlasDomain::Alpha => PageFormat::Dxt5,
    }
}

/// The compression of a family's pages.
pub fn domain_format(domain: AtlasDomain) -> (r: PageFormat)
    ensures
        r == format_of_domain(domain),
{
    match domain {
        AtlasDomain::Opaque => PageFormat::Dxt1,
        AtlasDomain::Alpha => PageFormat::Dxt5,
    }
}

/// A page to compose, encode and write.
pub struct RenderJob {
    pub domain: AtlasDomain,
    /// Position of the page in its family's work.
    pub position: usize,
    pub format: PageFormat,
    /// File name of the page.
    pub name: String,
}

/// A render job as plain values.
pub struct RenderJobView {
    pub domain: AtlasDomain,
    pub position: int,
    pub format: PageFormat,
    pub name: Seq<char>,
}

impl View for RenderJob {
    type V = RenderJobView;

    open spec fn view(&self) -> RenderJobView {
        RenderJobView {
            domain: self.domain,
            position: self.position as int,
            format: self.format,
            name: self.name@,
        }
    }
}

/// The jobs as plain values.
pub open spec fn job_views(jobs: Seq<RenderJob>) -> Seq<RenderJobView> {
    jobs.map_values(|job: RenderJob| job@)
}

/// The jobs for the built pages among the first `end`, in order.
pub open spec fn built_jobs(
    domain: AtlasDomain,
    work: Seq<AtlasPagePublishPlan>,
    end: int,
) -> Seq<RenderJobView>
    decreases end,
{
    if end <= 0 {
        Seq::empty()
    } else {
        match work[end - 1] {
            AtlasPagePublishPlan::Carry { .. } => built_jobs(domain, work, end - 1),
            AtlasPagePublishPlan::Build(page) => built_jobs(domain, work, end - 1).push(
                RenderJobView {
                    domain,
                    position: end - 1,
                    format: format_of_domain(domain),
                    name: page_name(prefix_of(domain), page.id as nat),
                },
            ),
        }
    }
}

/// Appends the jobs for the built pages of a family.
pub fn push_render_jobs(out: &mut Vec<RenderJob>, publish: &Option<AtlasDomainPublishPlan>)
    ensures
        job_views(final(out)@) == job_views(old(out)@) + match publish {
            Some(plan) => built_jobs(plan.domain, plan.pages@, plan.pages@.len() as int),
            None => Seq::empty(),
        },
{
    let plan = match publish {
        Some(plan) => plan,
        None => {
            assert(job_views(out@) + Seq::<RenderJobView>::empty() =~= job_views(out@));
            return;
        },
    };
    let mut i: usize = 0;
    assert(job_views(out@) + Seq::<RenderJobView>::empty() =~= job_views(out@));
    while i < plan.pages.len()
        invariant
            i <= plan.pages@.len(),
            job_views(out@) == job_views(old(out)@) + built_jobs(
                plan.domain,
                plan.pages@,
                i as int,
            ),
        decreases plan.pages@.len() - i,
    {
        let ghost before = out@;
        if let AtlasPagePublishPlan::Build(page) = &plan.pages[i] {
            let job = RenderJob {
                domain: plan.domain,
                position: i,
                format: domain_format(plan.domain),
                name: atlas_page_string(domain_prefix(plan.domain), page.id),
            };
            let ghost added = job@;
            out.push(job);
            assert(job_views(out@) =~= job_views(before).push(added));
            assert(job_views(out@) =~= job_views(old(out)@) + built_jobs(
                plan.domain,
                plan.pages@,
                i + 1,
            ));
        }
        i = i + 1;
    }
}

/// Every built page has one job and no carried page has any, in the order of the pages.
pub proof fn lemma_jobs_are_builds(
    domain: AtlasDomain,
    work: Seq<AtlasPagePublishPlan>,
    end: int,
)
    requires
        0 <= end <= work.len(),
    ensures
        forall|j: int|
            0 <= j < built_jobs(domain, work, end).len() ==> {
                let position = (#[trigger] built_jobs(domain, work, end)[j]).position;
                0 <= position < end && work[position] is Build
            },
        forall|j: int, k: int|
            0 <= j < k < built_jobs(domain, work, end).len() ==> (
            #[trigger] built_jobs(domain, work, end)[j]).position < (
            #[trigger] built_jobs(domain, work, end)[k]).position,
        forall|p: int|
            0 <= p < end && #[trigger] work[p] is Build ==> exists|j: int|
                0 <= j < built_jobs(domain, work, end).len() && (
                #[trigger] built_jobs(domain, work, end)[j]).position == p,
    decreases end,
{
    if end > 0 {
        lemma_jobs_are_builds(domain, work, end - 1);
        let before = built_jobs(domain, work, end - 1);
        let all = built_jobs(domain, work, end);
        assert forall|p: int| 0 <= p < end && #[trigger] work[p] is Build implies exists|j: int|
            0 <= j < all.len() && (#[trigger] all[j]).position == p by {
            if p < end - 1 {
                let j = choose|j: int| 0 <= j < before.len() && (#[trigger] before[j]).position == p;
                assert(all[j] == before[j]);
            } else {
                assert(all[all.len() - 1].position == p);
            }
        }
    }
}

} // verus!
