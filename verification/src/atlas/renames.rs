//! Refiling prepared images under their providers.

use crate::atlas::error::AtlasError;
use crate::list::reversed;
use crate::text_map::TextMap;
use vstd::prelude::*;

verus! {

/// The images that are left when the first `count` prepared keys are lifted.
pub open spec fn lifted<V>(
    images: Map<Seq<char>, V>,
    renames: Seq<(String, String)>,
    count: int,
) -> Map<Seq<char>, V>
    decreases count,
{
    if count <= 0 {
        images
    } else {
        lifted(images, renames, count - 1).remove(renames[count - 1].0@)
    }
}

/// The images after the first `count` lifted ones are filed under their providers.
pub open spec fn refiled<V>(
    images: Map<Seq<char>, V>,
    renames: Seq<(String, String)>,
    count: int,
) -> Map<Seq<char>, V>
    decreases count,
{
    if count <= 0 {
        lifted(images, renames, renames.len() as int)
    } else {
        refiled(images, renames, count - 1).insert(
            renames[count - 1].1@,
            images[renames[count - 1].0@],
        )
    }
}

/// The image of rename `i` is still there when its turn to be lifted comes.
pub open spec fn liftable<V>(
    images: Map<Seq<char>, V>,
    renames: Seq<(String, String)>,
    i: int,
) -> bool {
    lifted(images, renames, i).dom().contains(renames[i].0@)
}

/// Nothing is filed under the provider of rename `i` when its turn comes.
pub open spec fn unclaimed<V>(
    images: Map<Seq<char>, V>,
    renames: Seq<(String, String)>,
    i: int,
) -> bool {
    !refiled(images, renames, i).dom().contains(renames[i].1@)
}

/// All images can be lifted.
pub open spec fn all_liftable<V>(
    images: Map<Seq<char>, V>,
    renames: Seq<(String, String)>,
) -> bool {
    forall|i: int| 0 <= i < renames.len() ==> #[trigger] liftable(images, renames, i)
}

/// What is left after lifting keeps its image.
proof fn lemma_lifted_keeps<V>(
    images: Map<Seq<char>, V>,
    renames: Seq<(String, String)>,
    count: int,
)
    ensures
        lifted(images, renames, count).submap_of(images),
    decreases count,
{
    if count > 0 {
        lemma_lifted_keeps(images, renames, count - 1);
        let before = lifted(images, renames, count - 1);
        let now = lifted(images, renames, count);
        assert(now == before.remove(renames[count - 1].0@));
        assert forall|key: Seq<char>| now.dom().contains(key) implies #[trigger] images.dom().contains(key)
            && now[key] == images[key] by {
            assert(before.dom().contains(key));
        }
    }
}

/// Refiles prepared images under the provider keys chosen by allocation.
///
/// Images are lifted before reinsertion so rename chains are order-independent.
///
/// # Errors
///
/// Fails closed when a prepared image is missing or two groups claim the same provider key. Both
/// are internal inconsistencies, since groups partition the logical keys.
pub fn apply_provider_renames<V>(
    images: &mut TextMap<V>,
    renames: &[(String, String)],
) -> (r: Result<(), AtlasError>)
    requires
        old(images).wf(),
    ensures
        final(images).wf(),
        match r {
            Ok(_) => {
                &&& all_liftable(old(images)@, renames@)
                &&& forall|i: int|
                    0 <= i < renames@.len() ==> #[trigger] unclaimed(old(images)@, renames@, i)
                &&& final(images)@ == refiled(old(images)@, renames@, renames@.len() as int)
            },
            Err(e) => {
                ||| e == AtlasError::PreparedImageMissing && !all_liftable(old(images)@, renames@)
                ||| e == AtlasError::ProviderClaimedTwice && all_liftable(old(images)@, renames@)
                    && exists|i: int|
                    0 <= i < renames@.len() && !#[trigger] unclaimed(old(images)@, renames@, i)
            },
        },
{
    let ghost start = images@;
    let mut taken: Vec<V> = Vec::new();
    let mut i: usize = 0;
    while i < renames.len()
        invariant
            i <= renames@.len(),
            start == old(images)@,
            images.wf(),
            images@ == lifted(start, renames@, i as int),
            taken@.len() == i,
            forall|k: int| 0 <= k < i ==> #[trigger] liftable(start, renames@, k),
            forall|k: int| 0 <= k < i ==> #[trigger] taken@[k] == start[renames@[k].0@],
        decreases renames@.len() - i,
    {
        proof {
            lemma_lifted_keeps(start, renames@, i as int);
            assert(images@.submap_of(start));
        }
        let ghost before = images@;
        match images.remove(renames[i].0.as_str()) {
            Some(image) => {
                assert(liftable(start, renames@, i as int));
                assert(before.dom().contains(renames@[i as int].0@));
                assert(start.dom().contains(renames@[i as int].0@));
                assert(image == start[renames@[i as int].0@]);
                taken.push(image);
            },
            None => {
                assert(!liftable(start, renames@, i as int));
                return Err(AtlasError::PreparedImageMissing);
            },
        }
        i = i + 1;
    }
    // Lifted images wait in reverse, so that the next one is last.
    let ghost lifted_images = taken@;
    let mut waiting: Vec<V> = reversed(taken);
    assert(waiting@.reverse() =~= lifted_images);
    let mut j: usize = 0;
    assert(lifted_images.skip(0) =~= lifted_images);
    while j < renames.len()
        invariant
            j <= renames@.len(),
            start == old(images)@,
            images.wf(),
            images@ == refiled(start, renames@, j as int),
            lifted_images.len() == renames@.len(),
            lifted_images.skip(j as int) == waiting@.reverse(),
            all_liftable(start, renames@),
            forall|k: int|
                0 <= k < renames@.len() ==> #[trigger] lifted_images[k] == start[renames@[k].0@],
            forall|k: int| 0 <= k < j ==> #[trigger] unclaimed(start, renames@, k),
        decreases renames@.len() - j,
    {
        proof {
            assert(waiting@.reverse().len() == waiting@.len());
            assert(lifted_images.skip(j as int).len() == renames@.len() - j);
            assert(lifted_images.skip(j as int)[0] == lifted_images[j as int]);
            assert(lifted_images.skip(j + 1) =~= lifted_images.skip(j as int).drop_first());
        }
        let ghost queue = waiting@;
        let image = waiting.pop().unwrap();
        proof {
            assert(queue.reverse()[0] == image);
            assert(queue.reverse().drop_first() =~= waiting@.reverse());
        }
        let fresh = images.insert(renames[j].1.clone(), image);
        if !fresh {
            assert(!unclaimed(start, renames@, j as int));
            return Err(AtlasError::ProviderClaimedTwice);
        }
        assert(unclaimed(start, renames@, j as int));
        j = j + 1;
    }
    Ok(())
}

} // verus!
