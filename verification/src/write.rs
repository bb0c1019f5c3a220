//! Checks on statics before they are written.

use crate::atlas::apply::DistantStatics;
use crate::model::Subset;
use crate::record_key::{is_merged_key, StaticRecordKey};
use vstd::prelude::*;

verus! {

/// Why a subset may not be written under a key.
#[derive(Debug, PartialEq, Eq)]
pub enum ProvenanceError {
    /// An ordinary static holds merged components.
    OrdinaryWithComponents { key: String },
    /// A merged static holds a subset without components.
    MergedWithoutComponents { key: String },
}

/// The subset of this many components may be written under the key: those of merged statics have
/// components, all others have none.
pub open spec fn provenance_fits(key: Seq<char>, component_count: nat) -> bool {
    is_merged_key(key) <==> component_count > 0
}

/// The error is that of the subset.
pub open spec fn refuses(key: Seq<char>, component_count: nat, error: ProvenanceError) -> bool {
    !provenance_fits(key, component_count) && match error {
        ProvenanceError::OrdinaryWithComponents { key: named } => named@ == key && !is_merged_key(
            key,
        ),
        ProvenanceError::MergedWithoutComponents { key: named } => named@ == key && is_merged_key(
            key,
        ),
    }
}

/// Whether a subset of this many components may be written under the key.
pub fn validate_subset_provenance(key: &str, component_count: usize) -> (r: Result<
    (),
    ProvenanceError,
>)
    ensures
        match r {
            Ok(_) => provenance_fits(key@, component_count as nat),
            Err(error) => refuses(key@, component_count as nat, error),
        },
{
    match StaticRecordKey::parse(key) {
        StaticRecordKey::Mesh { .. } => if component_count > 0 {
            Err(ProvenanceError::OrdinaryWithComponents { key: key.to_owned() })
        } else {
            Ok(())
        },
        StaticRecordKey::Merged { .. } => if component_count == 0 {
            Err(ProvenanceError::MergedWithoutComponents { key: key.to_owned() })
        } else {
            Ok(())
        },
    }
}

/// All subsets may be written under the key.
pub open spec fn subsets_fit(key: Seq<char>, subsets: Seq<Subset>) -> bool {
    forall|i: int|
        0 <= i < subsets.len() ==> provenance_fits(
            key,
            (#[trigger] subsets[i]).components@.len(),
        )
}

/// The first subset that does not fit is the one at `i`, and the error is its own.
pub open spec fn subset_refused(
    key: Seq<char>,
    subsets: Seq<Subset>,
    i: int,
    error: ProvenanceError,
) -> bool {
    &&& 0 <= i < subsets.len()
    &&& subsets_fit(key, subsets.take(i))
    &&& refuses(key, subsets[i].components@.len(), error)
}

/// The first static that does not fit is the one at `i`, and the error is that of its first subset
/// that does not.
pub open spec fn static_refused(
    statics: Seq<(String, crate::model::DistantStatic)>,
    i: int,
    error: ProvenanceError,
) -> bool {
    &&& 0 <= i < statics.len()
    &&& forall|k: int|
        0 <= k < i ==> subsets_fit((#[trigger] statics[k]).0@, statics[k].1.subsets@)
    &&& exists|j: int| #[trigger]
        subset_refused(statics[i].0@, statics[i].1.subsets@, j, error)
}

fn validate_subsets(key: &str, subsets: &Vec<Subset>) -> (r: Result<(), ProvenanceError>)
    ensures
        match r {
            Ok(_) => subsets_fit(key@, subsets@),
            Err(error) => exists|j: int| #[trigger] subset_refused(key@, subsets@, j, error),
        },
{
    let mut i: usize = 0;
    while i < subsets.len()
        invariant
            i <= subsets@.len(),
            subsets_fit(key@, subsets@.take(i as int)),
        decreases subsets@.len() - i,
    {
        if let Err(error) = validate_subset_provenance(key, subsets[i].components.len()) {
            assert(subset_refused(key@, subsets@, i as int, error));
            return Err(error);
        }
        proof {
            let next = subsets@.take(i + 1);
            assert forall|k: int| 0 <= k < next.len() implies provenance_fits(
                key@,
                (#[trigger] next[k]).components@.len(),
            ) by {
                if k < i {
                    assert(next[k] == subsets@.take(i as int)[k]);
                } else {
                    assert(next[k] == subsets@[i as int]);
                }
            }
        }
        i = i + 1;
    }
    assert(subsets@.take(i as int) =~= subsets@);
    Ok(())
}

/// Whether every subset may be written under its static's key.
pub fn validate_statics(statics: &DistantStatics) -> (r: Result<(), ProvenanceError>)
    ensures
        match r {
            Ok(_) => forall|k: int|
                0 <= k < statics@.len() ==> subsets_fit(
                    (#[trigger] statics@[k]).0@,
                    statics@[k].1.subsets@,
                ),
            Err(error) => exists|i: int| #[trigger] static_refused(statics@, i, error),
        },
{
    let mut i: usize = 0;
    while i < statics.len()
        invariant
            i <= statics@.len(),
            forall|k: int|
                0 <= k < i ==> subsets_fit(
                    (#[trigger] statics@[k]).0@,
                    statics@[k].1.subsets@,
                ),
        decreases statics@.len() - i,
    {
        if let Err(error) = validate_subsets(statics[i].0.as_str(), &statics[i].1.subsets) {
            assert(static_refused(statics@, i as int, error));
            return Err(error);
        }
        i = i + 1;
    }
    Ok(())
}

} // verus!
