//! The rounds of an acquisition: after each round of fetches the planner
//! leaves out what it fetched, so that every round has fewer sources to
//! choose from than the one before and the acquisition ends.

use vstd::prelude::*;
use crate::common::Source;
use crate::files::solver::{is_cover, picked, Offer};
use crate::files::{FileAcquisitionError, is_excluded, usable, usable_sources};

verus! {

/// What became of the fetch of one source.
#[derive(Debug)]
pub enum FetchOutcome {
    /// The source was fetched and what it left was indexed. Whether the
    /// blob that was asked for arrived shows when the planner looks at
    /// the catalog again.
    Indexed,
    /// The source could not be reached, or the transfer broke off.
    Unreachable,
    /// What arrived could not be read as what the source was said to
    /// deliver.
    Unusable,
    /// Anything else went wrong: the acquisition ends with this failure.
    Broken(FileAcquisitionError),
}

/// The place of the first outcome at or after `from` that ends the
/// acquisition, or the number of outcomes where none does.
pub open spec fn first_broken(outcomes: Seq<FetchOutcome>, from: int) -> int
    decreases outcomes.len() - from,
{
    if from < 0 || from >= outcomes.len() {
        outcomes.len() as int
    } else if outcomes[from] is Broken {
        from
    } else {
        first_broken(outcomes, from + 1)
    }
}

/// How many of `sources` the planner can still choose from: those that
/// are remote and have not been left out.
pub open spec fn choice(sources: Seq<Source>, excluded: Seq<Source>) -> nat {
    usable_sources(sources, excluded, sources.len() as int).len()
}

/// Settles a round of fetches. Where a fetch ended with a failure that is
/// not the network's, the acquisition ends with the first such failure.
/// Otherwise the planner goes on, and leaves out every source of this
/// round from now on: one that delivered is not needed again, and one that
/// did not is not tried again.
pub fn after_round(excluded: &mut Vec<Source>, fetched: Vec<Source>, outcomes: Vec<FetchOutcome>) -> (res:
    Result<(), FileAcquisitionError>)
    ensures
        res is Ok <==> first_broken(outcomes@, 0) == outcomes@.len(),
        res is Ok ==> final(excluded)@ == old(excluded)@ + fetched@,
        res matches Err(e) ==> final(excluded)@ == old(excluded)@ && outcomes@[first_broken(
            outcomes@,
            0,
        )] == FetchOutcome::Broken(e),
{
    let mut outcomes = outcomes;
    let ghost all = outcomes@;
    let mut n: usize = outcomes.len();
    let mut broken: Option<FileAcquisitionError> = None;
    while n > 0
        invariant
            n <= all.len(),
            outcomes@ == all.take(n as int),
            match broken {
                Some(e) => first_broken(all, n as int) < all.len() && all[first_broken(
                    all,
                    n as int,
                )] == FetchOutcome::Broken(e),
                None => first_broken(all, n as int) == all.len(),
            },
        decreases n,
    {
        let last = outcomes.pop();
        assert(last == Some(all[n - 1]));
        assert(outcomes@ =~= all.take(n - 1));
        match last {
            Some(FetchOutcome::Broken(e)) => {
                broken = Some(e);
            },
            _ => {},
        }
        n = n - 1;
    }
    match broken {
        Some(e) => Err(e),
        None => {
            let mut fetched = fetched;
            excluded.append(&mut fetched);
            Ok(())
        },
    }
}

/// Leaving out more sources leaves no more to choose from.
proof fn lemma_choice_falls(sources: Seq<Source>, excluded: Seq<Source>, more: Seq<Source>, n: int)
    requires
        0 <= n <= sources.len(),
    ensures
        usable_sources(sources, excluded + more, n).len() <= usable_sources(
            sources,
            excluded,
            n,
        ).len(),
    decreases n,
{
    if n > 0 {
        lemma_choice_falls(sources, excluded, more, n - 1);
        let s = sources[n - 1];
        if is_excluded(excluded, s) {
            let k = choose|k: int| 0 <= k < excluded.len() && s.same_key(&#[trigger] excluded[k]);
            assert((excluded + more)[k] == excluded[k]);
            assert(is_excluded(excluded + more, s));
        }
    }
}

/// A round that fetched a source which the planner could choose leaves
/// fewer sources to choose from: the acquisition cannot go round for ever.
pub proof fn lemma_round_shrinks_choice(
    sources: Seq<Source>,
    excluded: Seq<Source>,
    fetched: Seq<Source>,
    j: int,
)
    requires
        fetched.len() > 0,
        0 <= j < sources.len(),
        usable(excluded, sources[j]),
        sources[j].same_key(&fetched[0]),
    ensures
        choice(sources, excluded + fetched) < choice(sources, excluded),
{
    lemma_shrinks_upto(sources, excluded, fetched, j, sources.len() as int);
}

/// Among the first `n` sources, fewer are left to choose from once `n`
/// is past the place of a source that was fetched.
proof fn lemma_shrinks_upto(sources: Seq<Source>, excluded: Seq<Source>, fetched: Seq<Source>, j: int, n: int)
    requires
        fetched.len() > 0,
        0 <= j < n <= sources.len(),
        usable(excluded, sources[j]),
        sources[j].same_key(&fetched[0]),
    ensures
        usable_sources(sources, excluded + fetched, n).len() < usable_sources(
            sources,
            excluded,
            n,
        ).len(),
    decreases n,
{
    let after = excluded + fetched;
    if n - 1 == j {
        lemma_choice_falls(sources, excluded, fetched, n - 1);
        assert(after[excluded.len() as int] == fetched[0]);
        assert(is_excluded(after, sources[j]));
    } else {
        lemma_shrinks_upto(sources, excluded, fetched, j, n - 1);
        let s = sources[n - 1];
        if is_excluded(excluded, s) {
            let k = choose|k: int| 0 <= k < excluded.len() && s.same_key(&#[trigger] excluded[k]);
            assert(after[k] == excluded[k]);
            assert(is_excluded(after, s));
        }
    }
}

/// What a cover of something picks is not empty, and is picked from the
/// sources that it was given.
pub proof fn lemma_cover_picks(offers: Seq<Offer>, required: Seq<i64>, sel: Seq<bool>, sources: Seq<Source>)
    requires
        is_cover(offers, required, sel),
        required.len() > 0,
        sources.len() == offers.len(),
    ensures
        picked(sources, sel, sources.len() as int).len() > 0,
        forall|k: int|
            0 <= k < picked(sources, sel, sources.len() as int).len() ==> sources.contains(
                #[trigger] picked(sources, sel, sources.len() as int)[k],
            ),
{
    assert(crate::files::solver::blob_covered(offers, sel, required[0]));
    let i = choose|i: int|
        0 <= i < offers.len() && sel[i] && (#[trigger] offers[i]).covers.contains(required[0]);
    lemma_picked(sources, sel, sources.len() as int, i);
}

/// What is picked among the first `n` sources are sources among them, and
/// there is one where one of them is selected.
proof fn lemma_picked(sources: Seq<Source>, sel: Seq<bool>, n: int, i: int)
    requires
        0 <= n <= sources.len(),
    ensures
        0 <= i < n && sel[i] ==> picked(sources, sel, n).len() > 0,
        forall|k: int|
            0 <= k < picked(sources, sel, n).len() ==> sources.contains(
                #[trigger] picked(sources, sel, n)[k],
            ),
    decreases n,
{
    if n > 0 {
        lemma_picked(sources, sel, n - 1, i);
        let before = picked(sources, sel, n - 1);
        let after = picked(sources, sel, n);
        assert forall|k: int| 0 <= k < after.len() implies sources.contains(#[trigger] after[k]) by {
            if k < before.len() {
                assert(after[k] == before[k]);
            } else {
                assert(after[k] == sources[n - 1]);
            }
        }
    }
}

} // verus!
