//! Properties that hold across the library's functions.

use vstd::prelude::*;
use crate::order::{
    admitted_only, lemma_admitted_ordered, lemma_prereleases_last, release_precedes, releases_ordered,
    version_precedes, versions_ordered,
};
use crate::package::{Dependency, Package, Range, Release};
use crate::provider::{available_versions, dependencies_of, release_with};
use crate::root::{is_root_requirements, lemma_locked_to_entry, locked_names_unique, locked_to, root_requirement};
use crate::version::{
    Version, VersionView, lemma_version_cmp_antisym, lemma_version_cmp_trans, version_cmp, version_text_of,
};

verus! {

/// A locked package's root requirement is its locked version exactly, whatever
/// the explicit requirements say of it.
pub proof fn lemma_locked_version_is_required_exactly(
    deps: Seq<Dependency>,
    base: Seq<(String, Range)>,
    locked: Seq<(String, Version)>,
    j: int,
)
    requires
        locked_names_unique(locked),
        is_root_requirements(deps, base, locked),
        0 <= j < locked.len(),
    ensures
        exists|k: int| 0 <= k < deps.len() && #[trigger] deps[k].name@ == locked[j].0@
            && deps[k].requirement@ == version_text_of(locked[j].1@),
{
    lemma_locked_to_entry(locked, j);
    let name = locked[j].0@;
    assert(root_requirement(base, locked, name) is Some);
    let k = choose|k: int| 0 <= k < deps.len() && deps[k].name@ == name;
    assert(Some(deps[k].requirement@) == root_requirement(base, locked, deps[k].name@));
}

/// With neither explicit requirements nor locked versions, the root requires
/// nothing.
pub proof fn lemma_no_requirements(deps: Seq<Dependency>)
    requires
        is_root_requirements(deps, Seq::empty(), Seq::empty()),
    ensures
        deps.len() == 0,
{
    if deps.len() > 0 {
        assert(Some(deps[0].requirement@) == root_requirement(Seq::empty(), Seq::empty(), deps[0].name@));
    }
}

/// Without an exact pin every release's version is offered, in the releases'
/// order.
pub proof fn lemma_unpinned_offers_all(releases: Seq<Release>)
    ensures
        available_versions(releases, None) == releases.map_values(|r: Release| r.version@),
    decreases releases.len(),
{
    if releases.len() > 0 {
        lemma_unpinned_offers_all(releases.drop_last());
        assert(releases.map_values(|r: Release| r.version@) =~= releases.drop_last().map_values(
            |r: Release| r.version@,
        ).push(releases.last().version@));
    } else {
        assert(releases.map_values(|r: Release| r.version@) =~= Seq::<VersionView>::empty());
    }
}

/// In releases ordered for the search whose first release is no prerelease,
/// that release is at least as new as every release that is none.
pub proof fn lemma_first_release_is_newest(releases: Seq<Release>, j: int)
    requires
        releases_ordered(releases),
        0 <= j < releases.len(),
        !releases[0].version@.is_pre(),
        !releases[j].version@.is_pre(),
    ensures
        version_cmp(releases[0].version@, releases[j].version@) >= 0,
    decreases j,
{
    let first = releases[0].version@;
    if j == 0 {
        lemma_version_cmp_antisym(first, first);
    } else {
        let prev = releases[j - 1].version@;
        let cur = releases[j].version@;
        if prev.is_pre() {
            lemma_prereleases_last(releases, j - 1, j);
        }
        lemma_first_release_is_newest(releases, j - 1);
        assert(release_precedes(releases[j - 1], releases[(j - 1) + 1]));
        lemma_version_cmp_antisym(prev, cur);
        lemma_version_cmp_antisym(first, prev);
        lemma_version_cmp_trans(cur, prev, first);
        lemma_version_cmp_antisym(cur, first);
    }
}

/// Of a package whose releases are ordered for the search and which has a
/// release that is no prerelease, the first version offered without a pin is
/// no prerelease, and is at least as new as every version that is none.
pub proof fn lemma_unpinned_prefers_newest_non_prerelease(releases: Seq<Release>, i: int)
    requires
        releases_ordered(releases),
        0 <= i < releases.len(),
        !releases[i].version@.is_pre(),
    ensures
        available_versions(releases, None).len() > 0,
        !available_versions(releases, None)[0].is_pre(),
        forall|j: int| 0 <= j < releases.len() && !(#[trigger] releases[j]).version@.is_pre()
            ==> version_cmp(available_versions(releases, None)[0], releases[j].version@) >= 0,
{
    lemma_unpinned_offers_all(releases);
    if releases[0].version@.is_pre() && i > 0 {
        lemma_prereleases_last(releases, 0, i);
    }
    assert forall|j: int| 0 <= j < releases.len() && !(#[trigger] releases[j]).version@.is_pre()
        implies version_cmp(available_versions(releases, None)[0], releases[j].version@) >= 0 by {
        lemma_first_release_is_newest(releases, j);
    }
}

/// Under an exact pin, the pinned version is the only one offered.
pub proof fn lemma_pinned_offers_only_pin(releases: Seq<Release>, pin: VersionView, i: int)
    requires
        0 <= i < available_versions(releases, Some(pin)).len(),
    ensures
        available_versions(releases, Some(pin))[i] == pin,
    decreases releases.len(),
{
    if releases.len() > 0 {
        let rest = available_versions(releases.drop_last(), Some(pin));
        if i < rest.len() {
            lemma_pinned_offers_only_pin(releases.drop_last(), pin, i);
        }
    }
}

/// A retired release is unknown to the search unless its package is locked
/// to its version, and known when it is.
pub proof fn lemma_retired_only_when_locked(p: Package, locked: Seq<(String, Version)>, v: VersionView)
    requires
        release_with(p.releases@, v) matches Some(r) && r.retirement_status is Some,
    ensures
        dependencies_of(p, locked, v) is Some <==> locked_to(locked, p.name@) == Some(v),
{
}

/// Of an ordered list of the versions still allowed for a candidate, the
/// first, which is the one chosen, is no prerelease when the list holds a
/// version that is none, and is then at least as new as every such version.
pub proof fn lemma_choice_prefers_newest_non_prerelease(list: Seq<VersionView>, i: int)
    requires
        versions_ordered(list),
        0 <= i < list.len(),
        !list[i].is_pre(),
    ensures
        !list[0].is_pre(),
        forall|j: int| 0 <= j < list.len() && !(#[trigger] list[j]).is_pre() ==> version_cmp(list[0], list[j]) >= 0,
{
    if i > 0 {
        assert(version_precedes(list[0], list[i]));
    }
    lemma_version_cmp_antisym(list[0], list[0]);
    assert forall|j: int| 0 <= j < list.len() && !(#[trigger] list[j]).is_pre() implies version_cmp(list[0], list[j]) >= 0 by {
        if j > 0 {
            assert(version_precedes(list[0], list[j]));
        }
    }
}

/// Of the versions offered for a candidate, ordered as `list_available_versions`
/// gives them, the first of those that the solver's range admits, which is the
/// one chosen, is a prerelease only where the range admits no version that is
/// none; otherwise it is at least as new as every admitted version that is none.
pub proof fn lemma_admitted_choice_prefers_newest_non_prerelease(offered: Seq<VersionView>, admitted: Seq<bool>, i: int)
    requires
        versions_ordered(offered),
        0 <= i < admitted_only(offered, admitted).len(),
        !admitted_only(offered, admitted)[i].is_pre(),
    ensures
        !admitted_only(offered, admitted)[0].is_pre(),
        forall|j: int| 0 <= j < admitted_only(offered, admitted).len() && !(#[trigger] admitted_only(offered, admitted)[j]).is_pre()
            ==> version_cmp(admitted_only(offered, admitted)[0], admitted_only(offered, admitted)[j]) >= 0,
{
    lemma_admitted_ordered(offered, admitted);
    lemma_choice_prefers_newest_non_prerelease(admitted_only(offered, admitted), i);
}

} // verus!
