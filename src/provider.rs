//! The metadata cache and the policy layer that the solver calls: which
//! versions of a package it may try, and what a chosen version requires.

use vstd::prelude::*;
use crate::order::{
    admitted_only, lemma_releases_ordered_everywhere, order_releases, release_precedes, releases_ordered,
    version_precedes, versions_ordered,
};
use crate::package::{Dependency, Package, Release, duplicate_dependencies};
use crate::root::{locked_names_unique, locked_to, find_locked};
use crate::version::{Version, VersionView};

verus! {

/// The capability that reads a package's releases from a registry.
pub trait PackageFetcher {
    /// The package called `package`, or a description of why it could not be
    /// read.
    fn get_dependencies(&self, package: &str) -> Result<Package, String>;
}

/// What a release requires, as the solver sees it.
#[derive(Clone, Debug, PartialEq, Eq)]
pub enum Dependencies {
    /// The release is absent or may not be chosen.
    Unknown,
    /// The release's requirements.
    Known(Vec<Dependency>),
}

/// No two packages of the list have the same name.
pub open spec fn package_names_unique(s: Seq<Package>) -> bool {
    forall|j: int, k: int| 0 <= j < k < s.len() ==> #[trigger] s[j].name@ != #[trigger] s[k].name@
}

/// The package of the list called `name`, if any.
pub open spec fn cached(s: Seq<Package>, name: Seq<char>) -> Option<Package> {
    if exists|j: int| 0 <= j < s.len() && #[trigger] s[j].name@ == name {
        Some(s[choose|j: int| 0 <= j < s.len() && #[trigger] s[j].name@ == name])
    } else {
        None
    }
}

/// Whether a release may be offered under an exact pin, if there is one.
pub open spec fn permitted(r: Release, pin: Option<VersionView>) -> bool {
    match pin {
        Some(v) => r.version@ == v,
        None => true,
    }
}

/// The versions of the releases that the pin permits, in the releases' order.
pub open spec fn available_versions(releases: Seq<Release>, pin: Option<VersionView>) -> Seq<VersionView>
    decreases releases.len(),
{
    if releases.len() == 0 {
        Seq::empty()
    } else {
        let rest = available_versions(releases.drop_last(), pin);
        if permitted(releases.last(), pin) {
            rest.push(releases.last().version@)
        } else {
            rest
        }
    }
}

proof fn lemma_available_from(releases: Seq<Release>, pin: Option<VersionView>, i: int)
    requires
        0 <= i < available_versions(releases, pin).len(),
    ensures
        exists|k: int| 0 <= k < releases.len() && releases[k].version@ == available_versions(releases, pin)[i],
    decreases releases.len(),
{
    let rest = available_versions(releases.drop_last(), pin);
    if i < rest.len() {
        lemma_available_from(releases.drop_last(), pin, i);
        let k = choose|k: int| 0 <= k < releases.drop_last().len() && releases.drop_last()[k].version@ == rest[i];
        assert(releases[k] == releases.drop_last()[k]);
    } else {
        assert(releases[releases.len() - 1] == releases.last());
    }
}

/// The versions offered from releases ordered for the search are ordered.
pub proof fn lemma_available_ordered(releases: Seq<Release>, pin: Option<VersionView>)
    requires
        releases_ordered(releases),
    ensures
        versions_ordered(available_versions(releases, pin)),
    decreases releases.len(),
{
    if releases.len() > 0 {
        let prefix = releases.drop_last();
        assert forall|i: int| 0 <= i < prefix.len() - 1 implies #[trigger] release_precedes(prefix[i], prefix[i + 1]) by {
            assert(release_precedes(releases[i], releases[i + 1]));
        }
        lemma_available_ordered(prefix, pin);
        let rest = available_versions(prefix, pin);
        let all = available_versions(releases, pin);
        assert forall|i: int, j: int| 0 <= i < j < all.len() implies #[trigger] version_precedes(all[i], all[j]) by {
            if j < rest.len() {
                assert(all[i] == rest[i] && all[j] == rest[j]);
            } else {
                lemma_available_from(prefix, pin, i);
                let k = choose|k: int| 0 <= k < prefix.len() && prefix[k].version@ == rest[i];
                lemma_releases_ordered_everywhere(releases, k, releases.len() - 1);
            }
        }
    }
}

/// The versions of the list that `admitted` marks, in the list's order: the
/// versions that the solver's range for a candidate still allows.
pub fn admitted_versions(versions: &Vec<Version>, admitted: &Vec<bool>) -> (r: Vec<Version>)
    requires
        versions.len() == admitted.len(),
    ensures
        view_versions(r@) == admitted_only(view_versions(versions@), admitted@),
{
    let ghost all = view_versions(versions@);
    let mut r: Vec<Version> = Vec::new();
    let mut i: usize = 0;
    while i < versions.len()
        invariant
            i <= versions.len(),
            versions.len() == admitted.len(),
            all == view_versions(versions@),
            view_versions(r@) == admitted_only(all.subrange(0, i as int), admitted@.subrange(0, i as int)),
        decreases versions.len() - i,
    {
        assert(all.subrange(0, i + 1).drop_last() =~= all.subrange(0, i as int));
        assert(admitted@.subrange(0, i + 1).drop_last() =~= admitted@.subrange(0, i as int));
        if admitted[i] {
            r.push(versions[i].duplicate());
        }
        i = i + 1;
        assert(view_versions(r@) =~= admitted_only(all.subrange(0, i as int), admitted@.subrange(0, i as int)));
    }
    assert(all.subrange(0, all.len() as int) =~= all);
    assert(admitted@.subrange(0, admitted@.len() as int) =~= admitted@);
    r
}

/// The first release of the list with the given version, if any.
pub open spec fn release_with(s: Seq<Release>, v: VersionView) -> Option<Release> {
    if exists|j: int| 0 <= j < s.len() && #[trigger] s[j].version@ == v {
        let j = choose|j: int|
            0 <= j < s.len() && #[trigger] s[j].version@ == v && forall|k: int| 0 <= k < j ==> s[k].version@ != v;
        Some(s[j])
    } else {
        None
    }
}

/// What the solver learns of version `v` of package `p`: `None` for
/// unknown, where no release has that version, or where that release is
/// retired and `p` is not locked to `v`; else the release's requirements.
pub open spec fn dependencies_of(p: Package, locked: Seq<(String, Version)>, v: VersionView) -> Option<Seq<Dependency>> {
    match release_with(p.releases@, v) {
        None => None,
        Some(r) => if r.retirement_status is Some && locked_to(locked, p.name@) != Some(v) {
            None
        } else {
            Some(r.requirements@)
        },
    }
}

/// The values of a list of versions.
pub open spec fn view_versions(s: Seq<Version>) -> Seq<VersionView> {
    s.map_values(|v: Version| v@)
}

/// The index of the package called `name`, if any.
pub fn find_package(s: &Vec<Package>, name: &String) -> (r: Option<usize>)
    ensures
        match r {
            Some(j) => j < s.len() && s@[j as int].name@ == name@,
            None => forall|j: int| 0 <= j < s.len() ==> #[trigger] s@[j].name@ != name@,
        },
{
    let mut j: usize = 0;
    while j < s.len()
        invariant
            j <= s.len(),
            forall|k: int| 0 <= k < j ==> #[trigger] s@[k].name@ != name@,
        decreases s.len() - j,
    {
        if s[j].name == *name {
            return Some(j);
        }
        j = j + 1;
    }
    None
}

proof fn lemma_cached_entry(s: Seq<Package>, j: int)
    requires
        package_names_unique(s),
        0 <= j < s.len(),
    ensures
        cached(s, s[j].name@) == Some(s[j]),
{
    let name = s[j].name@;
    assert(exists|k: int| 0 <= k < s.len() && #[trigger] s[k].name@ == name);
    let k = choose|k: int| 0 <= k < s.len() && #[trigger] s[k].name@ == name;
    if k < j {
        assert(s[k].name@ != s[j].name@);
    } else if j < k {
        assert(s[j].name@ != s[k].name@);
    }
}

/// The root package: version `0.0.0`, one active release whose requirements
/// are `deps`.
pub open spec fn is_root_package(p: Package, name: Seq<char>, deps: Seq<Dependency>) -> bool {
    &&& p.name@ == name
    &&& p.releases@.len() == 1
    &&& p.releases@[0].version@ == (VersionView { major: 0, minor: 0, patch: 0, pre: Seq::empty(), build: None })
    &&& p.releases@[0].requirements@ == deps
    &&& p.releases@[0].retirement_status is None
}

/// The synthetic root package of a resolution.
pub fn root_package(name: &String, requirements: Vec<Dependency>) -> (r: Package)
    ensures
        is_root_package(r, name@, requirements@),
{
    let release = Release {
        version: Version::new(0, 0, 0),
        requirements,
        retirement_status: None,
        outer_checksum: Vec::new(),
    };
    let mut releases: Vec<Release> = Vec::new();
    releases.push(release);
    Package { name: name.clone(), repository: String::from_str("local"), releases }
}

/// `q` is `p` with its releases put in the order of the search.
pub open spec fn reordered(q: Package, p: Package) -> bool {
    &&& q.name == p.name
    &&& q.repository == p.repository
    &&& q.releases@.to_multiset() == p.releases@.to_multiset()
    &&& releases_ordered(q.releases@)
}

/// The package called `n` in `a` is the one in `b` with its releases put in
/// the order of the search, and `a` has one exactly where `b` has one.
pub open spec fn cached_reordered(a: Seq<Package>, b: Seq<Package>, n: Seq<char>) -> bool {
    &&& (cached(a, n) is Some <==> cached(b, n) is Some)
    &&& cached(a, n) is Some ==> reordered(cached(a, n)->Some_0, cached(b, n)->Some_0)
}

/// Every package's releases stand in the order of the search.
pub open spec fn all_ordered(s: Seq<Package>) -> bool {
    forall|j: int| 0 <= j < s.len() ==> releases_ordered(#[trigger] s[j].releases@)
}

/// The packages, each with its releases newest first and every prerelease
/// after every other release.
pub fn order_packages(packages: Vec<Package>) -> (r: Vec<Package>)
    requires
        package_names_unique(packages@),
    ensures
        package_names_unique(r@),
        all_ordered(r@),
        forall|n: Seq<char>| #[trigger] cached_reordered(r@, packages@, n),
{
    let ghost input = packages@;
    let ghost m = packages@.len() as int;
    let mut rest = packages;
    let mut out: Vec<Package> = Vec::new();
    while rest.len() > 0
        invariant
            m == input.len(),
            package_names_unique(input),
            rest@ == input.subrange(0, rest@.len() as int),
            out@.len() + rest@.len() == m,
            forall|k: int| 0 <= k < out@.len() ==> #[trigger] reordered(out@[k], input[m - 1 - k]),
        decreases rest.len(),
    {
        let p = rest.pop().unwrap();
        let ghost k = out@.len() as int;
        assert(p == input[m - 1 - k]);
        let releases = order_releases(p.releases);
        out.push(Package { name: p.name, repository: p.repository, releases });
        assert(reordered(out@[k], input[m - 1 - k]));
        assert(rest@ =~= input.subrange(0, rest@.len() as int));
    }
    proof {
        assert forall|j: int, k: int| 0 <= j < k < out@.len() implies #[trigger] out@[j].name@ != #[trigger] out@[k].name@ by {
            assert(reordered(out@[j], input[m - 1 - j]));
            assert(reordered(out@[k], input[m - 1 - k]));
            assert(input[m - 1 - k].name@ != input[m - 1 - j].name@);
        }
        assert forall|j: int| 0 <= j < out@.len() implies releases_ordered(#[trigger] out@[j].releases@) by {
            assert(reordered(out@[j], input[m - 1 - j]));
        }
        assert forall|n: Seq<char>| #[trigger] cached_reordered(out@, input, n) by {
            if exists|j: int| 0 <= j < input.len() && #[trigger] input[j].name@ == n {
                let j = choose|j: int| 0 <= j < input.len() && #[trigger] input[j].name@ == n;
                let k = m - 1 - j;
                assert(reordered(out@[k], input[m - 1 - k]));
                lemma_cached_entry(input, j);
                lemma_cached_entry(out@, k);
            } else {
                assert forall|k: int| 0 <= k < out@.len() implies #[trigger] out@[k].name@ != n by {
                    assert(reordered(out@[k], input[m - 1 - k]));
                }
            }
        }
    }
    out
}

/// The metadata cache, filled on demand through the fetch capability, with
/// the locked versions and the exact pins of one resolution.
pub struct DependencyProvider<F: PackageFetcher> {
    pub packages: Vec<Package>,
    pub remote: F,
    pub locked: Vec<(String, Version)>,
    /// Packages whose requirement pins one exact version.
    pub exact_only: Vec<(String, Version)>,
    /// The synthetic root package's name and requirements.
    pub root_name: String,
    pub root_requirements: Vec<Dependency>,
}

impl<F: PackageFetcher> DependencyProvider<F> {
    pub open spec fn wf(&self) -> bool {
        &&& package_names_unique(self.packages@)
        &&& locked_names_unique(self.locked@)
        &&& locked_names_unique(self.exact_only@)
        &&& all_ordered(self.packages@)
        &&& cached(self.packages@, self.root_name@) matches Some(p)
            && is_root_package(p, self.root_name@, self.root_requirements@)
    }

    /// A provider over the given packages, which are used without a fetch and
    /// whose releases are put in the order of the search, and the root package with the given name and requirements, which
    /// replaces any package of the same name.
    pub fn new(
        remote: F,
        packages: Vec<Package>,
        root_name: String,
        root_requirements: Vec<Dependency>,
        locked: Vec<(String, Version)>,
        exact_only: Vec<(String, Version)>,
    ) -> (r: Self)
        requires
            package_names_unique(packages@),
            locked_names_unique(locked@),
            locked_names_unique(exact_only@),
        ensures
            r.wf(),
            r.locked == locked,
            r.exact_only == exact_only,
            r.root_name == root_name,
            r.root_requirements == root_requirements,
            cached(r.packages@, root_name@) matches Some(p) && is_root_package(p, root_name@, root_requirements@),
            forall|n: Seq<char>| n != root_name@ ==> #[trigger] cached_reordered(r.packages@, packages@, n),
    {
        let root = root_package(&root_name, duplicate_dependencies(&root_requirements));
        let ghost given = packages@;
        let mut packages = order_packages(packages);
        let ghost before = packages@;
        let ghost root_view = root.name@;
        match find_package(&packages, &root.name) {
            Some(k) => {
                packages.set(k, root);
                proof {
                    lemma_cached_entry(packages@, k as int);
                    assert forall|n: Seq<char>| n != root_view implies #[trigger] cached(packages@, n) == cached(before, n) by {
                        if exists|j: int| 0 <= j < before.len() && #[trigger] before[j].name@ == n {
                            let j = choose|j: int| 0 <= j < before.len() && #[trigger] before[j].name@ == n;
                            lemma_cached_entry(before, j);
                            lemma_cached_entry(packages@, j);
                        } else {
                            assert forall|j: int| 0 <= j < packages@.len() implies #[trigger] packages@[j].name@ != n by {
                                if j != k {
                                    assert(packages@[j] == before[j]);
                                }
                            }
                        }
                    }
                }
            },
            None => {
                packages.push(root);
                proof {
                    lemma_cached_entry(packages@, before.len() as int);
                    assert forall|n: Seq<char>| n != root_view implies #[trigger] cached(packages@, n) == cached(before, n) by {
                        if exists|j: int| 0 <= j < before.len() && #[trigger] before[j].name@ == n {
                            let j = choose|j: int| 0 <= j < before.len() && #[trigger] before[j].name@ == n;
                            lemma_cached_entry(before, j);
                            lemma_cached_entry(packages@, j);
                        } else {
                            assert forall|j: int| 0 <= j < packages@.len() implies #[trigger] packages@[j].name@ != n by {
                                if j < before.len() {
                                    assert(packages@[j] == before[j]);
                                }
                            }
                        }
                    }
                }
            },
        }
        assert forall|n: Seq<char>| n != root_name@ implies #[trigger] cached_reordered(packages@, given, n) by {
            assert(cached(packages@, n) == cached(before, n));
            assert(cached_reordered(before, given, n));
        }
        DependencyProvider { packages, remote, locked, exact_only, root_name, root_requirements }
    }

    /// Reads the package called `name` into the cache unless it is there
    /// already. A fetched package's releases are stored newest first, every
    /// prerelease after every other release. A failed fetch leaves the cache
    /// as it was.
    pub fn ensure_package_fetched(&mut self, name: &String) -> (r: Result<(), String>)
        requires
            old(self).wf(),
        ensures
            final(self).wf(),
            final(self).locked == old(self).locked,
            final(self).exact_only == old(self).exact_only,
            final(self).root_name == old(self).root_name,
            final(self).root_requirements == old(self).root_requirements,
            cached(old(self).packages@, name@) is Some ==> r is Ok && final(self).packages@ == old(self).packages@,
            r is Err ==> final(self).packages@ == old(self).packages@,
            r is Ok ==> cached(final(self).packages@, name@) is Some,
            r is Ok && cached(old(self).packages@, name@) is None ==> releases_ordered(
                cached(final(self).packages@, name@)->Some_0.releases@,
            ),
            forall|n: Seq<char>| n != name@ ==> #[trigger] cached(final(self).packages@, n) == cached(old(self).packages@, n),
    {
        if let Some(j) = find_package(&self.packages, name) {
            proof {
                lemma_cached_entry(self.packages@, j as int);
            }
            return Ok(());
        }
        let fetched = self.remote.get_dependencies(name.as_str());
        self.store_fetched(name, fetched)
    }

    /// Takes what the fetch capability returned for `name`, which is not
    /// cached: an error is handed back unchanged and leaves the cache as it
    /// was; a package is stored under `name` with its repository, and with its
    /// releases newest first, every prerelease after every other release.
    pub fn store_fetched(&mut self, name: &String, fetched: Result<Package, String>) -> (r: Result<(), String>)
        requires
            old(self).wf(),
            cached(old(self).packages@, name@) is None,
        ensures
            final(self).wf(),
            final(self).locked == old(self).locked,
            final(self).exact_only == old(self).exact_only,
            final(self).root_name == old(self).root_name,
            final(self).root_requirements == old(self).root_requirements,
            forall|n: Seq<char>| n != name@ ==> #[trigger] cached(final(self).packages@, n) == cached(old(self).packages@, n),
            match fetched {
                Err(e) => r == Err::<(), String>(e) && final(self).packages@ == old(self).packages@,
                Ok(p) => {
                    &&& r is Ok
                    &&& final(self).packages@.drop_last() == old(self).packages@
                    &&& final(self).packages@.len() == old(self).packages@.len() + 1
                    &&& cached(final(self).packages@, name@) == Some(final(self).packages@.last())
                    &&& final(self).packages@.last().name@ == name@
                    &&& final(self).packages@.last().repository == p.repository
                    &&& final(self).packages@.last().releases@.to_multiset() == p.releases@.to_multiset()
                    &&& releases_ordered(final(self).packages@.last().releases@)
                },
            },
    {
        match fetched {
            Err(e) => Err(e),
            Ok(package) => {
                let releases = order_releases(package.releases);
                let ghost before = self.packages@;
                self.packages.push(Package { name: name.clone(), repository: package.repository, releases });
                proof {
                    assert(self.packages@.drop_last() =~= before);
                    assert forall|j: int, k: int| 0 <= j < k < self.packages@.len() implies #[trigger] self.packages@[j].name@
                        != #[trigger] self.packages@[k].name@ by {
                        if k == before.len() {
                            assert(before[j].name@ != name@);
                        } else {
                            assert(before[j].name@ != before[k].name@);
                        }
                    }
                    lemma_cached_entry(self.packages@, before.len() as int);
                    assert forall|n: Seq<char>| n != name@ implies #[trigger] cached(self.packages@, n) == cached(before, n) by {
                        if exists|j: int| 0 <= j < before.len() && #[trigger] before[j].name@ == n {
                            let j = choose|j: int| 0 <= j < before.len() && #[trigger] before[j].name@ == n;
                            lemma_cached_entry(before, j);
                            lemma_cached_entry(self.packages@, j);
                        } else {
                            assert forall|j: int| 0 <= j < self.packages@.len() implies #[trigger] self.packages@[j].name@ != n by {
                                if j < before.len() {
                                    assert(self.packages@[j] == before[j]);
                                }
                            }
                        }
                    }
                }
                Ok(())
            },
        }
    }

    /// The versions of package `name` that the search may try, ordered newest
    /// first with prereleases last: every version where the package has no exact
    /// pin, else the pinned version alone if a release has it.
    pub fn list_available_versions(&mut self, name: &String) -> (r: Result<Vec<Version>, String>)
        requires
            old(self).wf(),
        ensures
            final(self).wf(),
            final(self).locked == old(self).locked,
            final(self).exact_only == old(self).exact_only,
            final(self).root_name == old(self).root_name,
            final(self).root_requirements == old(self).root_requirements,
            cached(old(self).packages@, name@) is Some ==> r is Ok && final(self).packages@ == old(self).packages@,
            r is Err ==> final(self).packages@ == old(self).packages@,
            forall|n: Seq<char>| n != name@ ==> #[trigger] cached(final(self).packages@, n) == cached(old(self).packages@, n),
            match r {
                Ok(vs) => {
                    &&& cached(final(self).packages@, name@) is Some
                    &&& view_versions(vs@) == available_versions(
                        cached(final(self).packages@, name@)->Some_0.releases@,
                        locked_to(old(self).exact_only@, name@),
                    )
                    &&& versions_ordered(view_versions(vs@))
                },
                Err(_) => true,
            },
    {
        let fetched = self.ensure_package_fetched(name);
        if let Err(e) = fetched {
            return Err(e);
        }
        let j = find_package(&self.packages, name).unwrap();
        proof {
            lemma_cached_entry(self.packages@, j as int);
        }
        let pin = find_locked(&self.exact_only, name);
        proof {
            if let Some(k) = pin {
                crate::root::lemma_locked_to_entry(self.exact_only@, k as int);
            }
        }
        let ghost pin_view = locked_to(self.exact_only@, name@);
        let releases = &self.packages[j].releases;
        let mut out: Vec<Version> = Vec::new();
        let mut i: usize = 0;
        while i < releases.len()
            invariant
                i <= releases.len(),
                view_versions(out@) == available_versions(releases@.subrange(0, i as int), pin_view),
                pin_view == match pin {
                    Some(k) => Some(self.exact_only@[k as int].1@),
                    None => None::<VersionView>,
                },
                pin matches Some(k) ==> k < self.exact_only.len(),
            decreases releases.len() - i,
        {
            let ghost upto = releases@.subrange(0, i + 1);
            assert(upto.drop_last() =~= releases@.subrange(0, i as int));
            let allowed = match pin {
                Some(k) => releases[i].version.same(&self.exact_only[k].1),
                None => true,
            };
            if allowed {
                out.push(releases[i].version.duplicate());
            }
            i = i + 1;
            assert(view_versions(out@) =~= available_versions(releases@.subrange(0, i as int), pin_view));
        }
        assert(releases@.subrange(0, releases.len() as int) =~= releases@);
        proof {
            assert(releases_ordered(self.packages@[j as int].releases@));
            lemma_available_ordered(releases@, pin_view);
        }
        Ok(out)
    }

    /// What version `version` of package `name` requires: for the root
    /// package its requirements, whatever the version; for another package
    /// `Unknown` where no release has that version, or where the release is
    /// retired and the package is not locked to that version, else the
    /// release's requirements.
    pub fn get_dependencies(&mut self, name: &String, version: &Version) -> (r: Result<Dependencies, String>)
        requires
            old(self).wf(),
        ensures
            final(self).wf(),
            final(self).locked == old(self).locked,
            final(self).exact_only == old(self).exact_only,
            final(self).root_name == old(self).root_name,
            final(self).root_requirements == old(self).root_requirements,
            cached(old(self).packages@, name@) is Some ==> r is Ok && final(self).packages@ == old(self).packages@,
            r is Err ==> final(self).packages@ == old(self).packages@,
            forall|n: Seq<char>| n != name@ ==> #[trigger] cached(final(self).packages@, n) == cached(old(self).packages@, n),
            name@ == old(self).root_name@ ==> (final(self).packages@ == old(self).packages@ && (r matches Ok(
                Dependencies::Known(deps),
            ) && deps@ == old(self).root_requirements@)),
            match r {
                Ok(d) => name@ != old(self).root_name@ ==> cached(final(self).packages@, name@) is Some && match d {
                    Dependencies::Unknown => dependencies_of(cached(final(self).packages@, name@)->Some_0, old(self).locked@, version@) is None,
                    Dependencies::Known(deps) => dependencies_of(cached(final(self).packages@, name@)->Some_0, old(self).locked@, version@) == Some(deps@),
                },
                Err(_) => true,
            },
    {
        if *name == self.root_name {
            return Ok(Dependencies::Known(duplicate_dependencies(&self.root_requirements)));
        }
        let fetched = self.ensure_package_fetched(name);
        if let Err(e) = fetched {
            return Err(e);
        }
        let j = find_package(&self.packages, name).unwrap();
        proof {
            lemma_cached_entry(self.packages@, j as int);
        }
        let releases = &self.packages[j].releases;
        let mut i: usize = 0;
        while i < releases.len() && !releases[i].version.same(version)
            invariant
                i <= releases.len(),
                forall|k: int| 0 <= k < i ==> #[trigger] releases@[k].version@ != version@,
            decreases releases.len() - i,
        {
            i = i + 1;
        }
        if i == releases.len() {
            return Ok(Dependencies::Unknown);
        }
        let release = &releases[i];
        proof {
            let v = version@;
            let s = releases@;
            assert(exists|j: int| 0 <= j < s.len() && #[trigger] s[j].version@ == v);
            let c = choose|j: int|
                0 <= j < s.len() && #[trigger] s[j].version@ == v && forall|k: int| 0 <= k < j ==> s[k].version@ != v;
            assert(0 <= i < s.len() && s[i as int].version@ == v && forall|k: int| 0 <= k < i ==> s[k].version@ != v);
            if c < i {
                assert(s[c].version@ != v);
            } else if c > i {
                assert(s[i as int].version@ != v);
            }
            assert(release_with(s, v) == Some(s[i as int]));
        }
        if release.is_retired() {
            let lock = find_locked(&self.locked, name);
            proof {
                if let Some(k) = lock {
                    crate::root::lemma_locked_to_entry(self.locked@, k as int);
                }
            }
            let pinned = match lock {
                Some(k) => self.locked[k].1.same(version),
                None => false,
            };
            if !pinned {
                return Ok(Dependencies::Unknown);
            }
        }
        Ok(Dependencies::Known(duplicate_dependencies(&release.requirements)))
    }
}

/// The candidate with the fewest versions, the first of them where several
/// tie, and its first version if it has any. Each list holds the versions of
/// one candidate package that the search may still try, in order of
/// preference: deciding the most constrained package first brings conflicts
/// to light early.
pub fn choose_package_with_fewest_versions(candidates: &Vec<Vec<Version>>) -> (r: (usize, Option<Version>))
    requires
        candidates.len() > 0,
    ensures
        r.0 < candidates.len(),
        forall|j: int| 0 <= j < candidates.len() ==> (#[trigger] candidates@[j]).len() >= candidates@[r.0 as int].len(),
        forall|j: int| 0 <= j < r.0 ==> (#[trigger] candidates@[j]).len() > candidates@[r.0 as int].len(),
        match r.1 {
            Some(v) => candidates@[r.0 as int].len() > 0 && v@ == candidates@[r.0 as int][0]@,
            None => candidates@[r.0 as int].len() == 0,
        },
{
    let mut best: usize = 0;
    let mut j: usize = 1;
    while j < candidates.len()
        invariant
            1 <= j <= candidates.len(),
            best < j,
            forall|k: int| 0 <= k < j ==> (#[trigger] candidates@[k]).len() >= candidates@[best as int].len(),
            forall|k: int| 0 <= k < best ==> (#[trigger] candidates@[k]).len() > candidates@[best as int].len(),
        decreases candidates.len() - j,
    {
        if candidates[j].len() < candidates[best].len() {
            best = j;
        }
        j = j + 1;
    }
    if candidates[best].len() == 0 {
        (best, None)
    } else {
        (best, Some(candidates[best][0].duplicate()))
    }
}

} // verus!
