//! What a resolution does before and after the search: the synthetic root
//! package, the exact-pin set, the provider over both, and the solution
//! without the root.

use vstd::prelude::*;
use crate::error::ResolveError;
use crate::exact::{exact_pin, parse_exact_version};
use crate::package::{Dependency, Package, Range};
use crate::provider::{
    DependencyProvider, PackageFetcher, cached, cached_reordered, is_root_package, package_names_unique,
};
use crate::root::{
    dependency_names_unique, is_root_requirements, lock_check, lock_failure, locked_names_unique,
    root_dependencies,
};
use crate::version::{Version, VersionView};

verus! {

/// Some requirement on `name` pins exactly `v`.
pub open spec fn pinned_by(deps: Seq<Dependency>, name: Seq<char>, v: VersionView) -> bool {
    exists|k: int| 0 <= k < deps.len() && deps[k].name@ == name && exact_pin(deps[k].requirement@) == Some(v)
}

/// One of the first `i` requirements is on `name`.
pub open spec fn named_before(deps: Seq<Dependency>, i: int, name: Seq<char>) -> bool {
    exists|k: int| 0 <= k < i && #[trigger] deps[k].name@ == name
}

/// Some pin is for `name`.
pub open spec fn has_pin(pins: Seq<(String, Version)>, name: Seq<char>) -> bool {
    exists|j: int| 0 <= j < pins.len() && pins[j].0@ == name
}

/// The exact pins of a list of requirements: one entry for each requirement
/// that pins a version exactly.
pub open spec fn is_exact_pins(pins: Seq<(String, Version)>, deps: Seq<Dependency>) -> bool {
    &&& locked_names_unique(pins)
    &&& forall|j: int| 0 <= j < pins.len() ==> pinned_by(deps, (#[trigger] pins[j]).0@, pins[j].1@)
    &&& forall|k: int| 0 <= k < deps.len() && (#[trigger] exact_pin(deps[k].requirement@)) is Some
        ==> has_pin(pins, deps[k].name@)
}

/// The packages among the requirements whose requirement pins one version
/// exactly, each with that version.
pub fn exact_versions(requirements: &Vec<Dependency>) -> (r: Vec<(String, Version)>)
    requires
        dependency_names_unique(requirements@),
    ensures
        is_exact_pins(r@, requirements@),
{
    let mut pins: Vec<(String, Version)> = Vec::new();
    let mut i: usize = 0;
    while i < requirements.len()
        invariant
            i <= requirements.len(),
            dependency_names_unique(requirements@),
            locked_names_unique(pins@),
            forall|j: int| 0 <= j < pins.len() ==> named_before(requirements@, i as int, (#[trigger] pins@[j]).0@),
            forall|j: int| 0 <= j < pins.len() ==> pinned_by(requirements@, (#[trigger] pins@[j]).0@, pins@[j].1@),
            forall|k: int| 0 <= k < i && (#[trigger] exact_pin(requirements@[k].requirement@)) is Some
                ==> has_pin(pins@, requirements@[k].name@),
        decreases requirements.len() - i,
    {
        let dep = &requirements[i];
        if let Some(v) = parse_exact_version(dep.requirement.as_str()) {
            let ghost before = pins@;
            pins.push((dep.name.clone(), v));
            proof {
                assert forall|j: int, k: int| 0 <= j < k < pins@.len() implies #[trigger] pins@[j].0@
                    != #[trigger] pins@[k].0@ by {
                    if k == before.len() {
                        assert(pins@[j] == before[j]);
                        let m = choose|m: int| 0 <= m < i && #[trigger] requirements@[m].name@ == before[j].0@;
                        assert(requirements@[m].name@ != requirements@[i as int].name@);
                    } else {
                        assert(before[j].0@ != before[k].0@);
                    }
                }
                assert forall|j: int| 0 <= j < pins.len() implies named_before(requirements@, i + 1, (#[trigger] pins@[j]).0@) by {
                    if j == before.len() {
                        assert(requirements@[i as int].name@ == pins@[j].0@);
                    } else {
                        assert(pins@[j] == before[j]);
                        let m = choose|m: int| 0 <= m < i && #[trigger] requirements@[m].name@ == before[j].0@;
                        assert(requirements@[m].name@ == pins@[j].0@);
                    }
                }
                assert forall|j: int| 0 <= j < pins.len() implies pinned_by(requirements@, (#[trigger] pins@[j]).0@, pins@[j].1@) by {
                    if j == before.len() {
                        assert(requirements@[i as int].name@ == pins@[j].0@);
                    } else {
                        assert(pins@[j] == before[j]);
                    }
                }
                assert forall|k: int| 0 <= k < i + 1 && (#[trigger] exact_pin(requirements@[k].requirement@)) is Some
                    implies has_pin(pins@, requirements@[k].name@) by {
                    if k == i {
                        assert(pins@[before.len() as int].0@ == requirements@[k].name@);
                    } else {
                        let j = choose|j: int| 0 <= j < before.len() && before[j].0@ == requirements@[k].name@;
                        assert(pins@[j] == before[j]);
                    }
                }
            }
        }
        i = i + 1;
    }
    pins
}

/// Everything a search needs before it starts: the root requirements are
/// merged from the locked versions and the explicit requirements, the exact
/// pins are read from them, and the provider holds the given packages with
/// the root package. Fails as `root_dependencies` does.
pub fn resolution_provider<F: PackageFetcher>(
    remote: F,
    provided_packages: Vec<Package>,
    root_name: &String,
    dependencies: &Vec<(String, Range)>,
    locked: Vec<(String, Version)>,
) -> (r: Result<DependencyProvider<F>, ResolveError>)
    requires
        package_names_unique(provided_packages@),
        locked_names_unique(locked@),
    ensures
        match r {
            Ok(p) => {
                &&& p.wf()
                &&& p.locked == locked
                &&& forall|i: int| 0 <= i < dependencies.len() ==> lock_check(dependencies@, locked@, i) == Some(true)
                &&& p.root_name@ == root_name@
                &&& is_root_requirements(p.root_requirements@, dependencies@, locked@)
                &&& is_exact_pins(p.exact_only@, p.root_requirements@)
                &&& cached(p.packages@, root_name@) matches Some(root) && is_root_package(root, root_name@, p.root_requirements@)
                &&& forall|n: Seq<char>| n != root_name@ ==> #[trigger] cached_reordered(p.packages@, provided_packages@, n)
            },
            Err(e) => exists|i: int| {
                &&& 0 <= i < dependencies.len()
                &&& forall|k: int| 0 <= k < i ==> lock_check(dependencies@, locked@, k) == Some(true)
                &&& lock_failure(dependencies@, locked@, i, e)
            },
        },
{
    let requirements = match root_dependencies(dependencies, &locked) {
        Ok(requirements) => requirements,
        Err(e) => return Err(e),
    };
    let exact_only = exact_versions(&requirements);
    Ok(DependencyProvider::new(remote, provided_packages, root_name.clone(), requirements, locked, exact_only))
}

/// The entries of a solution, as values, other than those of package `name`.
pub open spec fn entries_without(s: Seq<(String, Version)>, name: Seq<char>) -> Seq<(Seq<char>, VersionView)>
    decreases s.len(),
{
    if s.len() == 0 {
        Seq::empty()
    } else {
        let rest = entries_without(s.drop_last(), name);
        if s.last().0@ != name {
            rest.push((s.last().0@, s.last().1@))
        } else {
            rest
        }
    }
}

pub open spec fn entries_view(s: Seq<(String, Version)>) -> Seq<(Seq<char>, VersionView)> {
    s.map_values(|e: (String, Version)| (e.0@, e.1@))
}

/// The solution without the root package's entry.
pub fn without_root(solution: &Vec<(String, Version)>, root_name: &String) -> (r: Vec<(String, Version)>)
    ensures
        entries_view(r@) == entries_without(solution@, root_name@),
{
    let mut r: Vec<(String, Version)> = Vec::new();
    let mut i: usize = 0;
    while i < solution.len()
        invariant
            i <= solution.len(),
            entries_view(r@) == entries_without(solution@.subrange(0, i as int), root_name@),
        decreases solution.len() - i,
    {
        let ghost upto = solution@.subrange(0, i + 1);
        assert(upto.drop_last() =~= solution@.subrange(0, i as int));
        if solution[i].0 != *root_name {
            r.push((solution[i].0.clone(), solution[i].1.duplicate()));
        }
        i = i + 1;
        assert(entries_view(r@) =~= entries_without(solution@.subrange(0, i as int), root_name@));
    }
    assert(solution@.subrange(0, solution.len() as int) =~= solution@);
    r
}

} // verus!
