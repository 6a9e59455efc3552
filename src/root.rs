//! The synthetic root package's requirements: locked versions merged with the
//! explicit root requirements.

use vstd::prelude::*;
use crate::error::ResolveError;
use crate::package::{Dependency, Range, has_fitting_numbers, numbers_fit, range_admits};
use crate::version::{Version, VersionView, version_text_of};

verus! {

/// No two locked entries name the same package.
pub open spec fn locked_names_unique(locked: Seq<(String, Version)>) -> bool {
    forall|j: int, k: int|
        0 <= j < k < locked.len() ==> #[trigger] locked[j].0@ != #[trigger] locked[k].0@
}

/// No two dependencies name the same package.
pub open spec fn dependency_names_unique(deps: Seq<Dependency>) -> bool {
    forall|j: int, k: int| 0 <= j < k < deps.len() ==> #[trigger] deps[j].name@ != #[trigger] deps[k].name@
}

/// The version that `name` is locked to, if any.
pub open spec fn locked_to(locked: Seq<(String, Version)>, name: Seq<char>) -> Option<VersionView> {
    if exists|j: int| 0 <= j < locked.len() && #[trigger] locked[j].0@ == name {
        let j = choose|j: int| 0 <= j < locked.len() && #[trigger] locked[j].0@ == name;
        Some(locked[j].1@)
    } else {
        None
    }
}

/// The range of the last explicit requirement on `name`, if any.
pub open spec fn last_requirement(base: Seq<(String, Range)>, name: Seq<char>) -> Option<Seq<char>>
    decreases base.len(),
{
    if base.len() == 0 {
        None
    } else if base.last().0@ == name {
        Some(base.last().1@)
    } else {
        last_requirement(base.drop_last(), name)
    }
}

/// The root's requirement on `name`: exactly the locked version where `name` is
/// locked, else the last explicit requirement on it.
pub open spec fn root_requirement(
    base: Seq<(String, Range)>,
    locked: Seq<(String, Version)>,
    name: Seq<char>,
) -> Option<Seq<char>> {
    match locked_to(locked, name) {
        Some(v) => Some(version_text_of(v)),
        None => last_requirement(base, name),
    }
}

/// Whether explicit requirement `i` agrees with the lock: `Some(true)` where
/// its package is unlocked or the locked version lies in its range,
/// `Some(false)` where it does not, `None` where the range cannot be read,
/// a number of ten digits or more included.
pub open spec fn lock_check(base: Seq<(String, Range)>, locked: Seq<(String, Version)>, i: int) -> Option<bool> {
    match locked_to(locked, base[i].0@) {
        Some(v) => if numbers_fit(base[i].1@) {
            range_admits(base[i].1@, v)
        } else {
            None
        },
        None => Some(true),
    }
}

/// The error that explicit requirement `i` gives where it disagrees with the lock.
pub open spec fn lock_failure(
    base: Seq<(String, Range)>,
    locked: Seq<(String, Version)>,
    i: int,
    e: ResolveError,
) -> bool {
    match lock_check(base, locked, i) {
        Some(false) => match e {
            ResolveError::LockConflict { package, requirement, locked: v } => package@ == base[i].0@
                && requirement@ == base[i].1@ && locked_to(locked, base[i].0@) == Some(v@),
            _ => false,
        },
        None => e is ResolutionFailure,
        Some(true) => false,
    }
}

/// The root requirements are the mapping that `root_requirement` gives: one
/// entry per package that it speaks of, none optional.
pub open spec fn is_root_requirements(
    deps: Seq<Dependency>,
    base: Seq<(String, Range)>,
    locked: Seq<(String, Version)>,
) -> bool {
    &&& dependency_names_unique(deps)
    &&& forall|j: int| 0 <= j < deps.len() ==> Some(#[trigger] deps[j].requirement@) == root_requirement(base, locked, deps[j].name@)
    &&& forall|j: int| 0 <= j < deps.len() ==> !(#[trigger] deps[j]).optional
    &&& forall|name: Seq<char>| #[trigger] root_requirement(base, locked, name) is Some
        ==> exists|j: int| 0 <= j < deps.len() && deps[j].name@ == name
}

/// The index of the locked entry for `name`, if any.
pub fn find_locked(locked: &Vec<(String, Version)>, name: &String) -> (r: Option<usize>)
    ensures
        match r {
            Some(j) => j < locked.len() && locked@[j as int].0@ == name@,
            None => forall|j: int| 0 <= j < locked.len() ==> #[trigger] locked@[j].0@ != name@,
        },
{
    let mut j: usize = 0;
    while j < locked.len()
        invariant
            j <= locked.len(),
            forall|k: int| 0 <= k < j ==> #[trigger] locked@[k].0@ != name@,
        decreases locked.len() - j,
    {
        if locked[j].0 == *name {
            return Some(j);
        }
        j = j + 1;
    }
    None
}

/// The index of the dependency on `name`, if any.
pub fn find_dependency(deps: &Vec<Dependency>, name: &String) -> (r: Option<usize>)
    ensures
        match r {
            Some(j) => j < deps.len() && deps@[j as int].name@ == name@,
            None => forall|j: int| 0 <= j < deps.len() ==> #[trigger] deps@[j].name@ != name@,
        },
{
    let mut j: usize = 0;
    while j < deps.len()
        invariant
            j <= deps.len(),
            forall|k: int| 0 <= k < j ==> #[trigger] deps@[k].name@ != name@,
        decreases deps.len() - j,
    {
        if deps[j].name == *name {
            return Some(j);
        }
        j = j + 1;
    }
    None
}

pub(crate) proof fn lemma_locked_to_entry(locked: Seq<(String, Version)>, j: int)
    requires
        locked_names_unique(locked),
        0 <= j < locked.len(),
    ensures
        locked_to(locked, locked[j].0@) == Some(locked[j].1@),
{
    let name = locked[j].0@;
    assert(exists|k: int| 0 <= k < locked.len() && #[trigger] locked[k].0@ == name);
    let k = choose|k: int| 0 <= k < locked.len() && #[trigger] locked[k].0@ == name;
    if k < j {
        assert(locked[k].0@ != locked[j].0@);
    } else if j < k {
        assert(locked[j].0@ != locked[k].0@);
    }
}

/// Merges the locked versions and the explicit root requirements into the
/// root package's requirements. A locked package keeps its exact locked
/// version; an explicit requirement on it must admit that version.
pub fn root_dependencies(
    base_requirements: &Vec<(String, Range)>,
    locked: &Vec<(String, Version)>,
) -> (r: Result<Vec<Dependency>, ResolveError>)
    requires
        locked_names_unique(locked@),
    ensures
        match r {
            Ok(deps) => {
                &&& forall|i: int| 0 <= i < base_requirements.len() ==> lock_check(base_requirements@, locked@, i) == Some(true)
                &&& is_root_requirements(deps@, base_requirements@, locked@)
            },
            Err(e) => exists|i: int| {
                &&& 0 <= i < base_requirements.len()
                &&& forall|k: int| 0 <= k < i ==> lock_check(base_requirements@, locked@, k) == Some(true)
                &&& lock_failure(base_requirements@, locked@, i, e)
            },
        },
{
    let ghost base = base_requirements@;
    let mut deps: Vec<Dependency> = Vec::new();
    let mut j: usize = 0;
    while j < locked.len()
        invariant
            j <= locked.len(),
            locked_names_unique(locked@),
            deps@.len() == j,
            forall|k: int| 0 <= k < j ==> (#[trigger] deps@[k]).name@ == locked@[k].0@
                && deps@[k].requirement@ == version_text_of(locked@[k].1@) && !deps@[k].optional,
        decreases locked.len() - j,
    {
        let text = locked[j].1.text();
        deps.push(Dependency { name: locked[j].0.clone(), requirement: Range::new(text), optional: false });
        j = j + 1;
    }
    assert forall|k: int| 0 <= k < deps.len() implies Some(#[trigger] deps@[k].requirement@)
        == root_requirement(base.subrange(0, 0), locked@, deps@[k].name@) by {
        lemma_locked_to_entry(locked@, k);
    }
    assert forall|name: Seq<char>| #[trigger] root_requirement(base.subrange(0, 0), locked@, name) is Some
        implies exists|k: int| 0 <= k < deps.len() && deps@[k].name@ == name by {
        let k = choose|k: int| 0 <= k < locked.len() && #[trigger] locked@[k].0@ == name;
        assert(deps@[k].name@ == name);
    }
    let mut i: usize = 0;
    while i < base_requirements.len()
        invariant
            i <= base_requirements.len(),
            base == base_requirements@,
            locked_names_unique(locked@),
            forall|k: int| 0 <= k < i ==> lock_check(base, locked@, k) == Some(true),
            is_root_requirements(deps@, base.subrange(0, i as int), locked@),
        decreases base_requirements.len() - i,
    {
        let name = &base_requirements[i].0;
        let range = &base_requirements[i].1;
        let ghost before = base.subrange(0, i as int);
        let ghost after = base.subrange(0, i + 1);
        assert(after.drop_last() =~= before);
        assert(after.last() == base[i as int]);
        match find_locked(locked, name) {
            Some(j) => {
                proof {
                    lemma_locked_to_entry(locked@, j as int);
                }
                if !has_fitting_numbers(range.as_str()) {
                    let message = String::from_str("Failed to parse range ").concat(range.as_str()).concat(
                        ": a number is too large",
                    );
                    let e = ResolveError::ResolutionFailure { message };
                    assert(lock_failure(base, locked@, i as int, e));
                    return Err(e);
                }
                match range.contains(&locked[j].1) {
                    Err(reason) => {
                        let message = String::from_str("Failed to parse range ").concat(reason.as_str());
                        let e = ResolveError::ResolutionFailure { message };
                        assert(lock_failure(base, locked@, i as int, e));
                        return Err(e);
                    },
                    Ok(false) => {
                        let e = ResolveError::LockConflict {
                            package: name.clone(),
                            requirement: range.duplicate(),
                            locked: locked[j].1.duplicate(),
                        };
                        assert(lock_failure(base, locked@, i as int, e));
                        return Err(e);
                    },
                    Ok(true) => {
                        assert forall|n: Seq<char>| root_requirement(after, locked@, n) == root_requirement(before, locked@, n) by {
                            if n != name@ {
                                assert(last_requirement(after, n) == last_requirement(before, n));
                            }
                        }
                    },
                }
            },
            None => {
                let dep = Dependency { name: name.clone(), requirement: range.duplicate(), optional: false };
                let ghost old_deps = deps@;
                assert(locked_to(locked@, name@) is None);
                assert forall|n: Seq<char>| n != name@ implies root_requirement(after, locked@, n) == root_requirement(before, locked@, n) by {
                    assert(last_requirement(after, n) == last_requirement(before, n));
                }
                assert(root_requirement(after, locked@, name@) == Some(range@));
                match find_dependency(&deps, name) {
                    Some(k) => {
                        deps.set(k, dep);
                        assert forall|n: Seq<char>| #[trigger] root_requirement(after, locked@, n) is Some
                            implies exists|m: int| 0 <= m < deps.len() && deps@[m].name@ == n by {
                            if n != name@ {
                                let m = choose|m: int| 0 <= m < old_deps.len() && old_deps[m].name@ == n;
                                assert(deps@[m].name@ == n);
                            } else {
                                assert(deps@[k as int].name@ == n);
                            }
                        }
                    },
                    None => {
                        deps.push(dep);
                        assert forall|n: Seq<char>| #[trigger] root_requirement(after, locked@, n) is Some
                            implies exists|m: int| 0 <= m < deps.len() && deps@[m].name@ == n by {
                            if n != name@ {
                                let m = choose|m: int| 0 <= m < old_deps.len() && old_deps[m].name@ == n;
                                assert(deps@[m].name@ == n);
                            } else {
                                assert(deps@[old_deps.len() as int].name@ == n);
                            }
                        }
                    },
                }
            },
        }
        i = i + 1;
    }
    assert(base.subrange(0, base.len() as int) =~= base);
    Ok(deps)
}

} // verus!
