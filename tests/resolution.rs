use std::cell::RefCell;
use std::collections::HashMap;
use std::error::Error as StdError;

use gleam_deps::error::ResolveError;
use gleam_deps::package::{
    has_fitting_numbers, Dependency, Package, Range, Release, RetirementReason, RetirementStatus,
};
use gleam_deps::provider::{
    admitted_versions, choose_package_with_fewest_versions, Dependencies, DependencyProvider, PackageFetcher,
};
use gleam_deps::resolve::{resolution_provider, without_root};
use gleam_deps::version::{Identifier, Version};

fn to_hex(v: &Version) -> hexpm::version::Version {
    hexpm::version::Version {
        major: v.major,
        minor: v.minor,
        patch: v.patch,
        pre: v
            .pre
            .iter()
            .map(|i| match i {
                Identifier::Numeric(n) => hexpm::version::Identifier::Numeric(*n),
                Identifier::AlphaNumeric(a) => hexpm::version::Identifier::AlphaNumeric(a.clone()),
            })
            .collect(),
        build: v.build.clone(),
    }
}

fn from_hex(v: &hexpm::version::Version) -> Version {
    Version {
        major: v.major,
        minor: v.minor,
        patch: v.patch,
        pre: v
            .pre
            .iter()
            .map(|i| match i {
                hexpm::version::Identifier::Numeric(n) => Identifier::Numeric(*n),
                hexpm::version::Identifier::AlphaNumeric(a) => Identifier::AlphaNumeric(a.clone()),
            })
            .collect(),
        build: v.build.clone(),
    }
}

struct Solver<F: PackageFetcher> {
    provider: RefCell<DependencyProvider<F>>,
}

impl<F: PackageFetcher> pubgrub::solver::DependencyProvider<String, hexpm::version::Version> for Solver<F> {
    fn choose_package_version<
        T: std::borrow::Borrow<String>,
        U: std::borrow::Borrow<pubgrub::range::Range<hexpm::version::Version>>,
    >(
        &self,
        potential_packages: impl Iterator<Item = (T, U)>,
    ) -> Result<(T, Option<hexpm::version::Version>), Box<dyn StdError>> {
        let mut provider = self.provider.borrow_mut();
        let mut names = Vec::new();
        let mut lists = Vec::new();
        for (name, range) in potential_packages {
            let versions = provider.list_available_versions(name.borrow())?;
            let admitted: Vec<bool> = versions.iter().map(|v| range.borrow().contains(&to_hex(v))).collect();
            lists.push(admitted_versions(&versions, &admitted));
            names.push(name);
        }
        assert!(!lists.is_empty());
        let (index, version) = choose_package_with_fewest_versions(&lists);
        let name = names.into_iter().nth(index).unwrap();
        Ok((name, version.map(|v| to_hex(&v))))
    }

    fn get_dependencies(
        &self,
        name: &String,
        version: &hexpm::version::Version,
    ) -> Result<pubgrub::solver::Dependencies<String, hexpm::version::Version>, Box<dyn StdError>> {
        let found = self.provider.borrow_mut().get_dependencies(name, &from_hex(version))?;
        match found {
            Dependencies::Unknown => Ok(pubgrub::solver::Dependencies::Unknown),
            Dependencies::Known(deps) => {
                let mut map = pubgrub::type_aliases::Map::default();
                for d in deps {
                    if !has_fitting_numbers(d.requirement.as_str()) {
                        return Err("a number is too large".into());
                    }
                    let range = hexpm::version::Range::new(d.requirement.text).to_pubgrub()?;
                    let _ = map.insert(d.name, range);
                }
                Ok(pubgrub::solver::Dependencies::Known(map))
            }
        }
    }
}

fn resolve_versions(
    remote: Remote,
    root_name: &str,
    dependencies: Vec<(&str, &str)>,
    locked: Vec<(&str, Version)>,
) -> Result<HashMap<String, Version>, ResolveError> {
    let root_name = root_name.to_string();
    let dependencies: Vec<(String, Range)> = dependencies
        .into_iter()
        .map(|(n, r)| (n.to_string(), Range::new(r.to_string())))
        .collect();
    let locked: Vec<(String, Version)> = locked.into_iter().map(|(n, v)| (n.to_string(), v)).collect();
    let provider = resolution_provider(remote, Vec::new(), &root_name, &dependencies, locked)?;
    let solver = Solver { provider: RefCell::new(provider) };
    let solution = pubgrub::solver::resolve(&solver, root_name.clone(), hexpm::version::Version::new(0, 0, 0))
        .map_err(|e| ResolveError::ResolutionFailure { message: e.to_string() })?;
    let solution: Vec<(String, Version)> = solution.into_iter().map(|(n, v)| (n, from_hex(&v))).collect();
    Ok(without_root(&solution, &root_name).into_iter().collect())
}

struct Remote {
    deps: HashMap<String, Package>,
}

impl PackageFetcher for Remote {
    fn get_dependencies(&self, package: &str) -> Result<Package, String> {
        self.deps.get(package).cloned().ok_or_else(|| "not found".to_string())
    }
}

fn v(text: &str) -> Version {
    Version::parse(text).unwrap()
}

fn release(version: &str, requirements: Vec<(&str, &str)>, retired: bool) -> Release {
    Release {
        version: v(version),
        requirements: requirements
            .into_iter()
            .map(|(n, r)| Dependency { name: n.to_string(), requirement: Range::new(r.to_string()), optional: false })
            .collect(),
        retirement_status: if retired {
            Some(RetirementStatus { reason: RetirementReason::Security, message: "It's bad".to_string() })
        } else {
            None
        },
        outer_checksum: vec![1, 2, 3],
    }
}

fn package(name: &str, releases: Vec<Release>) -> Package {
    Package { name: name.to_string(), repository: "hexpm".to_string(), releases }
}

fn make_remote() -> Remote {
    let mut deps = HashMap::new();
    let _ = deps.insert(
        "gleam_stdlib".to_string(),
        package(
            "gleam_stdlib",
            vec![
                release("0.1.0", vec![], false),
                release("0.2.0", vec![], false),
                release("0.2.2", vec![], false),
                release("0.3.0", vec![], false),
            ],
        ),
    );
    let stdlib = vec![("gleam_stdlib", ">= 0.1.0")];
    let _ = deps.insert(
        "gleam_otp".to_string(),
        package(
            "gleam_otp",
            vec![
                release("0.1.0", stdlib.clone(), false),
                release("0.2.0", stdlib.clone(), false),
                release("0.3.0-rc1", stdlib.clone(), false),
                release("0.3.0-rc2", stdlib.clone(), false),
            ],
        ),
    );
    let _ = deps.insert(
        "package_with_retired".to_string(),
        package(
            "package_with_retired",
            vec![release("0.1.0", vec![], false), release("0.2.0", vec![], true)],
        ),
    );
    Remote { deps }
}

fn expected(entries: Vec<(&str, &str)>) -> HashMap<String, Version> {
    entries.into_iter().map(|(n, t)| (n.to_string(), v(t))).collect()
}

#[test]
fn resolution_with_locked() {
    let result = resolve_versions(
        make_remote(),
        "app",
        vec![("gleam_stdlib", "~> 0.1")],
        vec![("gleam_stdlib", v("0.1.0"))],
    )
    .unwrap();
    assert_eq!(result, expected(vec![("gleam_stdlib", "0.1.0")]));
}

#[test]
fn resolution_without_deps() {
    let result = resolve_versions(make_remote(), "app", vec![], vec![]).unwrap();
    assert_eq!(result, expected(vec![]));
}

#[test]
fn resolution_1_dep() {
    let result = resolve_versions(make_remote(), "app", vec![("gleam_stdlib", "~> 0.1")], vec![]).unwrap();
    assert_eq!(result, expected(vec![("gleam_stdlib", "0.3.0")]));
}

#[test]
fn resolution_with_nested_deps() {
    let result = resolve_versions(make_remote(), "app", vec![("gleam_otp", "~> 0.1")], vec![]).unwrap();
    assert_eq!(result, expected(vec![("gleam_otp", "0.2.0"), ("gleam_stdlib", "0.3.0")]));
}

#[test]
fn resolution_locked_to_older_version() {
    let result = resolve_versions(make_remote(), "app", vec![("gleam_otp", "~> 0.1.0")], vec![]).unwrap();
    assert_eq!(result, expected(vec![("gleam_otp", "0.1.0"), ("gleam_stdlib", "0.3.0")]));
}

#[test]
fn resolution_retired_versions_not_used_by_default() {
    let result =
        resolve_versions(make_remote(), "app", vec![("package_with_retired", "> 0.0.0")], vec![]).unwrap();
    // Uses the older version that hasn't been retired
    assert_eq!(result, expected(vec![("package_with_retired", "0.1.0")]));
}

#[test]
fn resolution_retired_versions_can_be_used_if_locked() {
    let result = resolve_versions(
        make_remote(),
        "app",
        vec![("package_with_retired", "> 0.0.0")],
        vec![("package_with_retired", Version::new(0, 2, 0))],
    )
    .unwrap();
    // Uses the locked version even though it's retired
    assert_eq!(result, expected(vec![("package_with_retired", "0.2.0")]));
}

#[test]
fn resolution_prerelease_can_be_selected() {
    let result = resolve_versions(make_remote(), "app", vec![("gleam_otp", "~> 0.3.0-rc1")], vec![]).unwrap();
    assert_eq!(result, expected(vec![("gleam_stdlib", "0.3.0"), ("gleam_otp", "0.3.0-rc2")]));
}

#[test]
fn resolution_exact_prerelease_can_be_selected() {
    let result = resolve_versions(make_remote(), "app", vec![("gleam_otp", "0.3.0-rc1")], vec![]).unwrap();
    assert_eq!(result, expected(vec![("gleam_stdlib", "0.3.0"), ("gleam_otp", "0.3.0-rc1")]));
}

#[test]
fn resolution_not_found_dep() {
    let err = resolve_versions(make_remote(), "app", vec![("unknown", "~> 0.1")], vec![]).unwrap_err();
    assert!(matches!(err, ResolveError::ResolutionFailure { .. }));
}

#[test]
fn resolution_no_matching_version() {
    let err = resolve_versions(make_remote(), "app", vec![("gleam_stdlib", "~> 99.0")], vec![]).unwrap_err();
    assert!(matches!(err, ResolveError::ResolutionFailure { .. }));
}

#[test]
fn resolution_locked_version_doesnt_satisfy_requirements() {
    let err = resolve_versions(
        make_remote(),
        "app",
        vec![("gleam_stdlib", "~> 0.1.0")],
        vec![("gleam_stdlib", Version::new(0, 2, 0))],
    )
    .unwrap_err();
    match &err {
        ResolveError::LockConflict { .. } => assert_eq!(
            format!("An unrecoverable error happened while solving dependencies: {}", err.message()),
            "An unrecoverable error happened while solving dependencies: gleam_stdlib is specified with the requirement `~> 0.1.0`, but it is locked to 0.2.0, which is incompatible."
        ),
        _ => panic!("wrong error: {}", err.message()),
    }
}

#[test]
fn resolution_with_exact_dep() {
    let result = resolve_versions(make_remote(), "app", vec![("gleam_stdlib", "0.1.0")], vec![]).unwrap();
    assert_eq!(result, expected(vec![("gleam_stdlib", "0.1.0")]));
}

#[test]
fn resolution_unlocked_range_takes_newest() {
    let locked = resolve_versions(
        make_remote(),
        "app",
        vec![("gleam_stdlib", "~> 0.1")],
        vec![("gleam_stdlib", v("0.1.0"))],
    )
    .unwrap();
    let unlocked = resolve_versions(make_remote(), "app", vec![("gleam_stdlib", "~> 0.1")], vec![]).unwrap();
    assert_eq!(locked, expected(vec![("gleam_stdlib", "0.1.0")]));
    assert_eq!(unlocked, expected(vec![("gleam_stdlib", "0.3.0")]));
}

#[test]
fn resolution_unconstrained_prefers_non_prerelease() {
    let result = resolve_versions(make_remote(), "app", vec![("gleam_otp", ">= 0.0.0")], vec![]).unwrap();
    assert_eq!(result, expected(vec![("gleam_otp", "0.2.0"), ("gleam_stdlib", "0.3.0")]));
}

#[test]
fn resolution_transitive_ranges_are_met() {
    let mut remote = make_remote();
    let _ = remote.deps.insert(
        "top".to_string(),
        package("top", vec![release("1.0.0", vec![("gleam_otp", "~> 0.1"), ("gleam_stdlib", "< 0.3.0")], false)]),
    );
    let result = resolve_versions(remote, "app", vec![("top", "~> 1.0")], vec![]).unwrap();
    assert_eq!(
        result,
        expected(vec![("top", "1.0.0"), ("gleam_otp", "0.2.0"), ("gleam_stdlib", "0.2.2")])
    );
}

#[test]
fn resolution_locked_transitive_version_is_kept() {
    let result = resolve_versions(
        make_remote(),
        "app",
        vec![("gleam_otp", "~> 0.1")],
        vec![("gleam_stdlib", v("0.2.0"))],
    )
    .unwrap();
    assert_eq!(result, expected(vec![("gleam_otp", "0.2.0"), ("gleam_stdlib", "0.2.0")]));
}
