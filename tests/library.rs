use gleam_deps::error::ResolveError;
use gleam_deps::exact::parse_exact_version;
use gleam_deps::order::order_releases;
use gleam_deps::package::{Dependency, Package, Range, Release, RetirementReason, RetirementStatus};
use gleam_deps::provider::{
    admitted_versions, choose_package_with_fewest_versions, root_package, Dependencies, DependencyProvider,
    PackageFetcher,
};
use gleam_deps::package::has_fitting_numbers;
use gleam_deps::resolve::{exact_versions, resolution_provider, without_root};
use gleam_deps::exact::{exact_version_of_trimmed, is_white_space_char, trim_text};
use gleam_deps::root::root_dependencies;
use gleam_deps::version::{Identifier, Version};

fn v(text: &str) -> Version {
    Version::parse(text).unwrap()
}

fn range(text: &str) -> Range {
    Range::new(text.to_string())
}

fn release(version: &str, retired: bool) -> Release {
    Release {
        version: v(version),
        requirements: vec![Dependency { name: "dep".to_string(), requirement: range(">= 1.0.0"), optional: false }],
        retirement_status: if retired {
            Some(RetirementStatus { reason: RetirementReason::Deprecated, message: "old".to_string() })
        } else {
            None
        },
        outer_checksum: vec![],
    }
}

struct Fixed {
    package: Option<Package>,
}

impl PackageFetcher for Fixed {
    fn get_dependencies(&self, package: &str) -> Result<Package, String> {
        match &self.package {
            Some(p) if p.name == package => Ok(p.clone()),
            _ => Err(format!("{package} not found")),
        }
    }
}

#[test]
fn parse_exact_version_test() {
    assert_eq!(parse_exact_version("1.0.0"), Some(Version::parse("1.0.0").unwrap()));
    assert_eq!(parse_exact_version("==1.0.0"), Some(Version::parse("1.0.0").unwrap()));
    assert_eq!(parse_exact_version("== 1.0.0"), Some(Version::parse("1.0.0").unwrap()));
    assert_eq!(parse_exact_version("~> 1.0.0"), None);
    assert_eq!(parse_exact_version(">= 1.0.0"), None);
}

#[test]
fn exact_version_edge_cases() {
    assert_eq!(parse_exact_version("  2.1.3  "), Some(v("2.1.3")));
    assert_eq!(parse_exact_version("0.3.0-rc1"), Some(v("0.3.0-rc1")));
    assert_eq!(parse_exact_version(""), None);
    assert_eq!(parse_exact_version("1.0.0 and < 2.0.0"), None);
    assert_eq!(parse_exact_version("> 1.0.0"), None);
    assert_eq!(parse_exact_version("1.0.0=="), None);
    assert_eq!(parse_exact_version("==1.0.0=="), None);
    assert_eq!(parse_exact_version("\t== 1.0.0\n"), Some(v("1.0.0")));
    assert_eq!(exact_version_of_trimmed("==  0.2.0"), Some(v("0.2.0")));
    assert_eq!(exact_version_of_trimmed(" 0.2.0"), None);
    assert_eq!(exact_version_of_trimmed("0.2.0-rc1"), Some(v("0.2.0-rc1")));
}

#[test]
fn fitting_numbers() {
    assert!(has_fitting_numbers("~> 999999999.0"));
    assert!(has_fitting_numbers("< 1000000000.0.0"));
    assert!(has_fitting_numbers("< 4294967294.0.0"));
    assert!(has_fitting_numbers("0000000000000000001.0.0"));
    assert!(!has_fitting_numbers("< 4294967295.0.0"));
    assert!(!has_fitting_numbers("1.0.0-rc99999999999"));
    assert!(has_fitting_numbers(""));
}

#[test]
fn root_dependencies_accepts_large_numbers() {
    let base = vec![("a".to_string(), range("< 1000000000.0.0"))];
    let locked = vec![("a".to_string(), v("0.1.0"))];
    let deps = root_dependencies(&base, &locked).unwrap();
    assert_eq!(deps[0].requirement.text, "0.1.0");
    let conflict = vec![("a".to_string(), range("> 1000000000.0.0"))];
    let err = root_dependencies(&conflict, &locked).unwrap_err();
    assert!(matches!(err, ResolveError::LockConflict { .. }));
}

#[test]
fn root_dependencies_rejects_long_numbers() {
    let base = vec![("a".to_string(), range("> 4294967295.0.0"))];
    let locked = vec![("a".to_string(), v("1.0.0"))];
    let err = root_dependencies(&base, &locked).unwrap_err();
    assert!(matches!(err, ResolveError::ResolutionFailure { .. }));
}

#[test]
fn provider_stores_fetch_results() {
    let mut provider = provider_with(Package { name: "p".to_string(), repository: "r".to_string(), releases: vec![] }, vec![], vec![]);
    assert_eq!(provider.store_fetched(&"q".to_string(), Err("offline".to_string())), Err("offline".to_string()));
    assert_eq!(provider.packages.len(), 1);
    let fetched = Package {
        name: "other".to_string(),
        repository: "mirror".to_string(),
        releases: vec![release("1.0.0-rc1", false), release("0.9.0", false), release("1.0.0", false)],
    };
    assert_eq!(provider.store_fetched(&"q".to_string(), Ok(fetched)), Ok(()));
    let stored = &provider.packages[1];
    assert_eq!(stored.name, "q");
    assert_eq!(stored.repository, "mirror");
    let texts: Vec<String> = stored.releases.iter().map(|r| r.version.text()).collect();
    assert_eq!(texts, vec!["1.0.0", "0.9.0", "1.0.0-rc1"]);
}

#[test]
fn version_parse_and_text() {
    let version = v("1.2.3-rc.4+build");
    assert_eq!(version.major, 1);
    assert_eq!(version.minor, 2);
    assert_eq!(version.patch, 3);
    assert_eq!(version.pre, vec![Identifier::AlphaNumeric("rc".to_string()), Identifier::Numeric(4)]);
    assert_eq!(version.build, Some("build".to_string()));
    assert_eq!(version.text(), "1.2.3-rc.4+build");
    assert!(Version::parse("not a version").is_none());
    assert!(version.is_pre());
    assert!(!v("1.2.3").is_pre());
}

#[test]
fn version_order() {
    assert_eq!(v("1.0.0").compare(&v("1.0.1")), -1);
    assert_eq!(v("2.0.0").compare(&v("1.9.9")), 1);
    assert_eq!(v("1.0.0").compare(&v("1.0.0+other")), 0);
    assert_eq!(v("1.0.0-rc1").compare(&v("1.0.0")), -1);
    assert_eq!(v("1.0.0-rc2").compare(&v("1.0.0-rc1")), 1);
    assert_eq!(v("1.0.0-1").compare(&v("1.0.0-alpha")), -1);
    assert_eq!(v("1.0.0-alpha").compare(&v("1.0.0-alpha.1")), -1);
    assert!(v("1.0.0").same(&v("1.0.0")));
    assert!(!v("1.0.0").same(&v("1.0.0+b")));
}

#[test]
fn range_membership() {
    assert_eq!(range("~> 0.1").contains(&v("0.3.0")), Ok(true));
    assert_eq!(range("~> 0.1.0").contains(&v("0.2.0")), Ok(false));
    assert_eq!(range(">= 1.0.0 and < 2.0.0").contains(&v("2.0.0")), Ok(false));
    assert!(range("what").contains(&v("1.0.0")).is_err());
}

#[test]
fn releases_ordered_newest_first_prereleases_last() {
    let releases = vec![
        release("0.1.0", false),
        release("0.3.0-rc1", false),
        release("0.3.0", false),
        release("0.4.0-rc1", false),
        release("0.2.0", false),
    ];
    let ordered: Vec<String> = order_releases(releases).iter().map(|r| r.version.text()).collect();
    assert_eq!(ordered, vec!["0.3.0", "0.2.0", "0.1.0", "0.4.0-rc1", "0.3.0-rc1"]);
    assert!(order_releases(vec![]).is_empty());
}

#[test]
fn fewest_versions_chosen_first() {
    let lists = vec![vec![v("1.0.0"), v("0.9.0")], vec![v("2.0.0")], vec![v("3.0.0")]];
    let (index, version) = choose_package_with_fewest_versions(&lists);
    assert_eq!(index, 1);
    assert_eq!(version, Some(v("2.0.0")));
    let (index, version) = choose_package_with_fewest_versions(&vec![vec![v("1.0.0")], vec![]]);
    assert_eq!(index, 1);
    assert_eq!(version, None);
}

#[test]
fn root_dependencies_merge() {
    let base = vec![("a".to_string(), range("~> 1.0")), ("b".to_string(), range(">= 0.1.0")), ("b".to_string(), range("~> 2.0"))];
    let locked = vec![("a".to_string(), v("1.2.0")), ("c".to_string(), v("0.5.0"))];
    let mut deps = root_dependencies(&base, &locked).unwrap();
    deps.sort_by(|x, y| x.name.cmp(&y.name));
    let got: Vec<(String, String)> = deps.iter().map(|d| (d.name.clone(), d.requirement.text.clone())).collect();
    assert_eq!(
        got,
        vec![
            ("a".to_string(), "1.2.0".to_string()),
            ("b".to_string(), "~> 2.0".to_string()),
            ("c".to_string(), "0.5.0".to_string()),
        ]
    );
    assert!(root_dependencies(&vec![], &vec![]).unwrap().is_empty());
}

#[test]
fn root_dependencies_lock_conflict() {
    let base = vec![("gleam_stdlib".to_string(), range("~> 0.1.0"))];
    let locked = vec![("gleam_stdlib".to_string(), Version::new(0, 2, 0))];
    let err = root_dependencies(&base, &locked).unwrap_err();
    assert!(matches!(err, ResolveError::LockConflict { .. }));
    assert_eq!(
        err.message(),
        "gleam_stdlib is specified with the requirement `~> 0.1.0`, but it is locked to 0.2.0, which is incompatible."
    );
    let bad = vec![("gleam_stdlib".to_string(), range("nonsense"))];
    let err = root_dependencies(&bad, &locked).unwrap_err();
    assert!(matches!(err, ResolveError::ResolutionFailure { .. }));
    assert!(err.message().starts_with("Failed to parse range "));
}

#[test]
fn exact_pins_of_requirements() {
    let deps = vec![
        Dependency { name: "a".to_string(), requirement: range("== 1.0.0"), optional: false },
        Dependency { name: "b".to_string(), requirement: range("~> 1.0"), optional: false },
        Dependency { name: "c".to_string(), requirement: range("0.3.0-rc1"), optional: false },
    ];
    let pins = exact_versions(&deps);
    assert_eq!(pins, vec![("a".to_string(), v("1.0.0")), ("c".to_string(), v("0.3.0-rc1"))]);
}

#[test]
fn root_package_shape() {
    let deps = vec![Dependency { name: "a".to_string(), requirement: range("~> 1.0"), optional: false }];
    let root = root_package(&"app".to_string(), deps.clone());
    assert_eq!(root.name, "app");
    assert_eq!(root.releases.len(), 1);
    assert_eq!(root.releases[0].version, Version::new(0, 0, 0));
    assert_eq!(root.releases[0].requirements, deps);
}

#[test]
fn solution_without_root() {
    let solution = vec![("app".to_string(), Version::new(0, 0, 0)), ("a".to_string(), v("1.0.0"))];
    assert_eq!(without_root(&solution, &"app".to_string()), vec![("a".to_string(), v("1.0.0"))]);
}

fn provider_with(package: Package, locked: Vec<(String, Version)>, pins: Vec<(String, Version)>) -> DependencyProvider<Fixed> {
    DependencyProvider::new(Fixed { package: Some(package) }, vec![], "app".to_string(), vec![], locked, pins)
}

#[test]
fn provider_fetches_once_and_orders() {
    let pkg = Package {
        name: "p".to_string(),
        repository: "hexpm".to_string(),
        releases: vec![release("0.1.0", false), release("0.2.0-rc1", false), release("0.2.0", true)],
    };
    let mut provider = provider_with(pkg, vec![], vec![]);
    let versions = provider.list_available_versions(&"p".to_string()).unwrap();
    let texts: Vec<String> = versions.iter().map(|x| x.text()).collect();
    assert_eq!(texts, vec!["0.2.0", "0.1.0", "0.2.0-rc1"]);
    assert_eq!(provider.packages.len(), 2);
    assert!(provider.ensure_package_fetched(&"p".to_string()).is_ok());
    assert_eq!(provider.packages.len(), 2);
    assert!(provider.ensure_package_fetched(&"missing".to_string()).is_err());
    assert_eq!(provider.packages.len(), 2);
}

#[test]
fn provider_exact_pin_filter() {
    let pkg = Package {
        name: "p".to_string(),
        repository: "hexpm".to_string(),
        releases: vec![release("0.1.0", false), release("0.2.0", false)],
    };
    let mut provider = provider_with(pkg.clone(), vec![], vec![("p".to_string(), v("0.1.0"))]);
    assert_eq!(provider.list_available_versions(&"p".to_string()).unwrap(), vec![v("0.1.0")]);
    let mut provider = provider_with(pkg, vec![], vec![("p".to_string(), v("0.9.0"))]);
    assert!(provider.list_available_versions(&"p".to_string()).unwrap().is_empty());
}

#[test]
fn provider_retired_needs_lock() {
    let pkg = Package {
        name: "p".to_string(),
        repository: "hexpm".to_string(),
        releases: vec![release("0.1.0", false), release("0.2.0", true)],
    };
    let mut provider = provider_with(pkg.clone(), vec![], vec![]);
    assert_eq!(provider.get_dependencies(&"p".to_string(), &v("0.2.0")).unwrap(), Dependencies::Unknown);
    assert_eq!(provider.get_dependencies(&"p".to_string(), &v("0.7.0")).unwrap(), Dependencies::Unknown);
    match provider.get_dependencies(&"p".to_string(), &v("0.1.0")).unwrap() {
        Dependencies::Known(deps) => assert_eq!(deps[0].requirement.text, ">= 1.0.0"),
        Dependencies::Unknown => panic!("release 0.1.0 is active"),
    }
    let mut locked = provider_with(pkg, vec![("p".to_string(), v("0.2.0"))], vec![]);
    assert!(matches!(locked.get_dependencies(&"p".to_string(), &v("0.2.0")).unwrap(), Dependencies::Known(_)));
}

#[test]
fn provider_root_dependencies() {
    let remote = Fixed { package: None };
    let deps = vec![("a".to_string(), range("~> 1.0"))];
    let mut provider = resolution_provider(remote, vec![], &"app".to_string(), &deps, vec![]).unwrap();
    for version in [Version::new(0, 0, 0), Version::new(1, 0, 0)] {
        match provider.get_dependencies(&"app".to_string(), &version).unwrap() {
            Dependencies::Known(found) => {
                assert_eq!(found.len(), 1);
                assert_eq!(found[0].name, "a");
            }
            Dependencies::Unknown => panic!("the root is known"),
        }
    }
    assert!(provider.list_available_versions(&"a".to_string()).is_err());
}

#[test]
fn admitted_versions_keep_order() {
    let versions = vec![v("0.3.0"), v("0.2.0"), v("0.1.0"), v("0.4.0-rc1")];
    let kept = admitted_versions(&versions, &vec![false, true, true, true]);
    assert_eq!(kept, vec![v("0.2.0"), v("0.1.0"), v("0.4.0-rc1")]);
    assert!(admitted_versions(&versions, &vec![false; 4]).is_empty());
}

#[test]
fn provided_packages_are_ordered() {
    let provided = Package {
        name: "p".to_string(),
        repository: "local".to_string(),
        releases: vec![release("0.1.0", false), release("0.3.0-rc1", false), release("0.2.0", false)],
    };
    let mut provider =
        DependencyProvider::new(Fixed { package: None }, vec![provided], "app".to_string(), vec![], vec![], vec![]);
    let texts: Vec<String> =
        provider.list_available_versions(&"p".to_string()).unwrap().iter().map(|x| x.text()).collect();
    assert_eq!(texts, vec!["0.2.0", "0.1.0", "0.3.0-rc1"]);
}

#[test]
fn trim_matches_white_space_property() {
    assert_eq!(trim_text("  \t~> 1.0\u{3000}\n"), "~> 1.0");
    assert_eq!(trim_text("\u{85}\u{a0}"), "");
    assert_eq!(trim_text("a b"), "a b");
    assert_eq!(trim_text(""), "");
    for c in ['\t', '\n', ' ', '\u{85}', '\u{a0}', '\u{1680}', '\u{2000}', '\u{200a}', '\u{2028}', '\u{3000}'] {
        assert!(is_white_space_char(c));
        assert_eq!(c.is_whitespace(), is_white_space_char(c));
    }
    for c in ['a', '0', '\u{200b}', '\u{180e}'] {
        assert!(!is_white_space_char(c));
        assert_eq!(c.is_whitespace(), is_white_space_char(c));
    }
}
