use hermione::codec::{parse_manifest, serialize_manifest};
use hermione::config::HermioneConfig;
use hermione::errors::HermError;
use hermione::manifest::{FileMappingDefinition, Hooks, Manifest};
use hermione::package::Package;
use hermione::repositories::{
    resolve_exact, resolve_latest, AvailablePackage, AvailableVersion, RepositoryContents,
};
use hermione::template::{join_path, render_template};
use hermione::text::u64_dec;

fn sample_manifest() -> Manifest {
    Manifest {
        id: String::from("org.hermione.example-package"),
        name: String::from("example-package"),
        version: String::from("1.2.3"),
        description: String::from("A sample package: colons, {{odd}} text, and trailing space "),
        authors: vec![String::from("Alice <alice@example.org>"), String::from("Bob")],
        mappings: vec![
            FileMappingDefinition::new(
                String::from("sample.txt"),
                String::from("{{HOME}}/sample.txt"),
                None,
                Some(String::from("sha256-abc")),
            ),
            FileMappingDefinition::new(
                String::from("config.toml"),
                String::from("/tmp/config.toml"),
                Some(String::from("unix")),
                None,
            ),
        ],
        hooks: Some(Hooks {
            pre_install: Some(String::from("echo \"pre\"\nmkdir something")),
            post_install: Some(String::from("echo post")),
            pre_remove: None,
            post_remove: Some(String::from("echo bye\\now")),
        }),
    }
}

#[test]
fn manifest_round_trips_through_text() {
    let m = sample_manifest();
    let text = serialize_manifest(&m);
    let back = parse_manifest(text.as_str()).expect("serialized manifest must parse");
    assert_eq!(back, sample_manifest());
}

#[test]
fn manifest_round_trips_without_hooks_or_mappings() {
    let m = Manifest {
        id: String::from("a"),
        name: String::from(""),
        version: String::from("0.0.1"),
        description: String::from(""),
        authors: vec![],
        mappings: vec![],
        hooks: None,
    };
    let text = serialize_manifest(&m);
    let back = parse_manifest(text.as_str()).expect("serialized manifest must parse");
    assert_eq!(back.id, "a");
    assert_eq!(back.name, "");
    assert_eq!(back.authors.len(), 0);
    assert_eq!(back.mappings.len(), 0);
    assert!(back.hooks.is_none());
}

#[test]
fn manifest_parse_rejects_garbage() {
    let r = parse_manifest("not a manifest at all");
    assert!(matches!(r, Err(HermError::ManifestError(_))));
    let r2 = parse_manifest("");
    assert!(matches!(r2, Err(HermError::ManifestError(_))));
}

#[test]
fn manifest_parse_accepts_handwritten_document() {
    let text = "id: org.example.pkg\nname: pkg\nversion: 1.0.0\ndescription: d\nauthors:\n- me\nmappings:\n- i: a.txt\n  o: {{HOME}}/a.txt\n";
    let m = parse_manifest(text).expect("a plain document parses");
    assert_eq!(m.id, "org.example.pkg");
    assert_eq!(m.version, "1.0.0");
    assert_eq!(m.mappings.len(), 1);
    assert_eq!(m.mappings[0].i, "a.txt");
    assert_eq!(m.mappings[0].o, "{{HOME}}/a.txt");
    assert!(m.hooks.is_none());
}

#[test]
fn template_substitutes_home() {
    let r = render_template("{{HOME}}/sample.txt", "/home/panda").expect("renders");
    assert_eq!(r, "/home/panda/sample.txt");
    let plain = render_template("/tmp/x", "/home/panda").expect("renders");
    assert_eq!(plain, "/tmp/x");
}

#[test]
fn template_rejects_unknown_variable() {
    let r = render_template("{{ELSEWHERE}}/x", "/home/panda");
    assert!(matches!(r, Err(HermError::TemplateError(_))));
}

#[test]
fn platform_family_filter() {
    let unix_only = FileMappingDefinition::new(
        String::from("a"),
        String::from("b"),
        Some(String::from("unix")),
        None,
    );
    let everywhere =
        FileMappingDefinition::new(String::from("a"), String::from("b"), None, None);
    assert!(unix_only.valid_platform_family("unix"));
    assert!(!unix_only.valid_platform_family("windows"));
    assert!(everywhere.valid_platform_family("unix"));
    assert!(everywhere.valid_platform_family("windows"));
}

#[test]
fn integrity_records_and_verifies() {
    let bytes: Vec<u8> = b"hello".to_vec();
    let mut d = FileMappingDefinition::new(String::from("a"), String::from("b"), None, None);
    // a missing digest is a pass: integrity is opt-in
    assert!(d.verify_integrity(&bytes));
    let digest = d.set_integrity(&bytes);
    assert_eq!(digest, "sha256-LPJNul+wow4m6DsqxbninhsWHlwfp0JecwQzYpOLmCQ=");
    assert_eq!(d.integrity.as_deref(), Some(digest.as_str()));
    assert!(d.verify_integrity(&bytes));
    let other: Vec<u8> = b"tampered".to_vec();
    assert!(!d.verify_integrity(&other));
}

#[test]
fn test_source_to_package_name_with_url() {
    let input = "http://github.com/panda/bamboo.git";
    let expected = String::from("bamboo");

    assert_eq!(Package::source_to_package_name(input), expected);
}

#[test]
fn test_source_to_package_name_with_local_path() {
    let input = "./panda";
    let expected = String::from("panda");

    assert_eq!(Package::source_to_package_name(input), expected);
}

#[test]
fn test_install_path() {
    let package_name = "panda";
    let hermione_home = "bamboo";

    let actual = Package::install_path(hermione_home, package_name);

    let expected = String::from("bamboo/panda");

    assert_eq!(expected, actual);
}

#[test]
fn source_name_corner_cases() {
    assert_eq!(Package::source_to_package_name(""), "UNKNOWN_PACKAGE");
    assert_eq!(Package::source_to_package_name(".."), "UNKNOWN_PACKAGE");
    assert_eq!(Package::source_to_package_name("a/b/"), "b");
    assert_eq!(Package::source_to_package_name(".hidden"), ".hidden");
}

fn av(version: &str, url: &str) -> AvailableVersion {
    AvailableVersion { version: String::from(version), url: String::from(url) }
}

#[test]
fn version_resolution() {
    let versions = vec![
        av("1.0.0", "http://repo/pkg_1.0.0.hpkg"),
        av("2.3.1", "http://repo/pkg_2.3.1.hpkg"),
        av("not-a-version", "http://repo/pkg_x.hpkg"),
    ];
    let latest = resolve_latest(&versions).expect("a parseable version exists");
    assert_eq!(latest.version, "2.3.1");
    assert_eq!(latest.url, "http://repo/pkg_2.3.1.hpkg");

    let exact = resolve_exact(&versions, "2.3.1").expect("the version is listed");
    assert_eq!(exact.version, "2.3.1");
    assert_eq!(exact.url, "http://repo/pkg_2.3.1.hpkg");

    let missing = resolve_exact(&versions, "9.9.9");
    assert!(matches!(missing, Err(HermError::NotFoundError(_))));
}

#[test]
fn version_resolution_prefers_release_over_prerelease() {
    let versions = vec![av("1.0.0-alpha", "a"), av("1.0.0", "b")];
    let latest = resolve_latest(&versions).expect("parseable");
    assert_eq!(latest.version, "1.0.0");
}

#[test]
fn version_resolution_orders_prerelease_identifiers() {
    // numeric identifiers compare numerically, not textually
    let versions = vec![av("1.0.0-alpha.2", "a2"), av("1.0.0-alpha.11", "a11")];
    assert_eq!(resolve_latest(&versions).expect("parseable").version, "1.0.0-alpha.11");
    // a longer identifier list comes after its prefix
    let versions = vec![av("1.0.0-alpha", "a"), av("1.0.0-alpha.1", "a1")];
    assert_eq!(resolve_latest(&versions).expect("parseable").version, "1.0.0-alpha.1");
    // numeric identifiers precede alphanumeric ones
    let versions = vec![av("1.0.0-1", "n"), av("1.0.0-alpha", "a")];
    assert_eq!(resolve_latest(&versions).expect("parseable").version, "1.0.0-alpha");
}

#[test]
fn version_resolution_fails_without_parseable_version() {
    let versions = vec![av("not-a-version", "a"), av("also wrong", "b")];
    let r = resolve_latest(&versions);
    assert!(matches!(r, Err(HermError::NoResolvableVersionError)));
}

#[test]
fn repository_into_index_and_merge_last_write_wins() {
    let repo_a = RepositoryContents {
        name: String::from("a"),
        available_packages: vec![
            AvailablePackage {
                available_versions: vec![av("1.0.0", "http://a/p1")],
                homepage: String::from("http://a"),
                id: String::from("org.example.p"),
            },
            AvailablePackage {
                available_versions: vec![av("0.1.0", "http://a/q1")],
                homepage: String::from("http://a"),
                id: String::from("org.example.q"),
            },
        ],
    };
    let repo_b = RepositoryContents {
        name: String::from("b"),
        available_packages: vec![AvailablePackage {
            available_versions: vec![av("2.0.0", "http://b/p2")],
            homepage: String::from("http://b"),
            id: String::from("org.example.p"),
        }],
    };
    let merged = HermioneConfig::build_index(vec![repo_a, repo_b]);
    // the later repository wins for a shared id; the other id survives
    let p = merged.resolve("org.example.p", &None).expect("resolves");
    assert_eq!(p.version, "2.0.0");
    assert_eq!(p.url, "http://b/p2");
    let q = merged.resolve("org.example.q", &None).expect("resolves");
    assert_eq!(q.version, "0.1.0");
    let absent = merged.resolve("org.example.zzz", &None);
    assert!(matches!(absent, Err(HermError::NotFoundError(_))));
    let pinned = merged.resolve("org.example.p", &Some(String::from("2.0.0"))).expect("resolves");
    assert_eq!(pinned.url, "http://b/p2");
}

#[test]
fn config_add_and_remove_repo_urls() {
    let c = HermioneConfig::default();
    assert_eq!(c.repo_list().len(), 0);
    let c = c.add_repo_url(String::from("http://a"));
    let c = c.add_repo_url(String::from("http://b"));
    let c = c.add_repo_url(String::from("http://a"));
    // adding an existing url moves it to the end instead of duplicating it
    assert_eq!(c.repo_list(), vec![String::from("http://b"), String::from("http://a")]);
    let c = c.remove_repo_url(String::from("http://b"));
    assert_eq!(c.repo_list(), vec![String::from("http://a")]);
}

#[test]
fn manifest_well_formedness() {
    let good = sample_manifest();
    assert!(good.is_well_formed());
    let mut empty_id = sample_manifest();
    empty_id.id = String::from("");
    assert!(!empty_id.is_well_formed());
    let mut escaping = sample_manifest();
    escaping.mappings[0].i = String::from("../outside.txt");
    assert!(!escaping.is_well_formed());
    let mut absolute = sample_manifest();
    absolute.mappings[0].i = String::from("/etc/passwd");
    assert!(!absolute.is_well_formed());
    // dots inside a name are not a parent step
    let mut dotted = sample_manifest();
    dotted.mappings[0].i = String::from("notes..txt");
    assert!(dotted.is_well_formed());
}

#[test]
fn error_messages_name_the_offender() {
    let e = HermError::ConflictError(String::from("/home/x"));
    assert_eq!(e.message(), "will not overwrite: /home/x");
    let e = HermError::NoResolvableVersionError;
    assert_eq!(e.message(), "no resolvable version");
    let e = HermError::AlreadyRunningError;
    assert_eq!(e.message(), "already running");
    let e = HermError::TemplateError(String::from("{{X}}"));
    assert_eq!(e.message(), "unresolvable template: {{X}}");
}

#[test]
fn decimal_rendering() {
    assert_eq!(u64_dec(0), "0");
    assert_eq!(u64_dec(7), "7");
    assert_eq!(u64_dec(90210), "90210");
}

#[test]
fn join_path_inserts_separator() {
    assert_eq!(join_path("/a/b", "c.txt"), "/a/b/c.txt");
}
