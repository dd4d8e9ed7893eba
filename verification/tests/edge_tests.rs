use hermione::codec::{parse_manifest, serialize_manifest};
use hermione::errors::HermError;
use hermione::fsmodel::{FsNode, FsState};
use hermione::lifecycle::{DownloadedPackage, HookRunner};
use hermione::manifest::{FileMappingDefinition, Manifest};
use hermione::packer::Packer;
use hermione::service::PackageService;

struct Silent;

impl HookRunner for Silent {
    fn run_hook(&mut self, _hook_name: &str, _script: &str) -> bool {
        true
    }
}

fn svc() -> PackageService {
    PackageService::new(
        String::from("/cache"),
        String::from("/install"),
        String::from("/home"),
        String::from("unix"),
    )
}

fn manifest_with(id: &str, mappings: Vec<FileMappingDefinition>) -> Manifest {
    Manifest {
        id: String::from(id),
        name: String::from(id),
        version: String::from("1.0.0"),
        description: String::from(""),
        authors: vec![],
        mappings,
        hooks: None,
    }
}

#[test]
fn round_trip_keeps_unicode_and_backslashes() {
    let m = Manifest {
        id: String::from("org.exámple.pandá"),
        name: String::from("name with \\backslash\\ and \\n look-alike"),
        version: String::from("1.0.0"),
        description: String::from("multi\nline\ndescription"),
        authors: vec![String::from("森 鷗外")],
        mappings: vec![],
        hooks: None,
    };
    let text = serialize_manifest(&m);
    let back = parse_manifest(text.as_str()).expect("parses");
    assert_eq!(back.id, "org.exámple.pandá");
    assert_eq!(back.name, "name with \\backslash\\ and \\n look-alike");
    assert_eq!(back.description, "multi\nline\ndescription");
    assert_eq!(back.authors, vec![String::from("森 鷗外")]);
}

#[test]
fn parse_rejects_text_after_hooks() {
    let text = "id: a\nname: n\nversion: 1\ndescription: d\nauthors:\nmappings:\nhooks:\nsomething else\n";
    assert!(matches!(parse_manifest(text), Err(HermError::ManifestError(_))));
}

#[test]
fn two_mappings_to_one_destination_stop_at_the_conflict() {
    let mut fs = FsState::new();
    let service = svc();
    let mut runner = Silent;
    let manifest = manifest_with(
        "org.example.dup",
        vec![
            FileMappingDefinition::new(
                String::from("a.txt"),
                String::from("{{HOME}}/same.txt"),
                None,
                None,
            ),
            FileMappingDefinition::new(
                String::from("b.txt"),
                String::from("{{HOME}}/same.txt"),
                None,
                None,
            ),
        ],
    );
    fs.set("/cache/org.example.dup", FsNode::Dir);
    fs.set("/cache/org.example.dup/a.txt", FsNode::File(b"a".to_vec()));
    fs.set("/cache/org.example.dup/b.txt", FsNode::File(b"b".to_vec()));
    let text = serialize_manifest(&manifest);
    fs.set("/cache/org.example.dup/hermione.yml", FsNode::File(text.into_bytes()));

    let downloaded = DownloadedPackage { local_path: String::from("/cache/org.example.dup") };
    // the validation pass sees a free destination for both mappings; the
    // second link then refuses to overwrite the first, and the install
    // stops there with the first link in place
    let r = downloaded.install(&mut fs, &service, &mut runner);
    assert!(matches!(r, Err(HermError::ConflictError(_))));
    assert!(fs.contains("/home/same.txt"));
}

#[test]
fn upgrade_reinstalls_from_the_cache_slot() {
    let mut fs = FsState::new();
    let service = svc();
    let mut runner = Silent;
    let manifest = manifest_with(
        "org.example.up",
        vec![FileMappingDefinition::new(
            String::from("f.txt"),
            String::from("{{HOME}}/f.txt"),
            None,
            None,
        )],
    );
    fs.set("/cache/org.example.up", FsNode::Dir);
    fs.set("/cache/org.example.up/f.txt", FsNode::File(b"v1".to_vec()));
    let text = serialize_manifest(&manifest);
    fs.set("/cache/org.example.up/hermione.yml", FsNode::File(text.into_bytes()));

    let downloaded = DownloadedPackage { local_path: String::from("/cache/org.example.up") };
    let installed = downloaded.install(&mut fs, &service, &mut runner).expect("installs");
    let back = installed.uninstall(&mut fs, &service).expect("uninstalls");
    // the re-fetch failed, so the cache slot still holds the previous
    // contents, and upgrading reinstates them
    let again = back.upgrade(&mut fs, &service, &mut runner).expect("reinstalls");
    assert_eq!(again.manifest.id, "org.example.up");
    assert_eq!(fs.read_file("/home/f.txt").expect("linked"), &b"v1".to_vec());
}

#[test]
fn pack_requires_a_directory_with_a_manifest() {
    let mut fs = FsState::new();
    let service = svc();
    let not_a_dir = Packer::new(String::from("/nowhere"));
    assert!(matches!(not_a_dir.pack(&mut fs, &service), Err(HermError::IoError(_))));

    fs.set("/bare", FsNode::Dir);
    let bare = Packer::new(String::from("/bare"));
    assert!(matches!(bare.pack(&mut fs, &service), Err(HermError::NotFoundError(_))));
}

#[test]
fn pack_requires_every_applicable_source() {
    let mut fs = FsState::new();
    let service = svc();
    let manifest = manifest_with(
        "org.example.missing",
        vec![FileMappingDefinition::new(
            String::from("gone.txt"),
            String::from("{{HOME}}/gone.txt"),
            None,
            None,
        )],
    );
    fs.set("/pkg", FsNode::Dir);
    let text = serialize_manifest(&manifest);
    fs.set("/pkg/hermione.yml", FsNode::File(text.into_bytes()));
    let packer = Packer::new(String::from("/pkg"));
    assert!(matches!(packer.pack(&mut fs, &service), Err(HermError::NotFoundError(_))));
}

#[test]
fn foreign_bytes_are_not_an_archive() {
    let mut fs = FsState::new();
    fs.set("/junk.hpkg", FsNode::File(b"this is not a gzip stream".to_vec()));
    let packer = Packer::new(String::from("/junk.hpkg"));
    let r = packer.get_manifest_from_archive(&fs);
    assert!(matches!(r, Err(HermError::IoError(_))));
    let mut fs2 = FsState::new();
    fs2.set("/junk.hpkg", FsNode::File(b"nor this".to_vec()));
    let r2 = Packer::new(String::from("/junk.hpkg")).unpack(&mut fs2, "/cache");
    assert!(r2.is_err());
}

#[test]
fn publishing_collects_versions_from_archives() {
    let mut fs = FsState::new();
    let service = svc();
    let manifest = manifest_with(
        "org.example.pub",
        vec![FileMappingDefinition::new(
            String::from("f.txt"),
            String::from("{{HOME}}/f.txt"),
            None,
            None,
        )],
    );
    fs.set("/pkg", FsNode::Dir);
    fs.set("/pkg/f.txt", FsNode::File(b"f".to_vec()));
    let text = serialize_manifest(&manifest);
    fs.set("/pkg/hermione.yml", FsNode::File(text.into_bytes()));
    let (name, bytes) = Packer::new(String::from("/pkg")).pack(&mut fs, &service).expect("packs");
    let archive_path = format!("/archives/{}", name);
    fs.set(&archive_path, FsNode::File(bytes));
    fs.set("/archives/broken.hpkg", FsNode::File(b"junk".to_vec()));

    let listed = hermione::packer::collect_available_versions(
        &fs,
        &vec![archive_path, String::from("/archives/broken.hpkg")],
        "http://repo.example.org/packages",
    );
    // the valid archive is published, the broken one is skipped
    assert_eq!(listed.len(), 1);
    assert_eq!(listed[0].version, "1.0.0");
    assert_eq!(
        listed[0].url,
        "http://repo.example.org/packages/org.example.pub_1.0.0.hpkg"
    );
}

#[test]
fn integrity_mismatch_blocks_the_whole_install() {
    let mut fs = FsState::new();
    let service = svc();
    let mut runner = Silent;
    let manifest = manifest_with(
        "org.example.bad",
        vec![FileMappingDefinition::new(
            String::from("f.txt"),
            String::from("{{HOME}}/f.txt"),
            None,
            Some(String::from("sha256-doesnotmatch")),
        )],
    );
    fs.set("/cache/org.example.bad", FsNode::Dir);
    fs.set("/cache/org.example.bad/f.txt", FsNode::File(b"data".to_vec()));
    let text = serialize_manifest(&manifest);
    fs.set("/cache/org.example.bad/hermione.yml", FsNode::File(text.into_bytes()));

    let downloaded = DownloadedPackage { local_path: String::from("/cache/org.example.bad") };
    let r = downloaded.install(&mut fs, &service, &mut runner);
    assert!(matches!(r, Err(HermError::IntegrityError(_))));
    assert!(!fs.contains("/home/f.txt"));
    assert!(!fs.contains("/install/org.example.bad"));
}

#[test]
fn pack_rejects_paths_outside_tar_normal_form() {
    let mut fs = FsState::new();
    let service = svc();
    let manifest = manifest_with(
        "org.example.dotted",
        vec![FileMappingDefinition::new(
            String::from("./f.txt"),
            String::from("{{HOME}}/f.txt"),
            None,
            None,
        )],
    );
    fs.set("/pkg2", FsNode::Dir);
    fs.set("/pkg2/./f.txt", FsNode::File(b"f".to_vec()));
    let text = serialize_manifest(&manifest);
    fs.set("/pkg2/hermione.yml", FsNode::File(text.into_bytes()));
    // tar would store `./f.txt` as `f.txt`, so the archive could not read
    // back verbatim; the packer refuses instead
    let r = Packer::new(String::from("/pkg2")).pack(&mut fs, &service);
    assert!(matches!(r, Err(HermError::IoError(_))));
}

#[test]
fn lifecycle_enforces_the_manifest_invariant() {
    let mut fs = FsState::new();
    let service = svc();
    let mut runner = Silent;
    // an empty id breaks the manifest invariant
    let mut bad = manifest_with("org.example.bad-id", vec![]);
    bad.id = String::from("");
    let text = serialize_manifest(&bad);
    fs.set("/cache/pkg", FsNode::Dir);
    fs.set("/cache/pkg/hermione.yml", FsNode::File(text.into_bytes()));
    let downloaded = DownloadedPackage { local_path: String::from("/cache/pkg") };
    let r = downloaded.install(&mut fs, &service, &mut runner);
    assert!(matches!(r, Err(HermError::ManifestError(_))));
    assert!(!fs.contains("/install/"));

    // an escaping input path breaks it too, for packing as well
    let mut escaping = manifest_with("org.example.esc", vec![FileMappingDefinition::new(
        String::from("../outside.txt"),
        String::from("{{HOME}}/x"),
        None,
        None,
    )]);
    escaping.version = String::from("1.0.0");
    let text2 = serialize_manifest(&escaping);
    fs.set("/pkg3", FsNode::Dir);
    fs.set("/pkg3/hermione.yml", FsNode::File(text2.into_bytes()));
    let r2 = Packer::new(String::from("/pkg3")).pack(&mut fs, &service);
    assert!(matches!(r2, Err(HermError::ManifestError(_))));
}

#[test]
fn blank_digests_fail_the_check_without_panicking() {
    let bytes: Vec<u8> = b"hello".to_vec();
    for blank in ["", " ", " \t  "] {
        let d = FileMappingDefinition::new(
            String::from("a"),
            String::from("b"),
            None,
            Some(String::from(blank)),
        );
        assert!(!d.verify_integrity(&bytes));
    }
}

#[test]
fn parsing_enforces_the_manifest_invariant() {
    // an empty id is refused at the parse boundary
    let mut empty_id = manifest_with("x", vec![]);
    empty_id.id = String::from("");
    let text = serialize_manifest(&empty_id);
    assert!(matches!(parse_manifest(text.as_str()), Err(HermError::ManifestError(_))));
    // so is an input path that escapes the package root
    let escaping = manifest_with("org.example.esc", vec![FileMappingDefinition::new(
        String::from("../outside.txt"),
        String::from("{{HOME}}/x"),
        None,
        None,
    )]);
    let text2 = serialize_manifest(&escaping);
    assert!(matches!(parse_manifest(text2.as_str()), Err(HermError::ManifestError(_))));
    // dots inside a file name are not a parent step
    let dotted = manifest_with("org.example.dots", vec![FileMappingDefinition::new(
        String::from("notes..txt"),
        String::from("{{HOME}}/notes..txt"),
        None,
        None,
    )]);
    let text3 = serialize_manifest(&dotted);
    assert!(parse_manifest(text3.as_str()).is_ok());
}

#[test]
fn aggregate_validation_error_joins_every_message() {
    let mut fs = FsState::new();
    let service = svc();
    let mut runner = Silent;
    let manifest = manifest_with(
        "org.example.agg",
        vec![
            FileMappingDefinition::new(
                String::from("one.txt"),
                String::from("{{NOPE}}/one.txt"),
                None,
                None,
            ),
            FileMappingDefinition::new(
                String::from("two.txt"),
                String::from("{{HOME}}/two.txt"),
                None,
                None,
            ),
        ],
    );
    fs.set("/cache/org.example.agg", FsNode::Dir);
    fs.set("/cache/org.example.agg/one.txt", FsNode::File(b"1".to_vec()));
    // two.txt is missing, so two errors are collected
    let text = serialize_manifest(&manifest);
    fs.set("/cache/org.example.agg/hermione.yml", FsNode::File(text.into_bytes()));
    let downloaded = DownloadedPackage { local_path: String::from("/cache/org.example.agg") };
    let e = match downloaded.install(&mut fs, &service, &mut runner) {
        Err(e) => e,
        Ok(_) => panic!("the install must fail validation"),
    };
    assert!(matches!(e, HermError::TemplateError(_)));
    let message = e.message();
    assert!(message.contains("unresolvable template"));
    assert!(message.contains("two.txt"));
}

#[test]
fn integrity_honors_the_digest_algorithm_tag() {
    let bytes: Vec<u8> = b"hello".to_vec();
    // a digest recorded under another supported algorithm still verifies:
    // the tag is self-describing
    let sha512 = ssri::IntegrityOpts::new()
        .algorithm(ssri::Algorithm::Sha512)
        .chain(&bytes)
        .result()
        .to_string();
    let d = FileMappingDefinition::new(
        String::from("a"),
        String::from("b"),
        None,
        Some(sha512),
    );
    assert!(d.verify_integrity(&bytes));
    assert!(!d.verify_integrity(&b"tampered".to_vec()));
    // an unparseable digest never passes
    let junk = FileMappingDefinition::new(
        String::from("a"),
        String::from("b"),
        None,
        Some(String::from("not a digest")),
    );
    assert!(!junk.verify_integrity(&bytes));
}
