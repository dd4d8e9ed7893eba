use hermione::codec::serialize_manifest;
use hermione::errors::HermError;
use hermione::file_mapping::FileMapping;
use hermione::fsmodel::{FsNode, FsState};
use hermione::lifecycle::HookRunner;
use hermione::manifest::{FileMappingDefinition, Hooks, Manifest};
use hermione::packer::Packer;
use hermione::service::PackageService;

struct Obedient;

impl HookRunner for Obedient {
    fn run_hook(&mut self, _hook_name: &str, _script: &str) -> bool {
        true
    }
}

struct Refusing {
    refuse: &'static str,
    log: Vec<String>,
}

impl HookRunner for Refusing {
    fn run_hook(&mut self, hook_name: &str, _script: &str) -> bool {
        self.log.push(String::from(hook_name));
        hook_name != self.refuse
    }
}

fn svc() -> PackageService {
    PackageService::new(
        String::from("/cache"),
        String::from("/install"),
        String::from("/home"),
        String::from("unix"),
    )
}

fn sample_package(fs: &mut FsState, hooks: Option<Hooks>) {
    let manifest = Manifest {
        id: String::from("org.hermione.example-package"),
        name: String::from("example-package"),
        version: String::from("1.0.0"),
        description: String::from("a sample"),
        authors: vec![String::from("Alice")],
        mappings: vec![FileMappingDefinition::new(
            String::from("sample.txt"),
            String::from("{{HOME}}/sample.txt"),
            None,
            None,
        )],
        hooks,
    };
    fs.set("/src/example-package", FsNode::Dir);
    fs.set("/src/example-package/sample.txt", FsNode::File(b"bamboo shoots".to_vec()));
    let text = serialize_manifest(&manifest);
    fs.set(
        "/src/example-package/hermione.yml",
        FsNode::File(text.into_bytes()),
    );
}

#[test]
fn end_to_end_pack_unpack_install_remove() {
    let mut fs = FsState::new();
    let service = svc();
    let mut runner = Obedient;
    sample_package(&mut fs, None);

    // pack the directory into one archive; the name carries id and version
    let packer = Packer::new(String::from("/src/example-package"));
    let (name, bytes) = packer.pack(&mut fs, &service).expect("packing succeeds");
    assert_eq!(name, "org.hermione.example-package_1.0.0.hpkg");

    // the manifest written back now records an integrity digest
    let updated = hermione::lifecycle::read_manifest(&fs, "/src/example-package")
        .expect("updated manifest reads back");
    let digest = updated.mappings[0].integrity.clone().expect("digest recorded");
    assert!(digest.starts_with("sha256-"));
    assert!(updated.mappings[0].verify_integrity(&b"bamboo shoots".to_vec()));

    // the manifest can be read straight out of the archive
    fs.set("/downloads/pkg.hpkg", FsNode::File(bytes));
    let from_archive = Packer::new(String::from("/downloads/pkg.hpkg"))
        .get_manifest_from_archive(&fs)
        .expect("the archive holds a manifest");
    assert_eq!(from_archive.id, "org.hermione.example-package");
    assert_eq!(from_archive.mappings[0].integrity, Some(digest.clone()));

    // downloading the archive unpacks it into the cache by package id
    let downloaded = service
        .download(&mut fs, "file:///downloads/pkg.hpkg")
        .expect("a local archive source downloads");
    assert_eq!(downloaded.local_path, "/cache/org.hermione.example-package");
    let cached = fs
        .read_file("/cache/org.hermione.example-package/sample.txt")
        .expect("the cache holds the file");
    assert_eq!(cached, &b"bamboo shoots".to_vec());
    // the unpacked file still matches the digest recorded at pack time
    assert!(from_archive.mappings[0].verify_integrity(cached));

    // installing copies the tree and links the mapping into the home
    let installed = downloaded.install(&mut fs, &service, &mut runner).expect("installs");
    assert_eq!(installed.local_path, "/install/org.hermione.example-package");
    let linked = fs.read_file("/home/sample.txt").expect("the mapping is linked");
    assert_eq!(linked, &b"bamboo shoots".to_vec());

    // uninstalling unlinks the mapping but keeps the cache copy
    let back = installed.uninstall(&mut fs, &service).expect("uninstalls");
    assert_eq!(back.local_path, "/cache/org.hermione.example-package");
    assert!(fs.read_file("/home/sample.txt").is_none());
    assert!(fs.read_file("/cache/org.hermione.example-package/sample.txt").is_some());

    // imploding clears the cache too
    let complete = service.implode(&mut fs, &mut runner).expect("implodes");
    assert!(complete);
    assert!(fs.read_file("/cache/org.hermione.example-package/sample.txt").is_none());
}

#[test]
fn uninstall_twice_never_errors() {
    let mut fs = FsState::new();
    let service = svc();
    let mut runner = Obedient;
    sample_package(&mut fs, None);
    let downloaded = service
        .download(&mut fs, "file:///src/example-package")
        .expect("a local directory source downloads");
    let installed = downloaded.install(&mut fs, &service, &mut runner).expect("installs");
    assert!(fs.contains("/home/sample.txt"));

    let first = installed.uninstall(&mut fs, &service);
    assert!(first.is_ok());
    assert!(!fs.contains("/home/sample.txt"));

    // the second run reports nothing to do for each mapping and changes nothing
    let second = installed.uninstall(&mut fs, &service);
    assert!(second.is_ok());
    assert!(!fs.contains("/home/sample.txt"));
}

#[test]
fn install_never_overwrites_an_existing_destination() {
    let mut fs = FsState::new();
    let service = svc();
    let mut runner = Obedient;
    sample_package(&mut fs, None);
    fs.set("/home/sample.txt", FsNode::File(b"precious user data".to_vec()));

    let downloaded = service
        .download(&mut fs, "file:///src/example-package")
        .expect("downloads");
    let r = downloaded.install(&mut fs, &service, &mut runner);
    assert!(r.is_err());
    // the existing file's contents are untouched
    assert_eq!(
        fs.read_file("/home/sample.txt").expect("still there"),
        &b"precious user data".to_vec()
    );
}

#[test]
fn install_is_all_or_nothing() {
    let mut fs = FsState::new();
    let service = svc();
    let mut runner = Obedient;
    let manifest = Manifest {
        id: String::from("org.example.two"),
        name: String::from("two"),
        version: String::from("1.0.0"),
        description: String::from(""),
        authors: vec![],
        mappings: vec![
            FileMappingDefinition::new(
                String::from("good.txt"),
                String::from("{{HOME}}/good.txt"),
                None,
                None,
            ),
            FileMappingDefinition::new(
                String::from("bad.txt"),
                String::from("{{ELSEWHERE}}/bad.txt"),
                None,
                None,
            ),
        ],
        hooks: None,
    };
    fs.set("/cache/org.example.two", FsNode::Dir);
    fs.set("/cache/org.example.two/good.txt", FsNode::File(b"g".to_vec()));
    fs.set("/cache/org.example.two/bad.txt", FsNode::File(b"b".to_vec()));
    let text = serialize_manifest(&manifest);
    fs.set("/cache/org.example.two/hermione.yml", FsNode::File(text.into_bytes()));

    let downloaded =
        hermione::lifecycle::DownloadedPackage { local_path: String::from("/cache/org.example.two") };
    let r = downloaded.install(&mut fs, &service, &mut runner);
    assert!(matches!(r, Err(HermError::TemplateError(_))));
    // no mapping was linked and nothing was copied
    assert!(!fs.contains("/home/good.txt"));
    assert!(!fs.contains("/install/org.example.two/good.txt"));
    assert!(!fs.contains("/install/org.example.two"));
}

#[test]
fn platform_mismatch_is_skipped_entirely() {
    let mut fs = FsState::new();
    let service = svc();
    let mut runner = Obedient;
    let manifest = Manifest {
        id: String::from("org.example.win"),
        name: String::from("win"),
        version: String::from("1.0.0"),
        description: String::from(""),
        authors: vec![],
        mappings: vec![
            FileMappingDefinition::new(
                String::from("everywhere.txt"),
                String::from("{{HOME}}/everywhere.txt"),
                None,
                None,
            ),
            // this mapping's source is missing and its digest is bogus: on
            // `unix` it must never be rendered, verified or installed
            FileMappingDefinition::new(
                String::from("windows-only.txt"),
                String::from("{{HOME}}/windows-only.txt"),
                Some(String::from("windows")),
                Some(String::from("sha256-bogus")),
            ),
        ],
        hooks: None,
    };
    fs.set("/cache/org.example.win", FsNode::Dir);
    fs.set("/cache/org.example.win/everywhere.txt", FsNode::File(b"e".to_vec()));
    let text = serialize_manifest(&manifest);
    fs.set("/cache/org.example.win/hermione.yml", FsNode::File(text.into_bytes()));

    let downloaded =
        hermione::lifecycle::DownloadedPackage { local_path: String::from("/cache/org.example.win") };
    downloaded.install(&mut fs, &service, &mut runner).expect("the windows mapping is skipped");
    assert!(fs.contains("/home/everywhere.txt"));
    assert!(!fs.contains("/home/windows-only.txt"));
}

#[test]
fn refused_pre_install_hook_aborts_before_any_mutation() {
    let mut fs = FsState::new();
    let service = svc();
    let mut runner = Refusing { refuse: "pre_install", log: Vec::new() };
    sample_package(
        &mut fs,
        Some(Hooks {
            pre_install: Some(String::from("exit 1")),
            post_install: Some(String::from("echo done")),
            pre_remove: None,
            post_remove: None,
        }),
    );
    let downloaded = service
        .download(&mut fs, "file:///src/example-package")
        .expect("downloads");
    let r = downloaded.install(&mut fs, &service, &mut runner);
    assert!(matches!(r, Err(HermError::IoError(_))));
    assert!(!fs.contains("/home/sample.txt"));
    assert!(!fs.contains("/install/org.hermione.example-package/sample.txt"));
    // the pre-install hook ran, the post-install hook never did
    assert_eq!(runner.log, vec![String::from("pre_install")]);
}

#[test]
fn lockfile_excludes_a_second_invocation() {
    let mut fs = FsState::new();
    let service = svc();
    assert!(service.lockfile(&mut fs, 42).is_ok());
    // the lockfile records the process id as its diagnostic content
    assert_eq!(
        fs.read_file("/install/hermione.lock").expect("lock exists"),
        &b"42".to_vec()
    );
    let second = service.lockfile(&mut fs, 43);
    assert!(matches!(second, Err(HermError::AlreadyRunningError)));
    service.release_lock(&mut fs);
    assert!(service.lockfile(&mut fs, 44).is_ok());
}

#[test]
fn per_mapping_installer_behaviour() {
    let mut fs = FsState::new();
    fs.set("/pkg/a.txt", FsNode::File(b"a".to_vec()));
    let mapping = FileMapping::new(String::from("/pkg/a.txt"), String::from("/home/a.txt"));
    assert!(mapping.pre_install_check(&fs).is_ok());
    let line = mapping.install(&mut fs).expect("links");
    assert_eq!(line, "<blue>Linking</> /pkg/a.txt <blue>-></> /home/a.txt");
    assert_eq!(fs.read_file("/home/a.txt").expect("linked"), &b"a".to_vec());
    // a second install refuses to overwrite
    let again = mapping.install(&mut fs);
    assert!(matches!(again, Err(HermError::ConflictError(_))));
    // uninstall removes it; a repeat finds nothing to do
    let gone = mapping.uninstall(&mut fs).expect("unlinks");
    assert_eq!(gone, "<yellow>Unlinked</> /home/a.txt");
    let nothing = mapping.uninstall(&mut fs).expect("nothing to do is not an error");
    assert_eq!(nothing, "Not removing /home/a.txt because it is not a file");
    // a missing source refuses to install
    let missing = FileMapping::new(String::from("/pkg/zzz.txt"), String::from("/home/z.txt"));
    assert!(matches!(missing.install(&mut fs), Err(HermError::NotFoundError(_))));
}

#[test]
fn list_and_get_installed_packages() {
    let mut fs = FsState::new();
    let service = svc();
    let mut runner = Obedient;
    sample_package(&mut fs, None);
    service
        .download_and_install(&mut fs, "file:///src/example-package", &mut runner)
        .expect("installs");
    let listed = service.list_installed_packages(&fs);
    assert_eq!(listed.len(), 1);
    assert_eq!(listed[0].manifest.id, "org.hermione.example-package");
    let got = service
        .get_installed_package(&fs, "org.hermione.example-package")
        .expect("found");
    assert_eq!(got.local_path, "/install/org.hermione.example-package");
    assert!(service.get_installed_package(&fs, "org.example.absent").is_err());
    assert!(service.get_installed_package(&fs, "").is_err());
}

#[test]
fn remove_runs_hooks_and_clears_the_cache_slot() {
    let mut fs = FsState::new();
    let service = svc();
    let mut runner = Refusing { refuse: "never", log: Vec::new() };
    sample_package(
        &mut fs,
        Some(Hooks {
            pre_install: None,
            post_install: None,
            pre_remove: Some(String::from("echo pre")),
            post_remove: Some(String::from("echo post")),
        }),
    );
    let installed = service
        .download_and_install(&mut fs, "file:///src/example-package", &mut runner)
        .expect("installs");
    let ok = installed.remove(&mut fs, &service, &mut runner).expect("removes");
    assert!(ok);
    assert!(!fs.contains("/home/sample.txt"));
    assert!(!fs.contains("/install/org.hermione.example-package/sample.txt"));
    assert!(!fs.contains("/cache/org.hermione.example-package/sample.txt"));
    assert_eq!(runner.log, vec![String::from("pre_remove"), String::from("post_remove")]);
}

#[test]
fn download_refuses_remote_sources() {
    let mut fs = FsState::new();
    let service = svc();
    let r = service.download(&mut fs, "http://example.org/pkg.hpkg");
    assert!(matches!(r, Err(HermError::IoError(_))));
    let missing = service.download(&mut fs, "file:///nowhere");
    assert!(matches!(missing, Err(HermError::NotFoundError(_))));
}

#[test]
fn blank_package_names_are_refused() {
    let mut fs = FsState::new();
    let service = svc();
    // even with a directory of that name installed, a name that trims to
    // nothing is refused
    fs.set("/install/  ", FsNode::Dir);
    assert!(matches!(
        service.get_installed_package(&fs, "  "),
        Err(HermError::NotFoundError(_))
    ));
    assert!(matches!(
        service.installed_package_path(&fs, " \t "),
        Err(HermError::NotFoundError(_))
    ));
    assert!(matches!(
        service.installed_package_path(&fs, ""),
        Err(HermError::NotFoundError(_))
    ));
}

#[test]
fn purge_removes_every_installed_package() {
    let mut fs = FsState::new();
    let service = svc();
    let mut runner = Obedient;
    sample_package(&mut fs, None);
    service
        .download_and_install(&mut fs, "file:///src/example-package", &mut runner)
        .expect("installs");
    assert_eq!(service.list_installed_packages(&fs).len(), 1);
    service.purge_installed_packages(&mut fs, &mut runner).expect("purges");
    assert_eq!(service.list_installed_packages(&fs).len(), 0);
    assert!(!fs.contains("/home/sample.txt"));
}

#[test]
fn implode_keeps_the_install_dir_when_a_removal_fails() {
    let mut fs = FsState::new();
    let service = svc();
    let mut installer = Obedient;
    sample_package(
        &mut fs,
        Some(Hooks {
            pre_install: None,
            post_install: None,
            pre_remove: Some(String::from("exit 1")),
            post_remove: None,
        }),
    );
    service
        .download_and_install(&mut fs, "file:///src/example-package", &mut installer)
        .expect("installs");
    // the pre-remove hook refuses, so the purge fails; the install tree is
    // kept for the owner, the download cache goes regardless
    let mut refusing = Refusing { refuse: "pre_remove", log: Vec::new() };
    let complete = service.implode(&mut fs, &mut refusing).expect("implode reports back");
    assert!(!complete);
    assert!(fs.contains("/install/org.hermione.example-package/hermione.yml"));
    assert!(!fs.contains("/cache/org.hermione.example-package/hermione.yml"));
}

#[test]
fn listing_is_sorted_by_path() {
    let mut fs = FsState::new();
    let service = svc();
    let mut runner = Obedient;
    for id in ["org.zeta.pkg", "org.alpha.pkg", "org.mid.pkg"] {
        let manifest = Manifest {
            id: String::from(id),
            name: String::from(id),
            version: String::from("1.0.0"),
            description: String::from(""),
            authors: vec![],
            mappings: vec![],
            hooks: None,
        };
        let root = format!("/src/{}", id);
        fs.set(&root, FsNode::Dir);
        let text = serialize_manifest(&manifest);
        fs.set(&format!("{}/hermione.yml", root), FsNode::File(text.into_bytes()));
        let src = format!("file://{}", root);
        service.download_and_install(&mut fs, &src, &mut runner).expect("installs");
    }
    let listed = service.list_installed_packages(&fs);
    let ids: Vec<&str> = listed.iter().map(|p| p.manifest.id.as_str()).collect();
    assert_eq!(ids, vec!["org.alpha.pkg", "org.mid.pkg", "org.zeta.pkg"]);
}
