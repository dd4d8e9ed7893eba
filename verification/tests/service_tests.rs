use hermione::codec::serialize_manifest;
use hermione::fsmodel::{FsNode, FsState};
use hermione::lifecycle::HookRunner;
use hermione::manifest::{FileMappingDefinition, Manifest};
use hermione::service::PackageService;

struct Quiet;

impl HookRunner for Quiet {
    fn run_hook(&mut self, _hook_name: &str, _script: &str) -> bool {
        true
    }
}

fn package_service() -> PackageService {
    PackageService::new(
        String::from("/cache"),
        String::from("/install"),
        String::from("/home"),
        String::from("unix"),
    )
}

/// Puts the example package's directory into the filesystem model, at the
/// relative path its `file://` source names.
fn example_package(fs: &mut FsState) {
    let manifest = Manifest {
        id: String::from("org.hermione.example-package"),
        name: String::from("example-package"),
        version: String::from("1.0.0"),
        description: String::from("An example package"),
        authors: vec![String::from("Panda")],
        mappings: vec![FileMappingDefinition::new(
            String::from("bamboo.txt"),
            String::from("{{HOME}}/bamboo.txt"),
            None,
            None,
        )],
        hooks: None,
    };
    fs.set("./example-package", FsNode::Dir);
    fs.set("./example-package/bamboo.txt", FsNode::File(b"crunch".to_vec()));
    let text = serialize_manifest(&manifest);
    fs.set("./example-package/hermione.yml", FsNode::File(text.into_bytes()));
}

#[test]
fn test_from_package_name_with_real_name() {
    let name = String::from("org.hermione.example-package");
    let mut fs = FsState::new();
    let mut runner = Quiet;
    example_package(&mut fs);
    let service = package_service();
    let installed_package = service
        .download_and_install(&mut fs, "file://./example-package", &mut runner)
        .expect("Failed to install package");

    assert!(service.get_installed_package(&fs, name.as_str()).is_ok());
    installed_package.remove(&mut fs, &service, &mut runner).expect("Failed to clean up dir");
}

#[test]
fn test_list_installed_packages_with_nothing() {
    let fs = FsState::new();
    let service = package_service();
    let installed_package_list = service.list_installed_packages(&fs);
    assert_eq!(0, installed_package_list.len());
}

#[test]
fn test_list_installed_packages_with_package() {
    let mut fs = FsState::new();
    let mut runner = Quiet;
    example_package(&mut fs);
    let service = package_service();
    service
        .download_and_install(&mut fs, "file://./example-package", &mut runner)
        .expect("Unable to instantiate package in test");

    let installed_package_list = service.list_installed_packages(&fs);
    assert_eq!(1, installed_package_list.len());
}

#[test]
fn test_download_and_install() {
    let mut fs = FsState::new();
    let mut runner = Quiet;
    example_package(&mut fs);
    let service = package_service();

    service
        .download_and_install(&mut fs, "file://./example-package", &mut runner)
        .expect("Unable to instantiate package in test");

    let installed_path = service
        .installed_package_path(&fs, "org.hermione.example-package")
        .expect("Unable to remove example-package in test");
    assert!(fs.find_node(installed_path.as_str()).is_some());
}

#[test]
fn test_install_package_path() {
    let package_name = "org.hermione.example-package";
    let mut fs = FsState::new();
    let mut runner = Quiet;
    example_package(&mut fs);
    let service = package_service();

    service
        .download_and_install(&mut fs, "file://./example-package", &mut runner)
        .expect("Failed to install package in test");

    let actual = service
        .installed_package_path(&fs, package_name)
        .expect("Package is not installed in test");

    let expected = format!("{}/{}", service.install_dir(), package_name);
    assert_eq!(expected, actual);
}
