use vstd::prelude::*;

use crate::text::str_eq;

verus! {

/// The mathematical value of a file mapping definition.
pub ghost struct MappingV {
    pub i: Seq<char>,
    pub o: Seq<char>,
    pub platform: Option<Seq<char>>,
    pub integrity: Option<Seq<char>>,
}

/// A file mapping definition names an input file `i` inside the package and
/// the output location `o` it should be placed at on the host, optionally
/// constrained to one platform family and guarded by a content digest.
#[derive(Debug, PartialEq)]
pub struct FileMappingDefinition {
    /// Input file path: where the desired file is inside the package.
    pub i: String,
    /// Output file path template: where it should go on the system.
    pub o: String,
    /// Restricts the mapping to one platform family (`unix` or `windows`).
    pub platform: Option<String>,
    /// Subresource-Integrity-style content digest of the input file.
    pub integrity: Option<String>,
}

impl View for FileMappingDefinition {
    type V = MappingV;

    open spec fn view(&self) -> MappingV {
        MappingV {
            i: self.i@,
            o: self.o@,
            platform: self.platform.deep_view(),
            integrity: self.integrity.deep_view(),
        }
    }
}

impl DeepView for FileMappingDefinition {
    type V = MappingV;

    open spec fn deep_view(&self) -> MappingV {
        self.view()
    }
}

impl FileMappingDefinition {
    /// Builds a mapping definition from its four fields.
    pub fn new(
        i: String,
        o: String,
        platform: Option<String>,
        integrity: Option<String>,
    ) -> (r: FileMappingDefinition)
        ensures
            r@ == (MappingV {
                i: i@,
                o: o@,
                platform: platform.deep_view(),
                integrity: integrity.deep_view(),
            }),
    {
        FileMappingDefinition { i, o, platform, integrity }
    }

    /// True when the mapping applies on the given running platform family:
    /// an unset constraint applies everywhere.
    pub fn valid_platform_family(&self, running_platform: &str) -> (r: bool)
        ensures
            r == spec_valid_platform(self@, running_platform@),
    {
        match &self.platform {
            Some(p) => str_eq(p.as_str(), running_platform),
            None => true,
        }
    }
}

/// True when a mapping applies on the given platform family.
pub open spec fn spec_valid_platform(m: MappingV, running_platform: Seq<char>) -> bool {
    match m.platform {
        Some(p) => p == running_platform,
        None => true,
    }
}

/// The mathematical value of the optional lifecycle hooks.
pub ghost struct HooksV {
    pub pre_install: Option<Seq<char>>,
    pub post_install: Option<Seq<char>>,
    pub pre_remove: Option<Seq<char>>,
    pub post_remove: Option<Seq<char>>,
}

/// Optional script bodies run at defined lifecycle points.
#[derive(Debug, PartialEq)]
pub struct Hooks {
    pub pre_install: Option<String>,
    pub post_install: Option<String>,
    pub pre_remove: Option<String>,
    pub post_remove: Option<String>,
}

impl View for Hooks {
    type V = HooksV;

    open spec fn view(&self) -> HooksV {
        HooksV {
            pre_install: self.pre_install.deep_view(),
            post_install: self.post_install.deep_view(),
            pre_remove: self.pre_remove.deep_view(),
            post_remove: self.post_remove.deep_view(),
        }
    }
}

/// The mathematical value of a manifest.
pub ghost struct ManifestV {
    pub id: Seq<char>,
    pub name: Seq<char>,
    pub version: Seq<char>,
    pub description: Seq<char>,
    pub authors: Seq<Seq<char>>,
    pub mappings: Seq<MappingV>,
    pub hooks: Option<HooksV>,
}

/// The declarative description of a package: identity, file mappings and
/// optional lifecycle hooks.
#[derive(Debug, PartialEq)]
pub struct Manifest {
    /// A unique "reverse domain name" identifier for the package.
    pub id: String,
    /// Name of the package.
    pub name: String,
    /// Semantic version string of the package.
    pub version: String,
    /// A short description of the package.
    pub description: String,
    /// The package's authors.
    pub authors: Vec<String>,
    /// The mappings define what file moves where.
    pub mappings: Vec<FileMappingDefinition>,
    /// Optional lifecycle hook scripts.
    pub hooks: Option<Hooks>,
}

/// The view of an optional hooks field.
pub open spec fn spec_hooks_view(h: &Option<Hooks>) -> Option<HooksV> {
    match h {
        Some(hh) => Some(hh@),
        None => None,
    }
}

impl View for Manifest {
    type V = ManifestV;

    open spec fn view(&self) -> ManifestV {
        ManifestV {
            id: self.id@,
            name: self.name@,
            version: self.version@,
            description: self.description@,
            authors: self.authors.deep_view(),
            mappings: Seq::new(self.mappings@.len(), |k: int| self.mappings@[k]@),
            hooks: spec_hooks_view(&self.hooks),
        }
    }
}

/// A package-relative path never escapes the package root: it is nonempty,
/// not absolute, and holds no parent-directory (`..`) component.  Dots
/// inside a name are fine.
pub open spec fn spec_package_relative(p: Seq<char>) -> bool {
    &&& p.len() > 0
    &&& p[0] != '/'
    &&& forall|i: int| !#[trigger] crate::text::dotdot_component_at(p, i)
}

/// A well-formed manifest has a nonempty id and version, and every mapping's
/// input path is package-relative.
pub open spec fn spec_manifest_wf(m: ManifestV) -> bool {
    &&& m.id.len() > 0
    &&& m.version.len() > 0
    &&& forall|k: int| 0 <= k < m.mappings.len() ==> spec_package_relative(#[trigger] m.mappings[k].i)
}

impl Manifest {
    /// Replaces the manifest's mappings, keeping every other field.
    pub fn set_mappings(self, file_mapping_definitions: Vec<FileMappingDefinition>) -> (r:
        Manifest)
        ensures
            r@ == (ManifestV {
                mappings: Seq::new(
                    file_mapping_definitions@.len(),
                    |k: int| file_mapping_definitions@[k]@,
                ),
                ..self@
            }),
    {
        Manifest { mappings: file_mapping_definitions, ..self }
    }

    /// Returns the fixed, well-known file name of a package manifest.
    pub fn manifest_file_name() -> (r: String)
        ensures
            r@ == "hermione.yml"@,
    {
        String::from_str("hermione.yml")
    }

    /// Checks the manifest invariant: a nonempty id and version, and every
    /// mapping's input path package-relative.
    pub fn is_well_formed(&self) -> (r: bool)
        ensures
            r == spec_manifest_wf(self@),
    {
        if self.id.as_str().unicode_len() == 0 {
            return false;
        }
        if self.version.as_str().unicode_len() == 0 {
            return false;
        }
        let mut k: usize = 0;
        while k < self.mappings.len()
            invariant
                k <= self.mappings@.len(),
                self.id@.len() > 0,
                self.version@.len() > 0,
                forall|j: int|
                    0 <= j < k ==> spec_package_relative(#[trigger] self@.mappings[j].i),
            decreases self.mappings@.len() - k,
        {
            if !path_is_package_relative(self.mappings[k].i.as_str()) {
                proof {
                    assert(!spec_package_relative(self@.mappings[k as int].i));
                }
                return false;
            }
            k = k + 1;
        }
        true
    }
}

/// Checks that a path is package-relative: nonempty, not absolute, and
/// holding no parent-directory component.
#[verifier::loop_isolation(false)]
fn path_is_package_relative(p: &str) -> (r: bool)
    ensures
        r == spec_package_relative(p@),
{
    let n = p.unicode_len();
    if n == 0 {
        return false;
    }
    if p.get_char(0) == '/' {
        return false;
    }
    let mut k: usize = 0;
    while k < n
        invariant
            k <= n,
            forall|i: int| 0 <= i < k ==> !#[trigger] crate::text::dotdot_component_at(p@, i),
        decreases n - k,
    {
        let c = p.get_char(k);
        let at_start = k == 0 || p.get_char(k - 1) == '/';
        if at_start && c == '.' && k + 1 < n && p.get_char(k + 1) == '.' && (k + 2 == n
            || p.get_char(k + 2) == '/') {
            proof {
                assert(crate::text::dotdot_component_at(p@, k as int));
            }
            return false;
        }
        proof {
            assert(!crate::text::dotdot_component_at(p@, k as int));
        }
        k = k + 1;
    }
    proof {
        assert forall|i: int| !#[trigger] crate::text::dotdot_component_at(p@, i) by {
            if 0 <= i < p@.len() {
                assert(i < k);
            } else {
                assert(!crate::text::dotdot_component_at(p@, i));
            }
        }
    }
    true
}

} // verus!
