use vstd::prelude::*;

use crate::errors::HermError;
use crate::manifest::FileMappingDefinition;
use crate::template::{join_path, render_template, spec_join_path, spec_render};

verus! {

/// The mathematical value of a rendered file mapping.
pub ghost struct FileMappingV {
    pub i: Seq<char>,
    pub o: Seq<char>,
}

/// A rendered file mapping: the concrete source path `i` inside the package
/// tree and the concrete destination path `o` on the host.
pub struct FileMapping {
    /// Where the desired file is inside the package tree.
    pub i: String,
    /// Where it should go on the system.
    pub o: String,
}

impl View for FileMapping {
    type V = FileMappingV;

    open spec fn view(&self) -> FileMappingV {
        FileMappingV { i: self.i@, o: self.o@ }
    }
}

impl DeepView for FileMapping {
    type V = FileMappingV;

    open spec fn deep_view(&self) -> FileMappingV {
        self.view()
    }
}

impl FileMapping {
    /// Builds a file mapping from a source and a destination path.
    pub fn new(i: String, o: String) -> (r: FileMapping)
        ensures
            r@ == (FileMappingV { i: i@, o: o@ }),
    {
        FileMapping { i, o }
    }

    /// A printable one-line description of the mapping.
    pub fn display_line(&self) -> (r: String)
        ensures
            r@ == "<blue>Linking</> "@ + self.i@ + " <blue>-></> "@ + self.o@,
    {
        let mut s = String::from_str("<blue>Linking</> ");
        s.append(self.i.as_str());
        s.append(" <blue>-></> ");
        s.append(self.o.as_str());
        proof {
            assert("<blue>Linking</> "@ + self.i@ + " <blue>-></> "@ + self.o@ =~= (("<blue>Linking</> "@
                + self.i@) + " <blue>-></> "@) + self.o@);
        }
        s
    }
}

/// The rendered mapping of a definition: the source joined under the package
/// root, the destination with its template substituted.
pub open spec fn spec_render_mapping(
    i: Seq<char>,
    o: Seq<char>,
    home: Seq<char>,
    package_root: Seq<char>,
) -> Option<FileMappingV> {
    match spec_render(o, home) {
        Some(dest) => Some(FileMappingV { i: spec_join_path(package_root, i), o: dest }),
        None => None,
    }
}

impl FileMappingDefinition {
    /// Renders this definition into a concrete file mapping: the destination
    /// template is substituted with the given home directory, and the source
    /// is resolved under the given package root.
    pub fn render_file_mapping(&self, home_dir: &str, package_root: &str) -> (r: Result<
        FileMapping,
        HermError,
    >)
        ensures
            (match spec_render_mapping(self@.i, self@.o, home_dir@, package_root@) {
                Some(fm) => r matches Ok(m) && m@ == fm,
                None => r matches Err(e) && e matches HermError::TemplateError(_),
            }),
    {
        match render_template(self.o.as_str(), home_dir) {
            Ok(dest) => {
                let src = join_path(package_root, self.i.as_str());
                Ok(FileMapping { i: src, o: dest })
            },
            Err(e) => Err(e),
        }
    }
}

} // verus!
