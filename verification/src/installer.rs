use vstd::prelude::*;

use crate::errors::HermError;
use crate::file_mapping::{FileMapping, FileMappingV};
use crate::fsmodel::{FsNode, FsNodeV, FsState};

verus! {

/// The state transition of installing one mapping: when the source is a
/// file and the destination is free, a link appears at the destination and
/// nothing else changes; otherwise the filesystem is untouched.
pub open spec fn spec_install_step(fs0: FsState, fs1: FsState, m: FileMappingV, ok: bool) -> bool {
    if fs0.find(m.o) is None && fs0.is_file(m.i) {
        &&& ok
        &&& forall|q: Seq<char>|
            fs1.find(q) == (if q == m.o {
                Some(FsNodeV::Link(m.i))
            } else {
                fs0.find(q)
            })
    } else {
        &&& !ok
        &&& fs1 == fs0
    }
}

/// The state transition of uninstalling one mapping: when the destination
/// is a regular file (a link to one included), it disappears and nothing
/// else changes; otherwise the filesystem is untouched.
pub open spec fn spec_uninstall_step(fs0: FsState, fs1: FsState, o: Seq<char>) -> bool {
    if fs0.is_file(o) {
        forall|q: Seq<char>|
            fs1.find(q) == (if q == o {
                None::<FsNodeV>
            } else {
                fs0.find(q)
            })
    } else {
        fs1 == fs0
    }
}

impl FileMapping {
    /// Fails when the destination already exists: no implicit overwrite,
    /// ever.
    pub fn pre_install_check(&self, fs: &FsState) -> (r: Result<String, HermError>)
        ensures
            fs.find(self@.o) is None <==> r is Ok,
            r matches Ok(s) ==> s@ == self@.o + " is <green>valid</>"@,
            r matches Err(e) ==> e matches HermError::ConflictError(p) && p@ == self@.o,
    {
        if fs.contains(self.o.as_str()) {
            Err(HermError::ConflictError(self.o.clone()))
        } else {
            let mut s = self.o.clone();
            s.append(" is <green>valid</>");
            Ok(s)
        }
    }

    /// Links the source to the destination.  Fails without touching the
    /// filesystem when the destination exists (never overwrite) or the
    /// source is not a file.
    pub fn install(&self, fs: &mut FsState) -> (r: Result<String, HermError>)
        requires
            old(fs).wf(),
        ensures
            final(fs).wf(),
            spec_install_step(*old(fs), *final(fs), self@, r is Ok),
            r matches Ok(s) ==> s@ == "<blue>Linking</> "@ + self@.i + " <blue>-></> "@ + self@.o,
            r matches Err(e) ==> (match e {
                HermError::ConflictError(p) => old(fs).find(self@.o) is Some && p@ == self@.o,
                HermError::NotFoundError(p) => old(fs).find(self@.o) is None && !old(fs).is_file(
                    self@.i,
                ) && p@ == self@.i,
                _ => false,
            }),
    {
        if fs.contains(self.o.as_str()) {
            return Err(HermError::ConflictError(self.o.clone()));
        }
        let src_ok = match fs.read_file(self.i.as_str()) {
            Some(_) => true,
            None => false,
        };
        if !src_ok {
            return Err(HermError::NotFoundError(self.i.clone()));
        }
        let target = self.i.clone();
        fs.set(self.o.as_str(), FsNode::Link(target));
        Ok(self.display_line())
    }

    /// Removes the destination when it is currently a regular file; when it
    /// is absent or not a plain file there is nothing to do and that is not
    /// an error.
    pub fn uninstall(&self, fs: &mut FsState) -> (r: Result<String, HermError>)
        requires
            old(fs).wf(),
        ensures
            final(fs).wf(),
            r is Ok,
            spec_uninstall_step(*old(fs), *final(fs), self@.o),
            r matches Ok(s) ==> s@ == (if old(fs).is_file(self@.o) {
                "<yellow>Unlinked</> "@ + self@.o
            } else {
                "Not removing "@ + self@.o + " because it is not a file"@
            }),
    {
        let is_file = match fs.read_file(self.o.as_str()) {
            Some(_) => true,
            None => false,
        };
        if is_file {
            fs.del(self.o.as_str());
            let mut s = String::from_str("<yellow>Unlinked</> ");
            s.append(self.o.as_str());
            Ok(s)
        } else {
            let mut s = String::from_str("Not removing ");
            s.append(self.o.as_str());
            s.append(" because it is not a file");
            proof {
                assert("Not removing "@ + self@.o + " because it is not a file"@ =~= (
                "Not removing "@ + self@.o) + " because it is not a file"@);
            }
            Ok(s)
        }
    }
}

/// The non-overwrite law: installing a mapping whose destination already
/// exists as a regular file always fails and never modifies that file's
/// contents.
pub proof fn lemma_non_overwrite(fs0: FsState, fs1: FsState, m: FileMappingV, ok: bool, b: Seq<u8>)
    requires
        spec_install_step(fs0, fs1, m, ok),
        fs0.find(m.o) == Some(FsNodeV::File(b)),
    ensures
        !ok,
        fs1 == fs0,
        fs1.find(m.o) == Some(FsNodeV::File(b)),
{
}

/// The idempotent-uninstall law: after uninstalling a mapping, a second
/// uninstall of the same mapping finds nothing to do and changes nothing.
pub proof fn lemma_uninstall_idempotent(
    fs0: FsState,
    fs1: FsState,
    fs2: FsState,
    o: Seq<char>,
)
    requires
        spec_uninstall_step(fs0, fs1, o),
        spec_uninstall_step(fs1, fs2, o),
    ensures
        !fs1.is_file(o),
        forall|q: Seq<char>| fs2.find(q) == fs1.find(q),
{
    if fs0.is_file(o) {
        assert(fs1.find(o) is None);
    }
}

} // verus!
