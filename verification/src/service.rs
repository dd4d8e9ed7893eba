use vstd::prelude::*;

use crate::errors::HermError;
use crate::fsmodel::{FsNode, FsNodeV, FsState};
use crate::template::{join_path, spec_join_path};
use crate::text::{spec_u64_dec, u64_dec};
use vstd::utf8::encode_utf8;

verus! {

/// The directory-root configuration every lifecycle, packer and installer
/// call works against: a cache root for downloaded packages, an install
/// root, the user's home directory, and the running platform family.
pub struct PackageService {
    /// The cache root: one subdirectory per downloaded package id.
    pub download_root: String,
    /// The install root: one subdirectory per installed package id.
    pub install_root: String,
    /// The user's home directory, substituted for `{{HOME}}` in templates.
    pub home_root: String,
    /// The running platform family, `unix` or `windows`.
    pub platform: String,
}

impl PackageService {
    /// Builds the configuration from its four roots.
    pub fn new(
        download_root: String,
        install_root: String,
        home_root: String,
        platform: String,
    ) -> (r: PackageService)
        ensures
            r.download_root@ == download_root@,
            r.install_root@ == install_root@,
            r.home_root@ == home_root@,
            r.platform@ == platform@,
    {
        PackageService { download_root, install_root, home_root, platform }
    }

    /// The download (cache) directory.
    pub fn download_dir(&self) -> (r: String)
        ensures
            r@ == self.download_root@,
    {
        self.download_root.clone()
    }

    /// The install directory.
    pub fn install_dir(&self) -> (r: String)
        ensures
            r@ == self.install_root@,
    {
        self.install_root.clone()
    }

    /// The user's home directory.
    pub fn home_dir(&self) -> (r: String)
        ensures
            r@ == self.home_root@,
    {
        self.home_root.clone()
    }

    /// Creates the download and install directories when absent.
    pub fn init(&self, fs: &mut FsState) -> (r: bool)
        requires
            old(fs).wf(),
        ensures
            final(fs).wf(),
            r == true,
            forall|q: Seq<char>|
                final(fs).find(q) == (if q == self.download_root@ || q == self.install_root@ {
                    (if old(fs).find(q) is Some {
                        old(fs).find(q)
                    } else {
                        Some(FsNodeV::Dir)
                    })
                } else {
                    old(fs).find(q)
                }),
    {
        if !fs.contains(self.download_root.as_str()) {
            fs.set(self.download_root.as_str(), FsNode::Dir);
        }
        if !fs.contains(self.install_root.as_str()) {
            fs.set(self.install_root.as_str(), FsNode::Dir);
        }
        true
    }

    /// The path of the lockfile under the install directory.
    pub open spec fn spec_lock_path(self) -> Seq<char> {
        spec_join_path(self.install_root@, "hermione.lock"@)
    }

    /// Acquires the single-instance lock: creates the lockfile holding the
    /// process id, or fails with `AlreadyRunningError` when it exists.
    pub fn lockfile(&self, fs: &mut FsState, pid: u64) -> (r: Result<(), HermError>)
        requires
            old(fs).wf(),
        ensures
            final(fs).wf(),
            spec_lock_step(*old(fs), *final(fs), self.spec_lock_path(), pid as int, r is Ok),
            r matches Err(e) ==> e matches HermError::AlreadyRunningError,
    {
        let lock_path = join_path(self.install_root.as_str(), "hermione.lock");
        if fs.contains(lock_path.as_str()) {
            return Err(HermError::AlreadyRunningError);
        }
        let pid_text = u64_dec(pid);
        let pid_bytes = pid_text.as_str().as_bytes_vec();
        fs.set(lock_path.as_str(), FsNode::File(pid_bytes));
        Ok(())
    }

    /// Releases the single-instance lock.
    pub fn release_lock(&self, fs: &mut FsState)
        requires
            old(fs).wf(),
        ensures
            final(fs).wf(),
            forall|q: Seq<char>|
                final(fs).find(q) == (if q == self.spec_lock_path() {
                    None::<FsNodeV>
                } else {
                    old(fs).find(q)
                }),
    {
        let lock_path = join_path(self.install_root.as_str(), "hermione.lock");
        fs.del(lock_path.as_str());
    }

    /// The path of an installed package, when one of that name is
    /// installed; a blank name and an absent package are errors.
    pub fn installed_package_path(&self, fs: &FsState, package_name: &str) -> (r: Result<
        String,
        HermError,
    >)
        ensures
            (if spec_blank(package_name@) {
                r matches Err(e) && e matches HermError::NotFoundError(_)
            } else if fs.find(spec_join_path(self.install_root@, package_name@)) == Some(
                FsNodeV::Dir,
            ) {
                r matches Ok(p) && p@ == spec_join_path(self.install_root@, package_name@)
            } else {
                r matches Err(e) && e matches HermError::NotFoundError(_)
            }),
    {
        if is_blank(package_name) {
            return Err(HermError::NotFoundError(String::from_str("package name is blank")));
        }
        let path = join_path(self.install_root.as_str(), package_name);
        match fs.find_node(path.as_str()) {
            Some(FsNode::Dir) => Ok(path),
            _ => Err(HermError::NotFoundError(path)),
        }
    }
}

/// An ASCII whitespace character (the blank set trimmed from package
/// names).
pub open spec fn spec_space_char(c: char) -> bool {
    c == ' ' || c == '\t' || c == '\n' || c == '\r'
}

/// A name that trims to nothing: empty, or ASCII whitespace throughout.
pub open spec fn spec_blank(s: Seq<char>) -> bool {
    forall|i: int| 0 <= i < s.len() ==> spec_space_char(#[trigger] s[i])
}

/// Checks whether a name trims to nothing.
pub fn is_blank(s: &str) -> (r: bool)
    ensures
        r == spec_blank(s@),
{
    let n = s.unicode_len();
    let mut k: usize = 0;
    while k < n
        invariant
            n == s@.len(),
            k <= n,
            forall|i: int| 0 <= i < k ==> spec_space_char(#[trigger] s@[i]),
        decreases n - k,
    {
        let c = s.get_char(k);
        if c != ' ' && c != '\t' && c != '\n' && c != '\r' {
            proof {
                assert(!spec_space_char(s@[k as int]));
            }
            return false;
        }
        k = k + 1;
    }
    true
}

/// The state transition of acquiring the lock: when the lockfile is absent
/// it appears, holding the decimal process id; when it is present nothing
/// changes and acquisition fails.
pub open spec fn spec_lock_step(
    fs0: FsState,
    fs1: FsState,
    lock: Seq<char>,
    pid: int,
    ok: bool,
) -> bool {
    if fs0.find(lock) is None {
        &&& ok
        &&& forall|q: Seq<char>|
            fs1.find(q) == (if q == lock {
                Some(FsNodeV::File(encode_utf8(spec_u64_dec(pid))))
            } else {
                fs0.find(q)
            })
    } else {
        &&& !ok
        &&& fs1 == fs0
    }
}

/// The mutual-exclusion law: of two lock acquisitions against the same
/// install root, at most one proceeds — after a successful acquisition, the
/// next one fails and changes nothing.
pub proof fn lemma_lock_excludes(
    fs0: FsState,
    fs1: FsState,
    fs2: FsState,
    lock: Seq<char>,
    pid1: int,
    pid2: int,
    ok1: bool,
    ok2: bool,
)
    requires
        spec_lock_step(fs0, fs1, lock, pid1, ok1),
        spec_lock_step(fs1, fs2, lock, pid2, ok2),
        ok1,
    ensures
        !ok2,
        fs2 == fs1,
{
}

} // verus!
