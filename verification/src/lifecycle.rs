use vstd::prelude::*;

use crate::codec::{parse_manifest, spec_parse_wf};
use crate::errors::HermError;
use crate::file_mapping::{FileMapping, FileMappingV};
use crate::fsmodel::{spec_copy_find, FsNodeV, FsState};
use crate::installer::spec_uninstall_step;
use crate::integrity::spec_integrity_ok;
use crate::manifest::{spec_valid_platform, Hooks, Manifest, ManifestV, MappingV};
use crate::service::PackageService;
use crate::template::{join_path, spec_join_path, spec_render};
use crate::text::bytes_to_string;
use vstd::utf8::{decode_utf8, valid_utf8};

verus! {

// ---------------------------------------------------------------------------
// Hooks
// ---------------------------------------------------------------------------
/// The executor of lifecycle hook scripts: an injected capability that takes
/// a script body and reports success or failure.  The library promises
/// nothing of what a hook does.
pub trait HookRunner {
    /// Runs one named hook script and reports whether it succeeded.
    fn run_hook(&mut self, hook_name: &str, script: &str) -> bool;
}

impl Hooks {
    /// Runs the pre-install hook, if one is present.
    pub fn execute_pre_install<R: HookRunner>(&self, runner: &mut R) -> (r: Result<(), HermError>)
        ensures
            self@.pre_install is None ==> r is Ok,
            r matches Err(e) ==> e matches HermError::IoError(m) && m@
                == "pre_install hook failed"@,
    {
        match &self.pre_install {
            Some(s) => {
                if runner.run_hook("pre_install", s.as_str()) {
                    Ok(())
                } else {
                    Err(HermError::IoError(String::from_str("pre_install hook failed")))
                }
            },
            None => Ok(()),
        }
    }

    /// Runs the post-install hook, if one is present.
    pub fn execute_post_install<R: HookRunner>(&self, runner: &mut R) -> (r: Result<(), HermError>)
        ensures
            self@.post_install is None ==> r is Ok,
            r matches Err(e) ==> e matches HermError::IoError(m) && m@
                == "post_install hook failed"@,
    {
        match &self.post_install {
            Some(s) => {
                if runner.run_hook("post_install", s.as_str()) {
                    Ok(())
                } else {
                    Err(HermError::IoError(String::from_str("post_install hook failed")))
                }
            },
            None => Ok(()),
        }
    }

    /// Runs the pre-remove hook, if one is present.
    pub fn execute_pre_remove<R: HookRunner>(&self, runner: &mut R) -> (r: Result<(), HermError>)
        ensures
            self@.pre_remove is None ==> r is Ok,
            r matches Err(e) ==> e matches HermError::IoError(m) && m@
                == "pre_remove hook failed"@,
    {
        match &self.pre_remove {
            Some(s) => {
                if runner.run_hook("pre_remove", s.as_str()) {
                    Ok(())
                } else {
                    Err(HermError::IoError(String::from_str("pre_remove hook failed")))
                }
            },
            None => Ok(()),
        }
    }

    /// Runs the post-remove hook, if one is present.
    pub fn execute_post_remove<R: HookRunner>(&self, runner: &mut R) -> (r: Result<(), HermError>)
        ensures
            self@.post_remove is None ==> r is Ok,
            r matches Err(e) ==> e matches HermError::IoError(m) && m@
                == "post_remove hook failed"@,
    {
        match &self.post_remove {
            Some(s) => {
                if runner.run_hook("post_remove", s.as_str()) {
                    Ok(())
                } else {
                    Err(HermError::IoError(String::from_str("post_remove hook failed")))
                }
            },
            None => Ok(()),
        }
    }
}

// ---------------------------------------------------------------------------
// Reading a manifest out of the filesystem model
// ---------------------------------------------------------------------------
/// The manifest stored in a package directory, when its file exists, holds
/// text, parses, and satisfies the manifest invariant (the parser enforces
/// it, so an ill-formed manifest never enters the lifecycle).
pub open spec fn spec_fs_manifest(fs: FsState, root: Seq<char>) -> Option<ManifestV> {
    match fs.file_bytes(spec_join_path(root, "hermione.yml"@)) {
        Some(b) => if valid_utf8(b) {
            spec_parse_wf(decode_utf8(b))
        } else {
            None
        },
        None => None,
    }
}

/// Reads and parses the manifest file of a package directory.
pub fn read_manifest(fs: &FsState, root: &str) -> (r: Result<Manifest, HermError>)
    ensures
        (match spec_fs_manifest(*fs, root@) {
            Some(mv) => r matches Ok(man) && man@ == mv,
            None => r matches Err(e) && (match fs.file_bytes(
                spec_join_path(root@, "hermione.yml"@),
            ) {
                None => e matches HermError::NotFoundError(_),
                Some(_) => e matches HermError::ManifestError(_),
            }),
        }),
{
    let path = join_path(root, "hermione.yml");
    let bytes = match fs.read_file(path.as_str()) {
        Some(b) => b,
        None => {
            return Err(HermError::NotFoundError(path));
        },
    };
    let text = match bytes_to_string(bytes) {
        Some(t) => t,
        None => {
            return Err(HermError::ManifestError(String::from_str("manifest is not text")));
        },
    };
    parse_manifest(text.as_str())
}

// ---------------------------------------------------------------------------
// Validation: the all-or-nothing pass before any mutation
// ---------------------------------------------------------------------------
/// The mappings applicable on a platform, in manifest order.
pub open spec fn spec_applicable(ms: Seq<MappingV>, platform: Seq<char>) -> Seq<MappingV>
    decreases ms.len(),
{
    if ms.len() == 0 {
        Seq::empty()
    } else {
        let rest = spec_applicable(ms.skip(1), platform);
        if spec_valid_platform(ms[0], platform) {
            seq![ms[0]] + rest
        } else {
            rest
        }
    }
}

/// One more mapping at the end of the applicable list.
pub proof fn lemma_applicable_push(ms: Seq<MappingV>, d: MappingV, platform: Seq<char>)
    ensures
        spec_applicable(ms.push(d), platform) == (if spec_valid_platform(d, platform) {
            spec_applicable(ms, platform).push(d)
        } else {
            spec_applicable(ms, platform)
        }),
    decreases ms.len(),
{
    if ms.len() == 0 {
        assert(ms.push(d)[0] == d);
        assert(ms.push(d).skip(1) =~= ms);
        if spec_valid_platform(d, platform) {
            assert(seq![d] + Seq::<MappingV>::empty() =~= Seq::<MappingV>::empty().push(d));
        }
    } else {
        assert(ms.push(d)[0] == ms[0]);
        assert(ms.push(d).skip(1) =~= ms.skip(1).push(d));
        lemma_applicable_push(ms.skip(1), d, platform);
        if spec_valid_platform(ms[0], platform) && spec_valid_platform(d, platform) {
            assert(seq![ms[0]] + spec_applicable(ms.skip(1), platform).push(d) =~= (seq![ms[0]]
                + spec_applicable(ms.skip(1), platform)).push(d));
        }
    }
}

/// An applicable mapping is applicable: the filter keeps only mappings whose
/// platform constraint matches.
pub proof fn lemma_applicable_members(ms: Seq<MappingV>, platform: Seq<char>, d: MappingV)
    requires
        spec_applicable(ms, platform).contains(d),
    ensures
        spec_valid_platform(d, platform),
    decreases ms.len(),
{
    if ms.len() == 0 {
    } else {
        let rest = spec_applicable(ms.skip(1), platform);
        if spec_valid_platform(ms[0], platform) {
            let all = seq![ms[0]] + rest;
            let j = choose|j: int| 0 <= j < all.len() && all[j] == d;
            if j == 0 {
            } else {
                assert(rest[j - 1] == d);
                lemma_applicable_members(ms.skip(1), platform, d);
            }
        } else {
            lemma_applicable_members(ms.skip(1), platform, d);
        }
    }
}

/// The rendered mapping of an applicable definition: the source under the
/// package's target directory, the destination template substituted.
pub open spec fn spec_rendered(d: MappingV, home: Seq<char>, root: Seq<char>) -> FileMappingV {
    FileMappingV { i: spec_join_path(root, d.i), o: spec_render(d.o, home)->0 }
}

/// The rendered mappings of the applicable definitions, in order.
pub open spec fn spec_rendered_all(ds: Seq<MappingV>, home: Seq<char>, root: Seq<char>) -> Seq<
    FileMappingV,
> {
    ds.map_values(|d: MappingV| spec_rendered(d, home, root))
}

/// One applicable mapping passes validation: its destination template
/// renders, its source file is present in the downloaded tree, its recorded
/// digest (if any) matches that file's bytes, and its rendered destination
/// is free.
pub open spec fn spec_mapping_valid(
    fs: FsState,
    d: MappingV,
    home: Seq<char>,
    target: Seq<char>,
    local: Seq<char>,
) -> bool {
    &&& spec_render(d.o, home) is Some
    &&& fs.is_file(spec_join_path(local, d.i))
    &&& spec_integrity_ok(d.integrity, fs.file_bytes(spec_join_path(local, d.i))->0)
    &&& fs.find(spec_rendered(d, home, target).o) is None
}

/// Every applicable mapping passes validation.
pub open spec fn spec_validation_ok(
    fs: FsState,
    m: ManifestV,
    platform: Seq<char>,
    home: Seq<char>,
    target: Seq<char>,
    local: Seq<char>,
) -> bool {
    forall|k: int|
        0 <= k < spec_applicable(m.mappings, platform).len() ==> spec_mapping_valid(
            fs,
            #[trigger] spec_applicable(m.mappings, platform)[k],
            home,
            target,
            local,
        )
}

/// Renders and checks every applicable mapping of a manifest before any
/// filesystem mutation.  Succeeds if and only if every applicable mapping
/// validates; otherwise the collected per-mapping errors come back and
/// nothing has been touched.
#[verifier::loop_isolation(false)]
#[verifier::rlimit(30)]
pub fn validate_mappings(
    fs: &FsState,
    manifest: &Manifest,
    svc: &PackageService,
    local: &str,
    target: &str,
) -> (r: Result<Vec<FileMapping>, Vec<HermError>>)
    ensures
        r is Ok <==> spec_validation_ok(
            *fs,
            manifest@,
            svc.platform@,
            svc.home_root@,
            target@,
            local@,
        ),
        r matches Ok(v) ==> v.deep_view() == spec_rendered_all(
            spec_applicable(manifest@.mappings, svc.platform@),
            svc.home_root@,
            target@,
        ),
        r matches Err(es) ==> es@.len() > 0 && (forall|j: int|
            0 <= j < es@.len() ==> ((#[trigger] es@[j]) matches HermError::TemplateError(_) || es@[j]
                matches HermError::NotFoundError(_) || es@[j] matches HermError::IntegrityError(_)
                || es@[j] matches HermError::ConflictError(_))),
{
    let ghost msv = manifest@.mappings;
    let ghost platform = svc.platform@;
    let mut rendered: Vec<FileMapping> = Vec::new();
    let mut errors: Vec<HermError> = Vec::new();
    let mut k: usize = 0;
    proof {
        assert(msv.take(0) =~= Seq::<MappingV>::empty());
        assert(rendered.deep_view() =~= spec_rendered_all(
            spec_applicable(msv.take(0), platform),
            svc.home_root@,
            target@,
        ));
    }
    while k < manifest.mappings.len()
        invariant
            k <= msv.len(),
            msv == manifest@.mappings,
            (errors@.len() == 0 <==> (forall|j: int|
                0 <= j < spec_applicable(msv.take(k as int), platform).len()
                    ==> spec_mapping_valid(
                    *fs,
                    #[trigger] spec_applicable(msv.take(k as int), platform)[j],
                    svc.home_root@,
                    target@,
                    local@,
                ))),
            errors@.len() == 0 ==> rendered.deep_view() == spec_rendered_all(
                spec_applicable(msv.take(k as int), platform),
                svc.home_root@,
                target@,
            ),
            forall|j: int|
                0 <= j < errors@.len() ==> ((#[trigger] errors@[j]) matches HermError::TemplateError(
                    _,
                ) || errors@[j] matches HermError::NotFoundError(_) || errors@[j]
                    matches HermError::IntegrityError(_) || errors@[j]
                    matches HermError::ConflictError(_)),
        decreases msv.len() - k,
    {
        let d = &manifest.mappings[k];
        let ghost dv = d@;
        let ghost ap_old = spec_applicable(msv.take(k as int), platform);
        proof {
            assert(msv.take(k as int).push(dv) =~= msv.take(k as int + 1));
            lemma_applicable_push(msv.take(k as int), dv, platform);
        }
        if d.valid_platform_family(svc.platform.as_str()) {
            let ghost ap_new = spec_applicable(msv.take(k as int + 1), platform);
            proof {
                assert(ap_new == ap_old.push(dv));
                assert(ap_new[ap_new.len() - 1] == dv);
                assert forall|j: int| 0 <= j < ap_old.len() implies ap_new[j] == ap_old[j] by {}
            }
            let mut ok = true;
            // the destination template must render
            let fm_opt = match d.render_file_mapping(svc.home_root.as_str(), target) {
                Ok(fm) => Some(fm),
                Err(e) => {
                    errors.push(e);
                    ok = false;
                    None
                },
            };
            // the source file must exist and match its recorded digest
            let src_path = join_path(local, d.i.as_str());
            match fs.read_file(src_path.as_str()) {
                Some(bytes) => {
                    if !d.verify_integrity(bytes) {
                        errors.push(HermError::IntegrityError(src_path));
                        ok = false;
                    }
                },
                None => {
                    errors.push(HermError::NotFoundError(src_path));
                    ok = false;
                },
            }
            // the rendered destination must be free
            match fm_opt {
                Some(fm) => {
                    match fm.pre_install_check(fs) {
                        Ok(_) => {
                            if ok {
                                rendered.push(fm);
                                proof {
                                    assert(fm@ == spec_rendered(dv, svc.home_root@, target@));
                                    assert(spec_rendered_all(ap_new, svc.home_root@, target@)
                                        =~= spec_rendered_all(
                                        ap_old,
                                        svc.home_root@,
                                        target@,
                                    ).push(fm@));
                                }
                            }
                        },
                        Err(e) => {
                            errors.push(e);
                            ok = false;
                        },
                    }
                },
                None => {
                },
            }
            proof {
                if ok {
                    assert(spec_mapping_valid(*fs, dv, svc.home_root@, target@, local@));
                } else {
                    assert(!spec_mapping_valid(*fs, dv, svc.home_root@, target@, local@));
                    assert(errors@.len() > 0);
                }
            }
        } else {
            proof {
                assert(spec_applicable(msv.take(k as int + 1), platform) == spec_applicable(
                    msv.take(k as int),
                    platform,
                ));
            }
        }
        k = k + 1;
    }
    proof {
        assert(msv.take(msv.len() as int) =~= msv);
    }
    if errors.len() == 0 {
        Ok(rendered)
    } else {
        Err(errors)
    }
}

// ---------------------------------------------------------------------------
// The install transition
// ---------------------------------------------------------------------------
/// The target of the last link whose destination is `q`, among the links
/// placed so far.
pub open spec fn spec_apply_links(ms: Seq<FileMappingV>, q: Seq<char>) -> Option<Seq<char>>
    decreases ms.len(),
{
    if ms.len() == 0 {
        None
    } else if ms.last().o == q {
        Some(ms.last().i)
    } else {
        spec_apply_links(ms.drop_last(), q)
    }
}

/// Lookup after the package tree was copied from `local` to `target` and
/// the given links were placed.
pub open spec fn spec_installed_find(
    fs0: FsState,
    local: Seq<char>,
    target: Seq<char>,
    links: Seq<FileMappingV>,
    q: Seq<char>,
) -> Option<FsNodeV> {
    match spec_apply_links(links, q) {
        Some(t) => Some(FsNodeV::Link(t)),
        None => spec_copy_find(fs0, local, target, q),
    }
}

/// The filesystem `fs1` is `fs0` after the tree copy and the first `k`
/// links.
pub open spec fn spec_install_effect(
    fs0: FsState,
    fs1: FsState,
    local: Seq<char>,
    target: Seq<char>,
    links: Seq<FileMappingV>,
    k: int,
) -> bool {
    &&& 0 <= k <= links.len()
    &&& forall|q: Seq<char>|
        fs1.find(q) == spec_installed_find(fs0, local, target, links.take(k), q)
}

/// Everything installing a downloaded package may do to the filesystem.
/// With no readable, well-formed manifest, or any mapping failing
/// validation, or the pre-install hook refusing, nothing changes.  On
/// success the package tree is copied and every rendered link placed; a
/// failure after mutation began leaves the copied tree and a prefix of the
/// links.
pub open spec fn spec_install_outcome(
    fs0: FsState,
    fs1: FsState,
    local: Seq<char>,
    svc: PackageService,
    ok: bool,
) -> bool {
    let pm = spec_fs_manifest(fs0, local);
    if pm is None {
        !ok && fs1 == fs0
    } else {
        let m = pm->0;
        let target = spec_join_path(svc.install_root@, m.id);
        let links = spec_rendered_all(
            spec_applicable(m.mappings, svc.platform@),
            svc.home_root@,
            target,
        );
        if !spec_validation_ok(fs0, m, svc.platform@, svc.home_root@, target, local) {
            !ok && fs1 == fs0
        } else {
            ||| (!ok && fs1 == fs0)
            ||| (ok && spec_install_effect(fs0, fs1, local, target, links, links.len() as int))
            ||| (!ok && exists|k: int| spec_install_effect(fs0, fs1, local, target, links, k))
        }
    }
}

/// The full install effect: the tree copied and every link placed.
pub open spec fn spec_install_full_effect(
    fs0: FsState,
    fs1: FsState,
    local: Seq<char>,
    svc: PackageService,
) -> bool {
    let pm = spec_fs_manifest(fs0, local);
    pm is Some && ({
        let m = pm->0;
        let target = spec_join_path(svc.install_root@, m.id);
        let links = spec_rendered_all(
            spec_applicable(m.mappings, svc.platform@),
            svc.home_root@,
            target,
        );
        spec_install_effect(fs0, fs1, local, target, links, links.len() as int)
    })
}

/// Nothing stands in the install's way: the manifest is readable and
/// well-formed, it carries no hooks (a hook's outcome rests with its
/// user-supplied runner), every applicable mapping validates, the rendered
/// destinations are pairwise distinct and collide with no link source, no
/// destination is produced by the tree copy, and every link source is a
/// regular file of the copied tree.  On such input the install is owed
/// success.
pub open spec fn spec_install_unobstructed(
    fs0: FsState,
    local: Seq<char>,
    svc: PackageService,
) -> bool {
    let pm = spec_fs_manifest(fs0, local);
    &&& pm is Some
    &&& pm->0.hooks is None
    &&& ({
        let m = pm->0;
        let target = spec_join_path(svc.install_root@, m.id);
        let links = spec_rendered_all(
            spec_applicable(m.mappings, svc.platform@),
            svc.home_root@,
            target,
        );
        &&& spec_validation_ok(fs0, m, svc.platform@, svc.home_root@, target, local)
        &&& (forall|j: int, t: int|
            0 <= j < t < links.len() ==> (#[trigger] links[j]).o != (#[trigger] links[t]).o)
        &&& (forall|j: int, t: int|
            0 <= j < links.len() && 0 <= t < links.len() ==> (#[trigger] links[j]).o != (
            #[trigger] links[t]).i)
        &&& (forall|k: int|
            0 <= k < links.len() ==> spec_copy_find(fs0, local, target, (#[trigger] links[k]).o)
                is None)
        &&& (forall|k: int|
            0 <= k < links.len() ==> (spec_copy_find(
                fs0,
                local,
                target,
                (#[trigger] links[k]).i,
            ) matches Some(FsNodeV::File(_))))
    })
}

/// No link targets a path outside the given destinations.
pub proof fn lemma_apply_links_none(ms: Seq<FileMappingV>, q: Seq<char>)
    requires
        forall|j: int| 0 <= j < ms.len() ==> (#[trigger] ms[j]).o != q,
    ensures
        spec_apply_links(ms, q) is None,
    decreases ms.len(),
{
    if ms.len() > 0 {
        assert(ms.last().o != q);
        assert forall|j: int| 0 <= j < ms.drop_last().len() implies (#[trigger] ms.drop_last()[j]).o
            != q by {
            assert(ms.drop_last()[j] == ms[j]);
        }
        lemma_apply_links_none(ms.drop_last(), q);
    }
}

/// A package whose files sit under the download (cache) directory and are
/// not yet linked into the install tree.
pub struct DownloadedPackage {
    /// The package's directory under the download root.
    pub local_path: String,
}

/// A package whose files have been copied into the install directory and
/// whose mappings have been linked to their destinations.
pub struct InstalledPackage {
    /// The package's directory under the install root.
    pub local_path: String,
    /// The package's parsed manifest.
    pub manifest: Manifest,
}

impl DownloadedPackage {
    /// Installs the downloaded package: renders, platform-filters, digest-
    /// checks and pre-checks every mapping before any mutation; aborts with
    /// no mutation on an unreadable or ill-formed manifest, on any
    /// validation failure (surfaced as one aggregate error of the first
    /// collected kind, its message joining every collected message), or on
    /// a refused pre-install hook; then copies the package tree into the
    /// install directory, links every mapping, and runs the post-install
    /// hook.
    #[verifier::loop_isolation(false)]
    #[verifier::rlimit(50)]
    pub fn install<R: HookRunner>(
        &self,
        fs: &mut FsState,
        svc: &PackageService,
        runner: &mut R,
    ) -> (r: Result<InstalledPackage, HermError>)
        requires
            old(fs).wf(),
        ensures
            final(fs).wf(),
            spec_install_outcome(*old(fs), *final(fs), self.local_path@, *svc, r is Ok),
            spec_install_unobstructed(*old(fs), self.local_path@, *svc) ==> r is Ok,
            (match r {
                Err(e) => (e matches HermError::IoError(_)) ==> (*final(fs) == *old(fs)
                    || spec_install_full_effect(*old(fs), *final(fs), self.local_path@, *svc)),
                Ok(_) => true,
            }),
            (match r {
                Err(e) => (match e {
                    HermError::IoError(msg) => msg@ == "pre_install hook failed"@ ==> *final(fs)
                        == *old(fs),
                    _ => true,
                }),
                Ok(_) => true,
            }),
            (match r {
                Err(e) => ({
                    let pm = spec_fs_manifest(*old(fs), self.local_path@);
                    (pm is Some && !spec_validation_ok(
                        *old(fs),
                        pm->0,
                        svc.platform@,
                        svc.home_root@,
                        spec_join_path(svc.install_root@, pm->0.id),
                        self.local_path@,
                    )) ==> (e matches HermError::TemplateError(_) || e
                        matches HermError::NotFoundError(_) || e matches HermError::IntegrityError(
                        _,
                    ) || e matches HermError::ConflictError(_))
                }),
                Ok(_) => true,
            }),
            r matches Ok(p) ==> spec_fs_manifest(*old(fs), self.local_path@) is Some && p.manifest@
                == spec_fs_manifest(*old(fs), self.local_path@)->0 && p.local_path@
                == spec_join_path(
                svc.install_root@,
                spec_fs_manifest(*old(fs), self.local_path@)->0.id,
            ),
    {
        let manifest = match read_manifest(fs, self.local_path.as_str()) {
            Ok(m) => m,
            Err(e) => {
                return Err(e);
            },
        };
        let target = join_path(svc.install_root.as_str(), manifest.id.as_str());
        let validated = match validate_mappings(
            fs,
            &manifest,
            svc,
            self.local_path.as_str(),
            target.as_str(),
        ) {
            Ok(v) => v,
            Err(es) => {
                // surface the aggregate: one error of the first collected
                // kind whose message joins every collected message
                let msg = crate::errors::join_error_messages(&es);
                let agg = match &es[0] {
                    HermError::TemplateError(_) => HermError::TemplateError(msg),
                    HermError::NotFoundError(_) => HermError::NotFoundError(msg),
                    HermError::IntegrityError(_) => HermError::IntegrityError(msg),
                    HermError::ConflictError(_) => HermError::ConflictError(msg),
                    _ => {
                        proof {
                            assert(false);
                        }
                        HermError::IoError(msg)
                    },
                };
                return Err(agg);
            },
        };
        match &manifest.hooks {
            Some(h) => {
                match h.execute_pre_install(runner) {
                    Ok(_) => {
                    },
                    Err(e) => {
                        return Err(e);
                    },
                }
            },
            None => {
            },
        }
        let ghost fs0 = *old(fs);
        let ghost localv = self.local_path@;
        let ghost targetv = target@;
        let ghost links = validated.deep_view();
        fs.copy_tree(self.local_path.as_str(), target.as_str());
        proof {
            assert(links.take(0) =~= Seq::<FileMappingV>::empty());
            assert(spec_install_effect(fs0, *fs, localv, targetv, links, 0));
        }
        let mut k: usize = 0;
        while k < validated.len()
            invariant
                fs.wf(),
                links == validated.deep_view(),
                k <= links.len(),
                spec_install_effect(fs0, *fs, localv, targetv, links, k as int),
            decreases links.len() - k,
        {
            let fm = &validated[k];
            let ghost pre = *fs;
            match fm.install(fs) {
                Ok(_) => {
                },
                Err(e) => {
                    proof {
                        assert(spec_install_effect(fs0, *fs, localv, targetv, links, k as int));
                        if spec_install_unobstructed(fs0, localv, *svc) {
                            // the link could not have failed: its destination
                            // is untouched and its source is a copied file
                            let lk = links[k as int];
                            assert forall|j: int|
                                0 <= j < links.take(k as int).len() implies (#[trigger] links.take(
                                k as int,
                            )[j]).o != lk.o by {
                                assert(links.take(k as int)[j] == links[j]);
                            }
                            lemma_apply_links_none(links.take(k as int), lk.o);
                            assert(pre.find(lk.o) is None);
                            assert forall|j: int|
                                0 <= j < links.take(k as int).len() implies (#[trigger] links.take(
                                k as int,
                            )[j]).o != lk.i by {
                                assert(links.take(k as int)[j] == links[j]);
                            }
                            lemma_apply_links_none(links.take(k as int), lk.i);
                            assert(pre.find(lk.i) == spec_copy_find(fs0, localv, targetv, lk.i));
                            assert(pre.is_file(lk.i));
                            assert(false);
                        }
                    }
                    return Err(e);
                },
            }
            proof {
                let t1 = links.take(k as int + 1);
                assert(t1.last() == links[k as int]);
                assert(t1.drop_last() =~= links.take(k as int));
                assert forall|q: Seq<char>| true implies fs.find(q) == spec_installed_find(
                    fs0,
                    localv,
                    targetv,
                    t1,
                    q,
                ) by {
                    if q == links[k as int].o {
                    } else {
                        assert(fs.find(q) == pre.find(q));
                    }
                }
            }
            k = k + 1;
        }
        proof {
            assert(links.take(links.len() as int) =~= links);
        }
        match &manifest.hooks {
            Some(h) => {
                match h.execute_post_install(runner) {
                    Ok(_) => {
                    },
                    Err(e) => {
                        proof {
                            assert(spec_install_effect(
                                fs0,
                                *fs,
                                localv,
                                targetv,
                                links,
                                links.len() as int,
                            ));
                            reveal_strlit("pre_install hook failed");
                            reveal_strlit("post_install hook failed");
                            assert("pre_install hook failed"@.len()
                                != "post_install hook failed"@.len());
                        }
                        return Err(e);
                    },
                }
            },
            None => {
            },
        }
        Ok(InstalledPackage { local_path: target, manifest })
    }

    /// Removes the downloaded directory for this package.
    pub fn remove(&self, fs: &mut FsState) -> (r: Result<(), HermError>)
        requires
            old(fs).wf(),
        ensures
            final(fs).wf(),
            r is Ok,
            crate::fsmodel::spec_shrinks(*old(fs), *final(fs)),
            forall|q: Seq<char>|
                final(fs).find(q) == (if crate::fsmodel::path_prefixed(q, self.local_path@) {
                    None::<FsNodeV>
                } else {
                    old(fs).find(q)
                }),
    {
        fs.del_prefix(self.local_path.as_str());
        Ok(())
    }

    /// Upgrades the package: the caller re-fetches the latest contents into
    /// this package's cache slot first; when that fetch fails the slot still
    /// holds the previous contents, so installing again reinstates them and
    /// the package is never left uninstalled.
    pub fn upgrade<R: HookRunner>(
        &self,
        fs: &mut FsState,
        svc: &PackageService,
        runner: &mut R,
    ) -> (r: Result<InstalledPackage, HermError>)
        requires
            old(fs).wf(),
        ensures
            final(fs).wf(),
            spec_install_outcome(*old(fs), *final(fs), self.local_path@, *svc, r is Ok),
            spec_install_unobstructed(*old(fs), self.local_path@, *svc) ==> r is Ok,
    {
        self.install(fs, svc, runner)
    }
}

// ---------------------------------------------------------------------------
// The uninstall transition
// ---------------------------------------------------------------------------
/// The sequence of destinations whose templates render, among the given
/// mapping definitions, in order.
pub open spec fn spec_renderable_dests(ds: Seq<MappingV>, home: Seq<char>) -> Seq<Seq<char>>
    decreases ds.len(),
{
    if ds.len() == 0 {
        Seq::empty()
    } else {
        let rest = spec_renderable_dests(ds.skip(1), home);
        match spec_render(ds[0].o, home) {
            Some(o) => seq![o] + rest,
            None => rest,
        }
    }
}

/// One more definition at the end of the renderable-destination list.
pub proof fn lemma_renderable_push(ds: Seq<MappingV>, d: MappingV, home: Seq<char>)
    ensures
        spec_renderable_dests(ds.push(d), home) == (match spec_render(d.o, home) {
            Some(o) => spec_renderable_dests(ds, home).push(o),
            None => spec_renderable_dests(ds, home),
        }),
    decreases ds.len(),
{
    if ds.len() == 0 {
        assert(ds.push(d)[0] == d);
        assert(ds.push(d).skip(1) =~= ds);
        if spec_render(d.o, home) is Some {
            assert(seq![spec_render(d.o, home)->0] + Seq::<Seq<char>>::empty() =~= Seq::<
                Seq<char>,
            >::empty().push(spec_render(d.o, home)->0));
        }
    } else {
        assert(ds.push(d)[0] == ds[0]);
        assert(ds.push(d).skip(1) =~= ds.skip(1).push(d));
        lemma_renderable_push(ds.skip(1), d, home);
        if spec_render(ds[0].o, home) is Some && spec_render(d.o, home) is Some {
            assert(seq![spec_render(ds[0].o, home)->0] + spec_renderable_dests(
                ds.skip(1),
                home,
            ).push(spec_render(d.o, home)->0) =~= (seq![spec_render(ds[0].o, home)->0]
                + spec_renderable_dests(ds.skip(1), home)).push(spec_render(d.o, home)->0));
        }
    }
}

/// The filesystem `fs1` is `fs0` after uninstalling each destination in
/// order: each one that is a regular file disappears, the rest see nothing
/// to do.
pub open spec fn spec_unlinks(fs0: FsState, fs1: FsState, dests: Seq<Seq<char>>) -> bool
    decreases dests.len(),
{
    if dests.len() == 0 {
        fs1 == fs0
    } else {
        exists|mid: FsState|
            #[trigger] spec_uninstall_step(fs0, mid, dests[0]) && spec_unlinks(
                mid,
                fs1,
                dests.skip(1),
            )
    }
}

/// Appending one more uninstall step to a chain.
pub proof fn lemma_unlinks_snoc(
    fs0: FsState,
    fs1: FsState,
    fs2: FsState,
    dests: Seq<Seq<char>>,
    d: Seq<char>,
)
    requires
        spec_unlinks(fs0, fs1, dests),
        spec_uninstall_step(fs1, fs2, d),
    ensures
        spec_unlinks(fs0, fs2, dests.push(d)),
    decreases dests.len(),
{
    if dests.len() == 0 {
        assert(dests.push(d)[0] == d);
        assert(dests.push(d).skip(1) =~= dests);
        assert(spec_uninstall_step(fs0, fs2, d));
        assert(spec_unlinks(fs2, fs2, dests.push(d).skip(1)));
    } else {
        let mid = choose|mid: FsState|
            #[trigger] spec_uninstall_step(fs0, mid, dests[0]) && spec_unlinks(
                mid,
                fs1,
                dests.skip(1),
            );
        lemma_unlinks_snoc(mid, fs1, fs2, dests.skip(1), d);
        assert(dests.push(d)[0] == dests[0]);
        assert(dests.push(d).skip(1) =~= dests.skip(1).push(d));
        assert(spec_uninstall_step(fs0, mid, dests.push(d)[0]) && spec_unlinks(
            mid,
            fs2,
            dests.push(d).skip(1),
        ));
    }
}

/// Everything uninstalling an installed package does to the filesystem:
/// every renderable destination is unlinked in order (best effort), and the
/// package's installed tree is removed.
pub open spec fn spec_uninstall_outcome(
    fs0: FsState,
    fs1: FsState,
    m: ManifestV,
    local: Seq<char>,
    svc: PackageService,
) -> bool {
    let dests = spec_renderable_dests(
        spec_applicable(m.mappings, svc.platform@),
        svc.home_root@,
    );
    exists|mid: FsState|
        #![auto]
        spec_unlinks(fs0, mid, dests) && (forall|q: Seq<char>|
            fs1.find(q) == (if crate::fsmodel::path_prefixed(q, local) {
                None::<FsNodeV>
            } else {
                mid.find(q)
            }))
}

impl InstalledPackage {
    /// Uninstalls the package: unlinks every applicable mapping's rendered
    /// destination (best effort: a mapping whose template no longer renders
    /// is skipped, and a destination that is not a regular file is left
    /// alone), then removes the installed tree.  Returns the package in its
    /// downloaded state, pointing at the cache directory.
    #[verifier::loop_isolation(false)]
    #[verifier::rlimit(30)]
    pub fn uninstall(&self, fs: &mut FsState, svc: &PackageService) -> (r: Result<
        DownloadedPackage,
        HermError,
    >)
        requires
            old(fs).wf(),
        ensures
            final(fs).wf(),
            r is Ok,
            spec_uninstall_outcome(*old(fs), *final(fs), self.manifest@, self.local_path@, *svc),
            crate::fsmodel::spec_shrinks(*old(fs), *final(fs)),
            r matches Ok(d) ==> d.local_path@ == spec_join_path(
                svc.download_root@,
                self.manifest@.id,
            ),
    {
        let ghost fs0 = *old(fs);
        let ghost msv = self.manifest@.mappings;
        let ghost platform = svc.platform@;
        let ghost home = svc.home_root@;
        let mut k: usize = 0;
        proof {
            assert(msv.take(0) =~= Seq::<MappingV>::empty());
        }
        while k < self.manifest.mappings.len()
            invariant
                fs.wf(),
                k <= msv.len(),
                crate::fsmodel::spec_shrinks(fs0, *fs),
                spec_unlinks(
                    fs0,
                    *fs,
                    spec_renderable_dests(spec_applicable(msv.take(k as int), platform), home),
                ),
            decreases msv.len() - k,
        {
            let d = &self.manifest.mappings[k];
            let ghost dv = d@;
            proof {
                assert(msv.take(k as int).push(dv) =~= msv.take(k as int + 1));
                lemma_applicable_push(msv.take(k as int), dv, platform);
            }
            if d.valid_platform_family(svc.platform.as_str()) {
                proof {
                    lemma_renderable_push(
                        spec_applicable(msv.take(k as int), platform),
                        dv,
                        home,
                    );
                }
                match d.render_file_mapping(svc.home_root.as_str(), self.local_path.as_str()) {
                    Ok(fm) => {
                        let ghost pre = *fs;
                        let res = fm.uninstall(fs);
                        proof {
                            lemma_unlinks_snoc(
                                fs0,
                                pre,
                                *fs,
                                spec_renderable_dests(
                                    spec_applicable(msv.take(k as int), platform),
                                    home,
                                ),
                                fm@.o,
                            );
                        }
                    },
                    Err(_) => {
                        // a mapping whose template no longer renders is
                        // reported and skipped: uninstall is best effort
                    },
                }
            }
            k = k + 1;
        }
        proof {
            assert(msv.take(msv.len() as int) =~= msv);
        }
        let ghost mid = *fs;
        fs.del_prefix(self.local_path.as_str());
        let downloaded_path = join_path(svc.download_root.as_str(), self.manifest.id.as_str());
        proof {
            let dests = spec_renderable_dests(spec_applicable(msv, platform), home);
            assert(spec_unlinks(fs0, mid, dests) && (forall|q: Seq<char>|
                fs.find(q) == (if crate::fsmodel::path_prefixed(q, self.local_path@) {
                    None::<FsNodeV>
                } else {
                    mid.find(q)
                })));
        }
        Ok(DownloadedPackage { local_path: downloaded_path })
    }

    /// Removes the package for good: runs the pre-remove hook (fatal when it
    /// refuses, before any mutation), uninstalls, deletes the downloaded
    /// cache subtree, and runs the post-remove hook.
    pub fn remove<R: HookRunner>(
        self,
        fs: &mut FsState,
        svc: &PackageService,
        runner: &mut R,
    ) -> (r: Result<bool, HermError>)
        requires
            old(fs).wf(),
        ensures
            final(fs).wf(),
            crate::fsmodel::spec_shrinks(*old(fs), *final(fs)),
            self.manifest@.hooks is None ==> r is Ok,
            r is Ok ==> (forall|q: Seq<char>|
                (crate::fsmodel::path_prefixed(q, self.local_path@) || crate::fsmodel::path_prefixed(
                    q,
                    spec_join_path(svc.download_root@, self.manifest@.id),
                )) ==> final(fs).find(q) is None),
            (match r {
                Err(e) => (match e {
                    HermError::IoError(msg) => msg@ == "pre_remove hook failed"@ ==> *final(fs)
                        == *old(fs),
                    _ => true,
                }),
                Ok(_) => true,
            }),
            (match r {
                Ok(b) => b,
                Err(e) => true,
            }),
            ({
                let dlpath = spec_join_path(svc.download_root@, self.manifest@.id);
                ||| (r is Err && *final(fs) == *old(fs))
                ||| exists|mid: FsState|
                    #![auto]
                    spec_uninstall_outcome(*old(fs), mid, self.manifest@, self.local_path@, *svc)
                        && (forall|q: Seq<char>|
                        final(fs).find(q) == (if crate::fsmodel::path_prefixed(q, dlpath) {
                            None::<FsNodeV>
                        } else {
                            mid.find(q)
                        }))
            }),
    {
        match &self.manifest.hooks {
            Some(h) => {
                match h.execute_pre_remove(runner) {
                    Ok(_) => {
                    },
                    Err(e) => {
                        return Err(e);
                    },
                }
            },
            None => {
            },
        }
        let downloaded = match self.uninstall(fs, svc) {
            Ok(d) => d,
            Err(e) => {
                return Err(e);
            },
        };
        let ghost mid = *fs;
        match downloaded.remove(fs) {
            Ok(_) => {
            },
            Err(e) => {
                return Err(e);
            },
        }
        let post_result = match &self.manifest.hooks {
            Some(h) => h.execute_post_remove(runner),
            None => Ok(()),
        };
        proof {
            reveal_strlit("pre_remove hook failed");
            reveal_strlit("post_remove hook failed");
            assert("pre_remove hook failed"@.len() != "post_remove hook failed"@.len());
        }
        match post_result {
            Ok(_) => Ok(true),
            Err(e) => Err(e),
        }
    }
}

// ---------------------------------------------------------------------------
// Obtaining packages
// ---------------------------------------------------------------------------
/// Everything downloading a local package source may do to the filesystem.
/// `got` names the downloaded package's path on success.  A remote source
/// (any scheme but `file://`) is fetched by the caller before the library
/// sees it, so it is refused here.
pub open spec fn spec_download_outcome(
    fs0: FsState,
    fs1: FsState,
    src: Seq<char>,
    svc: PackageService,
    got: Option<Seq<char>>,
) -> bool {
    if !crate::text::spec_has_prefix_at(src, 0, "file://"@) {
        got is None && fs1 == fs0
    } else {
        let path = src.skip("file://"@.len() as int);
        if fs0.find(path) == Some(FsNodeV::Dir) {
            match spec_fs_manifest(fs0, path) {
                Some(m) => {
                    let dest = spec_join_path(svc.download_root@, m.id);
                    &&& got == Some(dest)
                    &&& forall|q: Seq<char>| fs1.find(q) == spec_copy_find(fs0, path, dest, q)
                },
                None => got is None && fs1 == fs0,
            }
        } else if fs0.is_file(path) {
            match crate::packer::spec_archive_manifest(fs0.file_bytes(path)->0) {
                Some(m) => {
                    let root = spec_join_path(svc.download_root@, m.id);
                    let es = crate::packer::spec_archive_entries(fs0.file_bytes(path)->0)->0;
                    &&& got == Some(root)
                    &&& forall|q: Seq<char>|
                        fs1.find(q) == (match crate::packer::spec_entry_find(es, root, q) {
                            Some(d) => Some(FsNodeV::File(d)),
                            None => (if q == root {
                                Some(FsNodeV::Dir)
                            } else {
                                fs0.find(q)
                            }),
                        })
                },
                None => got is None && fs1 == fs0,
            }
        } else {
            got is None && fs1 == fs0
        }
    }
}


/// The package directory a table path names, when the path is a manifest
/// file directly under the install root: `<root>/<segment>/hermione.yml`
/// with a nonempty segment free of separators.
pub open spec fn spec_direct_pkg_root(p: Seq<char>, root: Seq<char>) -> Option<Seq<char>> {
    let mlen = "/hermione.yml"@.len() as int;
    if p.len() > root.len() + mlen + 1 && root.is_prefix_of(p) && p[root.len() as int] == '/'
        && p.skip(p.len() - mlen) == "/hermione.yml"@ && (forall|i: int|
        root.len() + 1 <= i < p.len() - mlen ==> #[trigger] p[i] != '/') {
        Some(p.take(p.len() - mlen))
    } else {
        None
    }
}

/// A direct package directory starts with the install root.
proof fn lemma_direct_root_prefixed(p: Seq<char>, root: Seq<char>)
    requires
        spec_direct_pkg_root(p, root) is Some,
    ensures
        crate::text::spec_has_prefix_at(spec_direct_pkg_root(p, root)->0, 0, root),
{
    let mlen = "/hermione.yml"@.len() as int;
    let rt = p.take(p.len() - mlen);
    assert(p.subrange(0, root.len() as int) == root);
    assert(rt.subrange(0, root.len() as int) =~= p.subrange(0, root.len() as int));
}

/// Computes the package directory an entry path names, when it is a
/// manifest file directly under the install root.
#[verifier::loop_isolation(false)]
fn direct_pkg_root_of(p: &str, root: &str) -> (r: Option<String>)
    ensures
        r.deep_view() == spec_direct_pkg_root(p@, root@),
{
    proof {
        reveal_strlit("/hermione.yml");
    }
    let mlen = "/hermione.yml".unicode_len();
    let plen = p.unicode_len();
    let rootlen = root.unicode_len();
    if !(plen > rootlen && plen - rootlen > mlen + 1) {
        return None;
    }
    if !crate::text::has_prefix_at(p, 0, root) {
        proof {
            if root@.is_prefix_of(p@) {
                assert(p@.subrange(0, root@.len() as int) == root@);
            }
        }
        return None;
    }
    proof {
        assert(p@.subrange(0, root@.len() as int) == root@);
        assert(root@.is_prefix_of(p@));
    }
    if p.get_char(rootlen) != '/' {
        return None;
    }
    if !crate::text::has_prefix_at(p, plen - mlen, "/hermione.yml") {
        proof {
            if p@.skip(p@.len() - mlen) == "/hermione.yml"@ {
                assert(p@.subrange(plen - mlen, plen - mlen + mlen) =~= p@.skip(p@.len() - mlen));
            }
        }
        return None;
    }
    proof {
        assert(p@.subrange(plen - mlen, plen - mlen + mlen) == "/hermione.yml"@);
        assert(p@.skip(p@.len() - mlen) =~= p@.subrange(plen - mlen, plen - mlen + mlen));
    }
    let mut i: usize = rootlen + 1;
    while i < plen - mlen
        invariant
            rootlen + 1 <= i <= plen - mlen,
            forall|t: int| rootlen + 1 <= t < i ==> #[trigger] p@[t] != '/',
        decreases plen - mlen - i,
    {
        if p.get_char(i) == '/' {
            return None;
        }
        i = i + 1;
    }
    Some(crate::text::copy_range(p, 0, plen - mlen))
}

/// A filesystem that only lost entries kept whatever manifest it still
/// shows: a manifest readable afterwards was readable before, unchanged.
proof fn lemma_shrink_fs_manifest(a: FsState, b: FsState, root: Seq<char>)
    requires
        crate::fsmodel::spec_shrinks(a, b),
        spec_fs_manifest(b, root) is Some,
    ensures
        spec_fs_manifest(a, root) == spec_fs_manifest(b, root),
{
    let p = spec_join_path(root, "hermione.yml"@);
    match b.find(p) {
        Some(FsNodeV::Link(t)) => {
            assert(b.find(p) == a.find(p));
            assert(b.find(t) == a.find(t));
        },
        _ => {
            assert(b.find(p) == a.find(p));
        },
    }
}

/// In a sorted listing where everything before `pos` precedes the new path
/// and the element at `pos` does not, no later element precedes it either.
proof fn lemma_sorted_tail_not_lt(
    pre: Seq<InstalledPackage>,
    pos: int,
    t: int,
    newpath: Seq<char>,
)
    requires
        0 <= pos <= t < pre.len(),
        !crate::repositories::lex_lt(pre[pos].local_path@, newpath),
        forall|j: int, u: int|
            0 <= j < u < pre.len() ==> !crate::repositories::lex_lt(
                (#[trigger] pre[u]).local_path@,
                (#[trigger] pre[j]).local_path@,
            ),
    ensures
        !crate::repositories::lex_lt(pre[t].local_path@, newpath),
{
    if crate::repositories::lex_lt(pre[t].local_path@, newpath) {
        crate::repositories::lemma_lex_lt_connected(pre[pos].local_path@, newpath);
        if pre[pos].local_path@ == newpath {
            assert(crate::repositories::lex_lt(pre[t].local_path@, pre[pos].local_path@));
            if pos == t {
                crate::repositories::lemma_lex_lt_irrefl(newpath);
            }
        } else {
            assert(crate::repositories::lex_lt(newpath, pre[pos].local_path@));
            crate::repositories::lemma_lex_lt_trans(
                pre[t].local_path@,
                newpath,
                pre[pos].local_path@,
            );
            if pos == t {
                crate::repositories::lemma_lex_lt_irrefl(pre[t].local_path@);
            }
        }
    }
}

/// Every path under the given package directory is gone.
pub open spec fn spec_tree_cleared(cur: FsState, rt: Seq<char>) -> bool {
    forall|q: Seq<char>| crate::fsmodel::path_prefixed(q, rt) ==> cur.find(q) is None
}

/// No package manifest directly under the install root carries hooks: the
/// one condition under which a removal could refuse.
pub open spec fn spec_no_hooked_packages(fs: FsState, root: Seq<char>) -> bool {
    forall|j: int|
        0 <= j < fs.entries_view().len() ==> (match spec_direct_pkg_root(
            (#[trigger] fs.entries_view()[j]).0,
            root,
        ) {
            Some(rt) => (match spec_fs_manifest(fs, rt) {
                Some(m) => m.hooks is None,
                None => true,
            }),
            None => true,
        })
}

/// Judged by the pre-call table, no package manifest remains directly under
/// the install root afterwards.
pub open spec fn spec_no_packages_remain(fs0: FsState, fsf: FsState, root: Seq<char>) -> bool {
    forall|j: int|
        0 <= j < fs0.entries_view().len() ==> (match spec_direct_pkg_root(
            (#[trigger] fs0.entries_view()[j]).0,
            root,
        ) {
            Some(rt) => spec_fs_manifest(fsf, rt) is None,
            None => true,
        })
}

/// Mid-purge bookkeeping: every package present at the start is either
/// still pending in the work list or already cleared.
spec fn spec_purge_pending(
    fs0: FsState,
    cur: FsState,
    pending: Seq<InstalledPackage>,
    root: Seq<char>,
) -> bool {
    forall|j: int|
        0 <= j < fs0.entries_view().len() ==> (match spec_direct_pkg_root(
            (#[trigger] fs0.entries_view()[j]).0,
            root,
        ) {
            Some(rt) => spec_fs_manifest(fs0, rt) is Some ==> ((exists|t: int|
                0 <= t < pending.len() && (#[trigger] pending[t]).local_path@ == rt)
                || spec_tree_cleared(cur, rt)),
            None => true,
        })
}

/// Under the no-hooks condition, a package found at a direct manifest entry
/// carries no hooks.
proof fn lemma_no_hooked_instance(fs0: FsState, root: Seq<char>, rt: Seq<char>, m: ManifestV)
    requires
        spec_no_hooked_packages(fs0, root),
        exists|e: int|
            0 <= e < fs0.entries_view().len() && spec_direct_pkg_root(
                (#[trigger] fs0.entries_view()[e]).0,
                root,
            ) == Some(rt),
        spec_fs_manifest(fs0, rt) == Some(m),
    ensures
        m.hooks is None,
{
    let e = choose|e: int|
        0 <= e < fs0.entries_view().len() && spec_direct_pkg_root(
            (#[trigger] fs0.entries_view()[e]).0,
            root,
        ) == Some(rt);
}

/// One purge step: removing the head of the work list and clearing its tree
/// keeps every remaining package pending or cleared.
proof fn lemma_purge_step(
    fs0: FsState,
    pre: FsState,
    cur: FsState,
    pre_pending: Seq<InstalledPackage>,
    pending: Seq<InstalledPackage>,
    root: Seq<char>,
)
    requires
        spec_purge_pending(fs0, pre, pre_pending, root),
        pre_pending.len() > 0,
        pending == pre_pending.skip(1),
        crate::fsmodel::spec_shrinks(pre, cur),
        spec_tree_cleared(cur, pre_pending[0].local_path@),
    ensures
        spec_purge_pending(fs0, cur, pending, root),
{
    assert forall|j: int|
        0 <= j < fs0.entries_view().len() implies (match spec_direct_pkg_root(
        (#[trigger] fs0.entries_view()[j]).0,
        root,
    ) {
        Some(rt) => spec_fs_manifest(fs0, rt) is Some ==> ((exists|t: int|
            0 <= t < pending.len() && (#[trigger] pending[t]).local_path@ == rt)
            || spec_tree_cleared(cur, rt)),
        None => true,
    }) by {
        match spec_direct_pkg_root(fs0.entries_view()[j].0, root) {
            Some(rt) => {
                if spec_fs_manifest(fs0, rt) is Some {
                    if exists|t: int|
                        0 <= t < pre_pending.len() && (#[trigger] pre_pending[t]).local_path@
                            == rt {
                        let t = choose|t: int|
                            0 <= t < pre_pending.len() && (#[trigger] pre_pending[t]).local_path@
                                == rt;
                        if t == 0 {
                            assert(spec_tree_cleared(cur, rt));
                        } else {
                            assert(pending[t - 1].local_path@ == rt);
                        }
                    } else {
                        // already cleared; losing entries keeps it so
                        assert forall|q: Seq<char>|
                            crate::fsmodel::path_prefixed(q, rt) implies cur.find(q) is None by {
                            assert(pre.find(q) is None);
                        }
                    }
                }
            },
            None => {
            },
        }
    }
}

/// With the work list empty, pending-or-cleared means cleared, and a
/// cleared tree holds no manifest.
proof fn lemma_purge_final(fs0: FsState, fsf: FsState, root: Seq<char>)
    requires
        crate::fsmodel::spec_shrinks(fs0, fsf),
        spec_purge_pending(fs0, fsf, Seq::<InstalledPackage>::empty(), root),
    ensures
        spec_no_packages_remain(fs0, fsf, root),
{
    assert forall|j: int|
        0 <= j < fs0.entries_view().len() implies (match spec_direct_pkg_root(
        (#[trigger] fs0.entries_view()[j]).0,
        root,
    ) {
        Some(rt) => spec_fs_manifest(fsf, rt) is None,
        None => true,
    }) by {
        match spec_direct_pkg_root(fs0.entries_view()[j].0, root) {
            Some(rt) => {
                if spec_fs_manifest(fs0, rt) is Some {
                    assert(spec_tree_cleared(fsf, rt));
                    let mpath = spec_join_path(rt, "hermione.yml"@);
                    assert(crate::fsmodel::path_prefixed(mpath, rt)) by {
                        assert(mpath.subrange(0, rt.len() as int) =~= rt);
                    }
                    assert(fsf.find(mpath) is None);
                } else {
                    if spec_fs_manifest(fsf, rt) is Some {
                        lemma_shrink_fs_manifest(fs0, fsf, rt);
                    }
                }
            },
            None => {
            },
        }
    }
}

impl PackageService {
    /// Obtains a local package source into the download directory: a
    /// `file://` directory is copied under the cache by its package id, a
    /// `file://` archive file is unpacked there.  A remote source is fetched
    /// by the caller, which then hands the fetched archive in the same way.
    pub fn download(&self, fs: &mut FsState, src: &str) -> (r: Result<DownloadedPackage, HermError>)
        requires
            old(fs).wf(),
        ensures
            final(fs).wf(),
            spec_download_outcome(
                *old(fs),
                *final(fs),
                src@,
                *self,
                (match r {
                    Ok(d) => Some(d.local_path@),
                    Err(_) => None,
                }),
            ),
    {
        if !crate::text::has_prefix_at(src, 0, "file://") {
            return Err(
                HermError::IoError(
                    String::from_str("remote package sources are fetched by the caller"),
                ),
            );
        }
        let scheme_len = "file://".unicode_len();
        let n = src.unicode_len();
        let path = crate::text::copy_range(src, scheme_len, n);
        proof {
            assert(path@ =~= src@.skip("file://"@.len() as int));
        }
        let is_dir = match fs.find_node(path.as_str()) {
            Some(crate::fsmodel::FsNode::Dir) => true,
            _ => false,
        };
        if is_dir {
            let manifest = match read_manifest(fs, path.as_str()) {
                Ok(m) => m,
                Err(e) => {
                    return Err(e);
                },
            };
            let dest = join_path(self.download_root.as_str(), manifest.id.as_str());
            fs.copy_tree(path.as_str(), dest.as_str());
            return Ok(DownloadedPackage { local_path: dest });
        }
        let is_file = match fs.read_file(path.as_str()) {
            Some(_) => true,
            None => false,
        };
        if is_file {
            let packer = crate::packer::Packer::new(path);
            let dest_root = self.download_dir();
            match packer.unpack(fs, dest_root.as_str()) {
                Ok(p) => {
                    return Ok(DownloadedPackage { local_path: p });
                },
                Err(e) => {
                    return Err(e);
                },
            }
        }
        Err(HermError::NotFoundError(path))
    }

    /// Downloads a local package source and installs it.
    pub fn download_and_install<R: HookRunner>(
        &self,
        fs: &mut FsState,
        src: &str,
        runner: &mut R,
    ) -> (r: Result<InstalledPackage, HermError>)
        requires
            old(fs).wf(),
        ensures
            final(fs).wf(),
            (match r {
                Ok(_) => exists|mid: FsState, p: Seq<char>|
                    #![auto]
                    spec_download_outcome(*old(fs), mid, src@, *self, Some(p))
                        && spec_install_outcome(mid, *final(fs), p, *self, true),
                Err(_) => spec_download_outcome(*old(fs), *old(fs), src@, *self, None) || (exists|
                    mid: FsState,
                    p: Seq<char>,
                |
                    #![auto]
                    spec_download_outcome(*old(fs), mid, src@, *self, Some(p))
                        && !spec_install_unobstructed(mid, p, *self)),
            }),
    {
        let downloaded = match self.download(fs, src) {
            Ok(d) => d,
            Err(e) => {
                return Err(e);
            },
        };
        let ghost mid = *fs;
        let ghost p = downloaded.local_path@;
        let installed = match downloaded.install(fs, self, runner) {
            Ok(i) => i,
            Err(e) => {
                return Err(e);
            },
        };
        proof {
            assert(spec_download_outcome(*old(fs), mid, src@, *self, Some(p))
                && spec_install_outcome(mid, *fs, p, *self, true));
        }
        Ok(installed)
    }

    /// Looks up an installed package by id and reads its manifest back.
    pub fn get_installed_package(&self, fs: &FsState, package_id: &str) -> (r: Result<
        InstalledPackage,
        HermError,
    >)
        ensures
            ({
                let path = spec_join_path(self.install_root@, package_id@);
                if crate::service::spec_blank(package_id@) || fs.find(path) != Some(
                    FsNodeV::Dir,
                ) {
                    r is Err
                } else {
                    match spec_fs_manifest(*fs, path) {
                        Some(m) => r matches Ok(p) && p.local_path@ == path && p.manifest@ == m,
                        None => r is Err,
                    }
                }
            }),
    {
        let path = match self.installed_package_path(fs, package_id) {
            Ok(p) => p,
            Err(e) => {
                return Err(e);
            },
        };
        let manifest = match read_manifest(fs, path.as_str()) {
            Ok(m) => m,
            Err(e) => {
                return Err(e);
            },
        };
        Ok(InstalledPackage { local_path: path, manifest })
    }

    /// Lists the installed packages: every directory directly under the
    /// install root that holds a readable manifest, sorted by path in
    /// code-point order.  Sound and complete over the model: every returned
    /// package is installed with that manifest at that path and comes from
    /// a manifest-file entry directly under the install root, and every
    /// such entry whose package reads back appears.
    #[verifier::loop_isolation(false)]
    #[verifier::rlimit(80)]
    #[verifier::spinoff_prover]
    pub fn list_installed_packages(&self, fs: &FsState) -> (r: Vec<InstalledPackage>)
        ensures
            forall|j: int|
                0 <= j < r@.len() ==> spec_fs_manifest(*fs, (#[trigger] r@[j]).local_path@)
                    == Some(r@[j].manifest@) && crate::text::spec_has_prefix_at(
                    r@[j].local_path@,
                    0,
                    self.install_root@,
                ),
            forall|j: int|
                0 <= j < r@.len() ==> (exists|e: int|
                    0 <= e < fs.entries_view().len() && spec_direct_pkg_root(
                        (#[trigger] fs.entries_view()[e]).0,
                        self.install_root@,
                    ) == Some((#[trigger] r@[j]).local_path@)),
            forall|j: int|
                0 <= j < fs.entries_view().len() ==> (match spec_direct_pkg_root(
                    (#[trigger] fs.entries_view()[j]).0,
                    self.install_root@,
                ) {
                    Some(rt) => spec_fs_manifest(*fs, rt) is Some ==> (exists|t: int|
                        0 <= t < r@.len() && (#[trigger] r@[t]).local_path@ == rt),
                    None => true,
                }),
            forall|j: int, t: int|
                0 <= j < t < r@.len() ==> !crate::repositories::lex_lt(
                    (#[trigger] r@[t]).local_path@,
                    (#[trigger] r@[j]).local_path@,
                ),
    {
        let mut out: Vec<InstalledPackage> = Vec::new();
        let mut k: usize = 0;
        while k < fs.entries.len()
            invariant
                k <= fs.entries@.len(),
                forall|j: int|
                    0 <= j < out@.len() ==> spec_fs_manifest(
                        *fs,
                        (#[trigger] out@[j]).local_path@,
                    ) == Some(out@[j].manifest@) && crate::text::spec_has_prefix_at(
                        out@[j].local_path@,
                        0,
                        self.install_root@,
                    ),
                forall|j: int|
                    0 <= j < out@.len() ==> (exists|e: int|
                        0 <= e < fs.entries_view().len() && spec_direct_pkg_root(
                            (#[trigger] fs.entries_view()[e]).0,
                            self.install_root@,
                        ) == Some((#[trigger] out@[j]).local_path@)),
                forall|j: int|
                    0 <= j < k ==> (match spec_direct_pkg_root(
                        (#[trigger] fs.entries_view()[j]).0,
                        self.install_root@,
                    ) {
                        Some(rt) => spec_fs_manifest(*fs, rt) is Some ==> (exists|t: int|
                            0 <= t < out@.len() && (#[trigger] out@[t]).local_path@ == rt),
                        None => true,
                    }),
                forall|j: int, t: int|
                    0 <= j < t < out@.len() ==> !crate::repositories::lex_lt(
                        (#[trigger] out@[t]).local_path@,
                        (#[trigger] out@[j]).local_path@,
                    ),
            decreases fs.entries@.len() - k,
        {
            let ghost pre_out = out@;
            let ghost mut inserted = false;
            let ghost mut inspos: int = 0;
            match direct_pkg_root_of(fs.entries[k].path.as_str(), self.install_root.as_str()) {
                Some(root) => {
                    proof {
                        assert(spec_direct_pkg_root(
                            fs.entries_view()[k as int].0,
                            self.install_root@,
                        ) == Some(root@));
                    }
                    match read_manifest(fs, root.as_str()) {
                        Ok(m) => {
                            let ghost rootv = root@;
                            proof {
                                assert(crate::text::spec_has_prefix_at(
                                    rootv,
                                    0,
                                    self.install_root@,
                                )) by {
                                    lemma_direct_root_prefixed(
                                        fs.entries_view()[k as int].0,
                                        self.install_root@,
                                    );
                                }
                            }
                            // find the position that keeps the listing sorted
                            let mut pos: usize = 0;
                            while pos < out.len() && crate::repositories::lex_less(
                                out[pos].local_path.as_str(),
                                root.as_str(),
                            )
                                invariant
                                    pos <= out@.len(),
                                    out@ == pre_out,
                                    rootv == root@,
                                    forall|j: int|
                                        0 <= j < pos ==> crate::repositories::lex_lt(
                                            (#[trigger] out@[j]).local_path@,
                                            rootv,
                                        ),
                                decreases out@.len() - pos,
                            {
                                pos = pos + 1;
                            }
                            proof {
                                inserted = true;
                                inspos = pos as int;
                                if pos < out.len() {
                                    assert(!crate::repositories::lex_lt(
                                        out@[inspos].local_path@,
                                        rootv,
                                    ));
                                }
                            }
                            let ghost newpkg = (InstalledPackage {
                                local_path: root,
                                manifest: m,
                            });
                            out.insert(pos, InstalledPackage { local_path: root, manifest: m });
                            proof {
                                assert(out@ =~= pre_out.take(inspos).push(newpkg) + pre_out.skip(
                                    inspos,
                                ));
                                assert forall|j: int| 0 <= j < out@.len() implies #[trigger] out@[j]
                                    == (if j < inspos {
                                    pre_out[j]
                                } else if j == inspos {
                                    newpkg
                                } else {
                                    pre_out[j - 1]
                                }) by {}
                                assert(newpkg.local_path@ == rootv);
                                // the listing stays sorted around the insertion
                                assert forall|j: int, t: int|
                                    0 <= j < t < out@.len() implies !crate::repositories::lex_lt(
                                    (#[trigger] out@[t]).local_path@,
                                    (#[trigger] out@[j]).local_path@,
                                ) by {
                                    if j < inspos && t == inspos {
                                        crate::repositories::lemma_lex_lt_asym(
                                            pre_out[j].local_path@,
                                            rootv,
                                        );
                                    } else if j == inspos && t > inspos {
                                        lemma_sorted_tail_not_lt(pre_out, inspos, t - 1, rootv);
                                    }
                                }
                            }
                        },
                        Err(_) => {
                        },
                    }
                },
                None => {
                },
            }
            proof {
                // soundness and the entry witnesses survive the insertion
                if inserted {
                    assert forall|j: int| 0 <= j < out@.len() implies spec_fs_manifest(
                        *fs,
                        (#[trigger] out@[j]).local_path@,
                    ) == Some(out@[j].manifest@) && crate::text::spec_has_prefix_at(
                        out@[j].local_path@,
                        0,
                        self.install_root@,
                    ) by {
                        if j < inspos {
                            assert(out@[j] == pre_out[j]);
                        } else if j > inspos {
                            assert(out@[j] == pre_out[j - 1]);
                        }
                    }
                    assert forall|j: int| 0 <= j < out@.len() implies (exists|e: int|
                        0 <= e < fs.entries_view().len() && spec_direct_pkg_root(
                            (#[trigger] fs.entries_view()[e]).0,
                            self.install_root@,
                        ) == Some((#[trigger] out@[j]).local_path@)) by {
                        if j < inspos {
                            assert(out@[j] == pre_out[j]);
                        } else if j == inspos {
                            assert(spec_direct_pkg_root(
                                fs.entries_view()[k as int].0,
                                self.install_root@,
                            ) == Some(out@[j].local_path@));
                        } else {
                            assert(out@[j] == pre_out[j - 1]);
                        }
                    }
                }
                // completeness for the entries handled so far
                assert forall|j: int| 0 <= j < k + 1 implies (match spec_direct_pkg_root(
                    (#[trigger] fs.entries_view()[j]).0,
                    self.install_root@,
                ) {
                    Some(rt) => spec_fs_manifest(*fs, rt) is Some ==> (exists|t: int|
                        0 <= t < out@.len() && (#[trigger] out@[t]).local_path@ == rt),
                    None => true,
                }) by {
                    match spec_direct_pkg_root(fs.entries_view()[j].0, self.install_root@) {
                        Some(rt) => {
                            if spec_fs_manifest(*fs, rt) is Some {
                                if j < k {
                                    let t = choose|t: int|
                                        0 <= t < pre_out.len() && (#[trigger] pre_out[
                                        t]).local_path@ == rt;
                                    if inserted {
                                        if t < inspos {
                                            assert(out@[t].local_path@ == rt);
                                        } else {
                                            assert(out@[t + 1].local_path@ == rt);
                                        }
                                    } else {
                                        assert(out@[t].local_path@ == rt);
                                    }
                                } else {
                                    assert(inserted);
                                    assert(out@[inspos].local_path@ == rt);
                                }
                            }
                        },
                        None => {
                        },
                    }
                }
            }
            k = k + 1;
        }
        out
    }

    /// Removes every installed package (hooks, unlinking, tree removal);
    /// packages only ever disappear, nothing is created or changed.  On
    /// success no package manifest remains directly under the install root.
    /// Only a hook can make a removal fail, so when no installed package's
    /// manifest carries hooks the purge is owed success; any single failed
    /// removal is reported after the rest were attempted.
    #[verifier::loop_isolation(false)]
    #[verifier::rlimit(50)]
    pub fn purge_installed_packages<R: HookRunner>(
        &self,
        fs: &mut FsState,
        runner: &mut R,
    ) -> (r: Result<(), HermError>)
        requires
            old(fs).wf(),
        ensures
            final(fs).wf(),
            crate::fsmodel::spec_shrinks(*old(fs), *final(fs)),
            r is Ok ==> spec_no_packages_remain(*old(fs), *final(fs), self.install_root@),
            spec_no_hooked_packages(*old(fs), self.install_root@) ==> r is Ok,
    {
        let mut packages = self.list_installed_packages(fs);
        let mut failed = false;
        let ghost fs0 = *fs;
        proof {
            // the listing's completeness supplies the pending witnesses
            assert forall|j: int|
                0 <= j < fs0.entries_view().len() implies (match spec_direct_pkg_root(
                (#[trigger] fs0.entries_view()[j]).0,
                self.install_root@,
            ) {
                Some(rt) => spec_fs_manifest(fs0, rt) is Some ==> ((exists|t: int|
                    0 <= t < packages@.len() && (#[trigger] packages@[t]).local_path@ == rt)
                    || spec_tree_cleared(*fs, rt)),
                None => true,
            }) by {}
        }
        loop
            invariant
                fs.wf(),
                fs0 == *old(fs),
                crate::fsmodel::spec_shrinks(fs0, *fs),
                forall|t: int|
                    0 <= t < packages@.len() ==> spec_fs_manifest(
                        fs0,
                        (#[trigger] packages@[t]).local_path@,
                    ) == Some(packages@[t].manifest@),
                forall|t: int|
                    0 <= t < packages@.len() ==> (exists|e: int|
                        0 <= e < fs0.entries_view().len() && spec_direct_pkg_root(
                            (#[trigger] fs0.entries_view()[e]).0,
                            self.install_root@,
                        ) == Some((#[trigger] packages@[t]).local_path@)),
                spec_no_hooked_packages(fs0, self.install_root@) ==> !failed,
                !failed ==> spec_purge_pending(fs0, *fs, packages@, self.install_root@),
            decreases packages@.len(),
        {
            if packages.len() == 0 {
                break ;
            }
            let ghost pre = *fs;
            let ghost pre_packages = packages@;
            let pkg = packages.remove(0);
            let ghost pkgv = pkg.local_path@;
            let ghost pman = pkg.manifest@;
            let removal = pkg.remove(fs, self, runner);
            let ghost removal_ok = removal is Ok;
            match removal {
                Ok(_) => {
                },
                Err(_) => {
                    failed = true;
                },
            }
            proof {
                assert(crate::fsmodel::spec_shrinks(pre, *fs));
                assert(packages@ =~= pre_packages.skip(1));
                assert forall|t: int|
                    0 <= t < packages@.len() implies spec_fs_manifest(
                    fs0,
                    (#[trigger] packages@[t]).local_path@,
                ) == Some(packages@[t].manifest@) by {
                    assert(packages@[t] == pre_packages[t + 1]);
                }
                assert forall|t: int|
                    0 <= t < packages@.len() implies (exists|e: int|
                    0 <= e < fs0.entries_view().len() && spec_direct_pkg_root(
                        (#[trigger] fs0.entries_view()[e]).0,
                        self.install_root@,
                    ) == Some((#[trigger] packages@[t]).local_path@)) by {
                    assert(packages@[t] == pre_packages[t + 1]);
                }
                if spec_no_hooked_packages(fs0, self.install_root@) {
                    lemma_no_hooked_instance(fs0, self.install_root@, pkgv, pman);
                    assert(removal_ok);
                }
                if !failed {
                    assert(removal_ok);
                    assert(spec_tree_cleared(*fs, pkgv));
                    lemma_purge_step(
                        fs0,
                        pre,
                        *fs,
                        pre_packages,
                        packages@,
                        self.install_root@,
                    );
                }
            }
        }
        if failed {
            return Err(HermError::IoError(String::from_str("failed to uninstall all packages")));
        }
        proof {
            assert(packages@ =~= Seq::<InstalledPackage>::empty());
            lemma_purge_final(fs0, *fs, self.install_root@);
        }
        Ok(())
    }

    /// Removes everything: every installed package, then the install
    /// directory with its lockfile and index, then the download directory.
    /// The returned flag reports whether every package was removed: exactly
    /// then is the install directory deleted too, otherwise it is kept for
    /// the owner's attention; the download directory goes regardless.
    pub fn implode<R: HookRunner>(&self, fs: &mut FsState, runner: &mut R) -> (r: Result<
        bool,
        HermError,
    >)
        requires
            old(fs).wf(),
        ensures
            final(fs).wf(),
            r is Ok,
            crate::fsmodel::spec_shrinks(*old(fs), *final(fs)),
            forall|q: Seq<char>|
                crate::fsmodel::path_prefixed(q, self.download_root@) ==> final(fs).find(q)
                    is None,
            r matches Ok(purged) ==> (purged ==> (forall|q: Seq<char>|
                crate::fsmodel::path_prefixed(q, self.install_root@) ==> final(fs).find(q)
                    is None)),
            spec_no_hooked_packages(*old(fs), self.install_root@) ==> (r matches Ok(purged)
                && purged),
    {
        let purge_result = self.purge_installed_packages(fs, runner);
        let purged = match purge_result {
            Ok(_) => {
                fs.del_prefix(self.install_root.as_str());
                true
            },
            Err(_) => {
                // the install directory is kept for the owner's attention
                // when a package failed to uninstall
                false
            },
        };
        fs.del_prefix(self.download_root.as_str());
        Ok(purged)
    }
}

// ---------------------------------------------------------------------------
// The laws of the lifecycle
// ---------------------------------------------------------------------------
/// After an uninstall chain, no destination in it is a regular file any
/// more, and the filesystem has only lost entries, never gained or changed
/// any.
pub proof fn lemma_unlinks_clears(fs0: FsState, fs1: FsState, dests: Seq<Seq<char>>)
    requires
        spec_unlinks(fs0, fs1, dests),
    ensures
        forall|k: int| 0 <= k < dests.len() ==> !fs1.is_file(#[trigger] dests[k]),
        forall|q: Seq<char>| fs1.find(q) == fs0.find(q) || fs1.find(q) is None,
    decreases dests.len(),
{
    if dests.len() == 0 {
    } else {
        let mid = choose|mid: FsState|
            #[trigger] spec_uninstall_step(fs0, mid, dests[0]) && spec_unlinks(
                mid,
                fs1,
                dests.skip(1),
            );
        lemma_unlinks_clears(mid, fs1, dests.skip(1));
        assert forall|k: int| 0 <= k < dests.len() implies !fs1.is_file(#[trigger] dests[k]) by {
            if k == 0 {
                if fs0.is_file(dests[0]) {
                    assert(mid.find(dests[0]) is None);
                } else {
                    assert(mid == fs0);
                }
                // mid has no file at dests[0]; losing entries cannot create one
                assert(!mid.is_file(dests[0]));
                lemma_shrink_keeps_not_file(mid, fs1, dests[0]);
            } else {
                assert(dests.skip(1)[k - 1] == dests[k]);
            }
        }
    }
}

/// Losing entries cannot make a path a regular file.
proof fn lemma_shrink_keeps_not_file(a: FsState, b: FsState, p: Seq<char>)
    requires
        forall|q: Seq<char>| b.find(q) == a.find(q) || b.find(q) is None,
        !a.is_file(p),
    ensures
        !b.is_file(p),
{
    if b.find(p) is Some {
        assert(b.find(p) == a.find(p));
        match b.find(p) {
            Some(FsNodeV::Link(t)) => {
                if b.find(t) is Some {
                    assert(b.find(t) == a.find(t));
                }
            },
            _ => {
            },
        }
    }
}

/// A chain of uninstall steps over destinations none of which is a regular
/// file changes nothing.
proof fn lemma_unlinks_noop(fs0: FsState, fs1: FsState, dests: Seq<Seq<char>>)
    requires
        spec_unlinks(fs0, fs1, dests),
        forall|k: int| 0 <= k < dests.len() ==> !fs0.is_file(#[trigger] dests[k]),
    ensures
        fs1 == fs0,
    decreases dests.len(),
{
    if dests.len() == 0 {
    } else {
        let mid = choose|mid: FsState|
            #[trigger] spec_uninstall_step(fs0, mid, dests[0]) && spec_unlinks(
                mid,
                fs1,
                dests.skip(1),
            );
        assert(!fs0.is_file(dests[0]));
        assert(mid == fs0);
        assert forall|k: int| 0 <= k < dests.skip(1).len() implies !mid.is_file(
            #[trigger] dests.skip(1)[k],
        ) by {
            assert(dests.skip(1)[k] == dests[k + 1]);
        }
        lemma_unlinks_noop(mid, fs1, dests.skip(1));
    }
}

/// The idempotent-uninstall law: after uninstalling a package's
/// destinations, a second run over the same destinations finds nothing to
/// do — no destination is a regular file any more — and changes nothing, so
/// it never errors.
pub proof fn lemma_uninstall_batch_idempotent(
    fs0: FsState,
    fs1: FsState,
    fs2: FsState,
    dests: Seq<Seq<char>>,
)
    requires
        spec_unlinks(fs0, fs1, dests),
        spec_unlinks(fs1, fs2, dests),
    ensures
        forall|k: int| 0 <= k < dests.len() ==> !fs1.is_file(#[trigger] dests[k]),
        fs2 == fs1,
{
    lemma_unlinks_clears(fs0, fs1, dests);
    lemma_unlinks_noop(fs1, fs2, dests);
}

/// The all-or-nothing law: when any one applicable mapping of the manifest
/// fails validation, installing changes nothing at all — the filesystem
/// state equals the pre-call state for every path.
pub proof fn lemma_all_or_nothing(
    fs0: FsState,
    fs1: FsState,
    local: Seq<char>,
    svc: PackageService,
    ok: bool,
    j: int,
)
    requires
        spec_install_outcome(fs0, fs1, local, svc, ok),
        spec_fs_manifest(fs0, local) is Some,
        ({
            let m = spec_fs_manifest(fs0, local)->0;
            let target = spec_join_path(svc.install_root@, m.id);
            0 <= j < spec_applicable(m.mappings, svc.platform@).len() && !spec_mapping_valid(
                fs0,
                spec_applicable(m.mappings, svc.platform@)[j],
                svc.home_root@,
                target,
                local,
            )
        }),
    ensures
        !ok,
        fs1 == fs0,
{
}

/// The non-overwrite law at the package level: when some applicable
/// mapping's rendered destination already exists as a regular file, the
/// whole install fails and that file's contents are untouched.
pub proof fn lemma_install_never_overwrites(
    fs0: FsState,
    fs1: FsState,
    local: Seq<char>,
    svc: PackageService,
    ok: bool,
    j: int,
    b: Seq<u8>,
)
    requires
        spec_install_outcome(fs0, fs1, local, svc, ok),
        spec_fs_manifest(fs0, local) is Some,
        ({
            let m = spec_fs_manifest(fs0, local)->0;
            let target = spec_join_path(svc.install_root@, m.id);
            let ap = spec_applicable(m.mappings, svc.platform@);
            0 <= j < ap.len() && fs0.find(spec_rendered(ap[j], svc.home_root@, target).o) == Some(
                FsNodeV::File(b),
            )
        }),
    ensures
        !ok,
        fs1 == fs0,
        ({
            let m = spec_fs_manifest(fs0, local)->0;
            let target = spec_join_path(svc.install_root@, m.id);
            let ap = spec_applicable(m.mappings, svc.platform@);
            fs1.find(spec_rendered(ap[j], svc.home_root@, target).o) == Some(FsNodeV::File(b))
        }),
{
    let m = spec_fs_manifest(fs0, local)->0;
    let target = spec_join_path(svc.install_root@, m.id);
    let ap = spec_applicable(m.mappings, svc.platform@);
    assert(!spec_mapping_valid(fs0, ap[j], svc.home_root@, target, local));
}

/// The platform-filtering law: a mapping constrained to a different
/// platform family is never among the applicable mappings, so it is never
/// rendered, digest-checked, linked or unlinked.
pub proof fn lemma_platform_filtering(ms: Seq<MappingV>, platform: Seq<char>, d: MappingV)
    requires
        (match d.platform {
            Some(p) => p != platform,
            None => false,
        }),
    ensures
        !spec_applicable(ms, platform).contains(d),
{
    if spec_applicable(ms, platform).contains(d) {
        lemma_applicable_members(ms, platform, d);
    }
}

} // verus!
