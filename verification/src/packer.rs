use vstd::prelude::*;

use crate::codec::{serialize_manifest, spec_serialize};
use crate::errors::HermError;
use crate::fsmodel::{copy_bytes, FsNode, FsNodeV, FsState};
use crate::integrity::digest_of;
use crate::lifecycle::{read_manifest, spec_applicable, spec_fs_manifest};
use crate::manifest::{Manifest, ManifestV, MappingV};
use crate::service::PackageService;
use crate::template::{join_path, spec_join_path};
use crate::text::{dot_component_at, dotdot_component_at, str_eq};
use vstd::utf8::encode_utf8;

verus! {

// ---------------------------------------------------------------------------
// The archive wrappers
// ---------------------------------------------------------------------------
/// One archive entry: a package-relative path and the file's bytes.
pub struct ArchiveEntry {
    pub path: String,
    pub data: Vec<u8>,
}

impl View for ArchiveEntry {
    type V = (Seq<char>, Seq<u8>);

    open spec fn view(&self) -> (Seq<char>, Seq<u8>) {
        (self.path@, self.data@)
    }
}

impl DeepView for ArchiveEntry {
    type V = (Seq<char>, Seq<u8>);

    open spec fn deep_view(&self) -> (Seq<char>, Seq<u8>) {
        self.view()
    }
}

/// The gzip-compressed form of a byte sequence.
pub uninterp spec fn gzip_of(b: Seq<u8>) -> Seq<u8>;

/// What gzip decompression yields for a byte sequence: `None` for bytes
/// that are not a gzip stream.
pub uninterp spec fn gunzip_of(b: Seq<u8>) -> Option<Seq<u8>>;

/// Relies on flate2's `GzEncoder`: the compressed bytes depend on the input
/// alone, and decompressing them recovers the input.  (Writing into a
/// `Vec<u8>` cannot fail.)
#[verifier::external_body]
fn gzip_compress(data: &Vec<u8>) -> (r: Vec<u8>)
    ensures
        r@ == gzip_of(data@),
        gunzip_of(r@) == Some(data@),
{
    let mut enc = flate2::write::GzEncoder::new(Vec::new(), flate2::Compression::best());
    std::io::Write::write_all(&mut enc, data.as_slice()).expect("writing to a Vec cannot fail");
    enc.finish().expect("finishing a Vec-backed encoder cannot fail")
}

/// Relies on flate2's `GzDecoder`: whether bytes decompress, and to what,
/// depends on the bytes alone.
#[verifier::external_body]
fn gzip_decompress(data: &Vec<u8>) -> (r: Option<Vec<u8>>)
    ensures
        r.deep_view() == gunzip_of(data@),
{
    let mut dec = flate2::read::GzDecoder::new(data.as_slice());
    let mut out = Vec::new();
    match std::io::Read::read_to_end(&mut dec, &mut out) {
        Ok(_) => Some(out),
        Err(_) => None,
    }
}

/// The tar stream holding the given entries in order.
pub uninterp spec fn tar_of(entries: Seq<(Seq<char>, Seq<u8>)>) -> Seq<u8>;

/// What reading a tar stream yields: the entries in order, or `None` for
/// bytes that are not a tar stream.
pub uninterp spec fn untar_of(b: Seq<u8>) -> Option<Seq<(Seq<char>, Seq<u8>)>>;

/// A path in tar's normal form: nonempty, relative, no empty or trailing
/// component, no `.` or `..` component, no nul character, no backslash (a
/// separator on some platforms).  Tar writes such a path out unchanged (it
/// skips `.`, collapses doubled separators, and refuses `..`, absolute
/// paths and nul bytes), so only these paths read back exactly as given,
/// the same on every machine.
pub open spec fn tar_path_ok(p: Seq<char>) -> bool {
    &&& p.len() > 0
    &&& p[0] != '/'
    &&& p.last() != '/'
    &&& forall|i: int| 0 <= i && i + 1 < p.len() ==> !(#[trigger] p[i] == '/' && p[i + 1] == '/')
    &&& forall|i: int| 0 <= i < p.len() ==> (#[trigger] p[i]) as u32 != 0 && p[i] != '\\'
    &&& forall|i: int|
        #![trigger dot_component_at(p, i)]
        #![trigger dotdot_component_at(p, i)]
        !dot_component_at(p, i) && !dotdot_component_at(p, i)
}

/// Checks that a path is in tar's normal form.
#[verifier::loop_isolation(false)]
pub fn is_tar_path(p: &str) -> (r: bool)
    ensures
        r == tar_path_ok(p@),
{
    let n = p.unicode_len();
    if n == 0 {
        return false;
    }
    if p.get_char(0) == '/' || p.get_char(n - 1) == '/' {
        return false;
    }
    let mut k: usize = 0;
    while k < n
        invariant
            k <= n,
            forall|i: int| 0 <= i && i + 1 < k ==> !(#[trigger] p@[i] == '/' && p@[i + 1] == '/'),
            forall|i: int| 0 <= i < k ==> (#[trigger] p@[i]) as u32 != 0 && p@[i] != '\\',
            forall|i: int| 0 <= i < k ==> !#[trigger] dot_component_at(p@, i),
            forall|i: int| 0 <= i < k ==> !#[trigger] dotdot_component_at(p@, i),
        decreases n - k,
    {
        let c = p.get_char(k);
        if (c as u32) == 0 || c == '\\' {
            proof {
                assert(p@[k as int] as u32 == 0 || p@[k as int] == '\\');
            }
            return false;
        }
        if k > 0 && c == '/' && p.get_char(k - 1) == '/' {
            proof {
                assert(p@[k as int - 1] == '/' && p@[k as int] == '/');
            }
            return false;
        }
        let at_start = k == 0 || p.get_char(k - 1) == '/';
        if at_start && c == '.' {
            if k + 1 == n || p.get_char(k + 1) == '/' {
                proof {
                    assert(dot_component_at(p@, k as int));
                }
                return false;
            }
            if p.get_char(k + 1) == '.' && (k + 2 == n || p.get_char(k + 2) == '/') {
                proof {
                    assert(dotdot_component_at(p@, k as int));
                }
                return false;
            }
        }
        proof {
            if k > 0 {
                assert(!(p@[k as int - 1] == '/' && p@[k as int] == '/'));
            }
            assert(!dot_component_at(p@, k as int));
            assert(!dotdot_component_at(p@, k as int));
        }
        k = k + 1;
    }
    proof {
        assert forall|i: int|
            #![trigger dot_component_at(p@, i)]
            #![trigger dotdot_component_at(p@, i)]
            !dot_component_at(p@, i) && !dotdot_component_at(p@, i) by {
            if 0 <= i < p@.len() {
                assert(i < k);
                assert(!dot_component_at(p@, i));
                assert(!dotdot_component_at(p@, i));
            } else {
                assert(!dot_component_at(p@, i));
                assert(!dotdot_component_at(p@, i));
            }
        }
    }
    true
}

/// Relies on tar's `Builder` (`Header::new_gnu`, `append_data`,
/// `into_inner`): the archive bytes depend on the entries alone, and
/// reading the archive back yields exactly these entries in order.  A path
/// in tar's normal form is stored verbatim (`append_data` falls back to the
/// GNU long-name extension for names over the header limit), and writing
/// into a `Vec` cannot fail, so under the `requires` no call here fails.
#[verifier::external_body]
fn tar_build(entries: &Vec<ArchiveEntry>) -> (r: Vec<u8>)
    requires
        forall|k: int| 0 <= k < entries@.len() ==> tar_path_ok((#[trigger] entries@[k]).path@),
    ensures
        r@ == tar_of(entries.deep_view()),
        untar_of(r@) == Some(entries.deep_view()),
{
    let mut builder = tar::Builder::new(Vec::new());
    for e in entries.iter() {
        let mut header = tar::Header::new_gnu();
        header.set_size(e.data.len() as u64);
        header.set_mode(0o644);
        header.set_cksum();
        builder
            .append_data(&mut header, e.path.as_str(), e.data.as_slice())
            .expect("a path in tar's normal form is accepted");
    }
    builder.into_inner().expect("writing to a Vec cannot fail")
}

/// Relies on tar's `Archive` (`entries`, `path`, `read_to_end`): the entry
/// list read from a tar stream depends on the bytes alone.
#[verifier::external_body]
fn tar_extract(data: &Vec<u8>) -> (r: Option<Vec<ArchiveEntry>>)
    ensures
        r.deep_view() == untar_of(data@),
{
    let mut archive = tar::Archive::new(data.as_slice());
    let mut out = Vec::new();
    for entry in archive.entries().ok()? {
        let mut entry = entry.ok()?;
        let path = entry.path().ok()?.to_string_lossy().into_owned();
        let mut bytes = Vec::new();
        std::io::Read::read_to_end(&mut entry, &mut bytes).ok()?;
        out.push(ArchiveEntry { path, data: bytes });
    }
    Some(out)
}

// ---------------------------------------------------------------------------
// Packing
// ---------------------------------------------------------------------------
/// The manifest with every applicable mapping's integrity digest recorded
/// from its source file's bytes under the package root; other mappings are
/// kept as they are.
pub open spec fn spec_with_integrity(
    ds: Seq<MappingV>,
    fs: FsState,
    root: Seq<char>,
    platform: Seq<char>,
) -> Seq<MappingV> {
    ds.map_values(
        |d: MappingV|
            if crate::manifest::spec_valid_platform(d, platform) {
                MappingV {
                    integrity: Some(digest_of(fs.file_bytes(spec_join_path(root, d.i))->0)),
                    ..d
                }
            } else {
                d
            },
    )
}

/// The archive entries of a pack: every applicable mapping's source file
/// under its package-relative path, then the updated manifest last, so
/// readers can stream-scan for it.
pub open spec fn spec_pack_file_entries(
    ds: Seq<MappingV>,
    fs: FsState,
    root: Seq<char>,
) -> Seq<(Seq<char>, Seq<u8>)> {
    ds.map_values(|d: MappingV| (d.i, fs.file_bytes(spec_join_path(root, d.i))->0))
}

/// Every applicable mapping's source exists as a file under the root and
/// carries a path in tar's normal form, so the archive stores it verbatim.
pub open spec fn spec_pack_sources_ok(ds: Seq<MappingV>, fs: FsState, root: Seq<char>) -> bool {
    forall|k: int|
        0 <= k < ds.len() ==> fs.is_file(spec_join_path(root, (#[trigger] ds[k]).i)) && tar_path_ok(
            (#[trigger] ds[k]).i,
        )
}

/// The packer turns a package directory into one portable compressed
/// archive and back.
pub struct Packer {
    /// The package directory to pack, or the archive file to unpack.
    pub package_path_buf: String,
}

impl Packer {
    /// Holds the path of a package directory or of an archive.
    pub fn new(package_path_buf: String) -> (r: Packer)
        ensures
            r.package_path_buf@ == package_path_buf@,
    {
        Packer { package_path_buf }
    }

    /// Packs the package directory: records a fresh integrity digest in
    /// every applicable mapping, writes the updated manifest back, and
    /// returns the archive's name (`<id>_<version>.hpkg`) and its bytes —
    /// the mapped files in order, the manifest last, gzip-compressed.
    #[verifier::loop_isolation(false)]
    #[verifier::rlimit(50)]
    pub fn pack(&self, fs: &mut FsState, svc: &PackageService) -> (r: Result<
        (String, Vec<u8>),
        HermError,
    >)
        requires
            old(fs).wf(),
        ensures
            final(fs).wf(),
            ({
                let root = self.package_path_buf@;
                let pm = spec_fs_manifest(*old(fs), root);
                let mpath = spec_join_path(root, "hermione.yml"@);
                if old(fs).find(root) != Some(FsNodeV::Dir) || pm is None {
                    r is Err && *final(fs) == *old(fs)
                } else {
                    let m = pm->0;
                    let ap = spec_applicable(m.mappings, svc.platform@);
                    if !spec_pack_sources_ok(ap, *old(fs), root) {
                        r is Err && *final(fs) == *old(fs)
                    } else {
                        let m2 = (ManifestV {
                            mappings: spec_with_integrity(
                                m.mappings,
                                *old(fs),
                                root,
                                svc.platform@,
                            ),
                            ..m
                        });
                        let mbytes = encode_utf8(spec_serialize(m2));
                        let entries = spec_pack_file_entries(ap, *old(fs), root).push(
                            ("hermione.yml"@, mbytes),
                        );
                        match r {
                            Ok(p) => {
                                &&& p.0@ == m.id + "_"@ + m.version + ".hpkg"@
                                &&& p.1@ == gzip_of(tar_of(entries))
                                &&& gunzip_of(p.1@) == Some(tar_of(entries))
                                &&& untar_of(tar_of(entries)) == Some(entries)
                                &&& forall|q: Seq<char>|
                                    final(fs).find(q) == (if q == mpath {
                                        Some(FsNodeV::File(mbytes))
                                    } else {
                                        old(fs).find(q)
                                    })
                            },
                            Err(_) => false,
                        }
                    }
                }
            }),
    {
        let ghost root = self.package_path_buf@;
        let is_dir = match fs.find_node(self.package_path_buf.as_str()) {
            Some(FsNode::Dir) => true,
            _ => false,
        };
        if !is_dir {
            return Err(
                HermError::IoError(
                    {
                        let mut s = self.package_path_buf.clone();
                        s.append(" is not a directory");
                        s
                    },
                ),
            );
        }
        let manifest = match read_manifest(fs, self.package_path_buf.as_str()) {
            Ok(m) => m,
            Err(e) => {
                return Err(e);
            },
        };
        let ghost m = manifest@;
        // update every applicable mapping with a fresh digest, and collect
        // the archive entries for the applicable sources
        let ghost msv = manifest@.mappings;
        let mut updated: Vec<crate::manifest::FileMappingDefinition> = Vec::new();
        let mut entries: Vec<ArchiveEntry> = Vec::new();
        let mut k: usize = 0;
        proof {
            assert(msv.take(0) =~= Seq::<MappingV>::empty());
            assert(updated.deep_view() =~= spec_with_integrity(
                msv.take(0),
                *fs,
                root,
                svc.platform@,
            ));
            assert(entries.deep_view() =~= spec_pack_file_entries(
                spec_applicable(msv.take(0), svc.platform@),
                *fs,
                root,
            ));
        }
        while k < manifest.mappings.len()
            invariant
                k <= msv.len(),
                msv == manifest@.mappings,
                *fs == *old(fs),
                fs.wf(),
                root == self.package_path_buf@,
                updated.deep_view() == spec_with_integrity(
                    msv.take(k as int),
                    *fs,
                    root,
                    svc.platform@,
                ),
                entries.deep_view() == spec_pack_file_entries(
                    spec_applicable(msv.take(k as int), svc.platform@),
                    *fs,
                    root,
                ),
                spec_pack_sources_ok(spec_applicable(msv.take(k as int), svc.platform@), *fs, root),
            decreases msv.len() - k,
        {
            let d = &manifest.mappings[k];
            let ghost dv = d@;
            proof {
                assert(msv.take(k as int).push(dv) =~= msv.take(k as int + 1));
                crate::lifecycle::lemma_applicable_push(msv.take(k as int), dv, svc.platform@);
            }
            let mut nd = crate::manifest::FileMappingDefinition::new(
                d.i.clone(),
                d.o.clone(),
                match &d.platform {
                    Some(p) => Some(p.clone()),
                    None => None,
                },
                match &d.integrity {
                    Some(g) => Some(g.clone()),
                    None => None,
                },
            );
            if d.valid_platform_family(svc.platform.as_str()) {
                proof {
                    lemma_applicable_contains(msv, svc.platform@, k as int);
                    let ap = spec_applicable(msv, svc.platform@);
                    let j = choose|j: int| 0 <= j < ap.len() && ap[j] == dv;
                    assert(ap[j] == dv);
                }
                if !is_tar_path(d.i.as_str()) {
                    proof {
                        assert(!spec_pack_sources_ok(
                            spec_applicable(msv, svc.platform@),
                            *fs,
                            root,
                        ));
                    }
                    return Err(HermError::IoError(d.i.clone()));
                }
                let src_path = join_path(self.package_path_buf.as_str(), d.i.as_str());
                let bytes = match fs.read_file(src_path.as_str()) {
                    Some(b) => copy_bytes(b),
                    None => {
                        proof {
                            assert(!spec_pack_sources_ok(
                                spec_applicable(msv, svc.platform@),
                                *fs,
                                root,
                            ));
                        }
                        return Err(HermError::NotFoundError(src_path));
                    },
                };
                let ghost bytesv = bytes@;
                proof {
                    assert(bytesv == fs.file_bytes(spec_join_path(root, dv.i))->0);
                }
                nd.set_integrity(&bytes);
                let ghost pre_entries = entries.deep_view();
                entries.push(ArchiveEntry { path: d.i.clone(), data: bytes });
                proof {
                    let ap_old = spec_applicable(msv.take(k as int), svc.platform@);
                    let ap_new = spec_applicable(msv.take(k as int + 1), svc.platform@);
                    assert(ap_new == ap_old.push(dv));
                    assert(entries.deep_view() =~= pre_entries.push((dv.i, bytesv)));
                    assert forall|j: int| 0 <= j < ap_new.len() implies entries.deep_view()[j]
                        == spec_pack_file_entries(ap_new, *fs, root)[j] by {
                        if j < ap_old.len() {
                            assert(ap_new[j] == ap_old[j]);
                            assert(entries.deep_view()[j] == pre_entries[j]);
                            assert(pre_entries[j] == spec_pack_file_entries(ap_old, *fs, root)[j]);
                        } else {
                            assert(ap_new[j] == dv);
                        }
                    }
                    assert(entries.deep_view() =~= spec_pack_file_entries(ap_new, *fs, root));
                }
            }
            let ghost ndv = nd@;
            let ghost pre_up = updated.deep_view();
            updated.push(nd);
            proof {
                assert(updated.deep_view() =~= pre_up.push(ndv));
                let t0 = msv.take(k as int);
                let t1 = msv.take(k as int + 1);
                assert forall|j: int| 0 <= j < t1.len() implies updated.deep_view()[j]
                    == spec_with_integrity(t1, *fs, root, svc.platform@)[j] by {
                    if j < k as int {
                        assert(t1[j] == t0[j]);
                        assert(updated.deep_view()[j] == pre_up[j]);
                        assert(pre_up[j] == spec_with_integrity(t0, *fs, root, svc.platform@)[j]);
                    } else {
                        assert(t1[j] == dv);
                    }
                }
                assert(updated.deep_view() =~= spec_with_integrity(t1, *fs, root, svc.platform@));
            }
            k = k + 1;
        }
        proof {
            assert(msv.take(msv.len() as int) =~= msv);
        }
        // re-serialize the updated manifest and append it last
        let archive_name = {
            let mut s = manifest.id.clone();
            s.append("_");
            s.append(manifest.version.as_str());
            s.append(".hpkg");
            proof {
                assert(m.id + "_"@ + m.version + ".hpkg"@ =~= ((m.id + "_"@) + m.version)
                    + ".hpkg"@);
            }
            s
        };
        let changed_manifest = manifest.set_mappings(updated);
        let manifest_text = serialize_manifest(&changed_manifest);
        let manifest_bytes = manifest_text.as_str().as_bytes_vec();
        let ghost m2 = changed_manifest@;
        proof {
            assert(m2.mappings =~= spec_with_integrity(m.mappings, *fs, root, svc.platform@));
            assert(m2 == (ManifestV {
                mappings: spec_with_integrity(m.mappings, *fs, root, svc.platform@),
                ..m
            }));
        }
        entries.push(ArchiveEntry { path: String::from_str("hermione.yml"), data: manifest_bytes });
        proof {
            reveal_strlit("hermione.yml");
            assert(entries.deep_view() =~= spec_pack_file_entries(
                spec_applicable(msv, svc.platform@),
                *fs,
                root,
            ).push(("hermione.yml"@, encode_utf8(spec_serialize(m2)))));
            lemma_manifest_name_tar_path();
            assert forall|j: int| 0 <= j < entries@.len() implies tar_path_ok(
                (#[trigger] entries@[j]).path@,
            ) by {
                if j < entries@.len() - 1 {
                    let ap = spec_applicable(msv, svc.platform@);
                    assert(entries.deep_view()[j] == spec_pack_file_entries(ap, *fs, root)[j]);
                    assert(entries.deep_view()[j].0 == ap[j].i);
                } else {
                    assert(entries@[j].path@ == "hermione.yml"@);
                }
            }
        }
        let tar_bytes = tar_build(&entries);
        let gz_bytes = gzip_compress(&tar_bytes);
        // record the updated manifest in the package directory
        let mpath = join_path(self.package_path_buf.as_str(), "hermione.yml");
        let manifest_bytes2 = manifest_text.as_str().as_bytes_vec();
        fs.set(mpath.as_str(), FsNode::File(manifest_bytes2));
        Ok((archive_name, gz_bytes))
    }
}

/// The manifest's well-known file name is in tar's normal form.
proof fn lemma_manifest_name_tar_path()
    ensures
        tar_path_ok("hermione.yml"@),
{
    reveal_strlit("hermione.yml");
    let p = "hermione.yml"@;
    assert(p.len() == 12);
    assert forall|i: int|
        #![trigger dot_component_at(p, i)]
        #![trigger dotdot_component_at(p, i)]
        !dot_component_at(p, i) && !dotdot_component_at(p, i) by {
        if 0 <= i < p.len() && p[i] == '.' {
            assert(i == 8);
            assert(p[7] == 'e');
            assert(p[9] == 'y');
        }
    }
}

// ---------------------------------------------------------------------------
// Reading archives
// ---------------------------------------------------------------------------
/// The entries of a gzip-compressed tar archive, when the bytes decompress
/// and read back as one.
pub open spec fn spec_archive_entries(b: Seq<u8>) -> Option<Seq<(Seq<char>, Seq<u8>)>> {
    match gunzip_of(b) {
        Some(t) => untar_of(t),
        None => None,
    }
}

/// The file-name portion of a path: what follows the last separator.
pub open spec fn after_last_slash(p: Seq<char>) -> Seq<char>
    decreases p.len(),
{
    if p.len() == 0 {
        p
    } else if p.last() == '/' {
        Seq::empty()
    } else {
        after_last_slash(p.drop_last()).push(p.last())
    }
}

/// The first archive entry whose file name is the manifest's well-known
/// name.
pub open spec fn spec_find_manifest(es: Seq<(Seq<char>, Seq<u8>)>) -> Option<Seq<u8>>
    decreases es.len(),
{
    if es.len() == 0 {
        None
    } else if after_last_slash(es[0].0) == "hermione.yml"@ {
        Some(es[0].1)
    } else {
        spec_find_manifest(es.skip(1))
    }
}

/// The manifest stored in an archive, when the archive reads back, holds a
/// manifest entry, and that entry parses.
pub open spec fn spec_archive_manifest(b: Seq<u8>) -> Option<ManifestV> {
    match spec_archive_entries(b) {
        Some(es) => match spec_find_manifest(es) {
            Some(bytes) => if vstd::utf8::valid_utf8(bytes) {
                crate::codec::spec_parse_wf(vstd::utf8::decode_utf8(bytes))
            } else {
                None
            },
            None => None,
        },
        None => None,
    }
}

/// The file name at the end of a path.
fn basename_of(p: &str) -> (r: String)
    ensures
        r@ == after_last_slash(p@),
{
    let n = p.unicode_len();
    let mut k: usize = n;
    while k > 0 && p.get_char(k - 1) != '/'
        invariant
            n == p@.len(),
            k <= n,
            forall|j: int| k <= j < n ==> p@[j] != '/',
        decreases k,
    {
        k = k - 1;
    }
    let r = crate::text::copy_range(p, k, n);
    proof {
        lemma_after_last_slash_at(p@, k as int);
    }
    r
}

/// Characterizes the file-name portion by its start index.
pub proof fn lemma_after_last_slash_at(p: Seq<char>, k: int)
    requires
        0 <= k <= p.len(),
        forall|j: int| k <= j < p.len() ==> p[j] != '/',
        k > 0 ==> p[k - 1] == '/',
    ensures
        after_last_slash(p) == p.skip(k),
    decreases p.len(),
{
    if k == p.len() {
        if k > 0 {
            assert(p.last() == '/');
            assert(after_last_slash(p) =~= p.skip(k));
        } else {
            assert(p.len() == 0);
            assert(after_last_slash(p) =~= p.skip(0));
        }
    } else {
        assert(p.last() != '/');
        assert forall|j: int| k <= j < p.drop_last().len() implies p.drop_last()[j] != '/' by {
            assert(p.drop_last()[j] == p[j]);
        }
        lemma_after_last_slash_at(p.drop_last(), k);
        assert(p.drop_last().skip(k).push(p.last()) =~= p.skip(k));
    }
}

impl Packer {
    /// Streams the archive's entries looking for the manifest's well-known
    /// file name and parses it, without extracting anything to the
    /// filesystem.  The archive's bytes are read at this packer's path.
    #[verifier::loop_isolation(false)]
    pub fn get_manifest_from_archive(&self, fs: &FsState) -> (r: Result<Manifest, HermError>)
        ensures
            (match fs.file_bytes(self.package_path_buf@) {
                Some(b) => match spec_archive_manifest(b) {
                    Some(mv) => r matches Ok(man) && man@ == mv,
                    None => r is Err,
                },
                None => r matches Err(e) && e matches HermError::NotFoundError(_),
            }),
    {
        let ghost pbv = self.package_path_buf@;
        let archive = match fs.read_file(self.package_path_buf.as_str()) {
            Some(b) => b,
            None => {
                return Err(HermError::NotFoundError(self.package_path_buf.clone()));
            },
        };
        let ghost bv = fs.file_bytes(pbv)->0;
        let tar_bytes = match gzip_decompress(archive) {
            Some(t) => t,
            None => {
                proof {
                    assert(spec_archive_manifest(bv) is None);
                }
                return Err(HermError::IoError(String::from_str("not a compressed archive")));
            },
        };
        let entries = match tar_extract(&tar_bytes) {
            Some(es) => es,
            None => {
                proof {
                    assert(gunzip_of(bv) == Some(tar_bytes@));
                    assert(spec_archive_entries(bv) is None);
                    assert(spec_archive_manifest(bv) is None);
                }
                return Err(HermError::IoError(String::from_str("not a tar archive")));
            },
        };
        let ghost esv = entries.deep_view();
        proof {
            assert(gunzip_of(bv) == Some(tar_bytes@));
            assert(spec_archive_entries(bv) == Some(esv));
        }
        let mut k: usize = 0;
        proof {
            assert(esv.skip(0) =~= esv);
        }
        while k < entries.len()
            invariant
                k <= esv.len(),
                esv == entries.deep_view(),
                spec_find_manifest(esv.skip(k as int)) == spec_find_manifest(esv),
            decreases esv.len() - k,
        {
            proof {
                assert(esv.skip(k as int)[0] == esv[k as int]);
                assert(esv.skip(k as int).skip(1) =~= esv.skip(k as int + 1));
            }
            let base = basename_of(entries[k].path.as_str());
            if str_eq(base.as_str(), "hermione.yml") {
                let text = match crate::text::bytes_to_string(&entries[k].data) {
                    Some(t) => t,
                    None => {
                        return Err(
                            HermError::ManifestError(String::from_str("manifest is not text")),
                        );
                    },
                };
                return crate::codec::parse_manifest(text.as_str());
            }
            k = k + 1;
        }
        proof {
            assert(esv.skip(k as int) =~= Seq::<(Seq<char>, Seq<u8>)>::empty());
            assert(spec_find_manifest(esv) is None);
            assert(spec_archive_manifest(bv) is None);
        }
        Err(HermError::NotFoundError(String::from_str("no manifest entry in archive")))
    }

    /// Unpacks the archive at this packer's path into
    /// `dest/<package id>`: the manifest is read out of the archive first,
    /// and every entry is extracted under that directory.  Returns the
    /// extracted path.
    #[verifier::loop_isolation(false)]
    #[verifier::rlimit(30)]
    pub fn unpack(&self, fs: &mut FsState, dest: &str) -> (r: Result<String, HermError>)
        requires
            old(fs).wf(),
        ensures
            final(fs).wf(),
            ({
                let pm = (match old(fs).file_bytes(self.package_path_buf@) {
                    Some(b) => spec_archive_manifest(b),
                    None => None,
                });
                match pm {
                    Some(m) => {
                        let root = spec_join_path(dest@, m.id);
                        let es = spec_archive_entries(
                            old(fs).file_bytes(self.package_path_buf@)->0,
                        )->0;
                        &&& r matches Ok(p) && p@ == root
                        &&& forall|q: Seq<char>|
                            final(fs).find(q) == (match spec_entry_find(es, root, q) {
                                Some(d) => Some(FsNodeV::File(d)),
                                None => (if q == root {
                                    Some(FsNodeV::Dir)
                                } else {
                                    old(fs).find(q)
                                }),
                            })
                    },
                    None => r is Err && *final(fs) == *old(fs),
                }
            }),
    {
        let ghost pbv = self.package_path_buf@;
        let manifest = match self.get_manifest_from_archive(fs) {
            Ok(m) => m,
            Err(e) => {
                return Err(e);
            },
        };
        let ghost bv = fs.file_bytes(pbv)->0;
        proof {
            assert(fs.file_bytes(pbv) is Some);
            assert(spec_archive_manifest(bv) is Some);
            assert(spec_archive_entries(bv) is Some);
        }
        let archive = match fs.read_file(self.package_path_buf.as_str()) {
            Some(b) => copy_bytes(b),
            None => {
                proof {
                    assert(false);
                }
                return Err(HermError::NotFoundError(self.package_path_buf.clone()));
            },
        };
        let tar_bytes = match gzip_decompress(&archive) {
            Some(t) => t,
            None => {
                proof {
                    assert(gunzip_of(bv) is None);
                    assert(false);
                }
                return Err(HermError::IoError(String::from_str("not a compressed archive")));
            },
        };
        let entries = match tar_extract(&tar_bytes) {
            Some(es) => es,
            None => {
                proof {
                    assert(gunzip_of(bv) == Some(tar_bytes@));
                    assert(untar_of(tar_bytes@) is None);
                    assert(false);
                }
                return Err(HermError::IoError(String::from_str("not a tar archive")));
            },
        };
        proof {
            assert(gunzip_of(bv) == Some(tar_bytes@));
            assert(spec_archive_entries(bv) == Some(entries.deep_view()));
        }
        let root = join_path(dest, manifest.id.as_str());
        let ghost fs0 = *old(fs);
        let ghost esv = entries.deep_view();
        let ghost rootv = root@;
        fs.set(root.as_str(), FsNode::Dir);
        proof {
            assert(esv.take(0) =~= Seq::<(Seq<char>, Seq<u8>)>::empty());
        }
        let mut k: usize = 0;
        while k < entries.len()
            invariant
                fs.wf(),
                k <= esv.len(),
                esv == entries.deep_view(),
                forall|q: Seq<char>|
                    #![auto]
                    fs.find(q) == (match spec_entry_find(esv.take(k as int), rootv, q) {
                        Some(d) => Some(FsNodeV::File(d)),
                        None => (if q == rootv {
                            Some(FsNodeV::Dir)
                        } else {
                            fs0.find(q)
                        }),
                    }),
            decreases esv.len() - k,
        {
            let target = join_path(root.as_str(), entries[k].path.as_str());
            let data = copy_bytes(&entries[k].data);
            let ghost pre = *fs;
            fs.set(target.as_str(), FsNode::File(data));
            proof {
                let t1 = esv.take(k as int + 1);
                assert(t1.last() == esv[k as int]);
                assert(t1.drop_last() =~= esv.take(k as int));
                assert forall|q: Seq<char>| #![auto] true implies fs.find(q) == (
                match spec_entry_find(t1, rootv, q) {
                    Some(d) => Some(FsNodeV::File(d)),
                    None => (if q == rootv {
                        Some(FsNodeV::Dir)
                    } else {
                        fs0.find(q)
                    }),
                }) by {
                    if q == spec_join_path(rootv, esv[k as int].0) {
                    } else {
                        assert(fs.find(q) == pre.find(q));
                    }
                }
            }
            k = k + 1;
        }
        proof {
            assert(esv.take(esv.len() as int) =~= esv);
        }
        Ok(root)
    }
}

/// The bytes of the last archive entry extracted to `q` under `root`, if
/// any: a later entry with the same path overwrites an earlier one.
pub open spec fn spec_entry_find(
    es: Seq<(Seq<char>, Seq<u8>)>,
    root: Seq<char>,
    q: Seq<char>,
) -> Option<Seq<u8>>
    decreases es.len(),
{
    if es.len() == 0 {
        None
    } else if spec_join_path(root, es.last().0) == q {
        Some(es.last().1)
    } else {
        spec_entry_find(es.drop_last(), root, q)
    }
}

/// With pairwise distinct entry paths, extraction places each entry's own
/// bytes at its own path under the root: the last-wins rule degenerates to
/// exact placement.
pub proof fn lemma_unpacked_files(es: Seq<(Seq<char>, Seq<u8>)>, root: Seq<char>, k: int)
    requires
        0 <= k < es.len(),
        forall|j: int, t: int|
            0 <= j < t < es.len() ==> (#[trigger] es[j]).0 != (#[trigger] es[t]).0,
    ensures
        spec_entry_find(es, root, spec_join_path(root, es[k].0)) == Some(es[k].1),
    decreases es.len(),
{
    let q = spec_join_path(root, es[k].0);
    if k == es.len() - 1 {
        assert(spec_join_path(root, es.last().0) == q);
    } else {
        assert(es[k].0 != es.last().0);
        assert(spec_join_path(root, es.last().0) != q) by {
            if spec_join_path(root, es.last().0) == q {
                assert(spec_join_path(root, es.last().0).skip(root.len() as int + 1)
                    =~= es.last().0);
                assert(q.skip(root.len() as int + 1) =~= es[k].0);
            }
        }
        assert forall|j: int, t: int|
            0 <= j < t < es.drop_last().len() implies (#[trigger] es.drop_last()[j]).0 != (
        #[trigger] es.drop_last()[t]).0 by {
            assert(es.drop_last()[j] == es[j]);
            assert(es.drop_last()[t] == es[t]);
        }
        assert(es.drop_last()[k] == es[k]);
        lemma_unpacked_files(es.drop_last(), root, k);
    }
}

/// The extracted-file law: unpacking an archive that pack produced places,
/// for every applicable mapping — with pairwise distinct input paths, none
/// named like the manifest file — exactly the packed source bytes at the
/// mapping's path under the extraction root.  Together with the recorded
/// digests (`spec_with_integrity`), every extracted file's digest matches
/// the manifest's recorded integrity value.
pub proof fn lemma_unpack_places_packed_files(
    fs: FsState,
    root: Seq<char>,
    platform: Seq<char>,
    m: ManifestV,
    bytes: Seq<u8>,
    dest_root: Seq<char>,
    k: int,
)
    requires
        ({
            let ap = spec_applicable(m.mappings, platform);
            let m2 = (ManifestV {
                mappings: spec_with_integrity(m.mappings, fs, root, platform),
                ..m
            });
            let entries = spec_pack_file_entries(ap, fs, root).push(
                ("hermione.yml"@, encode_utf8(spec_serialize(m2))),
            );
            &&& gunzip_of(bytes) == Some(tar_of(entries))
            &&& untar_of(tar_of(entries)) == Some(entries)
            &&& 0 <= k < ap.len()
            &&& (forall|j: int, t: int|
                0 <= j < t < ap.len() ==> (#[trigger] ap[j]).i != (#[trigger] ap[t]).i)
            &&& (forall|j: int| 0 <= j < ap.len() ==> (#[trigger] ap[j]).i != "hermione.yml"@)
        }),
    ensures
        ({
            let ap = spec_applicable(m.mappings, platform);
            spec_entry_find(
                spec_archive_entries(bytes)->0,
                dest_root,
                spec_join_path(dest_root, ap[k].i),
            ) == Some(fs.file_bytes(spec_join_path(root, ap[k].i))->0)
        }),
{
    let ap = spec_applicable(m.mappings, platform);
    let m2 = (ManifestV { mappings: spec_with_integrity(m.mappings, fs, root, platform), ..m });
    let entries = spec_pack_file_entries(ap, fs, root).push(
        ("hermione.yml"@, encode_utf8(spec_serialize(m2))),
    );
    let ex = spec_archive_entries(bytes)->0;
    assert(ex == entries);
    assert forall|j: int, t: int|
        0 <= j < t < entries.len() implies (#[trigger] entries[j]).0 != (
    #[trigger] entries[t]).0 by {
        if t < entries.len() - 1 {
            assert(entries[j].0 == ap[j].i);
            assert(entries[t].0 == ap[t].i);
        } else {
            assert(entries[j].0 == ap[j].i);
            assert(entries[t].0 == "hermione.yml"@);
        }
    }
    assert(entries[k] == (ap[k].i, fs.file_bytes(spec_join_path(root, ap[k].i))->0));
    lemma_unpacked_files(entries, dest_root, k);
}

/// The integrity law: packing a directory and reading the resulting archive
/// back yields, for every applicable mapping, exactly the source file's
/// bytes, whose digest is exactly the digest the pack recorded in the
/// manifest (`spec_with_integrity` records
/// `Some(digest_of(file bytes))` for every applicable mapping).
pub proof fn lemma_pack_unpack_integrity(
    fs: FsState,
    root: Seq<char>,
    platform: Seq<char>,
    m: ManifestV,
    bytes: Seq<u8>,
)
    requires
        ({
            let ap = spec_applicable(m.mappings, platform);
            let m2 = (ManifestV { mappings: spec_with_integrity(m.mappings, fs, root, platform), ..m });
            let entries = spec_pack_file_entries(ap, fs, root).push(
                ("hermione.yml"@, encode_utf8(spec_serialize(m2))),
            );
            gunzip_of(bytes) == Some(tar_of(entries)) && untar_of(tar_of(entries)) == Some(entries)
        }),
    ensures
        spec_archive_entries(bytes) is Some,
        ({
            let ap = spec_applicable(m.mappings, platform);
            let ex = spec_archive_entries(bytes)->0;
            forall|k: int|
                0 <= k < ap.len() ==> (#[trigger] ex[k]) == (
                    ap[k].i,
                    fs.file_bytes(spec_join_path(root, ap[k].i))->0,
                ) && spec_with_integrity(m.mappings, fs, root, platform).contains(
                    (MappingV { integrity: Some(digest_of(ex[k].1)), ..ap[k] }),
                )
        }),
{
    let ap = spec_applicable(m.mappings, platform);
    let m2 = (ManifestV { mappings: spec_with_integrity(m.mappings, fs, root, platform), ..m });
    let entries = spec_pack_file_entries(ap, fs, root).push(
        ("hermione.yml"@, encode_utf8(spec_serialize(m2))),
    );
    let ex = spec_archive_entries(bytes)->0;
    assert(ex == entries);
    assert forall|k: int| 0 <= k < ap.len() implies (#[trigger] ex[k]) == (
        ap[k].i,
        fs.file_bytes(spec_join_path(root, ap[k].i))->0,
    ) && spec_with_integrity(m.mappings, fs, root, platform).contains(
        (MappingV { integrity: Some(digest_of(ex[k].1)), ..ap[k] }),
    ) by {
        assert(ex[k] == spec_pack_file_entries(ap, fs, root)[k]);
        let j = lemma_applicable_source(m.mappings, platform, k);
        let d = m.mappings[j];
        assert(spec_with_integrity(m.mappings, fs, root, platform)[j] == (MappingV {
            integrity: Some(digest_of(fs.file_bytes(spec_join_path(root, d.i))->0)),
            ..d
        }));
    }
}

/// Every applicable mapping comes from some position in the manifest.
proof fn lemma_applicable_source(ms: Seq<MappingV>, platform: Seq<char>, k: int) -> (j: int)
    requires
        0 <= k < spec_applicable(ms, platform).len(),
    ensures
        0 <= j < ms.len(),
        ms[j] == spec_applicable(ms, platform)[k],
        crate::manifest::spec_valid_platform(ms[j], platform),
    decreases ms.len(),
{
    let ap = spec_applicable(ms, platform);
    if ms.len() == 0 {
        0
    } else {
        let rest = spec_applicable(ms.skip(1), platform);
        if crate::manifest::spec_valid_platform(ms[0], platform) {
            if k == 0 {
                assert(ap[0] == ms[0]);
                0
            } else {
                let j = lemma_applicable_source(ms.skip(1), platform, k - 1);
                assert(ap[k] == rest[k - 1]);
                assert(ms.skip(1)[j] == ms[j + 1]);
                j + 1
            }
        } else {
            let j = lemma_applicable_source(ms.skip(1), platform, k);
            assert(ms.skip(1)[j] == ms[j + 1]);
            j + 1
        }
    }
}

/// The published entry of one archive: its manifest's version, and the
/// archive's file name joined under the repository url prefix; `None` when
/// the bytes at the path do not read back as an archive with a manifest.
pub open spec fn spec_published_of(
    fs: FsState,
    path: Seq<char>,
    url_prefix: Seq<char>,
) -> Option<crate::repositories::AvailableVersionV> {
    match fs.file_bytes(path) {
        Some(b) => match spec_archive_manifest(b) {
            Some(m) => Some(
                crate::repositories::AvailableVersionV {
                    version: m.version,
                    url: spec_join_path(url_prefix, after_last_slash(path)),
                },
            ),
            None => None,
        },
        None => None,
    }
}

/// The published entries of a list of archives, invalid archives skipped.
pub open spec fn spec_published(
    fs: FsState,
    paths: Seq<Seq<char>>,
    url_prefix: Seq<char>,
) -> Seq<crate::repositories::AvailableVersionV>
    decreases paths.len(),
{
    if paths.len() == 0 {
        Seq::empty()
    } else {
        let rest = spec_published(fs, paths.skip(1), url_prefix);
        match spec_published_of(fs, paths[0], url_prefix) {
            Some(v) => seq![v] + rest,
            None => rest,
        }
    }
}

/// One more archive at the end of the published list.
proof fn lemma_published_push(
    fs: FsState,
    paths: Seq<Seq<char>>,
    p: Seq<char>,
    url_prefix: Seq<char>,
)
    ensures
        spec_published(fs, paths.push(p), url_prefix) == (match spec_published_of(
            fs,
            p,
            url_prefix,
        ) {
            Some(v) => spec_published(fs, paths, url_prefix).push(v),
            None => spec_published(fs, paths, url_prefix),
        }),
    decreases paths.len(),
{
    if paths.len() == 0 {
        assert(paths.push(p)[0] == p);
        assert(paths.push(p).skip(1) =~= paths);
        if spec_published_of(fs, p, url_prefix) is Some {
            let v = spec_published_of(fs, p, url_prefix)->0;
            assert(seq![v] + Seq::<crate::repositories::AvailableVersionV>::empty() =~= Seq::<
                crate::repositories::AvailableVersionV,
            >::empty().push(v));
        }
    } else {
        assert(paths.push(p)[0] == paths[0]);
        assert(paths.push(p).skip(1) =~= paths.skip(1).push(p));
        lemma_published_push(fs, paths.skip(1), p, url_prefix);
        if spec_published_of(fs, paths[0], url_prefix) is Some && spec_published_of(
            fs,
            p,
            url_prefix,
        ) is Some {
            let h = spec_published_of(fs, paths[0], url_prefix)->0;
            let v = spec_published_of(fs, p, url_prefix)->0;
            assert(seq![h] + spec_published(fs, paths.skip(1), url_prefix).push(v) =~= (seq![h]
                + spec_published(fs, paths.skip(1), url_prefix)).push(v));
        }
    }
}

/// Collects the publishable entries of a batch of archives: for each
/// archive whose manifest reads back, its version together with the url the
/// archive will be served at — its file name under the url prefix.
/// Archives that do not read back are skipped and reported by omission.
#[verifier::loop_isolation(false)]
pub fn collect_available_versions(
    fs: &FsState,
    archive_paths: &Vec<String>,
    url_prefix: &str,
) -> (r: Vec<crate::repositories::AvailableVersion>)
    ensures
        r.deep_view() == spec_published(*fs, archive_paths.deep_view(), url_prefix@),
{
    let ghost psv = archive_paths.deep_view();
    let mut out: Vec<crate::repositories::AvailableVersion> = Vec::new();
    let mut k: usize = 0;
    proof {
        assert(psv.take(0) =~= Seq::<Seq<char>>::empty());
        assert(out.deep_view() =~= spec_published(*fs, psv.take(0), url_prefix@));
    }
    while k < archive_paths.len()
        invariant
            k <= psv.len(),
            out.deep_view() == spec_published(*fs, psv.take(k as int), url_prefix@),
        decreases psv.len() - k,
    {
        let ghost pre = out.deep_view();
        let path = &archive_paths[k];
        let packer = Packer::new(path.clone());
        let has_bytes = match fs.read_file(path.as_str()) {
            Some(_) => true,
            None => false,
        };
        if has_bytes {
            match packer.get_manifest_from_archive(fs) {
                Ok(manifest) => {
                    let name = basename_of(path.as_str());
                    let url = join_path(url_prefix, name.as_str());
                    out.push(
                        crate::repositories::AvailableVersion { version: manifest.version, url },
                    );
                    proof {
                        assert(out.deep_view() =~= pre.push(
                            spec_published_of(*fs, psv[k as int], url_prefix@)->0,
                        ));
                    }
                },
                Err(_) => {
                },
            }
        }
        proof {
            assert(psv.take(k as int).push(psv[k as int]) =~= psv.take(k as int + 1));
            lemma_published_push(*fs, psv.take(k as int), psv[k as int], url_prefix@);
        }
        k = k + 1;
    }
    proof {
        assert(psv.take(psv.len() as int) =~= psv);
    }
    out
}

/// A mapping that matches the platform is among the applicable mappings.
pub proof fn lemma_applicable_contains(ms: Seq<MappingV>, platform: Seq<char>, k: int)
    requires
        0 <= k < ms.len(),
        crate::manifest::spec_valid_platform(ms[k], platform),
    ensures
        spec_applicable(ms, platform).contains(ms[k]),
    decreases k,
{
    let ap = spec_applicable(ms, platform);
    if k == 0 {
        assert(ap[0] == ms[0]);
    } else {
        lemma_applicable_contains(ms.skip(1), platform, k - 1);
        assert(ms.skip(1)[k - 1] == ms[k]);
        let rest = spec_applicable(ms.skip(1), platform);
        let j = choose|j: int| 0 <= j < rest.len() && rest[j] == ms[k];
        if crate::manifest::spec_valid_platform(ms[0], platform) {
            assert(ap[j + 1] == ms[k]);
        } else {
            assert(ap[j] == ms[k]);
        }
    }
}

} // verus!
