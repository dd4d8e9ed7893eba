use vstd::prelude::*;

use crate::manifest::{FileMappingDefinition, MappingV};

verus! {

/// The Subresource-Integrity digest string (`sha256-` followed by the
/// base64 hash) of a byte sequence.
pub uninterp spec fn digest_of(data: Seq<u8>) -> Seq<char>;

/// What checking a recorded digest string against bytes yields: `None` when
/// the string does not parse as a Subresource-Integrity digest, otherwise
/// whether the bytes match it under the digest's own strongest algorithm
/// (the tag is self-describing, so a digest under any supported algorithm
/// is honored).
pub uninterp spec fn sri_check_of(digest: Seq<char>, data: Seq<u8>) -> Option<bool>;

/// Relies on `ssri::Integrity::from` and its `Display` rendering: the
/// SHA-256 subresource-integrity digest string depends on the bytes alone.
#[verifier::external_body]
pub(crate) fn compute_integrity(data: &Vec<u8>) -> (r: String)
    ensures
        r@ == digest_of(data@),
{
    ssri::Integrity::from(data.as_slice()).to_string()
}

/// The digest string holds at least one visible ASCII character, so
/// whitespace tokenization cannot leave ssri's parser with an empty hash
/// list (whose checker would index into nothing).
pub open spec fn spec_digest_nonblank(digest: Seq<char>) -> bool {
    exists|i: int| 0 <= i < digest.len() && 33 <= (#[trigger] digest[i]) as u32 <= 126
}

/// Checks that a digest string holds a visible ASCII character.
pub fn digest_nonblank(digest: &str) -> (r: bool)
    ensures
        r == spec_digest_nonblank(digest@),
{
    let n = digest.unicode_len();
    let mut k: usize = 0;
    while k < n
        invariant
            n == digest@.len(),
            k <= n,
            forall|i: int| 0 <= i < k ==> !(33 <= (#[trigger] digest@[i]) as u32 <= 126),
        decreases n - k,
    {
        let c = digest.get_char(k);
        if (c as u32) >= 33 && (c as u32) <= 126 {
            proof {
                assert(33 <= digest@[k as int] as u32 <= 126);
            }
            return true;
        }
        k = k + 1;
    }
    false
}

/// Relies on ssri's digest parser (`Integrity::from_str`) and
/// `IntegrityChecker`: whether a recorded digest string parses, and whether
/// the bytes match it under its own strongest algorithm, depend on the
/// digest text and the bytes alone.  A digest freshly computed from the
/// same bytes passes its own check (the checker's documented example).  A
/// string with no visible character is excluded: tokenized to nothing, it
/// would parse into an empty hash list whose checker indexes into nothing.
#[verifier::external_body]
pub(crate) fn check_integrity(digest: &str, data: &Vec<u8>) -> (r: Option<bool>)
    requires
        spec_digest_nonblank(digest@),
    ensures
        r == sri_check_of(digest@, data@),
        digest@ == digest_of(data@) ==> r == Some(true),
{
    match digest.parse::<ssri::Integrity>() {
        Ok(parsed) => {
            let mut checker = ssri::IntegrityChecker::new(parsed);
            checker.input(data.as_slice());
            Some(checker.result().is_ok())
        },
        Err(_) => None,
    }
}

/// True when a recorded digest accepts the given bytes: a missing digest is
/// a pass (integrity is opt-in), a present digest must be nonblank, parse,
/// and match the bytes under its own algorithm.
pub open spec fn spec_integrity_ok(integrity: Option<Seq<char>>, data: Seq<u8>) -> bool {
    match integrity {
        None => true,
        Some(d) => spec_digest_nonblank(d) && sri_check_of(d, data) == Some(true),
    }
}

impl FileMappingDefinition {
    /// Checks the mapping's recorded digest against the source file's
    /// bytes, under the algorithm the digest itself names.  A mapping
    /// without a recorded digest is not verified and passes; a blank or
    /// unparseable digest fails.
    pub fn verify_integrity(&self, file_bytes: &Vec<u8>) -> (r: bool)
        ensures
            r == spec_integrity_ok(self@.integrity, file_bytes@),
    {
        match &self.integrity {
            None => true,
            Some(d) => {
                if !digest_nonblank(d.as_str()) {
                    return false;
                }
                match check_integrity(d.as_str(), file_bytes) {
                    Some(matched) => matched,
                    None => false,
                }
            },
        }
    }

    /// Computes the digest of the source file's bytes, records it in the
    /// mapping, and returns the digest string.
    pub fn set_integrity(&mut self, file_bytes: &Vec<u8>) -> (r: String)
        ensures
            final(self)@ == (MappingV { integrity: Some(digest_of(file_bytes@)), ..old(self)@ }),
            r@ == digest_of(file_bytes@),
    {
        let d = compute_integrity(file_bytes);
        let d2 = d.clone();
        self.integrity = Some(d2);
        d
    }
}

} // verus!
