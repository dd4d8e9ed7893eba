use vstd::prelude::*;

verus! {

/// The error kinds of the package manager.
///
/// Each variant carries the offending path, package id or detail text, so
/// that callers can show a message naming what went wrong.
#[derive(Debug)]
pub enum HermError {
    /// A manifest, installed package or archive entry is absent.
    NotFoundError(String),
    /// Manifest text could not be parsed, or could not be produced.
    ManifestError(String),
    /// A recorded content digest does not match the file's bytes.
    IntegrityError(String),
    /// A destination already exists and would be overwritten.
    ConflictError(String),
    /// A destination path template could not be resolved.
    TemplateError(String),
    /// No available version string was parseable.
    NoResolvableVersionError,
    /// Another invocation already holds the lock.
    AlreadyRunningError,
    /// A filesystem or compression failure, with the operation's context.
    IoError(String),
}

/// The human-readable message of an error, naming the offending path or
/// package id.
pub open spec fn spec_error_message(e: HermError) -> Seq<char> {
    match e {
        HermError::NotFoundError(p) => "not found: "@ + p@,
        HermError::ManifestError(p) => "manifest error: "@ + p@,
        HermError::IntegrityError(p) => "integrity mismatch: "@ + p@,
        HermError::ConflictError(p) => "will not overwrite: "@ + p@,
        HermError::TemplateError(p) => "unresolvable template: "@ + p@,
        HermError::NoResolvableVersionError => "no resolvable version"@,
        HermError::AlreadyRunningError => "already running"@,
        HermError::IoError(p) => "io failure: "@ + p@,
    }
}

/// The messages of a list of errors, joined in order with `; `.
pub open spec fn spec_joined_messages(es: Seq<HermError>) -> Seq<char>
    decreases es.len(),
{
    if es.len() == 0 {
        Seq::empty()
    } else if es.len() == 1 {
        spec_error_message(es[0])
    } else {
        spec_error_message(es[0]) + "; "@ + spec_joined_messages(es.skip(1))
    }
}

/// Joins the messages of a list of errors in order with `; `.
#[verifier::loop_isolation(false)]
pub fn join_error_messages(es: &Vec<HermError>) -> (r: String)
    ensures
        r@ == spec_joined_messages(es@),
{
    let mut out = String::new();
    proof {
        assert(es@.skip(0) =~= es@);
        assert(Seq::<char>::empty() + spec_joined_messages(es@) =~= spec_joined_messages(es@));
    }
    let mut k: usize = 0;
    while k < es.len()
        invariant
            k <= es@.len(),
            spec_joined_messages(es@) == out@ + spec_joined_messages(es@.skip(k as int)),
        decreases es@.len() - k,
    {
        let ghost pre = out@;
        let ghost t = es@.skip(k as int);
        let m = es[k].message();
        out.append(m.as_str());
        if k + 1 < es.len() {
            out.append("; ");
            proof {
                assert(t[0] == es@[k as int]);
                assert(t.skip(1) =~= es@.skip(k as int + 1));
                assert(t.len() >= 2);
                assert(spec_joined_messages(t) == spec_error_message(t[0]) + "; "@
                    + spec_joined_messages(t.skip(1)));
                assert(pre + (spec_error_message(t[0]) + "; "@ + spec_joined_messages(
                    t.skip(1),
                )) =~= out@ + spec_joined_messages(es@.skip(k as int + 1)));
            }
        } else {
            proof {
                assert(t[0] == es@[k as int]);
                assert(t.len() == 1);
                assert(spec_joined_messages(t) == spec_error_message(t[0]));
                assert(es@.skip(k as int + 1) =~= Seq::<HermError>::empty());
                assert(pre + spec_error_message(t[0]) =~= out@ + spec_joined_messages(
                    es@.skip(k as int + 1),
                ));
            }
        }
        k = k + 1;
    }
    proof {
        assert(es@.skip(es@.len() as int) =~= Seq::<HermError>::empty());
        assert(out@ + Seq::<char>::empty() =~= out@);
    }
    out
}

impl HermError {
    /// A human-readable message naming the offending path or package id.
    pub fn message(&self) -> (r: String)
        ensures
            r@ == spec_error_message(*self),
    {
        match self {
            HermError::NotFoundError(p) => {
                let mut s = String::from_str("not found: ");
                s.append(p.as_str());
                s
            },
            HermError::ManifestError(p) => {
                let mut s = String::from_str("manifest error: ");
                s.append(p.as_str());
                s
            },
            HermError::IntegrityError(p) => {
                let mut s = String::from_str("integrity mismatch: ");
                s.append(p.as_str());
                s
            },
            HermError::ConflictError(p) => {
                let mut s = String::from_str("will not overwrite: ");
                s.append(p.as_str());
                s
            },
            HermError::TemplateError(p) => {
                let mut s = String::from_str("unresolvable template: ");
                s.append(p.as_str());
                s
            },
            HermError::NoResolvableVersionError => String::from_str("no resolvable version"),
            HermError::AlreadyRunningError => String::from_str("already running"),
            HermError::IoError(p) => {
                let mut s = String::from_str("io failure: ");
                s.append(p.as_str());
                s
            },
        }
    }
}

} // verus!
