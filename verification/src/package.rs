use vstd::prelude::*;

use crate::packer::{after_last_slash, lemma_after_last_slash_at};
use crate::template::{join_path, spec_join_path};
use crate::text::{copy_range, str_eq};

verus! {

/// A path with its trailing separators removed.
pub open spec fn strip_trailing_slashes(s: Seq<char>) -> Seq<char>
    decreases s.len(),
{
    if s.len() > 0 && s.last() == '/' {
        strip_trailing_slashes(s.drop_last())
    } else {
        s
    }
}

/// The portion of a file name before its final extension dot; a dot at the
/// very front does not count as an extension separator.
pub open spec fn stem_of(b: Seq<char>) -> Seq<char> {
    if exists|k: int| 1 <= k < b.len() && b[k] == '.' {
        b.take(last_dot(b))
    } else {
        b
    }
}

/// The index of the last dot in a name, or a negative value without one.
pub open spec fn last_dot(b: Seq<char>) -> int
    decreases b.len(),
{
    if b.len() == 0 {
        -1
    } else if b.last() == '.' {
        b.len() - 1
    } else {
        last_dot(b.drop_last())
    }
}

/// The package name a source location names: the file stem of its last path
/// component, or a fixed placeholder when it has none.
pub open spec fn spec_source_to_package_name(src: Seq<char>) -> Seq<char> {
    let base = after_last_slash(strip_trailing_slashes(src));
    if base.len() == 0 || base == "."@ || base == ".."@ {
        "UNKNOWN_PACKAGE"@
    } else {
        stem_of(base)
    }
}

/// Path derivations around a package source location.
pub struct Package {}

impl Package {
    /// Derives the package name from a source location: the file stem of
    /// the last path component (`a/b/panda.git` gives `panda`), or
    /// `UNKNOWN_PACKAGE` when the location has no usable component.
    #[verifier::loop_isolation(false)]
    pub fn source_to_package_name(src: &str) -> (r: String)
        ensures
            r@ == spec_source_to_package_name(src@),
    {
        let n = src.unicode_len();
        proof {
            assert(src@.take(n as int) =~= src@);
        }
        // drop trailing separators
        let mut e: usize = n;
        while e > 0 && src.get_char(e - 1) == '/'
            invariant
                e <= n,
                n == src@.len(),
                strip_trailing_slashes(src@) == strip_trailing_slashes(src@.take(e as int)),
            decreases e,
        {
            proof {
                assert(src@.take(e as int).last() == src@[e - 1]);
                assert(src@.take(e as int).drop_last() =~= src@.take(e as int - 1));
            }
            e = e - 1;
        }
        proof {
            if e > 0 {
                assert(src@.take(e as int).last() == src@[e - 1]);
            }
            assert(strip_trailing_slashes(src@.take(e as int)) == src@.take(e as int));
        }
        // the last path component
        let mut s: usize = e;
        while s > 0 && src.get_char(s - 1) != '/'
            invariant
                s <= e <= n,
                n == src@.len(),
                forall|j: int| s <= j < e ==> src@[j] != '/',
            decreases s,
        {
            s = s - 1;
        }
        let base = copy_range(src, s, e);
        proof {
            let t = src@.take(e as int);
            assert forall|j: int| s <= j < t.len() implies t[j] != '/' by {
                assert(t[j] == src@[j]);
            }
            if s > 0 {
                assert(t[s - 1] == src@[s as int - 1]);
            }
            lemma_after_last_slash_at(t, s as int);
            assert(t.skip(s as int) =~= src@.subrange(s as int, e as int));
        }
        if base.unicode_len() == 0 || str_eq(base.as_str(), ".") || str_eq(base.as_str(), "..") {
            return String::from_str("UNKNOWN_PACKAGE");
        }
        // strip the extension after the last dot, unless the dot leads
        let blen = base.unicode_len();
        let mut d: usize = blen;
        while d > 0 && base.as_str().get_char(d - 1) != '.'
            invariant
                d <= blen,
                blen == base@.len(),
                forall|j: int| d <= j < blen ==> base@[j] != '.',
            decreases d,
        {
            d = d - 1;
        }
        proof {
            if d > 0 {
                lemma_last_dot_at(base@, d as int - 1);
            } else {
                lemma_no_dot(base@);
            }
        }
        if d > 1 {
            let stem = copy_range(base.as_str(), 0, d - 1);
            proof {
                assert(base@[d - 1] == '.');
                assert(exists|k: int| 1 <= k < base@.len() && base@[k] == '.') by {
                    assert(base@[d as int - 1] == '.');
                }
            }
            stem
        } else {
            proof {
                if exists|k: int| 1 <= k < base@.len() && base@[k] == '.' {
                    let k = choose|k: int| 1 <= k < base@.len() && base@[k] == '.';
                    if d == 0 {
                        assert(base@[k] != '.');
                        assert(false);
                    } else {
                        assert(last_dot(base@) == 0);
                        assert(k > last_dot(base@));
                        lemma_last_dot_greatest(base@, k);
                        assert(false);
                    }
                }
            }
            base
        }
    }

    /// The install location of a package: its name under the install root.
    pub fn install_path(hermione_home: &str, package_name: &str) -> (r: String)
        ensures
            r@ == spec_join_path(hermione_home@, package_name@),
    {
        join_path(hermione_home, package_name)
    }
}

/// Characterizes the last dot by its index.
proof fn lemma_last_dot_at(b: Seq<char>, d: int)
    requires
        0 <= d < b.len(),
        b[d] == '.',
        forall|j: int| d < j < b.len() ==> b[j] != '.',
    ensures
        last_dot(b) == d,
    decreases b.len(),
{
    if b.len() - 1 == d {
    } else {
        assert(b.last() != '.');
        assert forall|j: int| d < j < b.drop_last().len() implies b.drop_last()[j] != '.' by {
            assert(b.drop_last()[j] == b[j]);
        }
        lemma_last_dot_at(b.drop_last(), d);
    }
}

/// A name without a dot has no last dot.
proof fn lemma_no_dot(b: Seq<char>)
    requires
        forall|j: int| 0 <= j < b.len() ==> b[j] != '.',
    ensures
        last_dot(b) < 0,
        !(exists|k: int| 1 <= k < b.len() && b[k] == '.'),
    decreases b.len(),
{
    if b.len() > 0 {
        assert forall|j: int| 0 <= j < b.drop_last().len() implies b.drop_last()[j] != '.' by {
            assert(b.drop_last()[j] == b[j]);
        }
        lemma_no_dot(b.drop_last());
    }
}

/// No dot lies beyond the last dot.
proof fn lemma_last_dot_greatest(b: Seq<char>, k: int)
    requires
        0 <= k < b.len(),
        b[k] == '.',
    ensures
        last_dot(b) >= k,
    decreases b.len(),
{
    if b.len() - 1 == k {
    } else if b.last() == '.' {
    } else {
        assert(b.drop_last()[k] == b[k]);
        lemma_last_dot_greatest(b.drop_last(), k);
    }
}

} // verus!
