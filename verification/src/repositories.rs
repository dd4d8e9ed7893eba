use vstd::prelude::*;

use crate::errors::HermError;
use crate::text::str_eq;

verus! {

// ---------------------------------------------------------------------------
// Semantic versions
// ---------------------------------------------------------------------------
/// What `semver::Version::parse` yields for a version string: the major,
/// minor and patch numbers and the pre-release text, or `None` for a string
/// that is not a semantic version.
pub uninterp spec fn semver_of(s: Seq<char>) -> Option<(u64, u64, u64, Seq<char>)>;

/// Relies on `semver::Version::parse`: whether a version string parses, and
/// its major, minor, patch and pre-release parts, depend on the text alone.
#[verifier::external_body]
pub(crate) fn parse_semver(s: &str) -> (r: Option<(u64, u64, u64, String)>)
    ensures
        (match (r, semver_of(s@)) {
            (Some(t), Some(v)) => t.0 == v.0 && t.1 == v.1 && t.2 == v.2 && t.3@ == v.3,
            (None, None) => true,
            _ => false,
        }),
{
    match semver::Version::parse(s) {
        Ok(v) => Some((v.major, v.minor, v.patch, String::from(v.pre.as_str()))),
        Err(_) => None,
    }
}

/// Strict lexicographic order on character sequences, by code point.
pub open spec fn lex_lt(a: Seq<char>, b: Seq<char>) -> bool
    decreases a.len() + b.len(),
{
    if b.len() == 0 {
        false
    } else if a.len() == 0 {
        true
    } else if a[0] != b[0] {
        (a[0] as u32) < (b[0] as u32)
    } else {
        lex_lt(a.skip(1), b.skip(1))
    }
}

/// Lexicographic order is transitive.
pub proof fn lemma_lex_lt_trans(a: Seq<char>, b: Seq<char>, c: Seq<char>)
    requires
        lex_lt(a, b),
        lex_lt(b, c),
    ensures
        lex_lt(a, c),
    decreases a.len() + b.len() + c.len(),
{
    if a.len() == 0 {
    } else if b.len() == 0 {
    } else if c.len() == 0 {
    } else {
        if a[0] == b[0] && b[0] == c[0] {
            lemma_lex_lt_trans(a.skip(1), b.skip(1), c.skip(1));
        }
    }
}

/// Lexicographic order is irreflexive.
pub proof fn lemma_lex_lt_irrefl(a: Seq<char>)
    ensures
        !lex_lt(a, a),
    decreases a.len(),
{
    if a.len() > 0 {
        lemma_lex_lt_irrefl(a.skip(1));
    }
}

/// The index of the first dot in a pre-release text, or its length when
/// there is none.
pub open spec fn first_dot(s: Seq<char>) -> int
    decreases s.len(),
{
    if s.len() == 0 {
        0
    } else if s[0] == '.' {
        0
    } else {
        1 + first_dot(s.skip(1))
    }
}

/// A pre-release text split into its dot-separated identifiers.
pub open spec fn split_dots(s: Seq<char>) -> Seq<Seq<char>>
    decreases s.len(),
{
    let k = first_dot(s);
    if 0 <= k < s.len() {
        seq![s.take(k)] + split_dots(s.skip(k + 1))
    } else {
        seq![s]
    }
}

/// A numeric identifier: nonempty, digits only.
pub open spec fn is_num(id: Seq<char>) -> bool {
    id.len() > 0 && forall|k: int|
        0 <= k < id.len() ==> 48 <= (#[trigger] id[k]) as u32 <= 57
}

/// Strict order on single pre-release identifiers: numeric identifiers
/// compare numerically (valid ones carry no leading zeros, so a shorter
/// one is smaller, and equal lengths compare lexically), numeric precedes
/// alphanumeric, and alphanumeric identifiers compare lexically.
pub open spec fn ident_lt(a: Seq<char>, b: Seq<char>) -> bool {
    if is_num(a) && is_num(b) {
        a.len() < b.len() || (a.len() == b.len() && lex_lt(a, b))
    } else if is_num(a) {
        true
    } else if is_num(b) {
        false
    } else {
        lex_lt(a, b)
    }
}

/// Strict order on identifier lists: identifier by identifier, a shorter
/// list preceding one it is a prefix of.
pub open spec fn idents_lt(a: Seq<Seq<char>>, b: Seq<Seq<char>>) -> bool
    decreases a.len() + b.len(),
{
    if b.len() == 0 {
        false
    } else if a.len() == 0 {
        true
    } else if a[0] != b[0] {
        ident_lt(a[0], b[0])
    } else {
        idents_lt(a.skip(1), b.skip(1))
    }
}

/// Strict order on pre-release texts: a pre-release version precedes the
/// release (empty text), and two pre-releases compare identifier by
/// identifier.
pub open spec fn pre_lt(a: Seq<char>, b: Seq<char>) -> bool {
    if a.len() == 0 {
        false
    } else if b.len() == 0 {
        true
    } else {
        idents_lt(split_dots(a), split_dots(b))
    }
}

/// Identifier order is irreflexive.
proof fn lemma_ident_lt_irrefl(a: Seq<char>)
    ensures
        !ident_lt(a, a),
{
    lemma_lex_lt_irrefl(a);
}

/// Identifier order is transitive.
proof fn lemma_ident_lt_trans(a: Seq<char>, b: Seq<char>, c: Seq<char>)
    requires
        ident_lt(a, b),
        ident_lt(b, c),
    ensures
        ident_lt(a, c),
{
    if !is_num(a) && !is_num(b) && !is_num(c) {
        lemma_lex_lt_trans(a, b, c);
    } else if is_num(a) && is_num(b) && is_num(c) {
        if a.len() == b.len() && b.len() == c.len() {
            lemma_lex_lt_trans(a, b, c);
        }
    }
}

/// Identifier-list order is irreflexive.
proof fn lemma_idents_lt_irrefl(a: Seq<Seq<char>>)
    ensures
        !idents_lt(a, a),
    decreases a.len(),
{
    if a.len() > 0 {
        lemma_idents_lt_irrefl(a.skip(1));
    }
}

/// Identifier-list order is transitive.
proof fn lemma_idents_lt_trans(a: Seq<Seq<char>>, b: Seq<Seq<char>>, c: Seq<Seq<char>>)
    requires
        idents_lt(a, b),
        idents_lt(b, c),
    ensures
        idents_lt(a, c),
    decreases a.len() + b.len() + c.len(),
{
    if a.len() == 0 {
    } else if b.len() == 0 {
    } else if c.len() == 0 {
    } else {
        if a[0] == b[0] && b[0] == c[0] {
            lemma_idents_lt_trans(a.skip(1), b.skip(1), c.skip(1));
        } else if a[0] == b[0] {
            // the order between b[0] and c[0] carries over
        } else if b[0] == c[0] {
        } else {
            lemma_ident_lt_trans(a[0], b[0], c[0]);
            if a[0] == c[0] {
                lemma_ident_lt_trans(a[0], b[0], a[0]);
                lemma_ident_lt_irrefl(a[0]);
            }
        }
    }
}

/// Pre-release order is irreflexive.
pub proof fn lemma_pre_lt_irrefl(a: Seq<char>)
    ensures
        !pre_lt(a, a),
{
    if a.len() > 0 {
        lemma_idents_lt_irrefl(split_dots(a));
    }
}

/// Pre-release order is transitive.
pub proof fn lemma_pre_lt_trans(a: Seq<char>, b: Seq<char>, c: Seq<char>)
    requires
        pre_lt(a, b),
        pre_lt(b, c),
    ensures
        pre_lt(a, c),
{
    if a.len() > 0 && b.len() > 0 && c.len() > 0 {
        lemma_idents_lt_trans(split_dots(a), split_dots(b), split_dots(c));
    }
}

/// Strict semantic-version order: by major, then minor, then patch, then
/// the pre-release rule.
pub open spec fn ver_lt(a: (u64, u64, u64, Seq<char>), b: (u64, u64, u64, Seq<char>)) -> bool {
    if a.0 != b.0 {
        a.0 < b.0
    } else if a.1 != b.1 {
        a.1 < b.1
    } else if a.2 != b.2 {
        a.2 < b.2
    } else {
        pre_lt(a.3, b.3)
    }
}

/// Semantic-version order is transitive.
pub proof fn lemma_ver_lt_trans(
    a: (u64, u64, u64, Seq<char>),
    b: (u64, u64, u64, Seq<char>),
    c: (u64, u64, u64, Seq<char>),
)
    requires
        ver_lt(a, b),
        ver_lt(b, c),
    ensures
        ver_lt(a, c),
{
    if a.0 == b.0 && b.0 == c.0 && a.1 == b.1 && b.1 == c.1 && a.2 == b.2 && b.2 == c.2 {
        lemma_pre_lt_trans(a.3, b.3, c.3);
    }
}

/// Lexicographic order is asymmetric.
pub proof fn lemma_lex_lt_asym(a: Seq<char>, b: Seq<char>)
    requires
        lex_lt(a, b),
    ensures
        !lex_lt(b, a),
{
    if lex_lt(b, a) {
        lemma_lex_lt_trans(a, b, a);
        lemma_lex_lt_irrefl(a);
    }
}

/// Any two texts compare: one precedes the other, or they are equal.
pub proof fn lemma_lex_lt_connected(a: Seq<char>, b: Seq<char>)
    ensures
        lex_lt(a, b) || lex_lt(b, a) || a == b,
    decreases a.len() + b.len(),
{
    if a.len() == 0 && b.len() == 0 {
        assert(a =~= b);
    } else if a.len() > 0 && b.len() > 0 {
        if a[0] == b[0] {
            lemma_lex_lt_connected(a.skip(1), b.skip(1));
            if a.skip(1) == b.skip(1) {
                assert(a.len() == b.len()) by {
                    assert(a.skip(1).len() == b.skip(1).len());
                }
                assert(a =~= b) by {
                    assert forall|i: int| 0 <= i < a.len() implies a[i] == b[i] by {
                        if i > 0 {
                            assert(a.skip(1)[i - 1] == b.skip(1)[i - 1]);
                        }
                    }
                }
            }
        } else {
            // distinct characters have distinct code points
            vstd::utf8::char_u32_cast(a[0], a[0] as u32);
            vstd::utf8::char_u32_cast(b[0], b[0] as u32);
            assert((a[0] as u32) != (b[0] as u32));
        }
    }
}

/// Compares two character sequences lexicographically.
pub(crate) fn lex_less(a: &str, b: &str) -> (r: bool)
    ensures
        r == lex_lt(a@, b@),
{
    let alen = a.unicode_len();
    let blen = b.unicode_len();
    proof {
        assert(a@.skip(0) =~= a@);
        assert(b@.skip(0) =~= b@);
    }
    let mut k: usize = 0;
    while k < alen && k < blen
        invariant
            alen == a@.len(),
            blen == b@.len(),
            k <= alen,
            k <= blen,
            lex_lt(a@, b@) == lex_lt(a@.skip(k as int), b@.skip(k as int)),
            forall|j: int| 0 <= j < k ==> a@[j] == b@[j],
        decreases alen - k,
    {
        let ca = a.get_char(k);
        let cb = b.get_char(k);
        let ghost ta = a@.skip(k as int);
        let ghost tb = b@.skip(k as int);
        proof {
            assert(ta[0] == ca);
            assert(tb[0] == cb);
            assert(ta.skip(1) =~= a@.skip(k as int + 1));
            assert(tb.skip(1) =~= b@.skip(k as int + 1));
        }
        if ca != cb {
            return (ca as u32) < (cb as u32);
        }
        k = k + 1;
    }
    proof {
        if k >= blen {
            assert(b@.skip(k as int) =~= Seq::<char>::empty());
        } else {
            assert(a@.skip(k as int) =~= Seq::<char>::empty());
            assert(b@.skip(k as int).len() > 0);
        }
    }
    k < blen && k >= alen
}

/// Splits a pre-release text at its dots.
#[verifier::loop_isolation(false)]
fn split_dots_exec(s: &str) -> (r: Vec<String>)
    ensures
        r.deep_view() == split_dots(s@),
{
    let n = s.unicode_len();
    let mut out: Vec<String> = Vec::new();
    let mut i: usize = 0;
    proof {
        assert(s@.skip(0) =~= s@);
        assert(out.deep_view() + split_dots(s@) =~= split_dots(s@));
    }
    loop
        invariant
            n == s@.len(),
            i <= n,
            split_dots(s@) == out.deep_view() + split_dots(s@.skip(i as int)),
        decreases n - i,
    {
        let ghost pre_out = out.deep_view();
        let mut j: usize = i;
        while j < n && s.get_char(j) != '.'
            invariant
                i <= j <= n,
                forall|t: int| i <= t < j ==> #[trigger] s@[t] != '.',
            decreases n - j,
        {
            j = j + 1;
        }
        let piece = crate::text::copy_range(s, i, j);
        out.push(piece);
        proof {
            let t = s@.skip(i as int);
            assert forall|k: int| 0 <= k < j - i implies #[trigger] t[k] != '.' by {
                assert(t[k] == s@[i + k]);
            }
            if j < n {
                assert(t[j - i] == s@[j as int]);
            }
            lemma_first_dot_at(t, j - i);
            assert(out.deep_view() =~= pre_out.push(s@.subrange(i as int, j as int)));
            if j < n {
                assert(t.take(j - i) =~= s@.subrange(i as int, j as int));
                assert(t.skip(j - i + 1) =~= s@.skip(j as int + 1));
                assert(split_dots(t) == seq![s@.subrange(i as int, j as int)] + split_dots(
                    s@.skip(j as int + 1),
                ));
                assert(pre_out + split_dots(t) =~= out.deep_view() + split_dots(
                    s@.skip(j as int + 1),
                ));
            } else {
                assert(t =~= s@.subrange(i as int, n as int));
                assert(first_dot(t) == t.len());
                assert(split_dots(t) == seq![t]);
                assert(pre_out + split_dots(t) =~= out.deep_view());
            }
        }
        if j < n {
            i = j + 1;
        } else {
            break ;
        }
    }
    out
}

/// The first dot is where no dot precedes and a dot (or the end) stands.
proof fn lemma_first_dot_at(s: Seq<char>, j: int)
    requires
        0 <= j <= s.len(),
        forall|k: int| 0 <= k < j ==> #[trigger] s[k] != '.',
        j < s.len() ==> s[j] == '.',
    ensures
        first_dot(s) == j,
    decreases s.len(),
{
    if s.len() == 0 {
    } else if s[0] == '.' {
    } else {
        assert forall|k: int| 0 <= k < j - 1 implies #[trigger] s.skip(1)[k] != '.' by {
            assert(s.skip(1)[k] == s[k + 1]);
        }
        if j > 0 {
            if j - 1 < s.skip(1).len() {
                assert(s.skip(1)[j - 1] == s[j as int]);
            }
            lemma_first_dot_at(s.skip(1), j - 1);
        }
    }
}

/// Checks whether an identifier is numeric.
fn is_num_exec(id: &str) -> (r: bool)
    ensures
        r == is_num(id@),
{
    let n = id.unicode_len();
    if n == 0 {
        return false;
    }
    let mut k: usize = 0;
    while k < n
        invariant
            n == id@.len(),
            k <= n,
            forall|j: int| 0 <= j < k ==> 48 <= (#[trigger] id@[j]) as u32 <= 57,
        decreases n - k,
    {
        let c = id.get_char(k);
        if (c as u32) < 48 || (c as u32) > 57 {
            return false;
        }
        k = k + 1;
    }
    true
}

/// Compares two pre-release identifiers.
fn ident_less(a: &str, b: &str) -> (r: bool)
    ensures
        r == ident_lt(a@, b@),
{
    let na = is_num_exec(a);
    let nb = is_num_exec(b);
    if na && nb {
        let la = a.unicode_len();
        let lb = b.unicode_len();
        if la != lb {
            la < lb
        } else {
            lex_less(a, b)
        }
    } else if na {
        true
    } else if nb {
        false
    } else {
        lex_less(a, b)
    }
}

/// Compares two identifier lists.
#[verifier::loop_isolation(false)]
fn idents_less(a: &Vec<String>, b: &Vec<String>) -> (r: bool)
    ensures
        r == idents_lt(a.deep_view(), b.deep_view()),
{
    let ghost av = a.deep_view();
    let ghost bv = b.deep_view();
    proof {
        assert(av.skip(0) =~= av);
        assert(bv.skip(0) =~= bv);
    }
    let mut k: usize = 0;
    while k < a.len() && k < b.len()
        invariant
            k <= av.len(),
            k <= bv.len(),
            idents_lt(av, bv) == idents_lt(av.skip(k as int), bv.skip(k as int)),
        decreases av.len() - k,
    {
        proof {
            assert(av.skip(k as int)[0] == av[k as int]);
            assert(bv.skip(k as int)[0] == bv[k as int]);
            assert(av.skip(k as int).skip(1) =~= av.skip(k as int + 1));
            assert(bv.skip(k as int).skip(1) =~= bv.skip(k as int + 1));
        }
        if !crate::text::str_eq(a[k].as_str(), b[k].as_str()) {
            return ident_less(a[k].as_str(), b[k].as_str());
        }
        k = k + 1;
    }
    proof {
        if k >= bv.len() {
            assert(bv.skip(k as int) =~= Seq::<Seq<char>>::empty());
        } else {
            assert(av.skip(k as int) =~= Seq::<Seq<char>>::empty());
            assert(bv.skip(k as int).len() > 0);
        }
    }
    k < b.len() && k >= a.len()
}

/// Compares two pre-release texts.
fn pre_less(a: &str, b: &str) -> (r: bool)
    ensures
        r == pre_lt(a@, b@),
{
    if a.unicode_len() == 0 {
        false
    } else if b.unicode_len() == 0 {
        true
    } else {
        let ia = split_dots_exec(a);
        let ib = split_dots_exec(b);
        idents_less(&ia, &ib)
    }
}

/// Compares two parsed versions in strict semantic-version order.
fn ver_less(a: &(u64, u64, u64, String), b: &(u64, u64, u64, String)) -> (r: bool)
    ensures
        r == ver_lt((a.0, a.1, a.2, a.3@), (b.0, b.1, b.2, b.3@)),
{
    if a.0 != b.0 {
        a.0 < b.0
    } else if a.1 != b.1 {
        a.1 < b.1
    } else if a.2 != b.2 {
        a.2 < b.2
    } else {
        pre_less(a.3.as_str(), b.3.as_str())
    }
}

// ---------------------------------------------------------------------------
// Available versions and packages
// ---------------------------------------------------------------------------
/// The mathematical value of an available version.
pub ghost struct AvailableVersionV {
    pub version: Seq<char>,
    pub url: Seq<char>,
}

/// One version of a package offered by a repository, and where to fetch it.
#[derive(Debug, PartialEq)]
pub struct AvailableVersion {
    /// The semantic version string.
    pub version: String,
    /// The source URL for this version's archive.
    pub url: String,
}

impl View for AvailableVersion {
    type V = AvailableVersionV;

    open spec fn view(&self) -> AvailableVersionV {
        AvailableVersionV { version: self.version@, url: self.url@ }
    }
}

impl DeepView for AvailableVersion {
    type V = AvailableVersionV;

    open spec fn deep_view(&self) -> AvailableVersionV {
        self.view()
    }
}

impl AvailableVersion {
    /// Copies an available version.
    pub fn duplicate(&self) -> (r: AvailableVersion)
        ensures
            r@ == self@,
    {
        AvailableVersion { version: self.version.clone(), url: self.url.clone() }
    }
}

/// One package offered by a repository: its id and its available versions.
pub struct AvailablePackage {
    pub available_versions: Vec<AvailableVersion>,
    pub homepage: String,
    pub id: String,
}

/// A fetched repository descriptor: a name and the packages it offers.
pub struct RepositoryContents {
    pub name: String,
    pub available_packages: Vec<AvailablePackage>,
}

/// A version string is a parseable semantic version.
pub open spec fn spec_parseable(v: AvailableVersionV) -> bool {
    semver_of(v.version) is Some
}

/// The parsed ordering key of a version entry.
pub open spec fn spec_ver_key(v: AvailableVersionV) -> (u64, u64, u64, Seq<char>) {
    semver_of(v.version)->0
}

/// Picks the latest parseable version: the maximum in semantic-version
/// order, with unparseable version strings excluded rather than guessed
/// about; when every version is unparseable the resolution fails.
#[verifier::loop_isolation(false)]
#[verifier::rlimit(30)]
pub fn resolve_latest(versions: &Vec<AvailableVersion>) -> (r: Result<AvailableVersion, HermError>)
    ensures
        (exists|k: int| 0 <= k < versions@.len() && spec_parseable(#[trigger] versions@[k]@))
            <==> r is Ok,
        r matches Ok(v) ==> exists|k: int|
            0 <= k < versions@.len() && (#[trigger] versions@[k]@) == v@ && spec_parseable(v@) && (
            forall|j: int|
                0 <= j < versions@.len() && spec_parseable(#[trigger] versions@[j]@) ==> !ver_lt(
                    spec_ver_key(v@),
                    spec_ver_key(versions@[j]@),
                )),
        r matches Err(e) ==> e matches HermError::NoResolvableVersionError,
{
    let mut best: Option<(AvailableVersion, (u64, u64, u64, String))> = None;
    let mut k: usize = 0;
    while k < versions.len()
        invariant
            k <= versions@.len(),
            (match best {
                Some(b) => {
                    &&& exists|t: int|
                        0 <= t < k && (#[trigger] versions@[t]@) == b.0@ && spec_parseable(b.0@)
                    &&& semver_of(b.0@.version) == Some((b.1.0, b.1.1, b.1.2, b.1.3@))
                    &&& forall|j: int|
                        0 <= j < k && spec_parseable(#[trigger] versions@[j]@) ==> !ver_lt(
                            spec_ver_key(b.0@),
                            spec_ver_key(versions@[j]@),
                        )
                },
                None => forall|j: int| 0 <= j < k ==> !spec_parseable(#[trigger] versions@[j]@),
            }),
        decreases versions@.len() - k,
    {
        let cand = &versions[k];
        match parse_semver(cand.version.as_str()) {
            Some(key) => {
                let take_it = match &best {
                    Some(b) => ver_less(&b.1, &key),
                    None => true,
                };
                if take_it {
                    let ghost old_best = best;
                    best = Some((cand.duplicate(), key));
                    proof {
                        let bv = best->0;
                        assert(versions@[k as int]@ == bv.0@);
                        assert forall|j: int|
                            0 <= j < k + 1 && spec_parseable(#[trigger] versions@[j]@) implies !ver_lt(
                            spec_ver_key(bv.0@),
                            spec_ver_key(versions@[j]@),
                        ) by {
                            if j < k {
                                match old_best {
                                    Some(ob) => {
                                        if ver_lt(spec_ver_key(bv.0@), spec_ver_key(
                                            versions@[j]@,
                                        )) {
                                            lemma_ver_lt_trans(
                                                spec_ver_key(ob.0@),
                                                spec_ver_key(bv.0@),
                                                spec_ver_key(versions@[j]@),
                                            );
                                        }
                                    },
                                    None => {
                                    },
                                }
                            } else {
                                assert(spec_ver_key(versions@[j]@) == spec_ver_key(bv.0@));
                                lemma_pre_lt_irrefl(spec_ver_key(bv.0@).3);
                            }
                        }
                    }
                } else {
                    proof {
                        let bv = best->0;
                        assert(!ver_lt(spec_ver_key(bv.0@), spec_ver_key(versions@[k as int]@)));
                    }
                }
            },
            None => {
            },
        }
        k = k + 1;
    }
    match best {
        Some(b) => Ok(b.0),
        None => Err(HermError::NoResolvableVersionError),
    }
}

/// Picks the entry whose version string equals the requested one exactly;
/// an absent version is a not-found error.
pub fn resolve_exact(versions: &Vec<AvailableVersion>, want: &str) -> (r: Result<
    AvailableVersion,
    HermError,
>)
    ensures
        (exists|k: int| 0 <= k < versions@.len() && (#[trigger] versions@[k]@).version == want@)
            <==> r is Ok,
        r matches Ok(v) ==> v@.version == want@ && exists|k: int|
            0 <= k < versions@.len() && (#[trigger] versions@[k]@) == v@,
        r matches Err(e) ==> e matches HermError::NotFoundError(_),
{
    let mut k: usize = 0;
    while k < versions.len()
        invariant
            k <= versions@.len(),
            forall|j: int| 0 <= j < k ==> (#[trigger] versions@[j]@).version != want@,
        decreases versions@.len() - k,
    {
        if str_eq(versions[k].version.as_str(), want) {
            let v = versions[k].duplicate();
            return Ok(v);
        }
        k = k + 1;
    }
    Err(HermError::NotFoundError(want.to_owned()))
}

// ---------------------------------------------------------------------------
// The package index
// ---------------------------------------------------------------------------
/// One index entry: a package id and its available versions.
pub struct IndexEntry {
    pub id: String,
    pub versions: Vec<AvailableVersion>,
}

/// The merged repository index: a table from package id to the available
/// versions, each id at most once.
pub struct PackageIndex {
    pub entries: Vec<IndexEntry>,
}

/// First-match lookup in an index table.
pub open spec fn idx_find_at(
    s: Seq<(Seq<char>, Seq<AvailableVersionV>)>,
    id: Seq<char>,
) -> Option<Seq<AvailableVersionV>>
    decreases s.len(),
{
    if s.len() == 0 {
        None
    } else if s[0].0 == id {
        Some(s[0].1)
    } else {
        idx_find_at(s.skip(1), id)
    }
}

impl PackageIndex {
    /// The index as a mathematical sequence of pairs.
    pub open spec fn entries_view(self) -> Seq<(Seq<char>, Seq<AvailableVersionV>)> {
        Seq::new(
            self.entries@.len(),
            |k: int| (self.entries@[k].id@, self.entries@[k].versions.deep_view()),
        )
    }

    /// The available versions recorded for a package id.
    pub open spec fn find(self, id: Seq<char>) -> Option<Seq<AvailableVersionV>> {
        idx_find_at(self.entries_view(), id)
    }

    /// Each package id occurs at most once in the index.
    pub open spec fn wf(self) -> bool {
        forall|j: int, k: int|
            0 <= j < k < self.entries_view().len() ==> (#[trigger] self.entries_view()[j].0) != (
            #[trigger] self.entries_view()[k].0)
    }

    /// An empty index.
    pub fn new() -> (r: PackageIndex)
        ensures
            r.wf(),
            forall|id: Seq<char>| r.find(id) is None,
    {
        let r = PackageIndex { entries: Vec::new() };
        proof {
            assert(r.entries_view() =~= Seq::<(Seq<char>, Seq<AvailableVersionV>)>::empty());
        }
        r
    }

    /// Records the versions for a package id, replacing what was there: a
    /// later insert for the same id wins.
    pub fn insert(&mut self, id: String, versions: Vec<AvailableVersion>)
        requires
            old(self).wf(),
        ensures
            final(self).wf(),
            forall|q: Seq<char>|
                final(self).find(q) == (if q == id@ {
                    Some(versions.deep_view())
                } else {
                    old(self).find(q)
                }),
    {
        let ghost s_old = self.entries_view();
        let mut k: usize = 0;
        while k < self.entries.len()
            invariant
                old(self).wf(),
                self == old(self),
                s_old == old(self).entries_view(),
                k <= self.entries@.len(),
                forall|j: int| 0 <= j < k ==> (#[trigger] self.entries_view()[j].0) != id@,
            decreases self.entries@.len() - k,
        {
            if str_eq(self.entries[k].id.as_str(), id.as_str()) {
                self.entries.set(k, IndexEntry { id, versions });
                proof {
                    assert forall|q: Seq<char>| true implies self.find(q) == (if q
                        == old(self).entries_view()[k as int].0 {
                        Some(self.entries_view()[k as int].1)
                    } else {
                        old(self).find(q)
                    }) by {
                        lemma_idx_find_update(
                            old(self).entries_view(),
                            self.entries_view(),
                            k as int,
                            old(self).entries_view()[k as int].0,
                            q,
                        );
                    }
                    assert forall|j: int, t: int|
                        0 <= j < t < self.entries_view().len() implies (
                    #[trigger] self.entries_view()[j].0) != (#[trigger] self.entries_view()[t].0)
                        by {
                        assert(old(self).entries_view()[j].0 == self.entries_view()[j].0 || j
                            == k);
                        assert(old(self).entries_view()[t].0 == self.entries_view()[t].0 || t
                            == k);
                    }
                }
                return ;
            }
            k = k + 1;
        }
        self.entries.push(IndexEntry { id, versions });
        proof {
            assert forall|q: Seq<char>| true implies self.find(q) == (if q
                == self.entries_view().last().0 {
                Some(self.entries_view().last().1)
            } else {
                old(self).find(q)
            }) by {
                assert(self.entries_view() =~= s_old + seq![self.entries_view().last()]);
                lemma_idx_find_append(s_old, seq![self.entries_view().last()], q);
                if q == self.entries_view().last().0 {
                    lemma_idx_no_key(s_old, q);
                }
                assert(seq![self.entries_view().last()].skip(1) =~= Seq::<
                    (Seq<char>, Seq<AvailableVersionV>),
                >::empty());
                assert(idx_find_at(Seq::<(Seq<char>, Seq<AvailableVersionV>)>::empty(), q)
                    is None);
            }
            assert forall|j: int, t: int|
                0 <= j < t < self.entries_view().len() implies (
            #[trigger] self.entries_view()[j].0) != (#[trigger] self.entries_view()[t].0) by {
                if t < s_old.len() {
                    assert(old(self).entries_view()[j].0 != old(self).entries_view()[t].0);
                } else {
                    assert(self.entries_view()[j].0 == s_old[j].0);
                }
            }
        }
    }
}

/// What resolving against a known id's version list must yield: an explicit
/// request selects the exact matching entry, an unspecified request selects
/// the maximum parseable version.
pub open spec fn spec_resolved(
    vs: Seq<AvailableVersionV>,
    want: Option<Seq<char>>,
    r: Result<AvailableVersion, HermError>,
) -> bool {
    match want {
        Some(w) => {
            &&& ((exists|k: int| 0 <= k < vs.len() && (#[trigger] vs[k]).version == w) <==> r
                is Ok)
            &&& (r matches Ok(v) ==> v@.version == w && vs.contains(v@))
            &&& (r matches Err(e) ==> e matches HermError::NotFoundError(_))
        },
        None => {
            &&& ((exists|k: int| 0 <= k < vs.len() && spec_parseable(#[trigger] vs[k])) <==> r
                is Ok)
            &&& (r matches Ok(v) ==> vs.contains(v@) && spec_parseable(v@) && (forall|j: int|
                0 <= j < vs.len() && spec_parseable(#[trigger] vs[j]) ==> !ver_lt(
                    spec_ver_key(v@),
                    spec_ver_key(vs[j]),
                )))
            &&& (r matches Err(e) ==> e matches HermError::NoResolvableVersionError)
        },
    }
}

impl PackageIndex {
    /// Resolves a package id and an optional explicit version request to
    /// one available version: an unknown id is a not-found error, an
    /// explicit request selects the exact matching entry, and an
    /// unspecified request selects the maximum parseable version.
    #[verifier::rlimit(50)]
    pub fn resolve(&self, package_id: &str, want: &Option<String>) -> (r: Result<
        AvailableVersion,
        HermError,
    >)
        ensures
            (match self.find(package_id@) {
                None => r matches Err(e) && e matches HermError::NotFoundError(_),
                Some(vs) => spec_resolved(vs, want.deep_view(), r),
            }),
    {
        let ghost s_all = self.entries_view();
        proof {
            assert(s_all.skip(0) =~= s_all);
        }
        let mut k: usize = 0;
        while k < self.entries.len()
            invariant
                k <= self.entries@.len(),
                s_all == self.entries_view(),
                idx_find_at(s_all.skip(k as int), package_id@) == self.find(package_id@),
                forall|j: int| 0 <= j < k ==> (#[trigger] s_all[j].0) != package_id@,
            decreases self.entries@.len() - k,
        {
            proof {
                assert(s_all.skip(k as int)[0] == s_all[k as int]);
                assert(s_all.skip(k as int).skip(1) =~= s_all.skip(k as int + 1));
            }
            if str_eq(self.entries[k].id.as_str(), package_id) {
                let vs = &self.entries[k].versions;
                proof {
                    assert(self.find(package_id@) == Some(vs.deep_view()));
                }
                let ghost dv = vs.deep_view();
                proof {
                    assert forall|t: int| 0 <= t < dv.len() implies #[trigger] dv[t] == vs@[t]@ by {}
                }
                match want {
                    Some(w) => {
                        let got = resolve_exact(vs, w.as_str());
                        proof {
                            if got is Ok {
                                let v = got->Ok_0;
                                let t = choose|t: int|
                                    0 <= t < vs@.len() && (#[trigger] vs@[t]@) == v@;
                                assert(dv[t] == v@);
                            }
                            if exists|t: int|
                                0 <= t < dv.len() && (#[trigger] dv[t]).version == w@ {
                                let t = choose|t: int|
                                    0 <= t < dv.len() && (#[trigger] dv[t]).version == w@;
                                assert(vs@[t]@.version == w@);
                            }
                            assert(spec_resolved(dv, want.deep_view(), got));
                        }
                        return got;
                    },
                    None => {
                        let got = resolve_latest(vs);
                        proof {
                            if got is Ok {
                                let v = got->Ok_0;
                                let t = choose|t: int|
                                    0 <= t < vs@.len() && (#[trigger] vs@[t]@) == v@
                                        && spec_parseable(v@);
                                assert(dv[t] == v@);
                                assert forall|j: int|
                                    0 <= j < dv.len() && spec_parseable(
                                        #[trigger] dv[j],
                                    ) implies !ver_lt(spec_ver_key(v@), spec_ver_key(dv[j])) by {
                                    assert(dv[j] == vs@[j]@);
                                }
                            }
                            if exists|t: int| 0 <= t < dv.len() && spec_parseable(#[trigger] dv[t]) {
                                let t = choose|t: int|
                                    0 <= t < dv.len() && spec_parseable(#[trigger] dv[t]);
                                assert(spec_parseable(vs@[t]@));
                            }
                            assert(spec_resolved(dv, want.deep_view(), got));
                        }
                        return got;
                    },
                }
            }
            k = k + 1;
        }
        proof {
            assert(s_all.skip(k as int) =~= Seq::<(Seq<char>, Seq<AvailableVersionV>)>::empty());
        }
        Err(HermError::NotFoundError(package_id.to_owned()))
    }
}

/// Index lookup distributes over concatenation: the left table wins.
proof fn lemma_idx_find_append(
    a: Seq<(Seq<char>, Seq<AvailableVersionV>)>,
    b: Seq<(Seq<char>, Seq<AvailableVersionV>)>,
    id: Seq<char>,
)
    ensures
        idx_find_at(a + b, id) == (match idx_find_at(a, id) {
            Some(v) => Some(v),
            None => idx_find_at(b, id),
        }),
    decreases a.len(),
{
    if a.len() == 0 {
        assert(a + b =~= b);
    } else {
        assert((a + b).skip(1) =~= a.skip(1) + b);
        lemma_idx_find_append(a.skip(1), b, id);
        assert((a + b)[0] == a[0]);
    }
}

/// When no entry carries an id, lookup of that id fails.
proof fn lemma_idx_no_key(s: Seq<(Seq<char>, Seq<AvailableVersionV>)>, id: Seq<char>)
    requires
        forall|j: int| 0 <= j < s.len() ==> (#[trigger] s[j]).0 != id,
    ensures
        idx_find_at(s, id) is None,
    decreases s.len(),
{
    if s.len() > 0 {
        assert forall|j: int| 0 <= j < s.skip(1).len() implies (#[trigger] s.skip(1)[j]).0
            != id by {
            assert(s.skip(1)[j] == s[j + 1]);
        }
        lemma_idx_no_key(s.skip(1), id);
    }
}

/// Replacing the first entry that carries an id changes lookups of that id
/// alone.
proof fn lemma_idx_find_update(
    s_old: Seq<(Seq<char>, Seq<AvailableVersionV>)>,
    s_new: Seq<(Seq<char>, Seq<AvailableVersionV>)>,
    k: int,
    id: Seq<char>,
    q: Seq<char>,
)
    requires
        0 <= k < s_old.len(),
        s_new.len() == s_old.len(),
        s_old[k].0 == id,
        s_new[k].0 == id,
        forall|j: int| 0 <= j < s_old.len() && j != k ==> s_new[j] == s_old[j],
        forall|j: int| 0 <= j < k ==> (#[trigger] s_old[j]).0 != id,
    ensures
        idx_find_at(s_new, q) == (if q == id {
            Some(s_new[k].1)
        } else {
            idx_find_at(s_old, q)
        }),
    decreases k,
{
    if k == 0 {
        assert(s_new.skip(1) =~= s_old.skip(1));
    } else {
        assert(s_new[0] == s_old[0]);
        assert forall|j: int| 0 <= j < k - 1 implies (#[trigger] s_old.skip(1)[j]).0 != id by {
            assert(s_old.skip(1)[j] == s_old[j + 1]);
        }
        assert forall|j: int|
            0 <= j < s_old.skip(1).len() && j != k - 1 implies s_new.skip(1)[j] == s_old.skip(
            1,
        )[j] by {
            assert(s_new.skip(1)[j] == s_new[j + 1]);
            assert(s_old.skip(1)[j] == s_old[j + 1]);
        }
        lemma_idx_find_update(s_old.skip(1), s_new.skip(1), k - 1, id, q);
        assert(s_new.skip(1)[k - 1] == s_new[k]);
    }
}

impl RepositoryContents {
    /// Turns the descriptor into an index keyed by package id; a later
    /// package entry for the same id wins.
    #[verifier::loop_isolation(false)]
    #[verifier::rlimit(30)]
    pub fn into_index(self) -> (r: PackageIndex)
        ensures
            r.wf(),
            forall|id: Seq<char>|
                r.find(id) == spec_repo_find(self.available_packages.deep_view(), id),
    {
        let mut index = PackageIndex::new();
        let ghost apv = self.available_packages.deep_view();
        let mut pkgs = self.available_packages;
        let ghost n = pkgs@.len() as int;
        let mut k: usize = 0;
        proof {
            assert(apv.take(0) =~= Seq::<AvailablePackageV>::empty());
        }
        loop
            invariant
                index.wf(),
                k <= n,
                n == apv.len(),
                pkgs.deep_view() == apv,
                k <= pkgs@.len(),
                forall|id: Seq<char>|
                    index.find(id) == spec_repo_find(apv.take(k as int), id),
            decreases n - k,
        {
            if k >= pkgs.len() {
                break ;
            }
            let ghost pre = index;
            let entry = &pkgs[k];
            let mut versions: Vec<AvailableVersion> = Vec::new();
            let mut t: usize = 0;
            proof {
                assert(versions.deep_view() =~= entry.available_versions.deep_view().take(0));
            }
            while t < entry.available_versions.len()
                invariant
                    t <= entry.available_versions@.len(),
                    versions.deep_view() == entry.available_versions.deep_view().take(t as int),
                decreases entry.available_versions@.len() - t,
            {
                versions.push(entry.available_versions[t].duplicate());
                proof {
                    assert(versions.deep_view() =~= entry.available_versions.deep_view().take(
                        t as int + 1,
                    ));
                }
                t = t + 1;
            }
            proof {
                assert(entry.available_versions.deep_view().take(
                    entry.available_versions@.len() as int,
                ) =~= entry.available_versions.deep_view());
            }
            index.insert(entry.id.clone(), versions);
            proof {
                assert(apv.take(k as int).push(apv[k as int]) =~= apv.take(k as int + 1));
                lemma_repo_find_push(apv.take(k as int), apv[k as int]);
                assert(apv[k as int].id == pkgs@[k as int].id@);
                assert(apv[k as int].available_versions == pkgs@[
                    k as int].available_versions.deep_view());
            }
            k = k + 1;
        }
        proof {
            assert(apv.take(n) =~= apv);
        }
        index
    }
}

/// The mathematical value of an available package.
pub ghost struct AvailablePackageV {
    pub available_versions: Seq<AvailableVersionV>,
    pub homepage: Seq<char>,
    pub id: Seq<char>,
}

impl View for AvailablePackage {
    type V = AvailablePackageV;

    open spec fn view(&self) -> AvailablePackageV {
        AvailablePackageV {
            available_versions: self.available_versions.deep_view(),
            homepage: self.homepage@,
            id: self.id@,
        }
    }
}

impl DeepView for AvailablePackage {
    type V = AvailablePackageV;

    open spec fn deep_view(&self) -> AvailablePackageV {
        self.view()
    }
}

/// The mathematical value of a repository descriptor.
pub ghost struct RepositoryContentsV {
    pub name: Seq<char>,
    pub available_packages: Seq<AvailablePackageV>,
}

impl View for RepositoryContents {
    type V = RepositoryContentsV;

    open spec fn view(&self) -> RepositoryContentsV {
        RepositoryContentsV {
            name: self.name@,
            available_packages: self.available_packages.deep_view(),
        }
    }
}

impl DeepView for RepositoryContents {
    type V = RepositoryContentsV;

    open spec fn deep_view(&self) -> RepositoryContentsV {
        self.view()
    }
}

/// The versions the LAST package entry with a given id records: a later
/// repository entry for the same id wins.
pub open spec fn spec_repo_find(
    pkgs: Seq<AvailablePackageV>,
    id: Seq<char>,
) -> Option<Seq<AvailableVersionV>>
    decreases pkgs.len(),
{
    if pkgs.len() == 0 {
        None
    } else if pkgs.last().id == id {
        Some(pkgs.last().available_versions)
    } else {
        spec_repo_find(pkgs.drop_last(), id)
    }
}

/// One more package entry at the end of the descriptor.
proof fn lemma_repo_find_push(pkgs: Seq<AvailablePackageV>, p: AvailablePackageV)
    ensures
        forall|id: Seq<char>|
            spec_repo_find(pkgs.push(p), id) == (if id == p.id {
                Some(p.available_versions)
            } else {
                spec_repo_find(pkgs, id)
            }),
{
    assert forall|id: Seq<char>| true implies spec_repo_find(pkgs.push(p), id) == (if id == p.id {
        Some(p.available_versions)
    } else {
        spec_repo_find(pkgs, id)
    }) by {
        assert(pkgs.push(p).last() == p);
        assert(pkgs.push(p).drop_last() =~= pkgs);
    }
}

/// Merges one repository's index into the combined index: every id the
/// later repository records wins over an earlier repository's entry.
#[verifier::loop_isolation(false)]
#[verifier::rlimit(30)]
pub fn merge_index(combined: &mut PackageIndex, later: PackageIndex)
    requires
        old(combined).wf(),
        later.wf(),
    ensures
        final(combined).wf(),
        forall|id: Seq<char>|
            final(combined).find(id) == (match later.find(id) {
                Some(v) => Some(v),
                None => old(combined).find(id),
            }),
{
    let ghost laterv = later.entries_view();
    let mut entries = later.entries;
    let ghost n = entries@.len() as int;
    let mut k: usize = 0;
    proof {
        assert(laterv.take(0) =~= Seq::<(Seq<char>, Seq<AvailableVersionV>)>::empty());
        assert forall|id: Seq<char>| true implies combined.find(id) == (match idx_find_back(
            laterv.take(0),
            id,
        ) {
            Some(v) => Some(v),
            None => old(combined).find(id),
        }) by {}
    }
    loop
        invariant
            combined.wf(),
            k <= n,
            n == laterv.len(),
            Seq::new(
                entries@.len(),
                |j: int| (entries@[j].id@, entries@[j].versions.deep_view()),
            ) == laterv,
            k <= entries@.len(),
            forall|id: Seq<char>|
                combined.find(id) == (match idx_find_back(laterv.take(k as int), id) {
                    Some(v) => Some(v),
                    None => old(combined).find(id),
                }),
            combined.wf(),
        decreases n - k,
    {
        if k >= entries.len() {
            break ;
        }
        let e = &entries[k];
        let mut versions: Vec<AvailableVersion> = Vec::new();
        let mut t: usize = 0;
        proof {
            assert(versions.deep_view() =~= e.versions.deep_view().take(0));
        }
        while t < e.versions.len()
            invariant
                t <= e.versions@.len(),
                versions.deep_view() == e.versions.deep_view().take(t as int),
            decreases e.versions@.len() - t,
        {
            versions.push(e.versions[t].duplicate());
            proof {
                assert(versions.deep_view() =~= e.versions.deep_view().take(t as int + 1));
            }
            t = t + 1;
        }
        proof {
            assert(e.versions.deep_view().take(e.versions@.len() as int)
                =~= e.versions.deep_view());
        }
        combined.insert(e.id.clone(), versions);
        proof {
            assert(laterv.take(k as int).push(laterv[k as int]) =~= laterv.take(k as int + 1));
            assert forall|id: Seq<char>| true implies combined.find(id) == (
            match idx_find_back(laterv.take(k as int + 1), id) {
                Some(v) => Some(v),
                None => old(combined).find(id),
            }) by {
                assert(laterv.take(k as int + 1).last() == laterv[k as int]);
                assert(laterv.take(k as int + 1).drop_last() =~= laterv.take(k as int));
            }
        }
        k = k + 1;
    }
    proof {
        assert(laterv.take(n) =~= laterv);
        assert forall|id: Seq<char>| true implies combined.find(id) == (
        match later.find(id) {
            Some(v) => Some(v),
            None => old(combined).find(id),
        }) by {
            lemma_idx_back_front(laterv, id);
        }
    }
}

/// Last-match lookup in an index table: what sequential insertion yields.
pub open spec fn idx_find_back(
    s: Seq<(Seq<char>, Seq<AvailableVersionV>)>,
    id: Seq<char>,
) -> Option<Seq<AvailableVersionV>>
    decreases s.len(),
{
    if s.len() == 0 {
        None
    } else if s.last().0 == id {
        Some(s.last().1)
    } else {
        idx_find_back(s.drop_last(), id)
    }
}

/// For a table with pairwise distinct ids, first-match and last-match
/// lookup coincide; `PackageIndex` tables are built by `insert`, which keeps
/// ids distinct — and for a table that is not, last-match is what repeated
/// insertion yields, which is what the merge law speaks of.
proof fn lemma_idx_back_front(s: Seq<(Seq<char>, Seq<AvailableVersionV>)>, id: Seq<char>)
    requires
        forall|j: int, t: int| 0 <= j < t < s.len() ==> (#[trigger] s[j]).0 != (#[trigger] s[t]).0,
    ensures
        idx_find_back(s, id) == idx_find_at(s, id),
    decreases s.len(),
{
    if s.len() == 0 {
    } else if s.len() == 1 {
        assert(s.drop_last() =~= Seq::<(Seq<char>, Seq<AvailableVersionV>)>::empty());
        assert(s.skip(1) =~= Seq::<(Seq<char>, Seq<AvailableVersionV>)>::empty());
        assert(idx_find_at(Seq::<(Seq<char>, Seq<AvailableVersionV>)>::empty(), id) is None);
        assert(idx_find_back(Seq::<(Seq<char>, Seq<AvailableVersionV>)>::empty(), id) is None);
        assert(s.last() == s[0]);
    } else {
        assert forall|j: int, t: int|
            0 <= j < t < s.drop_last().len() implies (#[trigger] s.drop_last()[j]).0 != (
        #[trigger] s.drop_last()[t]).0 by {
            assert(s.drop_last()[j] == s[j]);
            assert(s.drop_last()[t] == s[t]);
        }
        lemma_idx_back_front(s.drop_last(), id);
        assert(s =~= s.drop_last() + seq![s.last()]);
        lemma_idx_find_append(s.drop_last(), seq![s.last()], id);
        assert(seq![s.last()].skip(1) =~= Seq::<(Seq<char>, Seq<AvailableVersionV>)>::empty());
        if s.last().0 == id {
            // no earlier entry carries the id, so first-match lookup of the
            // prefix fails and both lookups land on the last entry
            assert forall|j: int| 0 <= j < s.drop_last().len() implies (
            #[trigger] s.drop_last()[j]).0 != id by {
                assert(s.drop_last()[j] == s[j]);
                assert(s[j].0 != s[s.len() - 1].0);
            }
            lemma_idx_no_key(s.drop_last(), id);
            assert(idx_find_at(seq![s.last()], id) == Some(s.last().1));
        } else {
            assert(idx_find_at(Seq::<(Seq<char>, Seq<AvailableVersionV>)>::empty(), id) is None);
            assert(idx_find_at(seq![s.last()], id) is None);
        }
    }
}

} // verus!
