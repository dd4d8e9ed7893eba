use vstd::prelude::*;

use crate::errors::HermError;
use crate::manifest::{FileMappingDefinition, Hooks, HooksV, Manifest, ManifestV, MappingV};
use crate::text::{copy_range, has_prefix_at, push_char, str_eq};

verus! {

// ---------------------------------------------------------------------------
// Escaping of field values
//
// A manifest document is a sequence of `key: value` lines.  So that any
// value, line breaks included, fits on one line, a backslash and a newline
// in a value are written as the two-character groups `\\` and `\n`.
// ---------------------------------------------------------------------------
/// True when `s` holds no newline character.
pub open spec fn no_nl(s: Seq<char>) -> bool {
    forall|k: int| 0 <= k < s.len() ==> #[trigger] s[k] != '\n'
}

/// The escaped form of a value: `\` becomes `\\` and a newline becomes `\n`.
pub open spec fn esc(s: Seq<char>) -> Seq<char>
    decreases s.len(),
{
    if s.len() == 0 {
        Seq::empty()
    } else {
        let c = s[0];
        let rest = esc(s.skip(1));
        if c == '\\' {
            seq!['\\', '\\'] + rest
        } else if c == '\n' {
            seq!['\\', 'n'] + rest
        } else {
            seq![c] + rest
        }
    }
}

/// The inverse of `esc`: decodes the two-character groups.
pub open spec fn unesc(s: Seq<char>) -> Seq<char>
    decreases s.len(),
{
    if s.len() == 0 {
        Seq::empty()
    } else if s[0] == '\\' && s.len() >= 2 {
        let c = if s[1] == 'n' {
            '\n'
        } else {
            s[1]
        };
        seq![c] + unesc(s.skip(2))
    } else {
        seq![s[0]] + unesc(s.skip(1))
    }
}

/// Escaping distributes over concatenation.
pub proof fn lemma_esc_append(a: Seq<char>, b: Seq<char>)
    ensures
        esc(a + b) == esc(a) + esc(b),
    decreases a.len(),
{
    if a.len() == 0 {
        assert(a + b =~= b);
        assert(esc(a) + esc(b) =~= esc(b));
    } else {
        assert((a + b).skip(1) =~= a.skip(1) + b);
        lemma_esc_append(a.skip(1), b);
        let c = a[0];
        if c == '\\' {
            assert(seq!['\\', '\\'] + (esc(a.skip(1)) + esc(b)) =~= (seq!['\\', '\\'] + esc(
                a.skip(1),
            )) + esc(b));
        } else if c == '\n' {
            assert(seq!['\\', 'n'] + (esc(a.skip(1)) + esc(b)) =~= (seq!['\\', 'n'] + esc(
                a.skip(1),
            )) + esc(b));
        } else {
            assert(seq![c] + (esc(a.skip(1)) + esc(b)) =~= (seq![c] + esc(a.skip(1))) + esc(b));
        }
    }
}

/// The escaped form of a value holds no newline.
pub proof fn lemma_esc_no_nl(s: Seq<char>)
    ensures
        no_nl(esc(s)),
    decreases s.len(),
{
    if s.len() == 0 {
    } else {
        lemma_esc_no_nl(s.skip(1));
    }
}

/// Decoding undoes escaping.
pub proof fn lemma_unesc_esc(s: Seq<char>)
    ensures
        unesc(esc(s)) == s,
    decreases s.len(),
{
    if s.len() == 0 {
    } else {
        lemma_unesc_esc(s.skip(1));
        let c = s[0];
        let rest = esc(s.skip(1));
        if c == '\\' {
            let e = seq!['\\', '\\'] + rest;
            assert(e[0] == '\\' && e.len() >= 2 && e[1] == '\\');
            assert(e.skip(2) =~= rest);
            assert(seq!['\\'] + s.skip(1) =~= s);
        } else if c == '\n' {
            let e = seq!['\\', 'n'] + rest;
            assert(e[0] == '\\' && e.len() >= 2 && e[1] == 'n');
            assert(e.skip(2) =~= rest);
            assert(seq!['\n'] + s.skip(1) =~= s);
        } else {
            let e = seq![c] + rest;
            assert(e[0] == c);
            if e[0] == '\\' && e.len() >= 2 {
                assert(false);
            }
            assert(e.skip(1) =~= rest);
            assert(seq![c] + s.skip(1) =~= s);
        }
    }
}

// ---------------------------------------------------------------------------
// Lines
// ---------------------------------------------------------------------------
/// Joins lines into one document, terminating each line with a newline.
pub open spec fn join_lines(ls: Seq<Seq<char>>) -> Seq<char>
    decreases ls.len(),
{
    if ls.len() == 0 {
        Seq::empty()
    } else {
        ls[0] + seq!['\n'] + join_lines(ls.skip(1))
    }
}

/// The index of the first newline in `s`, or `s.len()` if there is none.
pub open spec fn first_nl(s: Seq<char>) -> int
    decreases s.len(),
{
    if s.len() == 0 {
        0
    } else if s[0] == '\n' {
        0
    } else {
        1 + first_nl(s.skip(1))
    }
}

/// Splits a document into its lines; an unterminated last line is kept.
pub open spec fn split_lines(s: Seq<char>) -> Seq<Seq<char>>
    decreases s.len(),
{
    if s.len() == 0 {
        seq![]
    } else {
        let k = first_nl(s);
        if 0 <= k < s.len() {
            seq![s.take(k)] + split_lines(s.skip(k + 1))
        } else {
            seq![s]
        }
    }
}

/// Joining distributes over concatenation of line sequences.
pub proof fn lemma_join_append(a: Seq<Seq<char>>, b: Seq<Seq<char>>)
    ensures
        join_lines(a + b) == join_lines(a) + join_lines(b),
    decreases a.len(),
{
    if a.len() == 0 {
        assert(a + b =~= b);
        assert(join_lines(a) + join_lines(b) =~= join_lines(b));
    } else {
        assert((a + b).skip(1) =~= a.skip(1) + b);
        lemma_join_append(a.skip(1), b);
        assert((a + b)[0] == a[0]);
        assert(a[0] + seq!['\n'] + (join_lines(a.skip(1)) + join_lines(b)) =~= (a[0] + seq!['\n']
            + join_lines(a.skip(1))) + join_lines(b));
    }
}

/// Basic facts about the first newline: it is in range, everything before it
/// is not a newline, and it points at a newline when one exists.
pub proof fn lemma_first_nl_props(s: Seq<char>)
    ensures
        0 <= first_nl(s) <= s.len(),
        forall|k: int| 0 <= k < first_nl(s) ==> #[trigger] s[k] != '\n',
        first_nl(s) < s.len() ==> s[first_nl(s)] == '\n',
    decreases s.len(),
{
    if s.len() == 0 {
    } else if s[0] == '\n' {
    } else {
        lemma_first_nl_props(s.skip(1));
        assert forall|k: int| 0 <= k < first_nl(s) implies #[trigger] s[k] != '\n' by {
            if k > 0 {
                assert(s.skip(1)[k - 1] != '\n');
            }
        }
    }
}

/// `first_nl` is the unique index with no newline before it and a newline
/// (or the end of the text) at it.
pub proof fn lemma_first_nl_at(s: Seq<char>, j: int)
    requires
        0 <= j <= s.len(),
        forall|k: int| 0 <= k < j ==> #[trigger] s[k] != '\n',
        j < s.len() ==> s[j] == '\n',
    ensures
        first_nl(s) == j,
{
    lemma_first_nl_props(s);
    if first_nl(s) < j {
        assert(s[first_nl(s)] != '\n');
        assert(first_nl(s) < s.len());
        assert(false);
    }
    if first_nl(s) > j {
        assert(s[j] != '\n');
        assert(j < s.len());
        assert(false);
    }
}

/// Splitting a joined document recovers the lines, provided no line holds a
/// newline of its own.
pub proof fn lemma_split_join(ls: Seq<Seq<char>>)
    requires
        forall|k: int| 0 <= k < ls.len() ==> no_nl(#[trigger] ls[k]),
    ensures
        split_lines(join_lines(ls)) == ls,
    decreases ls.len(),
{
    if ls.len() == 0 {
    } else {
        let l0 = ls[0];
        let rest = join_lines(ls.skip(1));
        let j = join_lines(ls);
        assert(j =~= l0 + seq!['\n'] + rest);
        assert(j.len() > 0);
        assert forall|k: int| 0 <= k < l0.len() implies #[trigger] j[k] != '\n' by {
            assert(j[k] == l0[k]);
            assert(no_nl(ls[0]));
        }
        assert(j[l0.len() as int] == '\n');
        lemma_first_nl_at(j, l0.len() as int);
        assert(first_nl(j) < j.len());
        assert(j.take(l0.len() as int) =~= l0);
        assert(j.skip(l0.len() as int + 1) =~= rest);
        lemma_split_join(ls.skip(1));
        assert(seq![l0] + split_lines(rest) =~= ls);
    }
}

// ---------------------------------------------------------------------------
// Serialization: the lines of a manifest document
// ---------------------------------------------------------------------------
/// The lines for one optional `key: value` entry.
pub open spec fn opt_line(key: Seq<char>, o: Option<Seq<char>>) -> Seq<Seq<char>> {
    match o {
        Some(v) => seq![key + esc(v)],
        None => seq![],
    }
}

/// The list-item lines for the authors.
pub open spec fn author_lines(authors: Seq<Seq<char>>) -> Seq<Seq<char>> {
    authors.map_values(|a: Seq<char>| "- "@ + esc(a))
}

/// The lines for one mapping definition.
pub open spec fn mapping_lines(m: MappingV) -> Seq<Seq<char>> {
    seq!["- i: "@ + esc(m.i), "  o: "@ + esc(m.o)] + opt_line("  platform: "@, m.platform)
        + opt_line("  integrity: "@, m.integrity)
}

/// The lines for all mapping definitions.
pub open spec fn mappings_lines(ms: Seq<MappingV>) -> Seq<Seq<char>>
    decreases ms.len(),
{
    if ms.len() == 0 {
        seq![]
    } else {
        mapping_lines(ms[0]) + mappings_lines(ms.skip(1))
    }
}

/// The lines for the optional hooks section.
pub open spec fn hooks_lines(h: Option<HooksV>) -> Seq<Seq<char>> {
    match h {
        None => seq![],
        Some(hh) => seq!["hooks:"@] + opt_line("  pre_install: "@, hh.pre_install) + opt_line(
            "  post_install: "@,
            hh.post_install,
        ) + opt_line("  pre_remove: "@, hh.pre_remove) + opt_line(
            "  post_remove: "@,
            hh.post_remove,
        ),
    }
}

/// All lines of a serialized manifest, in their fixed order.
pub open spec fn ser_lines(m: ManifestV) -> Seq<Seq<char>> {
    seq![
        "id: "@ + esc(m.id),
        "name: "@ + esc(m.name),
        "version: "@ + esc(m.version),
        "description: "@ + esc(m.description),
        "authors:"@,
    ] + author_lines(m.authors) + seq!["mappings:"@] + mappings_lines(m.mappings) + hooks_lines(
        m.hooks,
    )
}

/// The serialized text of a manifest.
pub open spec fn spec_serialize(m: ManifestV) -> Seq<char> {
    join_lines(ser_lines(m))
}

// ---------------------------------------------------------------------------
// Parsing
// ---------------------------------------------------------------------------
/// Consumes one optional `key: value` line from the front of `ls`.
pub open spec fn p_opt(ls: Seq<Seq<char>>, key: Seq<char>) -> (Option<Seq<char>>, Seq<Seq<char>>) {
    if ls.len() > 0 && key.is_prefix_of(ls[0]) {
        (Some(unesc(ls[0].skip(key.len() as int))), ls.skip(1))
    } else {
        (None, ls)
    }
}

/// Consumes the author list items from the front of `ls`.
pub open spec fn p_authors(ls: Seq<Seq<char>>) -> (Seq<Seq<char>>, Seq<Seq<char>>)
    decreases ls.len(),
{
    if ls.len() > 0 && "- "@.is_prefix_of(ls[0]) {
        let (rest, rem) = p_authors(ls.skip(1));
        (seq![unesc(ls[0].skip("- "@.len() as int))] + rest, rem)
    } else {
        (seq![], ls)
    }
}

/// Consumes the mapping blocks from the front of `ls`.
pub open spec fn p_mappings(ls: Seq<Seq<char>>) -> Option<(Seq<MappingV>, Seq<Seq<char>>)>
    decreases ls.len(),
{
    if ls.len() > 0 && "- i: "@.is_prefix_of(ls[0]) {
        let iv = unesc(ls[0].skip("- i: "@.len() as int));
        if ls.len() > 1 && "  o: "@.is_prefix_of(ls[1]) {
            let ov = unesc(ls[1].skip("  o: "@.len() as int));
            let (pv, r1) = p_opt(ls.skip(2), "  platform: "@);
            let (gv, r2) = p_opt(r1, "  integrity: "@);
            match p_mappings(r2) {
                Some((ms, rem)) => Some(
                    (seq![MappingV { i: iv, o: ov, platform: pv, integrity: gv }] + ms, rem),
                ),
                None => None,
            }
        } else {
            None
        }
    } else {
        Some((seq![], ls))
    }
}

/// Parses the optional hooks section, which must end the document.
pub open spec fn p_hooks(ls: Seq<Seq<char>>) -> Option<Option<HooksV>> {
    if ls.len() == 0 {
        Some(None)
    } else if ls[0] == "hooks:"@ {
        let (a, r1) = p_opt(ls.skip(1), "  pre_install: "@);
        let (b, r2) = p_opt(r1, "  post_install: "@);
        let (c, r3) = p_opt(r2, "  pre_remove: "@);
        let (d, r4) = p_opt(r3, "  post_remove: "@);
        if r4.len() == 0 {
            Some(Some(HooksV { pre_install: a, post_install: b, pre_remove: c, post_remove: d }))
        } else {
            None
        }
    } else {
        None
    }
}

/// Parses the lines of a manifest document.
pub open spec fn parse_lines(ls: Seq<Seq<char>>) -> Option<ManifestV> {
    if ls.len() >= 5 && "id: "@.is_prefix_of(ls[0]) && "name: "@.is_prefix_of(ls[1])
        && "version: "@.is_prefix_of(ls[2]) && "description: "@.is_prefix_of(ls[3]) && ls[4]
        == "authors:"@ {
        let id = unesc(ls[0].skip("id: "@.len() as int));
        let name = unesc(ls[1].skip("name: "@.len() as int));
        let version = unesc(ls[2].skip("version: "@.len() as int));
        let description = unesc(ls[3].skip("description: "@.len() as int));
        let (authors, r1) = p_authors(ls.skip(5));
        if r1.len() > 0 && r1[0] == "mappings:"@ {
            match p_mappings(r1.skip(1)) {
                Some((mappings, r2)) => match p_hooks(r2) {
                    Some(hooks) => Some(
                        ManifestV { id, name, version, description, authors, mappings, hooks },
                    ),
                    None => None,
                },
                None => None,
            }
        } else {
            None
        }
    } else {
        None
    }
}

/// Parses a manifest document.
pub open spec fn spec_parse(s: Seq<char>) -> Option<ManifestV> {
    parse_lines(split_lines(s))
}

/// Parses a manifest document and enforces the data-model invariant: a
/// structurally valid document whose manifest is ill-formed (empty id or
/// version, or an input path escaping the package root) is refused.
pub open spec fn spec_parse_wf(s: Seq<char>) -> Option<ManifestV> {
    match spec_parse(s) {
        Some(m) => if crate::manifest::spec_manifest_wf(m) {
            Some(m)
        } else {
            None
        },
        None => None,
    }
}

// ---------------------------------------------------------------------------
// The round trip: parsing a serialized manifest recovers it
// ---------------------------------------------------------------------------
/// A key is a prefix of the line it starts, and stripping it leaves the rest.
proof fn lemma_key_prefix(key: Seq<char>, w: Seq<char>)
    ensures
        key.is_prefix_of(key + w),
        (key + w).skip(key.len() as int) == w,
{
    assert((key + w).subrange(0, key.len() as int) =~= key);
    assert((key + w).skip(key.len() as int) =~= w);
}

/// A single mismatching character refutes a prefix claim.
proof fn lemma_not_prefix(p: Seq<char>, s: Seq<char>, k: int)
    requires
        0 <= k < p.len(),
        k < s.len(),
        s[k] != p[k],
    ensures
        !p.is_prefix_of(s),
{
    if p.is_prefix_of(s) {
        assert(s.subrange(0, p.len() as int)[k] == s[k]);
    }
}

/// None of the fixed keys and section markers holds a newline.
proof fn lemma_lits_no_nl()
    ensures
        no_nl("id: "@),
        no_nl("name: "@),
        no_nl("version: "@),
        no_nl("description: "@),
        no_nl("authors:"@),
        no_nl("- "@),
        no_nl("mappings:"@),
        no_nl("- i: "@),
        no_nl("  o: "@),
        no_nl("  platform: "@),
        no_nl("  integrity: "@),
        no_nl("hooks:"@),
        no_nl("  pre_install: "@),
        no_nl("  post_install: "@),
        no_nl("  pre_remove: "@),
        no_nl("  post_remove: "@),
{
    reveal_strlit("id: ");
    reveal_strlit("name: ");
    reveal_strlit("version: ");
    reveal_strlit("description: ");
    reveal_strlit("authors:");
    reveal_strlit("- ");
    reveal_strlit("mappings:");
    reveal_strlit("- i: ");
    reveal_strlit("  o: ");
    reveal_strlit("  platform: ");
    reveal_strlit("  integrity: ");
    reveal_strlit("hooks:");
    reveal_strlit("  pre_install: ");
    reveal_strlit("  post_install: ");
    reveal_strlit("  pre_remove: ");
    reveal_strlit("  post_remove: ");
}

/// A `key: value` line holds no newline when the key holds none.
proof fn lemma_line_no_nl(key: Seq<char>, v: Seq<char>)
    requires
        no_nl(key),
    ensures
        no_nl(key + esc(v)),
{
    lemma_esc_no_nl(v);
    assert forall|j: int| 0 <= j < (key + esc(v)).len() implies #[trigger] (key + esc(v))[j]
        != '\n' by {
        if j < key.len() {
            assert((key + esc(v))[j] == key[j]);
        } else {
            assert((key + esc(v))[j] == esc(v)[j - key.len()]);
        }
    }
}

/// Consuming one optional entry: the entry's line is taken when present, and
/// nothing is taken when absent, provided the following line does not carry
/// this entry's key.
proof fn lemma_p_opt_step(key: Seq<char>, o: Option<Seq<char>>, rest: Seq<Seq<char>>)
    requires
        rest.len() > 0 ==> !key.is_prefix_of(rest[0]),
    ensures
        p_opt(opt_line(key, o) + rest, key) == (o, rest),
{
    match o {
        Some(v) => {
            let ls = opt_line(key, o) + rest;
            assert(ls[0] == key + esc(v));
            lemma_key_prefix(key, esc(v));
            lemma_unesc_esc(v);
            assert(ls.skip(1) =~= rest);
        },
        None => {
            assert(opt_line(key, o) + rest =~= rest);
        },
    }
}

/// The suffix that may follow a mapping block: the end, another block, or
/// the hooks section.
spec fn block_boundary(ls: Seq<Seq<char>>) -> bool {
    ||| ls.len() == 0
    ||| "- i: "@.is_prefix_of(ls[0])
    ||| ls[0] == "hooks:"@
}

/// At a block boundary neither optional mapping entry is present.
proof fn lemma_boundary_not_opt(ls: Seq<Seq<char>>)
    requires
        block_boundary(ls),
    ensures
        !(ls.len() > 0 && "  platform: "@.is_prefix_of(ls[0])),
        !(ls.len() > 0 && "  integrity: "@.is_prefix_of(ls[0])),
{
    reveal_strlit("- i: ");
    reveal_strlit("hooks:");
    reveal_strlit("  platform: ");
    reveal_strlit("  integrity: ");
    if ls.len() > 0 {
        if "- i: "@.is_prefix_of(ls[0]) {
            assert(ls[0].subrange(0, "- i: "@.len() as int)[0] == ls[0][0]);
            assert(ls[0][0] == '-');
            lemma_not_prefix("  platform: "@, ls[0], 0);
            lemma_not_prefix("  integrity: "@, ls[0], 0);
        } else {
            lemma_not_prefix("  platform: "@, ls[0], 0);
            lemma_not_prefix("  integrity: "@, ls[0], 0);
        }
    }
}

/// Consuming the serialized author lines recovers the author list, provided
/// the following line is the mappings marker.
proof fn lemma_p_authors_ser(auth: Seq<Seq<char>>, rem: Seq<Seq<char>>)
    requires
        rem.len() > 0,
        rem[0] == "mappings:"@,
    ensures
        p_authors(author_lines(auth) + rem) == (auth, rem),
    decreases auth.len(),
{
    reveal_strlit("- ");
    reveal_strlit("mappings:");
    let ls = author_lines(auth) + rem;
    if auth.len() == 0 {
        assert(ls =~= rem);
        lemma_not_prefix("- "@, "mappings:"@, 0);
        assert(p_authors(ls).0 =~= auth);
    } else {
        assert(ls[0] == "- "@ + esc(auth[0]));
        lemma_key_prefix("- "@, esc(auth[0]));
        lemma_unesc_esc(auth[0]);
        assert(ls.skip(1) =~= author_lines(auth.skip(1)) + rem);
        lemma_p_authors_ser(auth.skip(1), rem);
        assert(seq![auth[0]] + auth.skip(1) =~= auth);
    }
}

/// Consuming the serialized mapping blocks recovers the mapping list,
/// provided what follows is the end or the hooks section.
#[verifier::rlimit(100)]
#[verifier::spinoff_prover]
proof fn lemma_p_mappings_ser(ms: Seq<MappingV>, rem: Seq<Seq<char>>)
    requires
        rem.len() == 0 || rem[0] == "hooks:"@,
    ensures
        p_mappings(mappings_lines(ms) + rem) == Some((ms, rem)),
    decreases ms.len(),
{
    reveal_strlit("- i: ");
    reveal_strlit("  o: ");
    reveal_strlit("  platform: ");
    reveal_strlit("  integrity: ");
    reveal_strlit("hooks:");
    let ls = mappings_lines(ms) + rem;
    if ms.len() == 0 {
        assert(ls =~= rem);
        if rem.len() > 0 {
            lemma_not_prefix("- i: "@, "hooks:"@, 0);
        }
        assert(p_mappings(ls) == Some((Seq::<MappingV>::empty(), rem)));
        assert(Seq::<MappingV>::empty() =~= ms);
    } else {
        let m0 = ms[0];
        let tail = mappings_lines(ms.skip(1)) + rem;
        let pl = opt_line("  platform: "@, m0.platform);
        let gl = opt_line("  integrity: "@, m0.integrity);
        assert(ls =~= seq!["- i: "@ + esc(m0.i), "  o: "@ + esc(m0.o)] + pl + gl + tail);
        assert(ls[0] == "- i: "@ + esc(m0.i));
        assert(ls[1] == "  o: "@ + esc(m0.o));
        lemma_key_prefix("- i: "@, esc(m0.i));
        lemma_key_prefix("  o: "@, esc(m0.o));
        assert(ls[0].skip("- i: "@.len() as int) == esc(m0.i)) by {
            assert(("- i: "@ + esc(m0.i)).skip("- i: "@.len() as int) =~= esc(m0.i));
        }
        assert(ls[1].skip("  o: "@.len() as int) == esc(m0.o)) by {
            assert(("  o: "@ + esc(m0.o)).skip("  o: "@.len() as int) =~= esc(m0.o));
        }
        lemma_unesc_esc(m0.i);
        lemma_unesc_esc(m0.o);
        // the boundary after this block
        assert(block_boundary(tail)) by {
            if tail.len() > 0 {
                if ms.skip(1).len() > 0 {
                    assert(tail[0] == "- i: "@ + esc(ms.skip(1)[0].i));
                    lemma_key_prefix("- i: "@, esc(ms.skip(1)[0].i));
                } else {
                    assert(tail =~= rem);
                }
            }
        }
        // the platform entry
        let after_o = ls.skip(2);
        assert(after_o =~= pl + (gl + tail));
        assert((gl + tail).len() > 0 ==> !"  platform: "@.is_prefix_of((gl + tail)[0])) by {
            if gl.len() > 0 {
                assert((gl + tail)[0] == "  integrity: "@ + esc(m0.integrity->0));
                lemma_not_prefix("  platform: "@, (gl + tail)[0], 2);
            } else {
                assert(gl + tail =~= tail);
                lemma_boundary_not_opt(tail);
            }
        }
        lemma_p_opt_step("  platform: "@, m0.platform, gl + tail);
        // the integrity entry
        assert(tail.len() > 0 ==> !"  integrity: "@.is_prefix_of(tail[0])) by {
            lemma_boundary_not_opt(tail);
        }
        lemma_p_opt_step("  integrity: "@, m0.integrity, tail);
        // the rest of the blocks
        lemma_p_mappings_ser(ms.skip(1), rem);
        assert(p_mappings(tail) == Some((ms.skip(1), rem)));
        assert(seq![m0] + ms.skip(1) =~= ms);
    }
}

/// Parsing the serialized hooks section recovers the hooks.
proof fn lemma_p_hooks_ser(h: Option<HooksV>)
    ensures
        p_hooks(hooks_lines(h)) == Some(h),
{
    reveal_strlit("hooks:");
    reveal_strlit("  pre_install: ");
    reveal_strlit("  post_install: ");
    reveal_strlit("  pre_remove: ");
    reveal_strlit("  post_remove: ");
    match h {
        None => {
        },
        Some(hh) => {
            let k1 = "  pre_install: "@;
            let k2 = "  post_install: "@;
            let k3 = "  pre_remove: "@;
            let k4 = "  post_remove: "@;
            let l1 = opt_line(k1, hh.pre_install);
            let l2 = opt_line(k2, hh.post_install);
            let l3 = opt_line(k3, hh.pre_remove);
            let l4 = opt_line(k4, hh.post_remove);
            let ls = hooks_lines(h);
            assert(ls[0] == "hooks:"@);
            assert(ls.skip(1) =~= l1 + (l2 + (l3 + (l4 + Seq::<Seq<char>>::empty()))));
            let r1 = l2 + (l3 + (l4 + Seq::<Seq<char>>::empty()));
            let r2 = l3 + (l4 + Seq::<Seq<char>>::empty());
            let r3 = l4 + Seq::<Seq<char>>::empty();
            let r4 = Seq::<Seq<char>>::empty();
            assert(r1.len() > 0 ==> !k1.is_prefix_of(r1[0])) by {
                if l2.len() > 0 {
                    assert(r1[0] == k2 + esc(hh.post_install->0));
                    lemma_not_prefix(k1, r1[0], 3);
                } else if l3.len() > 0 {
                    assert(r1 =~= r2);
                    assert(r1[0] == k3 + esc(hh.pre_remove->0));
                    lemma_not_prefix(k1, r1[0], 6);
                } else if l4.len() > 0 {
                    assert(r1 =~= r3);
                    assert(r1[0] == k4 + esc(hh.post_remove->0));
                    lemma_not_prefix(k1, r1[0], 3);
                } else {
                    assert(r1 =~= r4);
                }
            }
            lemma_p_opt_step(k1, hh.pre_install, r1);
            assert(r2.len() > 0 ==> !k2.is_prefix_of(r2[0])) by {
                if l3.len() > 0 {
                    assert(r2[0] == k3 + esc(hh.pre_remove->0));
                    lemma_not_prefix(k2, r2[0], 3);
                } else if l4.len() > 0 {
                    assert(r2 =~= r3);
                    assert(r2[0] == k4 + esc(hh.post_remove->0));
                    lemma_not_prefix(k2, r2[0], 7);
                } else {
                    assert(r2 =~= r4);
                }
            }
            lemma_p_opt_step(k2, hh.post_install, r2);
            assert(r3.len() > 0 ==> !k3.is_prefix_of(r3[0])) by {
                if l4.len() > 0 {
                    assert(r3[0] == k4 + esc(hh.post_remove->0));
                    lemma_not_prefix(k3, r3[0], 3);
                } else {
                    assert(r3 =~= r4);
                }
            }
            lemma_p_opt_step(k3, hh.pre_remove, r3);
            lemma_p_opt_step(k4, hh.post_remove, r4);
        },
    }
}

/// The round-trip law: parsing the serialized text of any manifest yields
/// exactly that manifest, and the executable pair round-trips every
/// well-formed manifest (the parser additionally enforces the data-model
/// invariant).
pub proof fn lemma_parse_serialize_roundtrip(m: ManifestV)
    ensures
        spec_parse(spec_serialize(m)) == Some(m),
        crate::manifest::spec_manifest_wf(m) ==> spec_parse_wf(spec_serialize(m)) == Some(m),
{
    reveal_strlit("id: ");
    reveal_strlit("name: ");
    reveal_strlit("version: ");
    reveal_strlit("description: ");
    reveal_strlit("authors:");
    reveal_strlit("mappings:");
    reveal_strlit("hooks:");
    reveal_strlit("- ");
    let ls = ser_lines(m);
    let head = seq![
        "id: "@ + esc(m.id),
        "name: "@ + esc(m.name),
        "version: "@ + esc(m.version),
        "description: "@ + esc(m.description),
        "authors:"@,
    ];
    let al = author_lines(m.authors);
    let ml = mappings_lines(m.mappings);
    let hl = hooks_lines(m.hooks);
    // every emitted line is free of newlines
    assert forall|k: int| 0 <= k < ls.len() implies no_nl(#[trigger] ls[k]) by {
        lemma_lits_no_nl();
        lemma_all_ser_lines_no_nl(m);
    }
    lemma_split_join(ls);
    // the header
    assert(ls[0] == "id: "@ + esc(m.id));
    assert(ls[1] == "name: "@ + esc(m.name));
    assert(ls[2] == "version: "@ + esc(m.version));
    assert(ls[3] == "description: "@ + esc(m.description));
    assert(ls[4] == "authors:"@);
    lemma_key_prefix("id: "@, esc(m.id));
    lemma_key_prefix("name: "@, esc(m.name));
    lemma_key_prefix("version: "@, esc(m.version));
    lemma_key_prefix("description: "@, esc(m.description));
    lemma_unesc_esc(m.id);
    lemma_unesc_esc(m.name);
    lemma_unesc_esc(m.version);
    lemma_unesc_esc(m.description);
    // the author list
    let rem_a = seq!["mappings:"@] + ml + hl;
    assert(ls.skip(5) =~= al + rem_a);
    assert(rem_a[0] == "mappings:"@);
    lemma_p_authors_ser(m.authors, rem_a);
    // the mappings
    assert(rem_a.skip(1) =~= ml + hl);
    assert(hl.len() == 0 || hl[0] == "hooks:"@);
    lemma_p_mappings_ser(m.mappings, hl);
    // the hooks
    lemma_p_hooks_ser(m.hooks);
}

// ---------------------------------------------------------------------------
// Executable parsing
// ---------------------------------------------------------------------------
/// Splits a document into its lines.
fn split_lines_exec(s: &str) -> (r: Vec<String>)
    ensures
        r.deep_view() == split_lines(s@),
{
    let n = s.unicode_len();
    let mut out: Vec<String> = Vec::new();
    proof {
        assert(s@.skip(0) =~= s@);
        assert(out.deep_view() + split_lines(s@) =~= split_lines(s@));
    }
    let mut i: usize = 0;
    while i < n
        invariant
            n == s@.len(),
            i <= n,
            split_lines(s@) == out.deep_view() + split_lines(s@.skip(i as int)),
        decreases n - i,
    {
        let ghost pre_out = out.deep_view();
        let mut j: usize = i;
        while j < n && s.get_char(j) != '\n'
            invariant
                n == s@.len(),
                i <= j <= n,
                forall|t: int| i <= t < j ==> #[trigger] s@[t] != '\n',
            decreases n - j,
        {
            j = j + 1;
        }
        let line = copy_range(s, i, j);
        out.push(line);
        proof {
            let t = s@.skip(i as int);
            assert forall|k: int| 0 <= k < j - i implies #[trigger] t[k] != '\n' by {
                assert(t[k] == s@[i + k]);
            }
            if j < n {
                assert(t[j - i] == s@[j as int]);
            }
            lemma_first_nl_at(t, j - i);
            assert(out.deep_view() =~= pre_out.push(s@.subrange(i as int, j as int)));
            if j < n {
                assert(t.take(j - i) =~= s@.subrange(i as int, j as int));
                assert(t.skip(j - i + 1) =~= s@.skip(j as int + 1));
                assert(split_lines(t) == seq![s@.subrange(i as int, j as int)] + split_lines(
                    s@.skip(j as int + 1),
                ));
                assert(pre_out + split_lines(t) =~= out.deep_view() + split_lines(
                    s@.skip(j as int + 1),
                ));
            } else {
                assert(t =~= s@.subrange(i as int, n as int));
                assert(first_nl(t) == t.len());
                assert(split_lines(t) == seq![t]);
                assert(s@.skip(n as int) =~= Seq::<char>::empty());
                assert(split_lines(Seq::<char>::empty()) =~= Seq::<Seq<char>>::empty());
                assert(pre_out + split_lines(t) =~= out.deep_view() + split_lines(
                    s@.skip(n as int),
                ));
            }
        }
        if j < n {
            i = j + 1;
        } else {
            i = n;
        }
    }
    proof {
        assert(s@.skip(n as int) =~= Seq::<char>::empty());
        assert(split_lines(Seq::<char>::empty()) =~= Seq::<Seq<char>>::empty());
        assert(out.deep_view() + Seq::<Seq<char>>::empty() =~= out.deep_view());
    }
    out
}

/// Strips a key prefix from a line and decodes the remaining value.
fn strip_key(line: &str, key: &str) -> (r: String)
    requires
        key@.is_prefix_of(line@),
    ensures
        r@ == unesc(line@.skip(key@.len() as int)),
{
    let klen = key.unicode_len();
    let llen = line.unicode_len();
    let rest = copy_range(line, klen, llen);
    proof {
        assert(line@.subrange(key@.len() as int, line@.len() as int) =~= line@.skip(
            key@.len() as int,
        ));
    }
    unesc_str(rest.as_str())
}

/// Checks whether a key starts a line.
fn line_has_key(line: &str, key: &str) -> (r: bool)
    ensures
        r == key@.is_prefix_of(line@),
{
    let r = has_prefix_at(line, 0, key);
    proof {
        if crate::text::spec_has_prefix_at(line@, 0, key@) {
            assert(key@.is_prefix_of(line@));
        }
        if key@.is_prefix_of(line@) {
            assert(line@.subrange(0, key@.len() as int) == key@);
        }
    }
    r
}

/// Consumes the author list items, starting at line `start`.
#[verifier::loop_isolation(false)]
fn parse_authors_at(lines: &Vec<String>, start: usize) -> (r: (Vec<String>, usize))
    requires
        start <= lines.deep_view().len(),
    ensures
        r.1 <= lines.deep_view().len(),
        p_authors(lines.deep_view().skip(start as int)) == (
            r.0.deep_view(),
            lines.deep_view().skip(r.1 as int),
        ),
{
    let ghost ls = lines.deep_view();
    let mut authors: Vec<String> = Vec::new();
    let mut i: usize = start;
    proof {
        assert(authors.deep_view() + p_authors(ls.skip(start as int)).0 =~= p_authors(
            ls.skip(start as int),
        ).0);
    }
    while i < lines.len() && line_has_key(lines[i].as_str(), "- ")
        invariant
            start <= i <= ls.len(),
            p_authors(ls.skip(start as int)).0 == authors.deep_view() + p_authors(
                ls.skip(i as int),
            ).0,
            p_authors(ls.skip(start as int)).1 == p_authors(ls.skip(i as int)).1,
        decreases ls.len() - i,
    {
        let ghost pre = authors.deep_view();
        let a = strip_key(lines[i].as_str(), "- ");
        authors.push(a);
        proof {
            let t = ls.skip(i as int);
            assert(t[0] == ls[i as int]);
            assert(t.skip(1) =~= ls.skip(i as int + 1));
            assert(p_authors(t).0 == seq![unesc(ls[i as int].skip("- "@.len() as int))]
                + p_authors(ls.skip(i as int + 1)).0);
            assert(authors.deep_view() =~= pre.push(unesc(ls[i as int].skip("- "@.len() as int))));
            assert(pre + p_authors(t).0 =~= authors.deep_view() + p_authors(
                ls.skip(i as int + 1),
            ).0);
        }
        i = i + 1;
    }
    proof {
        let t = ls.skip(i as int);
        if t.len() > 0 {
            assert(t[0] == ls[i as int]);
        }
        assert(p_authors(t) == (Seq::<Seq<char>>::empty(), t));
        assert(authors.deep_view() + Seq::<Seq<char>>::empty() =~= authors.deep_view());
    }
    (authors, i)
}

/// Consumes one optional `key: value` line, starting at line `start`.
fn parse_opt_at(lines: &Vec<String>, start: usize, key: &str) -> (r: (Option<String>, usize))
    requires
        start <= lines.deep_view().len(),
    ensures
        r.1 <= lines.deep_view().len(),
        p_opt(lines.deep_view().skip(start as int), key@) == (
            r.0.deep_view(),
            lines.deep_view().skip(r.1 as int),
        ),
{
    let ghost ls = lines.deep_view();
    if start < lines.len() && line_has_key(lines[start].as_str(), key) {
        let v = strip_key(lines[start].as_str(), key);
        proof {
            assert(ls.skip(start as int)[0] == ls[start as int]);
            assert(ls.skip(start as int).skip(1) =~= ls.skip(start as int + 1));
        }
        (Some(v), start + 1)
    } else {
        proof {
            if start < ls.len() {
                assert(ls.skip(start as int)[0] == ls[start as int]);
            }
        }
        (None, start)
    }
}

/// Consumes the mapping blocks, starting at line `start`.
#[verifier::loop_isolation(false)]
#[verifier::rlimit(30)]
fn parse_mappings_at(lines: &Vec<String>, start: usize) -> (r: Result<
    (Vec<FileMappingDefinition>, usize),
    HermError,
>)
    requires
        start <= lines.deep_view().len(),
    ensures
        (match p_mappings(lines.deep_view().skip(start as int)) {
            Some(t) => r matches Ok(p) && p.1 <= lines.deep_view().len() && t == (
                p.0.deep_view(),
                lines.deep_view().skip(p.1 as int),
            ),
            None => r matches Err(e) && e matches HermError::ManifestError(_),
        }),
{
    let ghost ls = lines.deep_view();
    let mut maps: Vec<FileMappingDefinition> = Vec::new();
    let mut i: usize = start;
    while i < lines.len() && line_has_key(lines[i].as_str(), "- i: ")
        invariant
            start <= i <= ls.len(),
            (match p_mappings(ls.skip(i as int)) {
                Some(t) => p_mappings(ls.skip(start as int)) == Some(
                    (maps.deep_view() + t.0, t.1),
                ),
                None => p_mappings(ls.skip(start as int)) is None,
            }),
        decreases ls.len() - i,
    {
        let ghost istart = i as int;
        let ghost t = ls.skip(istart);
        proof {
            assert(t[0] == ls[istart]);
        }
        let iv = strip_key(lines[i].as_str(), "- i: ");
        if !(i + 1 < lines.len() && line_has_key(lines[i + 1].as_str(), "  o: ")) {
            proof {
                if istart + 1 < ls.len() {
                    assert(t[1] == ls[istart + 1]);
                }
                assert(p_mappings(t) is None);
            }
            return Err(HermError::ManifestError(String::from_str("mapping without output")));
        }
        let ov = strip_key(lines[i + 1].as_str(), "  o: ");
        proof {
            assert(t[1] == ls[istart + 1]);
            assert(t.skip(2) =~= ls.skip(istart + 2));
        }
        let (platform, i2) = parse_opt_at(lines, i + 2, "  platform: ");
        let (integrity, i3) = parse_opt_at(lines, i2, "  integrity: ");
        i = i3;
        let ghost pre_maps = maps.deep_view();
        let md = FileMappingDefinition::new(iv, ov, platform, integrity);
        let ghost mdv = md@;
        maps.push(md);
        proof {
            assert(maps.deep_view() =~= pre_maps.push(mdv));
            match p_mappings(ls.skip(i as int)) {
                Some(rec) => {
                    assert(p_mappings(t) == Some((seq![mdv] + rec.0, rec.1)));
                    assert(pre_maps + (seq![mdv] + rec.0) =~= maps.deep_view() + rec.0);
                },
                None => {
                    assert(p_mappings(t) is None);
                },
            }
        }
    }
    proof {
        let t = ls.skip(i as int);
        if t.len() > 0 {
            assert(t[0] == ls[i as int]);
        }
        assert(p_mappings(t) == Some((Seq::<MappingV>::empty(), t)));
        assert(maps.deep_view() + Seq::<MappingV>::empty() =~= maps.deep_view());
    }
    Ok((maps, i))
}

/// Parses the optional hooks section, which must end the document, starting
/// at line `start`.
fn parse_hooks_at(lines: &Vec<String>, start: usize) -> (r: Result<Option<Hooks>, HermError>)
    requires
        start <= lines.deep_view().len(),
    ensures
        (match p_hooks(lines.deep_view().skip(start as int)) {
            Some(hv) => r matches Ok(h) && hv == crate::manifest::spec_hooks_view(&h),
            None => r matches Err(e) && e matches HermError::ManifestError(_),
        }),
{
    let ghost ls = lines.deep_view();
    if start == lines.len() {
        proof {
            assert(ls.skip(start as int).len() == 0);
        }
        return Ok(None);
    }
    proof {
        assert(ls.skip(start as int)[0] == ls[start as int]);
    }
    if !str_eq(lines[start].as_str(), "hooks:") {
        return Err(HermError::ManifestError(String::from_str("unexpected line")));
    }
    proof {
        assert(ls.skip(start as int).skip(1) =~= ls.skip(start as int + 1));
    }
    let (pre_install, j1) = parse_opt_at(lines, start + 1, "  pre_install: ");
    let (post_install, j2) = parse_opt_at(lines, j1, "  post_install: ");
    let (pre_remove, j3) = parse_opt_at(lines, j2, "  pre_remove: ");
    let (post_remove, j4) = parse_opt_at(lines, j3, "  post_remove: ");
    if j4 != lines.len() {
        proof {
            assert(ls.skip(j4 as int).len() > 0);
        }
        return Err(HermError::ManifestError(String::from_str("text after hooks")));
    }
    proof {
        assert(ls.skip(j4 as int).len() == 0);
    }
    Ok(Some(Hooks { pre_install, post_install, pre_remove, post_remove }))
}

/// Reads a manifest from its text document.  Exactly the documents produced
/// by `serialize_manifest` from a well-formed manifest (and hand-written
/// documents of the same shape) are accepted; a structurally broken
/// document and one violating the manifest invariant are both a
/// `ManifestError`.
#[verifier::rlimit(30)]
pub fn parse_manifest(s: &str) -> (r: Result<Manifest, HermError>)
    ensures
        (match spec_parse_wf(s@) {
            Some(mv) => r matches Ok(man) && man@ == mv,
            None => r matches Err(e) && e matches HermError::ManifestError(_),
        }),
{
    let lines = split_lines_exec(s);
    let ghost ls = lines.deep_view();
    if lines.len() < 5 {
        return Err(HermError::ManifestError(String::from_str("too few lines")));
    }
    if !line_has_key(lines[0].as_str(), "id: ") {
        return Err(HermError::ManifestError(String::from_str("missing id")));
    }
    if !line_has_key(lines[1].as_str(), "name: ") {
        return Err(HermError::ManifestError(String::from_str("missing name")));
    }
    if !line_has_key(lines[2].as_str(), "version: ") {
        return Err(HermError::ManifestError(String::from_str("missing version")));
    }
    if !line_has_key(lines[3].as_str(), "description: ") {
        return Err(HermError::ManifestError(String::from_str("missing description")));
    }
    if !str_eq(lines[4].as_str(), "authors:") {
        return Err(HermError::ManifestError(String::from_str("missing authors")));
    }
    let id = strip_key(lines[0].as_str(), "id: ");
    let name = strip_key(lines[1].as_str(), "name: ");
    let version = strip_key(lines[2].as_str(), "version: ");
    let description = strip_key(lines[3].as_str(), "description: ");
    let (authors, i1) = parse_authors_at(&lines, 5);
    if !(i1 < lines.len() && str_eq(lines[i1].as_str(), "mappings:")) {
        proof {
            if i1 < ls.len() {
                assert(ls.skip(i1 as int)[0] == ls[i1 as int]);
            }
        }
        return Err(HermError::ManifestError(String::from_str("missing mappings")));
    }
    proof {
        assert(ls.skip(i1 as int)[0] == ls[i1 as int]);
        assert(ls.skip(i1 as int).skip(1) =~= ls.skip(i1 as int + 1));
    }
    let parsed_maps = parse_mappings_at(&lines, i1 + 1);
    let (maps, i2) = match parsed_maps {
        Ok(p) => p,
        Err(e) => {
            return Err(e);
        },
    };
    let parsed_hooks = parse_hooks_at(&lines, i2);
    let hooks = match parsed_hooks {
        Ok(h) => h,
        Err(e) => {
            return Err(e);
        },
    };
    let man = Manifest { id, name, version, description, authors, mappings: maps, hooks };
    proof {
        let mv = spec_parse(s@)->0;
        assert(man@.mappings =~= maps.deep_view());
        assert(man@ == mv);
    }
    if !man.is_well_formed() {
        return Err(HermError::ManifestError(String::from_str("the manifest is not well formed")));
    }
    Ok(man)
}

/// Every line of a serialized manifest is free of newlines.
proof fn lemma_all_ser_lines_no_nl(m: ManifestV)
    ensures
        forall|k: int| 0 <= k < ser_lines(m).len() ==> no_nl(#[trigger] ser_lines(m)[k]),
{
    lemma_lits_no_nl();
    let ls = ser_lines(m);
    let al = author_lines(m.authors);
    let ml = mappings_lines(m.mappings);
    let hl = hooks_lines(m.hooks);
    lemma_line_no_nl("id: "@, m.id);
    lemma_line_no_nl("name: "@, m.name);
    lemma_line_no_nl("version: "@, m.version);
    lemma_line_no_nl("description: "@, m.description);
    assert forall|k: int| 0 <= k < al.len() implies no_nl(#[trigger] al[k]) by {
        assert(al[k] == "- "@ + esc(m.authors[k]));
        lemma_line_no_nl("- "@, m.authors[k]);
    }
    lemma_mappings_lines_no_nl(m.mappings);
    assert forall|k: int| 0 <= k < hl.len() implies no_nl(#[trigger] hl[k]) by {
        if m.hooks is Some {
            let hh = m.hooks->0;
            if hh.pre_install is Some {
                lemma_line_no_nl("  pre_install: "@, hh.pre_install->0);
            }
            if hh.post_install is Some {
                lemma_line_no_nl("  post_install: "@, hh.post_install->0);
            }
            if hh.pre_remove is Some {
                lemma_line_no_nl("  pre_remove: "@, hh.pre_remove->0);
            }
            if hh.post_remove is Some {
                lemma_line_no_nl("  post_remove: "@, hh.post_remove->0);
            }
        }
    }
    assert forall|k: int| 0 <= k < ls.len() implies no_nl(#[trigger] ls[k]) by {
        if k < 5 {
        } else if k < 5 + al.len() {
            assert(ls[k] == al[k - 5]);
        } else if k == 5 + al.len() {
            assert(ls[k] == "mappings:"@);
        } else if k < 6 + al.len() + ml.len() {
            assert(ls[k] == ml[k - 6 - al.len()]);
        } else {
            assert(ls[k] == hl[k - 6 - al.len() - ml.len()]);
        }
    }
}

// ---------------------------------------------------------------------------
// Executable serialization
// ---------------------------------------------------------------------------
/// Appending one line to a joined document.
proof fn lemma_join_snoc(a: Seq<Seq<char>>, l: Seq<char>)
    ensures
        join_lines(a.push(l)) == join_lines(a) + l + seq!['\n'],
{
    lemma_join_append(a, seq![l]);
    assert(a.push(l) =~= a + seq![l]);
    assert(join_lines(seq![l]) =~= l + seq!['\n']) by {
        assert(seq![l].skip(1) =~= Seq::<Seq<char>>::empty());
        assert(join_lines(Seq::<Seq<char>>::empty()) =~= Seq::<char>::empty());
        assert(l + seq!['\n'] + Seq::<char>::empty() =~= l + seq!['\n']);
    }
    assert(join_lines(a) + (l + seq!['\n']) =~= join_lines(a) + l + seq!['\n']);
}

/// The mapping-block lines distribute over concatenation.
proof fn lemma_mappings_lines_append(a: Seq<MappingV>, b: Seq<MappingV>)
    ensures
        mappings_lines(a + b) == mappings_lines(a) + mappings_lines(b),
    decreases a.len(),
{
    if a.len() == 0 {
        assert(a + b =~= b);
        assert(mappings_lines(a) + mappings_lines(b) =~= mappings_lines(b));
    } else {
        assert((a + b).skip(1) =~= a.skip(1) + b);
        lemma_mappings_lines_append(a.skip(1), b);
        assert((a + b)[0] == a[0]);
        assert(mapping_lines(a[0]) + (mappings_lines(a.skip(1)) + mappings_lines(b)) =~= (
        mapping_lines(a[0]) + mappings_lines(a.skip(1))) + mappings_lines(b));
    }
}

/// Escapes a value so it fits on one line.
fn esc_str(s: &str) -> (r: String)
    ensures
        r@ == esc(s@),
{
    let n = s.unicode_len();
    let mut out = String::new();
    let mut k: usize = 0;
    while k < n
        invariant
            n == s@.len(),
            k <= n,
            out@ == esc(s@.take(k as int)),
        decreases n - k,
    {
        let c = s.get_char(k);
        let ghost pre = out@;
        if c == '\\' {
            push_char(&mut out, '\\');
            push_char(&mut out, '\\');
            proof {
                assert(out@ =~= pre + seq!['\\', '\\']);
            }
        } else if c == '\n' {
            push_char(&mut out, '\\');
            push_char(&mut out, 'n');
            proof {
                assert(out@ =~= pre + seq!['\\', 'n']);
            }
        } else {
            push_char(&mut out, c);
            proof {
                assert(out@ =~= pre + seq![c]);
            }
        }
        proof {
            lemma_esc_append(s@.take(k as int), seq![c]);
            assert(s@.take(k as int) + seq![c] =~= s@.take(k as int + 1));
            assert(seq![c].skip(1) =~= Seq::<char>::empty());
            assert(esc(Seq::<char>::empty()) =~= Seq::<char>::empty());
            if c == '\\' {
                assert(esc(seq![c]) =~= seq!['\\', '\\']);
            } else if c == '\n' {
                assert(esc(seq![c]) =~= seq!['\\', 'n']);
            } else {
                assert(esc(seq![c]) =~= seq![c]);
            }
        }
        k = k + 1;
    }
    proof {
        assert(s@.take(n as int) =~= s@);
    }
    out
}

/// Decodes an escaped value.
fn unesc_str(s: &str) -> (r: String)
    ensures
        r@ == unesc(s@),
{
    let n = s.unicode_len();
    let mut out = String::new();
    proof {
        assert(s@.skip(0) =~= s@);
        assert(Seq::<char>::empty() + unesc(s@) =~= unesc(s@));
    }
    let mut k: usize = 0;
    while k < n
        invariant
            n == s@.len(),
            k <= n,
            unesc(s@) == out@ + unesc(s@.skip(k as int)),
        decreases n - k,
    {
        let c = s.get_char(k);
        let ghost pre = out@;
        let ghost t = s@.skip(k as int);
        if c == '\\' && k + 1 < n {
            let c2 = s.get_char(k + 1);
            let d = if c2 == 'n' {
                '\n'
            } else {
                c2
            };
            push_char(&mut out, d);
            proof {
                assert(t[0] == c);
                assert(t[1] == c2);
                assert(t.len() >= 2);
                assert(t.skip(2) =~= s@.skip(k as int + 2));
                assert(unesc(t) == seq![d] + unesc(s@.skip(k as int + 2)));
                assert(pre + (seq![d] + unesc(s@.skip(k as int + 2))) =~= (pre + seq![d]) + unesc(
                    s@.skip(k as int + 2),
                ));
            }
            k = k + 2;
        } else {
            push_char(&mut out, c);
            proof {
                assert(t[0] == c);
                assert(t.len() >= 1);
                if t[0] == '\\' && t.len() >= 2 {
                    assert(false);
                }
                assert(t.skip(1) =~= s@.skip(k as int + 1));
                assert(unesc(t) == seq![c] + unesc(s@.skip(k as int + 1)));
                assert(pre + (seq![c] + unesc(s@.skip(k as int + 1))) =~= (pre + seq![c]) + unesc(
                    s@.skip(k as int + 1),
                ));
            }
            k = k + 1;
        }
    }
    proof {
        assert(s@.skip(n as int) =~= Seq::<char>::empty());
        assert(out@ + unesc(Seq::<char>::empty()) =~= out@);
    }
    out
}

/// Appends one `key: value` line to the output.
fn emit_line(out: &mut String, key: &str, v: &str)
    ensures
        final(out)@ == old(out)@ + (key@ + esc(v@)) + seq!['\n'],
{
    out.append(key);
    let e = esc_str(v);
    out.append(e.as_str());
    push_char(out, '\n');
    proof {
        assert(old(out)@ + key@ + esc(v@) + seq!['\n'] =~= old(out)@ + (key@ + esc(v@)) + seq![
            '\n',
        ]);
        assert((old(out)@ + key@ + esc(v@)).push('\n') =~= old(out)@ + key@ + esc(v@) + seq!['\n']);
    }
}

/// Appends one bare marker line to the output.
fn emit_marker(out: &mut String, line: &str)
    ensures
        final(out)@ == old(out)@ + line@ + seq!['\n'],
{
    out.append(line);
    push_char(out, '\n');
    proof {
        assert((old(out)@ + line@).push('\n') =~= old(out)@ + line@ + seq!['\n']);
    }
}

/// Writes a manifest as its canonical text document.  Serialization is the
/// exact inverse of parsing: see `lemma_parse_serialize_roundtrip`.
pub fn serialize_manifest(m: &Manifest) -> (r: String)
    ensures
        r@ == spec_serialize(m@),
{
    let mut out = String::new();
    let ghost mut lines: Seq<Seq<char>> = seq![];
    proof {
        assert(out@ =~= join_lines(lines));
    }
    emit_line(&mut out, "id: ", m.id.as_str());
    proof {
        lemma_join_snoc(lines, "id: "@ + esc(m@.id));
        lines = lines.push("id: "@ + esc(m@.id));
        assert(out@ =~= join_lines(lines));
    }
    emit_line(&mut out, "name: ", m.name.as_str());
    proof {
        lemma_join_snoc(lines, "name: "@ + esc(m@.name));
        lines = lines.push("name: "@ + esc(m@.name));
        assert(out@ =~= join_lines(lines));
    }
    emit_line(&mut out, "version: ", m.version.as_str());
    proof {
        lemma_join_snoc(lines, "version: "@ + esc(m@.version));
        lines = lines.push("version: "@ + esc(m@.version));
        assert(out@ =~= join_lines(lines));
    }
    emit_line(&mut out, "description: ", m.description.as_str());
    proof {
        lemma_join_snoc(lines, "description: "@ + esc(m@.description));
        lines = lines.push("description: "@ + esc(m@.description));
        assert(out@ =~= join_lines(lines));
    }
    emit_marker(&mut out, "authors:");
    proof {
        lemma_join_snoc(lines, "authors:"@);
        lines = lines.push("authors:"@);
        assert(out@ =~= join_lines(lines));
        assert(lines =~= seq![
            "id: "@ + esc(m@.id),
            "name: "@ + esc(m@.name),
            "version: "@ + esc(m@.version),
            "description: "@ + esc(m@.description),
            "authors:"@,
        ]);
    }
    let ghost head = lines;
    let mut k: usize = 0;
    while k < m.authors.len()
        invariant
            k <= m.authors.len(),
            out@ == join_lines(head + author_lines(m@.authors.take(k as int))),
        decreases m.authors.len() - k,
    {
        let ghost before = head + author_lines(m@.authors.take(k as int));
        emit_line(&mut out, "- ", m.authors[k].as_str());
        proof {
            lemma_join_snoc(before, "- "@ + esc(m@.authors[k as int]));
            assert(before.push("- "@ + esc(m@.authors[k as int])) =~= head + author_lines(
                m@.authors.take(k as int + 1),
            ));
        }
        k = k + 1;
    }
    proof {
        assert(m@.authors.take(m.authors@.len() as int) =~= m@.authors);
        lines = head + author_lines(m@.authors);
    }
    emit_marker(&mut out, "mappings:");
    proof {
        lemma_join_snoc(lines, "mappings:"@);
        lines = lines.push("mappings:"@);
    }
    let ghost mid = lines;
    let mut k: usize = 0;
    while k < m.mappings.len()
        invariant
            k <= m.mappings.len(),
            mid == lines,
            out@ == join_lines(mid + mappings_lines(m@.mappings.take(k as int))),
        decreases m.mappings.len() - k,
    {
        let ghost before = mid + mappings_lines(m@.mappings.take(k as int));
        let ghost mv = m@.mappings[k as int];
        let md = &m.mappings[k];
        let ghost l0 = before;
        emit_line(&mut out, "- i: ", md.i.as_str());
        proof {
            lemma_join_snoc(l0, "- i: "@ + esc(mv.i));
        }
        let ghost l1 = l0.push("- i: "@ + esc(mv.i));
        emit_line(&mut out, "  o: ", md.o.as_str());
        proof {
            lemma_join_snoc(l1, "  o: "@ + esc(mv.o));
        }
        let ghost mut l2 = l1.push("  o: "@ + esc(mv.o));
        match &md.platform {
            Some(p) => {
                emit_line(&mut out, "  platform: ", p.as_str());
                proof {
                    lemma_join_snoc(l2, "  platform: "@ + esc(p@));
                    l2 = l2.push("  platform: "@ + esc(p@));
                }
            },
            None => {
            },
        }
        match &md.integrity {
            Some(g) => {
                emit_line(&mut out, "  integrity: ", g.as_str());
                proof {
                    lemma_join_snoc(l2, "  integrity: "@ + esc(g@));
                    l2 = l2.push("  integrity: "@ + esc(g@));
                }
            },
            None => {
            },
        }
        proof {
            assert(l2 =~= before + mapping_lines(mv));
            lemma_mappings_lines_append(m@.mappings.take(k as int), seq![mv]);
            assert(m@.mappings.take(k as int) + seq![mv] =~= m@.mappings.take(k as int + 1));
            assert(mappings_lines(seq![mv]) =~= mapping_lines(mv)) by {
                assert(seq![mv].skip(1) =~= Seq::<MappingV>::empty());
                assert(mappings_lines(Seq::<MappingV>::empty()) =~= Seq::<Seq<char>>::empty());
            }
            assert(before + mapping_lines(mv) =~= mid + mappings_lines(
                m@.mappings.take(k as int + 1),
            ));
        }
        k = k + 1;
    }
    proof {
        assert(m@.mappings.take(m.mappings@.len() as int) =~= m@.mappings);
        lines = mid + mappings_lines(m@.mappings);
    }
    match &m.hooks {
        Some(h) => {
            emit_marker(&mut out, "hooks:");
            proof {
                lemma_join_snoc(lines, "hooks:"@);
                lines = lines.push("hooks:"@);
            }
            match &h.pre_install {
                Some(v) => {
                    emit_line(&mut out, "  pre_install: ", v.as_str());
                    proof {
                        lemma_join_snoc(lines, "  pre_install: "@ + esc(v@));
                        lines = lines.push("  pre_install: "@ + esc(v@));
                    }
                },
                None => {
                },
            }
            match &h.post_install {
                Some(v) => {
                    emit_line(&mut out, "  post_install: ", v.as_str());
                    proof {
                        lemma_join_snoc(lines, "  post_install: "@ + esc(v@));
                        lines = lines.push("  post_install: "@ + esc(v@));
                    }
                },
                None => {
                },
            }
            match &h.pre_remove {
                Some(v) => {
                    emit_line(&mut out, "  pre_remove: ", v.as_str());
                    proof {
                        lemma_join_snoc(lines, "  pre_remove: "@ + esc(v@));
                        lines = lines.push("  pre_remove: "@ + esc(v@));
                    }
                },
                None => {
                },
            }
            match &h.post_remove {
                Some(v) => {
                    emit_line(&mut out, "  post_remove: ", v.as_str());
                    proof {
                        lemma_join_snoc(lines, "  post_remove: "@ + esc(v@));
                        lines = lines.push("  post_remove: "@ + esc(v@));
                    }
                },
                None => {
                },
            }
        },
        None => {
        },
    }
    proof {
        assert(lines =~= ser_lines(m@));
    }
    out
}

/// Every line of the serialized mapping blocks is free of newlines.
proof fn lemma_mappings_lines_no_nl(ms: Seq<MappingV>)
    ensures
        forall|k: int| 0 <= k < mappings_lines(ms).len() ==> no_nl(#[trigger] mappings_lines(ms)[k]),
    decreases ms.len(),
{
    lemma_lits_no_nl();
    if ms.len() == 0 {
    } else {
        let m0 = ms[0];
        let bl = mapping_lines(m0);
        lemma_mappings_lines_no_nl(ms.skip(1));
        lemma_line_no_nl("- i: "@, m0.i);
        lemma_line_no_nl("  o: "@, m0.o);
        if m0.platform is Some {
            lemma_line_no_nl("  platform: "@, m0.platform->0);
        }
        if m0.integrity is Some {
            lemma_line_no_nl("  integrity: "@, m0.integrity->0);
        }
        assert forall|k: int| 0 <= k < bl.len() implies no_nl(#[trigger] bl[k]) by {
            if k == 0 {
                assert(bl[k] == "- i: "@ + esc(m0.i));
            } else if k == 1 {
                assert(bl[k] == "  o: "@ + esc(m0.o));
            } else if k == 2 && m0.platform is Some {
                assert(bl[k] == "  platform: "@ + esc(m0.platform->0));
            } else {
                assert(bl[k] == "  integrity: "@ + esc(m0.integrity->0));
            }
        }
        assert forall|k: int| 0 <= k < mappings_lines(ms).len() implies no_nl(
            #[trigger] mappings_lines(ms)[k],
        ) by {
            if k < bl.len() {
                assert(mappings_lines(ms)[k] == bl[k]);
            } else {
                assert(mappings_lines(ms)[k] == mappings_lines(ms.skip(1))[k - bl.len()]);
            }
        }
    }
}

} // verus!
