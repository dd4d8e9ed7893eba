use vstd::prelude::*;

use crate::errors::HermError;
use crate::text::{has_prefix_at, push_char};

verus! {

// ---------------------------------------------------------------------------
// Destination path templates
//
// A destination template may embed the single recognized variable
// `{{HOME}}`, which is replaced by the caller-supplied home directory.  Any
// other `{{` opener is an unresolvable template.
// ---------------------------------------------------------------------------
/// The rendered form of a destination template, or `None` when the template
/// holds an unrecognized variable.
pub open spec fn spec_render(o: Seq<char>, home: Seq<char>) -> Option<Seq<char>>
    decreases o.len(),
{
    if o.len() == 0 {
        Some(Seq::empty())
    } else if o.len() >= 8 && "{{HOME}}"@.is_prefix_of(o) {
        match spec_render(o.skip(8), home) {
            Some(rest) => Some(home + rest),
            None => None,
        }
    } else if o[0] == '{' && o.len() >= 2 && o[1] == '{' {
        None
    } else {
        match spec_render(o.skip(1), home) {
            Some(rest) => Some(seq![o[0]] + rest),
            None => None,
        }
    }
}

/// Substitutes `{{HOME}}` in a destination template.
pub fn render_template(o: &str, home: &str) -> (r: Result<String, HermError>)
    ensures
        (match spec_render(o@, home@) {
            Some(v) => r matches Ok(s) && s@ == v,
            None => r matches Err(e) && e matches HermError::TemplateError(_),
        }),
{
    proof {
        reveal_strlit("{{HOME}}");
    }
    let n = o.unicode_len();
    let mut out = String::new();
    let mut i: usize = 0;
    proof {
        assert(o@.skip(0) =~= o@);
    }
    while i < n
        invariant
            n == o@.len(),
            i <= n,
            "{{HOME}}"@.len() == 8,
            (match spec_render(o@.skip(i as int), home@) {
                Some(v) => spec_render(o@, home@) == Some(out@ + v),
                None => spec_render(o@, home@) is None,
            }),
        decreases n - i,
    {
        let ghost t = o@.skip(i as int);
        if has_prefix_at(o, i, "{{HOME}}") {
            proof {
                assert(t.subrange(0, 8) =~= o@.subrange(i as int, i as int + 8));
                assert("{{HOME}}"@.is_prefix_of(t));
                assert(t.skip(8) =~= o@.skip(i as int + 8));
            }
            let ghost pre = out@;
            out.append(home);
            proof {
                match spec_render(o@.skip(i as int + 8), home@) {
                    Some(rest) => {
                        assert(spec_render(t, home@) == Some(home@ + rest));
                        assert(pre + (home@ + rest) =~= out@ + rest);
                    },
                    None => {
                    },
                }
            }
            i = i + 8;
        } else {
            let c = o.get_char(i);
            proof {
                assert(t[0] == c);
                if t.len() >= 8 && "{{HOME}}"@.is_prefix_of(t) {
                    assert(t.subrange(0, 8)[0] == t[0]);
                    assert(o@.subrange(i as int, i as int + 8) =~= t.subrange(0, 8));
                    assert(false);
                }
            }
            if c == '{' && i + 1 < n && o.get_char(i + 1) == '{' {
                proof {
                    assert(t[1] == o@[i as int + 1]);
                    assert(spec_render(t, home@) is None);
                }
                return Err(
                    HermError::TemplateError(
                        String::from_str("unrecognized template variable in destination"),
                    ),
                );
            }
            proof {
                if t[0] == '{' && t.len() >= 2 && t[1] == '{' {
                    assert(o@[i as int + 1] == t[1]);
                    assert(false);
                }
            }
            let ghost pre = out@;
            push_char(&mut out, c);
            proof {
                assert(t.skip(1) =~= o@.skip(i as int + 1));
                match spec_render(o@.skip(i as int + 1), home@) {
                    Some(rest) => {
                        assert(spec_render(t, home@) == Some(seq![c] + rest));
                        assert(pre + (seq![c] + rest) =~= out@ + rest);
                    },
                    None => {
                    },
                }
            }
            i = i + 1;
        }
    }
    proof {
        assert(o@.skip(n as int) =~= Seq::<char>::empty());
        assert(spec_render(Seq::<char>::empty(), home@) == Some(Seq::<char>::empty()));
        assert(out@ + Seq::<char>::empty() =~= out@);
    }
    Ok(out)
}

/// Joins a directory path and a relative path with a separator.
pub open spec fn spec_join_path(a: Seq<char>, b: Seq<char>) -> Seq<char> {
    a + seq!['/'] + b
}

/// Joins a directory path and a relative path with a separator.
pub fn join_path(a: &str, b: &str) -> (r: String)
    ensures
        r@ == spec_join_path(a@, b@),
{
    let mut out = a.to_owned();
    push_char(&mut out, '/');
    out.append(b);
    proof {
        assert(a@.push('/') =~= a@ + seq!['/']);
    }
    out
}

} // verus!
