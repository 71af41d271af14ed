//! Value transforms applied to attribute values extracted from JSON
//! input (`@.field | transform` expressions), and the parsing of such
//! expressions into a field path and an optional transform name.

use vstd::prelude::*;

use crate::text::str_eq;
use crate::text::trim_spec;
use crate::text::trim_str;

verus! {

/// What `str::to_lowercase` returns: a function of the characters alone.
pub uninterp spec fn lower_of(s: Seq<char>) -> Seq<char>;

/// What `str::to_uppercase` returns: a function of the characters alone.
pub uninterp spec fn upper_of(s: Seq<char>) -> Seq<char>;

/// What `Path::file_name` returns for a path string: its final
/// component, if any; a function of the string alone on the platform
/// the crate is built for.
pub uninterp spec fn file_name_of(s: Seq<char>) -> Option<Seq<char>>;

/// Relies on `str::to_lowercase`: the Unicode lowercase mapping of the
/// characters, nothing else.
#[verifier::external_body]
fn lowercase(s: &str) -> (r: String)
    ensures
        r@ == lower_of(s@),
{
    s.to_lowercase()
}

/// Relies on `str::to_uppercase`: the Unicode uppercase mapping of the
/// characters, nothing else.
#[verifier::external_body]
fn uppercase(s: &str) -> (r: String)
    ensures
        r@ == upper_of(s@),
{
    s.to_uppercase()
}

/// Relies on `std::path::Path::file_name`: the final path component, or
/// nothing for paths that end in `..` or a root.  The component of a
/// path built from a `&str` is valid Unicode, so `to_str` cannot fail.
#[verifier::external_body]
fn path_file_name(s: &str) -> (r: Option<String>)
    ensures
        r is Some <==> file_name_of(s@) is Some,
        r matches Some(f) ==> file_name_of(s@) == Some(f@),
{
    std::path::Path::new(s).file_name().and_then(|o| o.to_str()).map(|t| String::from(t))
}

/// The result of one named transform: `filename` keeps the final path
/// component (or the value itself where there is none), `lowercase` and
/// `uppercase` map case, and an unknown name leaves the value as it is.
pub open spec fn transform_spec(value: Seq<char>, transform: Seq<char>) -> Seq<char> {
    if transform == "filename"@ {
        match file_name_of(value) {
            Some(f) => f,
            None => value,
        }
    } else if transform == "lowercase"@ {
        lower_of(value)
    } else if transform == "uppercase"@ {
        upper_of(value)
    } else {
        value
    }
}

/// Apply one named transform to a value.
pub fn apply_transform(value: &str, transform: &str) -> (r: String)
    ensures
        r@ == transform_spec(value@, transform@),
{
    if str_eq(transform, "filename") {
        match path_file_name(value) {
            Some(f) => f,
            None => String::from_str(value),
        }
    } else if str_eq(transform, "lowercase") {
        lowercase(value)
    } else if str_eq(transform, "uppercase") {
        uppercase(value)
    } else {
        String::from_str(value)
    }
}

/// First index of `.` at or after `j`, or the length.
pub open spec fn first_dot(s: Seq<char>, j: int) -> int
    decreases s.len() - j,
{
    if j < 0 || j >= s.len() {
        s.len() as int
    } else if s[j] == '.' {
        j
    } else {
        first_dot(s, j + 1)
    }
}

/// A scan that stops at the first `.` finds `first_dot`.
proof fn lemma_first_dot_at(s: Seq<char>, start: int, m: int)
    requires
        0 <= start <= m <= s.len(),
        forall|k: int| start <= k < m ==> s[k] != '.',
        m == s.len() || s[m] == '.',
    ensures
        first_dot(s, start) == m,
    decreases m - start,
{
    if start < m {
        lemma_first_dot_at(s, start + 1, m);
    }
}

/// The segments of a path expression split on `.`: always at least one
/// segment, and empty segments are kept.
pub open spec fn split_dots(s: Seq<char>) -> Seq<Seq<char>>
    decreases s.len(),
{
    let i = first_dot(s, 0);
    if 0 <= i && i < s.len() {
        seq![s.take(i)] + split_dots(s.skip(i + 1))
    } else {
        seq![s]
    }
}

/// First position where ` | ` occurs at or after `j`, or the length.
pub open spec fn first_pipe(s: Seq<char>, j: int) -> int
    decreases s.len() - j,
{
    if j < 0 || j + 3 > s.len() {
        s.len() as int
    } else if s[j] == ' ' && s[j + 1] == '|' && s[j + 2] == ' ' {
        j
    } else {
        first_pipe(s, j + 1)
    }
}

/// A scan that stops at the first ` | ` finds `first_pipe`.
proof fn lemma_first_pipe_at(s: Seq<char>, start: int, m: int)
    requires
        0 <= start <= m,
        m == s.len() || m + 3 <= s.len(),
        forall|k: int|
            start <= k && k + 3 <= s.len() && k < m ==> !((#[trigger] s[k]) == ' ' && s[k + 1]
                == '|' && s[k + 2] == ' '),
        m == s.len() || (s[m] == ' ' && s[m + 1] == '|' && s[m + 2] == ' '),
    ensures
        first_pipe(s, start) == m,
    decreases m - start,
{
    if start < m {
        lemma_first_pipe_at(s, start + 1, m);
    } else {
        if m < s.len() {
        }
    }
}

/// The parsed form of a `@.field.path | transform` expression: the
/// field path segments and the trimmed transform name, if the
/// expression starts with `@.`.
pub open spec fn value_expr_spec(expr: Seq<char>) -> Option<(Seq<Seq<char>>, Option<Seq<char>>)> {
    if !(expr.len() >= 2 && expr[0] == '@' && expr[1] == '.') {
        None
    } else {
        let rest = expr.skip(2);
        let p = first_pipe(rest, 0);
        if p == rest.len() {
            Some((split_dots(rest), None))
        } else {
            Some((split_dots(rest.take(p)), Some(trim_spec(rest.skip(p + 3)))))
        }
    }
}

/// View of a vector of strings.
pub open spec fn parts_view(s: Seq<String>) -> Seq<Seq<char>> {
    Seq::new(s.len(), |i: int| s[i]@)
}

/// Split a path on `.` into its segments.
fn split_path(path: &str) -> (parts: Vec<String>)
    ensures
        parts_view(parts@) == split_dots(path@),
{
    let n = path.unicode_len();
    let mut parts: Vec<String> = Vec::new();
    let mut pos: usize = 0;
    let ghost whole = path@;
    proof {
        assert(whole.skip(0) =~= whole);
        assert(parts_view(parts@) =~= Seq::<Seq<char>>::empty());
    }
    loop
        invariant
            0 <= pos <= n,
            n == path@.len(),
            whole == path@,
            split_dots(whole) == parts_view(parts@) + split_dots(whole.skip(pos as int)),
            pos > 0 ==> whole[pos - 1] == '.',
        decreases n - pos,
    {
        let mut e = pos;
        while e < n && path.get_char(e) != '.'
            invariant
                pos <= e <= n,
                n == path@.len(),
                forall|k: int| pos <= k < e ==> path@[k] != '.',
            decreases n - e,
        {
            e = e + 1;
        }
        let seg = path.substring_char(pos, e);
        let ghost tail = whole.skip(pos as int);
        proof {
            assert forall|k: int| 0 <= k < e - pos implies tail[k] != '.' by {
                assert(tail[k] == whole[pos + k]);
            }
            if e < n {
                assert(tail[e - pos] == whole[e as int]);
            }
            lemma_first_dot_at(tail, 0, e - pos);
            assert(seg@ =~= tail.take(e - pos));
        }
        let ghost parts_pre = parts_view(parts@);
        parts.push(String::from_str(seg));
        proof {
            assert(parts_view(parts@) =~= parts_pre.push(seg@));
        }
        if e < n {
            proof {
                assert(tail.skip(e - pos + 1) =~= whole.skip(e + 1));
                assert(split_dots(tail) == seq![seg@] + split_dots(whole.skip(e + 1)));
                assert(parts_pre + split_dots(tail) =~= parts_view(parts@) + split_dots(
                    whole.skip(e + 1),
                ));
            }
            pos = e + 1;
        } else {
            proof {
                assert(first_dot(tail, 0) == tail.len());
                assert(split_dots(tail) =~= seq![tail]);
                assert(seg@ =~= tail);
                assert(parts_pre + split_dots(tail) =~= parts_view(parts@));
            }
            return parts;
        }
    }
}

/// Parse a `@.field.path | transform` expression into its path segments
/// and optional transform name.  An expression that does not start with
/// `@.` is not a path expression.
pub fn parse_value_expr(expr: &str) -> (r: Option<(Vec<String>, Option<String>)>)
    ensures
        match r {
            Some(pt) => value_expr_spec(expr@) matches Some(spt) && parts_view(pt.0@) == spt.0
                && (match (pt.1, spt.1) {
                (Some(t), Some(ts)) => t@ == ts,
                (None, None) => true,
                _ => false,
            }),
            None => value_expr_spec(expr@) is None,
        },
{
    let n = expr.unicode_len();
    if n < 2 || expr.get_char(0) != '@' || expr.get_char(1) != '.' {
        return None;
    }
    let rest = expr.substring_char(2, n);
    let rn = rest.unicode_len();
    proof {
        assert(rest@ =~= expr@.skip(2));
    }
    // find the first ` | ` separator
    let mut p: usize = 0;
    loop
        invariant
            0 <= p <= rn,
            rn == rest@.len(),
            rest@ == expr@.skip(2),
            expr@.len() >= 2,
            expr@[0] == '@',
            expr@[1] == '.',
            forall|k: int|
                0 <= k && k + 3 <= rn && k < p ==> !((#[trigger] rest@[k]) == ' ' && rest@[k + 1]
                    == '|' && rest@[k + 2] == ' '),
        decreases rn - p,
    {
        if rn < 3 || p > rn - 3 {
            proof {
                lemma_first_pipe_at(rest@, 0, rn as int);
            }
            let parts = split_path(rest);
            return Some((parts, None));
        }
        if rest.get_char(p) == ' ' && rest.get_char(p + 1) == '|' && rest.get_char(p + 2) == ' ' {
            proof {
                lemma_first_pipe_at(rest@, 0, p as int);
            }
            let path_part = rest.substring_char(0, p);
            let transform = trim_str(rest.substring_char(p + 3, rn));
            proof {
                assert(path_part@ =~= rest@.take(p as int));
                assert(rest@.subrange(p + 3, rn as int) =~= rest@.skip(p + 3));
            }
            let parts = split_path(path_part);
            return Some((parts, Some(String::from_str(transform))));
        }
        p = p + 1;
    }
}

} // verus!
