//! The round-trip law: a collection whose attributes respect the
//! document grammar parses back, from its own rendering, to the same
//! attribute maps and statuses, item for item.

use vstd::prelude::*;

use crate::parse::ann_pairs_from;
use crate::parse::first_match_from;
use crate::parse::lemma_ann_step_none;
use crate::parse::lemma_key_end_at;
use crate::parse::lemma_val_end_at;
use crate::parse::match_at;
use crate::parse::AnnMatch;
use crate::parse::initial_state;
use crate::parse::is_item_line;
use crate::parse::is_section_line;
use crate::parse::lemma_first_nl_at;
use crate::parse::lemma_first_nl_bounds;
use crate::parse::line_step;
use crate::parse::lines_of;
use crate::parse::first_nl;
use crate::parse::parse_lines;
use crate::parse::parse_spec;
use crate::parse::project_of;
use crate::parse::section_update;
use crate::parse::starts_hashes3;
use crate::parse::item_attrs_of;
use crate::parse::ParseSt;
use crate::render::attr_text;
use crate::render::header_text;
use crate::render::item_line_text;
use crate::render::line_prefix;
use crate::render::render_items;
use crate::render::render_spec;
use crate::render::attrs_text;
use crate::render::emitted_pairs;
use crate::render::lemma_attrs_text_app;
use crate::render::lemma_attrs_text_single;
use crate::text::is_ws;
use crate::text::lemma_trim_noop;
use crate::text::trim_spec;
use crate::render::excluded_key;
use crate::render::keys_except;
use crate::render::lemma_assoc_get_exists;
use crate::render::lemma_keys_except_present;
use crate::render::lemma_lex_sort;
use crate::render::lex_sort;
use crate::render::other_pairs;
use crate::render::pri_pairs;
use crate::render::assoc_get_val;
use crate::text::trim_end_spec;
use crate::text::trim_start_spec;
use crate::types::assoc_get;
use crate::types::assoc_insert;
use crate::types::assoc_map;
use crate::types::attrs_distinct;
use crate::types::build_assoc;
use crate::types::item_msg;
use crate::types::lemma_assoc_get_map;
use crate::types::lemma_assoc_get_none;
use crate::types::lemma_assoc_insert;
use crate::types::lemma_assoc_insert_at_index;
use crate::types::sorted_spec;
use crate::types::status_char;
use crate::types::status_from_char;
use crate::types::Status;
use crate::types::ItemV;

verus! {

/// A key that can stand in an annotation: non-empty, trimmed, and free
/// of `:`, `]` and newlines.
pub open spec fn wf_attr_key(k: Seq<char>) -> bool {
    &&& k.len() > 0
    &&& k == trim_spec(k)
    &&& forall|i: int| 0 <= i < k.len() ==> (#[trigger] k[i]) != ':' && k[i] != ']' && k[i] != '\n'
}

/// A value that can stand in an annotation: non-empty, trimmed, and
/// free of `]` and newlines.
pub open spec fn wf_attr_val(v: Seq<char>) -> bool {
    &&& v.len() > 0
    &&& v == trim_spec(v)
    &&& forall|i: int| 0 <= i < v.len() ==> (#[trigger] v[i]) != ']' && v[i] != '\n'
}

/// Every pair of the sequence is a well-formed annotation.
pub open spec fn wf_pairs(ps: Seq<(Seq<char>, Seq<char>)>) -> bool {
    forall|j: int|
        0 <= j < ps.len() ==> wf_attr_key((#[trigger] ps[j]).0) && wf_attr_val(ps[j].1)
}

/// The character structure of one annotation block, spelled out.
proof fn lemma_attr_text_chars(k: Seq<char>, v: Seq<char>)
    ensures
        attr_text(k, v).len() == k.len() + v.len() + 6,
        attr_text(k, v)[0] == ' ',
        attr_text(k, v)[1] == '[',
        forall|j: int| 0 <= j < k.len() ==> attr_text(k, v)[2 + j] == k[j],
        attr_text(k, v)[2 + k.len() as int] == ':',
        attr_text(k, v)[3 + k.len() as int] == ':',
        attr_text(k, v)[4 + k.len() as int] == ' ',
        forall|j: int| 0 <= j < v.len() ==> attr_text(k, v)[5 + k.len() as int + j] == v[j],
        attr_text(k, v)[5 + k.len() as int + v.len() as int] == ']',
{
    reveal_strlit(" [");
    reveal_strlit(":: ");
    reveal_strlit("]");
    assert(" ["@.len() == 2);
    assert(":: "@.len() == 3);
    assert("]"@.len() == 1);
    let t = attr_text(k, v);
    assert(t =~= " ["@ + k + ":: "@ + v + "]"@);
    assert forall|j: int| 0 <= j < k.len() implies t[2 + j] == k[j] by {
        assert(t[2 + j] == (" ["@ + k)[2 + j]);
    }
    assert forall|j: int| 0 <= j < v.len() implies t[5 + k.len() as int + j] == v[j] by {
        assert(t[5 + k.len() as int + j] == (" ["@ + k + ":: "@ + v)[5 + k.len() as int + j]);
    }
}

/// The characters an annotation block contributes to the scanned text.
#[verifier::spinoff_prover]
proof fn lemma_block_chars(rest: Seq<char>, i: int, k: Seq<char>, v: Seq<char>, tail: Seq<char>)
    requires
        0 <= i <= rest.len(),
        rest.skip(i) == attr_text(k, v) + tail,
    ensures
        attr_text(k, v).len() == k.len() + v.len() + 6,
        rest.len() >= i + k.len() + v.len() + 6,
        rest[i] == ' ',
        rest[i + 1] == '[',
        forall|j: int| i + 2 <= j < i + 2 + k.len() ==> (#[trigger] rest[j]) == k[j - i - 2],
        rest[i + 2 + k.len() as int] == ':',
        rest[i + 3 + k.len() as int] == ':',
        rest[i + 4 + k.len() as int] == ' ',
        forall|j: int|
            i + 5 + k.len() <= j < i + 5 + k.len() + v.len() ==> (#[trigger] rest[j]) == v[j - i
                - 5 - k.len()],
        rest[i + 5 + k.len() as int + v.len() as int] == ']',
{
    lemma_attr_text_chars(k, v);
    let b = attr_text(k, v);
    assert(b.len() == k.len() + v.len() + 6);
    assert(rest.skip(i).len() == b.len() + tail.len());
    assert forall|j: int| 0 <= j < b.len() implies #[trigger] rest[i + j] == b[j] by {
        assert(rest.skip(i)[j] == rest[i + j]);
        assert((b + tail)[j] == b[j]);
    }
    assert(rest[i + 0] == b[0]);
    assert(rest[i + 1] == b[1]);
    assert forall|j: int| i + 2 <= j < i + 2 + k.len() implies (#[trigger] rest[j]) == k[j - i
        - 2] by {
        assert(rest[i + (j - i)] == b[j - i]);
    }
    assert(rest[i + (2 + k.len() as int)] == b[2 + k.len() as int]);
    assert(rest[i + (3 + k.len() as int)] == b[3 + k.len() as int]);
    assert(rest[i + (4 + k.len() as int)] == b[4 + k.len() as int]);
    assert forall|j: int|
        i + 5 + k.len() <= j < i + 5 + k.len() + v.len() implies (#[trigger] rest[j]) == v[j - i
            - 5 - k.len()] by {
        assert(rest[i + (j - i)] == b[j - i]);
    }
    assert(rest[i + (5 + k.len() as int + v.len() as int)] == b[5 + k.len() as int
        + v.len() as int]);
}

/// At the start of an annotation block there is no match on the space
/// and exactly one match on the bracket, yielding the block's pair.
#[verifier::spinoff_prover]
#[verifier::rlimit(80)]
proof fn lemma_match_at_block(
    rest: Seq<char>,
    i: int,
    k: Seq<char>,
    v: Seq<char>,
    tail: Seq<char>,
)
    requires
        0 <= i <= rest.len(),
        rest.skip(i) == attr_text(k, v) + tail,
        wf_attr_key(k),
        wf_attr_val(v),
    ensures
        attr_text(k, v).len() == k.len() + v.len() + 6,
        rest.len() >= i + k.len() + v.len() + 6,
        match_at(rest, i) is None,
        match_at(rest, i + 1) == Some(AnnMatch { end: i + k.len() + v.len() + 6, key: k, val: v }),
{
    lemma_block_chars(rest, i, k, v, tail);
    let kl = k.len() as int;
    let vl = v.len() as int;
    // no match at the leading space
    assert(rest[i] == ' ');
    assert(match_at(rest, i) is None);
    // the key scan stops at the first colon
    assert forall|j: int| i + 2 <= j < i + 2 + kl implies rest[j] != ':' && rest[j] != ']' by {
        assert(rest[j] == k[j - i - 2]);
        assert(wf_attr_key(k));
        assert(k[j - i - 2] != ':' && k[j - i - 2] != ']');
    }
    lemma_key_end_at(rest, i + 2, i + 2 + kl);
    // the value scan stops at the closing bracket
    assert forall|j: int| i + 5 + kl <= j < i + 5 + kl + vl implies rest[j] != ']' by {
        assert(rest[j] == v[j - i - 5 - kl]);
        assert(wf_attr_val(v));
        assert(v[j - i - 5 - kl] != ']');
    }
    lemma_val_end_at(rest, i + 5 + kl, i + 5 + kl + vl);
    assert(trim_spec(k) == k);
    assert(trim_spec(v) == v);
    assert(rest.subrange(i + 2, i + 2 + kl) =~= k);
    assert(rest.subrange(i + 5 + kl, i + 5 + kl + vl) =~= v);
    assert(match_at(rest, i + 1) == Some(
        AnnMatch { end: i + kl + vl + 6, key: trim_spec(k), val: trim_spec(v) },
    ));
}

/// Dropping a leading chunk of a suffix equation.
#[verifier::spinoff_prover]
proof fn lemma_skip_concat(rest: Seq<char>, i: int, a: Seq<char>, b: Seq<char>)
    requires
        0 <= i <= rest.len(),
        rest.skip(i) == a + b,
    ensures
        i + a.len() <= rest.len(),
        rest.skip(i + a.len()) == b,
{
    assert(rest.skip(i).len() == a.len() + b.len());
    let e = i + a.len() as int;
    assert forall|j: int| 0 <= j < rest.len() - e implies rest.skip(e)[j] == b[j] by {
        assert(rest.skip(e)[j] == rest[e + j]);
        assert(rest.skip(i)[e + j - i] == rest[e + j]);
        assert((a + b)[e + j - i] == b[j]);
    }
    assert(rest.skip(e) =~= b);
}

/// Scanning a tail that is exactly a run of well-formed annotation
/// blocks yields exactly those pairs, the first match one past the
/// start.
#[verifier::spinoff_prover]
#[verifier::rlimit(100)]
proof fn lemma_scan_attrs(rest: Seq<char>, i: int, ps: Seq<(Seq<char>, Seq<char>)>)
    requires
        0 <= i <= rest.len(),
        rest.skip(i) == attrs_text(ps),
        wf_pairs(ps),
    ensures
        ann_pairs_from(rest, i) == ps,
        first_match_from(rest, i) == if ps.len() == 0 {
            None::<int>
        } else {
            Some(i + 1)
        },
    decreases ps.len(),
{
    if ps.len() == 0 {
        assert(rest.skip(i).len() == 0);
        assert(i == rest.len());
        assert(ann_pairs_from(rest, i) =~= ps);
    } else {
        let p0 = ps.first();
        let rest_ps = ps.drop_first();
        assert(ps =~= seq![p0] + rest_ps);
        lemma_attrs_text_app(seq![p0], rest_ps);
        lemma_attrs_text_single(seq![p0]);
        assert(attrs_text(ps) == attr_text(p0.0, p0.1) + attrs_text(rest_ps));
        assert(wf_attr_key(p0.0) && wf_attr_val(p0.1));
        lemma_match_at_block(rest, i, p0.0, p0.1, attrs_text(rest_ps));
        lemma_skip_concat(rest, i, attr_text(p0.0, p0.1), attrs_text(rest_ps));
        let e = i + p0.0.len() + p0.1.len() + 6;
        assert(rest.skip(e) == attrs_text(rest_ps));
        assert(wf_pairs(rest_ps)) by {
            assert forall|j: int|
                0 <= j < rest_ps.len() implies wf_attr_key((#[trigger] rest_ps[j]).0)
                && wf_attr_val(rest_ps[j].1) by {
                assert(rest_ps[j] == ps[j + 1]);
            }
        }
        lemma_scan_attrs(rest, e, rest_ps);
        // first match
        assert(match_at(rest, i) is None);
        assert(match_at(rest, i + 1) is Some);
        lemma_ann_step_none(rest, i);
        assert(first_match_from(rest, i + 1) == Some(i + 1));
        assert(first_match_from(rest, i) == Some(i + 1));
        // the pairs
        let m = AnnMatch { end: e, key: p0.0, val: p0.1 };
        assert(match_at(rest, i + 1) == Some(m));
        assert(ann_pairs_from(rest, i) == seq![(p0.0, p0.1)] + ann_pairs_from(rest, e));
        assert(ann_pairs_from(rest, i) =~= ps);
    }
}

/// Stepping over positions with no match leaves the scan unchanged.
proof fn lemma_scan_skip_prefix(rest: Seq<char>, a: int, m: int)
    requires
        0 <= a <= m,
        forall|p: int| a <= p < m ==> #[trigger] match_at(rest, p) is None,
    ensures
        first_match_from(rest, a) == first_match_from(rest, m),
        ann_pairs_from(rest, a) == ann_pairs_from(rest, m),
    decreases m - a,
{
    if a < m {
        lemma_ann_step_none(rest, a);
        lemma_scan_skip_prefix(rest, a + 1, m);
    }
}

/// Trimming never lengthens, and strictly shortens a string with
/// whitespace at the affected end.
proof fn lemma_trim_len(s: Seq<char>)
    ensures
        trim_end_spec(s).len() <= s.len(),
        trim_start_spec(s).len() <= s.len(),
        s.len() > 0 && is_ws(s.last()) ==> trim_end_spec(s).len() < s.len(),
        s.len() > 0 && is_ws(s.first()) ==> trim_start_spec(s).len() < s.len(),
    decreases s.len(),
{
    if s.len() > 0 {
        lemma_trim_len(s.drop_last());
        lemma_trim_len(s.drop_first());
    }
}

/// A string equal to its own trim has no whitespace at either end.
proof fn lemma_trimmed_ends(s: Seq<char>)
    requires
        s == trim_spec(s),
    ensures
        trim_end_spec(s) == s,
        trim_start_spec(s) == s,
        s.len() > 0 ==> !is_ws(s.last()) && !is_ws(s.first()),
{
    lemma_trim_len(s);
    lemma_trim_len(trim_end_spec(s));
    if s.len() > 0 {
        if is_ws(s.last()) {
            assert(trim_spec(s).len() < s.len());
            assert(false);
        }
        assert(trim_end_spec(s) == s);
        if is_ws(s.first()) {
            assert(trim_spec(s).len() < s.len());
            assert(false);
        }
        assert(trim_start_spec(s) == s);
    } else {
        assert(trim_end_spec(s) == s);
        assert(trim_start_spec(s) == s);
    }
}

/// Trimming a trimmed string with one space appended gives it back.
proof fn lemma_trim_trailing_space(m: Seq<char>)
    requires
        m == trim_spec(m),
    ensures
        trim_spec(m + seq![' ']) == m,
{
    let e = m + seq![' '];
    assert(e.len() == m.len() + 1);
    assert(e.last() == ' ');
    assert(is_ws(' '));
    assert(e.drop_last() =~= m);
    lemma_trimmed_ends(m);
    assert(trim_end_spec(e) == trim_end_spec(m));
    assert(trim_spec(e) == trim_start_spec(m));
}

/// Building from a list whose keys are already distinct reproduces it.
proof fn lemma_build_assoc_id(ps: Seq<(Seq<char>, Seq<char>)>)
    requires
        attrs_distinct(ps),
    ensures
        build_assoc(ps) == ps,
    decreases ps.len(),
{
    if ps.len() > 0 {
        let dl = ps.drop_last();
        assert(attrs_distinct(dl)) by {
            assert forall|i: int, j: int| 0 <= i < j < dl.len() implies (#[trigger] dl[i]).0 != (
            #[trigger] dl[j]).0 by {
                assert(dl[i] == ps[i]);
                assert(dl[j] == ps[j]);
            }
        }
        lemma_build_assoc_id(dl);
        assert forall|j: int| 0 <= j < dl.len() implies (#[trigger] dl[j]).0 != ps.last().0 by {
            assert(dl[j] == ps[j]);
            assert(ps[j].0 != ps[ps.len() - 1].0);
        }
        lemma_assoc_insert_at_index(dl, ps.last().0, ps.last().1, dl.len() as int);
        assert(build_assoc(ps) == dl.push((ps.last().0, ps.last().1)));
        assert((ps.last().0, ps.last().1) == ps.last());
        assert(build_assoc(ps) =~= ps);
    }
}

/// Lookup over a concatenation: the left part wins where it has the key.
proof fn lemma_assoc_get_app(
    a: Seq<(Seq<char>, Seq<char>)>,
    b: Seq<(Seq<char>, Seq<char>)>,
    k: Seq<char>,
)
    ensures
        assoc_get(a + b, k) == (match assoc_get(a, k) {
            Some(v) => Some(v),
            None => assoc_get(b, k),
        }),
    decreases a.len(),
{
    if a.len() == 0 {
        assert(a + b =~= b);
    } else {
        assert((a + b).first() == a.first());
        assert((a + b).drop_first() =~= a.drop_first() + b);
        lemma_assoc_get_app(a.drop_first(), b, k);
    }
}

/// A found value comes from some pair of the list.
proof fn lemma_assoc_get_val_in(s: Seq<(Seq<char>, Seq<char>)>, k: Seq<char>)
    ensures
        assoc_get(s, k) matches Some(v) ==> exists|j: int|
            0 <= j < s.len() && (#[trigger] s[j]) == (k, v),
    decreases s.len(),
{
    if s.len() > 0 {
        if s.first().0 == k {
            assert(s[0] == (k, s[0].1));
        } else {
            lemma_assoc_get_val_in(s.drop_first(), k);
            if assoc_get(s, k) is Some {
                let v = assoc_get(s, k)->Some_0;
                let j = choose|j: int|
                    0 <= j < s.drop_first().len() && (#[trigger] s.drop_first()[j]) == (k, v);
                assert(s[j + 1] == s.drop_first()[j]);
            }
        }
    }
}

/// Every non-special attribute key appears among the collected keys.
proof fn lemma_keys_except_from_attr(s: Seq<(Seq<char>, Seq<char>)>, j: int)
    requires
        0 <= j < s.len(),
        !excluded_key(s[j].0),
    ensures
        keys_except(s).contains(s[j].0),
    decreases s.len(),
{
    if j == s.len() - 1 {
        assert(keys_except(s) == keys_except(s.drop_last()).push(s.last().0));
        assert(keys_except(s).last() == s[j].0);
    } else {
        assert(s.drop_last()[j] == s[j]);
        lemma_keys_except_from_attr(s.drop_last(), j);
        let w = choose|w: int|
            0 <= w < keys_except(s.drop_last()).len() && keys_except(s.drop_last())[w] == s[j].0;
        if excluded_key(s.last().0) {
            assert(keys_except(s)[w] == s[j].0);
        } else {
            assert(keys_except(s) == keys_except(s.drop_last()).push(s.last().0));
            assert(keys_except(s)[w] == s[j].0);
        }
    }
}

/// The collected keys of a distinct-keyed list have no duplicates.
proof fn lemma_keys_except_nodup(s: Seq<(Seq<char>, Seq<char>)>)
    requires
        attrs_distinct(s),
    ensures
        keys_except(s).no_duplicates(),
    decreases s.len(),
{
    if s.len() > 0 {
        let dl = s.drop_last();
        assert(attrs_distinct(dl)) by {
            assert forall|i: int, j: int| 0 <= i < j < dl.len() implies (#[trigger] dl[i]).0 != (
            #[trigger] dl[j]).0 by {
                assert(dl[i] == s[i]);
                assert(dl[j] == s[j]);
            }
        }
        lemma_keys_except_nodup(dl);
        if !excluded_key(s.last().0) {
            // the last key is fresh among the collected keys
            assert(!keys_except(dl).contains(s.last().0)) by {
                if keys_except(dl).contains(s.last().0) {
                    lemma_keys_except_present(dl, s.last().0);
                    lemma_assoc_get_exists(dl, s.last().0);
                    let w = choose|w: int|
                        0 <= w < dl.len() && (#[trigger] dl[w]).0 == s.last().0;
                    assert(dl[w] == s[w]);
                    assert(s[w].0 != s[s.len() - 1].0);
                }
            }
            let r = keys_except(s);
            assert(r == keys_except(dl).push(s.last().0));
            assert forall|i: int, j: int| 0 <= i < j < r.len() implies r[i] != r[j] by {
                if j < r.len() - 1 {
                    assert(r[i] == keys_except(dl)[i]);
                    assert(r[j] == keys_except(dl)[j]);
                } else {
                    assert(r[i] == keys_except(dl)[i]);
                    assert(keys_except(dl).contains(keys_except(dl)[i]));
                }
            }
        }
    }
}

/// Lookup in the priority pairs: exactly the three special keys, each
/// with its stored value.
proof fn lemma_pri_get(attrs: Seq<(Seq<char>, Seq<char>)>, k: Seq<char>)
    ensures
        assoc_get(pri_pairs(attrs), k) == (if k == "pane"@ || k == "proj"@ || k == "branch"@ {
            assoc_get(attrs, k)
        } else {
            None
        }),
{
    reveal_strlit("pane");
    reveal_strlit("proj");
    reveal_strlit("branch");
    let pane_part: Seq<(Seq<char>, Seq<char>)> = match assoc_get(attrs, "pane"@) {
        Some(v) => seq![("pane"@, v)],
        None => Seq::empty(),
    };
    let proj_part: Seq<(Seq<char>, Seq<char>)> = match assoc_get(attrs, "proj"@) {
        Some(v) => seq![("proj"@, v)],
        None => Seq::empty(),
    };
    let branch_part: Seq<(Seq<char>, Seq<char>)> = match assoc_get(attrs, "branch"@) {
        Some(v) => seq![("branch"@, v)],
        None => Seq::empty(),
    };
    assert(pri_pairs(attrs) == pane_part + proj_part + branch_part);
    lemma_assoc_get_app(pane_part + proj_part, branch_part, k);
    lemma_assoc_get_app(pane_part, proj_part, k);
    assert("pane"@[1] == 'a' && "proj"@[1] == 'r' && "branch"@[0] == 'b' && "pane"@[0] == 'p'
        && "proj"@[0] == 'p');
    assert("pane"@ != "proj"@ && "pane"@ != "branch"@ && "proj"@ != "branch"@);
    if pane_part.len() == 1 {
        assert(pane_part.first() == ("pane"@, assoc_get(attrs, "pane"@)->Some_0));
        assert(pane_part.drop_first().len() == 0);
        assert(assoc_get(pane_part.drop_first(), k) is None);
        assert(assoc_get(pane_part, k) == (if k == "pane"@ {
            assoc_get(attrs, "pane"@)
        } else {
            None::<Seq<char>>
        }));
    }
    if proj_part.len() == 1 {
        assert(proj_part.first() == ("proj"@, assoc_get(attrs, "proj"@)->Some_0));
        assert(proj_part.drop_first().len() == 0);
        assert(assoc_get(proj_part.drop_first(), k) is None);
        assert(assoc_get(proj_part, k) == (if k == "proj"@ {
            assoc_get(attrs, "proj"@)
        } else {
            None::<Seq<char>>
        }));
    }
    if branch_part.len() == 1 {
        assert(branch_part.first() == ("branch"@, assoc_get(attrs, "branch"@)->Some_0));
        assert(branch_part.drop_first().len() == 0);
        assert(assoc_get(branch_part.drop_first(), k) is None);
        assert(assoc_get(branch_part, k) == (if k == "branch"@ {
            assoc_get(attrs, "branch"@)
        } else {
            None::<Seq<char>>
        }));
    }
}

/// Lookup in the remaining pairs: exactly the non-special keys of the
/// attribute list, each with its stored value.
#[verifier::spinoff_prover]
proof fn lemma_oth_get(attrs: Seq<(Seq<char>, Seq<char>)>, k: Seq<char>)
    requires
        attrs_distinct(attrs),
    ensures
        assoc_get(other_pairs(attrs), k) == (if !excluded_key(k) {
            assoc_get(attrs, k)
        } else {
            None
        }),
{
    broadcast use vstd::seq_lib::group_to_multiset_ensures;

    let ks = keys_except(attrs);
    let sk = lex_sort(ks);
    let oth = other_pairs(attrs);
    lemma_lex_sort(ks);
    lemma_keys_except_nodup(attrs);
    ks.lemma_multiset_has_no_duplicates();
    sk.lemma_multiset_has_no_duplicates_conv();
    assert(oth.len() == sk.len());
    assert(forall|j: int| 0 <= j < oth.len() ==> (#[trigger] oth[j]) == (
        sk[j],
        assoc_get_val(attrs, sk[j]),
    ));
    if sk.contains(k) {
        let w = choose|w: int| 0 <= w < sk.len() && sk[w] == k;
        assert(ks.contains(k)) by {
            assert(sk.to_multiset().count(k) > 0);
        }
        lemma_keys_except_present(attrs, k);
        assert(!excluded_key(k));
        assert(assoc_get(attrs, k) is Some);
        assert forall|j: int| 0 <= j < w implies (#[trigger] oth[j]).0 != k by {
            assert(oth[j].0 == sk[j]);
            assert(sk[j] != sk[w]);
        }
        crate::types::lemma_assoc_get_at(oth, k, w);
        assert(oth[w] == (k, assoc_get_val(attrs, k)));
        assert(assoc_get(oth, k) == Some(assoc_get_val(attrs, k)));
    } else {
        assert forall|j: int| 0 <= j < oth.len() implies (#[trigger] oth[j]).0 != k by {
            assert(oth[j].0 == sk[j]);
            assert(sk.contains(sk[j]));
        }
        lemma_assoc_get_none(oth, k);
        if !excluded_key(k) && assoc_get(attrs, k) is Some {
            lemma_assoc_get_exists(attrs, k);
            let w = choose|w: int| 0 <= w < attrs.len() && (#[trigger] attrs[w]).0 == k;
            lemma_keys_except_from_attr(attrs, w);
            assert(ks.contains(k));
            assert(sk.to_multiset().count(k) > 0);
            assert(sk.contains(k));
            assert(false);
        }
    }
}

/// The special keys are well-formed annotation keys and distinct.
proof fn lemma_special_keys()
    ensures
        wf_attr_key("pane"@),
        wf_attr_key("proj"@),
        wf_attr_key("branch"@),
        "pane"@ != "proj"@ && "pane"@ != "branch"@ && "proj"@ != "branch"@,
        "pane"@ != "msg"@ && "proj"@ != "msg"@ && "branch"@ != "msg"@,
        wf_attr_key("msg"@),
{
    reveal_strlit("pane");
    reveal_strlit("proj");
    reveal_strlit("branch");
    reveal_strlit("msg");
    lemma_trim_noop("pane"@);
    lemma_trim_noop("proj"@);
    lemma_trim_noop("branch"@);
    lemma_trim_noop("msg"@);
}

/// Two lists that agree on every lookup denote the same map.
proof fn lemma_assoc_map_ext(s1: Seq<(Seq<char>, Seq<char>)>, s2: Seq<(Seq<char>, Seq<char>)>)
    requires
        forall|k: Seq<char>| #[trigger] assoc_get(s1, k) == assoc_get(s2, k),
    ensures
        assoc_map(s1) == assoc_map(s2),
{
    assert forall|k: Seq<char>|
        assoc_map(s1).contains_key(k) <==> #[trigger] assoc_map(s2).contains_key(k) by {
        lemma_assoc_get_map(s1, k);
        lemma_assoc_get_map(s2, k);
    }
    assert forall|k: Seq<char>| #[trigger] assoc_map(s1).contains_key(k) implies assoc_map(s1)[k]
        == assoc_map(s2)[k] by {
        lemma_assoc_get_map(s1, k);
        lemma_assoc_get_map(s2, k);
    }
    assert(assoc_map(s1) =~= assoc_map(s2));
}


/// The rendered text after the status prefix of an item line: the
/// message, then the emitted annotations.
pub open spec fn item_rest_text(iv: ItemV) -> Seq<char> {
    item_msg(iv) + attrs_text(emitted_pairs(iv.attrs))
}

/// The conditions under which one item's rendered line parses back to
/// the same attribute map and status: distinct keys, at least one
/// attribute, every key and every emitted value shaped like an
/// annotation, a trimmed single-line message, and no annotation match
/// beginning inside the message text.
pub open spec fn wf_render_item(iv: ItemV) -> bool {
    &&& attrs_distinct(iv.attrs)
    &&& iv.attrs.len() > 0
    &&& forall|i: int| 0 <= i < iv.attrs.len() ==> wf_attr_key((#[trigger] iv.attrs[i]).0)
    &&& forall|i: int|
        0 <= i < iv.attrs.len() ==> ((#[trigger] iv.attrs[i]).0 != "msg"@ ==> wf_attr_val(
            iv.attrs[i].1,
        ))
    &&& (assoc_get(iv.attrs, "msg"@) matches Some(m) ==> m.len() > 0 && m == trim_spec(m) && (
    forall|p: int| 0 <= p < m.len() ==> (#[trigger] m[p]) != '\n'))
    &&& (forall|p: int|
        0 <= p < item_msg(iv).len() ==> #[trigger] match_at(item_rest_text(iv), p) is None)
}

/// The emitted annotation text holds no newline, and ends in `]` when
/// non-empty.
proof fn lemma_attrs_text_no_nl(ps: Seq<(Seq<char>, Seq<char>)>)
    requires
        wf_pairs(ps),
    ensures
        forall|x: int| 0 <= x < attrs_text(ps).len() ==> (#[trigger] attrs_text(ps)[x]) != '\n',
        ps.len() > 0 ==> attrs_text(ps).len() > 0 && attrs_text(ps).last() == ']',
    decreases ps.len(),
{
    if ps.len() > 0 {
        let dl = ps.drop_last();
        assert(wf_pairs(dl)) by {
            assert forall|j: int|
                0 <= j < dl.len() implies wf_attr_key((#[trigger] dl[j]).0) && wf_attr_val(
                dl[j].1) by {
                assert(dl[j] == ps[j]);
            }
        }
        lemma_attrs_text_no_nl(dl);
        let k = ps.last().0;
        let v = ps.last().1;
        assert(wf_attr_key(k) && wf_attr_val(v)) by {
            assert(ps[ps.len() - 1] == ps.last());
        }
        lemma_attr_text_chars(k, v);
        let b = attr_text(k, v);
        let t = attrs_text(ps);
        assert(t == attrs_text(dl) + b);
        assert forall|x: int| 0 <= x < b.len() implies (#[trigger] b[x]) != '\n' by {
            if 2 <= x < 2 + k.len() {
                assert(b[x] == k[x - 2]);
            } else if 5 + k.len() <= x < 5 + k.len() + v.len() {
                assert(b[x] == v[x - 5 - k.len()]);
            } else {
                assert(x == 0 || x == 1 || x == 2 + k.len() || x == 3 + k.len() || x == 4
                    + k.len() || x == 5 + k.len() + v.len());
            }
        }
        assert forall|x: int| 0 <= x < t.len() implies (#[trigger] t[x]) != '\n' by {
            if x < attrs_text(dl).len() {
                assert(t[x] == attrs_text(dl)[x]);
            } else {
                assert(t[x] == b[x - attrs_text(dl).len()]);
            }
        }
        assert(t.last() == b[b.len() - 1]);
    }
}

/// The elements of the priority pairs: each carries one of the three
/// special keys with its stored value, and their keys are distinct.
proof fn lemma_pri_elems(attrs: Seq<(Seq<char>, Seq<char>)>)
    ensures
        forall|j: int|
            0 <= j < pri_pairs(attrs).len() ==> ((#[trigger] pri_pairs(attrs)[j]).0 == "pane"@
                || pri_pairs(attrs)[j].0 == "proj"@ || pri_pairs(attrs)[j].0 == "branch"@)
                && assoc_get(attrs, pri_pairs(attrs)[j].0) == Some(pri_pairs(attrs)[j].1),
        attrs_distinct(pri_pairs(attrs)),
{
    lemma_special_keys();
    let pane_part: Seq<(Seq<char>, Seq<char>)> = match assoc_get(attrs, "pane"@) {
        Some(v) => seq![("pane"@, v)],
        None => Seq::empty(),
    };
    let proj_part: Seq<(Seq<char>, Seq<char>)> = match assoc_get(attrs, "proj"@) {
        Some(v) => seq![("proj"@, v)],
        None => Seq::empty(),
    };
    let branch_part: Seq<(Seq<char>, Seq<char>)> = match assoc_get(attrs, "branch"@) {
        Some(v) => seq![("branch"@, v)],
        None => Seq::empty(),
    };
    let pri = pri_pairs(attrs);
    assert(pri == pane_part + proj_part + branch_part);
    assert forall|j: int|
        0 <= j < pri.len() implies ((#[trigger] pri[j]).0 == "pane"@ || pri[j].0 == "proj"@
        || pri[j].0 == "branch"@) && assoc_get(attrs, pri[j].0) == Some(pri[j].1) by {
        if j < (pane_part + proj_part).len() {
            assert(pri[j] == (pane_part + proj_part)[j]);
            if j < pane_part.len() {
                assert(pane_part[j] == ("pane"@, assoc_get(attrs, "pane"@)->Some_0));
            } else {
                assert(proj_part[j - pane_part.len()] == (
                    "proj"@,
                    assoc_get(attrs, "proj"@)->Some_0,
                ));
            }
        } else {
            assert(pri[j] == branch_part[j - (pane_part + proj_part).len()]);
            assert(branch_part[j - (pane_part + proj_part).len()] == (
                "branch"@,
                assoc_get(attrs, "branch"@)->Some_0,
            ));
        }
    }
    assert forall|i: int, j: int| 0 <= i < j < pri.len() implies (#[trigger] pri[i]).0 != (
    #[trigger] pri[j]).0 by {
        let pp = pane_part + proj_part;
        if j < pp.len() {
            assert(pri[i] == pp[i]);
            assert(pri[j] == pp[j]);
            assert(i < pane_part.len() && j >= pane_part.len());
            assert(pp[i] == pane_part[i]);
            assert(pp[j] == proj_part[j - pane_part.len()]);
        } else {
            assert(pri[j].0 == "branch"@);
            if i < pp.len() {
                assert(pri[i] == pp[i]);
                if i < pane_part.len() {
                    assert(pp[i] == pane_part[i]);
                } else {
                    assert(pp[i] == proj_part[i - pane_part.len()]);
                }
            }
        }
    }
}

/// What the emitted annotations of a well-formed item hold: well-formed
/// pairs with distinct keys, reading back as the attributes except the
/// message.
proof fn lemma_emitted(iv: ItemV)
    requires
        wf_render_item(iv),
    ensures
        wf_pairs(emitted_pairs(iv.attrs)),
        attrs_distinct(emitted_pairs(iv.attrs)),
        forall|k: Seq<char>|
            #[trigger] assoc_get(emitted_pairs(iv.attrs), k) == (if k == "msg"@ {
                None::<Seq<char>>
            } else {
                assoc_get(iv.attrs, k)
            }),
{
    broadcast use vstd::seq_lib::group_to_multiset_ensures;

    lemma_special_keys();
    let attrs = iv.attrs;
    let pri = pri_pairs(attrs);
    let ks = keys_except(attrs);
    let sk = lex_sort(ks);
    let oth = other_pairs(attrs);
    let em = emitted_pairs(attrs);
    lemma_pri_elems(attrs);
    lemma_lex_sort(ks);
    lemma_keys_except_nodup(attrs);
    ks.lemma_multiset_has_no_duplicates();
    sk.lemma_multiset_has_no_duplicates_conv();
    // each sorted key is a present, non-special attribute key
    assert forall|j: int| 0 <= j < sk.len() implies keys_except(attrs).contains(
        #[trigger] sk[j],
    ) && !excluded_key(sk[j]) && assoc_get(attrs, sk[j]) is Some by {
        assert(sk.contains(sk[j]));
        assert(sk.to_multiset().count(sk[j]) > 0);
        lemma_keys_except_present(attrs, sk[j]);
    }
    // the pairs are well-formed
    assert forall|j: int|
        0 <= j < em.len() implies wf_attr_key((#[trigger] em[j]).0) && wf_attr_val(em[j].1) by {
        if j < pri.len() {
            assert(em[j] == pri[j]);
            assert(assoc_get(attrs, pri[j].0) == Some(pri[j].1));
            lemma_assoc_get_val_in(attrs, pri[j].0);
            let w = choose|w: int|
                0 <= w < attrs.len() && (#[trigger] attrs[w]) == (pri[j].0, pri[j].1);
            assert(wf_attr_key(attrs[w].0));
            assert(attrs[w].0 != "msg"@);
            assert(wf_attr_val(attrs[w].1));
        } else {
            assert(em[j] == oth[j - pri.len()]);
            let oj = j - pri.len();
            assert(oth[oj] == (sk[oj], assoc_get_val(attrs, sk[oj])));
            assert(assoc_get(attrs, sk[oj]) is Some);
            lemma_assoc_get_val_in(attrs, sk[oj]);
            let w = choose|w: int|
                0 <= w < attrs.len() && (#[trigger] attrs[w]) == (
                    sk[oj],
                    assoc_get(attrs, sk[oj])->Some_0,
                );
            assert(wf_attr_key(attrs[w].0));
            assert(attrs[w].0 != "msg"@);
            assert(wf_attr_val(attrs[w].1));
        }
    }
    // distinct keys
    assert forall|i: int, j: int| 0 <= i < j < em.len() implies (#[trigger] em[i]).0 != (
    #[trigger] em[j]).0 by {
        if j < pri.len() {
            assert(em[i] == pri[i] && em[j] == pri[j]);
        } else if i >= pri.len() {
            assert(em[i] == oth[i - pri.len()] && em[j] == oth[j - pri.len()]);
            assert(oth[i - pri.len()].0 == sk[i - pri.len()]);
            assert(oth[j - pri.len()].0 == sk[j - pri.len()]);
            assert(sk[i - pri.len()] != sk[j - pri.len()]);
        } else {
            assert(em[i] == pri[i] && em[j] == oth[j - pri.len()]);
            assert(excluded_key(pri[i].0));
            assert(!excluded_key(sk[j - pri.len()]));
        }
    }
    // lookup characterization
    assert forall|k: Seq<char>|
        #[trigger] assoc_get(em, k) == (if k == "msg"@ {
            None::<Seq<char>>
        } else {
            assoc_get(attrs, k)
        }) by {
        lemma_assoc_get_app(pri, oth, k);
        lemma_pri_get(attrs, k);
        lemma_oth_get(attrs, k);
    }
}

/// A well-formed item emits something: its message or an annotation.
proof fn lemma_item_has_content(iv: ItemV)
    requires
        wf_render_item(iv),
    ensures
        item_msg(iv).len() > 0 || emitted_pairs(iv.attrs).len() > 0,
{
    broadcast use vstd::seq_lib::group_to_multiset_ensures;

    lemma_special_keys();
    let attrs = iv.attrs;
    if assoc_get(attrs, "msg"@) is Some {
        assert(item_msg(iv).len() > 0);
    } else {
        let k0 = attrs[0].0;
        assert(attrs[0].0 != "msg"@) by {
            if attrs[0].0 == "msg"@ {
                assert(assoc_get(attrs, "msg"@) is Some) by {
                    lemma_assoc_get_exists(attrs, "msg"@);
                    assert((attrs[0]).0 == "msg"@);
                }
            }
        }
        if k0 == "pane"@ || k0 == "proj"@ || k0 == "branch"@ {
            lemma_assoc_get_exists(attrs, k0);
            assert(assoc_get(attrs, k0) is Some);
            lemma_pri_get(attrs, k0);
            assert(assoc_get(pri_pairs(attrs), k0) is Some);
            if pri_pairs(attrs).len() == 0 {
                lemma_assoc_get_none(pri_pairs(attrs), k0);
            }
            assert(emitted_pairs(attrs).len() >= pri_pairs(attrs).len());
        } else {
            assert(!excluded_key(k0));
            lemma_keys_except_from_attr(attrs, 0);
            lemma_lex_sort(keys_except(attrs));
            assert(keys_except(attrs).len() > 0);
            assert(other_pairs(attrs).len() > 0);
            assert(emitted_pairs(attrs).len() >= other_pairs(attrs).len());
        }
    }
}

/// One rendered item line parses back, under an empty project context,
/// to an item with the same status and the same attribute map, leaving
/// the context untouched.
#[verifier::spinoff_prover]
#[verifier::rlimit(100)]
proof fn lemma_item_line_roundtrip(iv: ItemV, st: ParseSt)
    requires
        wf_render_item(iv),
        st.proj.len() == 0,
        st.branch is None,
    ensures
        ({
            let t = item_line_text(iv);
            &&& t.len() >= 7
            &&& forall|x: int| 0 <= x < t.len() ==> (#[trigger] t[x]) != '\n'
            &&& line_step(st, t).0 == st
            &&& line_step(st, t).1 matches Some(piv) && piv.status == iv.status && assoc_map(
                piv.attrs,
            ) == assoc_map(iv.attrs)
        }),
{
    lemma_special_keys();
    lemma_emitted(iv);
    lemma_item_has_content(iv);
    let attrs = iv.attrs;
    let em = emitted_pairs(attrs);
    let msg = item_msg(iv);
    let a = attrs_text(em);
    lemma_attrs_text_no_nl(em);
    let t = item_line_text(iv);
    let pfx = line_prefix(iv.status);
    reveal_strlit("- [ ] ");
    reveal_strlit("- [/] ");
    assert(pfx.len() == 6);
    assert(pfx[0] == '-' && pfx[1] == ' ' && pfx[2] == '[' && pfx[4] == ']' && pfx[5] == ' ');
    assert(pfx[3] == status_char(iv.status));
    // the message is trimmed and single-line
    assert(msg == trim_spec(msg) && (forall|p: int|
        0 <= p < msg.len() ==> (#[trigger] msg[p]) != '\n'));
    lemma_trimmed_ends(msg);
    // structure of the line
    assert(t == pfx + msg + a);
    assert(msg.len() > 0 || (em.len() > 0 && a.len() > 0));
    assert(t.len() >= 7);
    assert forall|x: int| 0 <= x < t.len() implies (#[trigger] t[x]) != '\n' by {
        if x < 6 {
            assert(t[x] == pfx[x]);
        } else if x < 6 + msg.len() {
            assert(t[x] == (pfx + msg)[x]);
            assert((pfx + msg)[x] == msg[x - 6]);
        } else {
            assert(t[x] == a[x - 6 - msg.len()]);
        }
    }
    // the line carries no trailing whitespace
    assert(t.len() > 0);
    if em.len() > 0 {
        assert(t.last() == a[a.len() - 1]);
        assert(t.last() == ']');
        assert(!is_ws(']'));
    } else {
        assert(a =~= Seq::<char>::empty());
        assert(msg.len() > 0);
        assert(t.last() == (pfx + msg)[6 + msg.len() - 1]);
        assert(t.last() == msg.last());
        assert(!is_ws(msg.last()));
    }
    crate::text::lemma_trim_end_noop(t);
    assert(trim_end_spec(t) == t);
    // classification: an item line, nothing else
    assert(t[0] == '-');
    assert(!is_section_line(t));
    assert(project_of(t) is None);
    assert(!starts_hashes3(t));
    assert(t[1] == ' ' && t[2] == '[' && t[4] == ']' && t[5] == ' ') by {
        assert(t[1] == pfx[1]);
        assert(t[2] == pfx[2]);
        assert(t[4] == pfx[4]);
        assert(t[5] == pfx[5]);
    }
    assert(is_item_line(t));
    assert(t[3] == pfx[3]);
    assert(status_from_char(t[3]) == Some(iv.status));
    let rest = t.skip(6);
    assert(rest =~= msg + a);
    assert(rest == item_rest_text(iv));
    // scanning: no match inside the message, then exactly the blocks
    assert forall|p: int| 0 <= p < msg.len() implies #[trigger] match_at(rest, p) is None by {
        assert(match_at(item_rest_text(iv), p) is None);
    }
    lemma_scan_skip_prefix(rest, 0, msg.len() as int);
    assert(rest.skip(msg.len() as int) =~= a);
    lemma_scan_attrs(rest, msg.len() as int, em);
    assert(ann_pairs_from(rest, 0) == em);
    // the parsed message text
    let pm = match first_match_from(rest, 0) {
        Some(j) => trim_spec(rest.take(j)),
        None => trim_spec(rest),
    };
    if em.len() > 0 {
        assert(first_match_from(rest, 0) == Some(msg.len() as int + 1));
        assert(em =~= seq![em.first()] + em.drop_first());
        lemma_attrs_text_app(seq![em.first()], em.drop_first());
        lemma_attrs_text_single(seq![em.first()]);
        lemma_attr_text_chars(em.first().0, em.first().1);
        assert(a[0] == attr_text(em.first().0, em.first().1)[0]) by {
            assert(a == attr_text(em.first().0, em.first().1) + attrs_text(em.drop_first()));
        }
        assert(a[0] == ' ');
        assert(rest.take(msg.len() as int + 1) =~= msg + seq![' ']) by {
            assert(rest[msg.len() as int] == a[0]);
        }
        lemma_trim_trailing_space(msg);
        assert(pm == msg);
    } else {
        assert(first_match_from(rest, 0) is None);
        assert(rest =~= msg);
        assert(pm == msg);
    }
    // the parsed attribute list
    lemma_build_assoc_id(em);
    let base = build_assoc(ann_pairs_from(rest, 0));
    assert(base == em);
    let withm = if pm.len() > 0 {
        assoc_insert(base, "msg"@, pm)
    } else {
        base
    };
    assert(item_attrs_of(rest, st.proj, st.branch) == withm) by {
        assert(st.proj.len() == 0);
        assert(st.branch is None);
    }
    lemma_assoc_insert(em, "msg"@, msg);
    assert forall|k: Seq<char>| #[trigger] assoc_get(withm, k) == assoc_get(attrs, k) by {
        if msg.len() > 0 {
            if k == "msg"@ {
                assert(assoc_get(withm, k) == Some(msg));
                if assoc_get(attrs, "msg"@) is None {
                    assert(item_msg(iv) == Seq::<char>::empty());
                    assert(false);
                }
                assert(assoc_get(attrs, "msg"@) == Some(item_msg(iv)));
            } else {
                assert(assoc_get(withm, k) == assoc_get(em, k));
            }
        } else {
            assert(withm == em);
            if k == "msg"@ {
                match assoc_get(attrs, "msg"@) {
                    Some(m) => {
                        assert(m.len() > 0);
                        assert(item_msg(iv) == m);
                        assert(false);
                    },
                    None => {},
                }
                assert(assoc_get(em, k) is None);
            }
        }
    }
    lemma_assoc_map_ext(withm, attrs);
    // conclude over the classification
    assert(line_step(st, t).0 == st);
    assert(line_step(st, t).1 == Some(ItemV { attrs: withm, status: iv.status }));
}

/// The text of the section header line a status emits.
pub open spec fn header_line_text(st0: Status) -> Seq<char> {
    if st0 is Waiting {
        "## Waiting for Input"@
    } else {
        "## Background"@
    }
}

/// A rendered section header splits into its header line and a blank
/// line; the header line sets the status context and the blank line
/// does nothing.
#[verifier::spinoff_prover]
proof fn lemma_header_roundtrip(st0: Status, st: ParseSt)
    ensures
        header_text(st0).len() > 0,
        header_text(st0).last() == '\n',
        lines_of(header_text(st0)) == seq![header_line_text(st0), Seq::<char>::empty()],
        line_step(st, header_line_text(st0)) == (
            ParseSt { status: st0, proj: st.proj, branch: st.branch },
            None::<ItemV>,
        ),
        line_step(st, Seq::<char>::empty()) == (st, None::<ItemV>),
{
    reveal_strlit("## Waiting for Input\n\n");
    reveal_strlit("## Background\n\n");
    reveal_strlit("## Waiting for Input");
    reveal_strlit("## Background");
    reveal_strlit("Waiting for Input");
    reveal_strlit("Background");
    reveal_strlit("Waiting");
    let h = header_text(st0);
    let hl = header_line_text(st0);
    let hln = hl.len() as int;
    if st0 is Waiting {
        assert(h.len() == 22 && hl.len() == 20);
        assert(h[0] == '#' && h[1] == '#' && h[2] == ' ' && h[3] == 'W' && h[4] == 'a' && h[5]
            == 'i' && h[6] == 't' && h[7] == 'i' && h[8] == 'n' && h[9] == 'g' && h[10] == ' '
            && h[11] == 'f' && h[12] == 'o' && h[13] == 'r' && h[14] == ' ' && h[15] == 'I'
            && h[16] == 'n' && h[17] == 'p' && h[18] == 'u' && h[19] == 't' && h[20] == '\n'
            && h[21] == '\n');
        assert forall|x: int| 0 <= x < hln implies h[x] != '\n' by {}
        assert(h.take(hln) =~= hl) by {
            assert(hl[0] == '#' && hl[1] == '#' && hl[2] == ' ' && hl[3] == 'W' && hl[4] == 'a'
                && hl[5] == 'i' && hl[6] == 't' && hl[7] == 'i' && hl[8] == 'n' && hl[9] == 'g'
                && hl[10] == ' ' && hl[11] == 'f' && hl[12] == 'o' && hl[13] == 'r' && hl[14]
                == ' ' && hl[15] == 'I' && hl[16] == 'n' && hl[17] == 'p' && hl[18] == 'u'
                && hl[19] == 't');
        }
    } else {
        assert(h.len() == 15 && hl.len() == 13);
        assert(h[0] == '#' && h[1] == '#' && h[2] == ' ' && h[3] == 'B' && h[4] == 'a' && h[5]
            == 'c' && h[6] == 'k' && h[7] == 'g' && h[8] == 'r' && h[9] == 'o' && h[10] == 'u'
            && h[11] == 'n' && h[12] == 'd' && h[13] == '\n' && h[14] == '\n');
        assert forall|x: int| 0 <= x < hln implies h[x] != '\n' by {}
        assert(h.take(hln) =~= hl) by {
            assert(hl[0] == '#' && hl[1] == '#' && hl[2] == ' ' && hl[3] == 'B' && hl[4] == 'a'
                && hl[5] == 'c' && hl[6] == 'k' && hl[7] == 'g' && hl[8] == 'r' && hl[9] == 'o'
                && hl[10] == 'u' && hl[11] == 'n' && hl[12] == 'd');
        }
    }
    assert(h.last() == '\n');
    assert(h[hln] == '\n');
    lemma_first_nl_at(h, hln);
    assert(lines_of(h) == seq![h.take(hln)] + lines_of(h.skip(hln + 1)));
    let h2 = h.skip(hln + 1);
    assert(h2.len() == 1);
    assert(h2[0] == h[hln + 1]);
    assert(first_nl(h2) == 0);
    assert(lines_of(h2) == seq![h2.take(0)] + lines_of(h2.skip(1)));
    assert(h2.skip(1).len() == 0);
    assert(lines_of(h2.skip(1)) == Seq::<Seq<char>>::empty());
    assert(h2.take(0) =~= Seq::<char>::empty());
    assert(lines_of(h2) =~= seq![Seq::<char>::empty()]);
    assert(lines_of(h) =~= seq![hl, Seq::<char>::empty()]);
    // the header line sets the status context
    assert(!is_ws(hl[hln - 1]));
    crate::text::lemma_trim_end_noop(hl);
    assert(trim_end_spec(hl) == hl);
    assert(is_section_line(hl));
    assert(section_update(hl, st.status) == st0) by {
        let name = hl.skip(3);
        if st0 is Waiting {
            assert(name =~= "Waiting for Input"@) by {
                assert("Waiting for Input"@.len() == 17);
                assert("Waiting for Input"@[0] == 'W' && "Waiting for Input"@[1] == 'a'
                    && "Waiting for Input"@[2] == 'i' && "Waiting for Input"@[3] == 't'
                    && "Waiting for Input"@[4] == 'i' && "Waiting for Input"@[5] == 'n'
                    && "Waiting for Input"@[6] == 'g' && "Waiting for Input"@[7] == ' '
                    && "Waiting for Input"@[8] == 'f' && "Waiting for Input"@[9] == 'o'
                    && "Waiting for Input"@[10] == 'r' && "Waiting for Input"@[11] == ' '
                    && "Waiting for Input"@[12] == 'I' && "Waiting for Input"@[13] == 'n'
                    && "Waiting for Input"@[14] == 'p' && "Waiting for Input"@[15] == 'u'
                    && "Waiting for Input"@[16] == 't');
                assert(forall|i: int| 0 <= i < 17 ==> #[trigger] name[i] == hl[3 + i]);
            }
        } else {
            assert(name =~= "Background"@) by {
                assert("Background"@.len() == 10);
                assert("Background"@[0] == 'B' && "Background"@[1] == 'a' && "Background"@[2]
                    == 'c' && "Background"@[3] == 'k' && "Background"@[4] == 'g'
                    && "Background"@[5] == 'r' && "Background"@[6] == 'o' && "Background"@[7]
                    == 'u' && "Background"@[8] == 'n' && "Background"@[9] == 'd');
                assert(forall|i: int| 0 <= i < 10 ==> #[trigger] name[i] == hl[3 + i]);
            }
            // the name is neither spelling of the waiting section
            assert(name != "Waiting for Input"@ && name != "Waiting"@) by {
                assert("Waiting for Input"@.len() == 17);
                assert("Waiting"@.len() == 7);
                assert(name.len() == 10);
            }
        }
    }
    assert(line_step(st, hl) == (
        ParseSt { status: st0, proj: st.proj, branch: st.branch },
        None::<ItemV>,
    ));
    // a blank line does nothing
    let e = Seq::<char>::empty();
    assert(trim_end_spec(e) == e);
    assert(!is_section_line(e));
    assert(project_of(e) is None);
    assert(!starts_hashes3(e));
    assert(!is_item_line(e));
    assert(line_step(st, e) == (st, None::<ItemV>));
}

/// Splitting a text at a newline-terminated front splits its lines.
proof fn lemma_lines_of_app(a: Seq<char>, b: Seq<char>)
    requires
        a.len() > 0,
        a.last() == '\n',
    ensures
        lines_of(a + b) == lines_of(a) + lines_of(b),
    decreases a.len(),
{
    lemma_first_nl_bounds(a);
    let i = first_nl(a);
    assert(i < a.len()) by {
        if i == a.len() {
            assert(a[a.len() - 1] != '\n');
        }
    }
    assert forall|k: int| 0 <= k < i implies (a + b)[k] != '\n' by {
        assert((a + b)[k] == a[k]);
    }
    assert((a + b)[i] == a[i]);
    lemma_first_nl_at(a + b, i);
    assert(lines_of(a + b) == seq![(a + b).take(i)] + lines_of((a + b).skip(i + 1)));
    assert((a + b).take(i) =~= a.take(i));
    assert((a + b).skip(i + 1) =~= a.skip(i + 1) + b);
    assert(lines_of(a) == seq![a.take(i)] + lines_of(a.skip(i + 1)));
    if a.skip(i + 1).len() == 0 {
        assert(lines_of(a.skip(i + 1)) == Seq::<Seq<char>>::empty());
        assert(a.skip(i + 1) + b =~= b);
        assert(lines_of(a + b) =~= lines_of(a) + lines_of(b));
    } else {
        assert(a.skip(i + 1).last() == a.last());
        lemma_lines_of_app(a.skip(i + 1), b);
        assert(lines_of(a + b) =~= lines_of(a) + lines_of(b));
    }
}

/// A single line with its newline is one line.
proof fn lemma_lines_of_single(l: Seq<char>)
    requires
        forall|x: int| 0 <= x < l.len() ==> (#[trigger] l[x]) != '\n',
    ensures
        lines_of(l + "\n"@) == seq![l],
{
    reveal_strlit("\n");
    let e = l + "\n"@;
    assert("\n"@.len() == 1);
    assert("\n"@[0] == '\n');
    assert(e.len() == l.len() + 1);
    assert forall|k: int| 0 <= k < l.len() implies e[k] != '\n' by {
        assert(e[k] == l[k]);
    }
    assert(e[l.len() as int] == '\n');
    lemma_first_nl_at(e, l.len() as int);
    assert(lines_of(e) == seq![e.take(l.len() as int)] + lines_of(e.skip(l.len() as int + 1)));
    assert(e.take(l.len() as int) =~= l);
    assert(e.skip(l.len() as int + 1).len() == 0);
    assert(lines_of(e.skip(l.len() as int + 1)) == Seq::<Seq<char>>::empty());
    assert(lines_of(e) =~= seq![l]);
}

/// The rendering of a collection of well-formed items parses back to
/// the same statuses and attribute maps, item for item, whatever status
/// run preceded and from any context with no project set.
#[verifier::spinoff_prover]
#[verifier::rlimit(100)]
proof fn lemma_roundtrip_items(items: Seq<ItemV>, prev: Option<Status>, st: ParseSt)
    requires
        forall|i: int| 0 <= i < items.len() ==> wf_render_item(#[trigger] items[i]),
        st.proj.len() == 0,
        st.branch is None,
    ensures
        ({
            let parsed = parse_lines(lines_of(render_items(items, prev)), st);
            &&& parsed.len() == items.len()
            &&& forall|i: int|
                0 <= i < items.len() ==> (#[trigger] parsed[i]).status == items[i].status
            &&& forall|i: int|
                0 <= i < items.len() ==> assoc_map((#[trigger] parsed[i]).attrs) == assoc_map(
                    items[i].attrs,
                )
        }),
    decreases items.len(),
{
    if items.len() == 0 {
        assert(render_items(items, prev).len() == 0);
        assert(lines_of(render_items(items, prev)) == Seq::<Seq<char>>::empty());
    } else {
        let iv = items.first();
        assert(wf_render_item(iv)) by {
            assert(items[0] == iv);
        }
        let st0 = iv.status;
        let lt = item_line_text(iv);
        let tail_text = render_items(items.drop_first(), Some(st0));
        let whole = render_items(items, prev);
        // the state the item line is parsed under
        let st1 = if prev == Some(st0) {
            st
        } else {
            ParseSt { status: st0, proj: st.proj, branch: st.branch }
        };
        assert(st1.proj.len() == 0 && st1.branch is None);
        lemma_item_line_roundtrip(iv, st1);
        lemma_lines_of_single(lt);
        reveal_strlit("\n");
        assert("\n"@.len() == 1 && "\n"@[0] == '\n');
        assert((lt + "\n"@).len() > 0);
        assert((lt + "\n"@).last() == '\n');
        let step = line_step(st1, lt);
        let piv = step.1->Some_0;
        assert(step.0 == st1);
        assert(piv.status == iv.status && assoc_map(piv.attrs) == assoc_map(iv.attrs));
        // recursion on the tail
        assert(forall|i: int|
            0 <= i < items.drop_first().len() ==> wf_render_item(
                #[trigger] items.drop_first()[i],
            )) by {
            assert(forall|i: int|
                0 <= i < items.drop_first().len() ==> items.drop_first()[i] == items[i + 1]);
        }
        lemma_roundtrip_items(items.drop_first(), Some(st0), st1);
        let parsed_tail = parse_lines(lines_of(tail_text), st1);
        let parsed = parse_lines(lines_of(whole), st);
        if prev == Some(st0) {
            assert(whole =~= (lt + "\n"@) + tail_text);
            lemma_lines_of_app(lt + "\n"@, tail_text);
            let ls = lines_of(whole);
            assert(ls == seq![lt] + lines_of(tail_text));
            assert(ls.first() == lt);
            assert(ls.drop_first() =~= lines_of(tail_text));
            assert(parsed == seq![piv] + parsed_tail);
        } else {
            lemma_header_roundtrip(st0, st);
            assert(whole =~= header_text(st0) + ((lt + "\n"@) + tail_text));
            lemma_lines_of_app(header_text(st0), (lt + "\n"@) + tail_text);
            lemma_lines_of_app(lt + "\n"@, tail_text);
            let ls = lines_of(whole);
            let hl = header_line_text(st0);
            assert(ls == seq![hl, Seq::<char>::empty()] + (seq![lt] + lines_of(tail_text)));
            assert(ls.first() == hl);
            assert(line_step(st, hl) == (st1, None::<ItemV>));
            let ls2 = ls.drop_first();
            assert(ls2 =~= seq![Seq::<char>::empty()] + (seq![lt] + lines_of(tail_text)));
            assert(parse_lines(ls, st) == parse_lines(ls2, st1));
            assert(ls2.first() == Seq::<char>::empty());
            assert(line_step(st1, Seq::<char>::empty()) == (st1, None::<ItemV>));
            let ls3 = ls2.drop_first();
            assert(ls3 =~= seq![lt] + lines_of(tail_text));
            assert(parse_lines(ls2, st1) == parse_lines(ls3, st1));
            assert(ls3.first() == lt);
            assert(ls3.drop_first() =~= lines_of(tail_text));
            assert(parse_lines(ls3, st1) == seq![piv] + parsed_tail);
            assert(parsed == seq![piv] + parsed_tail);
        }
        // index the assembled result
        assert(parsed.len() == items.len());
        assert forall|i: int| 0 <= i < items.len() implies (#[trigger] parsed[i]).status
            == items[i].status && assoc_map(parsed[i].attrs) == assoc_map(items[i].attrs) by {
            if i == 0 {
                assert(parsed[0] == piv);
            } else {
                assert(parsed[i] == parsed_tail[i - 1]);
                assert(items.drop_first()[i - 1] == items[i]);
            }
        }
    }
}

/// Round trip: for a collection in canonical order whose items respect
/// the document grammar, parsing its own rendering reproduces the same
/// attribute maps and statuses, item for item.  (Messages that embed a
/// complete `[key:: value]` annotation, un-trimmed or multi-line texts,
/// and attribute values holding `]` fall outside the grammar and are
/// excluded by `wf_render_item`.)
pub proof fn lemma_parse_render_roundtrip(items: Seq<ItemV>)
    requires
        sorted_spec(items),
        forall|i: int| 0 <= i < items.len() ==> wf_render_item(#[trigger] items[i]),
    ensures
        parse_spec(render_spec(items)).len() == items.len(),
        forall|i: int|
            0 <= i < items.len() ==> (#[trigger] parse_spec(render_spec(items))[i]).status
                == items[i].status,
        forall|i: int|
            0 <= i < items.len() ==> assoc_map(
                (#[trigger] parse_spec(render_spec(items))[i]).attrs,
            ) == assoc_map(items[i].attrs),
{
    let st = initial_state();
    assert(st.proj.len() == 0 && st.branch is None);
    lemma_roundtrip_items(items, None, st);
}

} // verus!
