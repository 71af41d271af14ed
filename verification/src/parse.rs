//! Parsing the persisted document into a collection.
//!
//! The parser is total: every line either updates the running section or
//! project context, produces one item, or is ignored.  Items are appended
//! strictly in document order; no sorting or deduplication happens here.

use vstd::prelude::*;

use crate::text::trim_end_spec;
use crate::text::trim_end_str;
use crate::text::trim_spec;
use crate::text::trim_str;
use crate::text::str_eq;
use crate::types::assoc_get;
use crate::types::assoc_insert;
use crate::types::attrs_distinct;
use crate::types::build_assoc;
use crate::types::inbox_wf;
use crate::types::item_wf;
use crate::types::pairs_view;
use crate::types::status_from_char;
use crate::types::views_of;
use crate::types::Inbox;
use crate::types::InboxItem;
use crate::types::ItemV;
use crate::types::Status;

verus! {

/// Index of the first newline in `s`, or `s.len()` if there is none.
pub open spec fn first_nl(s: Seq<char>) -> int
    decreases s.len(),
{
    if s.len() == 0 {
        0
    } else if s.first() == '\n' {
        0
    } else {
        1 + first_nl(s.drop_first())
    }
}

/// `first_nl` is a position in `s` (or its length), everything before it
/// is not a newline, and it points at a newline when inside.
pub proof fn lemma_first_nl_bounds(s: Seq<char>)
    ensures
        0 <= first_nl(s) <= s.len(),
        forall|k: int| 0 <= k < first_nl(s) ==> s[k] != '\n',
        first_nl(s) < s.len() ==> s[first_nl(s)] == '\n',
    decreases s.len(),
{
    if s.len() > 0 && s.first() != '\n' {
        lemma_first_nl_bounds(s.drop_first());
        assert forall|k: int| 0 <= k < first_nl(s) implies s[k] != '\n' by {
            if k > 0 {
                assert(s.drop_first()[k - 1] == s[k]);
            }
        }
        if first_nl(s) < s.len() {
            assert(s.drop_first()[first_nl(s) - 1] == s[first_nl(s)]);
        }
    }
}

/// A scan that stops at the first newline finds `first_nl`.
pub proof fn lemma_first_nl_at(s: Seq<char>, m: int)
    requires
        0 <= m <= s.len(),
        forall|k: int| 0 <= k < m ==> s[k] != '\n',
        m == s.len() || s[m] == '\n',
    ensures
        first_nl(s) == m,
    decreases m,
{
    if m > 0 {
        assert(s.first() != '\n');
        lemma_first_nl_at(s.drop_first(), m - 1);
    } else {
        if s.len() > 0 {
            assert(s[0] == '\n');
        }
    }
}

/// The lines of a document: segments between newlines, where a trailing
/// newline does not open a final empty line.  This is how `str::lines`
/// splits, up to the carriage returns that trimming removes anyway.
pub open spec fn lines_of(s: Seq<char>) -> Seq<Seq<char>>
    decreases s.len(),
{
    if s.len() == 0 {
        Seq::empty()
    } else {
        let i = first_nl(s);
        if 0 <= i && i < s.len() {
            seq![s.take(i)] + lines_of(s.skip(i + 1))
        } else {
            seq![s]
        }
    }
}

/// First index at or after `j` holding `:` or `]`, or the length.
pub open spec fn key_end(r: Seq<char>, j: int) -> int
    decreases r.len() - j,
{
    if j < 0 || j >= r.len() {
        r.len() as int
    } else if r[j] == ':' || r[j] == ']' {
        j
    } else {
        key_end(r, j + 1)
    }
}

/// A scan that stops at the first `:` or `]` finds `key_end`.
pub proof fn lemma_key_end_at(r: Seq<char>, start: int, m: int)
    requires
        0 <= start <= m <= r.len(),
        forall|k: int| start <= k < m ==> r[k] != ':' && r[k] != ']',
        m == r.len() || r[m] == ':' || r[m] == ']',
    ensures
        key_end(r, start) == m,
    decreases m - start,
{
    if start < m {
        lemma_key_end_at(r, start + 1, m);
    }
}

/// First index at or after `j` holding `]`, or the length.
pub open spec fn val_end(r: Seq<char>, j: int) -> int
    decreases r.len() - j,
{
    if j < 0 || j >= r.len() {
        r.len() as int
    } else if r[j] == ']' {
        j
    } else {
        val_end(r, j + 1)
    }
}

/// A scan that stops at the first `]` finds `val_end`.
pub proof fn lemma_val_end_at(r: Seq<char>, start: int, m: int)
    requires
        0 <= start <= m <= r.len(),
        forall|k: int| start <= k < m ==> r[k] != ']',
        m == r.len() || r[m] == ']',
    ensures
        val_end(r, start) == m,
    decreases m - start,
{
    if start < m {
        lemma_val_end_at(r, start + 1, m);
    }
}

/// One annotation match: where it ends, and its trimmed key and value.
pub ghost struct AnnMatch {
    pub end: int,
    pub key: Seq<char>,
    pub val: Seq<char>,
}

/// The annotation starting exactly at `i`, if the text there matches
/// `[<key>:: <value>]` with a non-empty key free of `:` and `]` and a
/// non-empty value free of `]`.  Key and value are stored trimmed.
pub open spec fn match_at(r: Seq<char>, i: int) -> Option<AnnMatch> {
    if !(0 <= i && i < r.len() && r[i] == '[') {
        None
    } else {
        let ke = key_end(r, i + 1);
        if ke == i + 1 {
            None
        } else if !(ke + 2 < r.len() && r[ke] == ':' && r[ke + 1] == ':' && r[ke + 2] == ' ') {
            None
        } else {
            let vs = ke + 3;
            let ve = val_end(r, vs);
            if ve < r.len() && ve > vs {
                Some(
                    AnnMatch {
                        end: ve + 1,
                        key: trim_spec(r.subrange(i + 1, ke)),
                        val: trim_spec(r.subrange(vs, ve)),
                    },
                )
            } else {
                None
            }
        }
    }
}

/// A match spans forward and stays inside the text.
pub proof fn lemma_match_at_bounds(r: Seq<char>, i: int)
    ensures
        match_at(r, i) matches Some(m) ==> i < m.end <= r.len(),
{
    if match_at(r, i) is Some {
        let ke = key_end(r, i + 1);
        lemma_key_end_bounds(r, i + 1);
        let ve = val_end(r, ke + 3);
        lemma_val_end_bounds(r, ke + 3);
    }
}

/// `key_end` lies between its start and the length.
pub proof fn lemma_key_end_bounds(r: Seq<char>, j: int)
    requires
        0 <= j <= r.len(),
    ensures
        j <= key_end(r, j) <= r.len(),
    decreases r.len() - j,
{
    if j < r.len() && !(r[j] == ':' || r[j] == ']') {
        lemma_key_end_bounds(r, j + 1);
    }
}

/// `val_end` lies between its start and the length.
pub proof fn lemma_val_end_bounds(r: Seq<char>, j: int)
    requires
        0 <= j <= r.len(),
    ensures
        j <= val_end(r, j) <= r.len(),
    decreases r.len() - j,
{
    if j < r.len() && r[j] != ']' {
        lemma_val_end_bounds(r, j + 1);
    }
}

/// Position of the first annotation match at or after `i`, if any.
pub open spec fn first_match_from(r: Seq<char>, i: int) -> Option<int>
    decreases r.len() - i,
{
    if i < 0 || i >= r.len() {
        None
    } else if match_at(r, i) is Some {
        Some(i)
    } else {
        first_match_from(r, i + 1)
    }
}

/// The key/value pairs of all annotation matches, scanned left to right,
/// each scan resuming where the previous match ended.
pub open spec fn ann_pairs_from(r: Seq<char>, i: int) -> Seq<(Seq<char>, Seq<char>)>
    decreases r.len() - i,
{
    if i < 0 || i >= r.len() {
        Seq::empty()
    } else {
        match first_match_from(r, i) {
            None => Seq::empty(),
            Some(j) => match match_at(r, j) {
                Some(m) => if i <= j && j < m.end && m.end <= r.len() {
                    seq![(m.key, m.val)] + ann_pairs_from(r, m.end)
                } else {
                    Seq::empty()
                },
                None => Seq::empty(),
            },
        }
    }
}

/// The first match found is at or after where the scan started.
pub proof fn lemma_first_match_bounds(r: Seq<char>, i: int)
    ensures
        first_match_from(r, i) matches Some(j) ==> i <= j < r.len() && match_at(r, j) is Some,
        first_match_from(r, i) matches Some(j) ==> forall|k: int|
            i <= k < j ==> #[trigger] match_at(r, k) is None,
    decreases r.len() - i,
{
    if 0 <= i && i < r.len() && match_at(r, i) is None {
        lemma_first_match_bounds(r, i + 1);
    }
}

/// Scanning one position with no match changes nothing.
pub proof fn lemma_ann_step_none(r: Seq<char>, i: int)
    requires
        0 <= i,
        match_at(r, i) is None,
    ensures
        ann_pairs_from(r, i) == ann_pairs_from(r, i + 1),
        first_match_from(r, i) == first_match_from(r, i + 1),
{
    if i >= r.len() {
        assert(ann_pairs_from(r, i) == Seq::<(Seq<char>, Seq<char>)>::empty());
        assert(ann_pairs_from(r, i + 1) == Seq::<(Seq<char>, Seq<char>)>::empty());
    }
}

/// A match contributes its pair and the scan resumes at its end.
pub proof fn lemma_ann_step_some(r: Seq<char>, i: int, m: AnnMatch)
    requires
        0 <= i,
        match_at(r, i) == Some(m),
    ensures
        first_match_from(r, i) == Some(i),
        ann_pairs_from(r, i) == seq![(m.key, m.val)] + ann_pairs_from(r, m.end),
{
    lemma_match_at_bounds(r, i);
}

/// Whether a trimmed line is a section header `## <name>`.
pub open spec fn is_section_line(t: Seq<char>) -> bool {
    t.len() > 3 && t[0] == '#' && t[1] == '#' && t[2] == ' '
}

/// The status context after a section header: known names select a
/// status, an unknown name leaves the context unchanged.
pub open spec fn section_update(t: Seq<char>, cur: Status) -> Status {
    let name = t.skip(3);
    if name == "Waiting for Input"@ || name == "Waiting"@ {
        Status::Waiting
    } else if name == "Background"@ || name == "Working"@ {
        Status::Working
    } else {
        cur
    }
}

/// Whether a trimmed line starts with three hash marks.
pub open spec fn starts_hashes3(t: Seq<char>) -> bool {
    t.len() >= 3 && t[0] == '#' && t[1] == '#' && t[2] == '#'
}

/// First index of `(` in `r`, or the length.
pub open spec fn first_paren(r: Seq<char>, j: int) -> int
    decreases r.len() - j,
{
    if j < 0 || j >= r.len() {
        r.len() as int
    } else if r[j] == '(' {
        j
    } else {
        first_paren(r, j + 1)
    }
}

/// A scan that stops at the first `(` finds `first_paren`.
pub proof fn lemma_first_paren_at(r: Seq<char>, start: int, m: int)
    requires
        0 <= start <= m <= r.len(),
        forall|k: int| start <= k < m ==> r[k] != '(',
        m == r.len() || r[m] == '(',
    ensures
        first_paren(r, start) == m,
    decreases m - start,
{
    if start < m {
        lemma_first_paren_at(r, start + 1, m);
    }
}

/// A legacy project header `### <name>` or `### <name> (<branch>)`:
/// the trimmed project name and the branch text, if the line matches.
pub open spec fn project_of(t: Seq<char>) -> Option<(Seq<char>, Option<Seq<char>>)> {
    if !(t.len() > 4 && t[0] == '#' && t[1] == '#' && t[2] == '#' && t[3] == ' ') {
        None
    } else {
        let rest = t.skip(4);
        let p = first_paren(rest, 0);
        if p == rest.len() {
            Some((trim_spec(rest), None))
        } else if rest.last() == ')' && p >= 1 && p + 1 < rest.len() - 1 && (forall|k: int|
            p + 1 <= k < rest.len() - 1 ==> rest[k] != ')') {
            Some((trim_spec(rest.take(p)), Some(rest.subrange(p + 1, rest.len() - 1))))
        } else {
            None
        }
    }
}

/// Whether a trimmed line is an item line `- [<char>] <rest>`.
pub open spec fn is_item_line(t: Seq<char>) -> bool {
    t.len() >= 7 && t[0] == '-' && t[1] == ' ' && t[2] == '[' && t[4] == ']' && t[5] == ' '
}

/// The attribute list of one parsed item line: annotations in match
/// order with a repeated key keeping its last value, then the message
/// text under `msg` if non-empty, then project and branch backfilled
/// from the header context where absent.
pub open spec fn item_attrs_of(
    rest: Seq<char>,
    proj: Seq<char>,
    branch: Option<Seq<char>>,
) -> Seq<(Seq<char>, Seq<char>)> {
    let base = build_assoc(ann_pairs_from(rest, 0));
    let msg = match first_match_from(rest, 0) {
        Some(j) => trim_spec(rest.take(j)),
        None => trim_spec(rest),
    };
    let with_msg = if msg.len() > 0 {
        assoc_insert(base, "msg"@, msg)
    } else {
        base
    };
    let with_proj = if proj.len() > 0 && assoc_get(with_msg, "proj"@) is None {
        assoc_insert(with_msg, "proj"@, proj)
    } else {
        with_msg
    };
    match branch {
        Some(b) => if assoc_get(with_proj, "branch"@) is None {
            assoc_insert(with_proj, "branch"@, b)
        } else {
            with_proj
        },
        None => with_proj,
    }
}

/// The running context of the line-by-line parse.
pub ghost struct ParseSt {
    pub status: Status,
    pub proj: Seq<char>,
    pub branch: Option<Seq<char>>,
}

/// The context a fresh parse starts from.
pub open spec fn initial_state() -> ParseSt {
    ParseSt { status: Status::Waiting, proj: Seq::empty(), branch: None }
}

/// Process one raw line: the new context, and the item it produced, if
/// any.  Classification order: section header, project header, other
/// lines starting `###` (ignored), item line, anything else (ignored).
pub open spec fn line_step(st: ParseSt, line: Seq<char>) -> (ParseSt, Option<ItemV>) {
    let t = trim_end_spec(line);
    if is_section_line(t) {
        (ParseSt { status: section_update(t, st.status), proj: st.proj, branch: st.branch }, None)
    } else {
        match project_of(t) {
            Some(pb) => (ParseSt { status: st.status, proj: pb.0, branch: pb.1 }, None),
            None => if starts_hashes3(t) {
                (st, None)
            } else if is_item_line(t) {
                let status = match status_from_char(t[3]) {
                    Some(s2) => s2,
                    None => st.status,
                };
                (
                    st,
                    Some(
                        ItemV { attrs: item_attrs_of(t.skip(6), st.proj, st.branch), status },
                    ),
                )
            } else {
                (st, None)
            },
        }
    }
}

/// Fold `line_step` over a sequence of lines, collecting items in order.
pub open spec fn parse_lines(lines: Seq<Seq<char>>, st: ParseSt) -> Seq<ItemV>
    decreases lines.len(),
{
    if lines.len() == 0 {
        Seq::empty()
    } else {
        let step = line_step(st, lines.first());
        let rest = parse_lines(lines.drop_first(), step.0);
        match step.1 {
            Some(iv) => seq![iv] + rest,
            None => rest,
        }
    }
}

/// The collection a document denotes, in document order.
pub open spec fn parse_spec(s: Seq<char>) -> Seq<ItemV> {
    parse_lines(lines_of(s), initial_state())
}

/// Association lists built by repeated insertion have distinct keys.
pub proof fn lemma_build_assoc_distinct(ps: Seq<(Seq<char>, Seq<char>)>)
    ensures
        attrs_distinct(build_assoc(ps)),
    decreases ps.len(),
{
    if ps.len() == 0 {
        assert(attrs_distinct(build_assoc(ps)));
    } else {
        lemma_build_assoc_distinct(ps.drop_last());
        crate::types::lemma_assoc_insert(build_assoc(ps.drop_last()), ps.last().0, ps.last().1);
    }
}

/// Every item the parser produces is well-formed.
pub proof fn lemma_item_attrs_wf(rest: Seq<char>, proj: Seq<char>, branch: Option<Seq<char>>)
    ensures
        attrs_distinct(item_attrs_of(rest, proj, branch)),
{
    lemma_build_assoc_distinct(ann_pairs_from(rest, 0));
    let base = build_assoc(ann_pairs_from(rest, 0));
    let msg = match first_match_from(rest, 0) {
        Some(j) => trim_spec(rest.take(j)),
        None => trim_spec(rest),
    };
    let with_msg = if msg.len() > 0 {
        assoc_insert(base, "msg"@, msg)
    } else {
        base
    };
    crate::types::lemma_assoc_insert(base, "msg"@, msg);
    let with_proj = if proj.len() > 0 && assoc_get(with_msg, "proj"@) is None {
        assoc_insert(with_msg, "proj"@, proj)
    } else {
        with_msg
    };
    crate::types::lemma_assoc_insert(with_msg, "proj"@, proj);
    match branch {
        Some(b) => {
            crate::types::lemma_assoc_insert(with_proj, "branch"@, b);
        },
        None => {},
    }
}

/// View of an optional owned string.
pub open spec fn opt_string_view(o: Option<String>) -> Option<Seq<char>> {
    match o {
        Some(s) => Some(s@),
        None => None,
    }
}

/// Try to match an annotation `[<key>:: <value>]` starting at `i`.
fn try_match(r: &str, i: usize) -> (res: Option<(usize, String, String)>)
    requires
        i < r@.len(),
    ensures
        match res {
            Some(t) => match_at(r@, i as int) == Some(
                AnnMatch { end: t.0 as int, key: t.1@, val: t.2@ },
            ) && i < t.0 <= r@.len(),
            None => match_at(r@, i as int) is None,
        },
{
    let n = r.unicode_len();
    if r.get_char(i) != '[' {
        return None;
    }
    // scan the key: characters other than `:` and `]`
    let mut ke = i + 1;
    while ke < n && r.get_char(ke) != ':' && r.get_char(ke) != ']'
        invariant
            i + 1 <= ke <= n,
            n == r@.len(),
            i < n,
            forall|k: int| i + 1 <= k < ke ==> r@[k] != ':' && r@[k] != ']',
        decreases n - ke,
    {
        ke = ke + 1;
    }
    proof {
        lemma_key_end_at(r@, i + 1, ke as int);
    }
    if ke == i + 1 {
        return None;
    }
    if ke >= n || r.get_char(ke) != ':' {
        return None;
    }
    if ke + 1 >= n || r.get_char(ke + 1) != ':' {
        return None;
    }
    if ke + 2 >= n || r.get_char(ke + 2) != ' ' {
        return None;
    }
    let vs = ke + 3;
    // scan the value: characters other than `]`
    let mut ve = vs;
    while ve < n && r.get_char(ve) != ']'
        invariant
            vs <= ve <= n,
            n == r@.len(),
            forall|k: int| vs <= k < ve ==> r@[k] != ']',
        decreases n - ve,
    {
        ve = ve + 1;
    }
    proof {
        lemma_val_end_at(r@, vs as int, ve as int);
    }
    if ve >= n {
        return None;
    }
    if ve == vs {
        return None;
    }
    let key = String::from_str(trim_str(r.substring_char(i + 1, ke)));
    let val = String::from_str(trim_str(r.substring_char(vs, ve)));
    Some((ve + 1, key, val))
}

/// Whether the association vector holds a pair with key `k`.
fn assoc_has(m: &Vec<(String, String)>, k: &str) -> (r: bool)
    ensures
        r == (assoc_get(pairs_view(m@), k@) is Some),
{
    let n = m.len();
    let mut i: usize = 0;
    while i < n
        invariant
            0 <= i <= n,
            n == m@.len(),
            forall|j: int| 0 <= j < i ==> (#[trigger] pairs_view(m@)[j]).0 != k@,
        decreases n - i,
    {
        if str_eq(m[i].0.as_str(), k) {
            proof {
                crate::types::lemma_assoc_get_at(pairs_view(m@), k@, i as int);
            }
            return true;
        }
        i = i + 1;
    }
    proof {
        crate::types::lemma_assoc_get_none(pairs_view(m@), k@);
    }
    false
}

/// Build one item from the text after `- [c] `, with the header context.
fn build_item(rest: &str, proj: &String, branch: &Option<String>, status: Status) -> (r: InboxItem)
    ensures
        r@.attrs == item_attrs_of(rest@, proj@, opt_string_view(*branch)),
        r@.status == status,
        item_wf(r@),
{
    let n = rest.unicode_len();
    let mut attrs: Vec<(String, String)> = Vec::new();
    let mut first_found: Option<usize> = None;
    let ghost all_pairs = ann_pairs_from(rest@, 0);
    let ghost fm = first_match_from(rest@, 0);
    let mut i: usize = 0;
    let ghost mut seen: Seq<(Seq<char>, Seq<char>)> = Seq::empty();
    while i < n
        invariant
            0 <= i <= n,
            n == rest@.len(),
            all_pairs == ann_pairs_from(rest@, 0),
            fm == first_match_from(rest@, 0),
            all_pairs == seen + ann_pairs_from(rest@, i as int),
            pairs_view(attrs@) == build_assoc(seen),
            match first_found {
                Some(j) => fm == Some(j as int),
                None => fm == first_match_from(rest@, i as int),
            },
        decreases n - i,
    {
        match try_match(rest, i) {
            None => {
                proof {
                    lemma_ann_step_none(rest@, i as int);
                }
                i = i + 1;
            },
            Some(t) => {
                let (end, k, v) = t;
                proof {
                    let m = AnnMatch { end: end as int, key: k@, val: v@ };
                    lemma_ann_step_some(rest@, i as int, m);
                    let ghost seen2 = seen.push((k@, v@));
                    assert(seen2.drop_last() =~= seen);
                    assert(seen2.last() == (k@, v@));
                    assert(build_assoc(seen2) == assoc_insert(build_assoc(seen), k@, v@));
                    assert(seen + ann_pairs_from(rest@, i as int) =~= seen2 + ann_pairs_from(
                        rest@,
                        end as int,
                    ));
                    seen = seen2;
                }
                if first_found.is_none() {
                    first_found = Some(i);
                }
                crate::types::assoc_set(&mut attrs, k, v);
                i = end;
            },
        }
    }
    proof {
        assert(ann_pairs_from(rest@, i as int) == Seq::<(Seq<char>, Seq<char>)>::empty());
        assert(all_pairs =~= seen);
        if first_found is None {
            assert(fm == first_match_from(rest@, i as int));
            assert(first_match_from(rest@, i as int) is None);
        }
    }
    // message text: everything before the first annotation, trimmed
    let msg: &str = match first_found {
        Some(j) => {
            proof {
                lemma_first_match_bounds(rest@, 0);
            }
            let m = trim_str(rest.substring_char(0, j));
            proof {
                assert(rest@.subrange(0, j as int) =~= rest@.take(j as int));
            }
            m
        },
        None => trim_str(rest),
    };
    if msg.unicode_len() > 0 {
        crate::types::assoc_set(&mut attrs, String::from_str("msg"), String::from_str(msg));
    }
    // backfill project / branch context where absent
    if !proj.as_str().is_empty() && !assoc_has(&attrs, "proj") {
        crate::types::assoc_set(&mut attrs, String::from_str("proj"), proj.clone());
    }
    match branch {
        Some(b) => {
            if !assoc_has(&attrs, "branch") {
                crate::types::assoc_set(&mut attrs, String::from_str("branch"), b.clone());
            }
        },
        None => {},
    }
    proof {
        lemma_item_attrs_wf(rest@, proj@, opt_string_view(*branch));
    }
    InboxItem { attrs, status }
}

/// Process one raw line against the running context, appending a parsed
/// item to the collection if the line is an item line.
fn process_line(
    inbox: &mut Inbox,
    status: &mut Status,
    proj: &mut String,
    branch: &mut Option<String>,
    line: &str,
)
    ensures
        ({
            let pre = ParseSt {
                status: *old(status),
                proj: old(proj)@,
                branch: opt_string_view(*old(branch)),
            };
            let step = line_step(pre, line@);
            &&& *final(status) == step.0.status
            &&& final(proj)@ == step.0.proj
            &&& opt_string_view(*final(branch)) == step.0.branch
            &&& final(inbox)@ == old(inbox)@ + (match step.1 {
                Some(iv) => seq![iv],
                None => Seq::<ItemV>::empty(),
            })
            &&& (step.1 matches Some(iv) ==> item_wf(iv))
        }),
{
    let ghost pre = ParseSt {
        status: *old(status),
        proj: old(proj)@,
        branch: opt_string_view(*old(branch)),
    };
    let t = trim_end_str(line);
    let tn = t.unicode_len();
    // section header `## <name>`
    if tn > 3 && t.get_char(0) == '#' && t.get_char(1) == '#' && t.get_char(2) == ' ' {
        let name = t.substring_char(3, tn);
        proof {
            assert(name@ =~= t@.skip(3));
        }
        if str_eq(name, "Waiting for Input") || str_eq(name, "Waiting") {
            *status = Status::Waiting;
        } else if str_eq(name, "Background") || str_eq(name, "Working") {
            *status = Status::Working;
        }
        proof {
            assert(inbox@ =~= old(inbox)@ + Seq::<ItemV>::empty());
        }
        return;
    }
    // project header `### <name>` / `### <name> (<branch>)`, or any other
    // line starting `###`, which is ignored
    if tn >= 3 && t.get_char(0) == '#' && t.get_char(1) == '#' && t.get_char(2) == '#' {
        if tn > 4 && t.get_char(3) == ' ' {
            let rest = t.substring_char(4, tn);
            let rn = rest.unicode_len();
            proof {
                assert(rest@ =~= t@.skip(4));
            }
            // find the first `(`
            let mut p: usize = 0;
            while p < rn && rest.get_char(p) != '('
                invariant
                    0 <= p <= rn,
                    rn == rest@.len(),
                    forall|k: int| 0 <= k < p ==> rest@[k] != '(',
                decreases rn - p,
            {
                p = p + 1;
            }
            proof {
                lemma_first_paren_at(rest@, 0, p as int);
            }
            if p == rn {
                *proj = String::from_str(trim_str(rest));
                *branch = None;
                proof {
                    assert(inbox@ =~= old(inbox)@ + Seq::<ItemV>::empty());
                }
                return;
            }
            if rest.get_char(rn - 1) == ')' && p >= 1 && p + 1 < rn - 1 {
                // check that the branch text holds no `)`
                let mut q = p + 1;
                let mut clean = true;
                while q < rn - 1
                    invariant
                        p + 1 <= q <= rn - 1,
                        rn == rest@.len(),
                        rn >= 1,
                        clean == (forall|k: int| p + 1 <= k < q ==> rest@[k] != ')'),
                    decreases rn - 1 - q,
                {
                    if rest.get_char(q) == ')' {
                        clean = false;
                    }
                    q = q + 1;
                }
                if clean {
                    *proj = String::from_str(trim_str(rest.substring_char(0, p)));
                    *branch = Some(String::from_str(rest.substring_char(p + 1, rn - 1)));
                    proof {
                        assert(rest@.subrange(0, p as int) =~= rest@.take(p as int));
                        assert(inbox@ =~= old(inbox)@ + Seq::<ItemV>::empty());
                    }
                    return;
                }
            }
        }
        // not a recognized project header: ignored
        proof {
            assert(project_of(trim_end_spec(line@)) is None);
            assert(inbox@ =~= old(inbox)@ + Seq::<ItemV>::empty());
        }
        return;
    }
    // item line `- [<char>] <rest>`
    if tn >= 7 && t.get_char(0) == '-' && t.get_char(1) == ' ' && t.get_char(2) == '[' && t.get_char(
        4,
    ) == ']' && t.get_char(5) == ' ' {
        let c = t.get_char(3);
        let st_item = match Status::from_char(c) {
            Some(s2) => s2,
            None => *status,
        };
        let rest = t.substring_char(6, tn);
        proof {
            assert(rest@ =~= t@.skip(6));
        }
        let item = build_item(rest, proj, branch, st_item);
        let ghost items_pre = inbox.items@;
        inbox.items.push(item);
        proof {
            assert(views_of(inbox.items@) =~= views_of(items_pre).push(item@));
            assert(inbox@ =~= old(inbox)@ + seq![item@]);
        }
        return;
    }
    // anything else: ignored
    proof {
        assert(inbox@ =~= old(inbox)@ + Seq::<ItemV>::empty());
    }
}

/// Parse a document into a collection, in document order.  Every input
/// is accepted; unrecognized lines are ignored.  The result is *not*
/// re-sorted: run items through the mutation API to restore the
/// canonical order.
pub fn parse(content: &str) -> (r: Inbox)
    ensures
        r@ == parse_spec(content@),
        inbox_wf(r@),
{
    let mut inbox = Inbox::new();
    let mut status = Status::Waiting;
    let mut proj = String::new();
    let mut branch: Option<String> = None;
    let n = content.unicode_len();
    let mut pos: usize = 0;
    proof {
        assert(content@.skip(0) =~= content@);
        assert(proj@ =~= Seq::<char>::empty());
        assert(inbox@ =~= Seq::<ItemV>::empty());
    }
    while pos < n
        invariant
            0 <= pos <= n,
            n == content@.len(),
            inbox_wf(inbox@),
            parse_spec(content@) == inbox@ + parse_lines(
                lines_of(content@.skip(pos as int)),
                ParseSt { status, proj: proj@, branch: opt_string_view(branch) },
            ),
        decreases n - pos,
    {
        // find the end of the current line
        let mut e = pos;
        while e < n && content.get_char(e) != '\n'
            invariant
                pos <= e <= n,
                n == content@.len(),
                forall|k: int| pos <= k < e ==> content@[k] != '\n',
            decreases n - e,
        {
            e = e + 1;
        }
        let line = content.substring_char(pos, e);
        let ghost tail = content@.skip(pos as int);
        proof {
            assert forall|k: int| 0 <= k < e - pos implies tail[k] != '\n' by {
                assert(tail[k] == content@[pos + k]);
            }
            if e < n {
                assert(tail[e - pos] == content@[e as int]);
            }
            lemma_first_nl_at(tail, e - pos);
            assert(line@ =~= tail.take(e - pos));
        }
        let ghost st_pre = ParseSt { status, proj: proj@, branch: opt_string_view(branch) };
        let ghost inbox_pre = inbox@;
        process_line(&mut inbox, &mut status, &mut proj, &mut branch, line);
        let newpos = if e < n {
            e + 1
        } else {
            n
        };
        proof {
            let st_post = ParseSt { status, proj: proj@, branch: opt_string_view(branch) };
            let step = line_step(st_pre, line@);
            let rest_lines = lines_of(content@.skip(newpos as int));
            if e < n {
                // the line ends at a newline: the tail splits there
                assert(tail.skip(e - pos + 1) =~= content@.skip(newpos as int));
                assert(lines_of(tail) == seq![line@] + rest_lines);
            } else {
                // final line without trailing newline
                assert(first_nl(tail) == tail.len());
                assert(lines_of(tail) == seq![tail]);
                assert(line@ =~= tail);
                assert(content@.skip(newpos as int).len() == 0);
                assert(rest_lines =~= Seq::<Seq<char>>::empty());
                assert(lines_of(tail) =~= seq![line@] + rest_lines);
            }
            let ls = seq![line@] + rest_lines;
            assert(ls.first() == line@);
            assert(ls.drop_first() =~= rest_lines);
            assert(parse_lines(ls, st_pre) == (match step.1 {
                Some(iv) => seq![iv] + parse_lines(rest_lines, step.0),
                None => parse_lines(rest_lines, step.0),
            }));
            assert(st_post == step.0);
            match step.1 {
                Some(iv) => {
                    assert(inbox@ == inbox_pre + seq![iv]);
                    assert(inbox_pre + parse_lines(lines_of(tail), st_pre) =~= inbox@
                        + parse_lines(rest_lines, st_post));
                    assert forall|ii: int| 0 <= ii < inbox@.len() implies item_wf(
                        #[trigger] inbox@[ii],
                    ) by {
                        if ii < inbox_pre.len() {
                            assert(inbox@[ii] == inbox_pre[ii]);
                        } else {
                            assert(inbox@[ii] == iv);
                        }
                    }
                },
                None => {
                    assert(inbox@ == inbox_pre + Seq::<ItemV>::empty());
                    assert(inbox@ =~= inbox_pre);
                    assert(inbox_pre + parse_lines(lines_of(tail), st_pre) =~= inbox@
                        + parse_lines(rest_lines, st_post));
                },
            }
        }
        pos = newpos;
    }
    proof {
        assert(content@.skip(pos as int).len() == 0);
        assert(lines_of(content@.skip(pos as int)) =~= Seq::<Seq<char>>::empty());
        assert(parse_spec(content@) =~= inbox@);
    }
    inbox
}

} // verus!
