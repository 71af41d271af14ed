//! The grouping engine behind both the plain list output and the
//! interactive view: multi-level headers interleaved with item lines, a
//! stable logical-item to display-line mapping, and the selection state
//! machine the interactive loop drives.

use vstd::prelude::*;

use crate::text::str_eq;
use crate::types::assoc_get;
use crate::types::item_branch;
use crate::types::item_msg;
use crate::types::item_pane;
use crate::types::item_proj;
use crate::types::remove_pane;
use crate::types::status_section_name;
use crate::types::Inbox;
use crate::types::InboxItem;
use crate::types::ItemV;

verus! {

/// The display string one item yields for one grouping level.
pub open spec fn group_value_spec(iv: ItemV, key: Seq<char>) -> Seq<char> {
    if key == "status"@ {
        status_section_name(iv.status)
    } else if key == "proj"@ {
        let p = match item_proj(iv) {
            Some(p) => p,
            None => "(no project)"@,
        };
        match item_branch(iv) {
            Some(b) => p + " ("@ + b + ")"@,
            None => p,
        }
    } else {
        match assoc_get(iv.attrs, key) {
            Some(v) => v,
            None => "(none)"@,
        }
    }
}

/// Resolve the display string of one grouping level for an item:
/// `status` maps to the section name; `proj` to the project label with
/// the branch in parentheses, or a placeholder; any other key to the raw
/// attribute value, or a placeholder.
pub fn get_group_value(item: &InboxItem, key: &str) -> (r: String)
    ensures
        r@ == group_value_spec(item@, key@),
{
    if str_eq(key, "status") {
        String::from_str(item.status.section_name())
    } else if str_eq(key, "proj") {
        let mut s = match item.proj() {
            Some(p) => String::from_str(p),
            None => String::from_str("(no project)"),
        };
        match item.branch() {
            Some(b) => {
                s.append(" (");
                s.append(b);
                s.append(")");
            },
            None => {},
        }
        s
    } else {
        match item.get(key) {
            Some(v) => String::from_str(v),
            None => String::from_str("(none)"),
        }
    }
}

/// Two spaces of indentation per level.
pub open spec fn indent(n: int) -> Seq<char>
    decreases n,
{
    if n <= 0 {
        Seq::empty()
    } else {
        indent(n - 1) + "  "@
    }
}

/// The tracked values after a header is emitted at `level`: outer
/// levels keep their values, `level` takes the new value, every deeper
/// level is cleared.
pub open spec fn cleared_groups(
    groups: Seq<Option<Seq<char>>>,
    n: int,
    level: int,
    value: Seq<char>,
) -> Seq<Option<Seq<char>>> {
    Seq::new(
        n as nat,
        |k: int|
            if k < level {
                if k < groups.len() {
                    groups[k]
                } else {
                    None
                }
            } else if k == level {
                Some(value)
            } else {
                None
            },
    )
}

/// The headers one item forces, walking levels outward-in: whenever a
/// level's value differs from the tracked one, a header is emitted, the
/// level's value is updated, and every deeper level is cleared (so a
/// later return to a cleared value re-emits its header).  Returns the
/// new tracked values and the (level, value) pairs emitted.
pub open spec fn headers_for(
    groups: Seq<Option<Seq<char>>>,
    keys: Seq<Seq<char>>,
    iv: ItemV,
    level: int,
) -> (Seq<Option<Seq<char>>>, Seq<(int, Seq<char>)>)
    decreases keys.len() - level,
{
    if level < 0 || level >= keys.len() {
        (groups, Seq::empty())
    } else {
        let value = group_value_spec(iv, keys[level]);
        if groups.len() == keys.len() && groups[level] == Some(value) {
            headers_for(groups, keys, iv, level + 1)
        } else {
            let rec = headers_for(
                cleared_groups(groups, keys.len() as int, level, value),
                keys,
                iv,
                level + 1,
            );
            (rec.0, seq![(level, value)] + rec.1)
        }
    }
}

/// One display line: its text, its grouping level, and whether it is a
/// header or an item line.
pub struct DisplayLine {
    pub text: String,
    pub level: usize,
    pub is_header: bool,
}

/// Mathematical view of one display line.
pub ghost struct LineV {
    pub text: Seq<char>,
    pub level: int,
    pub is_header: bool,
}

impl View for DisplayLine {
    type V = LineV;

    open spec fn view(&self) -> LineV {
        LineV { text: self.text@, level: self.level as int, is_header: self.is_header }
    }
}

/// View of a vector of display lines.
pub open spec fn lines_view(s: Seq<DisplayLine>) -> Seq<LineV> {
    Seq::new(s.len(), |i: int| s[i]@)
}

/// View of a vector of indices.
pub open spec fn idxs_view(s: Seq<usize>) -> Seq<int> {
    Seq::new(s.len(), |i: int| s[i] as int)
}

/// View of a vector of strings.
pub open spec fn strings_view(s: Seq<String>) -> Seq<Seq<char>> {
    Seq::new(s.len(), |i: int| s[i]@)
}

/// View of a vector of optional strings.
pub open spec fn groups_view(s: Seq<Option<String>>) -> Seq<Option<Seq<char>>> {
    Seq::new(s.len(), |i: int| opt_string_view_g(s[i]))
}

/// View of one optional string.
pub open spec fn opt_string_view_g(o: Option<String>) -> Option<Seq<char>> {
    match o {
        Some(s) => Some(s@),
        None => None,
    }
}

/// View of a vector of (level, value) pairs.
pub open spec fn hdrs_view(s: Seq<(usize, String)>) -> Seq<(int, Seq<char>)> {
    Seq::new(s.len(), |i: int| (s[i].0 as int, s[i].1@))
}

/// The display line of one header.
pub open spec fn header_line(level: int, value: Seq<char>) -> LineV {
    LineV { text: indent(level) + value, level, is_header: true }
}

/// The display line of one item, indented below the deepest level.
pub open spec fn item_line(iv: ItemV, depth: int) -> LineV {
    LineV { text: indent(depth) + "[ ] "@ + item_msg(iv), level: depth, is_header: false }
}

/// The display lines and the logical-to-display index mapping of a
/// collection under the given grouping keys, starting from tracked
/// values `groups` with `base` display lines already emitted.
pub open spec fn group_lines(
    items: Seq<ItemV>,
    keys: Seq<Seq<char>>,
    groups: Seq<Option<Seq<char>>>,
    base: int,
) -> (Seq<LineV>, Seq<int>)
    decreases items.len(),
{
    if items.len() == 0 {
        (Seq::empty(), Seq::empty())
    } else {
        let hf = headers_for(groups, keys, items.first(), 0);
        let hs = hf.1.map_values(|h: (int, Seq<char>)| header_line(h.0, h.1));
        let il = item_line(items.first(), keys.len() as int);
        let rec = group_lines(items.drop_first(), keys, hf.0, base + hs.len() + 1);
        (hs + seq![il] + rec.0, seq![base + hs.len()] + rec.1)
    }
}

/// The display of a whole collection: lines and mapping, with all
/// tracked values initially clear.
pub open spec fn group_spec(items: Seq<ItemV>, keys: Seq<Seq<char>>) -> (Seq<LineV>, Seq<int>) {
    group_lines(items, keys, Seq::new(keys.len(), |k: int| None), 0)
}

/// With no grouping keys the display is one item line per item, no
/// headers, in collection order, and the mapping is the identity.
pub proof fn lemma_group_flat(items: Seq<ItemV>)
    ensures
        group_spec(items, Seq::empty()).0.len() == items.len(),
        forall|i: int|
            0 <= i < items.len() ==> group_spec(items, Seq::empty()).0[i] == item_line(
                #[trigger] items[i],
                0,
            ),
        forall|i: int|
            0 <= i < items.len() ==> !(group_spec(items, Seq::empty()).0[#[trigger] (i + 0)]).is_header,
        group_spec(items, Seq::empty()).1 == Seq::new(items.len(), |i: int| i),
{
    let groups = Seq::new(0, |k: int| None::<Seq<char>>);
    lemma_group_flat_rec(items, groups, 0);
    assert(group_spec(items, Seq::empty()).1 =~= Seq::new(items.len(), |i: int| i));
    assert forall|i: int| 0 <= i < items.len() implies !(group_spec(items, Seq::empty()).0[
    #[trigger] (i + 0)]).is_header by {
        assert(group_spec(items, Seq::empty()).0[i] == item_line(items[i], 0));
    }
}

/// Helper for the flat display law, generalized over the base index.
proof fn lemma_group_flat_rec(items: Seq<ItemV>, groups: Seq<Option<Seq<char>>>, base: int)
    requires
        groups.len() == 0,
    ensures
        group_lines(items, Seq::empty(), groups, base).0.len() == items.len(),
        forall|i: int|
            0 <= i < items.len() ==> group_lines(items, Seq::empty(), groups, base).0[i]
                == item_line(#[trigger] items[i], 0),
        group_lines(items, Seq::empty(), groups, base).1.len() == items.len(),
        forall|i: int|
            0 <= i < items.len() ==> group_lines(items, Seq::empty(), groups, base).1[i] == base
                + i,
    decreases items.len(),
{
    let keys = Seq::<Seq<char>>::empty();
    if items.len() > 0 {
        let hf = headers_for(groups, keys, items.first(), 0);
        assert(hf.0 == groups);
        assert(hf.1 =~= Seq::<(int, Seq<char>)>::empty());
        let hs = hf.1.map_values(|h: (int, Seq<char>)| header_line(h.0, h.1));
        assert(hs.len() == 0);
        lemma_group_flat_rec(items.drop_first(), groups, base + 1);
        let r = group_lines(items, keys, groups, base);
        let rec = group_lines(items.drop_first(), keys, groups, base + 1);
        assert(r.0 =~= hs + seq![item_line(items.first(), 0)] + rec.0);
        assert forall|i: int| 0 <= i < items.len() implies r.0[i] == item_line(
            #[trigger] items[i],
            0,
        ) by {
            if i > 0 {
                assert(r.0[i] == rec.0[i - 1]);
                assert(items.drop_first()[i - 1] == items[i]);
            }
        }
        assert forall|i: int| 0 <= i < items.len() implies r.1[i] == base + i by {
            if i > 0 {
                assert(r.1[i] == rec.1[i - 1]);
            }
        }
    }
}

/// Replace one element of an option vector.
fn vec_set_opt(v: &mut Vec<Option<String>>, i: usize, val: Option<String>)
    requires
        i < old(v)@.len(),
    ensures
        final(v)@ == old(v)@.update(i as int, val),
{
    let ghost pre = v@;
    v.remove(i);
    v.insert(i, val);
    proof {
        assert(v@ =~= pre.update(i as int, val));
    }
}

/// Append `"  "` `n` times.
fn push_indent(out: &mut String, n: usize)
    ensures
        final(out)@ == old(out)@ + indent(n as int),
{
    let mut i: usize = 0;
    proof {
        assert(out@ =~= old(out)@ + indent(0));
    }
    while i < n
        invariant
            0 <= i <= n,
            out@ == old(out)@ + indent(i as int),
        decreases n - i,
    {
        out.append("  ");
        i = i + 1;
    }
}

/// Update the tracked group values for one item and collect the headers
/// it forces, outermost first.
fn emit_headers(groups: &mut Vec<Option<String>>, item: &InboxItem, group_by: &Vec<String>) -> (hs:
    Vec<(usize, String)>)
    requires
        old(groups)@.len() == group_by@.len(),
    ensures
        final(groups)@.len() == group_by@.len(),
        ({
            let hf = headers_for(groups_view(old(groups)@), strings_view(group_by@), item@, 0);
            groups_view(final(groups)@) == hf.0 && hdrs_view(hs@) == hf.1
        }),
{
    let ghost keys = strings_view(group_by@);
    let ghost g0 = groups_view(old(groups)@);
    let depth = group_by.len();
    let mut hs: Vec<(usize, String)> = Vec::new();
    let mut level: usize = 0;
    let ghost mut emitted: Seq<(int, Seq<char>)> = Seq::empty();
    proof {
        assert(hdrs_view(hs@) =~= emitted);
    }
    while level < depth
        invariant
            0 <= level <= depth,
            depth == group_by@.len(),
            keys == strings_view(group_by@),
            groups@.len() == depth,
            hdrs_view(hs@) == emitted,
            headers_for(g0, keys, item@, 0) == ({
                let rec = headers_for(groups_view(groups@), keys, item@, level as int);
                (rec.0, emitted + rec.1)
            }),
        decreases depth - level,
    {
        let value = get_group_value(item, group_by[level].as_str());
        proof {
            assert(keys[level as int] == group_by@[level as int]@);
        }
        let same = match &groups[level] {
            Some(g) => str_eq(g.as_str(), value.as_str()),
            None => false,
        };
        proof {
            assert(groups_view(groups@)[level as int] == opt_string_view_g(groups@[level as int]));
            assert(same <==> groups_view(groups@)[level as int] == Some(
                group_value_spec(item@, keys[level as int]),
            ));
        }
        if !same {
            let ghost gpre = groups_view(groups@);
            // clear this level and every deeper one, then set this one
            let mut k = level;
            while k < depth
                invariant
                    level <= k <= depth,
                    depth == groups@.len(),
                    gpre.len() == depth,
                    forall|j: int| 0 <= j < level ==> (#[trigger] groups_view(groups@)[j]) == gpre[j],
                    forall|j: int| level <= j < k ==> (#[trigger] groups_view(groups@)[j]) is None,
                    forall|j: int| k <= j < depth ==> (#[trigger] groups_view(groups@)[j]) == gpre[j],
                decreases depth - k,
            {
                let ghost gmid = groups@;
                vec_set_opt(groups, k, None);
                proof {
                    assert forall|j: int| 0 <= j < depth implies groups_view(groups@)[j] == (
                    if j == k {
                        None::<Seq<char>>
                    } else {
                        groups_view(gmid)[j]
                    }) by {
                        assert(groups@[j] == if j == k {
                            None::<String>
                        } else {
                            gmid[j]
                        });
                    }
                }
                k = k + 1;
            }
            let ghost g_clear = groups@;
            vec_set_opt(groups, level, Some(value.clone()));
            proof {
                let val = group_value_spec(item@, keys[level as int]);
                let cleared = cleared_groups(gpre, keys.len() as int, level as int, val);
                assert forall|j: int| 0 <= j < depth implies groups_view(groups@)[j] == cleared[j]
                by {
                    assert(groups@[j] == if j == level {
                        Some(value)
                    } else {
                        g_clear[j]
                    });
                    if j != level {
                        assert(groups_view(g_clear)[j] == opt_string_view_g(g_clear[j]));
                    }
                }
                assert(groups_view(groups@) =~= cleared);
            }
            let ghost emitted_pre = emitted;
            hs.push((level, value));
            proof {
                let ghost val = group_value_spec(item@, keys[level as int]);
                emitted = emitted.push((level as int, val));
                assert(hdrs_view(hs@) =~= emitted);
                let rec_here = headers_for(gpre, keys, item@, level as int);
                let rec_next = headers_for(groups_view(groups@), keys, item@, level as int + 1);
                assert(rec_here.1 == seq![(level as int, val)] + rec_next.1);
                assert(emitted_pre + rec_here.1 =~= emitted + rec_next.1);
            }
        } else {
            proof {
                assert(headers_for(groups_view(groups@), keys, item@, level as int)
                    == headers_for(groups_view(groups@), keys, item@, level as int + 1));
            }
        }
        level = level + 1;
    }
    proof {
        assert(headers_for(groups_view(groups@), keys, item@, depth as int) == (
            groups_view(groups@),
            Seq::<(int, Seq<char>)>::empty(),
        ));
        assert(emitted + Seq::<(int, Seq<char>)>::empty() =~= emitted);
    }
    hs
}

/// Build the display of a collection: one line per header or item, and
/// for each logical item the index of its display line, so a selection
/// cursor stays attached to its item while headers shift lines around
/// it.
pub fn build_list_items(inbox: &Inbox, group_by: &Vec<String>) -> (r: (
    Vec<DisplayLine>,
    Vec<usize>,
))
    ensures
        lines_view(r.0@) == group_spec(inbox@, strings_view(group_by@)).0,
        idxs_view(r.1@) == group_spec(inbox@, strings_view(group_by@)).1,
{
    let ghost keys = strings_view(group_by@);
    let ghost orig = inbox@;
    let depth = group_by.len();
    let mut lines: Vec<DisplayLine> = Vec::new();
    let mut mapping: Vec<usize> = Vec::new();
    let mut groups: Vec<Option<String>> = Vec::new();
    let mut gi: usize = 0;
    while gi < depth
        invariant
            0 <= gi <= depth,
            groups@.len() == gi,
            forall|k: int| 0 <= k < gi ==> (#[trigger] groups@[k]) is None,
        decreases depth - gi,
    {
        groups.push(None);
        gi = gi + 1;
    }
    proof {
        assert(groups_view(groups@) =~= Seq::new(keys.len(), |k: int| None::<Seq<char>>));
        assert(lines_view(lines@) =~= Seq::<LineV>::empty());
        assert(idxs_view(mapping@) =~= Seq::<int>::empty());
        assert(orig.skip(0) =~= orig);
    }
    let n = inbox.items.len();
    let mut idx: usize = 0;
    while idx < n
        invariant
            0 <= idx <= n,
            n == inbox.items@.len(),
            orig == inbox@,
            keys == strings_view(group_by@),
            depth == group_by@.len(),
            groups@.len() == depth,
            group_spec(orig, keys) == ({
                let rec = group_lines(
                    orig.skip(idx as int),
                    keys,
                    groups_view(groups@),
                    lines@.len() as int,
                );
                (lines_view(lines@) + rec.0, idxs_view(mapping@) + rec.1)
            }),
        decreases n - idx,
    {
        let item = &inbox.items[idx];
        let ghost tail = orig.skip(idx as int);
        proof {
            assert(tail.first() == orig[idx as int]);
            assert(item@ == orig[idx as int]);
            assert(tail.drop_first() =~= orig.skip(idx as int + 1));
        }
        let ghost lines_entry = lines_view(lines@);
        let ghost map_entry = idxs_view(mapping@);
        let ghost g_entry = groups_view(groups@);
        let hdrs = emit_headers(&mut groups, item, group_by);
        // push the header lines
        let hn = hdrs.len();
        let mut hi: usize = 0;
        let ghost hf = headers_for(g_entry, keys, item@, 0);
        let ghost hls = hf.1.map_values(|h: (int, Seq<char>)| header_line(h.0, h.1));
        while hi < hn
            invariant
                0 <= hi <= hn,
                hn == hdrs@.len(),
                hdrs_view(hdrs@) == hf.1,
                hls == hf.1.map_values(|h: (int, Seq<char>)| header_line(h.0, h.1)),
                lines_view(lines@) == lines_entry + hls.take(hi as int),
            decreases hn - hi,
        {
            let lv = hdrs[hi].0;
            let mut text = String::new();
            push_indent(&mut text, lv);
            text.append(hdrs[hi].1.as_str());
            let ghost lines_pre = lines_view(lines@);
            lines.push(DisplayLine { text, level: lv, is_header: true });
            proof {
                assert(lines_view(lines@) =~= lines_pre.push(header_line(
                    hf.1[hi as int].0,
                    hf.1[hi as int].1,
                )));
                assert(hls.take(hi as int + 1) =~= hls.take(hi as int).push(hls[hi as int]));
                assert(lines_view(lines@) =~= lines_entry + hls.take(hi as int + 1));
            }
            hi = hi + 1;
        }
        proof {
            assert(hls.take(hn as int) =~= hls);
        }
        // the item's own line and its mapping entry
        let mut text = String::new();
        push_indent(&mut text, depth);
        text.append("[ ] ");
        text.append(item.msg());
        mapping.push(lines.len());
        let ghost lines_pre = lines_view(lines@);
        let ghost map_pre = idxs_view(mapping@);
        lines.push(DisplayLine { text, level: depth, is_header: false });
        proof {
            assert(lines_view(lines@) =~= lines_pre.push(item_line(item@, depth as int)));
            assert(map_pre =~= map_entry.push(lines_entry.len() + hls.len() as int));
            let rec = group_lines(tail, keys, g_entry, lines_entry.len() as int);
            let rec2 = group_lines(
                orig.skip(idx as int + 1),
                keys,
                groups_view(groups@),
                lines@.len() as int,
            );
            assert(rec.0 == hls + seq![item_line(item@, keys.len() as int)] + rec2.0);
            assert(rec.1 == seq![lines_entry.len() + hls.len() as int] + rec2.1);
            assert(lines_entry + rec.0 =~= lines_view(lines@) + rec2.0);
            assert(map_entry + rec.1 =~= idxs_view(mapping@) + rec2.1);
        }
        idx = idx + 1;
    }
    proof {
        let rec = group_lines(orig.skip(idx as int), keys, groups_view(groups@), lines@.len() as int);
        assert(orig.skip(idx as int).len() == 0);
        assert(lines_view(lines@) + rec.0 =~= lines_view(lines@));
        assert(idxs_view(mapping@) + rec.1 =~= idxs_view(mapping@));
    }
    (lines, mapping)
}

/// The text of one list header: indentation, the value (wrapped in a
/// level color when colors are on), and a newline.
pub open spec fn header_out(level: int, value: Seq<char>, colors: bool) -> Seq<char> {
    let code = if level == 0 {
        "1;33"@
    } else if level == 1 {
        "35"@
    } else {
        "36"@
    };
    indent(level) + (if colors {
        "\x1b["@ + code + "m"@ + value + "\x1b[0m"@
    } else {
        value
    }) + "\n"@
}

/// The concatenated text of a run of headers.
pub open spec fn headers_out(hs: Seq<(int, Seq<char>)>, colors: bool) -> Seq<char>
    decreases hs.len(),
{
    if hs.len() == 0 {
        Seq::empty()
    } else {
        headers_out(hs.drop_last(), colors) + header_out(hs.last().0, hs.last().1, colors)
    }
}

/// The text of one list item line: indentation, a cursor mark on the
/// first item, the message truncated to the terminal width, a newline.
/// Widths count bytes of the prefix, as the terminal column math does.
pub open spec fn item_out(iv: ItemV, depth: int, first: bool, width: int) -> Seq<char> {
    let msg = item_msg(iv);
    let prefix_bytes = 2 * depth + (if first {
        8int
    } else {
        6int
    });
    let maxl = if width >= prefix_bytes {
        width - prefix_bytes
    } else {
        0
    };
    let shown = if msg.len() <= maxl {
        msg
    } else {
        msg.take(maxl)
    };
    indent(depth) + (if first {
        "▶ [ ] "@
    } else {
        "  [ ] "@
    }) + shown + "\n"@
}

/// The list text of a collection from the given tracked values; `first`
/// marks that the next item emitted is the first of the whole list.
pub open spec fn render_list_items(
    items: Seq<ItemV>,
    keys: Seq<Seq<char>>,
    groups: Seq<Option<Seq<char>>>,
    first: bool,
    width: int,
    colors: bool,
) -> Seq<char>
    decreases items.len(),
{
    if items.len() == 0 {
        Seq::empty()
    } else {
        let hf = headers_for(groups, keys, items.first(), 0);
        headers_out(hf.1, colors) + item_out(items.first(), keys.len() as int, first, width)
            + render_list_items(items.drop_first(), keys, hf.0, false, width, colors)
    }
}

/// The non-interactive list output of a collection.
pub open spec fn render_list_spec(
    items: Seq<ItemV>,
    width: int,
    colors: bool,
    keys: Seq<Seq<char>>,
) -> Seq<char> {
    if items.len() == 0 {
        if colors {
            "\x1b[2m(no items)\x1b[0m\n"@
        } else {
            "(no items)\n"@
        }
    } else {
        render_list_items(items, keys, Seq::new(keys.len(), |k: int| None), true, width, colors)
    }
}

/// Append one header to the list output.
fn append_header_out(out: &mut String, level: usize, value: &String, colors: bool)
    ensures
        final(out)@ == old(out)@ + header_out(level as int, value@, colors),
{
    push_indent(out, level);
    if colors {
        if level == 0 {
            out.append("\x1b[");
            out.append("1;33");
            out.append("m");
        } else if level == 1 {
            out.append("\x1b[");
            out.append("35");
            out.append("m");
        } else {
            out.append("\x1b[");
            out.append("36");
            out.append("m");
        }
        out.append(value.as_str());
        out.append("\x1b[0m");
    } else {
        out.append(value.as_str());
    }
    out.append("\n");
}

/// Append one item line to the list output, truncated to the width.
fn append_item_out(out: &mut String, item: &InboxItem, depth: usize, first: bool, width: usize)
    ensures
        final(out)@ == old(out)@ + item_out(item@, depth as int, first, width as int),
{
    push_indent(out, depth);
    if first {
        out.append("▶ [ ] ");
    } else {
        out.append("  [ ] ");
    }
    // the prefix width in bytes: the indentation plus the mark
    let pb: u128 = 2 * (depth as u128) + if first {
        8
    } else {
        6
    };
    let w128 = width as u128;
    let maxl128: u128 = if w128 >= pb {
        w128 - pb
    } else {
        0
    };
    proof {
        assert(maxl128 <= w128);
    }
    let maxl = maxl128 as usize;
    let m = item.msg();
    let ml = m.unicode_len();
    let shown = if ml <= maxl {
        m
    } else {
        m.substring_char(0, maxl)
    };
    proof {
        let msg = item_msg(item@);
        if ml > maxl {
            assert(shown@ =~= msg.take(maxl as int));
        }
    }
    out.append(shown);
    out.append("\n");
}

/// Render the collection for non-interactive list output: `(no items)`
/// when empty, else headers per grouping level and one line per item in
/// collection order, the first item marked, messages truncated to the
/// terminal width.
#[verifier::rlimit(60)]
pub fn render_list(inbox: &Inbox, width: usize, colors: bool, group_by: &Vec<String>) -> (r: String)
    ensures
        r@ == render_list_spec(inbox@, width as int, colors, strings_view(group_by@)),
{
    let ghost keys = strings_view(group_by@);
    let ghost orig = inbox@;
    let mut out = String::new();
    if inbox.items.len() == 0 {
        if colors {
            out.append("\x1b[2m(no items)\x1b[0m\n");
        } else {
            out.append("(no items)\n");
        }
        return out;
    }
    let depth = group_by.len();
    let mut groups: Vec<Option<String>> = Vec::new();
    let mut gi: usize = 0;
    while gi < depth
        invariant
            0 <= gi <= depth,
            groups@.len() == gi,
            forall|k: int| 0 <= k < gi ==> (#[trigger] groups@[k]) is None,
        decreases depth - gi,
    {
        groups.push(None);
        gi = gi + 1;
    }
    proof {
        assert(groups_view(groups@) =~= Seq::new(keys.len(), |k: int| None::<Seq<char>>));
        assert(orig.skip(0) =~= orig);
        assert(out@ =~= Seq::<char>::empty());
    }
    let n = inbox.items.len();
    let mut idx: usize = 0;
    while idx < n
        invariant
            0 <= idx <= n,
            n == inbox.items@.len(),
            orig == inbox@,
            orig.len() > 0,
            keys == strings_view(group_by@),
            depth == group_by@.len(),
            groups@.len() == depth,
            render_list_spec(orig, width as int, colors, keys) == out@ + render_list_items(
                orig.skip(idx as int),
                keys,
                groups_view(groups@),
                idx == 0,
                width as int,
                colors,
            ),
        decreases n - idx,
    {
        let item = &inbox.items[idx];
        let ghost tail = orig.skip(idx as int);
        proof {
            assert(tail.first() == orig[idx as int]);
            assert(item@ == orig[idx as int]);
            assert(tail.drop_first() =~= orig.skip(idx as int + 1));
        }
        let ghost out_entry = out@;
        let ghost g_entry = groups_view(groups@);
        let hdrs = emit_headers(&mut groups, item, group_by);
        let ghost hf = headers_for(g_entry, keys, item@, 0);
        // emit the headers
        let hn = hdrs.len();
        let mut hi: usize = 0;
        while hi < hn
            invariant
                0 <= hi <= hn,
                hn == hdrs@.len(),
                hdrs_view(hdrs@) == hf.1,
                out@ == out_entry + headers_out(hf.1.take(hi as int), colors),
            decreases hn - hi,
        {
            append_header_out(&mut out, hdrs[hi].0, &hdrs[hi].1, colors);
            proof {
                assert(hf.1.take(hi as int + 1).drop_last() =~= hf.1.take(hi as int));
                assert(hf.1.take(hi as int + 1).last() == hf.1[hi as int]);
                assert(hf.1[hi as int] == (hdrs@[hi as int].0 as int, hdrs@[hi as int].1@));
                assert(out@ =~= out_entry + headers_out(hf.1.take(hi as int + 1), colors));
            }
            hi = hi + 1;
        }
        proof {
            assert(hf.1.take(hn as int) =~= hf.1);
        }
        // emit the item line
        append_item_out(&mut out, item, depth, idx == 0, width);
        proof {
            assert(out@ =~= out_entry + headers_out(hf.1, colors) + item_out(
                item@,
                depth as int,
                idx == 0,
                width as int,
            ));
            assert(out@ + render_list_items(
                orig.skip(idx as int + 1),
                keys,
                groups_view(groups@),
                false,
                width as int,
                colors,
            ) =~= out_entry + render_list_items(tail, keys, g_entry, idx == 0, width as int, colors));
        }
        idx = idx + 1;
    }
    proof {
        assert(orig.skip(idx as int).len() == 0);
        assert(render_list_items(
            orig.skip(idx as int),
            keys,
            groups_view(groups@),
            false,
            width as int,
            colors,
        ) =~= Seq::<char>::empty());
        assert(render_list_spec(orig, width as int, colors, keys) =~= out@);
    }
    out
}

/// The interactive view's state: the collection, the selected logical
/// item, and the grouping keys.  The event loop applies one transition
/// per key press and redraws from `build_list_items`.
pub struct App {
    pub inbox: Inbox,
    pub selected_item: Option<usize>,
    pub group_by: Vec<String>,
}

impl App {
    /// Start viewing a collection: the first item selected, if any.
    pub fn new(inbox: Inbox, group_by: Vec<String>) -> (r: App)
        ensures
            r.inbox@ == inbox@,
            r.selected_item == if inbox@.len() == 0 {
                None::<usize>
            } else {
                Some(0usize)
            },
            r.group_by@ == group_by@,
    {
        let selected_item = if inbox.is_empty() {
            None
        } else {
            Some(0)
        };
        App { inbox, selected_item, group_by }
    }

    /// Move the selection down one item, saturating at the end.
    pub fn next(&mut self)
        ensures
            final(self).inbox@ == old(self).inbox@,
            final(self).group_by@ == old(self).group_by@,
            old(self).inbox@.len() == 0 ==> final(self).selected_item == old(self).selected_item,
            old(self).inbox@.len() > 0 ==> final(self).selected_item == Some(
                (match old(self).selected_item {
                    Some(i) => if i + 1 < old(self).inbox@.len() {
                        (i + 1) as usize
                    } else {
                        (old(self).inbox@.len() - 1) as usize
                    },
                    None => 0usize,
                }),
            ),
    {
        if self.inbox.is_empty() {
            return;
        }
        let n = self.inbox.items.len();
        self.selected_item = Some(
            match self.selected_item {
                Some(i) => if i < n - 1 {
                    i + 1
                } else {
                    n - 1
                },
                None => 0,
            },
        );
    }

    /// Move the selection up one item, saturating at the start.
    pub fn previous(&mut self)
        ensures
            final(self).inbox@ == old(self).inbox@,
            final(self).group_by@ == old(self).group_by@,
            old(self).inbox@.len() == 0 ==> final(self).selected_item == old(self).selected_item,
            old(self).inbox@.len() > 0 ==> final(self).selected_item == Some(
                (match old(self).selected_item {
                    Some(i) => if i > 0 {
                        (i - 1) as usize
                    } else {
                        0usize
                    },
                    None => 0usize,
                }),
            ),
    {
        if self.inbox.is_empty() {
            return;
        }
        self.selected_item = Some(
            match self.selected_item {
                Some(i) => if i > 0 {
                    i - 1
                } else {
                    0
                },
                None => 0,
            },
        );
    }

    /// The pane identifier of the selected item, if one is selected and
    /// carries one.
    pub fn selected_pane_id(&self) -> (r: Option<u32>)
        ensures
            r == (match self.selected_item {
                Some(i) => if i < self.inbox@.len() {
                    item_pane(self.inbox@[i as int])
                } else {
                    None
                },
                None => None::<u32>,
            }),
    {
        match self.selected_item {
            Some(i) => {
                if i < self.inbox.items.len() {
                    self.inbox.items[i].pane_id()
                } else {
                    None
                }
            },
            None => None,
        }
    }

    /// Delete the selected item from the collection by its pane
    /// identifier, clamping the selection to the shrunk collection.
    /// Returns whether anything was deleted, so the caller can persist
    /// the change.
    pub fn delete_selected(&mut self) -> (r: bool)
        ensures
            final(self).group_by@ == old(self).group_by@,
            ({
                let pid = match old(self).selected_item {
                    Some(i) => if i < old(self).inbox@.len() {
                        item_pane(old(self).inbox@[i as int])
                    } else {
                        None
                    },
                    None => None::<u32>,
                };
                match pid {
                    Some(p) => r && final(self).inbox@ == remove_pane(old(self).inbox@, p),
                    None => {
                        &&& !r
                        &&& final(self).inbox@ == old(self).inbox@
                        &&& final(self).selected_item == old(self).selected_item
                    },
                }
            }),
            ({
                let post = *final(self);
                &&& (post.inbox@.len() == 0 ==> post.selected_item is None || post.selected_item
                    == old(self).selected_item)
                &&& (post.inbox@.len() > 0 ==> (match post.selected_item {
                    Some(i) => i < post.inbox@.len() || post.selected_item == old(
                        self,
                    ).selected_item,
                    None => post.selected_item == old(self).selected_item,
                }))
            }),
    {
        match self.selected_pane_id() {
            Some(pane_id) => {
                self.inbox.remove(pane_id);
                match self.selected_item {
                    Some(i) => {
                        if i >= self.inbox.items.len() && !self.inbox.is_empty() {
                            self.selected_item = Some(self.inbox.items.len() - 1);
                        } else if self.inbox.is_empty() {
                            self.selected_item = None;
                        }
                    },
                    None => {},
                }
                true
            },
            None => false,
        }
    }

    /// Replace the collection with a freshly loaded one, clamping the
    /// selection to the new length.
    pub fn reload(&mut self, inbox: Inbox)
        ensures
            final(self).inbox@ == inbox@,
            final(self).group_by@ == old(self).group_by@,
            final(self).selected_item == (match old(self).selected_item {
                Some(i) => if (i as int) < inbox@.len() {
                    Some(i)
                } else if inbox@.len() == 0 {
                    None::<usize>
                } else {
                    Some((inbox@.len() - 1) as usize)
                },
                None => None::<usize>,
            }),
    {
        self.inbox = inbox;
        match self.selected_item {
            Some(i) => {
                if i >= self.inbox.items.len() {
                    self.selected_item = if self.inbox.is_empty() {
                        None
                    } else {
                        Some(self.inbox.items.len() - 1)
                    };
                }
            },
            None => {},
        }
    }
}

} // verus!
