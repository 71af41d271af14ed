//! Rendering a collection back into the document grammar.
//!
//! The renderer is total and deterministic: it walks the collection in
//! its current order, emits a section header at every status-run
//! boundary, and writes each item as `- [<char>] <msg>` followed by its
//! annotations in a fixed order: `pane`, `proj`, `branch`, then every
//! other key except `msg` sorted lexicographically.

use vstd::prelude::*;

use crate::text::lemma_lex_lt_trans;
use crate::text::lemma_lex_total;
use crate::text::lex_le;
use crate::text::str_eq;
use crate::text::str_le;
use crate::types::assoc_get;
use crate::types::item_msg;
use crate::types::pairs_view;
use crate::types::Inbox;
use crate::types::InboxItem;
use crate::types::ItemV;
use crate::types::Status;
use vstd::multiset::Multiset;

verus! {

/// The text of one rendered annotation: ` [<key>:: <value>]`.
pub open spec fn attr_text(k: Seq<char>, v: Seq<char>) -> Seq<char> {
    " ["@ + k + ":: "@ + v + "]"@
}

/// The concatenated text of a sequence of annotations.
pub open spec fn attrs_text(ps: Seq<(Seq<char>, Seq<char>)>) -> Seq<char>
    decreases ps.len(),
{
    if ps.len() == 0 {
        Seq::empty()
    } else {
        attrs_text(ps.drop_last()) + attr_text(ps.last().0, ps.last().1)
    }
}

/// Keys the renderer places specially: `msg` is the message text, and
/// `pane`, `proj`, `branch` come first in that order.
pub open spec fn excluded_key(k: Seq<char>) -> bool {
    k == "msg"@ || k == "pane"@ || k == "proj"@ || k == "branch"@
}

/// The non-special keys of an attribute list, in storage order.
pub open spec fn keys_except(s: Seq<(Seq<char>, Seq<char>)>) -> Seq<Seq<char>>
    decreases s.len(),
{
    if s.len() == 0 {
        Seq::empty()
    } else if excluded_key(s.last().0) {
        keys_except(s.drop_last())
    } else {
        keys_except(s.drop_last()).push(s.last().0)
    }
}

/// A sequence of keys in non-decreasing lexicographic order.
pub open spec fn keys_sorted(ks: Seq<Seq<char>>) -> bool {
    forall|i: int, j: int| 0 <= i < j < ks.len() ==> lex_le(#[trigger] ks[i], #[trigger] ks[j])
}

/// Insert a key into a sorted key sequence, after its equals.
pub open spec fn insert_key(ks: Seq<Seq<char>>, x: Seq<char>) -> Seq<Seq<char>>
    decreases ks.len(),
{
    if ks.len() == 0 {
        seq![x]
    } else if lex_le(ks.last(), x) {
        ks.push(x)
    } else {
        insert_key(ks.drop_last(), x).push(ks.last())
    }
}

/// Sort keys lexicographically, stably, by iterated insertion.
pub open spec fn lex_sort(ks: Seq<Seq<char>>) -> Seq<Seq<char>>
    decreases ks.len(),
{
    if ks.len() == 0 {
        Seq::empty()
    } else {
        insert_key(lex_sort(ks.drop_last()), ks.last())
    }
}

/// Inserting into a sorted key sequence keeps it sorted and adds exactly
/// the new key.
pub proof fn lemma_insert_key_sorted(ks: Seq<Seq<char>>, x: Seq<char>)
    requires
        keys_sorted(ks),
    ensures
        keys_sorted(insert_key(ks, x)),
        insert_key(ks, x).to_multiset() == ks.to_multiset().insert(x),
        insert_key(ks, x).len() == ks.len() + 1,
    decreases ks.len(),
{
    broadcast use vstd::seq_lib::group_to_multiset_ensures;

    let r = insert_key(ks, x);
    if ks.len() == 0 {
        assert(r == seq![x]);
        assert(seq![x] =~= Seq::<Seq<char>>::empty().push(x));
        assert(Seq::<Seq<char>>::empty().to_multiset() =~= Multiset::<Seq<char>>::empty());
    } else if lex_le(ks.last(), x) {
        assert(r == ks.push(x));
        assert forall|i: int, j: int| 0 <= i < j < r.len() implies lex_le(
            #[trigger] r[i],
            #[trigger] r[j],
        ) by {
            if j == ks.len() {
                if i < ks.len() - 1 {
                    assert(lex_le(ks[i], ks.last()));
                    if ks[i] != ks.last() && ks.last() != x {
                        lemma_lex_lt_trans(ks[i], ks.last(), x);
                    }
                }
            }
        }
    } else {
        assert(keys_sorted(ks.drop_last())) by {
            assert forall|i: int, j: int| 0 <= i < j < ks.drop_last().len() implies lex_le(
                #[trigger] ks.drop_last()[i],
                #[trigger] ks.drop_last()[j],
            ) by {
                assert(ks.drop_last()[i] == ks[i]);
                assert(ks.drop_last()[j] == ks[j]);
            }
        }
        lemma_insert_key_sorted(ks.drop_last(), x);
        let rr = insert_key(ks.drop_last(), x);
        assert(r == rr.push(ks.last()));
        assert forall|i: int, j: int| 0 <= i < j < r.len() implies lex_le(
            #[trigger] r[i],
            #[trigger] r[j],
        ) by {
            if j == rr.len() {
                assert(rr.to_multiset().count(rr[i]) > 0);
                assert(rr.to_multiset() == ks.drop_last().to_multiset().insert(x));
                if rr[i] == x {
                    lemma_lex_total(ks.last(), x);
                    assert(lex_le(x, ks.last()));
                } else {
                    assert(ks.drop_last().to_multiset().count(rr[i]) > 0);
                    assert(ks.drop_last().contains(rr[i]));
                    let w = choose|w: int|
                        0 <= w < ks.drop_last().len() && ks.drop_last()[w] == rr[i];
                    assert(ks.drop_last()[w] == ks[w]);
                    assert(lex_le(ks[w], ks.last()));
                }
            } else {
                assert(lex_le(rr[i], rr[j]));
            }
        }
        assert(ks =~= ks.drop_last().push(ks.last()));
        assert(ks.to_multiset() == ks.drop_last().to_multiset().insert(ks.last()));
        assert(r.to_multiset() == rr.to_multiset().insert(ks.last()));
        assert(r.to_multiset() =~= ks.to_multiset().insert(x));
    }
}

/// The key sort produces a sorted permutation.
pub proof fn lemma_lex_sort(ks: Seq<Seq<char>>)
    ensures
        keys_sorted(lex_sort(ks)),
        lex_sort(ks).to_multiset() == ks.to_multiset(),
        lex_sort(ks).len() == ks.len(),
    decreases ks.len(),
{
    broadcast use vstd::seq_lib::group_to_multiset_ensures;

    if ks.len() > 0 {
        lemma_lex_sort(ks.drop_last());
        lemma_insert_key_sorted(lex_sort(ks.drop_last()), ks.last());
        assert(ks =~= ks.drop_last().push(ks.last()));
        assert(ks.to_multiset() == ks.drop_last().to_multiset().insert(ks.last()));
    }
}

/// Where the scan of a sorted key sequence stops, the specified
/// insertion splits the sequence there.
proof fn lemma_insert_key_at(ks: Seq<Seq<char>>, x: Seq<char>, p: int)
    requires
        keys_sorted(ks),
        0 <= p <= ks.len(),
        forall|j: int| 0 <= j < p ==> lex_le(#[trigger] ks[j], x),
        p < ks.len() ==> !lex_le(ks[p], x),
    ensures
        insert_key(ks, x) == ks.take(p) + seq![x] + ks.skip(p),
    decreases ks.len(),
{
    if ks.len() == 0 {
        assert(insert_key(ks, x) =~= ks.take(p) + seq![x] + ks.skip(p));
    } else if lex_le(ks.last(), x) {
        if p < ks.len() {
            if p < ks.len() - 1 {
                assert(lex_le(ks[p], ks.last()));
                if ks[p] != ks.last() && ks.last() != x {
                    lemma_lex_lt_trans(ks[p], ks.last(), x);
                }
            }
            assert(false);
        }
        assert(insert_key(ks, x) =~= ks.take(p) + seq![x] + ks.skip(p));
    } else {
        assert(p < ks.len()) by {
            if p == ks.len() {
                assert(lex_le(ks[p - 1], x));
            }
        }
        assert(keys_sorted(ks.drop_last())) by {
            assert forall|i: int, j: int| 0 <= i < j < ks.drop_last().len() implies lex_le(
                #[trigger] ks.drop_last()[i],
                #[trigger] ks.drop_last()[j],
            ) by {
                assert(ks.drop_last()[i] == ks[i]);
                assert(ks.drop_last()[j] == ks[j]);
            }
        }
        assert(forall|j: int| 0 <= j < p ==> lex_le(#[trigger] ks.drop_last()[j], x)) by {
            assert(forall|j: int| 0 <= j < p ==> ks.drop_last()[j] == ks[j]);
        }
        assert(p < ks.drop_last().len() ==> !lex_le(ks.drop_last()[p], x)) by {
            if p < ks.len() - 1 {
                assert(ks.drop_last()[p] == ks[p]);
            }
        }
        lemma_insert_key_at(ks.drop_last(), x, p);
        assert(insert_key(ks, x) =~= ks.take(p) + seq![x] + ks.skip(p));
    }
}

/// The value stored under a key, or empty where the key is absent.
pub open spec fn assoc_get_val(s: Seq<(Seq<char>, Seq<char>)>, k: Seq<char>) -> Seq<char> {
    match assoc_get(s, k) {
        Some(v) => v,
        None => Seq::empty(),
    }
}

/// A key occurs in the list exactly when `assoc_get` finds it.
pub proof fn lemma_assoc_get_exists(s: Seq<(Seq<char>, Seq<char>)>, k: Seq<char>)
    ensures
        (exists|j: int| 0 <= j < s.len() && (#[trigger] s[j]).0 == k) <==> assoc_get(s, k)
            is Some,
    decreases s.len(),
{
    if s.len() > 0 {
        lemma_assoc_get_exists(s.drop_first(), k);
        if exists|j: int| 0 <= j < s.len() && (#[trigger] s[j]).0 == k {
            let w = choose|j: int| 0 <= j < s.len() && (#[trigger] s[j]).0 == k;
            if w > 0 {
                assert(s.drop_first()[w - 1] == s[w]);
            }
        }
        if assoc_get(s, k) is Some && s.first().0 != k {
            let w = choose|j: int|
                0 <= j < s.drop_first().len() && (#[trigger] s.drop_first()[j]).0 == k;
            assert(s[w + 1] == s.drop_first()[w]);
        }
    }
}

/// Every key the non-special scan collects occurs in the list.
pub proof fn lemma_keys_except_present(s: Seq<(Seq<char>, Seq<char>)>, k: Seq<char>)
    requires
        keys_except(s).contains(k),
    ensures
        assoc_get(s, k) is Some,
        !excluded_key(k),
    decreases s.len(),
{
    if s.len() > 0 {
        if keys_except(s.drop_last()).contains(k) {
            lemma_keys_except_present(s.drop_last(), k);
            lemma_assoc_get_exists(s.drop_last(), k);
            let w = choose|j: int|
                0 <= j < s.drop_last().len() && (#[trigger] s.drop_last()[j]).0 == k;
            assert(s[w] == s.drop_last()[w]);
            lemma_assoc_get_exists(s, k);
        } else {
            assert(!excluded_key(s.last().0) && s.last().0 == k);
            assert(s[s.len() - 1].0 == k);
            lemma_assoc_get_exists(s, k);
        }
    }
}

/// The priority annotations of an item: `pane`, `proj`, `branch`, each
/// only where present.
pub open spec fn pri_pairs(s: Seq<(Seq<char>, Seq<char>)>) -> Seq<(Seq<char>, Seq<char>)> {
    (match assoc_get(s, "pane"@) {
        Some(v) => seq![("pane"@, v)],
        None => Seq::empty(),
    }) + (match assoc_get(s, "proj"@) {
        Some(v) => seq![("proj"@, v)],
        None => Seq::empty(),
    }) + (match assoc_get(s, "branch"@) {
        Some(v) => seq![("branch"@, v)],
        None => Seq::empty(),
    })
}

/// The remaining annotations: non-special keys sorted lexicographically,
/// each with its stored value.
pub open spec fn other_pairs(s: Seq<(Seq<char>, Seq<char>)>) -> Seq<(Seq<char>, Seq<char>)> {
    lex_sort(keys_except(s)).map_values(|k: Seq<char>| (k, assoc_get_val(s, k)))
}

/// All annotations of an item, in emission order.
pub open spec fn emitted_pairs(s: Seq<(Seq<char>, Seq<char>)>) -> Seq<(Seq<char>, Seq<char>)> {
    pri_pairs(s) + other_pairs(s)
}

/// The fixed prefix of an item line, holding the status character.
pub open spec fn line_prefix(st: Status) -> Seq<char> {
    if st is Waiting {
        "- [ ] "@
    } else {
        "- [/] "@
    }
}

/// The text of one rendered item line, without the newline.
pub open spec fn item_line_text(iv: ItemV) -> Seq<char> {
    line_prefix(iv.status) + item_msg(iv) + attrs_text(emitted_pairs(iv.attrs))
}

/// The section header emitted when a status run starts.
pub open spec fn header_text(st: Status) -> Seq<char> {
    if st is Waiting {
        "## Waiting for Input\n\n"@
    } else {
        "## Background\n\n"@
    }
}

/// The document text of a collection, given the status of the previous
/// emitted item: a header wherever the status changes, then each item
/// line.
pub open spec fn render_items(items: Seq<ItemV>, prev: Option<Status>) -> Seq<char>
    decreases items.len(),
{
    if items.len() == 0 {
        Seq::empty()
    } else {
        let st = items.first().status;
        (if prev != Some(st) {
            header_text(st)
        } else {
            Seq::empty()
        }) + item_line_text(items.first()) + "\n"@ + render_items(items.drop_first(), Some(st))
    }
}

/// The document text of a collection: empty for an empty collection, no
/// headers at all in that case.
pub open spec fn render_spec(items: Seq<ItemV>) -> Seq<char> {
    render_items(items, None)
}

/// Append one annotation to the output.
fn append_attr(out: &mut String, k: &str, v: &str)
    ensures
        final(out)@ == old(out)@ + attr_text(k@, v@),
{
    out.append(" [");
    out.append(k);
    out.append(":: ");
    out.append(v);
    out.append("]");
}

/// Sort keys lexicographically with a stable insertion sort.
fn sort_keys(keys: &mut Vec<String>)
    ensures
        pairs_keys_view(final(keys)@) == lex_sort(pairs_keys_view(old(keys)@)),
{
    let ghost orig = pairs_keys_view(keys@);
    let mut out: Vec<String> = Vec::new();
    let ghost mut done: Seq<Seq<char>> = Seq::empty();
    proof {
        assert(orig =~= done + pairs_keys_view(keys@));
        assert(pairs_keys_view(out@) =~= lex_sort(done));
    }
    while keys.len() > 0
        invariant
            orig == done + pairs_keys_view(keys@),
            pairs_keys_view(out@) == lex_sort(done),
            keys_sorted(pairs_keys_view(out@)),
        decreases keys@.len(),
    {
        let ghost keys_pre = keys@;
        let ghost done_pre = done;
        let k = keys.remove(0);
        proof {
            assert(pairs_keys_view(keys_pre).drop_first() =~= pairs_keys_view(keys@));
            done = done.push(k@);
            assert(orig =~= done + pairs_keys_view(keys@));
            assert(done.drop_last() =~= done_pre);
            assert(done.last() == k@);
            assert(lex_sort(done) == insert_key(lex_sort(done_pre), k@));
        }
        let mut p: usize = 0;
        let olen = out.len();
        let ghost out_pre = pairs_keys_view(out@);
        while p < olen && str_le(out[p].as_str(), k.as_str())
            invariant
                0 <= p <= olen,
                olen == out@.len(),
                out_pre == pairs_keys_view(out@),
                keys_sorted(out_pre),
                forall|j: int| 0 <= j < p ==> lex_le(#[trigger] pairs_keys_view(out@)[j], k@),
            decreases olen - p,
        {
            p = p + 1;
        }
        proof {
            lemma_insert_key_at(out_pre, k@, p as int);
            lemma_insert_key_sorted(out_pre, k@);
        }
        out.insert(p, k);
        proof {
            assert(pairs_keys_view(out@) =~= out_pre.take(p as int) + seq![k@] + out_pre.skip(
                p as int,
            ));
            assert(pairs_keys_view(out@) == insert_key(out_pre, k@));
            assert(out_pre == lex_sort(done_pre));
            assert(pairs_keys_view(out@) == lex_sort(done));
        }
    }
    proof {
        assert(orig =~= done);
        assert(lex_sort(orig) == lex_sort(done));
    }
    *keys = out;
}

/// View of a vector of strings as a sequence of character sequences.
pub open spec fn pairs_keys_view(s: Seq<String>) -> Seq<Seq<char>> {
    Seq::new(s.len(), |i: int| s[i]@)
}

/// Append the three priority annotations of an item, where present.
fn append_pri_attrs(out: &mut String, item: &InboxItem)
    ensures
        final(out)@ == old(out)@ + attrs_text(pri_pairs(item@.attrs)),
{
    let ghost attrs = item@.attrs;
    let ghost pre_attrs = out@;
    match item.get("pane") {
        Some(v) => append_attr(out, "pane", v),
        None => {},
    }
    match item.get("proj") {
        Some(v) => append_attr(out, "proj", v),
        None => {},
    }
    match item.get("branch") {
        Some(v) => append_attr(out, "branch", v),
        None => {},
    }
    proof {
        lemma_attrs_text_concat(attrs);
        assert(out@ =~= pre_attrs + attrs_text(pri_pairs(attrs)));
    }
}

/// Collect the non-special attribute keys of an item, sorted.
fn collect_other_keys(item: &InboxItem) -> (others: Vec<String>)
    ensures
        pairs_keys_view(others@) == lex_sort(keys_except(item@.attrs)),
{
    let mut others: Vec<String> = Vec::new();
    let an = item.attrs.len();
    let mut ai: usize = 0;
    proof {
        assert(pairs_view(item.attrs@).take(0) =~= Seq::<(Seq<char>, Seq<char>)>::empty());
        assert(pairs_keys_view(others@) =~= keys_except(pairs_view(item.attrs@).take(0)));
    }
    while ai < an
        invariant
            0 <= ai <= an,
            an == item.attrs@.len(),
            pairs_keys_view(others@) == keys_except(pairs_view(item.attrs@).take(ai as int)),
        decreases an - ai,
    {
        let key = &item.attrs[ai].0;
        let special = str_eq(key.as_str(), "msg") || str_eq(key.as_str(), "pane") || str_eq(
            key.as_str(),
            "proj",
        ) || str_eq(key.as_str(), "branch");
        let ghost kv = pairs_view(item.attrs@);
        proof {
            assert(kv.take(ai + 1).drop_last() =~= kv.take(ai as int));
            assert(kv.take(ai + 1).last() == kv[ai as int]);
        }
        if !special {
            let ghost others_pre = pairs_keys_view(others@);
            others.push(key.clone());
            proof {
                assert(pairs_keys_view(others@) =~= others_pre.push(kv[ai as int].0));
            }
        }
        ai = ai + 1;
    }
    proof {
        assert(pairs_view(item.attrs@).take(an as int) =~= pairs_view(item.attrs@));
        assert(pairs_view(item.attrs@) =~= item@.attrs);
    }
    sort_keys(&mut others);
    others
}

/// Append the sorted non-special annotations of an item.
fn append_other_attrs(out: &mut String, item: &InboxItem, others: &Vec<String>)
    requires
        pairs_keys_view(others@) == lex_sort(keys_except(item@.attrs)),
    ensures
        final(out)@ == old(out)@ + attrs_text(other_pairs(item@.attrs)),
{
    let ghost attrs = item@.attrs;
    let ghost entry = out@;
    let ghost sorted_keys = lex_sort(keys_except(attrs));
    let ghost mapped = sorted_keys.map_values(|k: Seq<char>| (k, assoc_get_val(attrs, k)));
    let on = others.len();
    let mut oi: usize = 0;
    proof {
        assert(mapped.take(0) =~= Seq::<(Seq<char>, Seq<char>)>::empty());
        assert(attrs_text(mapped.take(0)) =~= Seq::<char>::empty());
        assert(out@ =~= entry + attrs_text(mapped.take(0)));
    }
    while oi < on
        invariant
            0 <= oi <= on,
            on == others@.len(),
            pairs_keys_view(others@) == sorted_keys,
            sorted_keys == lex_sort(keys_except(attrs)),
            mapped == sorted_keys.map_values(|k: Seq<char>| (k, assoc_get_val(attrs, k))),
            attrs == item@.attrs,
            out@ == entry + attrs_text(mapped.take(oi as int)),
        decreases on - oi,
    {
        let key = &others[oi];
        proof {
            broadcast use vstd::seq_lib::group_to_multiset_ensures;

            lemma_lex_sort(keys_except(attrs));
            assert(sorted_keys.contains(key@)) by {
                assert(sorted_keys[oi as int] == key@);
            }
            assert(sorted_keys.to_multiset().count(key@) > 0);
            assert(keys_except(attrs).contains(key@));
            lemma_keys_except_present(attrs, key@);
        }
        match item.get(key.as_str()) {
            Some(v) => {
                proof {
                    lemma_attrs_text_concat_one(mapped, oi as int);
                    assert(mapped[oi as int] == (key@, v@));
                }
                append_attr(out, key.as_str(), v);
            },
            None => {
                proof {
                    assert(false);
                }
            },
        }
        oi = oi + 1;
    }
    proof {
        assert(mapped.take(on as int) =~= mapped);
    }
}

/// Append one rendered item line, newline included.
fn render_item_line(out: &mut String, item: &InboxItem)
    ensures
        final(out)@ == old(out)@ + item_line_text(item@) + "\n"@,
{
    let ghost entry = out@;
    // prefix with the status character
    match item.status {
        Status::Waiting => out.append("- [ ] "),
        Status::Working => out.append("- [/] "),
    }
    // message text
    let m = item.msg();
    out.append(m);
    // annotations: priority keys first, then the rest sorted
    append_pri_attrs(out, item);
    let others = collect_other_keys(item);
    append_other_attrs(out, item, &others);
    out.append("\n");
    proof {
        lemma_attrs_text_concat(item@.attrs);
        assert(out@ =~= entry + item_line_text(item@) + "\n"@);
    }
}

/// Render a collection into document text.  The empty collection gives
/// the empty string; otherwise items are emitted in collection order
/// with a section header at each status-run boundary.
pub fn render(inbox: &Inbox) -> (r: String)
    ensures
        r@ == render_spec(inbox@),
{
    let ghost orig = inbox@;
    let mut out = String::new();
    let n = inbox.items.len();
    let mut cur: Option<Status> = None;
    let mut idx: usize = 0;
    proof {
        assert(orig.skip(0) =~= orig);
        assert(out@ =~= Seq::<char>::empty());
    }
    while idx < n
        invariant
            0 <= idx <= n,
            n == inbox.items@.len(),
            orig == inbox@,
            render_spec(orig) == out@ + render_items(orig.skip(idx as int), cur),
        decreases n - idx,
    {
        let item = &inbox.items[idx];
        let ghost tail = orig.skip(idx as int);
        proof {
            assert(tail.first() == orig[idx as int]);
            assert(item@ == orig[idx as int]);
            assert(tail.drop_first() =~= orig.skip(idx as int + 1));
        }
        let ghost out_at_entry = out@;
        // section header at a status-run boundary
        let same = match cur {
            Some(s) => match (s, item.status) {
                (Status::Waiting, Status::Waiting) => true,
                (Status::Working, Status::Working) => true,
                _ => false,
            },
            None => false,
        };
        if !same {
            match item.status {
                Status::Waiting => out.append("## Waiting for Input\n\n"),
                Status::Working => out.append("## Background\n\n"),
            }
        }
        proof {
            assert(cur == Some(item@.status) <==> same);
            if same {
                assert(out@ =~= out_at_entry + Seq::<char>::empty());
            }
        }
        render_item_line(&mut out, item);
        proof {
            let st = orig[idx as int].status;
            assert(render_items(tail, cur) == (if cur != Some(st) {
                header_text(st)
            } else {
                Seq::<char>::empty()
            }) + item_line_text(tail.first()) + "\n"@ + render_items(tail.drop_first(), Some(st)));
            assert(out@ =~= out_at_entry + (if cur != Some(st) {
                header_text(st)
            } else {
                Seq::<char>::empty()
            }) + item_line_text(orig[idx as int]) + "\n"@);
            assert(out@ + render_items(orig.skip(idx as int + 1), Some(st)) =~= out_at_entry
                + render_items(tail, cur));
        }
        cur = Some(item.status);
        idx = idx + 1;
    }
    proof {
        assert(orig.skip(idx as int).len() == 0);
        assert(render_items(orig.skip(idx as int), cur) =~= Seq::<char>::empty());
        assert(render_spec(orig) =~= out@);
    }
    out
}


/// Splitting the emitted pair sequence splits its text.
pub proof fn lemma_attrs_text_app(a: Seq<(Seq<char>, Seq<char>)>, b: Seq<(Seq<char>, Seq<char>)>)
    ensures
        attrs_text(a + b) == attrs_text(a) + attrs_text(b),
    decreases b.len(),
{
    if b.len() == 0 {
        assert(a + b =~= a);
        assert(attrs_text(a) + attrs_text(b) =~= attrs_text(a));
    } else {
        lemma_attrs_text_app(a, b.drop_last());
        assert((a + b).drop_last() =~= a + b.drop_last());
        assert((a + b).last() == b.last());
        assert(attrs_text(a) + attrs_text(b.drop_last()) + attr_text(b.last().0, b.last().1)
            =~= attrs_text(a) + (attrs_text(b.drop_last()) + attr_text(b.last().0, b.last().1)));
    }
}

/// The priority pairs' text splits into its three optional annotations,
/// and the full emission splits into priority then the rest.
proof fn lemma_attrs_text_concat(attrs: Seq<(Seq<char>, Seq<char>)>)
    ensures
        attrs_text(emitted_pairs(attrs)) == attrs_text(pri_pairs(attrs)) + attrs_text(
            other_pairs(attrs),
        ),
        attrs_text(pri_pairs(attrs)) == (match assoc_get(attrs, "pane"@) {
            Some(v) => attr_text("pane"@, v),
            None => Seq::<char>::empty(),
        }) + (match assoc_get(attrs, "proj"@) {
            Some(v) => attr_text("proj"@, v),
            None => Seq::<char>::empty(),
        }) + (match assoc_get(attrs, "branch"@) {
            Some(v) => attr_text("branch"@, v),
            None => Seq::<char>::empty(),
        }),
{
    lemma_attrs_text_app(pri_pairs(attrs), other_pairs(attrs));
    let pane_part: Seq<(Seq<char>, Seq<char>)> = match assoc_get(attrs, "pane"@) {
        Some(v) => seq![("pane"@, v)],
        None => Seq::empty(),
    };
    let proj_part: Seq<(Seq<char>, Seq<char>)> = match assoc_get(attrs, "proj"@) {
        Some(v) => seq![("proj"@, v)],
        None => Seq::empty(),
    };
    let branch_part: Seq<(Seq<char>, Seq<char>)> = match assoc_get(attrs, "branch"@) {
        Some(v) => seq![("branch"@, v)],
        None => Seq::empty(),
    };
    lemma_attrs_text_app(pane_part + proj_part, branch_part);
    lemma_attrs_text_app(pane_part, proj_part);
    lemma_attrs_text_single(pane_part);
    lemma_attrs_text_single(proj_part);
    lemma_attrs_text_single(branch_part);
}

/// The text of at most one pair.
pub proof fn lemma_attrs_text_single(p: Seq<(Seq<char>, Seq<char>)>)
    requires
        p.len() <= 1,
    ensures
        p.len() == 0 ==> attrs_text(p) == Seq::<char>::empty(),
        p.len() == 1 ==> attrs_text(p) == attr_text(p[0].0, p[0].1),
{
    if p.len() == 1 {
        assert(p.drop_last().len() == 0);
        assert(attrs_text(p.drop_last()) + attr_text(p.last().0, p.last().1) =~= attr_text(
            p[0].0,
            p[0].1,
        ));
    }
}

/// Emitting one more pair extends the text by one annotation.
proof fn lemma_attrs_text_concat_one(ps: Seq<(Seq<char>, Seq<char>)>, i: int)
    requires
        0 <= i < ps.len(),
    ensures
        attrs_text(ps.take(i + 1)) == attrs_text(ps.take(i)) + attr_text(ps[i].0, ps[i].1),
{
    assert(ps.take(i + 1).drop_last() =~= ps.take(i));
    assert(ps.take(i + 1).last() == ps[i]);
}

} // verus!
