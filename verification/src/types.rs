//! Core data model: the status enumeration, one tracked item with its
//! free-form attributes, and the ordered collection of all items.
//!
//! An item's attributes are a mapping from attribute name to value, keys
//! unique, insertion order irrelevant.  The collection keeps a canonical
//! order after every mutation: status rank ascending, then the `proj`
//! attribute ascending (absent `proj` sorts as the
//! empty string), ties left in insertion order.

use vstd::prelude::*;

use crate::text::lemma_lex_lt_trans;
use crate::text::lemma_lex_total;
use crate::text::lex_le;
use crate::text::parse_u32;
use crate::text::parse_u32_spec;
use crate::text::str_eq;
use crate::text::str_le;
use vstd::multiset::Multiset;

verus! {

/// Status of an inbox item: waiting for user input, or working in the
/// background.  `Waiting` orders strictly before `Working`.
#[derive(Debug, Clone, Copy, PartialEq, Eq, Structural)]
pub enum Status {
    Waiting,
    Working,
}

/// Rank used as the primary sort key: `Waiting` before `Working`.
pub open spec fn status_rank(s: Status) -> int {
    match s {
        Status::Waiting => 0,
        Status::Working => 1,
    }
}

/// The single-character document encoding of a status.
pub open spec fn status_char(s: Status) -> char {
    match s {
        Status::Waiting => ' ',
        Status::Working => '/',
    }
}

/// The status a single character decodes to, if any.
pub open spec fn status_from_char(c: char) -> Option<Status> {
    if c == ' ' {
        Some(Status::Waiting)
    } else if c == '/' {
        Some(Status::Working)
    } else {
        None
    }
}

/// The human-readable section name of a status.
pub open spec fn status_section_name(s: Status) -> Seq<char> {
    match s {
        Status::Waiting => "Waiting for Input"@,
        Status::Working => "Background"@,
    }
}

impl Status {
    /// Convert status to its single-character document encoding.
    pub fn to_char(self) -> (c: char)
        ensures
            c == status_char(self),
    {
        match self {
            Status::Waiting => ' ',
            Status::Working => '/',
        }
    }

    /// Decode a status from its single-character document encoding.
    pub fn from_char(c: char) -> (r: Option<Status>)
        ensures
            r == status_from_char(c),
    {
        if c == ' ' {
            Some(Status::Waiting)
        } else if c == '/' {
            Some(Status::Working)
        } else {
            None
        }
    }

    /// Section name used for display headers.
    pub fn section_name(self) -> (r: &'static str)
        ensures
            r@ == status_section_name(self),
    {
        match self {
            Status::Waiting => "Waiting for Input",
            Status::Working => "Background",
        }
    }
}

/// Mathematical view of one item: its attribute association list (in
/// storage order) and its status.
pub ghost struct ItemV {
    pub attrs: Seq<(Seq<char>, Seq<char>)>,
    pub status: Status,
}

/// The value the first pair with key `k` holds, if any.
pub open spec fn assoc_get(s: Seq<(Seq<char>, Seq<char>)>, k: Seq<char>) -> Option<Seq<char>>
    decreases s.len(),
{
    if s.len() == 0 {
        None
    } else if s.first().0 == k {
        Some(s.first().1)
    } else {
        assoc_get(s.drop_first(), k)
    }
}

/// Setting key `k` to `v`: replace the first pair with that key in place,
/// or append a new pair at the end.
pub open spec fn assoc_insert(
    s: Seq<(Seq<char>, Seq<char>)>,
    k: Seq<char>,
    v: Seq<char>,
) -> Seq<(Seq<char>, Seq<char>)>
    decreases s.len(),
{
    if s.len() == 0 {
        seq![(k, v)]
    } else if s.first().0 == k {
        seq![(k, v)] + s.drop_first()
    } else {
        seq![s.first()] + assoc_insert(s.drop_first(), k, v)
    }
}

/// All keys of the association list are distinct.
pub open spec fn attrs_distinct(s: Seq<(Seq<char>, Seq<char>)>) -> bool {
    forall|i: int, j: int| 0 <= i < j < s.len() ==> (#[trigger] s[i]).0 != (#[trigger] s[j]).0
}

/// The association list built by applying the key/value pairs `ps` in
/// order, each by `assoc_insert` (so a repeated key keeps its first
/// position and its last value).
pub open spec fn build_assoc(ps: Seq<(Seq<char>, Seq<char>)>) -> Seq<(Seq<char>, Seq<char>)>
    decreases ps.len(),
{
    if ps.len() == 0 {
        Seq::empty()
    } else {
        assoc_insert(build_assoc(ps.drop_last()), ps.last().0, ps.last().1)
    }
}

/// The finite map an association list denotes (first pair wins, which for
/// distinct keys is the only pair).
pub open spec fn assoc_map(s: Seq<(Seq<char>, Seq<char>)>) -> Map<Seq<char>, Seq<char>>
    decreases s.len(),
{
    if s.len() == 0 {
        Map::empty()
    } else {
        assoc_map(s.drop_first()).insert(s.first().0, s.first().1)
    }
}

/// Reading an inserted association list: the inserted key holds the new
/// value, every other key is unchanged, and distinctness is preserved.
pub proof fn lemma_assoc_insert(s: Seq<(Seq<char>, Seq<char>)>, k: Seq<char>, v: Seq<char>)
    ensures
        assoc_get(assoc_insert(s, k, v), k) == Some(v),
        forall|k2: Seq<char>|
            k2 != k ==> #[trigger] assoc_get(assoc_insert(s, k, v), k2) == assoc_get(s, k2),
        attrs_distinct(s) ==> attrs_distinct(assoc_insert(s, k, v)),
        assoc_insert(s, k, v).len() == if assoc_get(s, k) is Some {
            s.len() as int
        } else {
            s.len() + 1int
        },
        forall|j: int|
            0 <= j < assoc_insert(s, k, v).len() ==> (#[trigger] assoc_insert(s, k, v)[j]).0
                == if j < s.len() {
                s[j].0
            } else {
                k
            },
    decreases s.len(),
{
    let r = assoc_insert(s, k, v);
    if s.len() == 0 {
        assert forall|k2: Seq<char>| k2 != k implies #[trigger] assoc_get(r, k2) == assoc_get(
            s,
            k2,
        ) by {
            assert(r.first() == (k, v));
            assert(assoc_get(r, k2) == assoc_get(r.drop_first(), k2));
            assert(r.drop_first().len() == 0);
            assert(assoc_get(r.drop_first(), k2) is None);
        }
    } else if s.first().0 == k {
        assert(r == seq![(k, v)] + s.drop_first());
        assert forall|k2: Seq<char>| k2 != k implies #[trigger] assoc_get(r, k2) == assoc_get(
            s,
            k2,
        ) by {
            assert(r.first() == (k, v));
            assert(r.drop_first() =~= s.drop_first());
        }
        assert forall|j: int| 0 <= j < r.len() implies (#[trigger] r[j]).0 == if j < s.len() {
            s[j].0
        } else {
            k
        } by {
            if j > 0 {
                assert(r[j] == s.drop_first()[j - 1]);
                assert(s.drop_first()[j - 1] == s[j]);
            }
        }
        if attrs_distinct(s) {
            assert forall|i: int, j: int| 0 <= i < j < r.len() implies (#[trigger] r[i]).0 != (
            #[trigger] r[j]).0 by {
                assert(r[i].0 == s[i].0);
                assert(r[j].0 == s[j].0);
            }
        }
    } else {
        lemma_assoc_insert(s.drop_first(), k, v);
        let rr = assoc_insert(s.drop_first(), k, v);
        assert(r == seq![s.first()] + rr);
        assert(r.first() == s.first());
        assert(r.drop_first() =~= rr);
        assert forall|k2: Seq<char>| k2 != k implies #[trigger] assoc_get(r, k2) == assoc_get(
            s,
            k2,
        ) by {
            assert(assoc_get(r.drop_first(), k2) == assoc_get(rr, k2));
        }
        assert(assoc_get(r, k) == assoc_get(rr, k));
        assert forall|j: int| 0 <= j < r.len() implies (#[trigger] r[j]).0 == if j < s.len() {
            s[j].0
        } else {
            k
        } by {
            if j > 0 {
                assert(r[j] == rr[j - 1]);
                if j < s.len() {
                    assert(s.drop_first()[j - 1] == s[j]);
                }
            }
        }
        if attrs_distinct(s) {
            assert(attrs_distinct(s.drop_first())) by {
                assert forall|i: int, j: int|
                    0 <= i < j < s.drop_first().len() implies (#[trigger] s.drop_first()[i]).0 != (
                #[trigger] s.drop_first()[j]).0 by {
                    assert(s.drop_first()[i] == s[i + 1]);
                    assert(s.drop_first()[j] == s[j + 1]);
                }
            }
            // the head key differs from every key of the tail, and from k
            assert forall|i: int, j: int| 0 <= i < j < r.len() implies (#[trigger] r[i]).0 != (
            #[trigger] r[j]).0 by {
                if i == 0 {
                    if j < s.len() {
                        assert(r[j].0 == s[j].0);
                    } else {
                        assert(r[j].0 == k);
                    }
                } else {
                    assert(r[i].0 == rr[i - 1].0);
                    assert(r[j].0 == rr[j - 1].0);
                }
            }
        }
    }
}

/// `assoc_get` and the denoted map agree.
pub proof fn lemma_assoc_get_map(s: Seq<(Seq<char>, Seq<char>)>, k: Seq<char>)
    ensures
        assoc_map(s).contains_key(k) <==> assoc_get(s, k) is Some,
        assoc_get(s, k) matches Some(v) ==> assoc_map(s)[k] == v,
    decreases s.len(),
{
    if s.len() > 0 {
        lemma_assoc_get_map(s.drop_first(), k);
    }
}

/// The first pair whose key is `k` decides `assoc_get`.
pub proof fn lemma_assoc_get_at(s: Seq<(Seq<char>, Seq<char>)>, k: Seq<char>, i: int)
    requires
        0 <= i <= s.len(),
        forall|j: int| 0 <= j < i ==> (#[trigger] s[j]).0 != k,
    ensures
        i < s.len() && s[i].0 == k ==> assoc_get(s, k) == Some(s[i].1),
        i == s.len() ==> assoc_get(s, k) is None,
    decreases i,
{
    if i > 0 {
        assert(s.first().0 != k);
        lemma_assoc_get_at(s.drop_first(), k, i - 1);
        if i < s.len() {
            assert(s.drop_first()[i - 1] == s[i]);
        }
    } else {
        if i == s.len() {
        }
    }
}

/// `assoc_get` on a fully scanned list without the key is `None`.
pub proof fn lemma_assoc_get_none(s: Seq<(Seq<char>, Seq<char>)>, k: Seq<char>)
    requires
        forall|j: int| 0 <= j < s.len() ==> (#[trigger] s[j]).0 != k,
    ensures
        assoc_get(s, k) is None,
{
    lemma_assoc_get_at(s, k, s.len() as int);
}

/// One tracked entry: a free-form attribute mapping plus a status.
#[derive(Debug, Clone)]
pub struct InboxItem {
    pub attrs: Vec<(String, String)>,
    pub status: Status,
}

/// View of a vector of string pairs as a sequence of character-sequence
/// pairs.
pub open spec fn pairs_view(s: Seq<(String, String)>) -> Seq<(Seq<char>, Seq<char>)> {
    Seq::new(s.len(), |i: int| (s[i].0@, s[i].1@))
}

impl View for InboxItem {
    type V = ItemV;

    open spec fn view(&self) -> ItemV {
        ItemV { attrs: pairs_view(self.attrs@), status: self.status }
    }
}

/// View of an optional string slice.
pub open spec fn opt_view(o: Option<&str>) -> Option<Seq<char>> {
    match o {
        Some(s) => Some(s@),
        None => None,
    }
}

/// The pane identifier an item view carries: its `pane` attribute parsed
/// as a `u32`.
pub open spec fn item_pane(iv: ItemV) -> Option<u32> {
    match assoc_get(iv.attrs, "pane"@) {
        Some(v) => parse_u32_spec(v),
        None => None,
    }
}

/// The message text of an item view: its `msg` attribute, or empty.
pub open spec fn item_msg(iv: ItemV) -> Seq<char> {
    match assoc_get(iv.attrs, "msg"@) {
        Some(v) => v,
        None => Seq::empty(),
    }
}

/// The project label of an item view, if any.
pub open spec fn item_proj(iv: ItemV) -> Option<Seq<char>> {
    assoc_get(iv.attrs, "proj"@)
}

/// The branch label of an item view, if any.
pub open spec fn item_branch(iv: ItemV) -> Option<Seq<char>> {
    assoc_get(iv.attrs, "branch"@)
}

/// A well-formed item holds each attribute key at most once.
pub open spec fn item_wf(iv: ItemV) -> bool {
    attrs_distinct(iv.attrs)
}

/// Set one attribute of an association vector, replacing the first pair
/// with the same key in place or appending a new pair.
pub(crate) fn assoc_set(m: &mut Vec<(String, String)>, k: String, v: String)
    ensures
        pairs_view(final(m)@) == assoc_insert(pairs_view(old(m)@), k@, v@),
{
    let n = m.len();
    let mut i: usize = 0;
    while i < n
        invariant
            0 <= i <= n,
            n == m@.len(),
            m@ == old(m)@,
            forall|j: int| 0 <= j < i ==> (#[trigger] pairs_view(m@)[j]).0 != k@,
        decreases n - i,
    {
        if str_eq(m[i].0.as_str(), k.as_str()) {
            let ghost pre = pairs_view(m@);
            m.remove(i);
            m.insert(i, (k, v));
            proof {
                lemma_assoc_insert_at_index(pre, k@, v@, i as int);
                assert(pairs_view(m@) =~= pre.update(i as int, (k@, v@)));
            }
            return;
        }
        i = i + 1;
    }
    let ghost pre = pairs_view(m@);
    m.push((k, v));
    proof {
        lemma_assoc_insert_at_index(pre, k@, v@, n as int);
        assert(pairs_view(m@) =~= pre.push((k@, v@)));
    }
}

/// Where the first matching key sits, `assoc_insert` is an in-place
/// update; where no key matches, it is a push.
pub(crate) proof fn lemma_assoc_insert_at_index(
    s: Seq<(Seq<char>, Seq<char>)>,
    k: Seq<char>,
    v: Seq<char>,
    i: int,
)
    requires
        0 <= i <= s.len(),
        forall|j: int| 0 <= j < i ==> (#[trigger] s[j]).0 != k,
        i < s.len() ==> s[i].0 == k,
    ensures
        i < s.len() ==> assoc_insert(s, k, v) == s.update(i, (k, v)),
        i == s.len() ==> assoc_insert(s, k, v) == s.push((k, v)),
    decreases i,
{
    if i == 0 {
        if s.len() > 0 {
            assert(assoc_insert(s, k, v) =~= s.update(0, (k, v)));
        } else {
            assert(assoc_insert(s, k, v) =~= s.push((k, v)));
        }
    } else {
        assert(s.first().0 != k);
        lemma_assoc_insert_at_index(s.drop_first(), k, v, i - 1);
        if i < s.len() {
            assert(s.drop_first()[i - 1] == s[i]);
            assert(assoc_insert(s, k, v) =~= s.update(i, (k, v)));
        } else {
            assert(assoc_insert(s, k, v) =~= s.push((k, v)));
        }
    }
}

impl InboxItem {
    /// Create a new item from key/value pairs, applied in order with the
    /// last occurrence of a repeated key winning, plus a status.
    pub fn new(attrs: Vec<(String, String)>, status: Status) -> (r: Self)
        ensures
            r@.attrs == build_assoc(pairs_view(attrs@)),
            r@.status == status,
            item_wf(r@),
    {
        let n = attrs.len();
        let mut m: Vec<(String, String)> = Vec::new();
        let mut i: usize = 0;
        while i < n
            invariant
                0 <= i <= n,
                n == attrs@.len(),
                pairs_view(m@) == build_assoc(pairs_view(attrs@).take(i as int)),
                attrs_distinct(pairs_view(m@)),
            decreases n - i,
        {
            let k = attrs[i].0.clone();
            let v = attrs[i].1.clone();
            let ghost pre = pairs_view(m@);
            assoc_set(&mut m, k, v);
            proof {
                lemma_assoc_insert(pre, attrs@[i as int].0@, attrs@[i as int].1@);
                let ps = pairs_view(attrs@);
                assert(ps.take(i + 1).drop_last() =~= ps.take(i as int));
                assert(ps.take(i + 1).last() == ps[i as int]);
            }
            i = i + 1;
        }
        proof {
            assert(pairs_view(attrs@).take(n as int) =~= pairs_view(attrs@));
        }
        InboxItem { attrs: m, status }
    }

    /// Look up an attribute value by name.
    pub fn get(&self, key: &str) -> (r: Option<&str>)
        ensures
            opt_view(r) == assoc_get(self@.attrs, key@),
    {
        let n = self.attrs.len();
        let mut i: usize = 0;
        while i < n
            invariant
                0 <= i <= n,
                n == self.attrs@.len(),
                forall|j: int| 0 <= j < i ==> (#[trigger] pairs_view(self.attrs@)[j]).0 != key@,
            decreases n - i,
        {
            if str_eq(self.attrs[i].0.as_str(), key) {
                proof {
                    lemma_assoc_get_at(self@.attrs, key@, i as int);
                }
                return Some(self.attrs[i].1.as_str());
            }
            i = i + 1;
        }
        proof {
            lemma_assoc_get_none(self@.attrs, key@);
        }
        None
    }

    /// The pane identifier: the `pane` attribute parsed as a `u32`.
    pub fn pane_id(&self) -> (r: Option<u32>)
        ensures
            r == item_pane(self@),
    {
        match self.get("pane") {
            Some(v) => parse_u32(v),
            None => None,
        }
    }

    /// The message text: the `msg` attribute, or empty.
    pub fn msg(&self) -> (r: &str)
        ensures
            r@ == item_msg(self@),
    {
        match self.get("msg") {
            Some(v) => v,
            None => {
                let r = "";
                proof {
                    reveal_strlit("");
                    assert(r@ =~= Seq::<char>::empty());
                }
                r
            },
        }
    }

    /// The project label, if any.
    pub fn proj(&self) -> (r: Option<&str>)
        ensures
            opt_view(r) == item_proj(self@),
    {
        self.get("proj")
    }

    /// The branch label, if any.
    pub fn branch(&self) -> (r: Option<&str>)
        ensures
            opt_view(r) == item_branch(self@),
    {
        self.get("branch")
    }
}

/// The string an optional project label sorts by: an absent label
/// sorts as the empty, lowest string, so it ties with an explicitly
/// empty one.
pub open spec fn proj_sort_key(x: Option<Seq<char>>) -> Seq<char> {
    match x {
        Some(s) => s,
        None => Seq::empty(),
    }
}

/// Non-strict order on optional project labels, by their sort strings.
pub open spec fn opt_lex_le(x: Option<Seq<char>>, y: Option<Seq<char>>) -> bool {
    lex_le(proj_sort_key(x), proj_sort_key(y))
}

/// The canonical comparator: status rank ascending, then project label
/// ascending.  The `branch` attribute deliberately takes no part in the
/// order: items equal on status and project keep their relative order.
pub open spec fn item_key_le(a: ItemV, b: ItemV) -> bool {
    status_rank(a.status) < status_rank(b.status) || (status_rank(a.status) == status_rank(b.status)
        && opt_lex_le(item_proj(a), item_proj(b)))
}

/// The comparator is total.
pub proof fn lemma_item_le_total(a: ItemV, b: ItemV)
    ensures
        item_key_le(a, b) || item_key_le(b, a),
{
    if status_rank(a.status) == status_rank(b.status) {
        lemma_lex_total(proj_sort_key(item_proj(a)), proj_sort_key(item_proj(b)));
    }
}

/// The comparator is transitive.
pub proof fn lemma_item_le_trans(a: ItemV, b: ItemV, c: ItemV)
    requires
        item_key_le(a, b),
        item_key_le(b, c),
    ensures
        item_key_le(a, c),
{
    if status_rank(a.status) == status_rank(b.status) && status_rank(b.status) == status_rank(
        c.status,
    ) {
        let xs = proj_sort_key(item_proj(a));
        let ys = proj_sort_key(item_proj(b));
        let zs = proj_sort_key(item_proj(c));
        if xs != ys && ys != zs {
            lemma_lex_lt_trans(xs, ys, zs);
        }
    }
}

/// A sequence of item views in canonical order.
pub open spec fn sorted_spec(s: Seq<ItemV>) -> bool {
    forall|i: int, j: int| 0 <= i < j < s.len() ==> item_key_le(#[trigger] s[i], #[trigger] s[j])
}

/// Insert `x` into an already sorted sequence, after every element that
/// compares less-or-equal (so elements already present keep their
/// relative order, and `x` lands after its equals).
pub open spec fn insert_item(s: Seq<ItemV>, x: ItemV) -> Seq<ItemV>
    decreases s.len(),
{
    if s.len() == 0 {
        seq![x]
    } else if item_key_le(s.last(), x) {
        s.push(x)
    } else {
        insert_item(s.drop_last(), x).push(s.last())
    }
}

/// The stable sort by the canonical comparator, defined as iterated
/// insertion in input order.
pub open spec fn sort_seq(s: Seq<ItemV>) -> Seq<ItemV>
    decreases s.len(),
{
    if s.len() == 0 {
        Seq::empty()
    } else {
        insert_item(sort_seq(s.drop_last()), s.last())
    }
}

/// Inserting into a sorted sequence keeps it sorted and adds exactly the
/// new element.
pub proof fn lemma_insert_item_sorted(s: Seq<ItemV>, x: ItemV)
    requires
        sorted_spec(s),
    ensures
        sorted_spec(insert_item(s, x)),
        insert_item(s, x).to_multiset() == s.to_multiset().insert(x),
        insert_item(s, x).len() == s.len() + 1,
    decreases s.len(),
{
    broadcast use vstd::seq_lib::group_to_multiset_ensures;

    let r = insert_item(s, x);
    if s.len() == 0 {
        assert(r == seq![x]);
        assert(seq![x] =~= Seq::<ItemV>::empty().push(x));
        assert(Seq::<ItemV>::empty().to_multiset() =~= Multiset::<ItemV>::empty());
    } else if item_key_le(s.last(), x) {
        assert(r == s.push(x));
        assert forall|i: int, j: int| 0 <= i < j < r.len() implies item_key_le(
            #[trigger] r[i],
            #[trigger] r[j],
        ) by {
            if j == s.len() {
                if i < s.len() - 1 {
                    assert(item_key_le(s[i], s.last()));
                    lemma_item_le_trans(s[i], s.last(), x);
                }
            }
        }
    } else {
        assert(sorted_spec(s.drop_last())) by {
            assert forall|i: int, j: int| 0 <= i < j < s.drop_last().len() implies item_key_le(
                #[trigger] s.drop_last()[i],
                #[trigger] s.drop_last()[j],
            ) by {
                assert(s.drop_last()[i] == s[i]);
                assert(s.drop_last()[j] == s[j]);
            }
        }
        lemma_insert_item_sorted(s.drop_last(), x);
        let rr = insert_item(s.drop_last(), x);
        assert(r == rr.push(s.last()));
        // every element of rr is at most s.last()
        assert forall|i: int, j: int| 0 <= i < j < r.len() implies item_key_le(
            #[trigger] r[i],
            #[trigger] r[j],
        ) by {
            if j == rr.len() {
                // show rr[i] <= s.last()
                assert(rr.to_multiset().count(rr[i]) > 0);
                assert(rr.to_multiset() == s.drop_last().to_multiset().insert(x));
                if rr[i] == x {
                    lemma_item_le_total(s.last(), x);
                    assert(item_key_le(x, s.last()));
                } else {
                    assert(s.drop_last().to_multiset().count(rr[i]) > 0);
                    assert(s.drop_last().contains(rr[i]));
                    let w = choose|w: int|
                        0 <= w < s.drop_last().len() && s.drop_last()[w] == rr[i];
                    assert(s.drop_last()[w] == s[w]);
                    assert(item_key_le(s[w], s.last()));
                }
            } else {
                assert(item_key_le(rr[i], rr[j]));
            }
        }
        // multiset bookkeeping
        assert(s =~= s.drop_last().push(s.last()));
        assert(s.to_multiset() == s.drop_last().to_multiset().insert(s.last()));
        assert(r.to_multiset() == rr.to_multiset().insert(s.last()));
        assert(r.to_multiset() =~= s.to_multiset().insert(x));
    }
}

/// The stable sort produces a sorted permutation.
pub proof fn lemma_sort_seq_sorted(s: Seq<ItemV>)
    ensures
        sorted_spec(sort_seq(s)),
        sort_seq(s).to_multiset() == s.to_multiset(),
        sort_seq(s).len() == s.len(),
    decreases s.len(),
{
    broadcast use vstd::seq_lib::group_to_multiset_ensures;

    if s.len() == 0 {
    } else {
        lemma_sort_seq_sorted(s.drop_last());
        lemma_insert_item_sorted(sort_seq(s.drop_last()), s.last());
        assert(s =~= s.drop_last().push(s.last()));
        assert(s.to_multiset() == s.drop_last().to_multiset().insert(s.last()));
    }
}

/// Where the scan of a sorted sequence stops, the specified insertion
/// splits the sequence there.
proof fn lemma_insert_item_at(s: Seq<ItemV>, x: ItemV, p: int)
    requires
        sorted_spec(s),
        0 <= p <= s.len(),
        forall|j: int| 0 <= j < p ==> item_key_le(#[trigger] s[j], x),
        p < s.len() ==> !item_key_le(s[p], x),
    ensures
        insert_item(s, x) == s.take(p) + seq![x] + s.skip(p),
    decreases s.len(),
{
    if s.len() == 0 {
        assert(insert_item(s, x) =~= s.take(p) + seq![x] + s.skip(p));
    } else if item_key_le(s.last(), x) {
        // p must be s.len(): a non-le element at p would order below last
        if p < s.len() {
            assert(item_key_le(s[p], s.last()) || p == s.len() - 1);
            if p < s.len() - 1 {
                lemma_item_le_trans(s[p], s.last(), x);
            }
            assert(false);
        }
        assert(insert_item(s, x) =~= s.take(p) + seq![x] + s.skip(p));
    } else {
        // p is at most s.len() - 1
        assert(p < s.len()) by {
            if p == s.len() {
                assert(item_key_le(s[p - 1], x));
            }
        }
        assert(sorted_spec(s.drop_last())) by {
            assert forall|i: int, j: int| 0 <= i < j < s.drop_last().len() implies item_key_le(
                #[trigger] s.drop_last()[i],
                #[trigger] s.drop_last()[j],
            ) by {
                assert(s.drop_last()[i] == s[i]);
                assert(s.drop_last()[j] == s[j]);
            }
        }
        assert(forall|j: int| 0 <= j < p ==> item_key_le(#[trigger] s.drop_last()[j], x)) by {
            assert(forall|j: int| 0 <= j < p ==> s.drop_last()[j] == s[j]);
        }
        assert(p < s.drop_last().len() ==> !item_key_le(s.drop_last()[p], x)) by {
            if p < s.len() - 1 {
                assert(s.drop_last()[p] == s[p]);
            }
        }
        lemma_insert_item_at(s.drop_last(), x, p);
        assert(insert_item(s, x) =~= s.take(p) + seq![x] + s.skip(p));
    }
}

/// The ordered collection of items.
#[derive(Debug, Clone)]
pub struct Inbox {
    pub items: Vec<InboxItem>,
}

/// View of a sequence of items as their item views.
pub open spec fn views_of(items: Seq<InboxItem>) -> Seq<ItemV> {
    Seq::new(items.len(), |i: int| items[i]@)
}

impl View for Inbox {
    type V = Seq<ItemV>;

    open spec fn view(&self) -> Seq<ItemV> {
        views_of(self.items@)
    }
}

/// Every item of the collection is well-formed.
pub open spec fn inbox_wf(s: Seq<ItemV>) -> bool {
    forall|i: int| 0 <= i < s.len() ==> item_wf(#[trigger] s[i])
}

/// The first index whose item carries pane identifier `p`, if any.
pub open spec fn find_pane(s: Seq<ItemV>, p: u32) -> Option<int>
    decreases s.len(),
{
    if s.len() == 0 {
        None
    } else if item_pane(s.first()) == Some(p) {
        Some(0)
    } else {
        match find_pane(s.drop_first(), p) {
            Some(i) => Some(i + 1),
            None => None,
        }
    }
}

/// The collection `upsert` hands to the sort: the first item with the
/// same pane identifier replaced in place, or the new item appended.
pub open spec fn upserted(s: Seq<ItemV>, iv: ItemV) -> Seq<ItemV> {
    match item_pane(iv) {
        Some(p) => match find_pane(s, p) {
            Some(i) => s.update(i, iv),
            None => s.push(iv),
        },
        None => s.push(iv),
    }
}

/// The collection with every item carrying pane identifier `p` removed.
pub open spec fn remove_pane(s: Seq<ItemV>, p: u32) -> Seq<ItemV>
    decreases s.len(),
{
    if s.len() == 0 {
        Seq::empty()
    } else if item_pane(s.last()) == Some(p) {
        remove_pane(s.drop_last(), p)
    } else {
        remove_pane(s.drop_last(), p).push(s.last())
    }
}

/// How many items carry pane identifier `p`.
pub open spec fn count_pane(s: Seq<ItemV>, p: u32) -> int
    decreases s.len(),
{
    if s.len() == 0 {
        0int
    } else if item_pane(s.last()) == Some(p) {
        count_pane(s.drop_last(), p) + 1
    } else {
        count_pane(s.drop_last(), p)
    }
}

/// Removal drops exactly the matching items: the length shrinks by their
/// count, nothing is removed when none match, and a match exists exactly
/// when the count is positive.
pub proof fn lemma_remove_pane(s: Seq<ItemV>, p: u32)
    ensures
        remove_pane(s, p).len() == s.len() - count_pane(s, p),
        0 <= count_pane(s, p) <= s.len(),
        count_pane(s, p) > 0 <==> exists|i: int| 0 <= i < s.len() && item_pane(#[trigger] s[i])
            == Some(p),
        count_pane(s, p) == 0 ==> remove_pane(s, p) == s,
    decreases s.len(),
{
    if s.len() > 0 {
        lemma_remove_pane(s.drop_last(), p);
        assert forall|i: int|
            0 <= i < s.drop_last().len() && item_pane(#[trigger] s.drop_last()[i]) == Some(
                p,
            ) implies item_pane(s[i]) == Some(p) by {
            assert(s.drop_last()[i] == s[i]);
        }
        if count_pane(s, p) > 0 {
            if item_pane(s.last()) == Some(p) {
                assert(item_pane(s[s.len() - 1]) == Some(p));
            } else {
                let w = choose|i: int|
                    0 <= i < s.drop_last().len() && item_pane(#[trigger] s.drop_last()[i]) == Some(
                        p,
                    );
                assert(item_pane(s[w]) == Some(p));
            }
        }
        if exists|i: int| 0 <= i < s.len() && item_pane(#[trigger] s[i]) == Some(p) {
            let w = choose|i: int| 0 <= i < s.len() && item_pane(#[trigger] s[i]) == Some(p);
            if w < s.len() - 1 {
                assert(s.drop_last()[w] == s[w]);
                assert(count_pane(s.drop_last(), p) > 0);
            }
        }
        if count_pane(s, p) == 0 {
            assert(remove_pane(s, p) =~= s);
        }
    }
}

impl Default for Inbox {
    /// An empty collection.
    fn default() -> (r: Self)
        ensures
            r@.len() == 0,
    {
        Inbox { items: Vec::new() }
    }
}

impl Inbox {
    /// Create an empty collection.
    pub fn new() -> (r: Self)
        ensures
            r@.len() == 0,
    {
        Inbox { items: Vec::new() }
    }

    /// Whether the collection holds no items.
    pub fn is_empty(&self) -> (r: bool)
        ensures
            r == (self@.len() == 0),
    {
        self.items.len() == 0
    }

    /// Re-establish the canonical order: a stable sort by status rank,
    /// then project label.
    pub fn sort(&mut self)
        ensures
            final(self)@ == sort_seq(old(self)@),
            sorted_spec(final(self)@),
            final(self)@.to_multiset() == old(self)@.to_multiset(),
            final(self)@.len() == old(self)@.len(),
    {
        let ghost orig = self@;
        let mut out: Vec<InboxItem> = Vec::new();
        let ghost mut done: Seq<ItemV> = Seq::empty();
        proof {
            assert(orig =~= done + views_of(self.items@));
            assert(views_of(out@) =~= sort_seq(done));
        }
        while self.items.len() > 0
            invariant
                orig == done + views_of(self.items@),
                views_of(out@) == sort_seq(done),
                sorted_spec(views_of(out@)),
            decreases self.items@.len(),
        {
            let ghost items_pre = self.items@;
            let ghost done_pre = done;
            let it = self.items.remove(0);
            proof {
                assert(views_of(items_pre).drop_first() =~= views_of(self.items@));
                done = done.push(it@);
                assert(orig =~= done + views_of(self.items@));
                assert(done.drop_last() =~= done_pre);
                assert(done.last() == it@);
                assert(sort_seq(done) == insert_item(sort_seq(done_pre), it@));
            }
            let mut p: usize = 0;
            let olen = out.len();
            let ghost out_pre = views_of(out@);
            while p < olen && item_le(&out[p], &it)
                invariant
                    0 <= p <= olen,
                    olen == out@.len(),
                    out_pre == views_of(out@),
                    sorted_spec(out_pre),
                    forall|j: int| 0 <= j < p ==> item_key_le(#[trigger] views_of(out@)[j], it@),
                decreases olen - p,
            {
                p = p + 1;
            }
            proof {
                lemma_insert_item_at(out_pre, it@, p as int);
                lemma_insert_item_sorted(out_pre, it@);
            }
            out.insert(p, it);
            proof {
                assert(views_of(out@) =~= out_pre.take(p as int) + seq![it@] + out_pre.skip(
                    p as int,
                ));
                assert(views_of(out@) == insert_item(out_pre, it@));
                assert(out_pre == sort_seq(done_pre));
                assert(views_of(out@) == sort_seq(done));
            }
        }
        proof {
            assert(orig =~= done);
            assert(sort_seq(orig) == sort_seq(done));
            lemma_sort_seq_sorted(orig);
        }
        self.items = out;
    }

    /// Add or update an item.  An item with a parseable `pane` attribute
    /// replaces the first existing item with the same pane identifier in
    /// place; otherwise the item is appended.  Either way the whole
    /// collection is then re-sorted into canonical order, so all
    /// `Waiting` items precede all `Working` items and each status group
    /// is non-decreasing by project.
    pub fn upsert(&mut self, item: InboxItem)
        ensures
            final(self)@ == sort_seq(upserted(old(self)@, item@)),
            sorted_spec(final(self)@),
            final(self)@.to_multiset() == upserted(old(self)@, item@).to_multiset(),
            item_pane(item@) is Some && find_pane(old(self)@, item_pane(item@)->Some_0)
                is Some ==> final(self)@.len() == old(self)@.len(),
            !(item_pane(item@) is Some && find_pane(old(self)@, item_pane(item@)->Some_0)
                is Some) ==> final(self)@.len() == old(self)@.len() + 1,
    {
        let ghost orig = self@;
        match item.pane_id() {
            Some(p) => {
                let n = self.items.len();
                let mut i: usize = 0;
                while i < n
                    invariant
                        0 <= i <= n,
                        n == self.items@.len(),
                        self@ == orig,
                        orig == old(self)@,
                        item_pane(item@) == Some(p),
                        forall|j: int|
                            0 <= j < i ==> item_pane(#[trigger] views_of(self.items@)[j]) != Some(
                                p,
                            ),
                    decreases n - i,
                {
                    let matches_here = match self.items[i].pane_id() {
                        Some(q) => q == p,
                        None => false,
                    };
                    if matches_here {
                        proof {
                            assert(orig[i as int] == views_of(self.items@)[i as int]);
                            assert(item_pane(orig[i as int]) == Some(p));
                            lemma_find_pane_at(orig, p, i as int);
                            assert(find_pane(orig, p) == Some(i as int));
                            assert(upserted(orig, item@) == orig.update(i as int, item@));
                        }
                        self.items.remove(i);
                        self.items.insert(i, item);
                        proof {
                            assert(views_of(self.items@) =~= orig.update(i as int, item@));
                        }
                        self.sort();
                        proof {
                            lemma_sort_seq_sorted(upserted(orig, item@));
                        }
                        return;
                    }
                    i = i + 1;
                }
                proof {
                    lemma_find_pane_at(orig, p, n as int);
                    assert(upserted(orig, item@) == orig.push(item@));
                }
                self.items.push(item);
                proof {
                    assert(views_of(self.items@) =~= orig.push(item@));
                }
                self.sort();
                proof {
                    lemma_sort_seq_sorted(upserted(orig, item@));
                }
            },
            None => {
                proof {
                    assert(upserted(orig, item@) == orig.push(item@));
                }
                self.items.push(item);
                proof {
                    assert(views_of(self.items@) =~= orig.push(item@));
                }
                self.sort();
                proof {
                    lemma_sort_seq_sorted(upserted(orig, item@));
                }
            },
        }
    }

    /// Remove every item whose pane identifier is `pane_id`.  Returns
    /// whether at least one item was removed; when none matches, the
    /// collection is unchanged.
    pub fn remove(&mut self, pane_id: u32) -> (r: bool)
        ensures
            final(self)@ == remove_pane(old(self)@, pane_id),
            r <==> exists|i: int|
                0 <= i < old(self)@.len() && item_pane(#[trigger] old(self)@[i]) == Some(pane_id),
            !r ==> final(self)@ == old(self)@,
            final(self)@.len() == old(self)@.len() - count_pane(old(self)@, pane_id),
    {
        let ghost orig = self@;
        let n = self.items.len();
        let mut out: Vec<InboxItem> = Vec::new();
        let ghost mut done: Seq<ItemV> = Seq::empty();
        proof {
            assert(orig =~= done + views_of(self.items@));
            assert(views_of(out@) =~= remove_pane(done, pane_id));
            assert(done.len() - count_pane(done, pane_id) == views_of(out@).len());
        }
        while self.items.len() > 0
            invariant
                orig == done + views_of(self.items@),
                views_of(out@) == remove_pane(done, pane_id),
            decreases self.items@.len(),
        {
            let ghost items_pre = self.items@;
            let ghost done_pre = done;
            let it = self.items.remove(0);
            proof {
                assert(views_of(items_pre).drop_first() =~= views_of(self.items@));
                done = done.push(it@);
                assert(orig =~= done + views_of(self.items@));
                assert(done.drop_last() =~= done_pre);
                assert(done.last() == it@);
            }
            let matches_here = match it.pane_id() {
                Some(q) => q == pane_id,
                None => false,
            };
            if !matches_here {
                let ghost out_pre = views_of(out@);
                out.push(it);
                proof {
                    assert(views_of(out@) =~= out_pre.push(it@));
                    assert(views_of(out@) == remove_pane(done, pane_id));
                }
            } else {
                proof {
                    assert(views_of(out@) == remove_pane(done, pane_id));
                }
            }
        }
        proof {
            assert(orig =~= done);
            lemma_remove_pane(orig, pane_id);
        }
        let r = out.len() < n;
        self.items = out;
        r
    }
}

/// Executable form of the canonical comparator.
fn item_le(a: &InboxItem, b: &InboxItem) -> (r: bool)
    ensures
        r == item_key_le(a@, b@),
{
    match (a.status, b.status) {
        (Status::Waiting, Status::Working) => true,
        (Status::Working, Status::Waiting) => false,
        _ => {
            match (a.proj(), b.proj()) {
                (None, None) => true,
                (None, Some(y)) => {
                    proof {
                        if y@.len() == 0 {
                            assert(Seq::<char>::empty() =~= y@);
                        }
                    }
                    true
                },
                (Some(x), None) => {
                    let r = x.is_empty();
                    proof {
                        if x@.len() == 0 {
                            assert(x@ =~= Seq::<char>::empty());
                        }
                    }
                    r
                },
                (Some(x), Some(y)) => str_le(x, y),
            }
        },
    }
}

/// The first matching scan index is what `find_pane` returns.
proof fn lemma_find_pane_at(s: Seq<ItemV>, p: u32, i: int)
    requires
        0 <= i <= s.len(),
        forall|j: int| 0 <= j < i ==> item_pane(#[trigger] s[j]) != Some(p),
    ensures
        i < s.len() && item_pane(s[i]) == Some(p) ==> find_pane(s, p) == Some(i),
        i == s.len() ==> find_pane(s, p) is None,
    decreases i,
{
    if i > 0 {
        assert(item_pane(s.first()) != Some(p));
        lemma_find_pane_at(s.drop_first(), p, i - 1);
        if i < s.len() {
            assert(s.drop_first()[i - 1] == s[i]);
        }
    } else {
        if i == s.len() {
        }
    }
}

} // verus!
