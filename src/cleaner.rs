use crate::dom::{
    collect_preorder, filtered, has_tag, is_tag, lemma_link_le_text, lemma_preorder_in_range,
    attrs_view, lemma_filtered_none, lemma_pruned_wf, link_len, link_length, preorder, str_eq, text_len, text_length,
    wf_nodes, Attr, AttrView, Dom, NodeKind, NodeView,
};
use crate::preprocess::{is_junk, junk};
use crate::scorer::{class_weight, get_class_weight};
use vstd::prelude::*;

verus! {

/// The serialization of the URL that `url::Url::join` makes of `reference`
/// against the base URL serialized as `base`; None where either the base
/// or the joined URL does not parse.
pub uninterp spec fn joined_url(base: Seq<char>, reference: Seq<char>) -> Option<Seq<char>>;

/// Relies on `url::Url::parse` for the base and `url::Url::join` for the
/// reference: the result is the joined URL's serialization (`as_str`), a
/// function of the two texts alone.
#[verifier::external_body]
fn join_url(base: &str, reference: &str) -> (r: Option<String>)
    ensures
        r matches Some(s) ==> joined_url(base@, reference@) == Some(s@),
        r is None ==> joined_url(base@, reference@) is None,
{
    url::Url::parse(base).and_then(|b| b.join(reference)).ok().map(|u| u.as_str().to_string())
}

pub open spec fn ascii_alpha(c: char) -> bool {
    ('a' <= c && c <= 'z') || ('A' <= c && c <= 'Z')
}

pub open spec fn scheme_char(c: char) -> bool {
    ascii_alpha(c) || ('0' <= c && c <= '9') || c == '+' || c == '-' || c == '.'
}

/// `s` starts with a URL scheme and a colon, as an absolute reference does.
pub open spec fn absolute(s: Seq<char>) -> bool {
    exists|i: int|
        0 < i < s.len() && #[trigger] s[i] == ':' && ascii_alpha(s[0]) && forall|j: int|
            0 < j < i ==> scheme_char(#[trigger] s[j])
}

/// Whether `s` is an absolute reference (it names a scheme).
pub fn is_absolute(s: &str) -> (r: bool)
    ensures
        r == absolute(s@),
{
    let n = s.unicode_len();
    if n == 0 {
        return false;
    }
    let first = s.get_char(0);
    if !(('a' <= first && first <= 'z') || ('A' <= first && first <= 'Z')) {
        return false;
    }
    let mut j: usize = 1;
    while j < n
        invariant
            n == s@.len(),
            1 <= j <= n,
            ascii_alpha(s@[0]),
            forall|k: int| 0 < k < j ==> scheme_char(#[trigger] s@[k]),
        decreases n - j,
    {
        let c = s.get_char(j);
        if c == ':' {
            return true;
        }
        if !(('a' <= c && c <= 'z') || ('A' <= c && c <= 'Z') || ('0' <= c && c <= '9') || c == '+'
            || c == '-' || c == '.') {
            assert forall|i: int|
                0 < i < s@.len() && #[trigger] s@[i] == ':' && ascii_alpha(s@[0]) implies !(
            forall|k: int| 0 < k < i ==> scheme_char(#[trigger] s@[k])) by {
                if i > j {
                    assert(!scheme_char(s@[j as int]));
                } else {
                    assert(scheme_char(s@[i]));
                }
            }
            return false;
        }
        j = j + 1;
    }
    assert forall|i: int|
        0 < i < s@.len() && #[trigger] s@[i] == ':' && ascii_alpha(s@[0]) implies !(forall|k: int|
        0 < k < i ==> scheme_char(#[trigger] s@[k])) by {
        assert(scheme_char(s@[i]));
    }
    false
}

/// An attribute that refers to another resource.
pub open spec fn reference_attr(a: AttrView) -> bool {
    a.name == "href"@ || a.name == "src"@
}

/// Value of attribute `a` after resolution against `base`: a relative
/// `href` or `src` becomes the joined absolute URL; everything else, and a
/// reference that does not resolve, stays as it was.
pub open spec fn resolved_value(base: Seq<char>, a: AttrView) -> Seq<char> {
    if reference_attr(a) && !absolute(a.value) {
        match joined_url(base, a.value) {
            Some(u) => u,
            None => a.value,
        }
    } else {
        a.value
    }
}

/// Resolves the `href` and `src` values of `attrs` against `base`.
pub fn resolve_attrs(attrs: &mut Vec<Attr>, base: &str)
    ensures
        final(attrs)@.len() == old(attrs)@.len(),
        forall|i: int|
            0 <= i < old(attrs)@.len() ==> {
                &&& (#[trigger] final(attrs)@[i])@.name == old(attrs)@[i]@.name
                &&& final(attrs)@[i]@.value == resolved_value(base@, old(attrs)@[i]@)
            },
{
    let ghost start = attrs@;
    let mut i: usize = 0;
    while i < attrs.len()
        invariant
            attrs@.len() == start.len(),
            i <= start.len(),
            forall|k: int| 0 <= k < start.len() ==> (#[trigger] attrs@[k])@.name == start[k]@.name,
            forall|k: int|
                0 <= k < i ==> (#[trigger] attrs@[k])@.value == resolved_value(base@, start[k]@),
            forall|k: int| i <= k < start.len() ==> (#[trigger] attrs@[k])@.value == start[k]@.value,
        decreases start.len() - i,
    {
        let is_ref = str_eq(attrs[i].name.as_str(), "href") || str_eq(attrs[i].name.as_str(), "src");
        if is_ref && !is_absolute(attrs[i].value.as_str()) {
            match join_url(base, attrs[i].value.as_str()) {
                Some(u) => {
                    attrs[i].value = u;
                },
                None => {},
            }
        }
        i = i + 1;
    }
}

/// The document with the references of every element under `top`
/// resolved against `base`.
pub open spec fn links_resolved(nodes: Seq<NodeView>, top: int, base: Seq<char>) -> Seq<NodeView> {
    Seq::new(
        nodes.len(),
        |i: int|
            if preorder(nodes, top).contains(i as usize) {
                NodeView {
                    attrs: nodes[i].attrs.map_values(
                        |a: AttrView| AttrView { name: a.name, value: resolved_value(base, a) },
                    ),
                    ..nodes[i]
                }
            } else {
                nodes[i]
            },
    )
}

/// Picks the useless children of the nodes under `top`.
pub open spec fn prune_drop(nodes: Seq<NodeView>, top: int) -> spec_fn(int, usize) -> bool {
    |p: int, c: usize| preorder(nodes, top).contains(p as usize) && useless(nodes, c as int)
}

/// The document with the useless children of every node under `top`
/// taken out.
pub open spec fn subtree_pruned(nodes: Seq<NodeView>, top: int) -> Seq<NodeView> {
    Seq::new(
        nodes.len(),
        |i: int|
            NodeView {
                children: filtered(i, nodes[i].children, prune_drop(nodes, top)),
                ..nodes[i]
            },
    )
}

/// Marks, for each node of the arena, whether it lies under `top`.
pub fn subtree_marks(dom: &Dom, top: usize) -> (r: Vec<bool>)
    requires
        dom.wf(),
        top < dom@.len(),
    ensures
        r@.len() == dom@.len(),
        forall|i: int| 0 <= i < dom@.len() ==> #[trigger] r@[i] == preorder(dom@, top as int).contains(i as usize),
{
    let mut order: Vec<usize> = Vec::new();
    collect_preorder(dom, top, &mut order);
    assert(order@ =~= preorder(dom@, top as int));
    let len = dom.nodes.len();
    proof {
        lemma_preorder_in_range(dom@, top as int);
    }
    let mut marks: Vec<bool> = vec![false; len];
    let mut j: usize = 0;
    while j < order.len()
        invariant
            len == dom@.len(),
            marks@.len() == len,
            j <= order@.len(),
            forall|k: int| 0 <= k < order@.len() ==> #[trigger] order@[k] < len,
            forall|i: int| 0 <= i < len ==> #[trigger] marks@[i] == order@.take(j as int).contains(i as usize),
        decreases order@.len() - j,
    {
        let m = order[j];
        assert(order@.take(j + 1) =~= order@.take(j as int).push(m));
        let ghost before = marks@;
        marks.set(m, true);
        proof {
            let t = order@.take(j as int);
            assert forall|i: int| 0 <= i < len implies #[trigger] marks@[i] == t.push(m).contains(
                i as usize,
            ) by {
                if i == m as int {
                    assert(t.push(m)[t.len() as int] == m);
                } else {
                    assert(marks@[i] == before[i]);
                    if t.contains(i as usize) {
                        let w = choose|w: int| 0 <= w < t.len() && t[w] == i as usize;
                        assert(t.push(m)[w] == i as usize);
                    }
                    if t.push(m).contains(i as usize) {
                        let w = choose|w: int| 0 <= w < t.len() + 1 && t.push(m)[w] == i as usize;
                        assert(w < t.len());
                        assert(t[w] == i as usize);
                    }
                }
            }
        }
        j = j + 1;
    }
    assert(order@.take(order@.len() as int) =~= order@);
    marks
}

/// Resolves the `href` and `src` attributes of every element under `top`
/// against `base`; nothing else changes.
pub fn resolve_links(dom: &mut Dom, top: usize, base: &str)
    requires
        old(dom).wf(),
        top < old(dom)@.len(),
    ensures
        final(dom).wf(),
        final(dom)@ == links_resolved(old(dom)@, top as int, base@),
{
    let ghost start = dom@;
    let marks = subtree_marks(dom, top);
    let len = dom.nodes.len();
    let mut i: usize = 0;
    while i < len
        invariant
            len == start.len(),
            dom@.len() == len,
            marks@.len() == len,
            i <= len,
            forall|m: int| 0 <= m < len ==> #[trigger] marks@[m] == preorder(start, top as int).contains(m as usize),
            forall|m: int|
                0 <= m < len ==> {
                    &&& (#[trigger] dom@[m]).kind == start[m].kind
                    &&& dom@[m].name == start[m].name
                    &&& dom@[m].text == start[m].text
                    &&& dom@[m].children == start[m].children
                    &&& dom@[m].attrs.len() == start[m].attrs.len()
                },
            forall|m: int, k: int|
                0 <= m < len && 0 <= k < start[m].attrs.len() ==> {
                    &&& (#[trigger] dom@[m].attrs[k]).name == start[m].attrs[k].name
                    &&& dom@[m].attrs[k].value == if m < i && marks@[m] {
                        resolved_value(base@, start[m].attrs[k])
                    } else {
                        start[m].attrs[k].value
                    }
                },
        decreases len - i,
    {
        let ghost prev = dom@;
        if marks[i] {
            let ghost before = dom.nodes@[i as int];
            assert(prev[i as int] == before@);
            resolve_attrs(&mut dom.nodes[i].attrs, base);
            assert(dom@ =~= prev.update(i as int, dom.nodes@[i as int]@));
            let ghost after = dom.nodes@[i as int];
            assert(attrs_view(after.attrs@).len() == prev[i as int].attrs.len());
            assert forall|k: int| 0 <= k < start[i as int].attrs.len() implies {
                &&& (#[trigger] dom@[i as int].attrs[k]).name == start[i as int].attrs[k].name
                &&& dom@[i as int].attrs[k].value == resolved_value(base@, start[i as int].attrs[k])
            } by {
                assert(dom@[i as int].attrs[k] == after.attrs@[k]@);
                assert(prev[i as int].attrs[k] == before.attrs@[k]@);
            }
        }
        i = i + 1;
    }
    proof {
        let target = links_resolved(start, top as int, base@);
        assert forall|m: int| 0 <= m < len implies (#[trigger] dom@[m]) == target[m] by {
            assert(dom@[m].kind == start[m].kind);
            if marks@[m] {
                assert forall|k: int| 0 <= k < start[m].attrs.len() implies (#[trigger] dom@[
                    m
                ].attrs[k]) == target[m].attrs[k] by {
                    assert(dom@[m].attrs[k].name == start[m].attrs[k].name);
                }
                assert(dom@[m].attrs =~= target[m].attrs);
            } else {
                assert forall|k: int| 0 <= k < start[m].attrs.len() implies (#[trigger] dom@[
                    m
                ].attrs[k]) == target[m].attrs[k] by {
                    assert(dom@[m].attrs[k].name == start[m].attrs[k].name);
                }
                assert(dom@[m].attrs =~= target[m].attrs);
            }
        }
        assert(dom@ =~= target);
        let none = |p: int, c: usize| false;
        assert forall|m: int| 0 <= m < len implies #[trigger] dom@[m].children == filtered(
            m,
            start[m].children,
            none,
        ) by {
            lemma_filtered_none(m, start[m].children);
        }
        lemma_pruned_wf(start, dom@, none);
    }
}


/// A child that cleaning drops: content-free markup, an element with
/// neither text nor an image, or a link-heavy element whose class or id
/// reads as boilerplate.
#[verifier::opaque]
pub open spec fn useless(nodes: Seq<NodeView>, c: int) -> bool {
    junk(nodes, c) || (0 <= c < nodes.len() && nodes[c].kind == NodeKind::Element && ((text_len(
        nodes,
        c,
    ) == 0 && !is_tag(nodes, c, "img"@) && !is_tag(nodes, c, "br"@)) || (class_weight(
        nodes[c].attrs,
    ) < 0 && 2 * link_len(nodes, c) > text_len(nodes, c))))
}

pub fn is_useless(dom: &Dom, c: usize) -> (r: bool)
    requires
        dom.wf(),
    ensures
        r == useless(dom@, c as int),
{
    reveal(useless);
    if is_junk(dom, c) {
        return true;
    }
    if c >= dom.nodes.len() || dom.nodes[c].kind != NodeKind::Element {
        return false;
    }
    let t = text_length(dom, c);
    if t == 0 && !has_tag(dom, c, "img") && !has_tag(dom, c, "br") {
        return true;
    }
    let l = link_length(dom, c);
    proof {
        lemma_link_le_text(dom@, c as int);
    }
    get_class_weight(&dom.nodes[c].attrs) < 0 && l > t - l
}

/// Drops every useless child of the nodes under `top`; the rest of the
/// document is left as it was.
pub fn prune_subtree(dom: &mut Dom, top: usize)
    requires
        old(dom).wf(),
        top < old(dom)@.len(),
    ensures
        final(dom).wf(),
        final(dom)@ == subtree_pruned(old(dom)@, top as int),
{
    let ghost start = dom@;
    let ghost drop = prune_drop(start, top as int);
    let marks = subtree_marks(dom, top);
    let len = dom.nodes.len();
    let mut flags: Vec<bool> = Vec::new();
    let mut c: usize = 0;
    while c < len
        invariant
            dom@ == start,
            dom.wf(),
            len == start.len(),
            c <= len,
            flags@.len() == c,
            forall|m: int| 0 <= m < c ==> #[trigger] flags@[m] == useless(start, m),
        decreases len - c,
    {
        flags.push(is_useless(dom, c));
        c = c + 1;
    }
    let mut n: usize = 0;
    while n < len
        invariant
            len == start.len(),
            dom@.len() == len,
            marks@.len() == len,
            flags@.len() == len,
            forall|m: int| 0 <= m < len ==> #[trigger] flags@[m] == useless(start, m),
            n <= len,
            wf_nodes(start),
            forall|m: int| 0 <= m < len ==> #[trigger] marks@[m] == preorder(start, top as int).contains(m as usize),
            drop == prune_drop(start, top as int),
            forall|i: int|
                0 <= i < len ==> {
                    &&& #[trigger] dom@[i].kind == start[i].kind
                    &&& dom@[i].name == start[i].name
                    &&& dom@[i].attrs == start[i].attrs
                    &&& dom@[i].text == start[i].text
                },
            forall|i: int|
                0 <= i < n ==> #[trigger] dom@[i].children == filtered(
                    i,
                    start[i].children,
                    drop,
                ),
            forall|i: int| n <= i < len ==> #[trigger] dom@[i].children == start[i].children,
        decreases len - n,
    {
        assert(dom@[n as int] == dom.nodes@[n as int]@);
        assert(dom@[n as int].children == start[n as int].children);
        let count = dom.nodes[n].children.len();
        let mut kept: Vec<usize> = Vec::new();
        let mut k: usize = 0;
        let keep_all = !marks[n];
        while k < count
            invariant
                len == start.len(),
                dom@.len() == len,
                n < len,
                wf_nodes(start),
                flags@.len() == len,
                forall|m: int| 0 <= m < len ==> #[trigger] flags@[m] == useless(start, m),
                count == start[n as int].children.len(),
                dom@[n as int].children == start[n as int].children,
                keep_all == !preorder(start, top as int).contains(n as usize),
                drop == prune_drop(start, top as int),
                k <= count,
                kept@ == filtered(n as int, start[n as int].children.take(k as int), drop),
            decreases count - k,
        {
            let c = dom.nodes[n].children[k];
            assert(n < c < len);
            assert(start[n as int].children.take(k + 1).drop_last() =~= start[n as int].children.take(k as int));
            if keep_all || !flags[c] {
                kept.push(c);
            } else {
                assert(kept@ + Seq::<usize>::empty() =~= kept@);
            }
            k = k + 1;
        }
        assert(start[n as int].children.take(count as int) =~= start[n as int].children);
        let ghost prev = dom@;
        let ghost before = dom.nodes@[n as int];
        assert(prev[n as int] == before@);
        dom.nodes[n].children = kept;
        assert(dom@ =~= prev.update(n as int, dom.nodes@[n as int]@));
        assert(dom.nodes@[n as int].attrs@ == before.attrs@);
        assert(dom@[n as int].attrs == prev[n as int].attrs);
        assert(dom.nodes@[n as int].name@ == before.name@);
        assert(dom.nodes@[n as int].text@ == before.text@);
        assert forall|i: int| 0 <= i < len implies {
            &&& #[trigger] dom@[i].kind == start[i].kind
            &&& dom@[i].name == start[i].name
            &&& dom@[i].attrs == start[i].attrs
            &&& dom@[i].text == start[i].text
        } by {
            assert(prev[i].kind == start[i].kind);
            if i != n {
                assert(dom@[i] == prev[i]);
            }
        }
        n = n + 1;
    }
    proof {
        lemma_pruned_wf(start, dom@, drop);
        assert forall|i: int| 0 <= i < start.len() implies (#[trigger] dom@[i]) == subtree_pruned(
            start,
            top as int,
        )[i] by {
            assert(dom@[i].kind == start[i].kind);
            assert(dom@[i].children == filtered(i, start[i].children, drop));
            let t = subtree_pruned(start, top as int)[i];
            assert(t.children == filtered(i, start[i].children, drop));
            assert(t.kind == dom@[i].kind && t.name == dom@[i].name && t.attrs == dom@[i].attrs
                && t.text == dom@[i].text);
        }
        assert(dom@ =~= subtree_pruned(start, top as int));
    }
}

} // verus!
