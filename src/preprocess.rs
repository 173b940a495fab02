use crate::dom::{
    collect_preorder, has_tag, is_tag, lemma_preorder_in_range, lemma_pruned_wf, append_text,
    filtered, preorder, text_of, wf_nodes, Dom, Node, NodeKind, NodeView,
};
use crate::scorer::{attr_value, contains_word, get_attr, has_word};
use vstd::prelude::*;

verus! {

/// An element hidden by a `hidden` attribute or an inline `display: none`.
pub open spec fn hidden(node: NodeView) -> bool {
    node.kind == NodeKind::Element && (attr_value(node.attrs, "hidden"@) is Some || match attr_value(
        node.attrs,
        "style"@,
    ) {
        Some(v) => contains_word(v, "display:none"@) || contains_word(v, "display: none"@),
        None => false,
    })
}

/// A node that holds no content: a comment, a script, a style sheet, a
/// `noscript` fallback or a hidden element.
pub open spec fn junk(nodes: Seq<NodeView>, c: int) -> bool {
    0 <= c < nodes.len() && (nodes[c].kind == NodeKind::Comment || is_tag(nodes, c, "script"@)
        || is_tag(nodes, c, "style"@) || is_tag(nodes, c, "noscript"@) || hidden(nodes[c]))
}

/// Picks the junk children of any node.
pub open spec fn junk_drop(nodes: Seq<NodeView>) -> spec_fn(int, usize) -> bool {
    |p: int, c: usize| junk(nodes, c as int)
}

/// The document with every junk child taken out of every child list.
pub open spec fn preprocessed(nodes: Seq<NodeView>) -> Seq<NodeView> {
    Seq::new(
        nodes.len(),
        |i: int|
            NodeView {
                children: filtered(i, nodes[i].children, junk_drop(nodes)),
                ..nodes[i]
            },
    )
}

pub fn is_hidden(node: &Node) -> (r: bool)
    ensures
        r == hidden(node@),
{
    if node.kind != NodeKind::Element {
        return false;
    }
    if get_attr(&node.attrs, "hidden").is_some() {
        return true;
    }
    match get_attr(&node.attrs, "style") {
        Some(v) => has_word(v.as_str(), "display:none") || has_word(v.as_str(), "display: none"),
        None => false,
    }
}

pub fn is_junk(dom: &Dom, c: usize) -> (r: bool)
    ensures
        r == junk(dom@, c as int),
{
    if c >= dom.nodes.len() {
        return false;
    }
    dom.nodes[c].kind == NodeKind::Comment || has_tag(dom, c, "script") || has_tag(dom, c, "style")
        || has_tag(dom, c, "noscript") || is_hidden(&dom.nodes[c])
}

/// Removes every comment, script, style, `noscript` and hidden element from
/// the child lists of the document.
pub fn preprocess(dom: &mut Dom)
    requires
        old(dom).wf(),
    ensures
        final(dom).wf(),
        final(dom)@ == preprocessed(old(dom)@),
{
    let ghost start = dom@;
    let ghost drop = junk_drop(start);
    let len = dom.nodes.len();
    let mut n: usize = 0;
    while n < len
        invariant
            len == start.len(),
            dom@.len() == len,
            n <= len,
            wf_nodes(start),
            drop == junk_drop(start),
            forall|i: int|
                0 <= i < len ==> {
                    &&& #[trigger] dom@[i].kind == start[i].kind
                    &&& dom@[i].name == start[i].name
                    &&& dom@[i].attrs == start[i].attrs
                    &&& dom@[i].text == start[i].text
                },
            forall|i: int|
                0 <= i < n ==> #[trigger] dom@[i].children == filtered(
                    i,
                    start[i].children,
                    drop,
                ),
            forall|i: int| n <= i < len ==> #[trigger] dom@[i].children == start[i].children,
        decreases len - n,
    {
        assert(dom@[n as int] == dom.nodes@[n as int]@);
        assert(dom@[n as int].children == start[n as int].children);
        let count = dom.nodes[n].children.len();
        let mut kept: Vec<usize> = Vec::new();
        let mut k: usize = 0;
        while k < count
            invariant
                len == start.len(),
                dom@.len() == len,
                n < len,
                count == start[n as int].children.len(),
                dom@[n as int].children == start[n as int].children,
                forall|i: int|
                    0 <= i < len ==> {
                        &&& #[trigger] dom@[i].kind == start[i].kind
                        &&& dom@[i].name == start[i].name
                        &&& dom@[i].attrs == start[i].attrs
                        &&& dom@[i].text == start[i].text
                    },
                drop == junk_drop(start),
                k <= count,
                kept@ == filtered(n as int, start[n as int].children.take(k as int), drop),
            decreases count - k,
        {
            let c = dom.nodes[n].children[k];
            let j = is_junk(dom, c);
            assert(j == junk(start, c as int));
            assert(start[n as int].children.take(k + 1).drop_last() =~= start[n as int].children.take(k as int));
            if !j {
                kept.push(c);
            } else {
                assert(kept@ + Seq::<usize>::empty() =~= kept@);
            }
            k = k + 1;
        }
        assert(start[n as int].children.take(count as int) =~= start[n as int].children);
        let ghost prev = dom@;
        let ghost before = dom.nodes@[n as int];
        assert(prev[n as int] == before@);
        dom.nodes[n].children = kept;
        assert(dom@ =~= prev.update(n as int, dom.nodes@[n as int]@));
        assert(dom.nodes@[n as int].attrs@ == before.attrs@);
        assert(dom@[n as int].attrs == prev[n as int].attrs);
        assert(dom.nodes@[n as int].name@ == before.name@);
        assert(dom.nodes@[n as int].text@ == before.text@);
        assert forall|i: int| 0 <= i < len implies {
            &&& #[trigger] dom@[i].kind == start[i].kind
            &&& dom@[i].name == start[i].name
            &&& dom@[i].attrs == start[i].attrs
            &&& dom@[i].text == start[i].text
        } by {
            assert(prev[i].kind == start[i].kind);
            if i != n {
                assert(dom@[i] == prev[i]);
            }
        }
        n = n + 1;
    }
    proof {
        lemma_pruned_wf(start, dom@, drop);
        assert forall|i: int| 0 <= i < start.len() implies (#[trigger] dom@[i]) == preprocessed(
            start,
        )[i] by {
            assert(dom@[i].kind == start[i].kind);
            assert(dom@[i].children == filtered(i, start[i].children, drop));
            let t = preprocessed(start)[i];
            assert(t.children == filtered(i, start[i].children, drop));
            assert(t.kind == dom@[i].kind && t.name == dom@[i].name && t.attrs == dom@[i].attrs
                && t.text == dom@[i].text);
        }
        assert(dom@ =~= preprocessed(start));
    }
}


/// The first node of `order[i..]` that is an element named `tag`.
pub open spec fn first_tag(nodes: Seq<NodeView>, order: Seq<usize>, tag: Seq<char>, i: int) -> Option<
    usize,
>
    decreases order.len() - i,
{
    if 0 <= i < order.len() {
        if is_tag(nodes, order[i] as int, tag) {
            Some(order[i])
        } else {
            first_tag(nodes, order, tag, i + 1)
        }
    } else {
        None
    }
}

/// Title of the document: the text of its first `title` element when that
/// is not empty, else the text of its first `h1`, else nothing.
pub open spec fn title_of(nodes: Seq<NodeView>) -> Seq<char> {
    let order = preorder(nodes, 0);
    let from_title = match first_tag(nodes, order, "title"@, 0) {
        Some(t) => text_of(nodes, t as int),
        None => Seq::empty(),
    };
    if from_title.len() > 0 {
        from_title
    } else {
        match first_tag(nodes, order, "h1"@, 0) {
            Some(h) => text_of(nodes, h as int),
            None => Seq::empty(),
        }
    }
}

fn find_first(dom: &Dom, order: &Vec<usize>, tag: &str) -> (r: Option<usize>)
    requires
        forall|j: int| 0 <= j < order@.len() ==> #[trigger] order@[j] < dom@.len(),
    ensures
        r == first_tag(dom@, order@, tag@, 0),
        r matches Some(t) ==> t < dom@.len(),
{
    let mut j: usize = 0;
    while j < order.len()
        invariant
            forall|j: int| 0 <= j < order@.len() ==> #[trigger] order@[j] < dom@.len(),
            j <= order@.len(),
            first_tag(dom@, order@, tag@, 0) == first_tag(dom@, order@, tag@, j as int),
        decreases order@.len() - j,
    {
        if has_tag(dom, order[j], tag) {
            return Some(order[j]);
        }
        j = j + 1;
    }
    None
}

/// The title of the document, as `title_of` states it.
pub fn find_title(dom: &Dom) -> (r: String)
    requires
        dom.wf(),
    ensures
        r@ == title_of(dom@),
{
    let mut order: Vec<usize> = Vec::new();
    collect_preorder(dom, 0, &mut order);
    assert(order@ =~= preorder(dom@, 0));
    let _count = dom.nodes.len();
    proof {
        lemma_preorder_in_range(dom@, 0);
    }
    let mut title = String::new();
    match find_first(dom, &order, "title") {
        Some(t) => append_text(dom, t, &mut title),
        None => {},
    }
    assert(Seq::<char>::empty() + text_of(dom@, 0) =~= text_of(dom@, 0));
    if title.unicode_len() > 0 {
        proof {
            let t = first_tag(dom@, order@, "title"@, 0);
            if let Some(t) = t {
                assert(Seq::<char>::empty() + text_of(dom@, t as int) =~= text_of(dom@, t as int));
            }
        }
        return title;
    }
    let mut heading = String::new();
    match find_first(dom, &order, "h1") {
        Some(h) => {
            append_text(dom, h, &mut heading);
            assert(Seq::<char>::empty() + text_of(dom@, h as int) =~= text_of(dom@, h as int));
        },
        None => {},
    }
    proof {
        let t = first_tag(dom@, order@, "title"@, 0);
        if let Some(t) = t {
            assert(Seq::<char>::empty() + text_of(dom@, t as int) =~= text_of(dom@, t as int));
        }
    }
    heading
}

} // verus!
