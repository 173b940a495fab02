use vstd::prelude::*;

verus! {

/// What a node of the document is.
#[derive(Clone, Copy, Debug, PartialEq, Eq, Structural)]
pub enum NodeKind {
    Document,
    Element,
    Text,
    Comment,
}

/// One attribute of an element.
#[derive(Clone, Debug)]
pub struct Attr {
    pub name: String,
    pub value: String,
}

/// A node of the arena. `name` is the tag name of an element, `text` the
/// contents of a text or comment node; `children` are arena indices.
#[derive(Clone, Debug)]
pub struct Node {
    pub kind: NodeKind,
    pub name: String,
    pub attrs: Vec<Attr>,
    pub text: String,
    pub children: Vec<usize>,
}

/// What an attribute holds.
pub struct AttrView {
    pub name: Seq<char>,
    pub value: Seq<char>,
}

/// What a node holds.
pub struct NodeView {
    pub kind: NodeKind,
    pub name: Seq<char>,
    pub attrs: Seq<AttrView>,
    pub text: Seq<char>,
    pub children: Seq<usize>,
}

impl View for Attr {
    type V = AttrView;

    open spec fn view(&self) -> AttrView {
        AttrView { name: self.name@, value: self.value@ }
    }
}

/// The views of a list of attributes.
pub open spec fn attrs_view(attrs: Seq<Attr>) -> Seq<AttrView> {
    attrs.map_values(|a: Attr| a@)
}

impl View for Node {
    type V = NodeView;

    open spec fn view(&self) -> NodeView {
        NodeView {
            kind: self.kind,
            name: self.name@,
            attrs: attrs_view(self.attrs@),
            text: self.text@,
            children: self.children@,
        }
    }
}

/// A parsed document held as an arena of nodes; node 0 is the root.
#[derive(Clone, Debug)]
pub struct Dom {
    pub nodes: Vec<Node>,
}

/// Every child index points past its parent and into the arena, so that any
/// walk from a node downwards ends.
pub open spec fn links_ok(nodes: Seq<NodeView>) -> bool {
    forall|n: int, j: int|
        #![trigger nodes[n].children[j]]
        0 <= n < nodes.len() && 0 <= j < nodes[n].children.len() ==> n < nodes[n].children[j]
            < nodes.len()
}

/// Number of characters in the text nodes under node `n` (itself included).
pub open spec fn text_len(nodes: Seq<NodeView>, n: int) -> nat
    decreases nodes.len() - n, 1nat, 0nat,
{
    if 0 <= n < nodes.len() {
        if nodes[n].kind == NodeKind::Text {
            nodes[n].text.len()
        } else {
            children_text_len(nodes, n, nodes[n].children.len() as int)
        }
    } else {
        0
    }
}

/// Text length under the first `k` children of node `n`.
pub open spec fn children_text_len(nodes: Seq<NodeView>, n: int, k: int) -> nat
    decreases nodes.len() - n, 0nat, k,
{
    if 0 <= n < nodes.len() && 0 < k <= nodes[n].children.len() {
        let c = nodes[n].children[k - 1] as int;
        children_text_len(nodes, n, k - 1) + if n < c < nodes.len() { text_len(nodes, c) } else { 0 }
    } else {
        0
    }
}

/// A well-formed document: a root, sound links, text and comment nodes
/// without children, and text lengths that fit in a `usize`.
pub open spec fn wf_nodes(nodes: Seq<NodeView>) -> bool {
    &&& nodes.len() > 0
    &&& links_ok(nodes)
    &&& forall|n: int|
        0 <= n < nodes.len() && (#[trigger] nodes[n].kind == NodeKind::Text || nodes[n].kind
            == NodeKind::Comment) ==> nodes[n].children.len() == 0
    &&& forall|n: int| 0 <= n < nodes.len() ==> #[trigger] text_len(nodes, n) <= usize::MAX
}

impl Dom {
    pub open spec fn wf(&self) -> bool {
        wf_nodes(self@)
    }

    pub open spec fn view(&self) -> Seq<NodeView> {
        self.nodes@.map_values(|n: Node| n@)
    }
}

pub proof fn lemma_children_text_len_mono(nodes: Seq<NodeView>, n: int, k: int, m: int)
    requires
        0 <= k <= m <= nodes[n].children.len(),
        0 <= n < nodes.len(),
    ensures
        children_text_len(nodes, n, k) <= children_text_len(nodes, n, m),
    decreases m - k,
{
    if k < m {
        lemma_children_text_len_mono(nodes, n, k, m - 1);
    }
}

/// Total length of the text under node `n`.
pub fn text_length(dom: &Dom, n: usize) -> (r: usize)
    requires
        dom.wf(),
        n < dom@.len(),
    ensures
        r == text_len(dom@, n as int),
    decreases dom@.len() - n,
{
    let node = &dom.nodes[n];
    if node.kind == NodeKind::Text {
        return node.text.unicode_len();
    }
    let mut total: usize = 0;
    let mut k: usize = 0;
    while k < node.children.len()
        invariant
            dom.wf(),
            n < dom@.len(),
            node@ == dom@[n as int],
            node.kind != NodeKind::Text,
            k <= node.children.len(),
            total == children_text_len(dom@, n as int, k as int),
        decreases node.children.len() - k,
    {
        let c = node.children[k];
        assert(c == dom@[n as int].children[k as int]);
        assert(n < c < dom@.len());
        let l = text_length(dom, c);
        proof {
            lemma_children_text_len_mono(dom@, n as int, k + 1, node.children.len() as int);
            assert(text_len(dom@, n as int) <= usize::MAX);
        }
        total = total + l;
        k = k + 1;
    }
    total
}


/// Character-wise equality of two strings.
pub fn str_eq(a: &str, b: &str) -> (r: bool)
    ensures
        r == (a@ == b@),
{
    let n = a.unicode_len();
    if n != b.unicode_len() {
        return false;
    }
    let mut i: usize = 0;
    while i < n
        invariant
            n == a@.len(),
            n == b@.len(),
            i <= n,
            a@.subrange(0, i as int) == b@.subrange(0, i as int),
        decreases n - i,
    {
        if a.get_char(i) != b.get_char(i) {
            return false;
        }
        assert(a@.subrange(0, i + 1) == a@.subrange(0, i as int).push(a@[i as int]));
        assert(b@.subrange(0, i + 1) == b@.subrange(0, i as int).push(b@[i as int]));
        i = i + 1;
    }
    assert(a@ == a@.subrange(0, n as int));
    assert(b@ == b@.subrange(0, n as int));
    true
}

/// Node `n` is an element with tag name `tag`.
pub open spec fn is_tag(nodes: Seq<NodeView>, n: int, tag: Seq<char>) -> bool {
    0 <= n < nodes.len() && nodes[n].kind == NodeKind::Element && nodes[n].name == tag
}

/// Whether node `n` of `dom` is an element named `tag`.
pub fn has_tag(dom: &Dom, n: usize, tag: &str) -> (r: bool)
    requires
        n < dom@.len(),
    ensures
        r == is_tag(dom@, n as int, tag@),
{
    let node = &dom.nodes[n];
    node.kind == NodeKind::Element && str_eq(node.name.as_str(), tag)
}

/// Number of characters of text that lie inside anchor elements under `n`.
pub open spec fn link_len(nodes: Seq<NodeView>, n: int) -> nat
    decreases nodes.len() - n, 1nat, 0nat,
{
    if 0 <= n < nodes.len() {
        if is_tag(nodes, n, seq!['a']) {
            text_len(nodes, n)
        } else if nodes[n].kind == NodeKind::Text {
            0
        } else {
            children_link_len(nodes, n, nodes[n].children.len() as int)
        }
    } else {
        0
    }
}

/// Link text length under the first `k` children of node `n`.
pub open spec fn children_link_len(nodes: Seq<NodeView>, n: int, k: int) -> nat
    decreases nodes.len() - n, 0nat, k,
{
    if 0 <= n < nodes.len() && 0 < k <= nodes[n].children.len() {
        let c = nodes[n].children[k - 1] as int;
        children_link_len(nodes, n, k - 1) + if n < c < nodes.len() {
            link_len(nodes, c)
        } else {
            0
        }
    } else {
        0
    }
}

pub proof fn lemma_link_le_text(nodes: Seq<NodeView>, n: int)
    ensures
        link_len(nodes, n) <= text_len(nodes, n),
    decreases nodes.len() - n, 1nat, 0nat,
{
    if 0 <= n < nodes.len() && !is_tag(nodes, n, seq!['a']) && nodes[n].kind != NodeKind::Text {
        lemma_children_link_le_text(nodes, n, nodes[n].children.len() as int);
    }
}

pub proof fn lemma_children_link_le_text(nodes: Seq<NodeView>, n: int, k: int)
    ensures
        children_link_len(nodes, n, k) <= children_text_len(nodes, n, k),
    decreases nodes.len() - n, 0nat, k,
{
    if 0 <= n < nodes.len() && 0 < k <= nodes[n].children.len() {
        lemma_children_link_le_text(nodes, n, k - 1);
        let c = nodes[n].children[k - 1] as int;
        if n < c < nodes.len() {
            lemma_link_le_text(nodes, c);
        }
    }
}

/// Length of the text inside anchors under node `n`.
pub fn link_length(dom: &Dom, n: usize) -> (r: usize)
    requires
        dom.wf(),
        n < dom@.len(),
    ensures
        r == link_len(dom@, n as int),
    decreases dom@.len() - n,
{
    proof {
        reveal_strlit("a");
        assert("a"@ =~= seq!['a']);
    }
    if has_tag(dom, n, "a") {
        return text_length(dom, n);
    }
    let node = &dom.nodes[n];
    if node.kind == NodeKind::Text {
        return 0;
    }
    let mut total: usize = 0;
    let mut k: usize = 0;
    while k < node.children.len()
        invariant
            dom.wf(),
            n < dom@.len(),
            node@ == dom@[n as int],
            node.kind != NodeKind::Text,
            !is_tag(dom@, n as int, seq!['a']),
            k <= node.children.len(),
            total == children_link_len(dom@, n as int, k as int),
        decreases node.children.len() - k,
    {
        let c = node.children[k];
        assert(c == dom@[n as int].children[k as int]);
        assert(n < c < dom@.len());
        let l = link_length(dom, c);
        proof {
            lemma_children_link_le_text(dom@, n as int, k + 1);
            lemma_children_text_len_mono(dom@, n as int, k + 1, node.children.len() as int);
            assert(text_len(dom@, n as int) <= usize::MAX);
        }
        total = total + l;
        k = k + 1;
    }
    total
}


/// Tags after whose contents plain text starts a new line.
pub open spec fn is_block(name: Seq<char>) -> bool {
    name == "p"@ || name == "div"@ || name == "br"@ || name == "li"@ || name == "tr"@ || name
        == "pre"@ || name == "h2"@ || name == "h3"@ || name == "table"@
}

pub fn is_block_tag(name: &str) -> (r: bool)
    ensures
        r == is_block(name@),
{
    str_eq(name, "p") || str_eq(name, "div") || str_eq(name, "br") || str_eq(name, "li")
        || str_eq(name, "tr") || str_eq(name, "pre") || str_eq(name, "h2")
        || str_eq(name, "h3") || str_eq(name, "table")
}

/// Plain text of node `n`: the contents of its text nodes in document
/// order, with a line break after each block element. Tags, attributes and
/// comments contribute nothing.
pub open spec fn text_of(nodes: Seq<NodeView>, n: int) -> Seq<char>
    decreases nodes.len() - n, 1nat, 0nat,
{
    if 0 <= n < nodes.len() {
        let node = nodes[n];
        if node.kind == NodeKind::Text {
            node.text
        } else if node.kind == NodeKind::Comment {
            Seq::empty()
        } else {
            let inner = children_text_of(nodes, n, node.children.len() as int);
            if node.kind == NodeKind::Element && is_block(node.name) {
                inner + "\n"@
            } else {
                inner
            }
        }
    } else {
        Seq::empty()
    }
}

/// Plain text of the first `k` children of node `n`.
pub open spec fn children_text_of(nodes: Seq<NodeView>, n: int, k: int) -> Seq<char>
    decreases nodes.len() - n, 0nat, k,
{
    if 0 <= n < nodes.len() && 0 < k <= nodes[n].children.len() {
        let c = nodes[n].children[k - 1] as int;
        children_text_of(nodes, n, k - 1) + if n < c < nodes.len() {
            text_of(nodes, c)
        } else {
            Seq::empty()
        }
    } else {
        Seq::empty()
    }
}

/// Appends the plain text of node `n` to `out`.
pub fn append_text(dom: &Dom, n: usize, out: &mut String)
    requires
        dom.wf(),
        n < dom@.len(),
    ensures
        final(out)@ == old(out)@ + text_of(dom@, n as int),
    decreases dom@.len() - n,
{
    let node = &dom.nodes[n];
    if node.kind == NodeKind::Text {
        out.append(node.text.as_str());
        return;
    }
    if node.kind == NodeKind::Comment {
        assert(old(out)@ + Seq::<char>::empty() =~= old(out)@);
        return;
    }
    let ghost start = out@;
    let mut k: usize = 0;
    assert(start + children_text_of(dom@, n as int, 0) =~= start);
    while k < node.children.len()
        invariant
            dom.wf(),
            n < dom@.len(),
            node@ == dom@[n as int],
            k <= node.children.len(),
            out@ == start + children_text_of(dom@, n as int, k as int),
        decreases node.children.len() - k,
    {
        let c = node.children[k];
        assert(c == dom@[n as int].children[k as int]);
        assert(n < c < dom@.len());
        append_text(dom, c, out);
        proof {
            let a = children_text_of(dom@, n as int, k as int);
            assert(start + a + text_of(dom@, c as int) =~= start + (a + text_of(
                dom@,
                c as int,
            )));
        }
        k = k + 1;
    }
    if node.kind == NodeKind::Element && is_block_tag(node.name.as_str()) {
        out.append("\n");
        assert(start + children_text_of(dom@, n as int, k as int) + "\n"@ =~= start + (
        children_text_of(dom@, n as int, k as int) + "\n"@));
    }
}

/// `ch` is a line break or a character of some text node.
pub open spec fn from_text_nodes(nodes: Seq<NodeView>, ch: char) -> bool {
    ch == '\n' || exists|i: int|
        0 <= i < nodes.len() && nodes[i].kind == NodeKind::Text && #[trigger] nodes[i].text.contains(ch)
}

/// Plain text holds no markup: each of its characters is a line break or
/// comes from the contents of a text node, never from a tag, an attribute
/// or a comment.
pub proof fn lemma_text_has_no_markup(nodes: Seq<NodeView>, n: int)
    ensures
        forall|j: int|
            0 <= j < text_of(nodes, n).len() ==> from_text_nodes(nodes, #[trigger] text_of(nodes, n)[j]),
    decreases nodes.len() - n, 1nat, 0nat,
{
    if 0 <= n < nodes.len() {
        let node = nodes[n];
        if node.kind == NodeKind::Text {
            assert forall|j: int| 0 <= j < text_of(nodes, n).len() implies from_text_nodes(
                nodes,
                #[trigger] text_of(nodes, n)[j],
            ) by {
                assert(nodes[n].text[j] == text_of(nodes, n)[j]);
                assert(nodes[n].text.contains(text_of(nodes, n)[j]));
            }
        } else if node.kind != NodeKind::Comment {
            let inner = children_text_of(nodes, n, node.children.len() as int);
            lemma_children_text_has_no_markup(nodes, n, node.children.len() as int);
            reveal_strlit("\n");
            assert forall|j: int| 0 <= j < text_of(nodes, n).len() implies from_text_nodes(
                nodes,
                #[trigger] text_of(nodes, n)[j],
            ) by {
                if j < inner.len() {
                    assert(text_of(nodes, n)[j] == inner[j]);
                } else {
                    assert(text_of(nodes, n)[j] == "\n"@[j - inner.len()]);
                }
            }
        }
    }
}

proof fn lemma_children_text_has_no_markup(nodes: Seq<NodeView>, n: int, k: int)
    ensures
        forall|j: int|
            0 <= j < children_text_of(nodes, n, k).len() ==> from_text_nodes(
                nodes,
                #[trigger] children_text_of(nodes, n, k)[j],
            ),
    decreases nodes.len() - n, 0nat, k,
{
    if 0 <= n < nodes.len() && 0 < k <= nodes[n].children.len() {
        lemma_children_text_has_no_markup(nodes, n, k - 1);
        let a = children_text_of(nodes, n, k - 1);
        let c = nodes[n].children[k - 1] as int;
        if n < c < nodes.len() {
            lemma_text_has_no_markup(nodes, c);
            let b = text_of(nodes, c);
            assert forall|j: int| 0 <= j < children_text_of(nodes, n, k).len() implies from_text_nodes(
                nodes,
                #[trigger] children_text_of(nodes, n, k)[j],
            ) by {
                if j < a.len() {
                    assert(children_text_of(nodes, n, k)[j] == a[j]);
                } else {
                    assert(children_text_of(nodes, n, k)[j] == b[j - a.len()]);
                }
            }
        } else {
            assert(children_text_of(nodes, n, k) =~= a);
        }
    }
}

/// The nodes under `n` (itself first) in document order, which is the
/// lexicographic order of their child-index paths from `n`.
pub open spec fn preorder(nodes: Seq<NodeView>, n: int) -> Seq<usize>
    decreases nodes.len() - n, 1nat, 0nat,
{
    if 0 <= n < nodes.len() {
        seq![n as usize] + children_preorder(nodes, n, nodes[n].children.len() as int)
    } else {
        Seq::empty()
    }
}

pub open spec fn children_preorder(nodes: Seq<NodeView>, n: int, k: int) -> Seq<usize>
    decreases nodes.len() - n, 0nat, k,
{
    if 0 <= n < nodes.len() && 0 < k <= nodes[n].children.len() {
        let c = nodes[n].children[k - 1] as int;
        children_preorder(nodes, n, k - 1) + if n < c < nodes.len() {
            preorder(nodes, c)
        } else {
            Seq::empty()
        }
    } else {
        Seq::empty()
    }
}

pub proof fn lemma_preorder_in_range(nodes: Seq<NodeView>, n: int)
    requires
        nodes.len() <= usize::MAX,
    ensures
        forall|i: int| 0 <= i < preorder(nodes, n).len() ==> #[trigger] preorder(nodes, n)[i] < nodes.len(),
    decreases nodes.len() - n, 1nat, 0nat,
{
    if 0 <= n < nodes.len() {
        let rest = children_preorder(nodes, n, nodes[n].children.len() as int);
        lemma_children_preorder_in_range(nodes, n, nodes[n].children.len() as int);
        assert forall|i: int| 0 <= i < preorder(nodes, n).len() implies #[trigger] preorder(
            nodes,
            n,
        )[i] < nodes.len() by {
            if i > 0 {
                assert(preorder(nodes, n)[i] == rest[i - 1]);
            }
        }
    }
}

pub proof fn lemma_children_preorder_in_range(nodes: Seq<NodeView>, n: int, k: int)
    requires
        nodes.len() <= usize::MAX,
    ensures
        forall|i: int| 0 <= i < children_preorder(nodes, n, k).len() ==> #[trigger] children_preorder(nodes, n, k)[i] < nodes.len(),
    decreases nodes.len() - n, 0nat, k,
{
    if 0 <= n < nodes.len() && 0 < k <= nodes[n].children.len() {
        lemma_children_preorder_in_range(nodes, n, k - 1);
        let c = nodes[n].children[k - 1] as int;
        let a = children_preorder(nodes, n, k - 1);
        if n < c < nodes.len() {
            lemma_preorder_in_range(nodes, c);
            let b = preorder(nodes, c);
            assert forall|i: int| 0 <= i < children_preorder(nodes, n, k).len() implies
                #[trigger] children_preorder(nodes, n, k)[i] < nodes.len() by {
                if i >= a.len() {
                    assert(children_preorder(nodes, n, k)[i] == b[i - a.len()]);
                } else {
                    assert(children_preorder(nodes, n, k)[i] == a[i]);
                }
            }
        } else {
            assert(children_preorder(nodes, n, k) =~= a);
        }
    }
}

/// Appends the nodes under `n` to `out` in document order.
pub fn collect_preorder(dom: &Dom, n: usize, out: &mut Vec<usize>)
    requires
        dom.wf(),
        n < dom@.len(),
    ensures
        final(out)@ == old(out)@ + preorder(dom@, n as int),
    decreases dom@.len() - n,
{
    let ghost start = out@;
    out.push(n);
    let node = &dom.nodes[n];
    let mut k: usize = 0;
    while k < node.children.len()
        invariant
            dom.wf(),
            n < dom@.len(),
            node@ == dom@[n as int],
            k <= node.children.len(),
            out@ == start + seq![n] + children_preorder(dom@, n as int, k as int),
        decreases node.children.len() - k,
    {
        let c = node.children[k];
        assert(c == dom@[n as int].children[k as int]);
        assert(n < c < dom@.len());
        collect_preorder(dom, c, out);
        proof {
            let a = children_preorder(dom@, n as int, k as int);
            assert(start + seq![n] + a + preorder(dom@, c as int) =~= start + seq![n] + (a
                + preorder(dom@, c as int)));
        }
        k = k + 1;
    }
    assert(start + seq![n] + children_preorder(dom@, n as int, k as int) =~= start + preorder(
        dom@,
        n as int,
    ));
}


/// `cs`, children of node `p`, without those that `drop` picks.
pub open spec fn filtered(p: int, cs: Seq<usize>, drop: spec_fn(int, usize) -> bool) -> Seq<
    usize,
>
    decreases cs.len(),
{
    if cs.len() == 0 {
        Seq::empty()
    } else {
        filtered(p, cs.drop_last(), drop) + if drop(p, cs.last()) {
            Seq::empty()
        } else {
            seq![cs.last()]
        }
    }
}

/// Dropping nothing keeps a child list as it is.
pub proof fn lemma_filtered_none(p: int, cs: Seq<usize>)
    ensures
        filtered(p, cs, |q: int, c: usize| false) == cs,
    decreases cs.len(),
{
    if cs.len() > 0 {
        lemma_filtered_none(p, cs.drop_last());
        assert(cs.drop_last() + seq![cs.last()] =~= cs);
    }
}

/// `new` is `old` with some children dropped from child lists; kinds and
/// texts are kept, names and attributes may differ.
pub open spec fn pruned(old: Seq<NodeView>, new: Seq<NodeView>, drop: spec_fn(int, usize) -> bool) -> bool {
    &&& old.len() == new.len()
    &&& forall|i: int|
        0 <= i < old.len() ==> {
            &&& #[trigger] new[i].kind == old[i].kind
            &&& new[i].text == old[i].text
            &&& new[i].children == filtered(i, old[i].children, drop)
        }
}

/// Text length over the nodes `cs`, children of `n`.
pub open spec fn seq_text(nodes: Seq<NodeView>, n: int, cs: Seq<usize>) -> nat
    decreases cs.len(),
{
    if cs.len() == 0 {
        0
    } else {
        let c = cs.last() as int;
        seq_text(nodes, n, cs.drop_last()) + if n < c < nodes.len() {
            text_len(nodes, c)
        } else {
            0
        }
    }
}

proof fn lemma_children_seq_text(nodes: Seq<NodeView>, n: int, k: int)
    requires
        0 <= n < nodes.len(),
        0 <= k <= nodes[n].children.len(),
    ensures
        children_text_len(nodes, n, k) == seq_text(nodes, n, nodes[n].children.take(k)),
    decreases k,
{
    if k > 0 {
        lemma_children_seq_text(nodes, n, k - 1);
        assert(nodes[n].children.take(k).drop_last() =~= nodes[n].children.take(k - 1));
    }
}

proof fn lemma_filtered_within(p: int, cs: Seq<usize>, drop: spec_fn(int, usize) -> bool, len: int)
    requires
        forall|i: int| 0 <= i < cs.len() ==> p < #[trigger] cs[i] < len,
    ensures
        forall|j: int|
            0 <= j < filtered(p, cs, drop).len() ==> p < #[trigger] filtered(p, cs, drop)[j] < len,
    decreases cs.len(),
{
    if cs.len() > 0 {
        let a = cs.drop_last();
        assert forall|i: int| 0 <= i < a.len() implies p < #[trigger] a[i] < len by {
            assert(a[i] == cs[i]);
        }
        lemma_filtered_within(p, a, drop, len);
        let fa = filtered(p, a, drop);
        let f = filtered(p, cs, drop);
        assert forall|j: int| 0 <= j < f.len() implies p < #[trigger] f[j] < len by {
            if j < fa.len() {
                assert(f[j] == fa[j]);
            } else {
                assert(f[j] == cs.last());
            }
        }
    }
}

proof fn lemma_pruned_text(old: Seq<NodeView>, new: Seq<NodeView>, drop: spec_fn(int, usize) -> bool, n: int)
    requires
        wf_nodes(old),
        pruned(old, new, drop),
    ensures
        text_len(new, n) <= text_len(old, n),
    decreases old.len() - n, 1nat, 0nat,
{
    if 0 <= n < old.len() && old[n].kind != NodeKind::Text {
        assert(new[n].kind == old[n].kind);
        let cs = old[n].children;
        lemma_children_seq_text(old, n, cs.len() as int);
        lemma_children_seq_text(new, n, new[n].children.len() as int);
        assert(cs.take(cs.len() as int) =~= cs);
        assert(new[n].children.take(new[n].children.len() as int) =~= new[n].children);
        assert forall|i: int| 0 <= i < cs.len() implies n < #[trigger] cs[i] < old.len() by {
            assert(n < old[n].children[i] < old.len());
        }
        lemma_pruned_seq_text(old, new, drop, n, cs);
    }
}

proof fn lemma_pruned_seq_text(
    old: Seq<NodeView>,
    new: Seq<NodeView>,
    drop: spec_fn(int, usize) -> bool,
    n: int,
    cs: Seq<usize>,
)
    requires
        wf_nodes(old),
        pruned(old, new, drop),
        0 <= n < old.len(),
        forall|i: int| 0 <= i < cs.len() ==> n < #[trigger] cs[i] < old.len(),
    ensures
        seq_text(new, n, filtered(n, cs, drop)) <= seq_text(old, n, cs),
    decreases old.len() - n, 0nat, cs.len(),
{
    if cs.len() > 0 {
        let a = cs.drop_last();
        assert forall|i: int| 0 <= i < a.len() implies n < #[trigger] a[i] < old.len() by {
            assert(a[i] == cs[i]);
        }
        lemma_pruned_seq_text(old, new, drop, n, a);
        let c = cs.last();
        assert(n < cs[cs.len() - 1] < old.len());
        lemma_pruned_text(old, new, drop, c as int);
        let fa = filtered(n, a, drop);
        if !drop(n, c) {
            assert((fa + seq![c]).drop_last() =~= fa);
        } else {
            assert(fa + Seq::<usize>::empty() =~= fa);
        }
    }
}

/// Dropping children keeps a document well-formed and never adds text.
pub proof fn lemma_pruned_wf(old: Seq<NodeView>, new: Seq<NodeView>, drop: spec_fn(int, usize) -> bool)
    requires
        wf_nodes(old),
        pruned(old, new, drop),
    ensures
        wf_nodes(new),
        forall|n: int| 0 <= n < new.len() ==> #[trigger] text_len(new, n) <= text_len(old, n),
{
    assert forall|n: int| 0 <= n < new.len() implies #[trigger] text_len(new, n) <= text_len(
        old,
        n,
    ) by {
        lemma_pruned_text(old, new, drop, n);
    }
    assert forall|n: int, j: int|
        0 <= n < new.len() && 0 <= j < new[n].children.len() implies n
        < #[trigger] new[n].children[j] < new.len() by {
        let cs = old[n].children;
        assert forall|i: int| 0 <= i < cs.len() implies n < #[trigger] cs[i] < old.len() by {
            assert(n < old[n].children[i] < old.len());
        }
        lemma_filtered_within(n, cs, drop, old.len() as int);
        assert(new[n].kind == old[n].kind);
        assert(new[n].children[j] == filtered(n, cs, drop)[j]);
    }
    assert forall|n: int|
        0 <= n < new.len() && (#[trigger] new[n].kind == NodeKind::Text || new[n].kind
            == NodeKind::Comment) implies new[n].children.len() == 0 by {
        assert(new[n].kind == old[n].kind);
        assert(old[n].children.len() == 0);
    }
}

} // verus!
