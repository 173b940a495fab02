use crate::dom::{
    collect_preorder, lemma_link_le_text, lemma_preorder_in_range, link_len, link_length, preorder,
    text_length,
    children_text_len, has_tag, is_tag, lemma_children_text_len_mono, str_eq, text_len, Attr, Dom,
    wf_nodes, attrs_view, AttrView, NodeView, NodeKind,
};
use vstd::arithmetic::div_mod::{
    lemma_div_by_multiple, lemma_div_is_ordered, lemma_div_is_ordered_by_denominator,
    lemma_div_pos_is_pos,
};
use vstd::prelude::*;

verus! {

/// Points added per positive keyword match, subtracted per negative one.
pub const KEYWORD_BONUS: i64 = 25;

/// Upper bound of the text-length term of a base score.
pub const LENGTH_CAP: usize = 3;

/// Characters of text per point of the text-length term.
pub const CHARS_PER_POINT: usize = 100;

/// Number of occurrences of `c` in `s`.
pub open spec fn count_char(s: Seq<char>, c: char) -> nat
    decreases s.len(),
{
    if s.len() == 0 {
        0
    } else {
        count_char(s.drop_last(), c) + if s.last() == c { 1nat } else { 0nat }
    }
}

pub proof fn lemma_count_le_len(s: Seq<char>, c: char)
    ensures
        count_char(s, c) <= s.len(),
    decreases s.len(),
{
    if s.len() > 0 {
        lemma_count_le_len(s.drop_last(), c);
    }
}

/// Number of commas in `s`.
pub fn count_commas(s: &str) -> (r: usize)
    ensures
        r == count_char(s@, ','),
{
    let n = s.unicode_len();
    let mut i: usize = 0;
    let mut r: usize = 0;
    while i < n
        invariant
            n == s@.len(),
            i <= n,
            r == count_char(s@.subrange(0, i as int), ','),
        decreases n - i,
    {
        assert(s@.subrange(0, i + 1).drop_last() == s@.subrange(0, i as int));
        proof {
            lemma_count_le_len(s@.subrange(0, i + 1), ',');
        }
        if s.get_char(i) == ',' {
            r = r + 1;
        }
        i = i + 1;
    }
    assert(s@.subrange(0, n as int) == s@);
    r
}

/// `s` holds `w` as a contiguous part.
pub open spec fn contains_word(s: Seq<char>, w: Seq<char>) -> bool {
    exists|i: int| 0 <= i && i + w.len() <= s.len() && #[trigger] s.subrange(i, i + w.len()) == w
}

pub fn has_word(s: &str, w: &str) -> (r: bool)
    ensures
        r == contains_word(s@, w@),
{
    let n = s.unicode_len();
    let k = w.unicode_len();
    if k > n {
        return false;
    }
    if k == 0 {
        assert(s@.subrange(0int, 0int + w@.len()) =~= w@);
        return true;
    }
    let mut i: usize = 0;
    while i <= n - k
        invariant
            n == s@.len(),
            k == w@.len(),
            0 < k <= n,
            i <= n - k + 1,
            forall|j: int| 0 <= j < i ==> #[trigger] s@.subrange(j, j + k) != w@,
        decreases n - i + 1,
    {
        if str_eq(s.substring_char(i, i + k), w) {
            return true;
        }
        i = i + 1;
    }
    false
}

/// Class or id words that suggest the body of an article.
pub open spec fn positive(v: Seq<char>) -> bool {
    contains_word(v, "article"@) || contains_word(v, "body"@) || contains_word(v, "content"@)
        || contains_word(v, "main"@)
}

/// Class or id words that suggest navigation, comments or advertising.
pub open spec fn negative(v: Seq<char>) -> bool {
    contains_word(v, "sidebar"@) || contains_word(v, "comment"@) || contains_word(v, "footer"@)
        || contains_word(v, "nav"@) || contains_word(v, "sponsor"@) || contains_word(v, "banner"@)
}

pub fn is_positive(v: &str) -> (r: bool)
    ensures
        r == positive(v@),
{
    has_word(v, "article") || has_word(v, "body") || has_word(v, "content") || has_word(v, "main")
}

pub fn is_negative(v: &str) -> (r: bool)
    ensures
        r == negative(v@),
{
    has_word(v, "sidebar") || has_word(v, "comment") || has_word(v, "footer") || has_word(v, "nav")
        || has_word(v, "sponsor") || has_word(v, "banner")
}

/// Value of the first attribute named `name` among `attrs[i..]`.
pub open spec fn attr_from(attrs: Seq<AttrView>, name: Seq<char>, i: int) -> Option<Seq<char>>
    decreases attrs.len() - i,
{
    if 0 <= i < attrs.len() {
        if attrs[i].name == name {
            Some(attrs[i].value)
        } else {
            attr_from(attrs, name, i + 1)
        }
    } else {
        None
    }
}

/// Value of the first attribute named `name`.
pub open spec fn attr_value(attrs: Seq<AttrView>, name: Seq<char>) -> Option<Seq<char>> {
    attr_from(attrs, name, 0)
}

pub fn get_attr<'a>(attrs: &'a Vec<Attr>, name: &str) -> (r: Option<&'a String>)
    ensures
        r matches Some(v) ==> attr_value(attrs_view(attrs@), name@) == Some(v@),
        r is None ==> attr_value(attrs_view(attrs@), name@) is None,
{
    let mut i: usize = attrs.len();
    let mut found: Option<&'a String> = None;
    while i > 0
        invariant
            i <= attrs@.len(),
            found matches Some(v) ==> attr_from(attrs_view(attrs@), name@, i as int) == Some(v@),
            found is None ==> attr_from(attrs_view(attrs@), name@, i as int) is None,
        decreases i,
    {
        i = i - 1;
        if str_eq(attrs[i].name.as_str(), name) {
            found = Some(&attrs[i].value);
        }
    }
    found
}

/// Keyword weight of one attribute value.
pub open spec fn value_weight(v: Option<Seq<char>>) -> int {
    match v {
        Some(s) => (if positive(s) { KEYWORD_BONUS as int } else { 0 }) - (if negative(s) {
            KEYWORD_BONUS as int
        } else {
            0
        }),
        None => 0,
    }
}

/// Keyword weight of an element from its `class` and `id` values.
pub open spec fn class_weight(attrs: Seq<AttrView>) -> int {
    value_weight(attr_value(attrs, "class"@)) + value_weight(attr_value(attrs, "id"@))
}

fn value_weight_of(v: Option<&String>) -> (r: i64)
    ensures
        r == value_weight(match v {
            Some(s) => Some(s@),
            None => None,
        }),
{
    match v {
        Some(s) => {
            let mut w: i64 = 0;
            if is_positive(s.as_str()) {
                w = w + KEYWORD_BONUS;
            }
            if is_negative(s.as_str()) {
                w = w - KEYWORD_BONUS;
            }
            w
        },
        None => 0,
    }
}

pub fn get_class_weight(attrs: &Vec<Attr>) -> (r: i64)
    ensures
        r == class_weight(attrs_view(attrs@)),
{
    value_weight_of(get_attr(attrs, "class")) + value_weight_of(get_attr(attrs, "id"))
}


/// Length of the text held directly by the first `k` children of `n`.
pub open spec fn direct_len(nodes: Seq<NodeView>, n: int, k: int) -> nat
    decreases k,
{
    if 0 <= n < nodes.len() && 0 < k <= nodes[n].children.len() {
        let c = nodes[n].children[k - 1] as int;
        direct_len(nodes, n, k - 1) + if 0 <= c < nodes.len() && nodes[c].kind
            == NodeKind::Text {
            nodes[c].text.len()
        } else {
            0
        }
    } else {
        0
    }
}

/// Commas in the text held directly by the first `k` children of `n`.
pub open spec fn direct_commas(nodes: Seq<NodeView>, n: int, k: int) -> nat
    decreases k,
{
    if 0 <= n < nodes.len() && 0 < k <= nodes[n].children.len() {
        let c = nodes[n].children[k - 1] as int;
        direct_commas(nodes, n, k - 1) + if 0 <= c < nodes.len() && nodes[c].kind
            == NodeKind::Text {
            count_char(nodes[c].text, ',')
        } else {
            0
        }
    } else {
        0
    }
}

pub open spec fn own_len(nodes: Seq<NodeView>, n: int) -> nat {
    direct_len(nodes, n, nodes[n].children.len() as int)
}

pub open spec fn own_commas(nodes: Seq<NodeView>, n: int) -> nat {
    direct_commas(nodes, n, nodes[n].children.len() as int)
}

pub proof fn lemma_direct_bounds(nodes: Seq<NodeView>, n: int, k: int)
    requires
        wf_nodes(nodes),
        0 <= n < nodes.len(),
        0 <= k <= nodes[n].children.len(),
    ensures
        direct_commas(nodes, n, k) <= direct_len(nodes, n, k),
        direct_len(nodes, n, k) <= children_text_len(nodes, n, k),
    decreases k,
{
    if k > 0 {
        lemma_direct_bounds(nodes, n, k - 1);
        let c = nodes[n].children[k - 1] as int;
        assert(n < c < nodes.len());
        if nodes[c].kind == NodeKind::Text {
            lemma_count_le_len(nodes[c].text, ',');
            assert(text_len(nodes, c) == nodes[c].text.len());
        }
    }
}

/// Tags whose elements may hold article prose.
pub open spec fn scoring_tag(nodes: Seq<NodeView>, n: int) -> bool {
    is_tag(nodes, n, "p"@) || is_tag(nodes, n, "td"@) || is_tag(nodes, n, "pre"@) || is_tag(
        nodes,
        n,
        "div"@,
    )
}

/// An element that is scored: a prose tag with text of its own.
pub open spec fn eligible(nodes: Seq<NodeView>, n: int) -> bool {
    scoring_tag(nodes, n) && own_len(nodes, n) > 0
}

/// Base content score of an element, in points.
pub open spec fn base_score(nodes: Seq<NodeView>, n: int) -> int {
    let len_term = own_len(nodes, n) / (CHARS_PER_POINT as nat);
    1 + own_commas(nodes, n) + (if len_term < LENGTH_CAP { len_term as int } else {
        LENGTH_CAP as int
    }) + class_weight(nodes[n].attrs)
}

/// What element `n` hands to its ancestors: its base score when eligible.
pub open spec fn contribution(nodes: Seq<NodeView>, n: int) -> int {
    if eligible(nodes, n) {
        base_score(nodes, n)
    } else {
        0
    }
}

/// `x` held within the range of an `i64`.
pub open spec fn clamp(x: int) -> int {
    if x > i64::MAX {
        i64::MAX as int
    } else if x < i64::MIN {
        i64::MIN as int
    } else {
        x
    }
}

/// Score that node `c` receives from its first `k` children, one point per
/// point of theirs. Scores are counted in half points: a grandparent gets
/// half of what a parent gets.
pub open spec fn from_grandchildren(nodes: Seq<NodeView>, c: int, k: int) -> int
    decreases k,
{
    if 0 <= c < nodes.len() && 0 < k <= nodes[c].children.len() {
        clamp(
            from_grandchildren(nodes, c, k - 1) + contribution(
                nodes,
                nodes[c].children[k - 1] as int,
            ),
        )
    } else {
        0
    }
}

/// Candidate score of node `m`, in half points, from its first `k`
/// children: each child adds twice its contribution, and each grandchild
/// once.
pub open spec fn score_from(nodes: Seq<NodeView>, m: int, k: int) -> int
    decreases k,
{
    if 0 <= m < nodes.len() && 0 < k <= nodes[m].children.len() {
        let c = nodes[m].children[k - 1] as int;
        clamp(
            score_from(nodes, m, k - 1) + 2 * contribution(nodes, c) + from_grandchildren(
                nodes,
                c,
                nodes[c].children.len() as int,
            ),
        )
    } else {
        0
    }
}

/// Candidate score of node `m` in half points; 0 for a node that no
/// eligible child or grandchild reaches.
pub open spec fn candidate_score(nodes: Seq<NodeView>, m: int) -> int {
    score_from(nodes, m, nodes[m].children.len() as int)
}

/// Some of the first `k` children of `c` is eligible.
pub open spec fn eligible_child(nodes: Seq<NodeView>, c: int, k: int) -> bool
    decreases k,
{
    if 0 <= c < nodes.len() && 0 < k <= nodes[c].children.len() {
        eligible_child(nodes, c, k - 1) || eligible(nodes, nodes[c].children[k - 1] as int)
    } else {
        false
    }
}

/// Some of the first `k` children of `m`, or some of their children, is
/// eligible: only then does scoring give `m` a candidate entry.
pub open spec fn reached_from(nodes: Seq<NodeView>, m: int, k: int) -> bool
    decreases k,
{
    if 0 <= m < nodes.len() && 0 < k <= nodes[m].children.len() {
        let c = nodes[m].children[k - 1] as int;
        reached_from(nodes, m, k - 1) || eligible(nodes, c) || eligible_child(
            nodes,
            c,
            nodes[c].children.len() as int,
        )
    } else {
        false
    }
}

/// Node `m` is a candidate: an eligible child or grandchild reaches it.
pub open spec fn is_candidate(nodes: Seq<NodeView>, m: int) -> bool {
    reached_from(nodes, m, nodes[m].children.len() as int)
}

proof fn lemma_unreached_grandchildren(nodes: Seq<NodeView>, c: int, k: int)
    requires
        !eligible_child(nodes, c, k),
    ensures
        from_grandchildren(nodes, c, k) == 0,
    decreases k,
{
    if 0 <= c < nodes.len() && 0 < k <= nodes[c].children.len() {
        lemma_unreached_grandchildren(nodes, c, k - 1);
    }
}

/// A node that no eligible child or grandchild reaches scores 0.
pub proof fn lemma_non_candidate_scores_zero(nodes: Seq<NodeView>, m: int, k: int)
    requires
        !reached_from(nodes, m, k),
    ensures
        score_from(nodes, m, k) == 0,
    decreases k,
{
    if 0 <= m < nodes.len() && 0 < k <= nodes[m].children.len() {
        lemma_non_candidate_scores_zero(nodes, m, k - 1);
        let c = nodes[m].children[k - 1] as int;
        lemma_unreached_grandchildren(nodes, c, nodes[c].children.len() as int);
    }
}

/// Length and comma count of the text that `n` holds directly.
pub fn own_text_stats(dom: &Dom, n: usize) -> (r: (usize, usize))
    requires
        dom.wf(),
        n < dom@.len(),
    ensures
        r.0 == own_len(dom@, n as int),
        r.1 == own_commas(dom@, n as int),
        r.1 <= r.0,
{
    let node = &dom.nodes[n];
    let mut len: usize = 0;
    let mut commas: usize = 0;
    let mut k: usize = 0;
    while k < node.children.len()
        invariant
            dom.wf(),
            n < dom@.len(),
            node@ == dom@[n as int],
            k <= node.children.len(),
            len == direct_len(dom@, n as int, k as int),
            commas == direct_commas(dom@, n as int, k as int),
        decreases node.children.len() - k,
    {
        let c = node.children[k];
        proof {
            assert(node.kind != NodeKind::Text);
            lemma_direct_bounds(dom@, n as int, k + 1);
            lemma_children_text_len_mono(dom@, n as int, k + 1, node.children.len() as int);
            assert(text_len(dom@, n as int) <= usize::MAX);
        }
        if dom.nodes[c].kind == NodeKind::Text {
            len = len + dom.nodes[c].text.unicode_len();
            commas = commas + count_commas(dom.nodes[c].text.as_str());
        }
        k = k + 1;
    }
    proof {
        lemma_direct_bounds(dom@, n as int, k as int);
    }
    (len, commas)
}

pub fn is_scoring_tag(dom: &Dom, n: usize) -> (r: bool)
    requires
        n < dom@.len(),
    ensures
        r == scoring_tag(dom@, n as int),
{
    has_tag(dom, n, "p") || has_tag(dom, n, "td") || has_tag(dom, n, "pre") || has_tag(
        dom,
        n,
        "div",
    )
}

/// Contribution of element `n`, and whether it is eligible.
fn contribution_of_with_flag(dom: &Dom, n: usize) -> (r: (i128, bool))
    requires
        dom.wf(),
        n < dom@.len(),
    ensures
        r.0 == contribution(dom@, n as int),
        r.1 == eligible(dom@, n as int),
{
    if !is_scoring_tag(dom, n) {
        return (0, false);
    }
    let (len, _commas) = own_text_stats(dom, n);
    (contribution_of(dom, n), len > 0)
}

/// Contribution of element `n`: its base score when it is eligible, else 0.
pub fn contribution_of(dom: &Dom, n: usize) -> (r: i128)
    requires
        dom.wf(),
        n < dom@.len(),
    ensures
        r == contribution(dom@, n as int),
        -100 <= r <= usize::MAX + 100,
{
    if !is_scoring_tag(dom, n) {
        return 0;
    }
    let (len, commas) = own_text_stats(dom, n);
    if len == 0 {
        return 0;
    }
    let mut len_term: usize = len / CHARS_PER_POINT;
    if len_term >= LENGTH_CAP {
        len_term = LENGTH_CAP;
    }
    let w = get_class_weight(&dom.nodes[n].attrs);
    1 + commas as i128 + len_term as i128 + w as i128
}

pub fn clamp_i64(x: i128) -> (r: i64)
    ensures
        r == clamp(x as int),
{
    if x > i64::MAX as i128 {
        i64::MAX
    } else if x < i64::MIN as i128 {
        i64::MIN
    } else {
        x as i64
    }
}

/// Score that node `c` receives from its children.
pub fn grandchild_score(dom: &Dom, c: usize) -> (r: i64)
    requires
        dom.wf(),
        c < dom@.len(),
    ensures
        r == from_grandchildren(dom@, c as int, dom@[c as int].children.len() as int),
{
    let node = &dom.nodes[c];
    let mut acc: i64 = 0;
    let mut k: usize = 0;
    while k < node.children.len()
        invariant
            dom.wf(),
            c < dom@.len(),
            node@ == dom@[c as int],
            k <= node.children.len(),
            acc == from_grandchildren(dom@, c as int, k as int),
        decreases node.children.len() - k,
    {
        let g = node.children[k];
        assert(g == dom@[c as int].children[k as int]);
        let part = contribution_of(dom, g);
        acc = clamp_i64(acc as i128 + part);
        k = k + 1;
    }
    acc
}

fn has_eligible_child(dom: &Dom, c: usize) -> (r: bool)
    requires
        dom.wf(),
        c < dom@.len(),
    ensures
        r == eligible_child(dom@, c as int, dom@[c as int].children.len() as int),
{
    let node = &dom.nodes[c];
    let mut k: usize = 0;
    let mut found = false;
    while k < node.children.len()
        invariant
            dom.wf(),
            c < dom@.len(),
            node@ == dom@[c as int],
            k <= node.children@.len(),
            found == eligible_child(dom@, c as int, k as int),
        decreases node.children@.len() - k,
    {
        let g = node.children[k];
        assert(g == dom@[c as int].children[k as int]);
        let part = contribution_of_with_flag(dom, g);
        found = found || part.1;
        k = k + 1;
    }
    found
}

/// Whether node `m` has a candidate entry.
pub fn check_candidate(dom: &Dom, m: usize) -> (r: bool)
    requires
        dom.wf(),
        m < dom@.len(),
    ensures
        r == is_candidate(dom@, m as int),
{
    let node = &dom.nodes[m];
    let mut k: usize = 0;
    let mut found = false;
    while k < node.children.len()
        invariant
            dom.wf(),
            m < dom@.len(),
            node@ == dom@[m as int],
            k <= node.children@.len(),
            found == reached_from(dom@, m as int, k as int),
        decreases node.children@.len() - k,
    {
        let c = node.children[k];
        assert(c == dom@[m as int].children[k as int]);
        let own = contribution_of_with_flag(dom, c).1;
        let below = has_eligible_child(dom, c);
        found = found || own || below;
        k = k + 1;
    }
    found
}

/// Candidate score of node `m`, in half points.
pub fn score_candidate(dom: &Dom, m: usize) -> (r: i64)
    requires
        dom.wf(),
        m < dom@.len(),
    ensures
        r == candidate_score(dom@, m as int),
{
    let node = &dom.nodes[m];
    let mut acc: i64 = 0;
    let mut k: usize = 0;
    while k < node.children.len()
        invariant
            dom.wf(),
            m < dom@.len(),
            node@ == dom@[m as int],
            k <= node.children.len(),
            acc == score_from(dom@, m as int, k as int),
        decreases node.children.len() - k,
    {
        let c = node.children[k];
        assert(c == dom@[m as int].children[k as int]);
        let part = contribution_of(dom, c);
        let grand = grandchild_score(dom, c);
        acc = clamp_i64(acc as i128 + 2 * part + grand as i128);
        k = k + 1;
    }
    acc
}


/// `s` scaled by the share of text outside links, `(t - l) / t`, rounded
/// towards zero; `s` itself where there is no text.
pub open spec fn adjusted(s: int, t: int, l: int) -> int {
    if t == 0 {
        s
    } else if s >= 0 {
        (s * (t - l)) / t
    } else {
        -(((-s) * (t - l)) / t)
    }
}

proof fn lemma_scaled_le(s: int, keep: int, t: int)
    requires
        0 <= s,
        0 <= keep <= t,
        0 < t,
    ensures
        0 <= s * keep <= s * t,
        0 <= (s * keep) / t <= s,
{
    assert(0 <= s * keep <= s * t) by (nonlinear_arith)
        requires
            0 <= s,
            0 <= keep <= t,
    ;
    lemma_div_is_ordered(s * keep, s * t, t);
    lemma_div_by_multiple(s, t);
    lemma_div_pos_is_pos(s * keep, t);
}

/// Score `s` after the link-density penalty, for a node with `t`
/// characters of text of which `l` lie inside links.
pub fn adjusted_score(s: i64, t: usize, l: usize) -> (r: i64)
    requires
        l <= t,
    ensures
        r == adjusted(s as int, t as int, l as int),
{
    if t == 0 {
        return s;
    }
    let keep = (t - l) as i128;
    let total = t as i128;
    if s >= 0 {
        proof {
            lemma_scaled_le(s as int, keep as int, total as int);
            assert(s * (t as int) <= i64::MAX * usize::MAX) by (nonlinear_arith)
                requires
                    0 <= s <= i64::MAX,
                    0 <= t <= usize::MAX,
            ;
        }
        let p = s as i128 * keep;
        (p / total) as i64
    } else {
        let neg = -(s as i128);
        proof {
            lemma_scaled_le(neg as int, keep as int, total as int);
            assert(neg * (t as int) <= (i64::MAX + 1) * usize::MAX) by (nonlinear_arith)
                requires
                    0 <= neg <= i64::MAX + 1,
                    0 <= t <= usize::MAX,
            ;
        }
        let p = neg * keep;
        (-(p / total)) as i64
    }
}

/// Text added inside links never raises a non-negative adjusted score: a
/// node that gains `x` characters of link text scores at most what it
/// scored before.
pub proof fn lemma_link_text_never_raises(s: int, t: int, l: int, x: int)
    requires
        0 <= s,
        0 <= l <= t,
        0 <= x,
    ensures
        adjusted(s, t + x, l + x) <= adjusted(s, t, l),
{
    if t + x > 0 {
        if t == 0 {
            assert(s * 0 == 0);
            assert(0int / (t + x) == 0);
        } else {
            assert(0 <= s * (t - l)) by (nonlinear_arith)
                requires
                    0 <= s,
                    0 <= l <= t,
            ;
            assert(t + x - (l + x) == t - l);
            lemma_div_is_ordered_by_denominator(s * (t - l), t, t + x);
        }
    }
}

/// Link-density-adjusted candidate score of node `m`.
pub open spec fn adjusted_candidate(nodes: Seq<NodeView>, m: int) -> int {
    adjusted(candidate_score(nodes, m), text_len(nodes, m) as int, link_len(nodes, m) as int)
}

/// Adjusted candidate score of each node of `nodes`.
pub open spec fn adjusted_of(nodes: Seq<NodeView>) -> spec_fn(usize) -> int {
    |m: usize| adjusted_candidate(nodes, m as int)
}

/// The winner after visiting `order[..i]` under `score`: the root with
/// score 0 to begin with, replaced by each node whose score is strictly
/// higher.
pub open spec fn best(order: Seq<usize>, score: spec_fn(usize) -> int, i: int) -> (usize, int)
    decreases i,
{
    if 0 < i <= order.len() {
        let prev = best(order, score, i - 1);
        let a = score(order[i - 1]);
        if a > prev.1 {
            (order[i - 1], a)
        } else {
            prev
        }
    } else {
        (0, 0)
    }
}

/// The top candidate of the document, visiting nodes in path order.
pub open spec fn top_candidate(nodes: Seq<NodeView>) -> (usize, int) {
    best(preorder(nodes, 0), adjusted_of(nodes), preorder(nodes, 0).len() as int)
}

/// The score of the winner is never below 0, and the winner is the root or
/// a visited node whose score it is.
pub proof fn lemma_best_shape(order: Seq<usize>, score: spec_fn(usize) -> int, i: int)
    requires
        0 <= i <= order.len(),
    ensures
        best(order, score, i).1 >= 0,
        best(order, score, i).1 > 0 ==> exists|j: int|
            0 <= j < i && #[trigger] order[j] == best(order, score, i).0 && score(order[j])
                == best(order, score, i).1,
    decreases i,
{
    if i > 0 {
        lemma_best_shape(order, score, i - 1);
        let prev = best(order, score, i - 1);
        if score(order[i - 1]) <= prev.1 && prev.1 > 0 {
            let j = choose|j: int|
                0 <= j < i - 1 && #[trigger] order[j] == prev.0 && score(order[j]) == prev.1;
            assert(order[j] == best(order, score, i).0);
        }
    }
}

/// Induction step of the law below: up to each prefix, either both runs agree
/// or the run under `g` trails one whose leader is not the final winner.
proof fn lemma_best_stable_when_rivals_drop(
    order: Seq<usize>,
    f: spec_fn(usize) -> int,
    g: spec_fn(usize) -> int,
    i: int,
)
    requires
        0 <= i <= order.len(),
        forall|j: int| 0 <= j < order.len() ==> g(#[trigger] order[j]) <= f(order[j]),
        best(order, f, order.len() as int).1 > 0,
        g(best(order, f, order.len() as int).0) == f(best(order, f, order.len() as int).0),
    ensures
        best(order, g, i) == best(order, f, i) || (best(order, f, i).0 != best(
            order,
            f,
            order.len() as int,
        ).0 && best(order, g, i).1 <= best(order, f, i).1),
    decreases i,
{
    if i > 0 {
        lemma_best_stable_when_rivals_drop(order, f, g, i - 1);
        lemma_best_shape(order, f, i - 1);
        lemma_best_shape(order, g, i - 1);
        lemma_best_monotone(order, f, i - 1, order.len() as int);
        lemma_best_monotone(order, f, i, order.len() as int);
    }
}

/// The winner stays the winner when every rival scores no more than before
/// and its own score is unchanged.
pub proof fn lemma_winner_kept_when_rivals_drop(
    order: Seq<usize>,
    f: spec_fn(usize) -> int,
    g: spec_fn(usize) -> int,
)
    requires
        forall|j: int| 0 <= j < order.len() ==> g(#[trigger] order[j]) <= f(order[j]),
        best(order, f, order.len() as int).1 > 0,
        g(best(order, f, order.len() as int).0) == f(best(order, f, order.len() as int).0),
    ensures
        best(order, g, order.len() as int) == best(order, f, order.len() as int),
{
    lemma_best_stable_when_rivals_drop(order, f, g, order.len() as int);
}

/// The best score only grows as more nodes are visited.
pub proof fn lemma_best_monotone(order: Seq<usize>, f: spec_fn(usize) -> int, i: int, k: int)
    requires
        0 <= i <= k <= order.len(),
    ensures
        best(order, f, i).1 <= best(order, f, k).1,
        best(order, f, i).1 == best(order, f, k).1 ==> best(order, f, i) == best(order, f, k),
    decreases k - i,
{
    if i < k {
        lemma_best_monotone(order, f, i, k - 1);
    }
}

/// Inserting a node that scores at most 0 anywhere in the visiting order
/// leaves the winner and its score as they were.
pub proof fn lemma_best_ignores_nonpositive(
    order: Seq<usize>,
    f: spec_fn(usize) -> int,
    at: int,
    extra: usize,
    i: int,
)
    requires
        0 <= at <= order.len(),
        f(extra) <= 0,
        at <= i <= order.len(),
    ensures
        best(order.insert(at, extra), f, i + 1) == best(order, f, i),
    decreases i - at,
{
    let longer = order.insert(at, extra);
    if i == at {
        lemma_best_shape(order, f, at);
        assert forall|j: int| 0 <= j < at implies longer[j] == order[j] by {}
        lemma_best_prefix(order, longer, f, at);
    } else {
        lemma_best_ignores_nonpositive(order, f, at, extra, i - 1);
        assert(longer[i] == order[i - 1]);
    }
}

/// `best` looks only at the visited prefix.
pub proof fn lemma_best_prefix(a: Seq<usize>, b: Seq<usize>, f: spec_fn(usize) -> int, i: int)
    requires
        0 <= i <= a.len(),
        i <= b.len(),
        forall|j: int| 0 <= j < i ==> a[j] == b[j],
    ensures
        best(a, f, i) == best(b, f, i),
    decreases i,
{
    if i > 0 {
        lemma_best_prefix(a, b, f, i - 1);
    }
}

/// A node under consideration as the main-content root, with its candidate
/// score in half points.
#[derive(Clone, Copy, Debug, PartialEq, Eq, Structural)]
pub struct Candidate {
    pub node: usize,
    pub score: i64,
}

/// The candidates among `order[..i]`, in that order.
pub open spec fn candidate_nodes(nodes: Seq<NodeView>, order: Seq<usize>, i: int) -> Seq<usize>
    decreases i,
{
    if 0 < i <= order.len() {
        let prev = candidate_nodes(nodes, order, i - 1);
        if is_candidate(nodes, order[i - 1] as int) {
            prev.push(order[i - 1])
        } else {
            prev
        }
    } else {
        Seq::empty()
    }
}

/// The entry of candidate `m`.
pub open spec fn entry(nodes: Seq<NodeView>) -> spec_fn(usize) -> Candidate {
    |m: usize| Candidate { node: m, score: candidate_score(nodes, m as int) as i64 }
}

/// The candidate set of the document: one entry per candidate, in path
/// order, keyed by node.
pub open spec fn candidate_set(nodes: Seq<NodeView>) -> Seq<Candidate> {
    let order = preorder(nodes, 0);
    candidate_nodes(nodes, order, order.len() as int).map_values(entry(nodes))
}

proof fn lemma_candidate_nodes_in_range(nodes: Seq<NodeView>, order: Seq<usize>, i: int)
    requires
        0 <= i <= order.len(),
        forall|j: int| 0 <= j < order.len() ==> #[trigger] order[j] < nodes.len(),
    ensures
        forall|j: int|
            0 <= j < candidate_nodes(nodes, order, i).len() ==> #[trigger] candidate_nodes(
                nodes,
                order,
                i,
            )[j] < nodes.len(),
    decreases i,
{
    if i > 0 {
        lemma_candidate_nodes_in_range(nodes, order, i - 1);
        let prev = candidate_nodes(nodes, order, i - 1);
        assert(order[i - 1] < nodes.len());
        if is_candidate(nodes, order[i - 1] as int) {
            assert forall|j: int| 0 <= j < prev.len() + 1 implies #[trigger] prev.push(
                order[i - 1],
            )[j] < nodes.len() by {
                if j < prev.len() {
                    assert(prev.push(order[i - 1])[j] == prev[j]);
                }
            }
        }
    }
}

/// Visiting only the candidates picks the same winner as visiting every
/// node: a node that is not a candidate scores 0 and never wins.
pub proof fn lemma_candidates_suffice(nodes: Seq<NodeView>, order: Seq<usize>, i: int)
    requires
        0 <= i <= order.len(),
    ensures
        best(order, adjusted_of(nodes), i) == best(
            candidate_nodes(nodes, order, i),
            adjusted_of(nodes),
            candidate_nodes(nodes, order, i).len() as int,
        ),
    decreases i,
{
    if i > 0 {
        lemma_candidates_suffice(nodes, order, i - 1);
        let f = adjusted_of(nodes);
        let prev = candidate_nodes(nodes, order, i - 1);
        let x = order[i - 1];
        if is_candidate(nodes, x as int) {
            let cur = prev.push(x);
            lemma_best_prefix(prev, cur, f, prev.len() as int);
        } else {
            lemma_non_candidate_scores_zero(nodes, x as int, nodes[x as int].children.len() as int);
            lemma_best_shape(order, f, i - 1);
            let t = text_len(nodes, x as int) as int;
            let l = link_len(nodes, x as int) as int;
            if t != 0 {
                assert(0 * (t - l) == 0);
                assert(0int / t == 0);
            }
            assert(f(x) == 0);
        }
    }
}

/// The candidate set of the document, as `candidate_set` states it.
pub fn find_candidates(dom: &Dom) -> (r: Vec<Candidate>)
    requires
        dom.wf(),
    ensures
        r@ == candidate_set(dom@),
{
    let mut order: Vec<usize> = Vec::new();
    collect_preorder(dom, 0, &mut order);
    assert(order@ =~= preorder(dom@, 0));
    let _count = dom.nodes.len();
    proof {
        lemma_preorder_in_range(dom@, 0);
    }
    let mut out: Vec<Candidate> = Vec::new();
    let mut i: usize = 0;
    while i < order.len()
        invariant
            dom.wf(),
            order@ == preorder(dom@, 0),
            forall|j: int| 0 <= j < order@.len() ==> #[trigger] order@[j] < dom@.len(),
            i <= order@.len(),
            out@ == candidate_nodes(dom@, order@, i as int).map_values(entry(dom@)),
        decreases order@.len() - i,
    {
        let m = order[i];
        assert(m < dom@.len());
        let ghost prev = candidate_nodes(dom@, order@, i as int);
        if check_candidate(dom, m) {
            let s = score_candidate(dom, m);
            out.push(Candidate { node: m, score: s });
            assert(prev.push(m).map_values(entry(dom@)) =~= prev.map_values(entry(dom@)).push(
                entry(dom@)(m),
            ));
        }
        i = i + 1;
    }
    out
}

/// Picks the node with the highest link-density-adjusted candidate score,
/// going through the candidate set in path order; the first wins a tie, and
/// the root wins when no score is above 0. Returns the node and its
/// adjusted score.
pub fn select_top(dom: &Dom) -> (r: (usize, i64))
    requires
        dom.wf(),
    ensures
        r.0 == top_candidate(dom@).0,
        r.1 == top_candidate(dom@).1,
        r.0 < dom@.len(),
{
    let cands = find_candidates(dom);
    let ghost order = preorder(dom@, 0);
    let ghost picked = candidate_nodes(dom@, order, order.len() as int);
    let _count = dom.nodes.len();
    proof {
        lemma_preorder_in_range(dom@, 0);
        lemma_candidate_nodes_in_range(dom@, order, order.len() as int);
        lemma_candidates_suffice(dom@, order, order.len() as int);
    }
    let mut top: usize = 0;
    let mut top_score: i64 = 0;
    let mut i: usize = 0;
    while i < cands.len()
        invariant
            dom.wf(),
            cands@ == picked.map_values(entry(dom@)),
            forall|j: int| 0 <= j < picked.len() ==> #[trigger] picked[j] < dom@.len(),
            i <= cands@.len(),
            top < dom@.len(),
            (top, top_score as int) == best(picked, adjusted_of(dom@), i as int),
        decreases cands@.len() - i,
    {
        let c = cands[i];
        assert(c.node == picked[i as int]);
        let m = c.node;
        let t = text_length(dom, m);
        let l = link_length(dom, m);
        proof {
            lemma_link_le_text(dom@, m as int);
            assert(candidate_score(dom@, m as int) as i64 as int == candidate_score(dom@, m as int));
        }
        let a = adjusted_score(c.score, t, l);
        if a > top_score {
            top = m;
            top_score = a;
        }
        i = i + 1;
    }
    (top, top_score)
}

} // verus!
