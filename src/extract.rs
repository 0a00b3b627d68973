//! Main-text extraction: text of the content elements that no boilerplate
//! element encloses, or, failing that, of the clean body elements.
use vstd::prelude::*;
use crate::dom::{
    build_tree, events_view, nodes_view, tree_of, tree_wf, DomEvent, DomNode, EventView, KindView,
    NodeKind, NodeView,
};
use crate::text::{
    chars_of, collapse, collapse_chars, is_space, join, lemma_trim_visible, string_of, trim, trim_chars,
};
use ego_tree::iter::Edge;
use scraper::{ElementRef, Html, Node, Selector};

verus! {

/// Elements whose text is boilerplate: scripts, styles, navigation, page
/// headers and footers, menus, sidebars, advertisements and frames.
pub const EXCLUDE_SELECTOR: &'static str = "script, style, nav, header, footer, #header, #footer, .header, .footer, .nav, .menu, .sidebar, .advertisement, .ad, iframe, noscript";

/// Elements that hold the main content: articles, posts, paragraphs and headings.
pub const CONTENT_SELECTOR: &'static str = "article, .article, .content, .main, main, .post, .post-content, p, h1, h2, h3, h4, h5, h6";

/// The page body, read when no content element is found.
pub const BODY_SELECTOR: &'static str = "body";

/// The depth-first walk of the tree that the HTML parser builds from `html`,
/// each element marked with whether it matches each of the three selector
/// lists; none where a selector list does not parse.
pub uninterp spec fn page_walk(html: Seq<char>, exclude: Seq<char>, content: Seq<char>, body: Seq<char>) -> Option<Seq<EventView>>;

/// Relies on scraper's `Selector::parse` (fails on a malformed selector list;
/// the three lists above are well-formed),
/// `Html::parse_document` (a tree for any input) and `Selector::matches`, and
/// on ego_tree's `traverse`, which opens and closes each node in document order.
#[verifier::external_body]
fn walk_page(html: &str, exclude: &str, content: &str, body: &str) -> (r: Option<Vec<DomEvent>>)
    ensures
        page_walk(html@, exclude@, content@, body@) == match r {
            Some(v) => Some(events_view(v@)),
            None => None::<Seq<EventView>>,
        },
        exclude@ == EXCLUDE_SELECTOR@ && content@ == CONTENT_SELECTOR@ && body@ == BODY_SELECTOR@
            ==> r is Some,
{
    let (ex, co, bo) = (Selector::parse(exclude).ok()?, Selector::parse(content).ok()?, Selector::parse(body).ok()?);
    let doc = Html::parse_document(html);
    Some(doc.tree.root().traverse().map(|edge| match edge {
        Edge::Open(node) => DomEvent::Open(match (ElementRef::wrap(node), node.value()) {
            (Some(el), _) => NodeKind::Element { excluded: ex.matches(&el), content: co.matches(&el), body: bo.matches(&el) },
            (None, Node::Text(t)) => NodeKind::Text(t.to_string()),
            _ => NodeKind::Other,
        }),
        Edge::Close(_) => DomEvent::Close,
    }).collect())
}

/// A selector list does not parse; the extractor's own lists always do.
#[derive(Debug, PartialEq, Eq, Structural)]
pub enum ExtractError {
    InvalidSelector,
}

/// The walk of `html` with the extractor's selector lists.
pub open spec fn walk_of(html: Seq<char>) -> Option<Seq<EventView>> {
    page_walk(html, EXCLUDE_SELECTOR@, CONTENT_SELECTOR@, BODY_SELECTOR@)
}

/// The main text of the page `html`; none where a selector list does not parse.
pub open spec fn page_text(html: Seq<char>) -> Option<Seq<char>> {
    match walk_of(html) {
        Some(evs) => Some(main_text(tree_of(evs))),
        None => None,
    }
}

/// The main text of the page `html`, without markup and boilerplate. It is
/// always found: the extractor's selector lists parse and any input parses.
pub fn strip_html_tags(html: &str) -> (r: Result<String, ExtractError>)
    ensures
        r matches Ok(s) && page_text(html@) == Some(s@),
{
    match walk_page(html, EXCLUDE_SELECTOR, CONTENT_SELECTOR, BODY_SELECTOR) {
        Some(events) => {
            let nodes = build_tree(&events);
            Ok(tree_main_text(&nodes))
        },
        None => Err(ExtractError::InvalidSelector),
    }
}


pub open spec fn is_excluded(n: NodeView) -> bool {
    n.kind matches KindView::Element { excluded, .. } && excluded
}

pub open spec fn is_content(n: NodeView) -> bool {
    n.kind matches KindView::Element { content, .. } && content
}

pub open spec fn is_body(n: NodeView) -> bool {
    n.kind matches KindView::Element { body, .. } && body
}

/// Node `a` is a proper ancestor of node `j`.
pub open spec fn is_ancestor(ns: Seq<NodeView>, a: int, j: int) -> bool
    decreases j,
{
    if 0 <= j < ns.len() && 0 <= ns[j].parent < j {
        ns[j].parent == a || is_ancestor(ns, a, ns[j].parent)
    } else {
        false
    }
}

/// Some proper ancestor of node `j` is a boilerplate element.
pub open spec fn excluded_above(ns: Seq<NodeView>, j: int) -> bool
    decreases j,
{
    if 0 <= j < ns.len() && 0 <= ns[j].parent < j {
        is_excluded(ns[ns[j].parent]) || excluded_above(ns, ns[j].parent)
    } else {
        false
    }
}


/// Neither boilerplate itself nor inside boilerplate.
pub open spec fn is_clean(ns: Seq<NodeView>, i: int) -> bool {
    !is_excluded(ns[i]) && !excluded_above(ns, i)
}

/// A content element read by the primary pass.
pub open spec fn primary_root(ns: Seq<NodeView>, i: int) -> bool {
    is_content(ns[i]) && is_clean(ns, i)
}

/// A body element read by the fallback pass.
pub open spec fn fallback_root(ns: Seq<NodeView>, i: int) -> bool {
    is_body(ns[i]) && is_clean(ns, i)
}

/// The text of node `j` if it is a text node outside every boilerplate element.
pub open spec fn clean_text(ns: Seq<NodeView>, j: int) -> Seq<char> {
    match ns[j].kind {
        KindView::Text(t) => if excluded_above(ns, j) { Seq::empty() } else { t },
        _ => Seq::empty(),
    }
}

/// The clean text of the nodes below node `i` among the first `m` nodes,
/// concatenated in document order.
pub open spec fn text_below(ns: Seq<NodeView>, i: int, m: int) -> Seq<char>
    decreases m,
{
    if m <= 0 {
        Seq::empty()
    } else {
        text_below(ns, i, m - 1) + if is_ancestor(ns, i, m - 1) {
            clean_text(ns, m - 1)
        } else {
            Seq::empty()
        }
    }
}

/// The fragment that element `i` gives: its clean text trimmed, unless that is empty.
pub open spec fn element_fragment(ns: Seq<NodeView>, i: int) -> Seq<Seq<char>> {
    let t = trim(text_below(ns, i, ns.len() as int));
    if t.len() > 0 { seq![t] } else { Seq::empty() }
}

/// Fragments that the primary pass collects from the first `m` nodes.
pub open spec fn primary_texts(ns: Seq<NodeView>, m: int) -> Seq<Seq<char>>
    decreases m,
{
    if m <= 0 {
        Seq::empty()
    } else {
        primary_texts(ns, m - 1) + if primary_root(ns, m - 1) {
            element_fragment(ns, m - 1)
        } else {
            Seq::empty()
        }
    }
}

/// Fragments that the fallback pass collects from the first `m` nodes.
pub open spec fn fallback_texts(ns: Seq<NodeView>, m: int) -> Seq<Seq<char>>
    decreases m,
{
    if m <= 0 {
        Seq::empty()
    } else {
        fallback_texts(ns, m - 1) + if fallback_root(ns, m - 1) {
            element_fragment(ns, m - 1)
        } else {
            Seq::empty()
        }
    }
}

/// The fragments kept: those of the primary pass, or of the fallback pass
/// when the primary pass found none.
pub open spec fn kept_texts(ns: Seq<NodeView>) -> Seq<Seq<char>> {
    if primary_texts(ns, ns.len() as int).len() > 0 {
        primary_texts(ns, ns.len() as int)
    } else {
        fallback_texts(ns, ns.len() as int)
    }
}

/// The main text of a page: the kept fragments joined, whitespace collapsed.
pub open spec fn main_text(ns: Seq<NodeView>) -> Seq<char> {
    collapse(join(kept_texts(ns), seq![' ']))
}

pub proof fn lemma_ancestor_before(ns: Seq<NodeView>, a: int, j: int)
    requires
        is_ancestor(ns, a, j),
    ensures
        0 <= a < j,
    decreases j,
{
    if ns[j].parent != a {
        lemma_ancestor_before(ns, a, ns[j].parent);
    }
}

pub open spec fn frags_view(v: Seq<Vec<char>>) -> Seq<Seq<char>> {
    v.map_values(|f: Vec<char>| f@)
}

/// Whether node `a` is a proper ancestor of node `j`.
fn ancestor_of(nodes: &Vec<DomNode>, a: usize, j: usize) -> (r: bool)
    requires
        tree_wf(nodes_view(nodes@)),
        j < nodes@.len(),
    ensures
        r == is_ancestor(nodes_view(nodes@), a as int, j as int),
{
    let ghost ns = nodes_view(nodes@);
    let mut k: usize = j;
    loop
        invariant
            ns == nodes_view(nodes@),
            tree_wf(ns),
            k < nodes@.len(),
            is_ancestor(ns, a as int, j as int) == is_ancestor(ns, a as int, k as int),
        decreases k,
    {
        assert(ns[k as int] == nodes@[k as int]@);
        match nodes[k].parent {
            None => {
                return false;
            },
            Some(p) => {
                if p == a {
                    return true;
                }
                if p < a {
                    proof {
                        if is_ancestor(ns, a as int, p as int) {
                            lemma_ancestor_before(ns, a as int, p as int);
                        }
                    }
                    return false;
                }
                k = p;
            },
        }
    }
}

fn append_chars(acc: &mut Vec<char>, s: &Vec<char>)
    ensures
        final(acc)@ == old(acc)@ + s@,
{
    let mut k: usize = 0;
    while k < s.len()
        invariant
            k <= s@.len(),
            acc@ == old(acc)@ + s@.take(k as int),
        decreases s@.len() - k,
    {
        acc.push(s[k]);
        assert(s@.take(k + 1) == s@.take(k as int).push(s@[k as int]));
        k = k + 1;
    }
    assert(s@.take(s@.len() as int) == s@);
}

/// Appends the fragment of element `i` to `out`.
fn push_element_fragment(nodes: &Vec<DomNode>, above: &Vec<bool>, i: usize, out: &mut Vec<Vec<char>>)
    requires
        tree_wf(nodes_view(nodes@)),
        above@.len() == nodes@.len(),
        forall|k: int| 0 <= k < above@.len() ==> above@[k] == excluded_above(nodes_view(nodes@), k),
    ensures
        frags_view(final(out)@) == frags_view(old(out)@) + element_fragment(nodes_view(nodes@), i as int),
{
    let ghost ns = nodes_view(nodes@);
    let mut acc: Vec<char> = Vec::new();
    let mut j: usize = 0;
    while j < nodes.len()
        invariant
            ns == nodes_view(nodes@),
            tree_wf(ns),
            j <= nodes@.len(),
            above@.len() == nodes@.len(),
            forall|k: int| 0 <= k < above@.len() ==> above@[k] == excluded_above(ns, k),
            acc@ == text_below(ns, i as int, j as int),
        decreases nodes@.len() - j,
    {
        assert(ns[j as int] == nodes@[j as int]@);
        let ghost before = acc@;
        if ancestor_of(nodes, i, j) && !above[j] {
            if let NodeKind::Text(t) = &nodes[j].kind {
                append_chars(&mut acc, &chars_of(t.as_str()));
            }
        }
        assert(acc@ == before + if is_ancestor(ns, i as int, j as int) { clean_text(ns, j as int) } else { Seq::empty() });
        j = j + 1;
    }
    let f = trim_chars(&acc);
    let ghost start = frags_view(out@);
    if f.len() > 0 {
        out.push(f);
        assert(frags_view(out@) == start.push(f@));
    }
}

/// The main text of the tree `nodes`.
pub fn tree_main_text(nodes: &Vec<DomNode>) -> (r: String)
    requires
        tree_wf(nodes_view(nodes@)),
    ensures
        r@ == main_text(nodes_view(nodes@)),
{
    let ghost ns = nodes_view(nodes@);
    let above = excluded_above_flags(nodes);
    let mut frags: Vec<Vec<char>> = Vec::new();
    let mut i: usize = 0;
    while i < nodes.len()
        invariant
            ns == nodes_view(nodes@),
            tree_wf(ns),
            i <= nodes@.len(),
            above@.len() == nodes@.len(),
            forall|k: int| 0 <= k < above@.len() ==> above@[k] == excluded_above(ns, k),
            frags_view(frags@) == primary_texts(ns, i as int),
        decreases nodes@.len() - i,
    {
        assert(ns[i as int] == nodes@[i as int]@);
        let read = match nodes[i].kind {
            NodeKind::Element { content, excluded, .. } => content && !excluded && !above[i],
            _ => false,
        };
        if read {
            push_element_fragment(nodes, &above, i, &mut frags);
        }
        i = i + 1;
    }
    if frags.len() == 0 {
        let mut i: usize = 0;
        while i < nodes.len()
            invariant
                ns == nodes_view(nodes@),
                tree_wf(ns),
                i <= nodes@.len(),
                above@.len() == nodes@.len(),
                forall|k: int| 0 <= k < above@.len() ==> above@[k] == excluded_above(ns, k),
                primary_texts(ns, ns.len() as int).len() == 0,
                frags_view(frags@) == fallback_texts(ns, i as int),
            decreases nodes@.len() - i,
        {
            assert(ns[i as int] == nodes@[i as int]@);
            let read = match nodes[i].kind {
                NodeKind::Element { body, excluded, .. } => body && !excluded && !above[i],
                _ => false,
            };
            if read {
                push_element_fragment(nodes, &above, i, &mut frags);
            }
            i = i + 1;
        }
    }
    let joined = join_frags(&frags);
    string_of(&collapse_chars(&joined))
}

/// Flags, for each node, whether a boilerplate element encloses it.
fn excluded_above_flags(nodes: &Vec<DomNode>) -> (r: Vec<bool>)
    requires
        tree_wf(nodes_view(nodes@)),
    ensures
        r@.len() == nodes@.len(),
        forall|k: int| 0 <= k < r@.len() ==> r@[k] == excluded_above(nodes_view(nodes@), k),
{
    let ghost ns = nodes_view(nodes@);
    let mut flags: Vec<bool> = Vec::new();
    let mut k: usize = 0;
    while k < nodes.len()
        invariant
            ns == nodes_view(nodes@),
            tree_wf(ns),
            k <= nodes@.len(),
            flags@.len() == k,
            forall|m: int| 0 <= m < k ==> flags@[m] == excluded_above(ns, m),
        decreases nodes@.len() - k,
    {
        assert(ns[k as int] == nodes@[k as int]@);
        assert(ns.len() == nodes@.len());
        let flag = match nodes[k].parent {
            None => {
                assert(ns[k as int].parent == -1);
                false
            },
            Some(p) => {
                assert(ns[k as int].parent == p as int);
                assert(p < k);
                assert(ns[p as int] == nodes@[p as int]@);
                let pe = match nodes[p].kind {
                    NodeKind::Element { excluded, .. } => excluded,
                    _ => false,
                };
                assert(pe == is_excluded(ns[p as int]));
                assert(flags@[p as int] == excluded_above(ns, p as int));
                pe || flags[p]
            },
        };
        assert(flag == excluded_above(ns, k as int));
        flags.push(flag);
        k = k + 1;
    }
    flags
}


/// The fragments joined with single spaces.
fn join_frags(frags: &Vec<Vec<char>>) -> (r: Vec<char>)
    ensures
        r@ == join(frags_view(frags@), seq![' ']),
{
    let mut r: Vec<char> = Vec::new();
    let mut i: usize = 0;
    while i < frags.len()
        invariant
            i <= frags@.len(),
            r@ == join(frags_view(frags@).take(i as int), seq![' ']),
        decreases frags@.len() - i,
    {
        let ghost fv = frags_view(frags@);
        assert(fv.take(i + 1).drop_last() == fv.take(i as int));
        if i > 0 {
            r.push(' ');
        }
        let f = &frags[i];
        let mut k: usize = 0;
        let ghost base = r@;
        while k < f.len()
            invariant
                k <= f@.len(),
                r@ == base + f@.take(k as int),
            decreases f@.len() - k,
        {
            r.push(f[k]);
            assert(f@.take(k + 1) == f@.take(k as int).push(f@[k as int]));
            k = k + 1;
        }
        assert(f@.take(f@.len() as int) == f@);
        i = i + 1;
    }
    assert(frags_view(frags@).take(frags@.len() as int) == frags_view(frags@));
    r
}

/// Two trees of the same shape that differ at most in the text of text
/// nodes lying inside boilerplate elements.
pub open spec fn differ_in_boilerplate_text(ns: Seq<NodeView>, ms: Seq<NodeView>) -> bool {
    &&& ns.len() == ms.len()
    &&& forall|i: int| 0 <= i < ns.len() ==> (#[trigger] ns[i]).parent == ms[i].parent && (ns[i].kind
        == ms[i].kind || (excluded_above(ns, i) && ns[i].kind is Text && ms[i].kind is Text))
}

proof fn lemma_same_shape(ns: Seq<NodeView>, ms: Seq<NodeView>, a: int, j: int)
    requires
        differ_in_boilerplate_text(ns, ms),
    ensures
        is_ancestor(ns, a, j) == is_ancestor(ms, a, j),
        excluded_above(ns, j) == excluded_above(ms, j),
        0 <= j < ns.len() ==> is_excluded(ns[j]) == is_excluded(ms[j]) && is_content(ns[j]) == is_content(ms[j])
            && is_body(ns[j]) == is_body(ms[j]) && clean_text(ns, j) == clean_text(ms, j),
    decreases j,
{
    if 0 <= j < ns.len() {
        let p = ns[j].parent;
        assert(ms[j].parent == p);
        if 0 <= p < j {
            lemma_same_shape(ns, ms, a, p);
        }
    }
}

proof fn lemma_same_text_below(ns: Seq<NodeView>, ms: Seq<NodeView>, i: int, m: int)
    requires
        differ_in_boilerplate_text(ns, ms),
    ensures
        text_below(ns, i, m) == text_below(ms, i, m),
    decreases m,
{
    if m > 0 {
        lemma_same_text_below(ns, ms, i, m - 1);
        lemma_same_shape(ns, ms, i, m - 1);
    }
}

proof fn lemma_same_passes(ns: Seq<NodeView>, ms: Seq<NodeView>, m: int)
    requires
        differ_in_boilerplate_text(ns, ms),
        m <= ns.len(),
    ensures
        primary_texts(ns, m) == primary_texts(ms, m),
        fallback_texts(ns, m) == fallback_texts(ms, m),
    decreases m,
{
    if m > 0 {
        lemma_same_passes(ns, ms, m - 1);
        lemma_same_shape(ns, ms, 0, m - 1);
        lemma_same_text_below(ns, ms, m - 1, ns.len() as int);
    }
}

/// Text inside a boilerplate element (a script, a style, a menu, ...) never
/// reaches the main text: whatever such text nodes hold, the main text is the same.
pub proof fn law_boilerplate_excluded(ns: Seq<NodeView>, ms: Seq<NodeView>)
    requires
        differ_in_boilerplate_text(ns, ms),
    ensures
        main_text(ns) == main_text(ms),
{
    lemma_same_passes(ns, ms, ns.len() as int);
}

proof fn lemma_no_primary(ns: Seq<NodeView>, m: int)
    requires
        forall|i: int| 0 <= i < ns.len() ==> !is_content(#[trigger] ns[i]),
        m <= ns.len(),
    ensures
        primary_texts(ns, m) == Seq::<Seq<char>>::empty(),
    decreases m,
{
    if m > 0 {
        lemma_no_primary(ns, m - 1);
    }
}

proof fn lemma_text_below_visible(ns: Seq<NodeView>, i: int, j: int, k: int, m: int)
    requires
        0 <= j < m,
        is_ancestor(ns, i, j),
        0 <= k < clean_text(ns, j).len(),
        !is_space(clean_text(ns, j)[k]),
    ensures
        exists|q: int| 0 <= q < text_below(ns, i, m).len() && !is_space(#[trigger] text_below(ns, i, m)[q]),
    decreases m,
{
    let prev = text_below(ns, i, m - 1);
    if m - 1 > j {
        lemma_text_below_visible(ns, i, j, k, m - 1);
        let q = choose|q: int| 0 <= q < prev.len() && !is_space(#[trigger] prev[q]);
        assert(text_below(ns, i, m)[q] == prev[q]);
    } else {
        assert(text_below(ns, i, m)[prev.len() + k] == clean_text(ns, j)[k]);
    }
}

proof fn lemma_fallback_grows(ns: Seq<NodeView>, i: int, m: int)
    requires
        0 <= i < m <= ns.len(),
        fallback_root(ns, i),
        element_fragment(ns, i).len() > 0,
    ensures
        fallback_texts(ns, m).len() > 0,
    decreases m,
{
    if m - 1 > i {
        lemma_fallback_grows(ns, i, m - 1);
    }
}

/// A page without content elements falls back to the body pass, and that
/// pass keeps some text when a body element outside boilerplate holds a
/// non-blank text node outside boilerplate.
pub proof fn law_body_fallback(ns: Seq<NodeView>, i: int, j: int, k: int)
    requires
        tree_wf(ns),
        forall|c: int| 0 <= c < ns.len() ==> !is_content(#[trigger] ns[c]),
    ensures
        kept_texts(ns) == fallback_texts(ns, ns.len() as int),
        0 <= i < ns.len() && fallback_root(ns, i) && is_ancestor(ns, i, j) && 0 <= k < clean_text(ns, j).len()
            && !is_space(clean_text(ns, j)[k]) ==> kept_texts(ns).len() > 0,
{
    lemma_no_primary(ns, ns.len() as int);
    if 0 <= i < ns.len() && fallback_root(ns, i) && is_ancestor(ns, i, j) && 0 <= k < clean_text(ns, j).len()
        && !is_space(clean_text(ns, j)[k]) {
        lemma_ancestor_before(ns, i, j);
        lemma_text_below_visible(ns, i, j, k, ns.len() as int);
        let t = text_below(ns, i, ns.len() as int);
        let q = choose|q: int| 0 <= q < t.len() && !is_space(#[trigger] t[q]);
        lemma_trim_visible(t, q);
        lemma_fallback_grows(ns, i, ns.len() as int);
    }
}

/// The main text is a function of the page alone.
pub proof fn law_extraction_deterministic(a: Seq<char>, b: Seq<char>)
    requires
        a == b,
    ensures
        page_text(a) == page_text(b),
{
}

} // verus!
