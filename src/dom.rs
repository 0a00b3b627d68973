//! A parsed page as a tree of nodes in document order, built from the
//! open/close events of a walk over the parser's tree.
use vstd::prelude::*;

verus! {

/// What a node of the page is, as far as extraction cares.
pub enum NodeKind {
    /// An element, with whether it matches the boilerplate selector, the
    /// main-content selector and the body selector.
    Element { excluded: bool, content: bool, body: bool },
    /// A text node.
    Text(String),
    /// A document, doctype, comment or processing-instruction node.
    Other,
}

/// One step of a depth-first walk: a node is entered, or the last entered
/// node that is still open is left.
pub enum DomEvent {
    Open(NodeKind),
    Close,
}

/// A node of the tree with the index of its parent, if any.
pub struct DomNode {
    pub kind: NodeKind,
    pub parent: Option<usize>,
}

pub enum KindView {
    Element { excluded: bool, content: bool, body: bool },
    Text(Seq<char>),
    Other,
}

pub enum EventView {
    Open(KindView),
    Close,
}

/// A node; `parent` is -1 for a root.
pub struct NodeView {
    pub kind: KindView,
    pub parent: int,
}

impl View for NodeKind {
    type V = KindView;

    open spec fn view(&self) -> KindView {
        match self {
            NodeKind::Element { excluded, content, body } => KindView::Element {
                excluded: *excluded,
                content: *content,
                body: *body,
            },
            NodeKind::Text(t) => KindView::Text(t@),
            NodeKind::Other => KindView::Other,
        }
    }
}

impl View for DomEvent {
    type V = EventView;

    open spec fn view(&self) -> EventView {
        match self {
            DomEvent::Open(k) => EventView::Open(k@),
            DomEvent::Close => EventView::Close,
        }
    }
}

impl View for DomNode {
    type V = NodeView;

    open spec fn view(&self) -> NodeView {
        NodeView {
            kind: self.kind@,
            parent: match self.parent {
                Some(p) => p as int,
                None => -1,
            },
        }
    }
}

pub open spec fn events_view(v: Seq<DomEvent>) -> Seq<EventView> {
    v.map_values(|e: DomEvent| e@)
}

pub open spec fn nodes_view(v: Seq<DomNode>) -> Seq<NodeView> {
    v.map_values(|n: DomNode| n@)
}

/// The nodes entered so far, and the indices of those still open, innermost last.
pub open spec fn build(evs: Seq<EventView>) -> (Seq<NodeView>, Seq<int>)
    decreases evs.len(),
{
    if evs.len() == 0 {
        (Seq::empty(), Seq::empty())
    } else {
        let (ns, open) = build(evs.drop_last());
        match evs.last() {
            EventView::Close => (ns, if open.len() > 0 { open.drop_last() } else { open }),
            EventView::Open(k) => (
                ns.push(NodeView { kind: k, parent: if open.len() > 0 { open.last() } else { -1 } }),
                open.push(ns.len() as int),
            ),
        }
    }
}

/// The tree that a walk describes: every node in the order it was entered.
pub open spec fn tree_of(evs: Seq<EventView>) -> Seq<NodeView> {
    build(evs).0
}

/// Every parent comes before its children.
pub open spec fn tree_wf(ns: Seq<NodeView>) -> bool {
    forall|i: int| 0 <= i < ns.len() ==> -1 <= #[trigger] ns[i].parent < i
}

pub proof fn lemma_build_wf(evs: Seq<EventView>)
    ensures
        tree_wf(build(evs).0),
        forall|k: int| 0 <= k < build(evs).1.len() ==> 0 <= #[trigger] build(evs).1[k] < build(evs).0.len(),
    decreases evs.len(),
{
    if evs.len() > 0 {
        lemma_build_wf(evs.drop_last());
    }
}

fn copy_kind(k: &NodeKind) -> (r: NodeKind)
    ensures
        r@ == k@,
{
    match k {
        NodeKind::Element { excluded, content, body } => NodeKind::Element {
            excluded: *excluded,
            content: *content,
            body: *body,
        },
        NodeKind::Text(t) => NodeKind::Text(t.clone()),
        NodeKind::Other => NodeKind::Other,
    }
}

/// Builds the tree that the walk `events` describes.
pub fn build_tree(events: &Vec<DomEvent>) -> (r: Vec<DomNode>)
    ensures
        nodes_view(r@) == tree_of(events_view(events@)),
        tree_wf(nodes_view(r@)),
{
    let ghost evs = events_view(events@);
    let mut nodes: Vec<DomNode> = Vec::new();
    let mut open: Vec<usize> = Vec::new();
    let mut i: usize = 0;
    while i < events.len()
        invariant
            i <= events@.len(),
            evs == events_view(events@),
            nodes_view(nodes@) == build(evs.take(i as int)).0,
            open@.map_values(|x: usize| x as int) == build(evs.take(i as int)).1,
        decreases events@.len() - i,
    {
        proof {
            assert(evs.take(i + 1).drop_last() == evs.take(i as int));
            lemma_build_wf(evs.take(i as int));
        }
        match &events[i] {
            DomEvent::Close => {
                if open.len() > 0 {
                    open.pop();
                    assert(open@.map_values(|x: usize| x as int) == build(evs.take(i as int)).1.drop_last());
                }
            },
            DomEvent::Open(k) => {
                let parent = if open.len() > 0 { Some(open[open.len() - 1]) } else { None };
                let idx = nodes.len();
                nodes.push(DomNode { kind: copy_kind(k), parent });
                open.push(idx);
                assert(nodes_view(nodes@) == build(evs.take(i as int)).0.push(nodes@.last()@));
                assert(open@.map_values(|x: usize| x as int) == build(evs.take(i as int)).1.push(idx as int));
            },
        }
        i = i + 1;
    }
    proof {
        assert(evs.take(events@.len() as int) == evs);
        lemma_build_wf(evs);
    }
    nodes
}

} // verus!
