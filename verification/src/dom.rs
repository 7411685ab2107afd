//! The part of a rendered document that is read.
//!
//! A rendering is held as a tree of plain values. An element is known by a
//! key, so that whoever made the tree can find the element again.
use vstd::prelude::*;

use crate::text;
use crate::text::{equal, uppercase};

verus! {

/// A node of a rendered document.
#[derive(Debug, PartialEq)]
pub enum Node {
    Text(String),
    Element(Element),
    /// A comment, or anything else that is neither text nor an element.
    Other,
}

/// An element of a rendered document.
#[derive(Debug, PartialEq)]
pub struct Element {
    /// What the element is known by; none for one that is not there yet.
    pub key: Option<usize>,
    pub tag: String,
    pub classes: Vec<String>,
    /// The source line that a block was rendered from, as it is written.
    pub line: Option<String>,
    /// Where a link leads.
    pub href: Option<String>,
    pub children: Vec<Node>,
}

/// What a node stands for.
pub enum NodeModel {
    Text(Seq<char>),
    Element(ElementModel),
    Other,
}

/// What an element stands for.
pub struct ElementModel {
    pub key: Option<usize>,
    pub tag: Seq<char>,
    pub classes: Seq<Seq<char>>,
    pub line: Option<Seq<char>>,
    pub href: Option<Seq<char>>,
    pub children: Seq<NodeModel>,
}

pub open spec fn node_model(node: Node) -> NodeModel
    decreases node,
{
    match node {
        Node::Text(text) => NodeModel::Text(text@),
        Node::Element(element) => NodeModel::Element(element_model(element)),
        Node::Other => NodeModel::Other,
    }
}

pub open spec fn element_model(element: Element) -> ElementModel
    decreases element,
{
    ElementModel {
        key: element.key,
        tag: element.tag@,
        classes: text::texts(element.classes@),
        line: text::maybe_string(element.line),
        href: text::maybe_string(element.href),
        children: nodes_model(element.children@),
    }
}

pub open spec fn nodes_model(nodes: Seq<Node>) -> Seq<NodeModel>
    decreases nodes,
{
    if nodes.len() == 0 {
        Seq::empty()
    } else {
        nodes_model(nodes.drop_last()).push(node_model(nodes.last()))
    }
}

/// A run of nodes stands for what each of them does.
pub proof fn lemma_nodes_model(nodes: Seq<Node>)
    ensures
        nodes_model(nodes).len() == nodes.len(),
        forall|i: int|
            0 <= i < nodes.len() ==> #[trigger] nodes_model(nodes)[i] == node_model(nodes[i]),
    decreases nodes.len(),
{
    if nodes.len() > 0 {
        lemma_nodes_model(nodes.drop_last());
    }
}

/// Whether an element is called `name`, in upper case.
pub open spec fn is_called(element: ElementModel, name: Seq<char>) -> bool {
    text::uppercased(element.tag) == name
}

/// Whether an element is called `name`, in upper case.
pub fn called(element: &Element, name: &str) -> (r: bool)
    ensures
        r == is_called(element_model(*element), name@),
{
    equal(&uppercase(&element.tag), name)
}

/// The elements called `a` or `b` in a run of nodes, in reading order.
pub open spec fn named(nodes: Seq<NodeModel>, a: Seq<char>, b: Seq<char>) -> Seq<ElementModel>
    decreases nodes,
{
    if nodes.len() == 0 {
        Seq::empty()
    } else {
        named(nodes.drop_last(), a, b) + named_at(nodes.last(), a, b)
    }
}

/// The elements called `a` or `b` at a node and below it, in reading order.
pub open spec fn named_at(node: NodeModel, a: Seq<char>, b: Seq<char>) -> Seq<ElementModel>
    decreases node,
{
    match node {
        NodeModel::Element(element) => {
            let below = named(element.children, a, b);
            if is_called(element, a) || is_called(element, b) {
                seq![element] + below
            } else {
                below
            }
        },
        _ => Seq::empty(),
    }
}

/// What a list of elements stands for.
pub open spec fn models(elements: Seq<&Element>) -> Seq<ElementModel> {
    elements.map_values(|element: &Element| element_model(*element))
}

/// Lists the elements called `a` or `b`, in reading order, at the end of `out`.
pub fn find_named<'a>(nodes: &'a [Node], a: &str, b: &str, out: &mut Vec<&'a Element>)
    ensures
        models(final(out)@) == models(old(out)@) + named(nodes_model(nodes@), a@, b@),
    decreases nodes@,
{
    let ghost start = models(out@);
    let mut i: usize = 0;
    while i < nodes.len()
        invariant
            i <= nodes@.len(),
            models(out@) == start + named(nodes_model(nodes@.take(i as int)), a@, b@),
        decreases nodes.len() - i,
    {
        let ghost before = models(out@);
        proof {
            assert(nodes@.take(i + 1).drop_last() == nodes@.take(i as int));
            let all = nodes_model(nodes@.take(i + 1));
            assert(all.drop_last() == nodes_model(nodes@.take(i as int)));
            assert(all.last() == node_model(nodes@[i as int]));
            assert(decreases_to!(nodes@ => nodes@[i as int]));
        }
        if let Node::Element(element) = &nodes[i] {
            if called(element, a) || called(element, b) {
                out.push(element);
                assert(models(out@) == before + seq![element_model(*element)]);
            }
            find_named(&element.children, a, b, out);
        }
        assert(models(out@) == before + named_at(node_model(nodes@[i as int]), a@, b@));
        i += 1;
    }
    assert(nodes@.take(i as int) == nodes@);
}

/// Whether an element has the class `class`.
pub open spec fn is_classed(element: ElementModel, class: Seq<char>) -> bool {
    element.classes.contains(class)
}

/// Whether an element has the class `class`.
pub fn classed(element: &Element, class: &str) -> (r: bool)
    ensures
        r == is_classed(element_model(*element), class@),
{
    let ghost all = element_model(*element).classes;
    let mut i: usize = 0;
    while i < element.classes.len()
        invariant
            all == text::texts(element.classes@),
            i <= element.classes@.len(),
            forall|j: int| 0 <= j < i ==> #[trigger] all[j] != class@,
        decreases element.classes.len() - i,
    {
        if equal(&element.classes[i], class) {
            assert(all[i as int] == class@);
            return true;
        }
        assert(all[i as int] == element.classes@[i as int]@);
        i += 1;
    }
    assert(!all.contains(class@));
    false
}

/// The text in a run of nodes, in reading order.
pub open spec fn text_among(nodes: Seq<NodeModel>) -> Seq<char>
    decreases nodes,
{
    if nodes.len() == 0 {
        Seq::empty()
    } else {
        text_among(nodes.drop_last()) + text_at(nodes.last())
    }
}

/// The text in a node, in reading order.
pub open spec fn text_at(node: NodeModel) -> Seq<char>
    decreases node,
{
    match node {
        NodeModel::Text(text) => text,
        NodeModel::Element(element) => text_among(element.children),
        NodeModel::Other => Seq::empty(),
    }
}

/// Writes the text in a run of nodes, in reading order, at the end of `out`.
pub fn collect_text(nodes: &[Node], out: &mut String)
    ensures
        final(out)@ == old(out)@ + text_among(nodes_model(nodes@)),
    decreases nodes@,
{
    let ghost start = out@;
    let mut i: usize = 0;
    while i < nodes.len()
        invariant
            i <= nodes@.len(),
            out@ == start + text_among(nodes_model(nodes@.take(i as int))),
        decreases nodes.len() - i,
    {
        let ghost before = out@;
        proof {
            assert(nodes@.take(i + 1).drop_last() == nodes@.take(i as int));
            let all = nodes_model(nodes@.take(i + 1));
            assert(all.drop_last() == nodes_model(nodes@.take(i as int)));
            assert(all.last() == node_model(nodes@[i as int]));
            assert(decreases_to!(nodes@ => nodes@[i as int]));
        }
        match &nodes[i] {
            Node::Text(text) => out.append(text),
            Node::Element(element) => collect_text(&element.children, out),
            Node::Other => {},
        }
        assert(out@ == before + text_at(node_model(nodes@[i as int])));
        i += 1;
    }
    assert(nodes@.take(i as int) == nodes@);
}

/// The text in nodes is that of each of them, one after another, and the text
/// in an element that of what is in it; anything else has none.
pub proof fn law_text_in_order(a: Seq<NodeModel>, b: Seq<NodeModel>, element: ElementModel)
    ensures
        text_among(a + b) == text_among(a) + text_among(b),
        text_among(a.push(NodeModel::Element(element))) == text_among(a) + text_among(
            element.children,
        ),
        forall|s: Seq<char>| #[trigger]
            text_among(a.push(NodeModel::Text(s))) == text_among(a) + s,
        text_among(a.push(NodeModel::Other)) == text_among(a),
        text_among(Seq::empty()).len() == 0,
    decreases b.len(),
{
    assert(a.push(NodeModel::Element(element)).drop_last() == a);
    assert(a.push(NodeModel::Other).drop_last() == a);
    assert(text_at(NodeModel::Element(element)) == text_among(element.children));
    assert(text_at(NodeModel::Other) == Seq::<char>::empty());
    assert(text_among(a.push(NodeModel::Other)) == text_among(a) + text_at(NodeModel::Other));
    assert(text_among(a) + Seq::<char>::empty() == text_among(a));
    assert forall|s: Seq<char>| #[trigger]
        text_among(a.push(NodeModel::Text(s))) == text_among(a) + s by {
        assert(a.push(NodeModel::Text(s)).drop_last() == a);
        assert(text_at(NodeModel::Text(s)) == s);
    }
    if b.len() == 0 {
        assert(a + b == a);
        assert(text_among(a) + text_among(b) == text_among(a));
    } else {
        law_text_in_order(a, b.drop_last(), element);
        assert((a + b).drop_last() == a + b.drop_last());
        assert((a + b).last() == b.last());
        assert(text_among(a + b) == text_among(a) + text_among(b));
    }
}

/// Elements are found by their name in reading order: an element before those
/// in it, and those in one node before those in the next.
pub proof fn law_named_in_order(
    nodes: Seq<NodeModel>,
    more: Seq<NodeModel>,
    element: ElementModel,
    a: Seq<char>,
    b: Seq<char>,
)
    ensures
        named(nodes + more, a, b) == named(nodes, a, b) + named(more, a, b),
        named(seq![NodeModel::Element(element)], a, b) == (if text::uppercased(element.tag) == a
            || text::uppercased(element.tag) == b {
            seq![element]
        } else {
            Seq::empty()
        }) + named(element.children, a, b),
        forall|s: Seq<char>| (#[trigger] named(seq![NodeModel::Text(s)], a, b)).len() == 0,
        named(seq![NodeModel::Other], a, b).len() == 0,
        named(Seq::empty(), a, b).len() == 0,
    decreases more.len(),
{
    let one = seq![NodeModel::Element(element)];
    let none = Seq::<NodeModel>::empty();
    assert(one.drop_last() == none);
    assert(seq![NodeModel::Other].drop_last() == none);
    assert(named(none, a, b) == Seq::<ElementModel>::empty());
    assert(named(one, a, b) == named(none, a, b) + named_at(one.last(), a, b));
    assert(named(seq![NodeModel::Other], a, b) == named(none, a, b) + named_at(
        NodeModel::Other,
        a,
        b,
    ));
    assert forall|s: Seq<char>| (#[trigger] named(seq![NodeModel::Text(s)], a, b)).len() == 0 by {
        assert(seq![NodeModel::Text(s)].drop_last() == none);
        assert(named(seq![NodeModel::Text(s)], a, b) == named(none, a, b) + named_at(
            NodeModel::Text(s),
            a,
            b,
        ));
    }
    if more.len() == 0 {
        assert(nodes + more == nodes);
        assert(named(nodes, a, b) + named(more, a, b) == named(nodes, a, b));
    } else {
        law_named_in_order(nodes, more.drop_last(), element, a, b);
        assert((nodes + more).drop_last() == nodes + more.drop_last());
        assert((nodes + more).last() == more.last());
        assert(named(nodes + more, a, b) == named(nodes, a, b) + named(more, a, b));
    }
}

} // verus!
