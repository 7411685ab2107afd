//! Moving the items of a rendered list a level deeper, or shallower.
//!
//! The browser cannot help here: it refuses to restructure the element it was
//! given as the editing root, and that root is the list itself. An item is
//! moved within the tree by the key it is known by, so that whoever made the
//! tree can move the element that it stands for, and the caret with it.
use vstd::prelude::*;

use crate::dom;
use crate::dom::{called, Element, ElementModel, Node, NodeModel};
use crate::text;

verus! {

// ---------------------------------------------------------------------
// Looking around
// ---------------------------------------------------------------------

/// Whether a node is an item of a list.
pub open spec fn is_li(node: NodeModel) -> bool {
    node matches NodeModel::Element(element) && dom::is_called(element, "LI"@)
}

/// Whether an element is a list.
pub open spec fn is_list(element: ElementModel) -> bool {
    dom::is_called(element, "UL"@) || dom::is_called(element, "OL"@)
}

/// Whether a node is the element known by `key`.
pub open spec fn is_known(node: NodeModel, key: usize) -> bool {
    node matches NodeModel::Element(element) && element.key == Some(key)
}

/// Where the element known by `key` stands in a run of nodes: the first place.
pub open spec fn place(nodes: Seq<NodeModel>, key: usize) -> Option<int>
    decreases nodes.len(),
{
    if nodes.len() == 0 {
        None
    } else {
        match place(nodes.drop_last(), key) {
            Some(i) => Some(i),
            None => if is_known(nodes.last(), key) {
                Some(nodes.len() - 1)
            } else {
                None
            },
        }
    }
}

/// The last item in a run of nodes.
pub open spec fn last_item(nodes: Seq<NodeModel>) -> Option<int>
    decreases nodes.len(),
{
    if nodes.len() == 0 {
        None
    } else if is_li(nodes.last()) {
        Some(nodes.len() - 1)
    } else {
        last_item(nodes.drop_last())
    }
}

fn li(node: &Node) -> (r: bool)
    ensures
        r == is_li(dom::node_model(*node)),
{
    match node {
        Node::Element(element) => called(element, "LI"),
        _ => false,
    }
}

fn is_list_element(element: &Element) -> (r: bool)
    ensures
        r == is_list(dom::element_model(*element)),
{
    called(element, "UL") || called(element, "OL")
}

fn known(node: &Node, key: usize) -> (r: bool)
    ensures
        r == is_known(dom::node_model(*node), key),
{
    match node {
        Node::Element(element) => match element.key {
            Some(found) => found == key,
            None => false,
        },
        _ => false,
    }
}

proof fn lemma_place_stays(nodes: Seq<NodeModel>, key: usize, n: int)
    requires
        0 <= n <= nodes.len(),
        place(nodes.take(n), key) is Some,
    ensures
        place(nodes, key) == place(nodes.take(n), key),
    decreases nodes.len() - n,
{
    if n < nodes.len() {
        assert(nodes.take(n + 1).drop_last() == nodes.take(n));
        lemma_place_stays(nodes, key, n + 1);
    } else {
        assert(nodes.take(n) == nodes);
    }
}

/// A place is one where the element is.
pub proof fn lemma_place(nodes: Seq<NodeModel>, key: usize)
    ensures
        place(nodes, key) matches Some(i) ==> 0 <= i < nodes.len() && is_known(nodes[i], key),
        place(nodes, key) is None ==> forall|i: int|
            0 <= i < nodes.len() ==> !is_known(#[trigger] nodes[i], key),
    decreases nodes.len(),
{
    if nodes.len() > 0 {
        let less = nodes.drop_last();
        lemma_place(less, key);
        assert forall|i: int| place(nodes, key) is None && 0 <= i < nodes.len() implies !is_known(
            #[trigger] nodes[i],
            key,
        ) by {
            if i < less.len() {
                assert(less[i] == nodes[i]);
            }
        }
    }
}

fn find_place(nodes: &[Node], key: usize) -> (r: Option<usize>)
    ensures
        match r {
            Some(i) => place(dom::nodes_model(nodes@), key) == Some(i as int) && i < nodes@.len(),
            None => place(dom::nodes_model(nodes@), key) is None,
        },
{
    let ghost all = dom::nodes_model(nodes@);
    let mut i: usize = 0;
    proof {
        dom::lemma_nodes_model(nodes@);
    }
    while i < nodes.len()
        invariant
            all == dom::nodes_model(nodes@),
            all.len() == nodes@.len(),
            forall|j: int| 0 <= j < all.len() ==> #[trigger] all[j] == dom::node_model(nodes@[j]),
            i <= nodes@.len(),
            place(all.take(i as int), key) is None,
        decreases nodes.len() - i,
    {
        proof {
            assert(all.take(i + 1).drop_last() == all.take(i as int));
            assert(all.take(i + 1).last() == all[i as int]);
        }
        if known(&nodes[i], key) {
            proof {
                lemma_place_stays(all, key, i + 1);
            }
            return Some(i);
        }
        i += 1;
    }
    assert(all.take(i as int) == all);
    None
}

/// The last item before place `n`.
fn item_before(nodes: &[Node], n: usize) -> (r: Option<usize>)
    requires
        n <= nodes@.len(),
    ensures
        match r {
            Some(i) => last_item(dom::nodes_model(nodes@).take(n as int)) == Some(i as int) && i < n,
            None => last_item(dom::nodes_model(nodes@).take(n as int)) is None,
        },
{
    let ghost all = dom::nodes_model(nodes@);
    proof {
        dom::lemma_nodes_model(nodes@);
    }
    let mut i: usize = n;
    while i > 0
        invariant
            n <= nodes@.len(),
            i <= n,
            all == dom::nodes_model(nodes@),
            all.len() == nodes@.len(),
            forall|j: int| 0 <= j < all.len() ==> #[trigger] all[j] == dom::node_model(nodes@[j]),
            last_item(all.take(n as int)) == last_item(all.take(i as int)),
        decreases i,
    {
        proof {
            assert(all.take(i as int).drop_last() == all.take(i - 1));
            assert(all.take(i as int).last() == all[i - 1]);
        }
        if li(&nodes[i - 1]) {
            return Some(i - 1);
        }
        i -= 1;
    }
    None
}

// ---------------------------------------------------------------------
// Nesting
// ---------------------------------------------------------------------

/// An element with other children.
pub open spec fn with_children(element: ElementModel, children: Seq<NodeModel>) -> ElementModel {
    ElementModel { children, ..element }
}

/// A list called `tag` that is not there yet.
pub open spec fn new_list(tag: Seq<char>, items: Seq<NodeModel>) -> ElementModel {
    ElementModel {
        key: None,
        tag,
        classes: Seq::empty(),
        line: None,
        href: None,
        children: items,
    }
}

/// A run of nodes with `items` at the end of the first list in it, in reading
/// order, if there is a list in it.
pub open spec fn given_to_list(nodes: Seq<NodeModel>, items: Seq<NodeModel>) -> Option<
    Seq<NodeModel>,
>
    decreases nodes,
{
    if nodes.len() == 0 {
        None
    } else {
        match given_to_list(nodes.drop_last(), items) {
            Some(now) => Some(now.push(nodes.last())),
            None => match given_to_list_at(nodes.last(), items) {
                Some(now) => Some(nodes.drop_last().push(now)),
                None => None,
            },
        }
    }
}

/// A node with `items` at the end of the first list in it, if there is one.
pub open spec fn given_to_list_at(node: NodeModel, items: Seq<NodeModel>) -> Option<NodeModel>
    decreases node,
{
    match node {
        NodeModel::Element(element) => if is_list(element) {
            Some(NodeModel::Element(with_children(element, element.children + items)))
        } else {
            match given_to_list(element.children, items) {
                Some(now) => Some(NodeModel::Element(with_children(element, now))),
                None => None,
            }
        },
        _ => None,
    }
}

/// An item with other items nested in it: in the list it has, or in a new one
/// called `tag`.
pub open spec fn nested(item: ElementModel, items: Seq<NodeModel>, tag: Seq<char>) -> ElementModel {
    match given_to_list(item.children, items) {
        Some(now) => with_children(item, now),
        None => with_children(
            item,
            item.children.push(NodeModel::Element(new_list(tag, items))),
        ),
    }
}

proof fn lemma_models_push(nodes: Seq<Node>, node: Node)
    ensures
        dom::nodes_model(nodes.push(node)) == dom::nodes_model(nodes).push(dom::node_model(node)),
{
    assert(nodes.push(node).drop_last() == nodes);
}

proof fn lemma_models_in_order(a: Seq<Node>, b: Seq<Node>)
    ensures
        dom::nodes_model(a + b) == dom::nodes_model(a) + dom::nodes_model(b),
    decreases b.len(),
{
    if b.len() == 0 {
        assert(a + b == a);
        assert(dom::nodes_model(a) + dom::nodes_model(b) == dom::nodes_model(a));
    } else {
        lemma_models_in_order(a, b.drop_last());
        assert((a + b).drop_last() == a + b.drop_last());
        assert(dom::nodes_model(a + b) == dom::nodes_model(a) + dom::nodes_model(b));
    }
}

/// What is taken out of a run of nodes stands for what was in its place.
proof fn lemma_models_remove(nodes: Seq<Node>, i: int)
    requires
        0 <= i < nodes.len(),
    ensures
        dom::nodes_model(nodes.remove(i)) == dom::nodes_model(nodes).remove(i),
        dom::nodes_model(nodes)[i] == dom::node_model(nodes[i]),
{
    dom::lemma_nodes_model(nodes);
    dom::lemma_nodes_model(nodes.remove(i));
    assert(dom::nodes_model(nodes.remove(i)) =~= dom::nodes_model(nodes).remove(i));
}

proof fn lemma_models_insert(nodes: Seq<Node>, i: int, node: Node)
    requires
        0 <= i <= nodes.len(),
    ensures
        dom::nodes_model(nodes.insert(i, node)) == dom::nodes_model(nodes).insert(
            i,
            dom::node_model(node),
        ),
{
    dom::lemma_nodes_model(nodes);
    dom::lemma_nodes_model(nodes.insert(i, node));
    assert(dom::nodes_model(nodes.insert(i, node)) =~= dom::nodes_model(nodes).insert(
        i,
        dom::node_model(node),
    ));
}

/// Gives `items` to the first list in a run of nodes, or hands them back.
fn give_to_list(nodes: Vec<Node>, items: Vec<Node>) -> (r: (Vec<Node>, Option<Vec<Node>>))
    ensures
        match given_to_list(dom::nodes_model(nodes@), dom::nodes_model(items@)) {
            Some(now) => r.1 is None && dom::nodes_model(r.0@) == now,
            None => r.1 is Some && dom::nodes_model(r.0@) == dom::nodes_model(nodes@) && (
            r.1->0)@ == items@,
        },
    decreases nodes@, 0int,
{
    let ghost whole = nodes@;
    let ghost given = dom::nodes_model(items@);
    let ghost given_seq = items@;
    let mut rest = nodes;
    let mut done: Vec<Node> = Vec::new();
    let mut left: Option<Vec<Node>> = Some(items);
    while rest.len() > 0
        invariant
            whole == nodes@,
            done@.len() + rest@.len() == whole.len(),
            rest@ == whole.skip(done@.len() as int),
            given == dom::nodes_model(given_seq),
            left matches Some(still) ==> still@ == given_seq && dom::nodes_model(done@)
                == dom::nodes_model(whole.take(done@.len() as int)) && given_to_list(dom::nodes_model(whole.take(done@.len() as int)), given) is None,
            left is None ==> given_to_list(
                dom::nodes_model(whole.take(done@.len() as int)),
                given,
            ) == Some(dom::nodes_model(done@)),
        decreases rest.len(),
    {
        let ghost k = done@.len() as int;
        let ghost before = done@;
        let node = rest.remove(0);
        proof {
            assert(node == whole[k]);
            assert(rest@ == whole.skip(k + 1));
            assert(whole.take(k + 1).drop_last() == whole.take(k));
            assert(whole.take(k + 1).last() == node);
            let all = dom::nodes_model(whole.take(k + 1));
            assert(all.drop_last() == dom::nodes_model(whole.take(k)));
            assert(all.last() == dom::node_model(node));
            assert(decreases_to!(whole => whole[k]));
        }
        match left {
            Some(still) => {
                let (now, back) = give_to_list_at(node, still);
                done.push(now);
                proof {
                    lemma_models_push(before, done@.last());
                }
                left = back;
            },
            None => {
                done.push(node);
                proof {
                    lemma_models_push(before, node);
                }
                left = None;
            },
        }
    }
    proof {
        assert(whole.take(done@.len() as int) == whole);
    }
    (done, left)
}

/// Gives `items` to the first list in a node, or hands them back.
fn give_to_list_at(node: Node, items: Vec<Node>) -> (r: (Node, Option<Vec<Node>>))
    ensures
        match given_to_list_at(dom::node_model(node), dom::nodes_model(items@)) {
            Some(now) => r.1 is None && dom::node_model(r.0) == now,
            None => r.1 is Some && dom::node_model(r.0) == dom::node_model(node) && (r.1->0)@
                == items@,
        },
    decreases node, 1int,
{
    match node {
        Node::Element(element) => {
            let listed = is_list_element(&element);
            let Element { key, tag, classes, line, href, children } = element;
            let ghost before = children@;
            if listed {
                let mut children = children;
                let mut items = items;
                let ghost added = items@;
                children.append(&mut items);
                proof {
                    lemma_models_in_order(before, added);
                    assert(children@ == before + added);
                }
                (Node::Element(Element { key, tag, classes, line, href, children }), None)
            } else {
                let (children, left) = give_to_list(children, items);
                (Node::Element(Element { key, tag, classes, line, href, children }), left)
            }
        },
        other => (other, Some(items)),
    }
}

/// Nests `items` in an item: in the list it has, or in a new one called `tag`.
fn nest(item: Element, items: Vec<Node>, tag: &str) -> (r: Element)
    ensures
        dom::element_model(r) == nested(
            dom::element_model(item),
            dom::nodes_model(items@),
            tag@,
        ),
{
    let Element { key, tag: name, classes, line, href, children } = item;
    let (children, left) = give_to_list(children, items);
    match left {
        Some(items) => {
            let mut children = children;
            let ghost before = children@;
            let list = Element {
                key: None,
                tag: tag.to_string(),
                classes: Vec::new(),
                line: None,
                href: None,
                children: items,
            };
            assert(text::texts(list.classes@) == Seq::<Seq<char>>::empty());
            children.push(Node::Element(list));
            proof {
                lemma_models_push(before, children@.last());
            }
            Element { key, tag: name, classes, line, href, children }
        },
        None => Element { key, tag: name, classes, line, href, children },
    }
}

/// A run of nodes with the item at `i` nested under the one at `p`.
pub open spec fn moved_under(nodes: Seq<NodeModel>, p: int, i: int, tag: Seq<char>) -> Seq<
    NodeModel,
> {
    nodes.remove(i).update(
        p,
        NodeModel::Element(nested(nodes[p]->Element_0, seq![nodes[i]], tag)),
    )
}

/// A list, or an element that holds one, with the item known by `key` nested
/// under the item before it. An item can only nest under one that precedes it,
/// in AsciiDoc as in HTML, so the first item of a list stays where it is.
pub open spec fn indented(element: ElementModel, key: usize) -> ElementModel
    decreases element,
{
    match place(element.children, key) {
        Some(i) => match last_item(element.children.take(i)) {
            Some(p) => with_children(
                element,
                moved_under(element.children, p, i, element.tag),
            ),
            None => element,
        },
        None => with_children(element, indented_nodes(element.children, key)),
    }
}

pub open spec fn indented_node(node: NodeModel, key: usize) -> NodeModel
    decreases node,
{
    match node {
        NodeModel::Element(element) => NodeModel::Element(indented(element, key)),
        _ => node,
    }
}

pub open spec fn indented_nodes(nodes: Seq<NodeModel>, key: usize) -> Seq<NodeModel>
    decreases nodes,
{
    if nodes.len() == 0 {
        Seq::empty()
    } else {
        indented_nodes(nodes.drop_last(), key).push(indented_node(nodes.last(), key))
    }
}

/// What is found to be an item before a place is one.
proof fn lemma_last_item(nodes: Seq<NodeModel>)
    ensures
        last_item(nodes) matches Some(p) ==> 0 <= p < nodes.len() && is_li(nodes[p]),
    decreases nodes.len(),
{
    if nodes.len() > 0 && !is_li(nodes.last()) {
        lemma_last_item(nodes.drop_last());
    }
}

/// Nests the item known by `key` under the one before it.
pub fn indent_item(element: Element, key: usize) -> (r: Element)
    ensures
        dom::element_model(r) == indented(dom::element_model(element), key),
    decreases element, 0int,
{
    let ghost whole = dom::element_model(element);
    let Element { key: own, tag, classes, line, href, children } = element;
    let ghost all = dom::nodes_model(children@);
    proof {
        dom::lemma_nodes_model(children@);
        assert(whole.children == all);
    }
    match find_place(&children, key) {
        Some(i) => {
            match item_before(&children, i) {
                Some(p) => {
                    let ghost first = children@;
                    proof {
                        lemma_last_item(all.take(i as int));
                        assert(all.take(i as int)[p as int] == all[p as int]);
                        lemma_models_remove(first, i as int);
                    }
                    let mut children = children;
                    let item = children.remove(i);
                    let ghost second = children@;
                    proof {
                        dom::lemma_nodes_model(second);
                        lemma_models_remove(second, p as int);
                        assert(second[p as int] == first[p as int]);
                    }
                    let previous = children.remove(p);
                    let ghost third = children@;
                    let mut items: Vec<Node> = Vec::new();
                    items.push(item);
                    proof {
                        lemma_models_push(Seq::empty(), item);
                        assert(items@ == Seq::<Node>::empty().push(item));
                        assert(dom::nodes_model(items@) == seq![all[i as int]]);
                    }
                    match previous {
                        Node::Element(above) => {
                            let now = nest(above, items, &tag);
                            children.insert(p, Node::Element(now));
                            proof {
                                lemma_models_insert(third, p as int, children@[p as int]);
                                assert(children@ == third.insert(p as int, children@[p as int]));
                                assert(dom::nodes_model(children@) == moved_under(
                                    all,
                                    p as int,
                                    i as int,
                                    tag@,
                                ));
                            }
                        },
                        _ => {},
                    }
                    Element { key: own, tag, classes, line, href, children }
                },
                None => Element { key: own, tag, classes, line, href, children },
            }
        },
        None => {
            let children = indent_nodes(children, key);
            Element { key: own, tag, classes, line, href, children }
        },
    }
}

fn indent_nodes(nodes: Vec<Node>, key: usize) -> (r: Vec<Node>)
    ensures
        dom::nodes_model(r@) == indented_nodes(dom::nodes_model(nodes@), key),
    decreases nodes@, 1int,
{
    let ghost whole = nodes@;
    let mut rest = nodes;
    let mut done: Vec<Node> = Vec::new();
    while rest.len() > 0
        invariant
            whole == nodes@,
            done@.len() + rest@.len() == whole.len(),
            rest@ == whole.skip(done@.len() as int),
            dom::nodes_model(done@) == indented_nodes(
                dom::nodes_model(whole.take(done@.len() as int)),
                key,
            ),
        decreases rest.len(),
    {
        let ghost k = done@.len() as int;
        let ghost before = done@;
        let node = rest.remove(0);
        proof {
            assert(node == whole[k]);
            assert(rest@ == whole.skip(k + 1));
            assert(whole.take(k + 1).drop_last() == whole.take(k));
            let all = dom::nodes_model(whole.take(k + 1));
            assert(all.drop_last() == dom::nodes_model(whole.take(k)));
            assert(all.last() == dom::node_model(node));
            assert(decreases_to!(whole => whole[k]));
        }
        let now = match node {
            Node::Element(element) => Node::Element(indent_item(element, key)),
            other => other,
        };
        done.push(now);
        proof {
            lemma_models_push(before, done@.last());
            assert(dom::node_model(done@.last()) == indented_node(dom::node_model(node), key));
        }
    }
    proof {
        assert(whole.take(done@.len() as int) == whole);
    }
    done
}

// ---------------------------------------------------------------------
// Lifting
// ---------------------------------------------------------------------

/// The items in a run of nodes.
pub open spec fn items_among(nodes: Seq<NodeModel>) -> Seq<NodeModel>
    decreases nodes.len(),
{
    if nodes.len() == 0 {
        Seq::empty()
    } else if is_li(nodes.last()) {
        items_among(nodes.drop_last()).push(nodes.last())
    } else {
        items_among(nodes.drop_last())
    }
}

/// The nodes in a run of nodes that are no items.
pub open spec fn others_among(nodes: Seq<NodeModel>) -> Seq<NodeModel>
    decreases nodes.len(),
{
    if nodes.len() == 0 {
        Seq::empty()
    } else if is_li(nodes.last()) {
        others_among(nodes.drop_last())
    } else {
        others_among(nodes.drop_last()).push(nodes.last())
    }
}

/// Whether there is an item in a run of nodes, at any depth.
pub open spec fn holds_items(nodes: Seq<NodeModel>) -> bool {
    dom::named(nodes, "LI"@, "LI"@).len() > 0
}

/// What becomes of an element that an item is lifted out of.
pub enum Lifted {
    /// The item is not in it.
    Unchanged,
    /// The item is out, and this is left.
    Kept { rest: ElementModel, item: ElementModel },
    /// The item is out, and no item is left in the list it was in.
    Emptied { item: ElementModel },
    /// The item is out, and the element wrapped a list that no item is left
    /// in.
    Removed { item: ElementModel },
}

/// The item at `i` of a list called `tag`. Items below it were deeper than it
/// is to be and must stay that way, so they follow it down a level.
pub open spec fn item_with_followers(nodes: Seq<NodeModel>, i: int, tag: Seq<char>) -> ElementModel {
    let item = nodes[i]->Element_0;
    let followers = items_among(nodes.skip(i + 1));
    if followers.len() == 0 {
        item
    } else {
        nested(item, followers, tag)
    }
}

/// An element with the item known by `key` lifted out of the list in it. The
/// items in it are not looked into.
pub open spec fn lifted(element: ElementModel, key: usize) -> Lifted
    decreases element,
{
    match place(element.children, key) {
        Some(i) => {
            let item = item_with_followers(element.children, i, element.tag);
            let left = element.children.take(i) + others_among(element.children.skip(i + 1));
            if holds_items(left) {
                Lifted::Kept { rest: with_children(element, left), item }
            } else {
                Lifted::Emptied { item }
            }
        },
        None => match lifted_nodes(element.children, key) {
            Some((now, item, emptied)) => if emptied && dom::is_called(element, "DIV"@) {
                // The renderer wraps a nested list in a div; that goes too.
                Lifted::Removed { item }
            } else {
                Lifted::Kept { rest: with_children(element, now), item }
            },
            None => Lifted::Unchanged,
        },
    }
}

/// A run of nodes with the item known by `key` lifted out of the list in it,
/// the item, and whether that list is gone from the run.
pub open spec fn lifted_nodes(nodes: Seq<NodeModel>, key: usize) -> Option<
    (Seq<NodeModel>, ElementModel, bool),
>
    decreases nodes,
{
    if nodes.len() == 0 {
        None
    } else {
        match lifted_nodes(nodes.drop_last(), key) {
            Some((now, item, emptied)) => Some((now.push(nodes.last()), item, emptied)),
            None => match lifted_node(nodes.last(), key) {
                Lifted::Unchanged => None,
                Lifted::Kept { rest, item } => Some(
                    (nodes.drop_last().push(NodeModel::Element(rest)), item, false),
                ),
                Lifted::Emptied { item } => Some((nodes.drop_last(), item, true)),
                Lifted::Removed { item } => Some((nodes.drop_last(), item, false)),
            },
        }
    }
}

pub open spec fn lifted_node(node: NodeModel, key: usize) -> Lifted
    decreases node,
{
    match node {
        NodeModel::Element(element) => if dom::is_called(element, "LI"@) {
            Lifted::Unchanged
        } else {
            lifted(element, key)
        },
        _ => Lifted::Unchanged,
    }
}

/// A list, or an element that holds one, with the item known by `key` lifted
/// out to the level of the item it is nested in. An item of the outermost list
/// stays where it is.
pub open spec fn outdented(element: ElementModel, key: usize) -> ElementModel
    decreases element,
{
    with_children(
        element,
        match outdented_here(element.children, key) {
            Some(now) => now,
            None => outdented_below(element.children, key),
        },
    )
}

/// A run of nodes with the item lifted out of one of the items in the run, if
/// it is nested right in one.
pub open spec fn outdented_here(nodes: Seq<NodeModel>, key: usize) -> Option<Seq<NodeModel>>
    decreases nodes.len(),
{
    if nodes.len() == 0 {
        None
    } else {
        match outdented_here(nodes.drop_last(), key) {
            Some(now) => Some(now.push(nodes.last())),
            None => match nodes.last() {
                NodeModel::Element(outer) => if dom::is_called(outer, "LI"@) {
                    match lifted_nodes(outer.children, key) {
                        Some((now, item, _)) => Some(
                            nodes.drop_last().push(
                                NodeModel::Element(with_children(outer, now)),
                            ).push(NodeModel::Element(item)),
                        ),
                        None => None,
                    }
                } else {
                    None
                },
                _ => None,
            },
        }
    }
}

pub open spec fn outdented_below(nodes: Seq<NodeModel>, key: usize) -> Seq<NodeModel>
    decreases nodes,
{
    if nodes.len() == 0 {
        Seq::empty()
    } else {
        outdented_below(nodes.drop_last(), key).push(outdented_node(nodes.last(), key))
    }
}

pub open spec fn outdented_node(node: NodeModel, key: usize) -> NodeModel
    decreases node,
{
    match node {
        NodeModel::Element(element) => NodeModel::Element(outdented(element, key)),
        _ => node,
    }
}

/// What becomes of an element that an item is lifted out of.
enum Lift {
    Unchanged(Element),
    Kept { rest: Element, item: Element },
    Emptied { item: Element },
    Removed { item: Element },
}

/// Whether a result is what it should be, of the element `element`.
spec fn is_lift(lift: Lift, element: ElementModel, key: usize) -> bool {
    match lifted(element, key) {
        Lifted::Unchanged => lift matches Lift::Unchanged(same) && dom::element_model(same)
            == element,
        Lifted::Kept { rest, item } => lift matches Lift::Kept { rest: r, item: i }
            && dom::element_model(r) == rest && dom::element_model(i) == item,
        Lifted::Emptied { item } => lift matches Lift::Emptied { item: i } && dom::element_model(i)
            == item,
        Lifted::Removed { item } => lift matches Lift::Removed { item: i } && dom::element_model(i)
            == item,
    }
}

/// What becomes of a run of nodes that an item is lifted out of.
enum LiftAll {
    Unchanged(Vec<Node>),
    Done { nodes: Vec<Node>, item: Element, emptied: bool },
}

spec fn is_lift_all(lift: LiftAll, nodes: Seq<NodeModel>, key: usize) -> bool {
    match lifted_nodes(nodes, key) {
        None => lift matches LiftAll::Unchanged(same) && dom::nodes_model(same@) == nodes,
        Some((now, item, emptied)) => lift matches LiftAll::Done { nodes: n, item: i, emptied: e }
            && dom::nodes_model(n@) == now && dom::element_model(i) == item && e == emptied,
    }
}

/// Parts a run of nodes into the items and the others.
fn part(nodes: Vec<Node>) -> (r: (Vec<Node>, Vec<Node>))
    ensures
        dom::nodes_model(r.0@) == items_among(dom::nodes_model(nodes@)),
        dom::nodes_model(r.1@) == others_among(dom::nodes_model(nodes@)),
{
    let ghost whole = nodes@;
    let mut rest = nodes;
    let mut items: Vec<Node> = Vec::new();
    let mut others: Vec<Node> = Vec::new();
    let ghost mut k: int = 0;
    proof {
        assert(whole.skip(0) == whole);
    }
    while rest.len() > 0
        invariant
            whole == nodes@,
            0 <= k <= whole.len(),
            rest@ == whole.skip(k),
            dom::nodes_model(items@) == items_among(dom::nodes_model(whole.take(k))),
            dom::nodes_model(others@) == others_among(dom::nodes_model(whole.take(k))),
        decreases rest.len(),
    {
        let ghost items_before = items@;
        let ghost others_before = others@;
        let node = rest.remove(0);
        proof {
            assert(node == whole[k]);
            assert(rest@ == whole.skip(k + 1));
            assert(whole.take(k + 1).drop_last() == whole.take(k));
            let all = dom::nodes_model(whole.take(k + 1));
            assert(all.drop_last() == dom::nodes_model(whole.take(k)));
            assert(all.last() == dom::node_model(node));
        }
        if li(&node) {
            items.push(node);
            proof {
                lemma_models_push(items_before, node);
            }
        } else {
            others.push(node);
            proof {
                lemma_models_push(others_before, node);
            }
        }
        proof {
            k = k + 1;
        }
    }
    proof {
        assert(whole.take(k) == whole);
    }
    (items, others)
}

/// Whether there is an item in a run of nodes, at any depth.
fn any_items(nodes: &[Node]) -> (r: bool)
    ensures
        r == holds_items(dom::nodes_model(nodes@)),
{
    let mut found: Vec<&Element> = Vec::new();
    dom::find_named(nodes, "LI", "LI", &mut found);
    proof {
        assert(dom::models(found@) == dom::named(dom::nodes_model(nodes@), "LI"@, "LI"@));
        assert(dom::models(found@).len() == found@.len());
    }
    found.len() > 0
}

/// Lifts the item known by `key` out of the list in an element.
fn lift(element: Element, key: usize) -> (r: Lift)
    ensures
        is_lift(r, dom::element_model(element), key),
    decreases element, 0int,
{
    let ghost whole = dom::element_model(element);
    let is_div = called(&element, "DIV");
    let Element { key: own, tag, classes, line, href, children } = element;
    let ghost all = dom::nodes_model(children@);
    let ghost first = children@;
    let count = children.len();
    proof {
        dom::lemma_nodes_model(children@);
        assert(whole.children == all);
    }
    match find_place(&children, key) {
        Some(i) => {
            assert(i < count);
            let mut children = children;
            let after = children.split_off(i + 1);
            let ghost second = children@;
            proof {
                lemma_place(all, key);
                assert(after@ == first.skip(i + 1));
                assert(second == first.take(i + 1));
                lemma_models_in_order(second, after@);
                assert(second + after@ == first);
                dom::lemma_nodes_model(second);
                dom::lemma_nodes_model(after@);
                assert(dom::nodes_model(after@) == all.skip(i + 1));
                lemma_models_remove(second, i as int);
            }
            let node = children.remove(i);
            let (followers, others) = part(after);
            let ghost third = children@;
            let ghost kept = others@;
            let mut others = others;
            children.append(&mut others);
            proof {
                assert(third == first.take(i as int));
                assert(children@ == third + kept);
                lemma_models_in_order(third, kept);
                assert(dom::nodes_model(third) == all.take(i as int)) by {
                    dom::lemma_nodes_model(third);
                }
                dom::lemma_nodes_model(followers@);
                assert(dom::node_model(node) == all[i as int]);
            }
            let item = match node {
                Node::Element(item) => item,
                _ => {
                    // The node known by a key is an element.
                    Element {
                        key: None,
                        tag: String::new(),
                        classes: Vec::new(),
                        line: None,
                        href: None,
                        children: Vec::new(),
                    }
                },
            };
            let item = if followers.len() == 0 {
                item
            } else {
                nest(item, followers, &tag)
            };
            if any_items(&children) {
                Lift::Kept { rest: Element { key: own, tag, classes, line, href, children }, item }
            } else {
                Lift::Emptied { item }
            }
        },
        None => match lift_nodes(children, key) {
            LiftAll::Unchanged(children) => Lift::Unchanged(
                Element { key: own, tag, classes, line, href, children },
            ),
            LiftAll::Done { nodes, item, emptied } => if emptied && is_div {
                Lift::Removed { item }
            } else {
                Lift::Kept { rest: Element { key: own, tag, classes, line, href, children: nodes }, item }
            },
        },
    }
}

/// Lifts the item known by `key` out of the list in a run of nodes.
fn lift_nodes(nodes: Vec<Node>, key: usize) -> (r: LiftAll)
    ensures
        is_lift_all(r, dom::nodes_model(nodes@), key),
    decreases nodes@, 1int,
{
    let ghost whole = nodes@;
    let mut rest = nodes;
    let mut done: Vec<Node> = Vec::new();
    let mut out: Option<(Element, bool)> = None;
    let ghost mut k: int = 0;
    proof {
        assert(whole.skip(0) == whole);
        assert(whole.take(0) == Seq::<Node>::empty());
    }
    while rest.len() > 0
        invariant
            whole == nodes@,
            0 <= k <= whole.len(),
            rest@ == whole.skip(k),
            match lifted_nodes(dom::nodes_model(whole.take(k)), key) {
                Some((now, item, emptied)) => out is Some && dom::nodes_model(done@) == now
                    && dom::element_model((out->0).0) == item && (out->0).1 == emptied,
                None => out is None && dom::nodes_model(done@) == dom::nodes_model(whole.take(k)),
            },
        decreases rest.len(),
    {
        let ghost before = done@;
        let node = rest.remove(0);
        proof {
            assert(node == whole[k]);
            assert(rest@ == whole.skip(k + 1));
            assert(whole.take(k + 1).drop_last() == whole.take(k));
            let all = dom::nodes_model(whole.take(k + 1));
            assert(all.drop_last() == dom::nodes_model(whole.take(k)));
            assert(all.last() == dom::node_model(node));
            assert(decreases_to!(whole => whole[k]));
        }
        let ghost fate = lifted_node(dom::node_model(node), key);
        if out.is_some() {
            done.push(node);
            proof {
                lemma_models_push(before, node);
            }
        } else {
            match node {
                Node::Element(element) => {
                    let ghost model = dom::element_model(element);
                    assert(fate == if dom::is_called(model, "LI"@) {
                        Lifted::Unchanged
                    } else {
                        lifted(model, key)
                    });
                    if called(&element, "LI") {
                        done.push(Node::Element(element));
                        proof {
                            lemma_models_push(before, done@.last());
                        }
                    } else {
                        match lift(element, key) {
                            Lift::Unchanged(same) => {
                                done.push(Node::Element(same));
                                proof {
                                    lemma_models_push(before, done@.last());
                                }
                            },
                            Lift::Kept { rest: left, item } => {
                                done.push(Node::Element(left));
                                proof {
                                    lemma_models_push(before, done@.last());
                                }
                                out = Some((item, false));
                            },
                            Lift::Emptied { item } => {
                                out = Some((item, true));
                            },
                            Lift::Removed { item } => {
                                out = Some((item, false));
                            },
                        }
                    }
                },
                other => {
                    done.push(other);
                    proof {
                        lemma_models_push(before, done@.last());
                    }
                },
            }
        }
        proof {
            k = k + 1;
        }
    }
    proof {
        assert(whole.take(k) == whole);
    }
    match out {
        Some((item, emptied)) => LiftAll::Done { nodes: done, item, emptied },
        None => LiftAll::Unchanged(done),
    }
}

/// Lifts the item known by `key` out to its parent's level.
pub fn outdent_item(element: Element, key: usize) -> (r: Element)
    ensures
        dom::element_model(r) == outdented(dom::element_model(element), key),
    decreases dom::element_model(element), 0int,
{
    let ghost whole = dom::element_model(element);
    let Element { key: own, tag, classes, line, href, children } = element;
    let ghost all = dom::nodes_model(children@);
    assert(whole.children == all);
    let (children, found) = outdent_here(children, key);
    let children = if found {
        children
    } else {
        outdent_below(children, key)
    };
    Element { key: own, tag, classes, line, href, children }
}

/// Lifts the item known by `key` out of one of the items in a run of nodes, if
/// it is nested right in one.
fn outdent_here(nodes: Vec<Node>, key: usize) -> (r: (Vec<Node>, bool))
    ensures
        match outdented_here(dom::nodes_model(nodes@), key) {
            Some(now) => r.1 && dom::nodes_model(r.0@) == now,
            None => !r.1 && dom::nodes_model(r.0@) == dom::nodes_model(nodes@),
        },
{
    let ghost whole = nodes@;
    let mut rest = nodes;
    let mut done: Vec<Node> = Vec::new();
    let mut found = false;
    let ghost mut k: int = 0;
    proof {
        assert(whole.skip(0) == whole);
        assert(whole.take(0) == Seq::<Node>::empty());
    }
    while rest.len() > 0
        invariant
            whole == nodes@,
            0 <= k <= whole.len(),
            rest@ == whole.skip(k),
            match outdented_here(dom::nodes_model(whole.take(k)), key) {
                Some(now) => found && dom::nodes_model(done@) == now,
                None => !found && dom::nodes_model(done@) == dom::nodes_model(whole.take(k)),
            },
        decreases rest.len(),
    {
        let ghost before = done@;
        let node = rest.remove(0);
        proof {
            assert(node == whole[k]);
            assert(rest@ == whole.skip(k + 1));
            assert(whole.take(k + 1).drop_last() == whole.take(k));
            let all = dom::nodes_model(whole.take(k + 1));
            assert(all.drop_last() == dom::nodes_model(whole.take(k)));
            assert(all.last() == dom::node_model(node));
        }
        if found || !li(&node) {
            done.push(node);
            proof {
                lemma_models_push(before, node);
            }
        } else {
            match node {
                Node::Element(outer) => {
                    let Element { key: own, tag, classes, line, href, children } = outer;
                    match lift_nodes(children, key) {
                        LiftAll::Unchanged(children) => {
                            done.push(Node::Element(Element { key: own, tag, classes, line, href, children }));
                            proof {
                                lemma_models_push(before, done@.last());
                            }
                        },
                        LiftAll::Done { nodes: now, item, emptied: _ } => {
                            done.push(
                                Node::Element(Element { key: own, tag, classes, line, href, children: now }),
                            );
                            let ghost between = done@;
                            proof {
                                lemma_models_push(before, done@.last());
                            }
                            done.push(Node::Element(item));
                            proof {
                                lemma_models_push(between, done@.last());
                            }
                            found = true;
                        },
                    }
                },
                other => {
                    done.push(other);
                    proof {
                        lemma_models_push(before, done@.last());
                    }
                },
            }
        }
        proof {
            k = k + 1;
        }
    }
    proof {
        assert(whole.take(k) == whole);
    }
    (done, found)
}

fn outdent_below(nodes: Vec<Node>, key: usize) -> (r: Vec<Node>)
    ensures
        dom::nodes_model(r@) == outdented_below(dom::nodes_model(nodes@), key),
    decreases dom::nodes_model(nodes@), 1int,
{
    let ghost whole = nodes@;
    let mut rest = nodes;
    let mut done: Vec<Node> = Vec::new();
    while rest.len() > 0
        invariant
            whole == nodes@,
            done@.len() + rest@.len() == whole.len(),
            rest@ == whole.skip(done@.len() as int),
            dom::nodes_model(done@) == outdented_below(
                dom::nodes_model(whole.take(done@.len() as int)),
                key,
            ),
        decreases rest.len(),
    {
        let ghost k = done@.len() as int;
        let ghost before = done@;
        let node = rest.remove(0);
        proof {
            assert(node == whole[k]);
            assert(rest@ == whole.skip(k + 1));
            assert(whole.take(k + 1).drop_last() == whole.take(k));
            let all = dom::nodes_model(whole.take(k + 1));
            assert(all.drop_last() == dom::nodes_model(whole.take(k)));
            assert(all.last() == dom::node_model(node));
            dom::lemma_nodes_model(whole);
            assert(dom::nodes_model(whole)[k] == dom::node_model(node));
            assert(decreases_to!(dom::nodes_model(whole) => dom::nodes_model(whole)[k]));
        }
        let now = match node {
            Node::Element(element) => Node::Element(outdent_item(element, key)),
            other => other,
        };
        done.push(now);
        proof {
            lemma_models_push(before, done@.last());
            assert(dom::node_model(done@.last()) == outdented_node(dom::node_model(node), key));
        }
    }
    proof {
        assert(whole.take(done@.len() as int) == whole);
    }
    done
}

/// Moves the item known by `key` a level deeper, or shallower.
pub fn reindent(list: Element, key: usize, outdent: bool) -> (r: Element)
    ensures
        dom::element_model(r) == (if outdent {
            outdented(dom::element_model(list), key)
        } else {
            indented(dom::element_model(list), key)
        }),
{
    if outdent {
        outdent_item(list, key)
    } else {
        indent_item(list, key)
    }
}

// ---------------------------------------------------------------------
// Back and forth
// ---------------------------------------------------------------------

/// Whether no element in a run of nodes is known by `key`, at any depth.
pub open spec fn is_absent(nodes: Seq<NodeModel>, key: usize) -> bool
    decreases nodes,
{
    nodes.len() == 0 || (is_absent(nodes.drop_last(), key) && is_absent_at(nodes.last(), key))
}

/// Whether neither a node nor an element in it is known by `key`.
pub open spec fn is_absent_at(node: NodeModel, key: usize) -> bool
    decreases node,
{
    match node {
        NodeModel::Element(element) => element.key != Some(key) && is_absent(
            element.children,
            key,
        ),
        _ => true,
    }
}

proof fn lemma_absent_no_place(nodes: Seq<NodeModel>, key: usize)
    requires
        is_absent(nodes, key),
    ensures
        place(nodes, key) is None,
    decreases nodes.len(),
{
    if nodes.len() > 0 {
        lemma_absent_no_place(nodes.drop_last(), key);
        assert(is_absent_at(nodes.last(), key));
    }
}

/// What is not there cannot be lifted.
proof fn lemma_absent_not_lifted(nodes: Seq<NodeModel>, key: usize)
    requires
        is_absent(nodes, key),
    ensures
        lifted_nodes(nodes, key) is None,
    decreases nodes,
{
    if nodes.len() > 0 {
        lemma_absent_not_lifted(nodes.drop_last(), key);
        lemma_absent_not_lifted_at(nodes.last(), key);
    }
}

proof fn lemma_absent_not_lifted_at(node: NodeModel, key: usize)
    requires
        is_absent_at(node, key),
    ensures
        lifted_node(node, key) is Unchanged,
    decreases node,
{
    if let NodeModel::Element(element) = node {
        lemma_absent_no_place(element.children, key);
        lemma_absent_not_lifted(element.children, key);
        assert(lifted(element, key) is Unchanged);
    }
}

proof fn lemma_absent_not_here(nodes: Seq<NodeModel>, key: usize)
    requires
        is_absent(nodes, key),
    ensures
        outdented_here(nodes, key) is None,
    decreases nodes.len(),
{
    if nodes.len() > 0 {
        lemma_absent_not_here(nodes.drop_last(), key);
        assert(is_absent_at(nodes.last(), key));
        if let NodeModel::Element(outer) = nodes.last() {
            lemma_absent_not_lifted(outer.children, key);
        }
    }
}

/// Once the item has been lifted, what follows stays as it is.
proof fn lemma_here_stays(nodes: Seq<NodeModel>, key: usize, n: int)
    requires
        0 <= n <= nodes.len(),
        outdented_here(nodes.take(n), key) is Some,
    ensures
        outdented_here(nodes, key) == Some(
            outdented_here(nodes.take(n), key)->0 + nodes.skip(n),
        ),
    decreases nodes.len() - n,
{
    if n < nodes.len() {
        assert(nodes.take(n + 1).drop_last() == nodes.take(n));
        lemma_here_stays(nodes, key, n + 1);
        let now = outdented_here(nodes.take(n), key)->0;
        assert(now.push(nodes[n]) + nodes.skip(n + 1) == now + nodes.skip(n));
    } else {
        assert(nodes.take(n) == nodes);
        let now = outdented_here(nodes, key)->0;
        assert(now + nodes.skip(n) == now);
    }
}

/// Whether the first list in a run of nodes, in reading order, holds items, if
/// there is a list in it. A list that is in an item does not count as one that
/// does.
pub open spec fn first_list_filled(nodes: Seq<NodeModel>) -> Option<bool>
    decreases nodes,
{
    if nodes.len() == 0 {
        None
    } else {
        match first_list_filled(nodes.drop_last()) {
            Some(filled) => Some(filled),
            None => first_list_filled_at(nodes.last()),
        }
    }
}

/// Whether the first list in a node holds items, if there is a list in it.
pub open spec fn first_list_filled_at(node: NodeModel) -> Option<bool>
    decreases node,
{
    match node {
        NodeModel::Element(element) => if is_list(element) {
            Some(holds_items(element.children))
        } else {
            match first_list_filled(element.children) {
                Some(filled) => Some(filled && !dom::is_called(element, "LI"@)),
                None => None,
            }
        },
        _ => None,
    }
}

/// Where there is no list, nothing is given to one.
proof fn lemma_no_list(nodes: Seq<NodeModel>, items: Seq<NodeModel>)
    requires
        first_list_filled(nodes) is None,
    ensures
        given_to_list(nodes, items) is None,
    decreases nodes,
{
    if nodes.len() > 0 {
        lemma_no_list(nodes.drop_last(), items);
        lemma_no_list_at(nodes.last(), items);
    }
}

proof fn lemma_no_list_at(node: NodeModel, items: Seq<NodeModel>)
    requires
        first_list_filled_at(node) is None,
    ensures
        given_to_list_at(node, items) is None,
    decreases node,
{
    if let NodeModel::Element(element) = node {
        if !is_list(element) {
            lemma_no_list(element.children, items);
        }
    }
}

/// Giving to a list in a run of nodes leaves what the nodes are known by.
proof fn lemma_given_keeps_keys(nodes: Seq<NodeModel>, items: Seq<NodeModel>, key: usize)
    requires
        given_to_list(nodes, items) is Some,
    ensures
        place(given_to_list(nodes, items)->0, key) == place(nodes, key),
    decreases nodes.len(),
{
    let less = nodes.drop_last();
    let now = given_to_list(nodes, items)->0;
    match given_to_list(less, items) {
        Some(before) => {
            lemma_given_keeps_keys(less, items, key);
            assert(now.drop_last() == before);
            lemma_given_len(less, items);
        },
        None => {
            assert(now.drop_last() == less);
            lemma_given_keeps_key(nodes.last(), items, key);
        },
    }
}

proof fn lemma_given_keeps_key(node: NodeModel, items: Seq<NodeModel>, key: usize)
    ensures
        given_to_list_at(node, items) matches Some(now) ==> is_known(now, key) == is_known(
            node,
            key,
        ),
{
}

proof fn lemma_given_len(nodes: Seq<NodeModel>, items: Seq<NodeModel>)
    requires
        given_to_list(nodes, items) is Some,
    ensures
        given_to_list(nodes, items)->0.len() == nodes.len(),
    decreases nodes.len(),
{
    if given_to_list(nodes.drop_last(), items) is Some {
        lemma_given_len(nodes.drop_last(), items);
    }
}

/// An item that is given to a list that holds others is lifted out of it
/// again, and leaves it as it was.
proof fn lemma_given_then_lifted(nodes: Seq<NodeModel>, item: ElementModel, key: usize)
    requires
        first_list_filled(nodes) == Some(true),
        is_absent(nodes, key),
        item.key == Some(key),
    ensures
        given_to_list(nodes, seq![NodeModel::Element(item)]) matches Some(now) && lifted_nodes(
            now,
            key,
        ) == Some((nodes, item, false)),
    decreases nodes,
{
    let items = seq![NodeModel::Element(item)];
    let less = nodes.drop_last();
    assert(is_absent(less, key) && is_absent_at(nodes.last(), key));
    assert(less.push(nodes.last()) == nodes);
    match first_list_filled(less) {
        Some(_) => {
            lemma_given_then_lifted(less, item, key);
            let before = given_to_list(less, items)->0;
            assert(before.push(nodes.last()).drop_last() == before);
        },
        None => {
            lemma_no_list(less, items);
            lemma_given_then_lifted_at(nodes.last(), item, key);
            let now = given_to_list_at(nodes.last(), items)->0;
            assert(less.push(now).drop_last() == less);
            lemma_absent_not_lifted(less, key);
        },
    }
}

proof fn lemma_given_then_lifted_at(node: NodeModel, item: ElementModel, key: usize)
    requires
        first_list_filled_at(node) == Some(true),
        is_absent_at(node, key),
        item.key == Some(key),
    ensures
        given_to_list_at(node, seq![NodeModel::Element(item)]) matches Some(now) && lifted_node(
            now,
            key,
        ) == (Lifted::Kept { rest: node->Element_0, item }),
    decreases node,
{
    let items = seq![NodeModel::Element(item)];
    let element = node->Element_0;
    let children = element.children;
    reveal_strlit("LI");
    reveal_strlit("UL");
    reveal_strlit("OL");
    assert("LI"@[0] != "UL"@[0] && "LI"@[0] != "OL"@[0]);
    assert(with_children(element, children) == element);
    if is_list(element) {
        let n = children.len() as int;
        let now = children + items;
        let fuller = with_children(element, now);
        lemma_absent_no_place(children, key);
        assert(now.drop_last() == children);
        assert(place(now, key) == Some(n));
        assert(now.skip(n + 1) == Seq::<NodeModel>::empty());
        assert(items_among(now.skip(n + 1)).len() == 0);
        assert(now.take(n) + others_among(now.skip(n + 1)) == children);
        assert(lifted(fuller, key) == (Lifted::Kept { rest: element, item }));
        assert(lifted_node(NodeModel::Element(fuller), key) == lifted(fuller, key));
    } else {
        lemma_given_then_lifted(children, item, key);
        let now = given_to_list(children, items)->0;
        let fuller = with_children(element, now);
        lemma_absent_no_place(children, key);
        lemma_given_keeps_keys(children, items, key);
        assert(lifted(fuller, key) == (Lifted::Kept { rest: element, item }));
        assert(lifted_node(NodeModel::Element(fuller), key) == lifted(fuller, key));
    }
}

/// An item that is nested under the one right before it, and is then lifted
/// out again, is where it was, and so is the list it is in. This holds if the
/// item before it has no list, or if the first list that it has holds items:
/// an empty list would go with the item that is lifted out of it.
pub proof fn law_indent_then_outdent(list: ElementModel, key: usize, i: int)
    requires
        is_list(list),
        0 < i < list.children.len(),
        is_known(list.children[i], key),
        is_absent(list.children.take(i), key),
        is_li(list.children[i - 1]),
        first_list_filled(list.children[i - 1]->Element_0.children) != Some(false),
    ensures
        outdented(indented(list, key), key) == list,
{
    let all = list.children;
    let item = all[i]->Element_0;
    let above = all[i - 1]->Element_0;
    lemma_absent_no_place(all.take(i), key);
    assert(all.take(i + 1).drop_last() == all.take(i));
    assert(place(all.take(i + 1), key) == Some(i));
    lemma_place_stays(all, key, i + 1);
    assert(all.take(i).last() == all[i - 1]);
    assert(last_item(all.take(i)) == Some(i - 1));
    let fuller = nested(above, seq![all[i]], list.tag);
    let now = moved_under(all, i - 1, i, list.tag);
    assert(indented(list, key) == with_children(list, now));
    assert(now == all.remove(i).update(i - 1, NodeModel::Element(fuller)));
    // Lifting out of the list that it was given to, or that was made for it.
    assert(all.take(i).drop_last() == all.take(i - 1));
    assert(is_absent_at(all[i - 1], key));
    lemma_nested_then_lifted(above, item, key, list.tag);
    assert(seq![all[i]] == seq![NodeModel::Element(item)]);
    // In place of the item above come that item and this one.
    assert(now.take(i).drop_last() == all.take(i - 1));
    lemma_absent_not_here(all.take(i - 1), key);
    assert(now.take(i).last() == NodeModel::Element(fuller));
    assert(dom::is_called(fuller, "LI"@));
    let back = all.take(i - 1).push(
        NodeModel::Element(with_children(fuller, above.children)),
    ).push(NodeModel::Element(item));
    assert(outdented_here(now.take(i), key) == Some(back));
    lemma_here_stays(now, key, i);
    assert(with_children(fuller, above.children) == above);
    assert(back + now.skip(i) == all);
    assert(outdented_here(now, key) == Some(all));
}

/// What is nested in an item is lifted out of it again, and leaves it as it
/// was.
proof fn lemma_nested_then_lifted(
    above: ElementModel,
    item: ElementModel,
    key: usize,
    tag: Seq<char>,
)
    requires
        is_absent(above.children, key),
        item.key == Some(key),
        first_list_filled(above.children) != Some(false),
        text::uppercased(tag) == "UL"@ || text::uppercased(tag) == "OL"@,
    ensures
        ({
            let fuller = nested(above, seq![NodeModel::Element(item)], tag);
            let out = lifted_nodes(fuller.children, key);
            out is Some && (out->0).0 == above.children && (out->0).1 == item
        }),
{
    let one = seq![NodeModel::Element(item)];
    match first_list_filled(above.children) {
        Some(filled) => {
            assert(filled);
            lemma_given_then_lifted(above.children, item, key);
        },
        None => {
            lemma_no_list(above.children, one);
            let sub = new_list(tag, one);
            let fuller = nested(above, one, tag);
            lemma_absent_not_lifted(above.children, key);
            assert(fuller.children.drop_last() == above.children);
            assert(one.drop_last() == Seq::<NodeModel>::empty());
            assert(place(one.drop_last(), key) is None);
            assert(place(one, key) == Some(0int));
            assert(one.skip(1) == Seq::<NodeModel>::empty());
            assert(items_among(one.skip(1)).len() == 0);
            assert(others_among(one.skip(1)).len() == 0);
            assert(one.take(0) + others_among(one.skip(1)) == Seq::<NodeModel>::empty());
            assert(!holds_items(Seq::empty()));
            assert(lifted(sub, key) == (Lifted::Emptied { item }));
            reveal_strlit("LI");
            reveal_strlit("UL");
            reveal_strlit("OL");
            assert("LI"@[0] != "UL"@[0] && "LI"@[0] != "OL"@[0]);
            assert(lifted_node(NodeModel::Element(sub), key) == lifted(sub, key));
            assert(lifted_nodes(fuller.children, key) == Some((above.children, item, true)));
        },
    }
}

// ---------------------------------------------------------------------
// Where everything goes
// ---------------------------------------------------------------------

proof fn lemma_unlisted(nodes: Seq<NodeModel>, items: Seq<NodeModel>)
    requires
        dom::named(nodes, "UL"@, "OL"@).len() == 0,
    ensures
        given_to_list(nodes, items) is None,
    decreases nodes,
{
    if nodes.len() > 0 {
        let all = dom::named(nodes, "UL"@, "OL"@);
        assert(all == dom::named(nodes.drop_last(), "UL"@, "OL"@) + dom::named_at(
            nodes.last(),
            "UL"@,
            "OL"@,
        ));
        lemma_unlisted(nodes.drop_last(), items);
        lemma_unlisted_at(nodes.last(), items);
    }
}

proof fn lemma_unlisted_at(node: NodeModel, items: Seq<NodeModel>)
    requires
        dom::named_at(node, "UL"@, "OL"@).len() == 0,
    ensures
        given_to_list_at(node, items) is None,
    decreases node,
{
    if let NodeModel::Element(element) = node {
        lemma_unlisted(element.children, items);
    }
}

/// Items are nested in an item at the end of the list that it has, or in a new
/// list at its end if it has none; the item is the same otherwise.
pub proof fn law_nested_at_the_end(
    item: ElementModel,
    items: Seq<NodeModel>,
    tag: Seq<char>,
    before: Seq<NodeModel>,
    list: ElementModel,
    after: Seq<NodeModel>,
)
    requires
        text::uppercased(list.tag) == "UL"@ || text::uppercased(list.tag) == "OL"@,
        dom::named(before, "UL"@, "OL"@).len() == 0,
    ensures
        ({
            let made = nested(item, items, tag);
            &&& made.key == item.key && made.tag == item.tag && made.classes == item.classes
                && made.line == item.line && made.href == item.href
            &&& dom::named(item.children, "UL"@, "OL"@).len() == 0 ==> {
                &&& made.children.len() == item.children.len() + 1
                &&& made.children.drop_last() == item.children
                &&& made.children.last() is Element
                &&& made.children.last()->Element_0.tag == tag
                &&& made.children.last()->Element_0.children == items
                &&& made.children.last()->Element_0.key is None
            }
            &&& item.children == before.push(NodeModel::Element(list)) + after ==> made.children
                == before.push(
                NodeModel::Element(
                    ElementModel {
                        key: list.key,
                        tag: list.tag,
                        classes: list.classes,
                        line: list.line,
                        href: list.href,
                        children: list.children + items,
                    },
                ),
            ) + after
        }),
{
    let made = nested(item, items, tag);
    if dom::named(item.children, "UL"@, "OL"@).len() == 0 {
        lemma_unlisted(item.children, items);
        assert(made.children.drop_last() == item.children);
    }
    let node = NodeModel::Element(list);
    if item.children == before.push(node) + after {
        let fuller = NodeModel::Element(with_children(list, list.children + items));
        lemma_unlisted(before, items);
        assert(before.push(node).drop_last() == before);
        assert(before.push(node).last() == node);
        assert(is_list(list));
        assert(given_to_list_at(node, items) == Some(fuller));
        assert(given_to_list(before.push(node), items) == Some(before.push(fuller)));
        lemma_given_stays(before.push(node), after, items);
    }
}

proof fn lemma_given_stays(nodes: Seq<NodeModel>, after: Seq<NodeModel>, items: Seq<NodeModel>)
    requires
        given_to_list(nodes, items) is Some,
    ensures
        given_to_list(nodes + after, items) == Some(given_to_list(nodes, items)->0 + after),
    decreases after.len(),
{
    let now = given_to_list(nodes, items)->0;
    if after.len() == 0 {
        assert(nodes + after == nodes);
        assert(now + after == now);
    } else {
        lemma_given_stays(nodes, after.drop_last(), items);
        assert((nodes + after).drop_last() == nodes + after.drop_last());
        assert((nodes + after).last() == after.last());
        assert((now + after.drop_last()).push(after.last()) == now + after);
    }
}

proof fn lemma_place_is(nodes: Seq<NodeModel>, key: usize, i: int)
    requires
        0 <= i < nodes.len(),
        is_known(nodes[i], key),
        forall|k: int| 0 <= k < i ==> !is_known(#[trigger] nodes[k], key),
    ensures
        place(nodes, key) == Some(i),
    decreases nodes.len(),
{
    let less = nodes.drop_last();
    if i < less.len() {
        assert(less[i] == nodes[i]);
        assert forall|k: int| 0 <= k < i implies !is_known(#[trigger] less[k], key) by {
            assert(less[k] == nodes[k]);
        }
        lemma_place_is(less, key, i);
    } else {
        lemma_no_place(less, key);
    }
}

proof fn lemma_no_place(nodes: Seq<NodeModel>, key: usize)
    requires
        forall|k: int| 0 <= k < nodes.len() ==> !is_known(#[trigger] nodes[k], key),
    ensures
        place(nodes, key) is None,
    decreases nodes.len(),
{
    if nodes.len() > 0 {
        let less = nodes.drop_last();
        assert forall|k: int| 0 <= k < less.len() implies !is_known(#[trigger] less[k], key) by {
            assert(less[k] == nodes[k]);
        }
        lemma_no_place(less, key);
        assert(!is_known(nodes[nodes.len() - 1], key));
    }
}

proof fn lemma_last_item_is(nodes: Seq<NodeModel>, p: int)
    requires
        0 <= p < nodes.len(),
        is_li(nodes[p]),
        forall|k: int| p < k < nodes.len() ==> !is_li(#[trigger] nodes[k]),
    ensures
        last_item(nodes) == Some(p),
    decreases nodes.len(),
{
    if p < nodes.len() - 1 {
        let less = nodes.drop_last();
        assert(!is_li(nodes[nodes.len() - 1]));
        assert(less[p] == nodes[p]);
        assert forall|k: int| p < k < less.len() implies !is_li(#[trigger] less[k]) by {
            assert(less[k] == nodes[k]);
        }
        lemma_last_item_is(less, p);
    }
}

proof fn lemma_no_last_item(nodes: Seq<NodeModel>)
    requires
        forall|k: int| 0 <= k < nodes.len() ==> !is_li(#[trigger] nodes[k]),
    ensures
        last_item(nodes) is None,
    decreases nodes.len(),
{
    if nodes.len() > 0 {
        let less = nodes.drop_last();
        assert(!is_li(nodes[nodes.len() - 1]));
        assert forall|k: int| 0 <= k < less.len() implies !is_li(#[trigger] less[k]) by {
            assert(less[k] == nodes[k]);
        }
        lemma_no_last_item(less);
    }
}

/// An item that is indented leaves its place and is nested in the last item
/// before it; everything else stays in order. The first item of a list stays
/// where it is.
pub proof fn law_indented_under_the_item_before(list: ElementModel, key: usize, p: int, i: int, k: int)
    requires
        0 <= i < list.children.len(),
        is_known(list.children[i], key),
        forall|m: int| 0 <= m < i ==> !is_known(#[trigger] list.children[m], key),
    ensures
        0 <= p < i && is_li(list.children[p]) && (forall|m: int|
            p < m < i ==> !is_li(#[trigger] list.children[m])) ==> {
            let old = list.children;
            let now = indented(list, key).children;
            &&& now.len() == old.len() - 1
            &&& 0 <= k < i && k != p ==> now[k] == old[k]
            &&& i < k < old.len() ==> now[k - 1] == old[k]
            &&& now[p] == NodeModel::Element(
                nested(old[p]->Element_0, seq![old[i]], list.tag),
            )
        },
        (forall|m: int| 0 <= m < i ==> !is_li(#[trigger] list.children[m])) ==> indented(list, key)
            == list,
        indented(list, key).key == list.key,
        indented(list, key).tag == list.tag,
{
    let old = list.children;
    lemma_place_is(old, key, i);
    if 0 <= p < i && is_li(old[p]) && (forall|m: int|
        p < m < i ==> !is_li(#[trigger] old[m])) {
        let front = old.take(i);
        assert(front[p] == old[p]);
        assert forall|m: int| p < m < front.len() implies !is_li(#[trigger] front[m]) by {
            assert(front[m] == old[m]);
        }
        lemma_last_item_is(front, p);
    }
    if forall|m: int| 0 <= m < i ==> !is_li(#[trigger] old[m]) {
        let front = old.take(i);
        assert forall|m: int| 0 <= m < front.len() implies !is_li(#[trigger] front[m]) by {
            assert(front[m] == old[m]);
        }
        lemma_no_last_item(front);
    }
}

/// An item that is not in a list itself is looked for in what the list holds,
/// and nothing else changes: neither how many nodes there are, nor any text.
pub proof fn law_indented_further_down(list: ElementModel, key: usize, k: int)
    requires
        forall|m: int| 0 <= m < list.children.len() ==> !is_known(#[trigger] list.children[m], key),
    ensures
        indented(list, key).children.len() == list.children.len(),
        0 <= k < list.children.len() ==> match list.children[k] {
            NodeModel::Element(inner) => indented(list, key).children[k] == NodeModel::Element(
                indented(inner, key),
            ),
            other => indented(list, key).children[k] == other,
        },
        indented(list, key).key == list.key,
        indented(list, key).tag == list.tag,
{
    lemma_no_place(list.children, key);
    lemma_indented_nodes(list.children, key, k);
}

proof fn lemma_indented_nodes(nodes: Seq<NodeModel>, key: usize, k: int)
    ensures
        indented_nodes(nodes, key).len() == nodes.len(),
        0 <= k < nodes.len() ==> indented_nodes(nodes, key)[k] == indented_node(nodes[k], key),
    decreases nodes.len(),
{
    if nodes.len() > 0 {
        lemma_indented_nodes(nodes.drop_last(), key, k);
    }
}

/// Of what follows an item, the items are kept apart from the rest, each in
/// order.
pub proof fn law_followers_in_order(nodes: Seq<NodeModel>, node: NodeModel)
    ensures
        is_li(node) ==> items_among(nodes.push(node)) == items_among(nodes).push(node)
            && others_among(nodes.push(node)) == others_among(nodes),
        !is_li(node) ==> items_among(nodes.push(node)) == items_among(nodes)
            && others_among(nodes.push(node)) == others_among(nodes).push(node),
        items_among(nodes).len() + others_among(nodes).len() == nodes.len(),
    decreases nodes.len(),
{
    assert(nodes.push(node).drop_last() == nodes);
    if nodes.len() > 0 {
        law_followers_in_order(nodes.drop_last(), nodes.last());
        assert(nodes.drop_last().push(nodes.last()) == nodes);
    }
}

proof fn lemma_lifted_stays(nodes: Seq<NodeModel>, after: Seq<NodeModel>, key: usize)
    requires
        lifted_nodes(nodes, key) is Some,
    ensures
        ({
            let (now, item, emptied) = lifted_nodes(nodes, key)->0;
            lifted_nodes(nodes + after, key) == Some((now + after, item, emptied))
        }),
    decreases after.len(),
{
    let (now, item, emptied) = lifted_nodes(nodes, key)->0;
    if after.len() == 0 {
        assert(nodes + after == nodes);
        assert(now + after == now);
    } else {
        lemma_lifted_stays(nodes, after.drop_last(), key);
        assert((nodes + after).drop_last() == nodes + after.drop_last());
        assert((nodes + after).last() == after.last());
        assert((now + after.drop_last()).push(after.last()) == now + after);
    }
}

/// An item that is lifted out of a list comes right after the item that the list
/// is in. The items that followed it follow it down, nested in it; the others
/// stay in the list, which goes if no item is left in it.
pub proof fn law_outdented_after_the_item_around(
    list: ElementModel,
    key: usize,
    j: int,
    before: Seq<NodeModel>,
    sub: ElementModel,
    after: Seq<NodeModel>,
    i: int,
)
    requires
        0 <= j < list.children.len(),
        is_li(list.children[j]),
        is_absent(list.children.take(j), key),
        list.children[j]->Element_0.children == before.push(NodeModel::Element(sub)) + after,
        is_absent(before, key),
        text::uppercased(sub.tag) == "UL"@ || text::uppercased(sub.tag) == "OL"@,
        0 <= i < sub.children.len(),
        is_known(sub.children[i], key),
        forall|m: int| 0 <= m < i ==> !is_known(#[trigger] sub.children[m], key),
    ensures
        ({
            let old = list.children;
            let now = outdented(list, key).children;
            let outer = old[j]->Element_0;
            let item = sub.children[i]->Element_0;
            let followers = items_among(sub.children.skip(i + 1));
            let left = sub.children.take(i) + others_among(sub.children.skip(i + 1));
            &&& now.len() == old.len() + 1
            &&& now.take(j) == old.take(j)
            &&& now.skip(j + 2) == old.skip(j + 1)
            &&& now[j] is Element && now[j]->Element_0.key == outer.key && now[j]->Element_0.tag
                == outer.tag
            &&& dom::named(left, "LI"@, "LI"@).len() > 0 ==> now[j]->Element_0.children
                == before.push(NodeModel::Element(with_children(sub, left))) + after
            &&& dom::named(left, "LI"@, "LI"@).len() == 0 ==> now[j]->Element_0.children == before
                + after
            &&& followers.len() == 0 ==> now[j + 1] == NodeModel::Element(item)
            &&& followers.len() > 0 ==> now[j + 1] == NodeModel::Element(
                nested(item, followers, sub.tag),
            )
        }),
{
    let old = list.children;
    let outer = old[j]->Element_0;
    let node = NodeModel::Element(sub);
    let followers = items_among(sub.children.skip(i + 1));
    let left = sub.children.take(i) + others_among(sub.children.skip(i + 1));
    let item = item_with_followers(sub.children, i, sub.tag);
    reveal_strlit("LI");
    reveal_strlit("UL");
    reveal_strlit("OL");
    assert("LI"@[0] != "UL"@[0] && "LI"@[0] != "OL"@[0]);
    lemma_place_is(sub.children, key, i);
    lemma_absent_not_lifted(before, key);
    assert(before.push(node).drop_last() == before);
    assert(before.push(node).last() == node);
    assert(lifted_node(node, key) == lifted(sub, key));
    let here = if holds_items(left) {
        before.push(NodeModel::Element(with_children(sub, left)))
    } else {
        before
    };
    let emptied = !holds_items(left);
    assert(lifted_nodes(before.push(node), key) == Some((here, item, emptied)));
    lemma_lifted_stays(before.push(node), after, key);
    assert(lifted_nodes(outer.children, key) == Some((here + after, item, emptied)));
    lemma_absent_not_here(old.take(j), key);
    assert(old.take(j + 1).drop_last() == old.take(j));
    assert(old.take(j + 1).last() == old[j]);
    let made = old.take(j).push(NodeModel::Element(with_children(outer, here + after))).push(
        NodeModel::Element(item),
    );
    assert(outdented_here(old.take(j + 1), key) == Some(made));
    lemma_here_stays(old, key, j + 1);
    let now = outdented(list, key).children;
    assert(now == made + old.skip(j + 1));
    assert(now.take(j) == old.take(j));
    assert(now.skip(j + 2) == old.skip(j + 1));
}

} // verus!
