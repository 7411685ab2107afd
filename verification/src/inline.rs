//! Turning rendered inline content back into AsciiDoc.
//!
//! The rich-text surface lets the browser edit rendered content directly, so
//! an edited block has to be written back as AsciiDoc. The rendering is first
//! read into this small tree; the tree is what is written out, and it is also
//! what tells whether a block can be edited at all.
use vstd::prelude::*;

use crate::dom;
use crate::dom::{Element, Node};
use crate::text;
use crate::text::{equal, uppercase};

verus! {

/// An inline construct the rich-text surface understands.
///
/// Anything absent from this list (footnotes, images, attribute references,
/// character substitutions) is why a block may be refused for editing: what
/// cannot be represented here cannot be written back faithfully.
#[derive(Debug, PartialEq)]
pub enum Inline {
    Text(String),
    Strong(Vec<Inline>),
    Emphasis(Vec<Inline>),
    Code(Vec<Inline>),
    Link { href: String, children: Vec<Inline> },
    LineBreak,
}

/// An inline construct, as far as its meaning goes.
pub enum Span {
    Text(Seq<char>),
    Strong(Seq<Span>),
    Emphasis(Seq<Span>),
    Code(Seq<Span>),
    Link { href: Seq<char>, children: Seq<Span> },
    LineBreak,
}

/// What an inline construct stands for.
pub open spec fn span_of(node: Inline) -> Span
    decreases node,
{
    match node {
        Inline::Text(text) => Span::Text(text@),
        Inline::Strong(children) => Span::Strong(spans(children@)),
        Inline::Emphasis(children) => Span::Emphasis(spans(children@)),
        Inline::Code(children) => Span::Code(spans(children@)),
        Inline::Link { href, children } => Span::Link { href: href@, children: spans(children@) },
        Inline::LineBreak => Span::LineBreak,
    }
}

/// What a tree stands for.
pub open spec fn spans(nodes: Seq<Inline>) -> Seq<Span>
    decreases nodes,
{
    if nodes.len() == 0 {
        Seq::empty()
    } else {
        spans(nodes.drop_last()).push(span_of(nodes.last()))
    }
}

/// Formatted content between its markers. Empty formatting is dropped
/// outright: an empty `**` would be literal text rather than emphasis.
pub open spec fn wrapped(marker: char, content: Seq<char>) -> Seq<char> {
    if content.len() == 0 {
        content
    } else {
        seq![marker] + content + seq![marker]
    }
}

/// A link to `href` that reads `label`. A bare URL renders as itself; only a
/// differing label needs the macro's bracket form.
pub open spec fn linked(href: Seq<char>, label: Seq<char>) -> Seq<char> {
    if label.len() == 0 || label == href {
        href
    } else {
        href + seq!['['] + label + seq![']']
    }
}

/// One construct as AsciiDoc.
pub open spec fn written_one(node: Span) -> Seq<char>
    decreases node,
{
    match node {
        Span::Text(text) => text,
        Span::Strong(children) => wrapped('*', written(children)),
        Span::Emphasis(children) => wrapped('_', written(children)),
        Span::Code(children) => wrapped('`', written(children)),
        Span::Link { href, children } => linked(href, written(children)),
        Span::LineBreak => seq!['\n'],
    }
}

/// A tree as AsciiDoc: its constructs one after another.
pub open spec fn written(nodes: Seq<Span>) -> Seq<char>
    decreases nodes,
{
    if nodes.len() == 0 {
        Seq::empty()
    } else {
        written(nodes.drop_last()) + written_one(nodes.last())
    }
}

/// Writes a tree back out as AsciiDoc.
pub fn to_asciidoc(nodes: &[Inline]) -> (r: String)
    ensures
        r@ == written(spans(nodes@)),
    decreases nodes@, 0int,
{
    let mut out = String::new();
    let mut i: usize = 0;
    while i < nodes.len()
        invariant
            i <= nodes@.len(),
            out@ == written(spans(nodes@.take(i as int))),
        decreases nodes.len() - i,
    {
        let node = &nodes[i];
        let ghost before = out@;
        proof {
            assert(nodes@.take(i + 1).drop_last() == nodes@.take(i as int));
            assert(nodes@.take(i + 1).last() == node);
            let all = spans(nodes@.take(i + 1));
            assert(all.drop_last() == spans(nodes@.take(i as int)));
            assert(all.last() == span_of(*node));
            assert(decreases_to!(nodes@ => nodes@[i as int]));
        }
        match node {
            Inline::Text(text) => out.append(text),
            Inline::Strong(children) => wrap(&mut out, '*', children),
            Inline::Emphasis(children) => wrap(&mut out, '_', children),
            Inline::Code(children) => wrap(&mut out, '`', children),
            Inline::LineBreak => {
                proof {
                    assert(out@.push('\n') == out@ + seq!['\n']);
                }
                out.push('\n');
            },
            Inline::Link { href, children } => {
                let label = to_asciidoc(children);
                out.append(href);
                if !label.as_str().is_empty() && !equal(&label, href) {
                    out.push('[');
                    out.append(&label);
                    out.push(']');
                }
                assert(out@ == before + linked(href@, label@));
            },
        }
        assert(out@ == before + written_one(span_of(*node)));
        i += 1;
    }
    assert(nodes@.take(i as int) == nodes@);
    out
}

/// Writes formatted content between its markers.
fn wrap(out: &mut String, marker: char, children: &[Inline])
    ensures
        final(out)@ == old(out)@ + wrapped(marker, written(spans(children@))),
    decreases children@, 1int,
{
    let ghost before = out@;
    let content = to_asciidoc(children);
    if content.as_str().is_empty() {
        assert(out@ == before + wrapped(marker, written(spans(children@))));
        return;
    }
    out.push(marker);
    out.append(&content);
    out.push(marker);
    assert(out@ == before + wrapped(marker, written(spans(children@))));
}

/// What a tree stands for, with one construct more.
proof fn lemma_spans_push(nodes: Seq<Inline>, node: Inline)
    ensures
        spans(nodes.push(node)) == spans(nodes) + seq![span_of(node)],
{
    assert(nodes.push(node).drop_last() == nodes);
    assert(spans(nodes.push(node)) == spans(nodes).push(span_of(node)));
}

/// What two trees stand for, one after the other.
proof fn lemma_spans_in_order(a: Seq<Inline>, b: Seq<Inline>)
    ensures
        spans(a + b) == spans(a) + spans(b),
    decreases b.len(),
{
    if b.len() == 0 {
        assert(a + b == a);
        assert(spans(a) + spans(b) == spans(a));
    } else {
        lemma_spans_in_order(a, b.drop_last());
        assert((a + b).drop_last() == a + b.drop_last());
        assert((a + b).last() == b.last());
        assert(spans(a + b) == spans(a) + spans(b));
    }
}

/// What an element of the rendering reads as, given what is in it. Unknown
/// wrappers contribute their content but not themselves, so a stray `span`
/// cannot break a round trip.
pub open spec fn element_read(tag: Seq<char>, href: Option<Seq<char>>, children: Seq<Span>) -> Seq<
    Span,
> {
    let name = text::uppercased(tag);
    if name == "STRONG"@ || name == "B"@ {
        seq![Span::Strong(children)]
    } else if name == "EM"@ || name == "I"@ {
        seq![Span::Emphasis(children)]
    } else if name == "CODE"@ {
        seq![Span::Code(children)]
    } else if name == "BR"@ {
        seq![Span::LineBreak]
    } else if name == "A"@ {
        seq![
            Span::Link {
                href: match href {
                    Some(target) => target,
                    None => Seq::empty(),
                },
                children,
            },
        ]
    } else {
        children
    }
}

/// What a node of the rendering reads as.
pub open spec fn node_read(node: dom::NodeModel) -> Seq<Span>
    decreases node,
{
    match node {
        dom::NodeModel::Text(text) => seq![Span::Text(text)],
        dom::NodeModel::Element(element) => element_read(
            element.tag,
            element.href,
            nodes_read(element.children),
        ),
        dom::NodeModel::Other => Seq::empty(),
    }
}

/// What a run of nodes of the rendering reads as.
pub open spec fn nodes_read(nodes: Seq<dom::NodeModel>) -> Seq<Span>
    decreases nodes,
{
    if nodes.len() == 0 {
        Seq::empty()
    } else {
        nodes_read(nodes.drop_last()) + node_read(nodes.last())
    }
}

/// Reads the inline content of a rendered element.
pub fn from_node(element: &Element) -> (r: Vec<Inline>)
    ensures
        spans(r@) == nodes_read(dom::element_model(*element).children),
{
    from_nodes(&element.children)
}

/// Reads a run of rendered nodes.
pub fn from_nodes(nodes: &[Node]) -> (r: Vec<Inline>)
    ensures
        spans(r@) == nodes_read(dom::nodes_model(nodes@)),
    decreases nodes@, 0int,
{
    let mut out: Vec<Inline> = Vec::new();
    let mut i: usize = 0;
    while i < nodes.len()
        invariant
            i <= nodes@.len(),
            spans(out@) == nodes_read(dom::nodes_model(nodes@.take(i as int))),
        decreases nodes.len() - i,
    {
        proof {
            assert(nodes@.take(i + 1).drop_last() == nodes@.take(i as int));
            let all = dom::nodes_model(nodes@.take(i + 1));
            assert(all.drop_last() == dom::nodes_model(nodes@.take(i as int)));
            assert(all.last() == dom::node_model(nodes@[i as int]));
            assert(decreases_to!(nodes@ => nodes@[i as int]));
        }
        collect(&nodes[i], &mut out);
        i += 1;
    }
    assert(nodes@.take(i as int) == nodes@);
    out
}

/// Reads a rendered node at the end of `out`.
pub fn collect(node: &Node, out: &mut Vec<Inline>)
    ensures
        spans(final(out)@) == spans(old(out)@) + node_read(dom::node_model(*node)),
    decreases node, 1int,
{
    let ghost before = out@;
    match node {
        Node::Text(text) => {
            out.push(Inline::Text(text.clone()));
            proof {
                lemma_spans_push(before, out@.last());
                assert(span_of(out@.last()) == Span::Text(text@));
            }
        },
        Node::Element(element) => {
            let children = from_nodes(&element.children);
            let name = uppercase(&element.tag);
            let ghost inner = spans(children@);
            if equal(&name, "STRONG") || equal(&name, "B") {
                // The browser emits `b` and `i`; the renderer `strong` and `em`.
                out.push(Inline::Strong(children));
                proof {
                    lemma_spans_push(before, out@.last());
                    assert(span_of(out@.last()) == Span::Strong(inner));
                }
            } else if equal(&name, "EM") || equal(&name, "I") {
                out.push(Inline::Emphasis(children));
                proof {
                    lemma_spans_push(before, out@.last());
                    assert(span_of(out@.last()) == Span::Emphasis(inner));
                }
            } else if equal(&name, "CODE") {
                out.push(Inline::Code(children));
                proof {
                    lemma_spans_push(before, out@.last());
                    assert(span_of(out@.last()) == Span::Code(inner));
                }
            } else if equal(&name, "BR") {
                out.push(Inline::LineBreak);
                proof {
                    lemma_spans_push(before, out@.last());
                    assert(span_of(out@.last()) == Span::LineBreak);
                }
            } else if equal(&name, "A") {
                let href = match &element.href {
                    Some(target) => target.clone(),
                    None => String::new(),
                };
                let ghost target = href@;
                out.push(Inline::Link { href, children });
                proof {
                    lemma_spans_push(before, out@.last());
                    assert(span_of(out@.last()) == (Span::Link { href: target, children: inner }));
                }
            } else {
                let mut children = children;
                let ghost added = children@;
                out.append(&mut children);
                proof {
                    lemma_spans_in_order(before, added);
                    assert(out@ == before + added);
                }
            }
        },
        Node::Other => {
            assert(spans(before) + Seq::<Span>::empty() == spans(before));
        },
    }
}

/// Two runs of nodes, one after the other, read as what each of them does.
pub proof fn lemma_read_in_order(a: Seq<dom::NodeModel>, b: Seq<dom::NodeModel>)
    ensures
        nodes_read(a + b) == nodes_read(a) + nodes_read(b),
    decreases b.len(),
{
    if b.len() == 0 {
        assert(a + b == a);
        assert(nodes_read(a) + nodes_read(b) == nodes_read(a));
    } else {
        lemma_read_in_order(a, b.drop_last());
        assert((a + b).drop_last() == a + b.drop_last());
        assert((a + b).last() == b.last());
        assert(nodes_read(a + b) == nodes_read(a) + nodes_read(b));
    }
}

/// Writing two trees one after the other is writing them as one.
pub proof fn law_written_in_order(a: Seq<Span>, b: Seq<Span>)
    ensures
        written(a + b) == written(a) + written(b),
    decreases b.len(),
{
    if b.len() == 0 {
        assert(a + b == a);
        assert(written(a) + written(b) == written(a));
    } else {
        law_written_in_order(a, b.drop_last());
        assert((a + b).drop_last() == a + b.drop_last());
        assert((a + b).last() == b.last());
        assert(written(a + b) == written(a) + written(b));
    }
}

/// One construct, written by itself.
proof fn lemma_written_alone(node: Span)
    ensures
        written(seq![node]) == written_one(node),
{
    assert(seq![node].drop_last() == Seq::<Span>::empty());
    assert(written(Seq::empty()) == Seq::<char>::empty());
    assert(written(seq![node]) == written(seq![node].drop_last()) + written_one(node));
    assert(Seq::<char>::empty() + written_one(node) == written_one(node));
}

/// A link that says something of its own is written as a macro that both its
/// target and its label are read back from, whatever they are: the target is
/// what stands before the bracket, the label what stands between the brackets.
/// A link that says its target, or nothing, is the bare target.
pub proof fn law_link_read_back(href: Seq<char>, children: Seq<Span>)
    ensures
        ({
            let label = written(children);
            let made = written(seq![Span::Link { href, children }]);
            let n = href.len() as int;
            if label.len() > 0 && label != href {
                &&& made.len() == n + label.len() + 2
                &&& made.take(n) == href
                &&& made[n] == '['
                &&& made.subrange(n + 1, made.len() - 1) == label
                &&& made[made.len() - 1] == ']'
            } else {
                made == href
            }
        }),
{
    let label = written(children);
    let made = written(seq![Span::Link { href, children }]);
    lemma_written_alone(Span::Link { href, children });
    if label.len() > 0 && label != href {
        assert(made.take(href.len() as int) == href);
        assert(made.subrange(href.len() as int + 1, made.len() - 1) == label);
    }
}

/// Formatted content stands between two of its markers, whatever it is; where
/// there is no content there are no markers. Text stands for itself, and a line
/// break for a line feed.
pub proof fn law_formatting_read_back(children: Seq<Span>, text: Seq<char>)
    ensures
        ({
            let inner = written(children);
            let strong = written(seq![Span::Strong(children)]);
            let emphasis = written(seq![Span::Emphasis(children)]);
            let code = written(seq![Span::Code(children)]);
            if inner.len() == 0 {
                strong.len() == 0 && emphasis.len() == 0 && code.len() == 0
            } else {
                &&& is_between('*', inner, strong)
                &&& is_between('_', inner, emphasis)
                &&& is_between('`', inner, code)
            }
        }),
        written(seq![Span::Text(text)]) == text,
        written(seq![Span::LineBreak]) == seq!['\n'],
        written(Seq::empty()).len() == 0,
{
    let inner = written(children);
    lemma_written_alone(Span::Strong(children));
    lemma_written_alone(Span::Emphasis(children));
    lemma_written_alone(Span::Code(children));
    lemma_written_alone(Span::Text(text));
    lemma_written_alone(Span::LineBreak);
    if inner.len() > 0 {
        assert(written(seq![Span::Strong(children)]).subrange(1, inner.len() as int + 1) == inner);
        assert(written(seq![Span::Emphasis(children)]).subrange(1, inner.len() as int + 1)
            == inner);
        assert(written(seq![Span::Code(children)]).subrange(1, inner.len() as int + 1) == inner);
    }
}

/// Whether `made` is `inner` with a `marker` before it and one after it.
pub open spec fn is_between(marker: char, inner: Seq<char>, made: Seq<char>) -> bool {
    &&& made.len() == inner.len() + 2
    &&& made[0] == marker
    &&& made.subrange(1, inner.len() as int + 1) == inner
    &&& made[inner.len() as int + 1] == marker
}

/// What a construct is rendered as: by the browser, which has names of its own
/// for some of them, or by the renderer.
pub open spec fn rendered(span: Span, browser: bool) -> dom::NodeModel
    decreases span,
{
    match span {
        Span::Text(text) => dom::NodeModel::Text(text),
        Span::Strong(children) => element_of(
            if browser {
                "b"@
            } else {
                "strong"@
            },
            None,
            rendered_all(children, browser),
        ),
        Span::Emphasis(children) => element_of(
            if browser {
                "i"@
            } else {
                "em"@
            },
            None,
            rendered_all(children, browser),
        ),
        Span::Code(children) => element_of("code"@, None, rendered_all(children, browser)),
        Span::Link { href, children } => element_of(
            "a"@,
            Some(href),
            rendered_all(children, browser),
        ),
        Span::LineBreak => element_of("br"@, None, Seq::empty()),
    }
}

/// What constructs are rendered as, one after another.
pub open spec fn rendered_all(spans: Seq<Span>, browser: bool) -> Seq<dom::NodeModel>
    decreases spans,
{
    if spans.len() == 0 {
        Seq::empty()
    } else {
        rendered_all(spans.drop_last(), browser).push(rendered(spans.last(), browser))
    }
}

/// An element called `tag`.
pub open spec fn element_of(
    tag: Seq<char>,
    href: Option<Seq<char>>,
    children: Seq<dom::NodeModel>,
) -> dom::NodeModel {
    dom::NodeModel::Element(
        dom::ElementModel { key: None, tag, classes: Seq::empty(), line: None, href, children },
    )
}

/// A tree that is rendered is read back from its rendering, whatever is in it.
pub proof fn law_rendering_read_back(spans: Seq<Span>, browser: bool)
    ensures
        nodes_read(rendered_all(spans, browser)) == spans,
    decreases spans,
{
    if spans.len() > 0 {
        let all = rendered_all(spans, browser);
        law_rendering_read_back(spans.drop_last(), browser);
        lemma_rendered_one(spans.last(), browser);
        assert(all.drop_last() == rendered_all(spans.drop_last(), browser));
        assert(all.last() == rendered(spans.last(), browser));
        assert(spans.drop_last() + seq![spans.last()] == spans);
    }
}

pub proof fn lemma_rendered_one(span: Span, browser: bool)
    ensures
        node_read(rendered(span, browser)) == seq![span],
    decreases span,
{
    lemma_names();
    match span {
        Span::Strong(children) => law_rendering_read_back(children, browser),
        Span::Emphasis(children) => law_rendering_read_back(children, browser),
        Span::Code(children) => law_rendering_read_back(children, browser),
        Span::Link { href, children } => law_rendering_read_back(children, browser),
        _ => {},
    }
}

/// The names of elements in upper case.
pub proof fn lemma_names()
    ensures
        text::uppercased("b"@) == "B"@,
        text::uppercased("strong"@) == "STRONG"@,
        text::uppercased("i"@) == "I"@,
        text::uppercased("em"@) == "EM"@,
        text::uppercased("code"@) == "CODE"@,
        text::uppercased("br"@) == "BR"@,
        text::uppercased("a"@) == "A"@,
        "EM"@ != "STRONG"@ && "EM"@ != "B"@,
        "I"@ != "STRONG"@ && "I"@ != "B"@,
        "CODE"@ != "STRONG"@ && "CODE"@ != "B"@ && "CODE"@ != "EM"@ && "CODE"@ != "I"@,
        "BR"@ != "STRONG"@ && "BR"@ != "B"@ && "BR"@ != "EM"@ && "BR"@ != "I"@ && "BR"@ != "CODE"@,
        "A"@ != "STRONG"@ && "A"@ != "B"@ && "A"@ != "EM"@ && "A"@ != "I"@ && "A"@ != "CODE"@ && "A"@ != "BR"@,
{
    reveal_strlit("b");
    reveal_strlit("B");
    reveal_strlit("strong");
    reveal_strlit("STRONG");
    reveal_strlit("i");
    reveal_strlit("I");
    reveal_strlit("em");
    reveal_strlit("EM");
    reveal_strlit("code");
    reveal_strlit("CODE");
    reveal_strlit("br");
    reveal_strlit("BR");
    reveal_strlit("a");
    reveal_strlit("A");
    assert("STRONG"@.len() == 6 && "CODE"@.len() == 4 && "EM"@.len() == 2 && "BR"@.len() == 2);
    assert("EM"@[0] == 'E' && "BR"@[0] == 'B' && "B"@[0] == 'B' && "I"@[0] == 'I' && "A"@[0]
        == 'A');
    assert(text::uppercased("b"@) =~= "B"@);
    assert(text::uppercased("strong"@) =~= "STRONG"@);
    assert(text::uppercased("i"@) =~= "I"@);
    assert(text::uppercased("em"@) =~= "EM"@);
    assert(text::uppercased("code"@) =~= "CODE"@);
    assert(text::uppercased("br"@) =~= "BR"@);
    assert(text::uppercased("a"@) =~= "A"@);
}

/// A wrapper of another name is seen through: what is in it is read as if it
/// stood there by itself.
pub proof fn law_unknown_wrappers_are_seen_through(
    before: Seq<dom::NodeModel>,
    wrapper: dom::ElementModel,
    after: Seq<dom::NodeModel>,
)
    requires
        ({
            let name = text::uppercased(wrapper.tag);
            &&& name != "STRONG"@ && name != "B"@ && name != "EM"@ && name != "I"@
            &&& name != "CODE"@ && name != "BR"@ && name != "A"@
        }),
    ensures
        nodes_read(before.push(dom::NodeModel::Element(wrapper)) + after) == nodes_read(
            before + wrapper.children + after,
        ),
{
    let node = dom::NodeModel::Element(wrapper);
    lemma_read_in_order(before.push(node), after);
    lemma_read_in_order(before + wrapper.children, after);
    lemma_read_in_order(before, wrapper.children);
    assert(before.push(node).drop_last() == before);
    assert(node_read(node) == nodes_read(wrapper.children));
    assert(nodes_read(before.push(node)) == nodes_read(before) + node_read(node));
}

/// An element is read by its name alone, in either case: whatever it is known
/// by, classed as or marked with. A link without a target points at nothing.
pub proof fn law_constructs_by_name(before: Seq<dom::NodeModel>, element: dom::ElementModel)
    ensures
        ({
            let name = text::uppercased(element.tag);
            let inner = nodes_read(element.children);
            let read = nodes_read(before.push(dom::NodeModel::Element(element)));
            let old = nodes_read(before);
            &&& name == "STRONG"@ || name == "B"@ ==> read == old.push(Span::Strong(inner))
            &&& name == "EM"@ || name == "I"@ ==> read == old.push(Span::Emphasis(inner))
            &&& name == "CODE"@ ==> read == old.push(Span::Code(inner))
            &&& name == "BR"@ ==> read == old.push(Span::LineBreak)
            &&& name == "A"@ && element.href is Some ==> read == old.push(
                Span::Link { href: element.href->0, children: inner },
            )
            &&& name == "A"@ && element.href is None ==> read == old.push(
                Span::Link { href: Seq::empty(), children: inner },
            )
        }),
        forall|s: Seq<char>| #[trigger]
            nodes_read(before.push(dom::NodeModel::Text(s))) == nodes_read(before).push(
                Span::Text(s),
            ),
        nodes_read(before.push(dom::NodeModel::Other)) == nodes_read(before),
{
    lemma_names();
    let node = dom::NodeModel::Element(element);
    let old = nodes_read(before);
    assert(before.push(node).drop_last() == before);
    assert(before.push(node).last() == node);
    assert(nodes_read(before.push(node)) == old + node_read(node));
    assert forall|s: Seq<char>| #[trigger]
        nodes_read(before.push(dom::NodeModel::Text(s))) == old.push(Span::Text(s)) by {
        let words = dom::NodeModel::Text(s);
        assert(before.push(words).drop_last() == before);
        assert(before.push(words).last() == words);
        assert(node_read(words) == seq![Span::Text(s)]);
        assert(nodes_read(before.push(words)) == old + node_read(words));
        assert(old + seq![Span::Text(s)] == old.push(Span::Text(s)));
    }
    assert(before.push(dom::NodeModel::Other).drop_last() == before);
    assert(nodes_read(before.push(dom::NodeModel::Other)) == old + node_read(
        dom::NodeModel::Other,
    ));
}

} // verus!
