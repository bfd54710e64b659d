use vstd::prelude::*;
use crate::chars::{chars_of, string_of};

verus! {

broadcast use vstd::std_specs::vec::group_vec_axioms;

/// Mathematical model of an element: every string is a sequence of characters.
pub struct Node {
    pub tag: Seq<char>,
    pub attributes: Seq<(Seq<char>, Seq<char>)>,
    pub children: Seq<Node>,
    pub text_content: Option<Seq<char>>,
}

/// A node of the document tree: the root, a tag element or a text node.
///
/// Attributes are kept as (name, value) pairs with unique names.
#[derive(Debug)]
pub struct Element {
    pub tag: String,
    pub attributes: Vec<(String, String)>,
    pub children: Vec<Element>,
    pub text_content: Option<String>,
}

pub open spec fn attr_views(a: Seq<(String, String)>) -> Seq<(Seq<char>, Seq<char>)> {
    a.map_values(|p: (String, String)| (p.0@, p.1@))
}

pub open spec fn opt_view(t: Option<String>) -> Option<Seq<char>> {
    match t {
        Some(s) => Some(s@),
        None => None,
    }
}

/// The model of `e`, its children modelled recursively.
pub open spec fn node_of(e: Element) -> Node
    decreases e,
{
    Node {
        tag: e.tag@,
        attributes: attr_views(e.attributes@),
        children: Seq::new(
            e.children@.len(),
            |i: int|
                if 0 <= i < e.children@.len() {
                    node_of(e.children@[i])
                } else {
                    arbitrary()
                },
        ),
        text_content: opt_view(e.text_content),
    }
}

impl View for Element {
    type V = Node;

    open spec fn view(&self) -> Node {
        node_of(*self)
    }
}

/// The model of an element, field by field.
pub proof fn lemma_view(e: Element)
    ensures
        e@.tag == e.tag@,
        e@.attributes == attr_views(e.attributes@),
        e@.text_content == opt_view(e.text_content),
        e@.children == views(e.children@),
{
    assert(e@.children.len() == e.children@.len());
    assert forall|i: int| 0 <= i < e.children@.len() implies e@.children[i] == views(e.children@)[i] by {
        assert(e@.children[i] == e.children@[i]@);
    }
    assert(e@.children =~= views(e.children@));
}

pub open spec fn views(s: Seq<Element>) -> Seq<Node> {
    s.map_values(|e: Element| e@)
}

impl Element {
    /// An element with the given tag and attributes, and no children.
    pub fn new(tag: String, attributes: Vec<(String, String)>) -> (r: Element)
        ensures
            r@ == (Node {
                tag: tag@,
                attributes: attr_views(attributes@),
                children: seq![],
                text_content: None,
            }),
    {
        let r = Element { tag, attributes, children: Vec::new(), text_content: None };
        assert(r@.children =~= seq![]);
        r
    }

    /// A text node holding `text`.
    pub fn new_text(text: String) -> (r: Element)
        ensures
            r@ == (Node {
                tag: seq!['t', 'e', 'x', 't'],
                attributes: seq![],
                children: seq![],
                text_content: Some(text@),
            }),
    {
        let tag = "text".to_string();
        proof {
            reveal_strlit("text");
        }
        let r = Element { tag, attributes: Vec::new(), children: Vec::new(), text_content: Some(text) };
        assert(r@.children =~= seq![]);
        assert(r@.attributes =~= seq![]);
        assert(r@.tag =~= seq!['t', 'e', 'x', 't']);
        r
    }
}

pub open spec fn text_tag() -> Seq<char> {
    seq!['t', 'e', 'x', 't']
}

/// The text of an element: its own text if it is a text node, else the text of its
/// children in order.
pub open spec fn text_of(n: Node) -> Seq<char>
    decreases n, 2nat,
{
    match n.text_content {
        Some(t) => t,
        None => pieces(n, n.children.len() as int).flatten(),
    }
}

/// What child `i` of `n` gives to the text of `n`: a child tagged `text` gives its own
/// text (or nothing), any other child its whole text.
pub open spec fn child_text(n: Node, i: int) -> Seq<char>
    decreases n, 0nat,
{
    if 0 <= i < n.children.len() {
        if n.children[i].tag == text_tag() {
            match n.children[i].text_content {
                Some(t) => t,
                None => seq![],
            }
        } else {
            text_of(n.children[i])
        }
    } else {
        seq![]
    }
}

/// What the first `k` children of `n` give to its text.
pub open spec fn pieces(n: Node, k: int) -> Seq<Seq<char>>
    decreases n, 1nat,
{
    Seq::new(k as nat, |i: int| child_text(n, i))
}

/// The text of `element`: its own text, or that of its descendants in document order.
pub fn get_text_content(element: &Element) -> (r: String)
    ensures
        r@ == text_of(element@),
    decreases element,
{
    proof {
        lemma_view(*element);
    }
    if let Some(t) = &element.text_content {
        return t.clone();
    }
    let text_name = "text".to_string();
    proof {
        reveal_strlit("text");
        assert(text_name@ =~= text_tag());
    }
    let mut acc: Vec<char> = Vec::new();
    let mut i: usize = 0;
    while i < element.children.len()
        invariant
            i <= element.children@.len(),
            element@.children == views(element.children@),
            text_name@ == text_tag(),
            acc@ == pieces(element@, i as int).flatten(),
        decreases element.children@.len() - i,
    {
        let child = &element.children[i];
        proof {
            lemma_view(*child);
        }
        let part: String = if child.tag == text_name {
            match &child.text_content {
                Some(t) => t.clone(),
                None => String::new(),
            }
        } else {
            get_text_content(child)
        };
        let mut cs = chars_of(part.as_str());
        assert(cs@ == child_text(element@, i as int));
        acc.append(&mut cs);
        proof {
            assert(pieces(element@, i + 1) =~= pieces(element@, i as int).push(
                child_text(element@, i as int),
            ));
            pieces(element@, i as int).lemma_flatten_push(child_text(element@, i as int));
        }
        i = i + 1;
    }
    string_of(&acc)
}

} // verus!