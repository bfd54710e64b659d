use vstd::prelude::*;
use crate::chars::{chars_of, string_of, trim, trim_chars};
use crate::dom::{get_text_content, lemma_view, opt_view, text_of, text_tag, Element, Node};

verus! {

broadcast use vstd::std_specs::vec::group_vec_axioms;

/// A line of text to show, with Pango markup when it is styled.
#[derive(Debug)]
pub struct Label {
    pub text: String,
    pub markup: Option<String>,
}

impl View for Label {
    type V = (Seq<char>, Option<Seq<char>>);

    open spec fn view(&self) -> Self::V {
        (self.text@, opt_view(self.markup))
    }
}

pub open spec fn label_views(s: Seq<Label>) -> Seq<(Seq<char>, Option<Seq<char>>)> {
    s.map_values(|l: Label| l@)
}

/// One label for text `t` when it is not empty.
pub open spec fn own_label(t: Seq<char>, markup: Option<Seq<char>>) -> Seq<(Seq<char>, Option<Seq<char>>)> {
    if t.len() > 0 {
        seq![(t, markup)]
    } else {
        seq![]
    }
}

pub open spec fn bold_big(t: Seq<char>) -> Seq<char> {
    "<b><big>"@ + t + "</big></b>"@
}

pub open spec fn bold(t: Seq<char>) -> Seq<char> {
    "<b>"@ + t + "</b>"@
}

/// The label an element gives before its children: a heading or paragraph gives one label
/// with its whole text when that is not empty (`h1` and `h2` bold and big, `h3` bold),
/// any other element none.
pub open spec fn own_labels(n: Node) -> Seq<(Seq<char>, Option<Seq<char>>)> {
    if n.tag == "h1"@ || n.tag == "h2"@ {
        own_label(text_of(n), Some(bold_big(text_of(n))))
    } else if n.tag == "h3"@ {
        own_label(text_of(n), Some(bold(text_of(n))))
    } else if n.tag == "p"@ {
        own_label(text_of(n), None)
    } else {
        seq![]
    }
}

/// The labels that show `n`: a text node gives one label unless it is blank; any other
/// element gives its own label (see `own_labels`), then the labels of its children in order.
pub open spec fn labels_of(n: Node) -> Seq<(Seq<char>, Option<Seq<char>>)>
    decreases n, 2nat,
{
    if n.tag == text_tag() {
        match n.text_content {
            Some(t) => if trim(t).len() > 0 {
                seq![(t, None)]
            } else {
                seq![]
            },
            None => seq![],
        }
    } else {
        own_labels(n) + children_labels(n, n.children.len() as int).flatten()
    }
}

/// The labels of the first `k` children of `n`, child by child.
pub open spec fn children_labels(n: Node, k: int) -> Seq<Seq<(Seq<char>, Option<Seq<char>>)>>
    decreases n, 1nat,
{
    Seq::new(k as nat, |i: int| child_labels(n, i))
}

pub open spec fn child_labels(n: Node, i: int) -> Seq<(Seq<char>, Option<Seq<char>>)>
    decreases n, 0nat,
{
    if 0 <= i < n.children.len() {
        labels_of(n.children[i])
    } else {
        seq![]
    }
}

/// `before`, then `t`, then `after`.
fn wrap(before: &str, t: &String, after: &str) -> (r: String)
    ensures
        r@ == before@ + t@ + after@,
{
    let mut v = chars_of(before);
    let mut m = chars_of(t.as_str());
    let mut a = chars_of(after);
    v.append(&mut m);
    v.append(&mut a);
    string_of(&v)
}

/// The labels that show `element`, in document order.
pub fn render_plan(element: &Element) -> (r: Vec<Label>)
    ensures
        label_views(r@) == labels_of(element@),
    decreases element,
{
    proof {
        lemma_view(*element);
    }
    let h1 = "h1".to_string();
    let h2 = "h2".to_string();
    let h3 = "h3".to_string();
    let p = "p".to_string();
    let text_name = "text".to_string();
    proof {
        reveal_strlit("text");
        reveal_strlit("h1");
        reveal_strlit("h2");
        reveal_strlit("h3");
        reveal_strlit("p");
        reveal_strlit("<b>");
        reveal_strlit("</b>");
        reveal_strlit("<b><big>");
        reveal_strlit("</big></b>");
        assert(text_name@ =~= text_tag());
        assert("h1"@.len() != "p"@.len() && "h2"@.len() != "p"@.len() && "h3"@.len() != "p"@.len());
        assert("h1"@[1] != "h3"@[1] && "h2"@[1] != "h3"@[1]);
        assert(text_tag().len() != "h1"@.len() && text_tag().len() != "p"@.len());
    }
    let mut out: Vec<Label> = Vec::new();
    if element.tag == h1 || element.tag == h2 || element.tag == h3 || element.tag == p {
        let text = get_text_content(element);
        if !text.as_str().is_empty() {
            let markup = if element.tag == p {
                None
            } else if element.tag == h3 {
                Some(wrap("<b>", &text, "</b>"))
            } else {
                Some(wrap("<b><big>", &text, "</big></b>"))
            };
            let ghost tv = text@;
            let ghost mv = opt_view(markup);
            out.push(Label { text, markup });
            assert(label_views(out@) =~= seq![(tv, mv)]);
        }
    }
    assert(element.tag@ != text_tag() ==> label_views(out@) =~= own_labels(element@));
    if element.tag == text_name {
        if let Some(t) = &element.text_content {
            let cs = chars_of(t.as_str());
            let trimmed = trim_chars(&cs);
            if trimmed.len() > 0 {
                out.push(Label { text: t.clone(), markup: None });
            }
        }
        assert(label_views(out@) =~= labels_of(element@));
        return out;
    }
    let mut i: usize = 0;
    while i < element.children.len()
        invariant
            i <= element.children@.len(),
            element@.children == crate::dom::views(element.children@),
            element@.tag != text_tag(),
            label_views(out@) == own_labels(element@) + children_labels(element@, i as int).flatten(),
        decreases element.children@.len() - i,
    {
        let mut part = render_plan(&element.children[i]);
        let ghost before = out@;
        let ghost pv = part@;
        out.append(&mut part);
        proof {
            assert(label_views(out@) =~= label_views(before) + label_views(pv));
            assert(own_labels(element@) + children_labels(element@, i as int).flatten() + label_views(pv)
                =~= own_labels(element@) + (children_labels(element@, i as int).flatten() + label_views(pv)));
            assert(children_labels(element@, i + 1) =~= children_labels(element@, i as int).push(
                child_labels(element@, i as int),
            ));
            children_labels(element@, i as int).lemma_flatten_push(child_labels(element@, i as int));
        }
        i = i + 1;
    }
    assert(label_views(out@) =~= labels_of(element@));
    out
}

} // verus!
