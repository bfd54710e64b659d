use vstd::prelude::*;
use crate::chars::{alphabetic, chars_of, is_alphabetic, string_of, trim, trim_chars};
use crate::dom::{attr_views, text_tag, views, Element, Node};
use crate::nodes::{attrs_unique, lemma_attribute_names_unique};

verus! {

broadcast use vstd::std_specs::vec::group_vec_axioms;

pub open spec fn root_tag() -> Seq<char> {
    seq!['r', 'o', 'o', 't']
}

/// A text node holding `t`.
pub open spec fn text_node(t: Seq<char>) -> Node {
    Node { tag: text_tag(), attributes: seq![], children: seq![], text_content: Some(t) }
}

/// A freshly opened tag element, before any child is attached.
pub open spec fn tag_node(tag: Seq<char>, attrs: Seq<(Seq<char>, Seq<char>)>) -> Node {
    Node { tag, attributes: attrs, children: seq![], text_content: None }
}

/// Model of the scanner and tree builder between two characters.
pub struct Scan {
    /// Inside markup (between `<` and `>`).
    pub in_tag: bool,
    /// The markup began with `</`.
    pub closing: bool,
    /// A `/` right after the tag name, or directly before `>`, was seen.
    pub self_closing: bool,
    /// The tag name is complete and attributes are being read.
    pub in_attrs: bool,
    /// An `=` was seen and an attribute value is being read.
    pub in_value: bool,
    /// The next character was already consumed by lookahead.
    pub skip: bool,
    pub text: Seq<char>,
    pub tag: Seq<char>,
    pub attr_name: Seq<char>,
    pub attr_value: Seq<char>,
    pub attrs: Seq<(Seq<char>, Seq<char>)>,
    /// Open elements, the innermost last.
    pub stack: Seq<Node>,
    /// Children of the root collected so far.
    pub top: Seq<Node>,
}

pub open spec fn initial() -> Scan {
    Scan {
        in_tag: false,
        closing: false,
        self_closing: false,
        in_attrs: false,
        in_value: false,
        skip: false,
        text: seq![],
        tag: seq![],
        attr_name: seq![],
        attr_value: seq![],
        attrs: seq![],
        stack: seq![],
        top: seq![],
    }
}

/// Appends `n` to the innermost open element, or to the root when none is open.
pub open spec fn attach(s: Scan, n: Node) -> Scan {
    if s.stack.len() > 0 {
        let p = s.stack.last();
        Scan { stack: s.stack.drop_last().push(Node { children: p.children.push(n), ..p }), ..s }
    } else {
        Scan { top: s.top.push(n), ..s }
    }
}

/// Emits the buffered text as a text node when it is not blank, and empties the buffer.
pub open spec fn flush(s: Scan) -> Scan {
    let t = trim(s.text);
    let e = Scan { text: seq![], ..s };
    if t.len() > 0 {
        attach(e, text_node(t))
    } else {
        e
    }
}

/// Pops the innermost open element and attaches it to its parent; nothing when none is open.
pub open spec fn close(s: Scan) -> Scan {
    if s.stack.len() > 0 {
        attach(Scan { stack: s.stack.drop_last(), ..s }, s.stack.last())
    } else {
        s
    }
}

/// Closes every element still open, innermost first.
pub open spec fn close_all(s: Scan) -> Scan
    decreases s.stack.len(),
{
    if s.stack.len() > 0 {
        close_all(close(s))
    } else {
        s
    }
}

/// `j` is the first position of an attribute named `k`.
pub open spec fn first_key(a: Seq<(Seq<char>, Seq<char>)>, k: Seq<char>, j: int) -> bool {
    &&& 0 <= j < a.len()
    &&& a[j].0 == k
    &&& forall|l: int| 0 <= l < j ==> (#[trigger] a[l]).0 != k
}

/// Sets attribute `k` to `v`, overwriting an earlier value in place.
pub open spec fn insert_attr(a: Seq<(Seq<char>, Seq<char>)>, k: Seq<char>, v: Seq<char>) -> Seq<
    (Seq<char>, Seq<char>),
> {
    if exists|j: int| first_key(a, k, j) {
        a.update(choose|j: int| first_key(a, k, j), (k, v))
    } else {
        a.push((k, v))
    }
}

/// Records a finished attribute pair; a pair with an empty name or value is dropped.
pub open spec fn commit(a: Seq<(Seq<char>, Seq<char>)>, k: Seq<char>, v: Seq<char>) -> Seq<
    (Seq<char>, Seq<char>),
> {
    if k.len() > 0 && v.len() > 0 {
        insert_attr(a, k, v)
    } else {
        a
    }
}

/// Leaves markup: all tag buffers and flags are cleared.
pub open spec fn reset_tag(s: Scan) -> Scan {
    Scan {
        in_tag: false,
        closing: false,
        self_closing: false,
        in_attrs: false,
        in_value: false,
        tag: seq![],
        attr_name: seq![],
        attr_value: seq![],
        attrs: seq![],
        ..s
    }
}

/// A `<` begins markup when the next character is alphabetic or `/`.
pub open spec fn opens_markup(next: Option<char>) -> bool {
    match next {
        Some(n) => n == '/' || alphabetic(n),
        None => false,
    }
}

/// The effect of `>` inside markup.
pub open spec fn end_tag(s: Scan) -> Scan {
    let a = commit(s.attrs, s.attr_name, s.attr_value);
    let r = reset_tag(s);
    if s.closing {
        close(r)
    } else if s.self_closing {
        attach(r, tag_node(s.tag, a))
    } else {
        Scan { stack: r.stack.push(tag_node(s.tag, a)), ..r }
    }
}

/// The effect of one character `c`, with `next` the character after it, if any.
pub open spec fn step(s: Scan, c: char, next: Option<char>) -> Scan {
    if s.skip {
        Scan { skip: false, ..s }
    } else if !s.in_tag {
        if c == '<' && opens_markup(next) {
            let slash = next == Some('/');
            Scan { in_tag: true, closing: slash, skip: slash, ..reset_tag(flush(s)) }
        } else {
            Scan { text: s.text.push(c), ..s }
        }
    } else if c == '>' {
        end_tag(s)
    } else if !s.in_attrs {
        if c == '/' {
            if s.tag.len() > 0 {
                Scan { self_closing: true, ..s }
            } else {
                s
            }
        } else if c == ' ' {
            if s.tag.len() > 0 {
                Scan { in_attrs: true, ..s }
            } else {
                s
            }
        } else {
            Scan { tag: s.tag.push(c), ..s }
        }
    } else if c == '/' && next == Some('>') {
        Scan { self_closing: true, ..s }
    } else if !s.in_value {
        if c == '=' {
            Scan { in_value: true, ..s }
        } else if c == ' ' {
            Scan { attr_name: seq![], ..s }
        } else {
            Scan { attr_name: s.attr_name.push(c), ..s }
        }
    } else if c == '\'' || c == '"' {
        s
    } else if c == ' ' {
        Scan {
            attrs: commit(s.attrs, s.attr_name, s.attr_value),
            attr_name: seq![],
            attr_value: seq![],
            in_value: false,
            ..s
        }
    } else {
        Scan { attr_value: s.attr_value.push(c), ..s }
    }
}

/// The character after position `i`, if any.
pub open spec fn next_of(input: Seq<char>, i: int) -> Option<char> {
    if i + 1 < input.len() {
        Some(input[i + 1])
    } else {
        None
    }
}

/// The state after the first `n` characters of `input`.
pub open spec fn run(input: Seq<char>, n: nat) -> Scan
    decreases n,
{
    if n == 0 {
        initial()
    } else {
        step(run(input, (n - 1) as nat), input[n - 1], next_of(input, n - 1))
    }
}

/// The state once input is exhausted: pending text flushed and every open element closed.
pub open spec fn finished(s: Scan) -> Scan {
    close_all(flush(s))
}

/// The document tree of `input`.
pub open spec fn parse_model(input: Seq<char>) -> Node {
    Node {
        tag: root_tag(),
        attributes: seq![],
        children: finished(run(input, input.len())).top,
        text_content: None,
    }
}

/// The scanner and tree builder: the whole parse state in one value.
pub struct Scanner {
    in_tag: bool,
    closing: bool,
    self_closing: bool,
    in_attrs: bool,
    in_value: bool,
    skip: bool,
    text: Vec<char>,
    tag: Vec<char>,
    attr_name: Vec<char>,
    attr_value: Vec<char>,
    attrs: Vec<(String, String)>,
    stack: Vec<Element>,
    top: Vec<Element>,
}

impl View for Scanner {
    type V = Scan;

    closed spec fn view(&self) -> Scan {
        Scan {
            in_tag: self.in_tag,
            closing: self.closing,
            self_closing: self.self_closing,
            in_attrs: self.in_attrs,
            in_value: self.in_value,
            skip: self.skip,
            text: self.text@,
            tag: self.tag@,
            attr_name: self.attr_name@,
            attr_value: self.attr_value@,
            attrs: attr_views(self.attrs@),
            stack: views(self.stack@),
            top: views(self.top@),
        }
    }
}

/// Sets attribute `k` to `v` in `attrs`, overwriting an earlier value in place.
fn insert_attribute(attrs: &mut Vec<(String, String)>, k: String, v: String)
    ensures
        attr_views(final(attrs)@) == insert_attr(attr_views(old(attrs)@), k@, v@),
{
    let ghost a = attr_views(attrs@);
    let mut j: usize = 0;
    while j < attrs.len()
        invariant
            j <= attrs@.len(),
            *attrs == *old(attrs),
            a == attr_views(attrs@),
            forall|l: int| 0 <= l < j ==> (#[trigger] a[l]).0 != k@,
        decreases attrs@.len() - j,
    {
        if attrs[j].0 == k {
            proof {
                assert(first_key(a, k@, j as int));
                let c = choose|x: int| first_key(a, k@, x);
                assert(first_key(a, k@, c));
                if c < j {
                    assert(a[c].0 != k@);
                } else if c > j {
                    assert(a[j as int].0 != k@);
                }
            }
            attrs.set(j, (k, v));
            assert(attr_views(attrs@) =~= insert_attr(a, k@, v@));
            return;
        }
        j = j + 1;
    }
    proof {
        assert forall|x: int| !first_key(a, k@, x) by {
            if 0 <= x < a.len() {
                assert(a[x].0 != k@);
            }
        }
    }
    attrs.push((k, v));
    assert(attr_views(attrs@) =~= insert_attr(a, k@, v@));
}

impl Scanner {
    /// A scanner at the start of a document.
    pub fn new() -> (r: Scanner)
        ensures
            r@ == initial(),
    {
        let r = Scanner {
            in_tag: false,
            closing: false,
            self_closing: false,
            in_attrs: false,
            in_value: false,
            skip: false,
            text: Vec::new(),
            tag: Vec::new(),
            attr_name: Vec::new(),
            attr_value: Vec::new(),
            attrs: Vec::new(),
            stack: Vec::new(),
            top: Vec::new(),
        };
        assert(r@.attrs =~= seq![]);
        assert(r@.stack =~= seq![]);
        assert(r@.top =~= seq![]);
        r
    }

    fn attach(&mut self, e: Element)
        ensures
            final(self)@ == attach(old(self)@, e@),
    {
        if self.stack.len() > 0 {
            let mut p = self.stack.pop().unwrap();
            let ghost old_p = p@;
            let ghost old_c = p.children@;
            let ghost ev = e@;
            assert(old_p.children.len() == old_c.len());
            assert(forall|i: int| 0 <= i < old_c.len() ==> old_p.children[i] == #[trigger] old_c[i]@);
            p.children.push(e);
            assert(p.children@ == old_c.push(e));
            assert(p@.children =~= old_p.children.push(ev));
            assert(p@ == (Node { children: old_p.children.push(e@), ..old_p }));
            self.stack.push(p);
            assert(views(self.stack@) =~= views(old(self).stack@).drop_last().push(p@));
        } else {
            self.top.push(e);
            assert(views(self.top@) =~= views(old(self).top@).push(e@));
        }
    }

    fn flush(&mut self)
        ensures
            final(self)@ == flush(old(self)@),
    {
        let t = trim_chars(&self.text);
        self.text = Vec::new();
        if t.len() > 0 {
            let e = Element::new_text(string_of(&t));
            self.attach(e);
        }
    }

    fn close(&mut self)
        ensures
            final(self)@ == close(old(self)@),
    {
        if self.stack.len() > 0 {
            let p = self.stack.pop().unwrap();
            assert(views(self.stack@) =~= views(old(self).stack@).drop_last());
            self.attach(p);
        }
    }

    fn reset_tag(&mut self)
        ensures
            final(self)@ == reset_tag(old(self)@),
    {
        self.in_tag = false;
        self.closing = false;
        self.self_closing = false;
        self.in_attrs = false;
        self.in_value = false;
        self.tag = Vec::new();
        self.attr_name = Vec::new();
        self.attr_value = Vec::new();
        self.attrs = Vec::new();
        assert(attr_views(self.attrs@) =~= seq![]);
    }

    fn commit(&mut self)
        ensures
            final(self)@ == (Scan {
                attrs: commit(old(self)@.attrs, old(self)@.attr_name, old(self)@.attr_value),
                ..old(self)@
            }),
    {
        if self.attr_name.len() > 0 && self.attr_value.len() > 0 {
            let k = string_of(&self.attr_name);
            let v = string_of(&self.attr_value);
            insert_attribute(&mut self.attrs, k, v);
        }
    }

    fn end_tag(&mut self)
        ensures
            final(self)@ == end_tag(old(self)@),
    {
        self.commit();
        let tag = string_of(&self.tag);
        let mut attrs: Vec<(String, String)> = Vec::new();
        std::mem::swap(&mut attrs, &mut self.attrs);
        let closing = self.closing;
        let self_closing = self.self_closing;
        self.reset_tag();
        if closing {
            self.close();
        } else if self_closing {
            self.attach(Element::new(tag, attrs));
        } else {
            let e = Element::new(tag, attrs);
            let ghost before = self.stack@;
            self.stack.push(e);
            assert(views(self.stack@) =~= views(before).push(e@));
        }
    }

    /// Consumes the character `c`; `next` is the character after it, if any.
    pub fn step(&mut self, c: char, next: Option<char>)
        ensures
            final(self)@ == step(old(self)@, c, next),
    {
        if self.skip {
            self.skip = false;
        } else if !self.in_tag {
            let opens = match next {
                Some(n) => n == '/' || is_alphabetic(n),
                None => false,
            };
            if c == '<' && opens {
                let slash = match next {
                    Some(n) => n == '/',
                    None => false,
                };
                self.flush();
                self.reset_tag();
                self.in_tag = true;
                self.closing = slash;
                self.skip = slash;
            } else {
                self.text.push(c);
            }
        } else if c == '>' {
            self.end_tag();
        } else if !self.in_attrs {
            if c == '/' {
                if self.tag.len() > 0 {
                    self.self_closing = true;
                }
            } else if c == ' ' {
                if self.tag.len() > 0 {
                    self.in_attrs = true;
                }
            } else {
                self.tag.push(c);
            }
        } else if c == '/' && next == Some('>') {
            self.self_closing = true;
        } else if !self.in_value {
            if c == '=' {
                self.in_value = true;
            } else if c == ' ' {
                self.attr_name = Vec::new();
            } else {
                self.attr_name.push(c);
            }
        } else if c == '\'' || c == '"' {
        } else if c == ' ' {
            self.commit();
            self.attr_name = Vec::new();
            self.attr_value = Vec::new();
            self.in_value = false;
        } else {
            self.attr_value.push(c);
        }
    }

    /// Ends the document: flushes pending text, closes every open element, and returns the root.
    pub fn finish(self) -> (r: Element)
        ensures
            r@ == (Node {
                tag: root_tag(),
                attributes: seq![],
                children: finished(self@).top,
                text_content: None,
            }),
    {
        let mut s = self;
        s.flush();
        let ghost f = s@;
        while s.stack.len() > 0
            invariant
                close_all(s@) == close_all(f),
            decreases s.stack@.len(),
        {
            s.close();
        }
        let root = "root".to_string();
        proof {
            reveal_strlit("root");
            assert(root@ =~= root_tag());
        }
        let attributes: Vec<(String, String)> = Vec::new();
        let r = Element { tag: root, attributes, children: s.top, text_content: None };
        proof {
            crate::dom::lemma_view(r);
            assert(r@.attributes =~= seq![]);
        }
        r
    }
}

/// Parses `html` into a document tree rooted at a synthetic `root` element.
pub fn parse_html(html: &str) -> (r: Element)
    ensures
        r@ == parse_model(html@),
        attrs_unique(r@),
{
    proof {
        lemma_attribute_names_unique(html@);
    }
    let input = chars_of(html);
    let n = input.len();
    let mut sc = Scanner::new();
    let mut i: usize = 0;
    while i < n
        invariant
            n == input@.len(),
            input@ == html@,
            i <= n,
            sc@ == run(input@, i as nat),
        decreases n - i,
    {
        let next = if i + 1 < n {
            Some(input[i + 1])
        } else {
            None
        };
        sc.step(input[i], next);
        i = i + 1;
    }
    sc.finish()
}

/// Parsing depends on the input alone: equal inputs give equal trees, so two parses of
/// one document agree in every tag, attribute, child order and text.
pub proof fn lemma_parse_deterministic(a: Seq<char>, b: Seq<char>)
    requires
        a == b,
    ensures
        parse_model(a) == parse_model(b),
{
}

} // verus!