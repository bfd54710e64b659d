use vstd::prelude::*;
use crate::chars::{alphabetic, trim};
use crate::dom::{text_tag, Node};
use crate::scan::{
    attach, finished, flush, initial, next_of, parse_model, reset_tag, root_tag, run, step,
    tag_node, text_node, Scan,
};

verus! {

/// A tag name that reads back as written: it starts with an alphabetic character and holds
/// no space, `/` or `>`.
pub open spec fn plain_tag(t: Seq<char>) -> bool {
    &&& t.len() > 0
    &&& alphabetic(t[0])
    &&& forall|k: int| 0 <= k < t.len() ==> #[trigger] t[k] != ' ' && t[k] != '/' && t[k] != '>'
}

/// Text that reads back as written: not empty, trimmed, and without `<`.
pub open spec fn plain_text(t: Seq<char>) -> bool {
    &&& t.len() > 0
    &&& trim(t) == t
    &&& forall|k: int| 0 <= k < t.len() ==> #[trigger] t[k] != '<'
}

/// A tree without attributes whose tags and texts are plain, and where no text node directly
/// follows another.
pub open spec fn well_formed(n: Node) -> bool
    decreases n, 1nat, 0int,
{
    &&& n.attributes == Seq::<(Seq<char>, Seq<char>)>::empty()
    &&& match n.text_content {
        Some(t) => n.tag == text_tag() && n.children.len() == 0 && plain_text(t),
        None => plain_tag(n.tag) && children_well_formed(n, n.children.len() as int),
    }
}

/// The first `k` children of `n` are well formed and no text child directly follows another.
pub open spec fn children_well_formed(n: Node, k: int) -> bool
    decreases n, 0nat, k,
{
    if k <= 0 || k > n.children.len() {
        true
    } else {
        &&& children_well_formed(n, k - 1)
        &&& well_formed(n.children[k - 1])
        &&& (k >= 2 && n.children[k - 1].text_content is Some) ==> n.children[k
            - 2].text_content is None
    }
}

/// The markup that writes `n`: its text, or its tag around the markup of its children.
pub open spec fn markup(n: Node) -> Seq<char>
    decreases n, 1nat, 0int,
{
    match n.text_content {
        Some(t) => t,
        None => seq!['<'] + n.tag + seq!['>'] + children_markup(n, n.children.len() as int)
            + seq!['<', '/'] + n.tag + seq!['>'],
    }
}

/// The markup of the first `k` children of `n`, one after the other.
pub open spec fn children_markup(n: Node, k: int) -> Seq<char>
    decreases n, 0nat, k,
{
    if k <= 0 || k > n.children.len() {
        seq![]
    } else {
        children_markup(n, k - 1) + markup(n.children[k - 1])
    }
}

/// The state after the characters of `inp` from position `i` up to `j`, starting from `s`.
pub open spec fn steps(s: Scan, inp: Seq<char>, i: int, j: int) -> Scan
    decreases j - i,
{
    if j <= i {
        s
    } else {
        step(steps(s, inp, i, j - 1), inp[j - 1], next_of(inp, j - 1))
    }
}

/// Between tokens: no markup is being read.
pub open spec fn quiet(s: Scan) -> bool {
    &&& !s.in_tag
    &&& !s.closing
    &&& !s.self_closing
    &&& !s.in_attrs
    &&& !s.in_value
    &&& !s.skip
    &&& s.tag == Seq::<char>::empty()
    &&& s.attr_name == Seq::<char>::empty()
    &&& s.attr_value == Seq::<char>::empty()
    &&& s.attrs == Seq::<(Seq<char>, Seq<char>)>::empty()
}

/// `f` after attaching each of `cs` in order.
pub open spec fn attach_all(f: Scan, cs: Seq<Node>) -> Scan
    decreases cs.len(),
{
    if cs.len() == 0 {
        f
    } else {
        attach(attach_all(f, cs.drop_last()), cs.last())
    }
}

proof fn lemma_steps_split(s: Scan, inp: Seq<char>, i: int, j: int, k: int)
    requires
        i <= j <= k,
    ensures
        steps(s, inp, i, k) == steps(steps(s, inp, i, j), inp, j, k),
    decreases k - j,
{
    if j < k {
        lemma_steps_split(s, inp, i, j, k - 1);
    }
}

proof fn lemma_run_steps(inp: Seq<char>, n: nat)
    ensures
        run(inp, n) == steps(initial(), inp, 0, n as int),
    decreases n,
{
    if n > 0 {
        lemma_run_steps(inp, (n - 1) as nat);
    }
}

/// Characters of a plain tag name, read inside markup, are collected into the tag buffer.
proof fn lemma_tag_chars(u: Scan, inp: Seq<char>, a: int, w: Seq<char>, len: int)
    requires
        u.in_tag && !u.skip && !u.in_attrs,
        0 <= a,
        0 <= len <= w.len(),
        a + w.len() <= inp.len(),
        inp.subrange(a, a + w.len()) == w,
        forall|k: int| 0 <= k < w.len() ==> #[trigger] w[k] != ' ' && w[k] != '/' && w[k] != '>',
    ensures
        steps(u, inp, a, a + len) == (Scan { tag: u.tag + w.take(len), ..u }),
    decreases len,
{
    if len > 0 {
        lemma_tag_chars(u, inp, a, w, len - 1);
        assert(inp[a + len - 1] == w[len - 1]);
        assert(u.tag + w.take(len) =~= (u.tag + w.take(len - 1)).push(w[len - 1]));
    } else {
        assert(u.tag + w.take(0) =~= u.tag);
    }
}

/// Characters of plain text, read outside markup, are collected into the text buffer.
proof fn lemma_text_chars(u: Scan, inp: Seq<char>, a: int, w: Seq<char>, len: int)
    requires
        !u.in_tag && !u.skip,
        0 <= a,
        0 <= len <= w.len(),
        a + w.len() <= inp.len(),
        inp.subrange(a, a + w.len()) == w,
        forall|k: int| 0 <= k < w.len() ==> #[trigger] w[k] != '<',
    ensures
        steps(u, inp, a, a + len) == (Scan { text: u.text + w.take(len), ..u }),
    decreases len,
{
    if len > 0 {
        lemma_text_chars(u, inp, a, w, len - 1);
        assert(inp[a + len - 1] == w[len - 1]);
        assert(u.text + w.take(len) =~= (u.text + w.take(len - 1)).push(w[len - 1]));
    } else {
        assert(u.text + w.take(0) =~= u.text);
    }
}

proof fn lemma_one_step(u: Scan, inp: Seq<char>, a: int)
    ensures
        steps(u, inp, a, a + 1) == step(u, inp[a], next_of(inp, a)),
{
    assert(steps(u, inp, a, a) == u);
}

/// A piece of `m` at offset `b` stands in `inp` at `i + b`, when `m` stands there at `i`.
proof fn lemma_sub(inp: Seq<char>, i: int, m: Seq<char>, b: int, w: Seq<char>)
    requires
        0 <= i,
        i + m.len() <= inp.len(),
        inp.subrange(i, i + m.len()) == m,
        0 <= b,
        b + w.len() <= m.len(),
        m.subrange(b, b + w.len()) == w,
    ensures
        inp.subrange(i + b, i + b + w.len()) == w,
{
    assert forall|k: int| 0 <= k < w.len() implies inp.subrange(i + b, i + b + w.len())[k] == w[k] by {
        assert(w[k] == m.subrange(b, b + w.len())[k]);
        assert(m[b + k] == inp.subrange(i, i + m.len())[b + k]);
    }
    assert(inp.subrange(i + b, i + b + w.len()) =~= w);
}

pub open spec fn with_top(f: Scan, x: Node) -> Scan {
    Scan { stack: f.stack.push(x), ..f }
}

proof fn lemma_attach_all_top(f: Scan, x: Node, cs: Seq<Node>)
    ensures
        attach_all(with_top(f, x), cs) == with_top(f, Node { children: x.children + cs, ..x }),
    decreases cs.len(),
{
    if cs.len() == 0 {
        assert(x.children + cs =~= x.children);
    } else {
        lemma_attach_all_top(f, x, cs.drop_last());
        let y = Node { children: x.children + cs.drop_last(), ..x };
        assert(with_top(f, y).stack.drop_last() =~= f.stack);
        assert(y.children.push(cs.last()) =~= x.children + cs);
    }
}

proof fn lemma_attach_all_initial(cs: Seq<Node>)
    ensures
        attach_all(initial(), cs) == (Scan { top: cs, ..initial() }),
    decreases cs.len(),
{
    if cs.len() > 0 {
        lemma_attach_all_initial(cs.drop_last());
        assert(cs.drop_last().push(cs.last()) =~= cs);
    } else {
        assert(cs =~= initial().top);
    }
}

proof fn lemma_flush_quiet(s: Scan)
    requires
        s.text == Seq::<char>::empty(),
    ensures
        flush(s) == s,
{
    assert(trim(s.text).len() == 0);
}

/// Reading the markup of a well-formed node attaches that node.
proof fn lemma_node(n: Node, s: Scan, inp: Seq<char>, i: int)
    requires
        well_formed(n),
        quiet(s),
        0 <= i,
        i + markup(n).len() <= inp.len(),
        inp.subrange(i, i + markup(n).len()) == markup(n),
        n.text_content is Some ==> s.text == Seq::<char>::empty(),
    ensures
        quiet(steps(s, inp, i, i + markup(n).len())),
        flush(steps(s, inp, i, i + markup(n).len())) == attach(flush(s), n),
        n.text_content is None ==> steps(s, inp, i, i + markup(n).len()).text
            == Seq::<char>::empty(),
    decreases n, 1nat, 0int,
{
    let m = markup(n);
    match n.text_content {
        Some(t) => {
            lemma_text_chars(s, inp, i, t, t.len() as int);
            assert(t.take(t.len() as int) =~= t);
            assert(s.text + t =~= t);
            lemma_flush_quiet(s);
            assert(Scan { text: seq![], ..Scan { text: t, ..s } } == s);
            assert(n.children =~= seq![]);
            assert(text_node(t) == n);
        },
        None => {
            let tag = n.tag;
            let tl = tag.len() as int;
            let cm = children_markup(n, n.children.len() as int);
            let cl = cm.len() as int;
            assert(m == seq!['<'] + tag + seq!['>'] + cm + seq!['<', '/'] + tag + seq!['>']);
            let a1 = i + 1;
            let a2 = a1 + tl;
            let a3 = a2 + 1;
            let a4 = a3 + cl;
            let a5 = a4 + 1;
            let a6 = a5 + 1;
            let a7 = a6 + tl;
            let a8 = a7 + 1;
            assert(a8 == i + m.len());
            assert(inp[i] == m[0]);
            assert(inp[a1] == m[1]);
            assert(inp[a2] == m[1 + tl]);
            assert(inp[a4] == m[2 + tl + cl]);
            assert(inp[a5] == m[3 + tl + cl]);
            assert(inp[a7] == m[4 + tl + cl + tl]);
            assert(m.subrange(1, 1 + tl) =~= tag);
            assert(m.subrange(2 + tl, 2 + tl + cl) =~= cm);
            assert(m.subrange(4 + tl + cl, 4 + tl + cl + tl) =~= tag);
            lemma_sub(inp, i, m, 1, tag);
            lemma_sub(inp, i, m, 2 + tl, cm);
            lemma_sub(inp, i, m, 4 + tl + cl, tag);
            let f = flush(s);
            // `<` opens markup
            lemma_one_step(s, inp, i);
            let x1 = Scan { in_tag: true, ..f };
            assert(steps(s, inp, i, a1) == x1);
            // the tag name
            lemma_tag_chars(x1, inp, a1, tag, tl);
            assert(seq![] + tag.take(tl) =~= tag);
            let x2 = Scan { tag: tag, ..x1 };
            lemma_steps_split(s, inp, i, a1, a2);
            assert(steps(s, inp, i, a2) == x2);
            // `>` pushes the element
            lemma_one_step(x2, inp, a2);
            let top = tag_node(tag, seq![]);
            let x3 = with_top(f, top);
            assert(reset_tag(x2) == f);
            lemma_steps_split(s, inp, i, a2, a3);
            assert(steps(s, inp, i, a3) == x3);
            // the children
            lemma_children(n, n.children.len() as int, x3, inp, a3);
            lemma_steps_split(s, inp, i, a3, a4);
            let x4 = steps(x3, inp, a3, a4);
            assert(n.children.take(n.children.len() as int) =~= n.children);
            lemma_attach_all_top(f, top, n.children);
            assert(seq![] + n.children =~= n.children);
            assert(Node { children: seq![] + n.children, ..top } == n);
            let g = with_top(f, n);
            assert(flush(x4) == g);
            // `</`
            lemma_one_step(x4, inp, a4);
            let x5 = Scan { in_tag: true, closing: true, skip: true, ..g };
            lemma_steps_split(s, inp, i, a4, a5);
            assert(steps(s, inp, i, a5) == x5);
            lemma_one_step(x5, inp, a5);
            let x6 = Scan { in_tag: true, closing: true, ..g };
            lemma_steps_split(s, inp, i, a5, a6);
            assert(steps(s, inp, i, a6) == x6);
            // the tag name again
            lemma_tag_chars(x6, inp, a6, tag, tl);
            let x7 = Scan { tag: tag, ..x6 };
            lemma_steps_split(s, inp, i, a6, a7);
            assert(steps(s, inp, i, a7) == x7);
            // `>` closes the element
            lemma_one_step(x7, inp, a7);
            assert(reset_tag(x7) == g);
            assert(g.stack.drop_last() =~= f.stack);
            lemma_steps_split(s, inp, i, a7, a8);
            assert(steps(s, inp, i, a8) == attach(f, n));
            lemma_flush_quiet(attach(f, n));
        },
    }
}

/// Reading the markup of the first `k` children of `n` attaches them in order.
proof fn lemma_children(n: Node, k: int, u: Scan, inp: Seq<char>, a: int)
    requires
        0 <= k <= n.children.len(),
        children_well_formed(n, k),
        quiet(u),
        u.text == Seq::<char>::empty(),
        0 <= a,
        a + children_markup(n, k).len() <= inp.len(),
        inp.subrange(a, a + children_markup(n, k).len()) == children_markup(n, k),
    ensures
        quiet(steps(u, inp, a, a + children_markup(n, k).len())),
        flush(steps(u, inp, a, a + children_markup(n, k).len())) == attach_all(
            u,
            n.children.take(k),
        ),
        (k == 0 || n.children[k - 1].text_content is None) ==> steps(
            u,
            inp,
            a,
            a + children_markup(n, k).len(),
        ).text == Seq::<char>::empty(),
    decreases n, 0nat, k,
{
    if k == 0 {
        lemma_flush_quiet(u);
        assert(n.children.take(0).len() == 0);
    } else {
        let prev = children_markup(n, k - 1);
        let c = n.children[k - 1];
        let mc = markup(c);
        let all = children_markup(n, k);
        assert(all == prev + mc);
        assert(all.subrange(0, prev.len() as int) =~= prev);
        assert(all.subrange(prev.len() as int, (prev.len() + mc.len()) as int) =~= mc);
        lemma_sub(inp, a, all, 0, prev);
        lemma_sub(inp, a, all, prev.len() as int, mc);
        lemma_children(n, k - 1, u, inp, a);
        let b = a + prev.len();
        let e1 = steps(u, inp, a, b);
        lemma_node(c, e1, inp, b);
        lemma_steps_split(u, inp, a, b, b + mc.len());
        assert(n.children.take(k).drop_last() =~= n.children.take(k - 1));
    }
}

/// Well-formed markup reads back as the tree it writes: the parsed tree has exactly the
/// given elements and texts, nested and ordered as in the markup.
pub proof fn lemma_well_formed_round_trip(root: Node)
    requires
        root.tag == root_tag(),
        root.attributes == Seq::<(Seq<char>, Seq<char>)>::empty(),
        root.text_content is None,
        children_well_formed(root, root.children.len() as int),
    ensures
        parse_model(children_markup(root, root.children.len() as int)) == root,
{
    let k = root.children.len() as int;
    let inp = children_markup(root, k);
    assert(inp.subrange(0, inp.len() as int) =~= inp);
    lemma_run_steps(inp, inp.len());
    lemma_children(root, k, initial(), inp, 0);
    assert(root.children.take(k) =~= root.children);
    lemma_attach_all_initial(root.children);
    let e = run(inp, inp.len());
    assert(flush(e).stack.len() == 0);
    assert(finished(e) == flush(e));
}

} // verus!