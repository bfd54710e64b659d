use vstd::prelude::*;
use vstd::multiset::Multiset;
use crate::chars::trim;
use crate::dom::{text_tag, Node};
use crate::scan::{
    attach, close, close_all, commit, end_tag, finished, first_key, flush, insert_attr,
    next_of, opens_markup, parse_model, reset_tag, run, step, tag_node, text_node,
    Scan,
};

verus! {

/// Number of nodes in the tree of `n`, `n` included.
pub open spec fn size(n: Node) -> nat
    decreases n, 1nat, 0int,
{
    1 + sum_sizes(n, n.children.len() as int)
}

/// Number of nodes in the trees of the first `k` children of `n`.
pub open spec fn sum_sizes(n: Node, k: int) -> nat
    decreases n, 0nat, k,
{
    if k <= 0 || k > n.children.len() {
        0
    } else {
        sum_sizes(n, k - 1) + size(n.children[k - 1])
    }
}

/// A node whose children are `s`, to count a forest by.
pub open spec fn holder(s: Seq<Node>) -> Node {
    Node { tag: seq![], attributes: seq![], children: s, text_content: None }
}

/// Number of nodes in the trees of `s`.
pub open spec fn total(s: Seq<Node>) -> nat {
    sum_sizes(holder(s), s.len() as int)
}

/// Number of nodes the scanner holds: open elements and the root's children, with all
/// their descendants.
pub open spec fn held(s: Scan) -> nat {
    total(s.stack) + total(s.top)
}

proof fn lemma_sum_prefix(n: Node, m: Node, k: int)
    requires
        0 <= k <= n.children.len(),
        k <= m.children.len(),
        n.children.take(k) == m.children.take(k),
    ensures
        sum_sizes(n, k) == sum_sizes(m, k),
    decreases k,
{
    if k > 0 {
        assert(n.children.take(k - 1) =~= n.children.take(k).take(k - 1));
        assert(m.children.take(k - 1) =~= m.children.take(k).take(k - 1));
        assert(n.children[k - 1] == n.children.take(k)[k - 1]);
        assert(m.children[k - 1] == m.children.take(k)[k - 1]);
        lemma_sum_prefix(n, m, k - 1);
    }
}

proof fn lemma_total_push(s: Seq<Node>, x: Node)
    ensures
        total(s.push(x)) == total(s) + size(x),
{
    let h = holder(s.push(x));
    assert(h.children.take(s.len() as int) =~= holder(s).children.take(s.len() as int));
    lemma_sum_prefix(h, holder(s), s.len() as int);
    assert(h.children[s.len() as int] == x);
}

proof fn lemma_total_drop_last(s: Seq<Node>)
    requires
        s.len() > 0,
    ensures
        total(s) == total(s.drop_last()) + size(s.last()),
{
    assert(s.drop_last().push(s.last()) =~= s);
    lemma_total_push(s.drop_last(), s.last());
}

proof fn lemma_size_push_child(p: Node, x: Node)
    ensures
        size(Node { children: p.children.push(x), ..p }) == size(p) + size(x),
{
    let q = Node { children: p.children.push(x), ..p };
    assert(q.children.take(p.children.len() as int) =~= p.children.take(p.children.len() as int));
    lemma_sum_prefix(q, p, p.children.len() as int);
    assert(q.children[p.children.len() as int] == x);
}

proof fn lemma_attach(s: Scan, x: Node)
    ensures
        held(attach(s, x)) == held(s) + size(x),
{
    if s.stack.len() > 0 {
        let p = s.stack.last();
        lemma_total_drop_last(s.stack);
        lemma_size_push_child(p, x);
        lemma_total_push(s.stack.drop_last(), Node { children: p.children.push(x), ..p });
    } else {
        lemma_total_push(s.top, x);
    }
}

proof fn lemma_close(s: Scan)
    ensures
        held(close(s)) == held(s),
        s.stack.len() > 0 ==> close(s).stack.len() == s.stack.len() - 1,
{
    if s.stack.len() > 0 {
        lemma_total_drop_last(s.stack);
        lemma_attach(Scan { stack: s.stack.drop_last(), ..s }, s.stack.last());
    }
}

proof fn lemma_close_all(s: Scan)
    ensures
        held(close_all(s)) == held(s),
        close_all(s).stack.len() == 0,
    decreases s.stack.len(),
{
    if s.stack.len() > 0 {
        lemma_close(s);
        lemma_close_all(close(s));
    }
}

proof fn lemma_flush(s: Scan)
    ensures
        held(flush(s)) >= held(s),
{
    let e = Scan { text: seq![], ..s };
    lemma_attach(e, text_node(trim(s.text)));
}

proof fn lemma_step(s: Scan, c: char, next: Option<char>)
    ensures
        held(step(s, c, next)) >= held(s),
{
    if !s.skip && !s.in_tag && c == '<' && opens_markup(next) {
        lemma_flush(s);
    } else if !s.skip && s.in_tag && c == '>' {
        let r = reset_tag(s);
        let a = commit(s.attrs, s.attr_name, s.attr_value);
        if s.closing {
            lemma_close(r);
        } else if s.self_closing {
            lemma_attach(r, tag_node(s.tag, a));
        } else {
            lemma_total_push(r.stack, tag_node(s.tag, a));
        }
        assert(end_tag(s) == step(s, c, next));
    }
}

/// Finishing closes every element still open and keeps every node held.
pub proof fn lemma_finished_keeps_nodes(s: Scan)
    ensures
        finished(s).stack.len() == 0,
        total(finished(s).top) >= held(s),
{
    lemma_flush(s);
    lemma_close_all(flush(s));
}

/// Scanning never lets go of a node: after more input at least as many nodes are held.
pub proof fn lemma_scan_keeps_nodes(input: Seq<char>, m: nat, n: nat)
    requires
        m <= n <= input.len(),
    ensures
        held(run(input, m)) <= held(run(input, n)),
    decreases n - m,
{
    if m < n {
        lemma_scan_keeps_nodes(input, m, (n - 1) as nat);
        lemma_step(
            run(input, (n - 1) as nat),
            input[n - 1],
            next_of(input, n - 1),
        );
    }
}

/// No element or text node is dropped: every node the scanner holds at any point of the
/// input, open or attached, is counted in the final tree under the root.
pub proof fn lemma_no_node_dropped(input: Seq<char>, m: nat)
    requires
        m <= input.len(),
    ensures
        held(run(input, m)) <= total(parse_model(input).children),
{
    lemma_scan_keeps_nodes(input, m, input.len());
    lemma_finished_keeps_nodes(run(input, input.len()));
}

/// No two attributes share a name.
pub open spec fn keys_unique(a: Seq<(Seq<char>, Seq<char>)>) -> bool {
    forall|i: int, j: int| 0 <= i < j < a.len() ==> (#[trigger] a[i]).0 != (#[trigger] a[j]).0
}

/// No node of the tree of `n` has two attributes with one name.
pub open spec fn attrs_unique(n: Node) -> bool
    decreases n,
{
    &&& keys_unique(n.attributes)
    &&& forall|i: int| 0 <= i < n.children.len() ==> attrs_unique(#[trigger] n.children[i])
}

/// Every tree the scanner holds, and the attributes being collected, have unique names.
pub open spec fn scan_unique(s: Scan) -> bool {
    &&& keys_unique(s.attrs)
    &&& forall|i: int| 0 <= i < s.stack.len() ==> attrs_unique(#[trigger] s.stack[i])
    &&& forall|i: int| 0 <= i < s.top.len() ==> attrs_unique(#[trigger] s.top[i])
}

proof fn lemma_insert_unique(a: Seq<(Seq<char>, Seq<char>)>, k: Seq<char>, v: Seq<char>)
    requires
        keys_unique(a),
    ensures
        keys_unique(insert_attr(a, k, v)),
{
    if exists|j: int| first_key(a, k, j) {
        let j = choose|j: int| first_key(a, k, j);
        let b = a.update(j, (k, v));
        assert forall|x: int, y: int| 0 <= x < y < b.len() implies (#[trigger] b[x]).0 != (
        #[trigger] b[y]).0 by {
            assert(a[x].0 != a[y].0);
        }
    } else {
        let b = a.push((k, v));
        assert forall|j: int| 0 <= j < a.len() implies (#[trigger] a[j]).0 != k by {
            if a[j].0 == k {
                assert forall|l: int| 0 <= l < j implies (#[trigger] a[l]).0 != k by {
                    assert(a[l].0 != a[j].0);
                }
                assert(first_key(a, k, j));
            }
        }
        assert forall|x: int, y: int| 0 <= x < y < b.len() implies (#[trigger] b[x]).0 != (
        #[trigger] b[y]).0 by {
            if y < a.len() {
                assert(a[x].0 != a[y].0);
            } else {
                assert(a[x].0 != k);
            }
        }
    }
}

proof fn lemma_commit_unique(a: Seq<(Seq<char>, Seq<char>)>, k: Seq<char>, v: Seq<char>)
    requires
        keys_unique(a),
    ensures
        keys_unique(commit(a, k, v)),
{
    if k.len() > 0 && v.len() > 0 {
        lemma_insert_unique(a, k, v);
    }
}

proof fn lemma_attach_unique(s: Scan, x: Node)
    requires
        scan_unique(s),
        attrs_unique(x),
    ensures
        scan_unique(attach(s, x)),
{
    if s.stack.len() > 0 {
        let p = s.stack.last();
        let q = Node { children: p.children.push(x), ..p };
        assert(attrs_unique(p));
        assert forall|i: int| 0 <= i < q.children.len() implies attrs_unique(#[trigger] q.children[i]) by {
            if i < p.children.len() {
                assert(q.children[i] == p.children[i]);
            }
        }
        assert(attrs_unique(q));
        let st = s.stack.drop_last().push(q);
        assert forall|i: int| 0 <= i < st.len() implies attrs_unique(#[trigger] st[i]) by {
            if i < st.len() - 1 {
                assert(st[i] == s.stack[i]);
            }
        }
    } else {
        let t = s.top.push(x);
        assert forall|i: int| 0 <= i < t.len() implies attrs_unique(#[trigger] t[i]) by {
            if i < s.top.len() {
                assert(t[i] == s.top[i]);
            }
        }
    }
}

proof fn lemma_close_unique(s: Scan)
    requires
        scan_unique(s),
    ensures
        scan_unique(close(s)),
{
    if s.stack.len() > 0 {
        let r = Scan { stack: s.stack.drop_last(), ..s };
        assert forall|i: int| 0 <= i < r.stack.len() implies attrs_unique(#[trigger] r.stack[i]) by {
            assert(r.stack[i] == s.stack[i]);
        }
        assert(attrs_unique(s.stack[s.stack.len() - 1]));
        lemma_attach_unique(r, s.stack.last());
    }
}

proof fn lemma_close_all_unique(s: Scan)
    requires
        scan_unique(s),
    ensures
        scan_unique(close_all(s)),
    decreases s.stack.len(),
{
    if s.stack.len() > 0 {
        lemma_close_unique(s);
        lemma_close(s);
        lemma_close_all_unique(close(s));
    }
}

proof fn lemma_flush_unique(s: Scan)
    requires
        scan_unique(s),
    ensures
        scan_unique(flush(s)),
{
    let t = text_node(trim(s.text));
    assert(keys_unique(t.attributes));
    assert(attrs_unique(t));
    lemma_attach_unique(Scan { text: seq![], ..s }, t);
}

proof fn lemma_step_unique(s: Scan, c: char, next: Option<char>)
    requires
        scan_unique(s),
    ensures
        scan_unique(step(s, c, next)),
{
    let r = reset_tag(s);
    if !s.skip && !s.in_tag && c == '<' && opens_markup(next) {
        lemma_flush_unique(s);
    } else if !s.skip && s.in_tag && c == '>' {
        let a = commit(s.attrs, s.attr_name, s.attr_value);
        lemma_commit_unique(s.attrs, s.attr_name, s.attr_value);
        let x = tag_node(s.tag, a);
        assert(attrs_unique(x));
        if s.closing {
            lemma_close_unique(r);
        } else if s.self_closing {
            lemma_attach_unique(r, x);
        } else {
            let st = r.stack.push(x);
            assert forall|i: int| 0 <= i < st.len() implies attrs_unique(#[trigger] st[i]) by {
                if i < r.stack.len() {
                    assert(st[i] == r.stack[i]);
                }
            }
        }
        assert(end_tag(s) == step(s, c, next));
    } else {
        lemma_commit_unique(s.attrs, s.attr_name, s.attr_value);
    }
}

proof fn lemma_run_unique(input: Seq<char>, n: nat)
    requires
        n <= input.len(),
    ensures
        scan_unique(run(input, n)),
    decreases n,
{
    if n > 0 {
        lemma_run_unique(input, (n - 1) as nat);
        lemma_step_unique(run(input, (n - 1) as nat), input[n - 1], next_of(input, n - 1));
    }
}

/// In the tree of any input, no element has two attributes with one name.
pub proof fn lemma_attribute_names_unique(input: Seq<char>)
    ensures
        attrs_unique(parse_model(input)),
{
    lemma_run_unique(input, input.len());
    let s = run(input, input.len());
    lemma_flush_unique(s);
    lemma_close_all_unique(flush(s));
    let root = parse_model(input);
    assert(keys_unique(root.attributes));
}

/// What identifies a node in an inventory: its tag and its text.
pub open spec fn entry(n: Node) -> (Seq<char>, Option<Seq<char>>) {
    (n.tag, n.text_content)
}

/// The entries of every node in the tree of `n`, `n` included.
pub open spec fn entries(n: Node) -> Multiset<(Seq<char>, Option<Seq<char>>)>
    decreases n, 1nat, 0int,
{
    Multiset::singleton(entry(n)).add(child_entries(n, n.children.len() as int))
}

/// The entries of the trees of the first `k` children of `n`.
pub open spec fn child_entries(n: Node, k: int) -> Multiset<(Seq<char>, Option<Seq<char>>)>
    decreases n, 0nat, k,
{
    if k <= 0 || k > n.children.len() {
        Multiset::empty()
    } else {
        child_entries(n, k - 1).add(entries(n.children[k - 1]))
    }
}

/// The entries of the trees of `s`.
pub open spec fn forest_entries(s: Seq<Node>) -> Multiset<(Seq<char>, Option<Seq<char>>)> {
    child_entries(holder(s), s.len() as int)
}

/// The entries of every node the scanner holds.
pub open spec fn held_entries(s: Scan) -> Multiset<(Seq<char>, Option<Seq<char>>)> {
    forest_entries(s.stack).add(forest_entries(s.top))
}

/// The text node that flushing `s` creates, if its text is not blank.
pub open spec fn flushed(s: Scan) -> Multiset<(Seq<char>, Option<Seq<char>>)> {
    if trim(s.text).len() > 0 {
        Multiset::singleton((text_tag(), Some(trim(s.text))))
    } else {
        Multiset::empty()
    }
}

/// The node that reading `c` creates: a text node for the text before markup, or an
/// element for an opening or self-closing tag.
pub open spec fn created(s: Scan, c: char, next: Option<char>) -> Multiset<
    (Seq<char>, Option<Seq<char>>),
> {
    if !s.skip && !s.in_tag && c == '<' && opens_markup(next) {
        flushed(s)
    } else if !s.skip && s.in_tag && c == '>' && !s.closing {
        Multiset::singleton((s.tag, None))
    } else {
        Multiset::empty()
    }
}

/// Every node created while reading the first `n` characters of `input`.
pub open spec fn created_by(input: Seq<char>, n: nat) -> Multiset<(Seq<char>, Option<Seq<char>>)>
    decreases n,
{
    if n == 0 {
        Multiset::empty()
    } else {
        created_by(input, (n - 1) as nat).add(
            created(run(input, (n - 1) as nat), input[n - 1], next_of(input, n - 1)),
        )
    }
}

proof fn lemma_entries_prefix(n: Node, m: Node, k: int)
    requires
        0 <= k <= n.children.len(),
        k <= m.children.len(),
        n.children.take(k) == m.children.take(k),
    ensures
        child_entries(n, k) == child_entries(m, k),
    decreases k,
{
    if k > 0 {
        assert(n.children.take(k - 1) =~= n.children.take(k).take(k - 1));
        assert(m.children.take(k - 1) =~= m.children.take(k).take(k - 1));
        assert(n.children[k - 1] == n.children.take(k)[k - 1]);
        assert(m.children[k - 1] == m.children.take(k)[k - 1]);
        lemma_entries_prefix(n, m, k - 1);
    }
}

proof fn lemma_forest_push(s: Seq<Node>, x: Node)
    ensures
        forest_entries(s.push(x)) == forest_entries(s).add(entries(x)),
{
    let h = holder(s.push(x));
    assert(h.children.take(s.len() as int) =~= holder(s).children.take(s.len() as int));
    lemma_entries_prefix(h, holder(s), s.len() as int);
    assert(h.children[s.len() as int] == x);
}

proof fn lemma_forest_drop_last(s: Seq<Node>)
    requires
        s.len() > 0,
    ensures
        forest_entries(s) == forest_entries(s.drop_last()).add(entries(s.last())),
{
    assert(s.drop_last().push(s.last()) =~= s);
    lemma_forest_push(s.drop_last(), s.last());
}

proof fn lemma_entries_push_child(p: Node, x: Node)
    ensures
        entries(Node { children: p.children.push(x), ..p }) == entries(p).add(entries(x)),
{
    let q = Node { children: p.children.push(x), ..p };
    assert(q.children.take(p.children.len() as int) =~= p.children.take(p.children.len() as int));
    lemma_entries_prefix(q, p, p.children.len() as int);
    assert(q.children[p.children.len() as int] == x);
    assert(entries(q) =~= entries(p).add(entries(x)));
}

proof fn lemma_attach_entries(s: Scan, x: Node)
    ensures
        held_entries(attach(s, x)) == held_entries(s).add(entries(x)),
{
    if s.stack.len() > 0 {
        let p = s.stack.last();
        let q = Node { children: p.children.push(x), ..p };
        lemma_forest_drop_last(s.stack);
        lemma_entries_push_child(p, x);
        lemma_forest_push(s.stack.drop_last(), q);
    } else {
        lemma_forest_push(s.top, x);
    }
    assert(held_entries(attach(s, x)) =~= held_entries(s).add(entries(x)));
}

proof fn lemma_close_entries(s: Scan)
    ensures
        held_entries(close(s)) == held_entries(s),
{
    if s.stack.len() > 0 {
        lemma_forest_drop_last(s.stack);
        lemma_attach_entries(Scan { stack: s.stack.drop_last(), ..s }, s.stack.last());
        assert(held_entries(close(s)) =~= held_entries(s));
    }
}

proof fn lemma_close_all_entries(s: Scan)
    ensures
        held_entries(close_all(s)) == held_entries(s),
    decreases s.stack.len(),
{
    if s.stack.len() > 0 {
        lemma_close_entries(s);
        lemma_close(s);
        lemma_close_all_entries(close(s));
    }
}

proof fn lemma_fresh_entries(x: Node)
    requires
        x.children.len() == 0,
    ensures
        entries(x) == Multiset::singleton(entry(x)),
{
    assert(entries(x) =~= Multiset::singleton(entry(x)));
}

proof fn lemma_flush_entries(s: Scan)
    ensures
        held_entries(flush(s)) == held_entries(s).add(flushed(s)),
{
    let e = Scan { text: seq![], ..s };
    let t = text_node(trim(s.text));
    if trim(s.text).len() > 0 {
        lemma_attach_entries(e, t);
        lemma_fresh_entries(t);
    } else {
        assert(held_entries(s).add(flushed(s)) =~= held_entries(s));
    }
}

proof fn lemma_step_entries(s: Scan, c: char, next: Option<char>)
    ensures
        held_entries(step(s, c, next)) == held_entries(s).add(created(s, c, next)),
{
    if !s.skip && !s.in_tag && c == '<' && opens_markup(next) {
        lemma_flush_entries(s);
    } else if !s.skip && s.in_tag && c == '>' {
        let r = reset_tag(s);
        let x = tag_node(s.tag, commit(s.attrs, s.attr_name, s.attr_value));
        lemma_fresh_entries(x);
        if s.closing {
            lemma_close_entries(r);
            assert(held_entries(s).add(created(s, c, next)) =~= held_entries(s));
        } else if s.self_closing {
            lemma_attach_entries(r, x);
        } else {
            lemma_forest_push(r.stack, x);
            assert(held_entries(end_tag(s)) =~= held_entries(s).add(created(s, c, next)));
        }
        assert(end_tag(s) == step(s, c, next));
    } else {
        assert(held_entries(s).add(created(s, c, next)) =~= held_entries(s));
    }
}

proof fn lemma_run_entries(input: Seq<char>, n: nat)
    requires
        n <= input.len(),
    ensures
        held_entries(run(input, n)) == created_by(input, n),
    decreases n,
{
    if n == 0 {
        assert(held_entries(run(input, 0)) =~= Multiset::empty());
    } else {
        lemma_run_entries(input, (n - 1) as nat);
        lemma_step_entries(run(input, (n - 1) as nat), input[n - 1], next_of(input, n - 1));
    }
}

/// Nothing is dropped and nothing is invented: the elements and text nodes of the tree of
/// `input` are exactly those the scan created (one element per opening or self-closing tag,
/// one text node per non-blank text run before markup) and the text node for the text
/// left at the end, whatever mismatched or missing closing tags the input has.
pub proof fn lemma_tree_holds_what_was_read(input: Seq<char>)
    ensures
        forest_entries(parse_model(input).children) == created_by(input, input.len()).add(
            flushed(run(input, input.len())),
        ),
{
    let s = run(input, input.len());
    lemma_run_entries(input, input.len());
    lemma_flush_entries(s);
    lemma_close_all_entries(flush(s));
    lemma_finished_keeps_nodes(s);
    assert(held_entries(finished(s)) =~= forest_entries(finished(s).top));
}

} // verus!