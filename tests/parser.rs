use nami::dom::{get_text_content, Element};
use nami::scan::{parse_html, Scanner};

fn text_of_node(e: &Element) -> Option<&str> {
    e.text_content.as_deref()
}

fn attr<'a>(e: &'a Element, name: &str) -> Option<&'a str> {
    e.attributes.iter().find(|(k, _)| k == name).map(|(_, v)| v.as_str())
}

fn same_tree(a: &Element, b: &Element) -> bool {
    a.tag == b.tag
        && a.attributes == b.attributes
        && a.text_content == b.text_content
        && a.children.len() == b.children.len()
        && a.children.iter().zip(b.children.iter()).all(|(x, y)| same_tree(x, y))
}

#[test]
fn empty_input_gives_empty_root() {
    let root = parse_html("");
    assert_eq!(root.tag, "root");
    assert!(root.children.is_empty());
    assert!(root.attributes.is_empty());
    assert_eq!(root.text_content, None);
}

#[test]
fn plain_text_is_one_text_node() {
    let root = parse_html("plain text");
    assert_eq!(root.children.len(), 1);
    assert_eq!(root.children[0].tag, "text");
    assert_eq!(text_of_node(&root.children[0]), Some("plain text"));
    assert!(root.children[0].children.is_empty());
}

#[test]
fn text_is_trimmed() {
    let root = parse_html("  \n padded \t ");
    assert_eq!(root.children.len(), 1);
    assert_eq!(text_of_node(&root.children[0]), Some("padded"));
}

#[test]
fn blank_text_makes_no_node() {
    let root = parse_html("   <p>  </p>  ");
    assert_eq!(root.children.len(), 1);
    assert_eq!(root.children[0].tag, "p");
    assert!(root.children[0].children.is_empty());
}

#[test]
fn paragraph_with_text() {
    let root = parse_html("<p>hi</p>");
    assert_eq!(root.children.len(), 1);
    let p = &root.children[0];
    assert_eq!(p.tag, "p");
    assert_eq!(p.children.len(), 1);
    assert_eq!(p.children[0].tag, "text");
    assert_eq!(text_of_node(&p.children[0]), Some("hi"));
}

#[test]
fn self_closing_image() {
    let root = parse_html("<img src=foo.png/>");
    assert_eq!(root.children.len(), 1);
    let img = &root.children[0];
    assert_eq!(img.tag, "img");
    assert_eq!(img.attributes, vec![("src".to_string(), "foo.png".to_string())]);
    assert!(img.children.is_empty());
}

#[test]
fn self_closed_tag_is_not_a_parent() {
    let root = parse_html("<img src=foo.png/><p>x</p>");
    assert_eq!(root.children.len(), 2);
    assert_eq!(root.children[0].tag, "img");
    assert!(root.children[0].children.is_empty());
    assert_eq!(root.children[1].tag, "p");
}

#[test]
fn self_closing_after_space() {
    let root = parse_html("<br />after");
    assert_eq!(root.children.len(), 2);
    assert_eq!(root.children[0].tag, "br");
    assert_eq!(text_of_node(&root.children[1]), Some("after"));
}

#[test]
fn mismatched_close_keeps_everything() {
    let root = parse_html("<a><b>x</a>");
    assert_eq!(root.children.len(), 1);
    let a = &root.children[0];
    assert_eq!(a.tag, "a");
    assert_eq!(a.children.len(), 1);
    let b = &a.children[0];
    assert_eq!(b.tag, "b");
    assert_eq!(b.children.len(), 1);
    assert_eq!(text_of_node(&b.children[0]), Some("x"));
}

#[test]
fn unterminated_elements_are_closed_at_end() {
    let root = parse_html("<div><span>text");
    assert_eq!(root.children.len(), 1);
    let div = &root.children[0];
    assert_eq!(div.tag, "div");
    assert_eq!(div.children[0].tag, "span");
    assert_eq!(text_of_node(&div.children[0].children[0]), Some("text"));
}

#[test]
fn stray_close_is_ignored() {
    let root = parse_html("</p>hi");
    assert_eq!(root.children.len(), 1);
    assert_eq!(text_of_node(&root.children[0]), Some("hi"));
}

#[test]
fn less_than_before_space_is_text() {
    let root = parse_html("1 < 2");
    assert_eq!(root.children.len(), 1);
    assert_eq!(text_of_node(&root.children[0]), Some("1 < 2"));
}

#[test]
fn less_than_at_end_is_text() {
    let root = parse_html("a <");
    assert_eq!(root.children.len(), 1);
    assert_eq!(text_of_node(&root.children[0]), Some("a <"));
}

#[test]
fn greater_than_in_text_is_text() {
    let root = parse_html("<h1>a >> b</h1>");
    assert_eq!(text_of_node(&root.children[0].children[0]), Some("a >> b"));
}

#[test]
fn quotes_are_stripped_and_space_ends_value() {
    let root = parse_html("<a href=\"x y\" title='t'>link</a>");
    let a = &root.children[0];
    assert_eq!(a.tag, "a");
    assert_eq!(attr(a, "href"), Some("x"));
    assert_eq!(attr(a, "title"), Some("t"));
    assert_eq!(attr(a, "y"), None);
    assert_eq!(a.attributes.len(), 2);
}

#[test]
fn repeated_attribute_is_overwritten() {
    let root = parse_html("<a k=1 j=2 k=3>");
    let a = &root.children[0];
    assert_eq!(
        a.attributes,
        vec![("k".to_string(), "3".to_string()), ("j".to_string(), "2".to_string())]
    );
}

#[test]
fn empty_attribute_parts_are_dropped() {
    let root = parse_html("<a =v k= flag>");
    assert!(root.children[0].attributes.is_empty());
    assert_eq!(root.children[0].tag, "a");
}

#[test]
fn nesting_follows_document_order() {
    let root = parse_html("<html><body><h1>T</h1><p>one <em>two</em> three</p></body></html>");
    assert_eq!(root.children.len(), 1);
    let html = &root.children[0];
    assert_eq!(html.tag, "html");
    let body = &html.children[0];
    assert_eq!(body.tag, "body");
    assert_eq!(body.children.len(), 2);
    assert_eq!(body.children[0].tag, "h1");
    let p = &body.children[1];
    assert_eq!(p.tag, "p");
    assert_eq!(p.children.len(), 3);
    assert_eq!(text_of_node(&p.children[0]), Some("one"));
    assert_eq!(p.children[1].tag, "em");
    assert_eq!(text_of_node(&p.children[1].children[0]), Some("two"));
    assert_eq!(text_of_node(&p.children[2]), Some("three"));
}

#[test]
fn parsing_twice_gives_equal_trees() {
    let input = "<div a=1><p>x<b>y</b></p>z</div><img src=q/>";
    let first = parse_html(input);
    let second = parse_html(input);
    assert!(same_tree(&first, &second));
}

#[test]
fn scanner_fed_by_hand() {
    let mut s = Scanner::new();
    let input: Vec<char> = "<p>a".chars().collect();
    for i in 0..input.len() {
        s.step(input[i], input.get(i + 1).copied());
    }
    let root = s.finish();
    assert_eq!(root.children[0].tag, "p");
    assert_eq!(text_of_node(&root.children[0].children[0]), Some("a"));
}

#[test]
fn text_content_concatenates_descendants() {
    let root = parse_html("<p>Outro <strong>texto</strong> e</p>");
    assert_eq!(get_text_content(&root.children[0]), "Outrotextoe");
    assert_eq!(get_text_content(&root), "Outrotextoe");
}

#[test]
fn text_content_of_text_node() {
    let root = parse_html("hello");
    assert_eq!(get_text_content(&root.children[0]), "hello");
}

#[test]
fn slash_after_tag_name_self_closes() {
    let root = parse_html("<br/ >after");
    assert_eq!(root.children.len(), 2);
    assert_eq!(root.children[0].tag, "br");
    assert!(root.children[0].children.is_empty());
    assert_eq!(text_of_node(&root.children[1]), Some("after"));
}

#[test]
fn slash_inside_value_is_kept() {
    let root = parse_html("<a href=x/y>t</a>");
    let a = &root.children[0];
    assert_eq!(attr(a, "href"), Some("x/y"));
    assert_eq!(text_of_node(&a.children[0]), Some("t"));
}

#[test]
fn quotes_in_attribute_names_are_kept() {
    let root = parse_html("<a 'k'=v>");
    assert_eq!(
        root.children[0].attributes,
        vec![("'k'".to_string(), "v".to_string())]
    );
}
