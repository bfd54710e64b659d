use nami::render::render_plan;
use nami::scan::parse_html;

fn plan(html: &str) -> Vec<(String, Option<String>)> {
    render_plan(&parse_html(html)).into_iter().map(|l| (l.text, l.markup)).collect()
}

#[test]
fn big_headings_are_bold_and_big() {
    assert_eq!(
        plan("<h1>Hi</h1><h2>Yo</h2>"),
        vec![
            ("Hi".to_string(), Some("<b><big>Hi</big></b>".to_string())),
            ("Hi".to_string(), None),
            ("Yo".to_string(), Some("<b><big>Yo</big></b>".to_string())),
            ("Yo".to_string(), None),
        ]
    );
}

#[test]
fn small_heading_is_bold() {
    assert_eq!(
        plan("<h3>T</h3>"),
        vec![("T".to_string(), Some("<b>T</b>".to_string())), ("T".to_string(), None)]
    );
}

#[test]
fn paragraph_label_then_its_children() {
    assert_eq!(
        plan("<p>Outro <strong>texto</strong> e</p>"),
        vec![
            ("Outrotextoe".to_string(), None),
            ("Outro".to_string(), None),
            ("texto".to_string(), None),
            ("e".to_string(), None),
        ]
    );
}

#[test]
fn unknown_tags_pass_through_to_children() {
    assert_eq!(
        plan("<div><section>loose</section><p>para</p></div>"),
        vec![("loose".to_string(), None), ("para".to_string(), None), ("para".to_string(), None)]
    );
}

#[test]
fn empty_heading_gives_no_label() {
    assert!(plan("<h1></h1><p> </p>").is_empty());
}

#[test]
fn root_text_is_a_label() {
    assert_eq!(plan("hello"), vec![("hello".to_string(), None)]);
}
