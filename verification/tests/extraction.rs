use quiz_extract::dom::DomElement;
use quiz_extract::dom::DomNode;
use quiz_extract::extract::parse_questions;
use quiz_extract::extract::ExtractError;

const QUESTION_CLASS: &str = "has-luminous-vivid-orange-color has-text-color";
const IMAGE_CLASS: &str = "wp-block-image";

fn elem(name: &str, attrs: &[(&str, &str)], children: Vec<DomNode>) -> DomElement {
    DomElement {
        name: name.to_string(),
        attrs: attrs
            .iter()
            .map(|(k, v)| (k.to_string(), v.to_string()))
            .collect(),
        children,
    }
}

fn text(s: &str) -> DomNode {
    DomNode::Text(s.to_string())
}

fn marker(title: &str) -> DomNode {
    DomNode::Element(elem(
        "p",
        &[("class", QUESTION_CLASS)],
        vec![text(title)],
    ))
}

fn answer_para(children: Vec<DomNode>) -> DomNode {
    DomNode::Element(elem("p", &[], children))
}

fn image_container(src: &str) -> DomNode {
    DomNode::Element(elem(
        "div",
        &[("class", IMAGE_CLASS)],
        vec![DomNode::Element(elem(
            "figure",
            &[],
            vec![DomNode::Element(elem("img", &[("src", src)], vec![]))],
        ))],
    ))
}

fn root(children: Vec<DomNode>) -> DomElement {
    elem("html", &[], children)
}

#[test]
fn extraction_without_image() {
    let doc = root(vec![
        marker("3. What does a red light mean?"),
        answer_para(vec![
            DomNode::Element(elem("strong", &[], vec![text("A. Stop")])),
            text("B. Go"),
            text("C. Slow down"),
        ]),
    ]);
    let qs = parse_questions(&doc, QUESTION_CLASS, IMAGE_CLASS).unwrap();
    assert_eq!(qs.len(), 1);
    let q = &qs[0];
    assert_eq!(q.title, "What does a red light mean?");
    assert_eq!(q.img_src, None);
    assert_eq!(q.answer_choices.len(), 3);
    let correct: Vec<_> = q.answer_choices.iter().filter(|c| c.is_answer).collect();
    assert_eq!(correct.len(), 1);
    assert_eq!(correct[0].text, "Stop");
    assert_eq!(q.answer_choices[1].text, "Go");
    assert_eq!(q.answer_choices[2].text, "Slow down");
}

#[test]
fn extraction_with_image_resumes_after_answer() {
    let doc = root(vec![
        text("preamble"),
        marker("1.1 First"),
        image_container("https://example.net/images/a.webp"),
        answer_para(vec![text("A. one"), text("B. two")]),
        marker("1.2 Second"),
        answer_para(vec![text("A. three")]),
    ]);
    let qs = parse_questions(&doc, QUESTION_CLASS, IMAGE_CLASS).unwrap();
    assert_eq!(qs.len(), 2);
    assert_eq!(qs[0].title, "First");
    assert_eq!(
        qs[0].img_src.as_deref(),
        Some("https://example.net/images/a.webp")
    );
    assert_eq!(qs[0].answer_choices.len(), 2);
    assert_eq!(qs[1].title, "Second");
    assert_eq!(qs[1].img_src, None);
    assert_eq!(qs[1].answer_choices.len(), 1);
    assert_eq!(qs[1].answer_choices[0].text, "three");
}

#[test]
fn figure_without_img_fails_whole_extraction() {
    let container = DomNode::Element(elem(
        "div",
        &[("class", IMAGE_CLASS)],
        vec![DomNode::Element(elem("figure", &[], vec![text("empty")]))],
    ));
    let doc = root(vec![
        marker("good question first"),
        answer_para(vec![text("A. fine")]),
        marker("broken question"),
        container,
        answer_para(vec![text("A. never reached")]),
    ]);
    let r = parse_questions(&doc, QUESTION_CLASS, IMAGE_CLASS);
    assert_eq!(r.unwrap_err(), ExtractError::MissingImg);
}

#[test]
fn container_without_figure_fails() {
    let container = DomNode::Element(elem("div", &[("class", IMAGE_CLASS)], vec![]));
    let doc = root(vec![marker("q"), container, answer_para(vec![])]);
    let r = parse_questions(&doc, QUESTION_CLASS, IMAGE_CLASS);
    assert_eq!(r.unwrap_err(), ExtractError::MissingFigure);
}

#[test]
fn img_without_src_fails() {
    let container = DomNode::Element(elem(
        "div",
        &[("class", IMAGE_CLASS)],
        vec![DomNode::Element(elem(
            "figure",
            &[],
            vec![DomNode::Element(elem("img", &[("alt", "x")], vec![]))],
        ))],
    ));
    let doc = root(vec![marker("q"), container, answer_para(vec![])]);
    let r = parse_questions(&doc, QUESTION_CLASS, IMAGE_CLASS);
    assert_eq!(r.unwrap_err(), ExtractError::MissingSrc);
}

#[test]
fn marker_with_nothing_after_fails() {
    let doc = root(vec![marker("q"), text("only text follows")]);
    let r = parse_questions(&doc, QUESTION_CLASS, IMAGE_CLASS);
    assert_eq!(r.unwrap_err(), ExtractError::NoElementAfterTitle);
}

#[test]
fn image_with_no_paragraph_after_fails() {
    let doc = root(vec![
        marker("q"),
        image_container("https://example.net/i.webp"),
        text("trailing text"),
    ]);
    let r = parse_questions(&doc, QUESTION_CLASS, IMAGE_CLASS);
    assert_eq!(r.unwrap_err(), ExtractError::NoParagraphAfterImage);
}

#[test]
fn whitespace_only_children_produce_no_choice() {
    let doc = root(vec![
        marker("q"),
        answer_para(vec![
            text(" \n "),
            DomNode::Element(elem("strong", &[], vec![text("A. yes")])),
            text("\n"),
            text("B. no"),
        ]),
    ]);
    let qs = parse_questions(&doc, QUESTION_CLASS, IMAGE_CLASS).unwrap();
    assert_eq!(qs.len(), 1);
    assert_eq!(qs[0].answer_choices.len(), 2);
    assert!(qs[0].answer_choices[0].is_answer);
    assert_eq!(qs[0].answer_choices[0].text, "yes");
    assert!(!qs[0].answer_choices[1].is_answer);
    assert_eq!(qs[0].answer_choices[1].text, "no");
}

#[test]
fn non_strong_elements_in_answers_are_skipped() {
    let doc = root(vec![
        marker("q"),
        answer_para(vec![
            DomNode::Element(elem("em", &[], vec![text("ignored")])),
            text("A. kept"),
        ]),
    ]);
    let qs = parse_questions(&doc, QUESTION_CLASS, IMAGE_CLASS).unwrap();
    assert_eq!(qs[0].answer_choices.len(), 1);
    assert_eq!(qs[0].answer_choices[0].text, "kept");
}

#[test]
fn title_joins_descendant_text_of_element_children() {
    let doc = root(vec![
        DomNode::Element(elem(
            "p",
            &[("class", QUESTION_CLASS)],
            vec![
                text("2."),
                DomNode::Element(elem(
                    "em",
                    &[],
                    vec![text("nested"), DomNode::Element(elem("b", &[], vec![text("deep")]))],
                )),
                text("tail"),
            ],
        )),
        answer_para(vec![text("A. x")]),
    ]);
    let qs = parse_questions(&doc, QUESTION_CLASS, IMAGE_CLASS).unwrap();
    assert_eq!(qs[0].title, "nested deep tail");
}

#[test]
fn document_without_marker_yields_nothing() {
    let doc = root(vec![
        text("loose"),
        answer_para(vec![text("A. unclaimed")]),
    ]);
    let qs = parse_questions(&doc, QUESTION_CLASS, IMAGE_CLASS).unwrap();
    assert!(qs.is_empty());
}

#[test]
fn ordinary_paragraph_is_not_a_marker() {
    let doc = root(vec![
        DomNode::Element(elem("p", &[("class", "other-class")], vec![text("not it")])),
        marker("real"),
        answer_para(vec![text("A. x")]),
    ]);
    let qs = parse_questions(&doc, QUESTION_CLASS, IMAGE_CLASS).unwrap();
    assert_eq!(qs.len(), 1);
    assert_eq!(qs[0].title, "real");
}
