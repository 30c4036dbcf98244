use dom_parser::{
    classify, next_node, parser_element, parser_end_tag, Assembler, Diagnostic, Document,
    DomElement, DomNodeType, DomTree, ParseError,
};

fn bytes(s: &str) -> &[u8] {
    s.as_bytes()
}

fn start(tag: &str) -> DomNodeType<'_> {
    DomNodeType::ElementStart(DomElement::new(tag.as_bytes()))
}

fn complete(tag: &str) -> DomNodeType<'_> {
    DomNodeType::ElementComplete(DomElement::new(tag.as_bytes()))
}

fn end(tag: &str) -> DomNodeType<'_> {
    DomNodeType::ElementEnd(tag.as_bytes())
}

fn content(text: &str) -> DomNodeType<'_> {
    DomNodeType::Content(text.as_bytes())
}

fn run<'a>(pre: Option<usize>, node: Vec<DomNodeType<'a>>, next: Option<usize>) -> DomTree<'a> {
    DomTree { pre, node, next }
}

fn assert_shareable<T: Send + Sync>() {}

fn node_count(doc: &Document) -> usize {
    let mut n = 0;
    for tree in &doc.forest {
        n += tree.node.len();
    }
    n
}

#[test]
fn empty_buffer_gives_an_empty_document() {
    let mut buffer: Vec<u8> = Vec::new();
    let doc = DomTree::analyze_html(&mut buffer);
    assert!(doc.forest.is_empty());
    assert!(doc.diagnostics.is_empty());
}

#[test]
fn whitespace_alone_gives_an_empty_document() {
    let mut buffer = b" \t\n\r\n  ".to_vec();
    let doc = DomTree::analyze_html(&mut buffer);
    assert!(doc.forest.is_empty());
    assert!(doc.diagnostics.is_empty());
}

#[test]
fn text_alone_is_one_run_of_content() {
    let mut buffer = b"  hello world ".to_vec();
    let doc = DomTree::analyze_html(&mut buffer);
    assert_eq!(
        doc.forest,
        vec![run(None, vec![content("hello world ")], None)]
    );
    assert!(doc.diagnostics.is_empty());
}

#[test]
fn nested_elements_are_linked_runs() {
    let mut buffer = b"<div>text<span>a</span><br/></div>".to_vec();
    let doc = DomTree::analyze_html(&mut buffer);
    assert_eq!(
        doc.forest,
        vec![
            run(None, vec![start("div")], Some(1)),
            run(Some(0), vec![content("text"), start("span")], Some(2)),
            run(
                Some(1),
                vec![content("a"), end("span"), complete("br"), end("div")],
                None
            ),
        ]
    );
    assert!(doc.diagnostics.is_empty());
}

#[test]
fn a_run_begins_behind_each_opening_tag() {
    let mut buffer = b"<a><b>".to_vec();
    let doc = DomTree::analyze_html(&mut buffer);
    assert_eq!(
        doc.forest,
        vec![
            run(None, vec![start("a")], Some(1)),
            run(Some(0), vec![start("b")], Some(2)),
            run(Some(1), vec![], None),
        ]
    );
    assert_eq!(
        doc.diagnostics,
        vec![
            Diagnostic::Problem(ParseError::UnterminatedDocument, bytes("a")),
            Diagnostic::Problem(ParseError::UnterminatedDocument, bytes("b")),
        ]
    );
}

#[test]
fn line_feeds_become_spaces() {
    let mut buffer = b"<p\nclass='a\nb'>one\ntwo</p\n>\n".to_vec();
    {
        let doc = DomTree::analyze_html(&mut buffer);
        let mut p = DomElement::new(bytes("p"));
        p.push_attr(bytes("class"), Some(bytes("a b")));
        assert_eq!(
            doc.forest,
            vec![
                run(None, vec![DomNodeType::ElementStart(p)], Some(1)),
                run(Some(0), vec![content("one two"), end("p")], None),
            ]
        );
        assert!(doc.diagnostics.is_empty());
    }
    assert_eq!(buffer, b"<p class='a b'>one two</p > ".to_vec());
}

#[test]
fn carriage_returns_stay_and_count_as_whitespace() {
    let mut buffer = b"<p\r\nid=x\r>a\r\nb".to_vec();
    let doc = DomTree::analyze_html(&mut buffer);
    let mut p = DomElement::new(bytes("p"));
    p.push_attr(bytes("id"), Some(bytes("x")));
    assert_eq!(
        doc.forest,
        vec![
            run(None, vec![DomNodeType::ElementStart(p)], Some(1)),
            run(Some(0), vec![content("a\r b")], None),
        ]
    );
}

#[test]
fn mismatched_nesting_closes_the_inner_element() {
    let mut buffer = b"<div><span></div>".to_vec();
    let doc = DomTree::analyze_html(&mut buffer);
    assert_eq!(
        doc.forest,
        vec![
            run(None, vec![start("div")], Some(1)),
            run(Some(0), vec![start("span")], Some(2)),
            run(Some(1), vec![end("div")], None),
        ]
    );
    assert_eq!(
        doc.diagnostics,
        vec![Diagnostic::ImplicitlyClosed(bytes("span"))]
    );
}

#[test]
fn element_left_open_is_reported() {
    let mut buffer = b"<div><span></span>".to_vec();
    let doc = DomTree::analyze_html(&mut buffer);
    assert_eq!(
        doc.diagnostics,
        vec![Diagnostic::Problem(
            ParseError::UnterminatedDocument,
            bytes("div")
        )]
    );
}

#[test]
fn end_tag_without_an_open_element_is_unmatched() {
    let mut buffer = b"</div>".to_vec();
    let doc = DomTree::analyze_html(&mut buffer);
    assert_eq!(doc.forest, vec![run(None, vec![end("div")], None)]);
    assert_eq!(
        doc.diagnostics,
        vec![Diagnostic::Problem(
            ParseError::UnmatchedEndTag,
            bytes("div")
        )]
    );
}

#[test]
fn unmatched_end_tag_closes_every_open_element() {
    let mut buffer = b"<a><b></c></a>".to_vec();
    let doc = DomTree::analyze_html(&mut buffer);
    assert_eq!(
        doc.diagnostics,
        vec![
            Diagnostic::ImplicitlyClosed(bytes("b")),
            Diagnostic::ImplicitlyClosed(bytes("a")),
            Diagnostic::Problem(ParseError::UnmatchedEndTag, bytes("c")),
            Diagnostic::Problem(ParseError::UnmatchedEndTag, bytes("a")),
        ]
    );
}

#[test]
fn end_tag_closes_the_innermost_element_of_its_name() {
    let mut buffer = b"<a><b><a><c></a>".to_vec();
    let doc = DomTree::analyze_html(&mut buffer);
    assert_eq!(
        doc.diagnostics,
        vec![
            Diagnostic::ImplicitlyClosed(bytes("c")),
            Diagnostic::Problem(ParseError::UnterminatedDocument, bytes("a")),
            Diagnostic::Problem(ParseError::UnterminatedDocument, bytes("b")),
        ]
    );
}

#[test]
fn tag_names_are_compared_byte_by_byte() {
    let mut buffer = b"<Div></div>".to_vec();
    let doc = DomTree::analyze_html(&mut buffer);
    assert_eq!(
        doc.diagnostics,
        vec![
            Diagnostic::ImplicitlyClosed(bytes("Div")),
            Diagnostic::Problem(ParseError::UnmatchedEndTag, bytes("div")),
        ]
    );
}

#[test]
fn self_closing_element_is_never_open() {
    let mut buffer = b"<br/><hr />".to_vec();
    let doc = DomTree::analyze_html(&mut buffer);
    assert_eq!(
        doc.forest,
        vec![run(None, vec![complete("br"), complete("hr")], None)]
    );
    assert!(doc.diagnostics.is_empty());
}

#[test]
fn tag_that_does_not_parse_is_content_with_a_problem() {
    let mut buffer = b"a < b <div/ <p>".to_vec();
    let doc = DomTree::analyze_html(&mut buffer);
    assert_eq!(
        doc.forest,
        vec![
            run(
                None,
                vec![content("a "), content("< b "), content("<div/ "), start("p")],
                Some(1)
            ),
            run(Some(0), vec![], None),
        ]
    );
    assert_eq!(
        doc.diagnostics,
        vec![
            Diagnostic::Problem(ParseError::EmptyTagName, bytes("< b ")),
            Diagnostic::Problem(ParseError::MalformedTag, bytes("<div/ ")),
            Diagnostic::Problem(ParseError::UnterminatedDocument, bytes("p")),
        ]
    );
}

#[test]
fn end_tag_that_does_not_parse_is_content_with_a_problem() {
    let mut buffer = b"<p></p x></ p></></p".to_vec();
    let doc = DomTree::analyze_html(&mut buffer);
    assert_eq!(
        doc.forest,
        vec![
            run(None, vec![start("p")], Some(1)),
            run(
                Some(0),
                vec![
                    content("</p x>"),
                    content("</ p>"),
                    content("</>"),
                    content("</p")
                ],
                None
            ),
        ]
    );
    assert_eq!(
        doc.diagnostics,
        vec![
            Diagnostic::Problem(ParseError::MalformedTag, bytes("</p x>")),
            Diagnostic::Problem(ParseError::MalformedTag, bytes("</ p>")),
            Diagnostic::Problem(ParseError::MalformedTag, bytes("</>")),
            Diagnostic::Problem(ParseError::MalformedTag, bytes("</p")),
            Diagnostic::Problem(ParseError::UnterminatedDocument, bytes("p")),
        ]
    );
}

#[test]
fn lone_less_than_signs_end() {
    let mut buffer = b"<<<<".to_vec();
    let doc = DomTree::analyze_html(&mut buffer);
    assert_eq!(
        doc.forest,
        vec![run(
            None,
            vec![content("<"), content("<"), content("<"), content("<")],
            None
        )]
    );
    assert_eq!(
        doc.diagnostics,
        vec![
            Diagnostic::Problem(ParseError::MalformedTag, bytes("<")),
            Diagnostic::Problem(ParseError::MalformedTag, bytes("<")),
            Diagnostic::Problem(ParseError::MalformedTag, bytes("<")),
            Diagnostic::Problem(ParseError::EmptyTagName, bytes("<")),
        ]
    );
}

#[test]
fn less_than_sign_may_stand_in_a_name() {
    let mut buffer = b"<div <p>".to_vec();
    let doc = DomTree::analyze_html(&mut buffer);
    let mut div = DomElement::new(bytes("div"));
    div.push_attr(bytes("<p"), None);
    assert_eq!(
        doc.forest,
        vec![
            run(None, vec![DomNodeType::ElementStart(div)], Some(1)),
            run(Some(0), vec![], None),
        ]
    );
}

#[test]
fn adversarial_buffers_end_with_no_more_pieces_than_bytes() {
    let alphabet: [u8; 8] = [b'<', b'=', b'"', b'\'', b'/', b'>', b'\\', b' '];
    let mut buffer: Vec<u8> = Vec::new();
    let mut seed: u32 = 12345;
    for round in 0..400 {
        buffer.clear();
        let len = round % 40;
        for _ in 0..len {
            seed = seed.wrapping_mul(1664525).wrapping_add(1013904223);
            buffer.push(alphabet[(seed >> 24) as usize % alphabet.len()]);
        }
        let bytes_in = buffer.len();
        let doc = DomTree::analyze_html(&mut buffer);
        assert!(node_count(&doc) <= bytes_in);
        assert!(doc.forest.len() <= bytes_in + 1);
    }
}

#[test]
fn buffers_of_one_repeated_byte_end() {
    for byte in [b'<', b'=', b'"', b'\'', b'/', b'>', b'\\', b' ', b'a'] {
        let mut buffer = vec![byte; 1000];
        let doc = DomTree::analyze_html(&mut buffer);
        assert!(node_count(&doc) <= 1000);
    }
}

#[test]
fn links_of_a_forest_lead_both_ways() {
    let mut buffer = b"<a>1<b>2<c>3</c>4</b>5</a>6<d>".to_vec();
    let doc = DomTree::analyze_html(&mut buffer);
    assert_eq!(doc.forest.len(), 5);
    for (i, tree) in doc.forest.iter().enumerate() {
        assert_eq!(tree.pre, if i > 0 { Some(i - 1) } else { None });
        assert_eq!(
            tree.next,
            if i + 1 < doc.forest.len() {
                Some(i + 1)
            } else {
                None
            }
        );
    }
}

#[test]
fn self_closing_tag_is_a_complete_element() {
    let (rest, (element, terminator)) = parser_element(bytes("<br/>")).unwrap();
    assert_eq!(rest, bytes(""));
    assert!(element.attr.is_empty());
    assert_eq!(terminator, bytes("/>"));
    assert_eq!(classify(bytes("<br/>")), Ok((bytes(""), complete("br"))));

    let mut buffer = b"<br/>".to_vec();
    let doc = DomTree::analyze_html(&mut buffer);
    assert_eq!(doc.forest, vec![run(None, vec![complete("br")], None)]);
    assert!(doc.diagnostics.is_empty());
}

#[test]
fn classify_tells_tags_apart() {
    assert_eq!(classify(bytes("  <br/>x")), Ok((bytes("x"), complete("br"))));
    assert_eq!(classify(bytes("<p>x")), Ok((bytes("x"), start("p"))));
    assert_eq!(classify(bytes("text")), Err(ParseError::MalformedTag));
    assert_eq!(classify(bytes(" </p>")), Err(ParseError::EmptyTagName));
    assert_eq!(classify(bytes("")), Err(ParseError::MalformedTag));
}

#[test]
fn classify_gives_the_same_failure_again() {
    for input in ["", "text", "<", "<>", "</p>", "<p", "<p a=\"1>", "  <=", "<p / >"] {
        let first = classify(input.as_bytes());
        let second = classify(input.as_bytes());
        assert!(first.is_err());
        assert_eq!(first, second);
    }
}

#[test]
fn end_tag_takes_whitespace_before_its_end() {
    assert_eq!(
        parser_end_tag(bytes("</div>rest")),
        Ok((bytes("rest"), bytes("div")))
    );
    assert_eq!(
        parser_end_tag(bytes("</div \t>")),
        Ok((bytes(""), bytes("div")))
    );
}

#[test]
fn end_tag_takes_nothing_but_a_name() {
    assert_eq!(parser_end_tag(bytes("</div")), Err(ParseError::MalformedTag));
    assert_eq!(parser_end_tag(bytes("</>")), Err(ParseError::MalformedTag));
    assert_eq!(parser_end_tag(bytes("</ div>")), Err(ParseError::MalformedTag));
    assert_eq!(
        parser_end_tag(bytes("</div id=1>")),
        Err(ParseError::MalformedTag)
    );
    assert_eq!(parser_end_tag(bytes("<div>")), Err(ParseError::MalformedTag));
    assert_eq!(parser_end_tag(bytes("</div/>")), Err(ParseError::MalformedTag));
    assert_eq!(parser_end_tag(bytes("")), Err(ParseError::MalformedTag));
}

#[test]
fn next_node_passes_over_whitespace() {
    let step = next_node(bytes("   "));
    assert_eq!(step.rest, bytes(""));
    assert_eq!(step.node, None);
    assert_eq!(step.problem, None);

    let step = next_node(bytes("  abc <b>"));
    assert_eq!(step.rest, bytes("<b>"));
    assert_eq!(step.node, Some(content("abc ")));
    assert_eq!(step.problem, None);
}

#[test]
fn next_node_prefers_a_tag_to_an_end_tag_to_content() {
    let step = next_node(bytes("<b>x"));
    assert_eq!(step.rest, bytes("x"));
    assert_eq!(step.node, Some(start("b")));
    assert_eq!(step.problem, None);

    let step = next_node(bytes("</b>x"));
    assert_eq!(step.rest, bytes("x"));
    assert_eq!(step.node, Some(end("b")));
    assert_eq!(step.problem, None);

    let step = next_node(bytes("<b x</b>"));
    assert_eq!(step.rest, bytes("</b>"));
    assert_eq!(step.node, Some(content("<b x")));
    assert_eq!(
        step.problem,
        Some(Diagnostic::Problem(ParseError::MalformedTag, bytes("<b x")))
    );
}

#[test]
fn assembler_counts_the_open_elements() {
    let mut state = Assembler::new();
    assert_eq!(state.level(), 0);
    state.accept(start("a"));
    state.accept(start("b"));
    state.accept(complete("c"));
    state.accept(content("text"));
    assert_eq!(state.level(), 2);
    state.accept(end("b"));
    assert_eq!(state.level(), 1);
    state.note(None);
    state.note(Some(Diagnostic::Problem(
        ParseError::MalformedTag,
        bytes("<x"),
    )));
    state.accept(end("zz"));
    assert_eq!(state.level(), 0);
    let doc = state.finish();
    assert_eq!(
        doc.forest,
        vec![
            run(None, vec![start("a")], Some(1)),
            run(Some(0), vec![start("b")], Some(2)),
            run(
                Some(1),
                vec![complete("c"), content("text"), end("b"), end("zz")],
                None
            ),
        ]
    );
    assert_eq!(
        doc.diagnostics,
        vec![
            Diagnostic::Problem(ParseError::MalformedTag, bytes("<x")),
            Diagnostic::ImplicitlyClosed(bytes("a")),
            Diagnostic::Problem(ParseError::UnmatchedEndTag, bytes("zz")),
        ]
    );
}

#[test]
fn attributes_and_styles_reach_the_document() {
    let mut buffer = br#"<div id="id1" style="color:red; margin:0" hidden>x</div>"#.to_vec();
    let doc = DomTree::analyze_html(&mut buffer);
    let mut div = DomElement::new(bytes("div"));
    div.push_attr(bytes("id"), Some(bytes("id1")));
    div.push_attr(bytes("style"), Some(bytes("color:red; margin:0")));
    div.push_attr(bytes("hidden"), None);
    div.push_style(bytes("color"), Some(bytes("red")));
    div.push_style(bytes("margin"), Some(bytes("0")));
    assert_eq!(
        doc.forest,
        vec![
            run(None, vec![DomNodeType::ElementStart(div)], Some(1)),
            run(Some(0), vec![content("x"), end("div")], None),
        ]
    );
    assert!(doc.diagnostics.is_empty());
}

#[test]
fn document_can_be_shared_between_threads() {
    assert_shareable::<Document<'static>>();
    assert_shareable::<DomTree<'static>>();
    assert_shareable::<DomNodeType<'static>>();
    assert_shareable::<DomElement<'static>>();
    assert_shareable::<Diagnostic<'static>>();
}
