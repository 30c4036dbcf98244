use dom_parser::element::{is_style_key, parser_attrs};
use dom_parser::node::take_content;
use dom_parser::scanner::{
    find_byte, same_bytes, CARRIAGE_RETURN, EQUALS, FORM_FEED, GREATER_THAN, LINE_FEED, SLASH,
    SPACE, TAB,
};
use dom_parser::style::{declaration, trim};
use dom_parser::tree::normalize;
use dom_parser::value::take_quoted;
use dom_parser::{is_element_char, is_space, parser_style, skip_space, while_element1};

fn b(s: &str) -> &[u8] {
    s.as_bytes()
}

#[test]
fn whitespace_is_the_five_ascii_bytes() {
    for byte in 0..=255u8 {
        let expected = byte == SPACE
            || byte == TAB
            || byte == LINE_FEED
            || byte == FORM_FEED
            || byte == CARRIAGE_RETURN;
        assert_eq!(is_space(byte), expected);
        assert_eq!(is_space(byte), byte.is_ascii_whitespace());
    }
}

#[test]
fn names_end_at_whitespace_and_three_signs() {
    for byte in 0..=255u8 {
        let expected =
            is_space(byte) || byte == GREATER_THAN || byte == EQUALS || byte == SLASH;
        assert_eq!(is_element_char(byte), expected);
    }
    assert!(is_element_char(b'>'));
    assert!(is_element_char(b'='));
    assert!(is_element_char(b'/'));
    assert!(!is_element_char(b'<'));
    assert!(!is_element_char(b'"'));
    assert!(!is_element_char(0x0b));
}

#[test]
fn name_is_the_longest_run() {
    assert_eq!(while_element1(b("div id")), Some((b(" id"), b("div"))));
    assert_eq!(while_element1(b("div>")), Some((b(">"), b("div"))));
    assert_eq!(while_element1(b("a=b")), Some((b("=b"), b("a"))));
    assert_eq!(while_element1(b("br/>")), Some((b("/>"), b("br"))));
    assert_eq!(while_element1(b("name")), Some((b(""), b("name"))));
    assert_eq!(while_element1(b("a<b\"c'")), Some((b(""), b("a<b\"c'"))));
    assert_eq!(
        while_element1("h\u{e9}llo w".as_bytes()),
        Some((b(" w"), "h\u{e9}llo".as_bytes()))
    );
}

#[test]
fn name_must_not_be_empty() {
    assert_eq!(while_element1(b("")), None);
    assert_eq!(while_element1(b(" a")), None);
    assert_eq!(while_element1(b(">a")), None);
    assert_eq!(while_element1(b("=a")), None);
    assert_eq!(while_element1(b("/a")), None);
    assert_eq!(while_element1(b("\ta")), None);
}

#[test]
fn skip_space_drops_leading_whitespace_only() {
    assert_eq!(skip_space(b("")), b(""));
    assert_eq!(skip_space(b("abc ")), b("abc "));
    assert_eq!(skip_space(b(" \t\r\n\x0c abc ")), b("abc "));
    assert_eq!(skip_space(b("   ")), b(""));
    assert_eq!(skip_space(b("\x0babc")), b("\x0babc"));
}

#[test]
fn quoted_value_runs_to_the_closing_quote() {
    assert_eq!(take_quoted(b("abc\" x"), b'"'), Some((b(" x"), b("abc"))));
    assert_eq!(take_quoted(b("\""), b'"'), Some((b(""), b(""))));
    assert_eq!(take_quoted(b("a'b\"c"), b'"'), Some((b("c"), b("a'b"))));
    assert_eq!(
        take_quoted(b("a\\\"b\" c"), b'"'),
        Some((b(" c"), b("a\\\"b")))
    );
    assert_eq!(take_quoted(b("a\\\\\"b"), b'"'), Some((b("b"), b("a\\\\"))));
    assert_eq!(take_quoted(b("a\\'b' c"), b'\''), Some((b(" c"), b("a\\'b"))));
}

#[test]
fn quoted_value_must_be_closed() {
    assert_eq!(take_quoted(b(""), b'"'), None);
    assert_eq!(take_quoted(b("abc"), b'"'), None);
    assert_eq!(take_quoted(b("abc\\\""), b'"'), None);
    assert_eq!(take_quoted(b("abc\\"), b'"'), None);
    assert_eq!(take_quoted(b("a\\nb\""), b'"'), None);
    assert_eq!(take_quoted(b("a\\'b\""), b'"'), None);
}

#[test]
fn trim_cuts_both_ends() {
    assert_eq!(trim(b("")), b(""));
    assert_eq!(trim(b("   ")), b(""));
    assert_eq!(trim(b(" a b ")), b("a b"));
    assert_eq!(trim(b("a")), b("a"));
    assert_eq!(trim(b("\t\r\n a \x0c")), b("a"));
}

#[test]
fn find_byte_counts_up_to_the_first() {
    assert_eq!(find_byte(b("a;b;c"), b';'), 1);
    assert_eq!(find_byte(b(";"), b';'), 0);
    assert_eq!(find_byte(b("abc"), b';'), 3);
    assert_eq!(find_byte(b(""), b';'), 0);
}

#[test]
fn declaration_is_cut_at_the_first_colon() {
    assert_eq!(declaration(b("color:red")), (b("color"), Some(b("red"))));
    assert_eq!(declaration(b("a:b:c")), (b("a"), Some(b("b:c"))));
    assert_eq!(declaration(b("color")), (b("color"), None));
    assert_eq!(declaration(b("color:")), (b("color"), Some(b(""))));
    assert_eq!(declaration(b(":red")), (b(""), Some(b("red"))));
}

#[test]
fn style_value_is_cut_at_each_semicolon() {
    assert_eq!(
        parser_style(b("color:red; margin:0")),
        vec![(b("color"), Some(b("red"))), (b("margin"), Some(b("0")))]
    );
    assert_eq!(
        parser_style(b(" color : red ;; ;bold; a:b:c ;")),
        vec![
            (b("color "), Some(b(" red"))),
            (b("bold"), None),
            (b("a"), Some(b("b:c"))),
        ]
    );
    assert_eq!(parser_style(b("")), vec![]);
    assert_eq!(parser_style(b(" ; ; ")), vec![]);
    assert_eq!(parser_style(b("x")), vec![(b("x"), None)]);
}

#[test]
fn style_key_is_exactly_style() {
    assert!(is_style_key(b("style")));
    assert!(!is_style_key(b("Style")));
    assert!(!is_style_key(b("styles")));
    assert!(!is_style_key(b("styl")));
    assert!(!is_style_key(b("")));
}

#[test]
fn attributes_are_read_until_one_fails() {
    assert_eq!(
        parser_attrs(b(" a=1 b c='2' >x")),
        (
            b(" >x"),
            vec![
                (b("a"), Some(b("1"))),
                (b("b"), None),
                (b("c"), Some(b("2")))
            ]
        )
    );
    assert_eq!(parser_attrs(b("a=1")), (b("a=1"), vec![]));
    assert_eq!(parser_attrs(b("")), (b(""), vec![]));
}

#[test]
fn content_takes_its_first_byte_and_runs_to_the_next_less_than() {
    assert_eq!(take_content(b("abc<d")), (b("<d"), b("abc")));
    assert_eq!(take_content(b("<abc<d")), (b("<d"), b("<abc")));
    assert_eq!(take_content(b("<<")), (b("<"), b("<")));
    assert_eq!(take_content(b("abc")), (b(""), b("abc")));
    assert_eq!(take_content(b("")), (b(""), b("")));
}

#[test]
fn normalize_replaces_line_feeds_only() {
    let mut buffer = b"a\nb\r\n\n c\t".to_vec();
    normalize(&mut buffer);
    assert_eq!(buffer, b"a b\r   c\t".to_vec());
    normalize(&mut buffer);
    assert_eq!(buffer, b"a b\r   c\t".to_vec());
    let mut empty: Vec<u8> = Vec::new();
    normalize(&mut empty);
    assert!(empty.is_empty());
}

#[test]
fn same_bytes_compares_length_and_bytes() {
    assert!(same_bytes(b("div"), b("div")));
    assert!(same_bytes(b(""), b("")));
    assert!(!same_bytes(b("div"), b("Div")));
    assert!(!same_bytes(b("div"), b("di")));
    assert!(!same_bytes(b("di"), b("div")));
}
