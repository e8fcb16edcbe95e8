use dodrio_templating::fncallermod::{
    call_function_string, get_red, get_text, is_template_function,
};
use dodrio_templating::routermod::{on_hash_change, template_url_of};
use dodrio_templating::htmlentitiesmod::decode_minimum_html_entities;
use dodrio_templating::microxmlparser::{test_my_parser, Event, Parser};
use dodrio_templating::RootRenderingComponent;

fn rrc() -> RootRenderingComponent {
    RootRenderingComponent {
        html_template: "".to_owned(),
        local_route: "".to_owned(),
        test1: "tst1".to_owned(),
    }
}

fn s(x: &str) -> String {
    x.to_string()
}

fn all_events(parser: &mut Parser) -> Option<Vec<Event>> {
    let mut events = Vec::new();
    loop {
        let ev = parser.try_read_event()?;
        let done = ev == Event::Eof;
        events.push(ev);
        if done {
            return Some(events);
        }
    }
}

#[test]
fn get_red_is_red() {
    assert_eq!(get_red(), "red");
}

#[test]
fn get_text_uses_the_data() {
    assert_eq!(get_text(&rrc()), "get_text from rrc: tst1");
}

#[test]
fn call_function_string_known_names() {
    let r = rrc();
    assert_eq!(call_function_string(&r, "first_text"), "this is first text replaced");
    assert_eq!(call_function_string(&r, "first_attr"), "this is first attr replaces");
    assert_eq!(call_function_string(&r, "get_text"), "get_text from rrc: tst1");
    assert_eq!(call_function_string(&r, "get_red"), "red");
    assert_eq!(call_function_string(&r, "test1"), "tst1");
}

#[test]
fn call_function_string_unknown_name() {
    let r = rrc();
    assert_eq!(
        call_function_string(&r, "nope"),
        "Error: Unrecognized call_function_string: nope"
    );
    assert_eq!(call_function_string(&r, ""), "Error: Unrecognized call_function_string: ");
    assert_eq!(
        call_function_string(&r, "get_red "),
        "Error: Unrecognized call_function_string: get_red "
    );
}

#[test]
fn decode_each_entity() {
    assert_eq!(decode_minimum_html_entities("&quot;"), "\"");
    assert_eq!(decode_minimum_html_entities("&apos;"), "'");
    assert_eq!(decode_minimum_html_entities("&amp;"), "&");
    assert_eq!(decode_minimum_html_entities("&lt;"), "<");
    assert_eq!(decode_minimum_html_entities("&gt;"), ">");
}

#[test]
fn decode_mixed_text() {
    assert_eq!(
        decode_minimum_html_entities("a &lt;b&gt; &quot;c&quot; &apos;d&apos; e&amp;f"),
        "a <b> \"c\" 'd' e&f"
    );
    assert_eq!(decode_minimum_html_entities("&lt;&lt;&lt;"), "<<<");
}

#[test]
fn decode_reads_the_text_once() {
    // what an entity turns into is not read again
    assert_eq!(decode_minimum_html_entities("&amp;lt;"), "&lt;");
    assert_eq!(decode_minimum_html_entities("&amp;quot;"), "&quot;");
    assert_eq!(decode_minimum_html_entities("&amp;amp;"), "&amp;");
}

fn encode(x: &str) -> String {
    let mut out = String::new();
    for c in x.chars() {
        match c {
            '"' => out.push_str("&quot;"),
            '\'' => out.push_str("&apos;"),
            '&' => out.push_str("&amp;"),
            '<' => out.push_str("&lt;"),
            '>' => out.push_str("&gt;"),
            _ => out.push(c),
        }
    }
    out
}

#[test]
fn decode_undoes_encoding() {
    for text in ["&lt;", "a < b && c > \"d\" 'e'", "&amp;quot;", "plain", ""] {
        assert_eq!(decode_minimum_html_entities(&encode(text)), text);
    }
}

#[test]
fn decode_without_ampersand_is_identity() {
    assert_eq!(decode_minimum_html_entities("plain text <b> ö"), "plain text <b> ö");
    assert_eq!(decode_minimum_html_entities(""), "");
}

#[test]
fn decode_unknown_entities_stay() {
    assert_eq!(decode_minimum_html_entities("&nbsp; &lt &amp"), "&nbsp; &lt &amp");
}

#[test]
fn decode_never_lengthens() {
    let input = "&amp;&lt;x&gt;&quot;";
    assert!(decode_minimum_html_entities(input).chars().count() <= input.chars().count());
}

#[test]
fn sample_fragment_events() {
    let events = test_my_parser().expect("the sample fragment reads to its end");
    let expected = vec![
        Event::StartElement(s("div")),
        Event::Attribute(s("id"), s("my_project")),
        Event::Text(s("firstdiv")),
        Event::StartElement(s("h1")),
        Event::Attribute(s("id"), s("hello")),
        Event::Text(s("hahahah5555")),
        Event::EndElement(s("h1")),
        Event::StartElement(s("h2")),
        Event::Attribute(s("id"), s("lala")),
        Event::Text(s("lalala\n        uhuhuh")),
        Event::EndElement(s("h2")),
        Event::Text(s("testfromdiv")),
        Event::EndElement(s("div")),
        Event::Eof,
    ];
    assert_eq!(events, expected);
}

#[test]
fn start_tag_with_several_attributes() {
    let mut p = Parser::new(r#"<text data-t-01="get_color" fill="white">hello</text>"#);
    let events = all_events(&mut p).unwrap();
    assert_eq!(
        events,
        vec![
            Event::StartElement(s("text")),
            Event::Attribute(s("data-t-01"), s("get_color")),
            Event::Attribute(s("fill"), s("white")),
            Event::Text(s("hello")),
            Event::EndElement(s("text")),
            Event::Eof,
        ]
    );
}

#[test]
fn self_closing_tags() {
    let mut p = Parser::new(r#"<a><br/><img src="x.png" /></a>"#);
    let events = all_events(&mut p).unwrap();
    assert_eq!(
        events,
        vec![
            Event::StartElement(s("a")),
            Event::StartElement(s("br")),
            Event::StartElement(s("img")),
            Event::Attribute(s("src"), s("x.png")),
            Event::EndElement(s("a")),
            Event::Eof,
        ]
    );
}

#[test]
fn end_tag_name_skips_white_space() {
    let mut p = Parser::new("<p>x</ p >");
    let events = all_events(&mut p).unwrap();
    assert_eq!(
        events,
        vec![
            Event::StartElement(s("p")),
            Event::Text(s("x")),
            Event::EndElement(s("p")),
            Event::Eof,
        ]
    );
}

#[test]
fn normalization_turns_line_ends_into_lf() {
    let mut p = Parser::new("<p>a\r\nb\rc</p>");
    let events = all_events(&mut p).unwrap();
    assert_eq!(events[1], Event::Text(s("a\nb\nc")));
}

#[test]
fn normalization_removes_comments() {
    let mut p = Parser::new("<p>ab<!-- a comment -->cd</p>");
    let events = all_events(&mut p).unwrap();
    assert_eq!(events[1], Event::Text(s("abcd")));
    let mut p = Parser::new("<p>ab<!-- x-y -->cd</p>");
    let events = all_events(&mut p).unwrap();
    assert_eq!(events[1], Event::Text(s("abcd")));
}

#[test]
fn normalization_keeps_what_is_no_comment() {
    let mut p = Parser::new("<!x/><!-y/>");
    let events = all_events(&mut p).unwrap();
    assert_eq!(
        events,
        vec![Event::StartElement(s("!x")), Event::StartElement(s("!-y")), Event::Eof]
    );
}

#[test]
fn normalization_trims_the_fragment() {
    let mut p = Parser::new(" \t\n x \n ");
    let events = all_events(&mut p);
    // the text runs to the end without a following `<`
    assert_eq!(events, None);
    let mut p = Parser::new(" \t\n <b/> \n ");
    assert_eq!(
        all_events(&mut p).unwrap(),
        vec![Event::StartElement(s("b")), Event::Eof]
    );
}

#[test]
fn normalization_replaces_the_text() {
    let mut p = Parser::new("<a>");
    p.normalization("<b>");
    assert_eq!(p.read_event(), Event::StartElement(s("b")));
    assert_eq!(p.read_event(), Event::Eof);
}

#[test]
fn empty_fragment_is_eof() {
    let mut p = Parser::new("");
    assert_eq!(p.read_event(), Event::Eof);
    assert_eq!(p.read_event(), Event::Eof);
    let mut p = Parser::new("   <!-- only a comment -->");
    assert_eq!(p.read_event(), Event::Eof);
}

#[test]
fn unfinished_event_is_refused_and_reader_stays() {
    let mut p = Parser::new("<div");
    assert_eq!(p.try_read_event(), None);
    assert_eq!(p.try_read_event(), None);
    let mut p = Parser::new(r#"<div id="x"#);
    assert_eq!(p.try_read_event(), Some(Event::StartElement(s("div"))));
    assert_eq!(p.try_read_event(), None);
    assert_eq!(p.try_read_event(), None);
}

#[test]
fn multibyte_text_reads_to_eof() {
    let mut p = Parser::new("<a>é</a>");
    assert_eq!(p.read_event(), Event::StartElement(s("a")));
    assert_eq!(p.read_event(), Event::Text(s("é")));
    assert_eq!(p.read_event(), Event::EndElement(s("a")));
    assert_eq!(p.read_event(), Event::Eof);
}

#[test]
fn text_running_to_the_end_is_refused() {
    let mut p = Parser::new("<p>é</p>é");
    assert_eq!(p.try_read_event(), Some(Event::StartElement(s("p"))));
    assert_eq!(p.try_read_event(), Some(Event::Text(s("é"))));
    assert_eq!(p.try_read_event(), Some(Event::EndElement(s("p"))));
    assert_eq!(p.try_read_event(), None);
}

#[test]
fn empty_attribute_value() {
    let mut p = Parser::new(r#"<a b="">x</a>"#);
    let events = all_events(&mut p).unwrap();
    assert_eq!(
        events,
        vec![
            Event::StartElement(s("a")),
            Event::Attribute(s("b"), s("")),
            Event::Text(s("x")),
            Event::EndElement(s("a")),
            Event::Eof,
        ]
    );
}

#[test]
fn white_space_with_crlf_only_is_eof() {
    let mut p = Parser::new(" \r\n\t ");
    assert_eq!(p.input(), "");
    assert_eq!(p.read_event(), Event::Eof);
    assert_eq!(p.read_event(), Event::Eof);
}

#[test]
fn crlf_at_the_end_is_trimmed() {
    let mut p = Parser::new("<a/>\r\n");
    assert_eq!(p.input(), "<a/>");
    assert_eq!(p.read_event(), Event::StartElement(s("a")));
    assert_eq!(p.read_event(), Event::Eof);
    let p = Parser::new(" \t<a>\r\nx\ry</a>\r\n ");
    assert_eq!(p.input(), "<a>\nx\ny</a>");
    let p = Parser::new("a\r");
    assert_eq!(p.input(), "a");
}

#[test]
fn trimming_comes_after_comment_removal() {
    let p = Parser::new("<!-- c -->\n<a/>\n<!-- d -->");
    assert_eq!(p.input(), "<a/>");
    let mut p = Parser::new("<a/>\n<!-- c -->");
    assert_eq!(p.read_event(), Event::StartElement(s("a")));
    assert_eq!(p.read_event(), Event::Eof);
}

#[test]
fn unfinished_comment_start_is_kept() {
    assert_eq!(Parser::new("a<").input(), "a<");
    assert_eq!(Parser::new("a<!").input(), "a<!");
    assert_eq!(Parser::new("a<!-").input(), "a<!-");
    assert_eq!(Parser::new("a<!--b").input(), "a");
}

#[test]
fn text_events_are_trimmed() {
    let mut p = Parser::new("<p>  \n a  b \t </p>");
    let events = all_events(&mut p).unwrap();
    assert_eq!(events[1], Event::Text(s("a  b")));
}

#[test]
fn template_function_names() {
    for name in ["first_text", "first_attr", "get_text", "get_red", "test1"] {
        assert!(is_template_function(name));
    }
    assert!(!is_template_function("get_blue"));
    assert!(!is_template_function(""));
}

#[test]
fn template_url_of_a_route() {
    assert_eq!(template_url_of("#t1"), "html_templates/t1.html");
    assert_eq!(template_url_of("#a#b"), "html_templates/ab.html");
    assert_eq!(template_url_of(""), "html_templates/.html");
}

#[test]
fn hash_change_to_a_new_route() {
    let mut r = rrc();
    let url = on_hash_change(&mut r, "#page2");
    assert_eq!(url, Some(s("html_templates/page2.html")));
    assert_eq!(r.local_route, "#page2");
    assert_eq!(r.html_template, "");
    assert_eq!(r.test1, "tst1");
}

#[test]
fn hash_change_to_the_same_route() {
    let mut r = rrc();
    r.local_route = s("#page2");
    assert_eq!(on_hash_change(&mut r, "#page2"), None);
    assert_eq!(r.local_route, "#page2");
}

#[test]
fn sample_fragment_normalized_text() {
    let p = Parser::new(dodrio_templating::microxmlparser::SAMPLE_FRAGMENT);
    assert!(p.input().starts_with("<div id=\"my_project\">"));
    assert!(p.input().ends_with("</div>"));
    assert!(!p.input().contains("comment"));
}
