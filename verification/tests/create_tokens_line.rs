use layered_nlp::{create_line_from_input_tokens, AnyAttribute, AttrData, AttrKind,
    InputToken, LLLineDisplay};

const MARK_KIND: u64 = 11;
const LINK_KIND: u64 = 12;

fn mark(label: &str) -> AnyAttribute {
    AnyAttribute::new(AttrData::Custom(MARK_KIND, label.to_string()))
}

#[test]
fn test_create_tokens() {
    let ll_line = create_line_from_input_tokens(
        vec![
            InputToken::text(String::from("Hello, "), Vec::new()),
            InputToken::text(String::from("World"), vec![mark("Bold"), mark("Italic")]),
            InputToken::text(String::from("!"), vec![]),
        ],
        |text| text.len(),
    );

    let mut ll_line_display = LLLineDisplay::new(&ll_line);
    ll_line_display.include_kind(AttrKind::Custom(MARK_KIND));

    assert_eq!(ll_line_display.to_string(), "Hello  ,     World  !\n             ╰───╯Italic\n             ╰───╯Bold");
}

#[test]
fn test_create_tokens_email() {
    let ll_line = create_line_from_input_tokens(
        vec![InputToken::text(
            String::from("name@example.com"),
            vec![
                mark("Italic"),
                AnyAttribute::new(AttrData::Custom(
                    LINK_KIND,
                    String::from("Link { href: \"mailto:name@example.com\" }"),
                )),
            ],
        )],
        |text| text.len(),
    );

    let mut ll_line_display = LLLineDisplay::new(&ll_line);
    ll_line_display.include_kind(AttrKind::Custom(MARK_KIND));
    ll_line_display.include_kind(AttrKind::Custom(LINK_KIND));

    assert_eq!(ll_line_display.to_string(), "name  @  example.com\n╰──────────────────╯Italic\n╰──────────────────╯Link { href: \"mailto:name@example.com\" }");
}
