use layered_nlp::{create_tokens, AttrData, AttrKind, InputToken, LLLineDisplay,
    TextMatchAssignResolver};

const SERVICE: u64 = 21;

fn service(label: &str) -> Vec<AttrData> {
    vec![AttrData::Custom(SERVICE, label.to_string())]
}

fn lookup() -> Vec<(String, Vec<AttrData>)> {
    vec![
        ("Slack".to_string(), service("Slack")),
        ("Algolia".to_string(), service("Algolia")),
        ("Magic".to_string(), service("Magic")),
        ("Wolfram".to_string(), service("Wolfram")),
    ]
}

fn input_line() -> Vec<InputToken> {
    vec![
        InputToken::text("when Slack hears a message in #general".to_string(), vec![]),
        InputToken::text("Algolia search query: message, table".to_string(), vec![]),
    ]
}

#[test]
fn resolvers_test() {
    let ll_line = create_tokens(input_line(), |text| text.encode_utf16().count());

    let ll_line = ll_line.run(&TextMatchAssignResolver::new(lookup())).unwrap();

    let mut ll_display = LLLineDisplay::new(&ll_line);
    ll_display.include_kind(AttrKind::Custom(SERVICE));

    assert_eq!(ll_display.to_string(), "when     Slack     hears     a     message     in     #  general  Algolia     search     query  :     message  ,     table\n         ╰───╯Slack\n                                                                  ╰─────╯Algolia");
}

#[test]
fn text_match_test() {
    let ll_line = create_tokens(input_line(), |text| text.encode_utf16().count());

    let ll_line = ll_line
        .run(&TextMatchAssignResolver::new_case_insensitive(lookup()))
        .unwrap();

    let mut ll_display = LLLineDisplay::new(&ll_line);
    ll_display.include_kind(AttrKind::Custom(SERVICE));

    assert_eq!(ll_display.to_string(), "when     Slack     hears     a     message     in     #  general  Algolia     search     query  :     message  ,     table\n         ╰───╯Slack\n                                                                  ╰─────╯Algolia");
}

#[test]
fn case_insensitive_folds_case() {
    // an upper-case key only matches a lower-case token through real
    // case folding
    let ll_line = create_tokens(
        vec![InputToken::text("magic".to_string(), vec![])],
        |text| text.encode_utf16().count(),
    );
    let ll_line = ll_line
        .run(&TextMatchAssignResolver::new_case_insensitive(vec![(
            "MAGIC".to_string(),
            service("Magic"),
        )]))
        .unwrap();
    let mut ll_display = LLLineDisplay::new(&ll_line);
    ll_display.include_kind(AttrKind::Custom(SERVICE));
    assert_eq!(ll_display.to_string(), "magic\n\u{2570}\u{2500}\u{2500}\u{2500}\u{256F}Magic");
}
