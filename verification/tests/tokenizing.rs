use layered_nlp::{create_tokens, InputToken, LLLine};

fn test_line(input: &str) -> LLLine {
    create_tokens(
        vec![InputToken::text(input.to_string(), Vec::new())],
        |text| text.encode_utf16().count(),
    )
}

fn split_input(input: &str) -> String {
    format!("{:#?}", test_line(input).ll_tokens())
}

#[test]
fn test_tokenizing() {
    let input = ". 1 000.23. € .5";

    assert_eq!(split_input(input), "[\n    LLToken {\n        token_idx: 0,\n        pos_starts_at: 0,\n        pos_ends_at: 1,\n        token: Text(\n            \".\",\n            PUNC,\n        ),\n    },\n    LLToken {\n        token_idx: 1,\n        pos_starts_at: 1,\n        pos_ends_at: 2,\n        token: Text(\n            \" \",\n            SPACE,\n        ),\n    },\n    LLToken {\n        token_idx: 2,\n        pos_starts_at: 2,\n        pos_ends_at: 3,\n        token: Text(\n            \"1\",\n            NATN,\n        ),\n    },\n    LLToken {\n        token_idx: 3,\n        pos_starts_at: 3,\n        pos_ends_at: 4,\n        token: Text(\n            \" \",\n            SPACE,\n        ),\n    },\n    LLToken {\n        token_idx: 4,\n        pos_starts_at: 4,\n        pos_ends_at: 7,\n        token: Text(\n            \"000\",\n            NATN,\n        ),\n    },\n    LLToken {\n        token_idx: 5,\n        pos_starts_at: 7,\n        pos_ends_at: 8,\n        token: Text(\n            \".\",\n            PUNC,\n        ),\n    },\n    LLToken {\n        token_idx: 6,\n        pos_starts_at: 8,\n        pos_ends_at: 10,\n        token: Text(\n            \"23\",\n            NATN,\n        ),\n    },\n    LLToken {\n        token_idx: 7,\n        pos_starts_at: 10,\n        pos_ends_at: 11,\n        token: Text(\n            \".\",\n            PUNC,\n        ),\n    },\n    LLToken {\n        token_idx: 8,\n        pos_starts_at: 11,\n        pos_ends_at: 12,\n        token: Text(\n            \" \",\n            SPACE,\n        ),\n    },\n    LLToken {\n        token_idx: 9,\n        pos_starts_at: 12,\n        pos_ends_at: 13,\n        token: Text(\n            \"€\",\n            SYMB,\n        ),\n    },\n    LLToken {\n        token_idx: 10,\n        pos_starts_at: 13,\n        pos_ends_at: 14,\n        token: Text(\n            \" \",\n            SPACE,\n        ),\n    },\n    LLToken {\n        token_idx: 11,\n        pos_starts_at: 14,\n        pos_ends_at: 15,\n        token: Text(\n            \".\",\n            PUNC,\n        ),\n    },\n    LLToken {\n        token_idx: 12,\n        pos_starts_at: 15,\n        pos_ends_at: 16,\n        token: Text(\n            \"5\",\n            NATN,\n        ),\n    },\n]");
}
