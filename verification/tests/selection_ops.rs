use layered_nlp::x;
use layered_nlp::{create_tokens, AttrData, AttrKind, InputToken, LLCursorAssignment, LLLine,
    LLLineDisplay, LLSelection, Resolver, TextTag};

const HERE: u64 = 7;

struct TestResolver<F: Fn(LLSelection) -> Vec<LLCursorAssignment>>(F);

impl<F: Fn(LLSelection) -> Vec<LLCursorAssignment>> Resolver for TestResolver<F> {
    fn go(&self, start: LLSelection) -> Vec<LLCursorAssignment> {
        (self.0)(start)
    }
}

fn test_line(input: &str) -> LLLine {
    create_tokens(
        vec![InputToken::text(input.to_string(), Vec::new())],
        |text| text.encode_utf16().count(),
    )
}

fn here() -> AttrData {
    AttrData::Custom(HERE, String::from("\"here\""))
}

fn test_resolver<F>(s: &str, f: F) -> String
where
    F: Fn(LLSelection) -> Vec<LLCursorAssignment>,
{
    let ll_line = test_line(s).run(&TestResolver(f)).unwrap();
    let mut ll_display = LLLineDisplay::new(&ll_line);
    ll_display.include_kind(AttrKind::Custom(HERE));
    ll_display.to_string()
}

#[test]
fn find_by() {
    let split_by_char = |range_sel: LLSelection| {
        range_sel
            .find_by(&x::attr(AttrKind::Char))
            .into_iter()
            .map(|(sel, _)| sel.finish_with_attr(here()))
            .collect()
    };
    assert_eq!(test_resolver("0000aa0000.000aa000.0000aa0000", &split_by_char), "0000  aa  0000  .  000  aa  000  .  0000  aa  0000\n                ╰\"here\"\n                                 ╰\"here\"");
    assert_eq!(test_resolver("0000aa0000...000aa000..0000aa0000", &split_by_char), "0000  aa  0000  .  .  .  000  aa  000  .  .  0000  aa  0000\n                ╰\"here\"\n                   ╰\"here\"\n                      ╰\"here\"\n                                       ╰\"here\"\n                                          ╰\"here\"");
    assert_eq!(test_resolver(".0000aa0000.000aa000.0000aa0000.", &split_by_char), ".  0000  aa  0000  .  000  aa  000  .  0000  aa  0000  .\n╰\"here\"\n                   ╰\"here\"\n                                    ╰\"here\"\n                                                       ╰\"here\"");
    assert_eq!(test_resolver(".00.", &split_by_char), ".  00  .\n╰\"here\"\n       ╰\"here\"");
    assert_eq!(test_resolver(".", &split_by_char), ".\n╰\"here\"");
}

#[test]
fn find_first_by() {
    let split_by_char = |range_sel: LLSelection| {
        range_sel
            .find_first_by(&x::attr(AttrKind::Char))
            .into_iter()
            .map(|(sel, _)| sel.finish_with_attr(here()))
            .collect()
    };
    assert_eq!(test_resolver("0000aa0000.000aa000.0000aa0000", &split_by_char), "0000  aa  0000  .  000  aa  000  .  0000  aa  0000\n                ╰\"here\"");
    assert_eq!(test_resolver("0000aa0000...000aa000..0000aa0000", &split_by_char), "0000  aa  0000  .  .  .  000  aa  000  .  .  0000  aa  0000\n                ╰\"here\"");
    assert_eq!(test_resolver(".0000aa0000.000aa000.0000aa0000.", &split_by_char), ".  0000  aa  0000  .  000  aa  000  .  0000  aa  0000  .\n╰\"here\"");
    assert_eq!(test_resolver(".00.", &split_by_char), ".  00  .\n╰\"here\"");
    assert_eq!(test_resolver(".", &split_by_char), ".\n╰\"here\"");
}

#[test]
fn split_by() {
    let split_by_char = |range_sel: LLSelection| {
        range_sel
            .split_by(&x::attr(AttrKind::Char))
            .into_iter()
            .map(|sel| sel.finish_with_attr(here()))
            .collect()
    };
    assert_eq!(test_resolver("0000aa0000.000aa000.0000aa0000", &split_by_char), "0000  aa  0000  .  000  aa  000  .  0000  aa  0000\n╰────────────╯\"here\"\n                   ╰──────────╯\"here\"\n                                    ╰────────────╯\"here\"");
    assert_eq!(test_resolver("0000aa0000...000aa000..0000aa0000", &split_by_char), "0000  aa  0000  .  .  .  000  aa  000  .  .  0000  aa  0000\n╰────────────╯\"here\"\n                         ╰──────────╯\"here\"\n                                             ╰────────────╯\"here\"");
    assert_eq!(test_resolver(".0000aa0000.000aa000.0000aa0000.", &split_by_char), ".  0000  aa  0000  .  000  aa  000  .  0000  aa  0000  .\n   ╰────────────╯\"here\"\n                      ╰──────────╯\"here\"\n                                       ╰────────────╯\"here\"");
    assert_eq!(test_resolver(".00.", &split_by_char), ".  00  .\n   ╰╯\"here\"");
    assert_eq!(test_resolver(".", &split_by_char), ".");
}

#[test]
fn find_by_seq() {
    let split_by_char = |range_sel: LLSelection| {
        range_sel
            .find_by(&x::seq(
                x::attr(AttrKind::Char),
                x::attr_eq(&AttrData::Tag(TextTag::NATN)),
            ))
            .into_iter()
            .map(|(sel, _)| sel.finish_with_attr(here()))
            .collect()
    };
    assert_eq!(test_resolver("0000aa0000.000aa000.0000aa0000", &split_by_char), "0000  aa  0000  .  000  aa  000  .  0000  aa  0000\n                ╰────╯\"here\"\n                                 ╰─────╯\"here\"");
    assert_eq!(test_resolver("0000aa0000...000aa000..0000aa0000", &split_by_char), "0000  aa  0000  .  .  .  000  aa  000  .  .  0000  aa  0000\n                      ╰────╯\"here\"\n                                          ╰─────╯\"here\"");
    assert_eq!(test_resolver(".0000aa0000.000aa000.0000aa0000.", &split_by_char), ".  0000  aa  0000  .  000  aa  000  .  0000  aa  0000  .\n╰─────╯\"here\"\n                   ╰────╯\"here\"\n                                    ╰─────╯\"here\"");
    assert_eq!(test_resolver(".00.", &split_by_char), ".  00  .\n╰───╯\"here\"");
    assert_eq!(test_resolver(".", &split_by_char), ".");
}

#[test]
fn match_seq_forwards() {
    let split_by_char = |range_sel: LLSelection| {
        range_sel
            .find_by(&x::attr(AttrKind::Tag))
            .into_iter()
            .map(|(sel, _)| {
                sel.match_forwards(&x::seq(
                    x::attr_eq(&AttrData::Tag(TextTag::NATN)),
                    x::attr_eq(&AttrData::Tag(TextTag::WORD)),
                ))
            })
            .flatten()
            .map(|(sel, _)| sel.finish_with_attr(here()))
            .collect()
    };
    assert_eq!(test_resolver("0000aa0000.000aa000.0000aa0000", &split_by_char), "0000  aa  0000  .  000  aa  000  .  0000  aa  0000\n                ╰────────╯\"here\"\n                                 ╰─────────╯\"here\"");
    assert_eq!(test_resolver("0000aa0000...000aa000..0000aa0000", &split_by_char), "0000  aa  0000  .  .  .  000  aa  000  .  .  0000  aa  0000\n                      ╰────────╯\"here\"\n                                          ╰─────────╯\"here\"");
    assert_eq!(test_resolver(".0000aa0000.000aa000.0000aa0000.", &split_by_char), ".  0000  aa  0000  .  000  aa  000  .  0000  aa  0000  .\n╰─────────╯\"here\"\n                   ╰────────╯\"here\"\n                                    ╰─────────╯\"here\"");
    assert_eq!(test_resolver(".00.", &split_by_char), ".  00  .");
    assert_eq!(test_resolver(".", &split_by_char), ".");
}

#[test]
fn match_seq_backwards() {
    let split_by_char = |range_sel: LLSelection| {
        range_sel
            .find_by(&x::attr(AttrKind::Tag))
            .into_iter()
            .map(|(sel, _)| {
                sel.match_backwards(&x::seq(
                    x::attr_eq(&AttrData::Tag(TextTag::NATN)),
                    x::attr_eq(&AttrData::Tag(TextTag::WORD)),
                ))
            })
            .flatten()
            .map(|(sel, _)| sel.finish_with_attr(here()))
            .collect()
    };
    assert_eq!(test_resolver("0000aa0000.000aa000.0000aa0000", &split_by_char), "0000  aa  0000  .  000  aa  000  .  0000  aa  0000\n      ╰─────────╯\"here\"\n                        ╰────────╯\"here\"");
    assert_eq!(test_resolver("0000aa0000...000aa000..0000aa0000", &split_by_char), "0000  aa  0000  .  .  .  000  aa  000  .  .  0000  aa  0000\n      ╰─────────╯\"here\"\n                              ╰────────╯\"here\"");
    assert_eq!(test_resolver(".0000aa0000.000aa000.0000aa0000.", &split_by_char), ".  0000  aa  0000  .  000  aa  000  .  0000  aa  0000  .\n         ╰─────────╯\"here\"\n                           ╰────────╯\"here\"\n                                             ╰─────────╯\"here\"");
    assert_eq!(test_resolver(".00.", &split_by_char), ".  00  .");
    assert_eq!(test_resolver(".", &split_by_char), ".");
}
