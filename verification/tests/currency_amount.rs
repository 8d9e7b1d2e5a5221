use layered_nlp::x;
use layered_nlp::{create_tokens, AttrData, AttrKind, FinishWith, InputToken, LLCursorAssignment,
    LLLine, LLLineDisplay, LLSelection, Resolver, TextTag};
use rust_decimal::Decimal;
use std::str::FromStr;

const SYM: u64 = 1;
const AMT: u64 = 2;
const CUR_AMT: u64 = 3;

fn test_line(input: &str) -> LLLine {
    create_tokens(
        vec![InputToken::text(input.to_string(), Vec::new())],
        |text| text.encode_utf16().count(),
    )
}

fn text_of(parts: &[x::OutPart]) -> String {
    parts
        .iter()
        .find_map(|p| match p {
            x::OutPart::Text(s) => Some(s.clone()),
            _ => None,
        })
        .unwrap()
}

fn nat_or_text() -> x::Matcher {
    x::all(x::attr_eq(&AttrData::Tag(TextTag::NATN)), x::token_text())
}

struct CurrencySymbolResolver;

impl Resolver for CurrencySymbolResolver {
    fn go(&self, selection: LLSelection) -> Vec<LLCursorAssignment> {
        selection
            .find_by(&x::token_has_any(&vec![
                AttrData::Char('€'),
                AttrData::Char('$'),
            ]))
            .into_iter()
            .map(|(sel, parts)| match &parts[0] {
                x::OutPart::Val(AttrData::Char('$')) => {
                    sel.finish_with_attr(AttrData::Custom(SYM, "USDDollars".to_string()))
                }
                x::OutPart::Val(AttrData::Char('€')) => {
                    sel.finish_with_attr(AttrData::Custom(SYM, "Euro".to_string()))
                }
                _ => unreachable!(),
            })
            .collect()
    }
}

struct AmountResolver {
    /// Configure for localization
    delimiters: Vec<char>,
    decimal: char,
}

impl Resolver for AmountResolver {
    fn go(&self, search_sel: LLSelection) -> Vec<LLCursorAssignment> {
        let mut search_range_sel = search_sel;
        let mut attrs = vec![];

        loop {
            let (mut selection, parts) = match search_range_sel.find_first_by(&nat_or_text()) {
                Some(found) => found,
                None => break,
            };
            let mut number_string = text_of(&parts);
            let mut last_valid_selection: Option<LLSelection> = None;

            // Avoid trailing delimiters
            loop {
                let delims: Vec<AttrData> =
                    self.delimiters.iter().map(|c| AttrData::Char(*c)).collect();
                if let Some((delimiter_sel, _)) =
                    selection.match_first_forwards(&x::token_has_any(&delims))
                {
                    last_valid_selection = Some(selection.clone());
                    selection = delimiter_sel;
                } else {
                    break;
                }

                if let Some((following_delimiter_sel, parts2)) =
                    selection.match_first_forwards(&nat_or_text())
                {
                    number_string.push_str(&text_of(&parts2));
                    last_valid_selection = None;
                    selection = following_delimiter_sel;
                } else {
                    break;
                }
            }

            if last_valid_selection.is_none() {
                if let Some((with_decimal_sel, _)) = selection
                    .match_first_forwards(&x::token_has_any(&vec![AttrData::Char(self.decimal)]))
                {
                    last_valid_selection = Some(selection.clone());
                    number_string.push('.');
                    selection = with_decimal_sel;
                }

                if let Some((following_decimal_sel, parts2)) =
                    selection.match_first_forwards(&nat_or_text())
                {
                    number_string.push_str(&text_of(&parts2));
                    last_valid_selection = None;
                    selection = following_decimal_sel;
                }
            }

            let value = Decimal::from_str(&number_string).unwrap();
            attrs.push(
                last_valid_selection
                    .unwrap_or_else(|| selection.clone())
                    .finish_with_attr(AttrData::Custom(AMT, format!("Amount({})", value))),
            );

            if let (_, Some(right_sel)) = search_range_sel.split_with(&selection) {
                search_range_sel = right_sel;
            } else {
                break;
            }
        }

        attrs
    }
}

struct CurrencyAmountResolver;

impl Resolver for CurrencyAmountResolver {
    fn go(&self, selection: LLSelection) -> Vec<LLCursorAssignment> {
        selection
            .find_by_forwards_and_backwards(&x::seq(
                x::attr(AttrKind::Custom(SYM)),
                x::attr(AttrKind::Custom(AMT)),
            ))
            .finish_with(|parts: Vec<x::OutPart>| {
                let labels: Vec<String> = parts
                    .into_iter()
                    .filter_map(|p| match p {
                        x::OutPart::Val(AttrData::Custom(_, label)) => Some(label),
                        _ => None,
                    })
                    .collect();
                AttrData::Custom(
                    CUR_AMT,
                    format!("CurrencyAmount({}, {})", labels[0], labels[1]),
                )
            })
    }
}

fn render(ll_line: &LLLine, kinds: &[u64]) -> String {
    let mut ll_line_display = LLLineDisplay::new(ll_line);
    for k in kinds {
        ll_line_display.include_kind(AttrKind::Custom(*k));
    }
    ll_line_display.to_string()
}

#[test]
fn it_works_usd() {
    let ll_line = test_line("$1,000.25")
        .run(&CurrencySymbolResolver)
        .unwrap()
        .run(&AmountResolver { delimiters: vec![','], decimal: '.' })
        .unwrap()
        .run(&CurrencyAmountResolver)
        .unwrap();

    assert_eq!(render(&ll_line, &[SYM, AMT, CUR_AMT]), EXPECTED_USD);

    // the currency symbol sits on the dollar token, the amount spans the
    // five numeric tokens
    let syms = ll_line.query(AttrKind::Custom(SYM));
    assert_eq!(syms.len(), 1);
    assert_eq!(syms[0].0, (0, 0));
    assert_eq!(syms[0].1, "$");
    let amounts = ll_line.query(AttrKind::Custom(AMT));
    assert_eq!(amounts.len(), 1);
    assert_eq!(amounts[0].0, (1, 5));
    assert_eq!(amounts[0].1, "1,000.25");
    assert_eq!(
        amounts[0].2,
        vec![AttrData::Custom(AMT, "Amount(1000.25)".to_string())]
    );
}

#[test]
fn it_works_euro() {
    let ll_line = test_line(". 1 000,25€")
        .run(&CurrencySymbolResolver)
        .unwrap()
        .run(&AmountResolver { delimiters: vec![' '], decimal: ',' })
        .unwrap()
        .run(&CurrencyAmountResolver)
        .unwrap();

    assert_eq!(render(&ll_line, &[SYM, AMT, CUR_AMT]), EXPECTED_EURO);
}

#[test]
fn trailing_delimiter() {
    let ll_line = test_line("100,.")
        .run(&AmountResolver { delimiters: vec![','], decimal: '.' })
        .unwrap();

    assert_eq!(render(&ll_line, &[AMT]), EXPECTED_TRAILING);

    // exactly one amount, worth one hundred, on the leading token alone
    let amounts = ll_line.query(AttrKind::Custom(AMT));
    assert_eq!(amounts.len(), 1);
    assert_eq!(amounts[0].0, (0, 0));
    assert_eq!(amounts[0].1, "100".to_string());
    assert_eq!(
        amounts[0].2,
        vec![AttrData::Custom(AMT, "Amount(100)".to_string())]
    );
}

#[test]
fn amount_numeric_value() {
    // the extracted amount parses to the exact numeric value
    let ll_line = test_line("$1,000.25")
        .run(&AmountResolver { delimiters: vec![','], decimal: '.' })
        .unwrap();
    let amounts = ll_line.query(AttrKind::Custom(AMT));
    assert_eq!(amounts.len(), 1);
    assert_eq!(amounts[0].0, (1, 5));
    match &amounts[0].2[0] {
        AttrData::Custom(_, label) => {
            let inner = label
                .strip_prefix("Amount(")
                .unwrap()
                .strip_suffix(")")
                .unwrap();
            assert_eq!(Decimal::from_str(inner).unwrap(), Decimal::new(100025, 2));
        }
        _ => unreachable!(),
    }
}

const EXPECTED_USD: &str = "$  1  ,  000  .  25\n╰USDDollars\n   ╰──────────────╯Amount(1000.25)\n╰─────────────────╯CurrencyAmount(USDDollars, Amount(1000.25))";
const EXPECTED_EURO: &str = ".     1     000  ,  25  €\n                        ╰Euro\n      ╰──────────────╯Amount(1000.25)\n      ╰─────────────────╯CurrencyAmount(Euro, Amount(1000.25))";
const EXPECTED_TRAILING: &str = "100  ,  .\n╰─╯Amount(100)";
