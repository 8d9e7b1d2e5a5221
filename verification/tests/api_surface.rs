use layered_nlp::p_tokens::{PToken, PTokenAt, PTokenKind, PTokenRange, PTokenRangeTo};
use layered_nlp::type_bucket::TypeBucket;
use layered_nlp::type_id_to_many::TypeIdToMany;
use layered_nlp::x;
use layered_nlp::{create_line_from_string, create_tokens, debug_line, AnyAttribute, AttrData,
    AttrKind, InputToken, LLCursorAssignment, LLLine, LLSelection, Resolver, TextTag};

fn test_line(input: &str) -> LLLine {
    create_tokens(
        vec![InputToken::text(input.to_string(), Vec::new())],
        |text| text.encode_utf16().count(),
    )
}

struct FnResolver<F: Fn(LLSelection) -> Vec<LLCursorAssignment>>(F);

impl<F: Fn(LLSelection) -> Vec<LLCursorAssignment>> Resolver for FnResolver<F> {
    fn go(&self, start: LLSelection) -> Vec<LLCursorAssignment> {
        (self.0)(start)
    }
}

#[test]
fn find_reports_positions() {
    // ". a" -> tokens [.][ ][a]; positions count utf16 units
    let line = test_line(". a");
    let found = line.find(&x::attr_eq(&AttrData::Tag(TextTag::WORD)));
    assert_eq!(found.len(), 1);
    assert_eq!(found[0].range(), (2, 3));
    assert_eq!(found[0].attr(), &vec![x::OutPart::Unit]);
}

#[test]
fn create_line_from_string_uses_byte_len() {
    let line = create_line_from_string("a €");
    // the euro sign is three bytes long
    let found = line.find(&x::token_text());
    assert_eq!(found.len(), 3);
    assert_eq!(found[0].range(), (0, 1));
    assert_eq!(found[1].range(), (1, 2));
    assert_eq!(found[2].range(), (2, 5));
}

#[test]
fn debug_line_renders() {
    let line = test_line("hi");
    let display = debug_line(&line).with(AttrKind::Tag);
    assert_eq!(display.to_string(), "hi\n\u{2570}\u{256F}WORD");
}

#[test]
fn combinators_three_wide() {
    let line = test_line("a b");
    let checker = FnResolver(|sel: LLSelection| {
        // all three agree on the same reached index
        let conj = x::all3(
            x::token_text(),
            x::attr_eq(&AttrData::Tag(TextTag::WORD)),
            x::attr(AttrKind::Char),
        );
        let hits = sel.find_by(&conj);
        assert_eq!(hits.len(), 2);
        assert_eq!(
            hits[0].1,
            vec![
                x::OutPart::Text("a".to_string()),
                x::OutPart::Unit,
                x::OutPart::Val(AttrData::Char('a')),
            ]
        );

        // the three-way choice falls through two silent branches
        let choice = x::any_of3(
            x::attr_eq(&AttrData::Char('z')),
            x::attr_eq(&AttrData::Char('y')),
            x::token_text(),
        );
        let hits = sel.find_by(&choice);
        assert_eq!(hits.len(), 3);
        assert_eq!(
            hits[0].1,
            vec![x::OutPart::Branch(2), x::OutPart::Text("a".to_string())]
        );

        // a three-step sequence spans the whole line
        let chain = x::seq3(
            x::attr_eq(&AttrData::Char('a')),
            x::attr_eq(&AttrData::Tag(TextTag::SPACE)),
            x::attr_eq(&AttrData::Char('b')),
        );
        let hits = sel.find_by(&chain);
        assert_eq!(hits.len(), 1);
        Vec::new()
    });
    line.run(&checker).unwrap();
}

#[test]
fn split_with_leaves_both_sides() {
    let line = test_line("a!b");
    let checker = FnResolver(|sel: LLSelection| {
        let (found_sel, _) = sel.find_first_by(&x::attr_eq(&AttrData::Char('!'))).unwrap();
        let (before, after) = sel.split_with(&found_sel);
        let mut out = Vec::new();
        out.push(
            before
                .unwrap()
                .finish_with_attr(AttrData::Custom(41, "before".to_string())),
        );
        out.push(
            after
                .unwrap()
                .finish_with_attr(AttrData::Custom(42, "after".to_string())),
        );
        out
    });
    let line = line.run(&checker).unwrap();
    assert_eq!(line.query(AttrKind::Custom(41))[0].0, (0, 0));
    assert_eq!(line.query(AttrKind::Custom(42))[0].0, (2, 2));
}

#[test]
fn any_attribute_round_trip() {
    let attr = AnyAttribute::new(AttrData::Custom(5, "note".to_string()));
    assert_eq!(attr.type_id(), AttrKind::Custom(5));
    assert_eq!(attr.extract(), AttrData::Custom(5, "note".to_string()));
}

#[test]
fn type_id_to_many_deduplicates() {
    let mut index = TypeIdToMany::new();
    index.insert_distinct(AttrKind::Char, (0, 0));
    index.insert_distinct(AttrKind::Char, (0, 0));
    index.insert_distinct(AttrKind::Char, (1, 2));
    index.insert_distinct(AttrKind::Tag, (0, 0));
    assert_eq!(index.get(AttrKind::Char), vec![(0, 0), (1, 2)]);
    assert_eq!(index.get(AttrKind::Tag), vec![(0, 0)]);
    assert_eq!(index.get(AttrKind::Custom(1)), Vec::<(usize, usize)>::new());
}

#[test]
fn type_bucket_debug_and_clear() {
    let mut bucket = TypeBucket::new();
    bucket.insert(AttrData::Tag(TextTag::NATN));
    bucket.insert(AttrData::Char('x'));
    bucket.insert_any_attribute(AnyAttribute::new(AttrData::Char('y')));
    assert_eq!(bucket.get_debug(AttrKind::Tag), vec!["NATN".to_string()]);
    assert_eq!(
        bucket.get_debug(AttrKind::Char),
        vec!["'x'".to_string(), "'y'".to_string()]
    );
    bucket.clear();
    assert_eq!(bucket.get(AttrKind::Char), Vec::<AttrData>::new());
}

#[test]
fn position_token_parts() {
    let token = PToken::new(
        PTokenKind::Text("ab".to_string()),
        PTokenAt(0),
        PTokenRangeTo::Before(PTokenAt(1)),
        0,
        2,
    );
    assert_eq!(*token.from_position(), 0);
    assert_eq!(*token.to_position(), 2);
    assert_eq!(*token.token_index_at(), PTokenAt(0));
    assert_eq!(*token.token_index_to(), PTokenRangeTo::Before(PTokenAt(1)));
    match token.kind() {
        PTokenKind::Text(s) => assert_eq!(s, "ab"),
        _ => unreachable!(),
    }
    let range = PTokenRange(vec![token]);
    assert_eq!(range.0.len(), 1);

    // the exclusive end bounds order by position, with End greatest
    assert!(PTokenRangeTo::Before(PTokenAt(1)) < PTokenRangeTo::Before(PTokenAt(2)));
    assert!(PTokenRangeTo::Before(PTokenAt(9)) < PTokenRangeTo::End);
    assert!(PTokenRangeTo::End <= PTokenRangeTo::End);
}
