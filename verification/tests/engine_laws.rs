use layered_nlp::x;
use layered_nlp::{create_line_from_input_tokens, create_tokens, AttrData, AttrKind, InputToken,
    LLCursorAssignment, LLLine, LLLineDisplay, LLSelection, Resolver, TextTag};
use std::cell::RefCell;

const PIECE: u64 = 31;
const NOTE: u64 = 32;
const KEYWORD: u64 = 33;

fn test_line(input: &str) -> LLLine {
    create_tokens(
        vec![InputToken::text(input.to_string(), Vec::new())],
        |text| text.encode_utf16().count(),
    )
}

struct FnResolver<F: Fn(LLSelection) -> Vec<LLCursorAssignment>>(F);

impl<F: Fn(LLSelection) -> Vec<LLCursorAssignment>> Resolver for FnResolver<F> {
    fn go(&self, start: LLSelection) -> Vec<LLCursorAssignment> {
        (self.0)(start)
    }
}

#[test]
fn seeding_idempotent() {
    // the same token sequence seeds identical index structures
    let a = test_line("a 12, b!");
    let b = test_line("a 12, b!");
    assert_eq!(a.query(AttrKind::Tag), b.query(AttrKind::Tag));
    assert_eq!(a.query(AttrKind::Char), b.query(AttrKind::Char));
    let mut da = LLLineDisplay::new(&a);
    da.include_kind(AttrKind::Tag);
    da.include_kind(AttrKind::Char);
    let mut db = LLLineDisplay::new(&b);
    db.include_kind(AttrKind::Tag);
    db.include_kind(AttrKind::Char);
    assert_eq!(da.to_string(), db.to_string());
}

#[test]
fn range_dedup() {
    // two different values of one kind on one range: the bucket holds
    // both, the index lists the range once
    let line = test_line("a b")
        .run(&FnResolver(|sel: LLSelection| {
            vec![
                sel.finish_with_attr(AttrData::Custom(NOTE, "first".to_string())),
                sel.finish_with_attr(AttrData::Custom(NOTE, "second".to_string())),
            ]
        }))
        .unwrap();
    let found = line.query(AttrKind::Custom(NOTE));
    assert_eq!(found.len(), 1);
    assert_eq!(found[0].0, (0, 2));
    assert_eq!(
        found[0].2,
        vec![
            AttrData::Custom(NOTE, "first".to_string()),
            AttrData::Custom(NOTE, "second".to_string()),
        ]
    );
}

#[test]
fn split_by_single_match() {
    // one match strictly inside: exactly two pieces, nothing matched in
    // either, and the bounds reassemble the selection
    let line = test_line("aa!bb")
        .run(&FnResolver(|sel: LLSelection| {
            sel.split_by(&x::attr(AttrKind::Char))
                .into_iter()
                .map(|piece| piece.finish_with_attr(AttrData::Custom(PIECE, "piece".to_string())))
                .collect()
        }))
        .unwrap();
    let found = line.query(AttrKind::Custom(PIECE));
    assert_eq!(found.len(), 2);
    assert_eq!(found[0].0, (0, 0));
    assert_eq!(found[0].1, "aa");
    assert_eq!(found[1].0, (2, 2));
    assert_eq!(found[1].1, "bb");
}

#[test]
fn clause_split() {
    // one sub-selection per keyword gap, left to right, keywords excluded
    let line = test_line("When it rains and pours")
        .run(&layered_nlp::ClauseKeywordResolver::new(
            vec!["if".to_string(), "when".to_string()],
            vec!["and".to_string()],
            vec!["then".to_string()],
            KEYWORD,
        ))
        .unwrap()
        .run(&FnResolver(|sel: LLSelection| {
            sel.split_by(&x::attr(AttrKind::Custom(KEYWORD)))
                .into_iter()
                .map(|piece| piece.finish_with_attr(AttrData::Custom(PIECE, "piece".to_string())))
                .collect()
        }))
        .unwrap();
    let keywords = line.query(AttrKind::Custom(KEYWORD));
    assert_eq!(keywords.len(), 2);
    assert_eq!(keywords[0].0, (0, 0));
    assert_eq!(keywords[0].1, "When");
    assert_eq!(keywords[1].0, (6, 6));
    assert_eq!(keywords[1].1, "and");
    let pieces = line.query(AttrKind::Custom(PIECE));
    assert_eq!(pieces.len(), 2);
    assert_eq!(pieces[0].0, (1, 5));
    assert_eq!(pieces[0].1, " it rains ");
    assert_eq!(pieces[1].0, (7, 8));
    assert_eq!(pieces[1].1, " pours");
}

#[test]
fn disjunction_short_circuit() {
    // both branches would match: only the first branch's result appears;
    // with the first branch silenced, the second branch's appears instead
    let line = test_line("x");
    let sel_probe = FnResolver(|sel: LLSelection| {
        let both = x::any_of(x::attr_eq(&AttrData::Char('x')), x::token_text());
        let hits = sel.find_by(&both);
        assert_eq!(hits.len(), 1);
        assert_eq!(hits[0].1[0], x::OutPart::Branch(0));
        assert_eq!(hits[0].1[1], x::OutPart::Unit);

        let first_silent = x::any_of(x::attr_eq(&AttrData::Char('y')), x::token_text());
        let hits = sel.find_by(&first_silent);
        assert_eq!(hits.len(), 1);
        assert_eq!(hits[0].1[0], x::OutPart::Branch(1));
        assert_eq!(hits[0].1[1], x::OutPart::Text("x".to_string()));
        Vec::new()
    });
    line.run(&sel_probe).unwrap();
}

#[test]
fn pipeline_exclusivity() {
    // a pass that smuggles a selection out of its call is detected at the
    // ownership handoff, not silently tolerated
    let leaked: RefCell<Option<LLSelection>> = RefCell::new(None);
    let result = test_line("a b").run(&FnResolver(|sel: LLSelection| {
        *leaked.borrow_mut() = Some(sel.clone());
        Vec::new()
    }));
    assert!(result.is_err());
    assert!(leaked.borrow().is_some());

    // an honest pass passes the same handoff
    let ok = test_line("a b").run(&FnResolver(|_sel: LLSelection| Vec::new()));
    assert!(ok.is_ok());
}

#[test]
fn empty_line_runs_no_pass() {
    let line = create_line_from_input_tokens(Vec::new(), |text: &str| text.len());
    assert_eq!(line.ll_tokens().len(), 0);
    let line = line
        .run(&FnResolver(|_sel: LLSelection| {
            panic!("an empty line must not invoke the pass");
        }))
        .unwrap();
    assert_eq!(line.ll_tokens().len(), 0);
}

#[test]
fn apply_assignments_batch() {
    // the merge step on its own: one batch, applied atomically, in order
    let rc = std::rc::Rc::new(test_line("a b"));
    let sel = LLSelection::from_line(rc.clone()).unwrap();
    let first = sel.finish_with_attr(AttrData::Custom(NOTE, "x".to_string()));
    let second = sel.finish_with_attr(AttrData::Custom(NOTE, "y".to_string()));
    drop(sel);
    let line = std::rc::Rc::try_unwrap(rc).ok().unwrap();
    let line = line.apply_assignments(vec![first, second]);
    let found = line.query(AttrKind::Custom(NOTE));
    assert_eq!(found.len(), 1);
    assert_eq!(found[0].0, (0, 2));
    assert_eq!(
        found[0].2,
        vec![
            AttrData::Custom(NOTE, "x".to_string()),
            AttrData::Custom(NOTE, "y".to_string()),
        ]
    );
}

#[test]
fn keyword_priority() {
    // a word in several lists earns the highest-priority keyword:
    // condition-start beats "then" beats "and"
    let line = test_line("go")
        .run(&layered_nlp::ClauseKeywordResolver::new(
            vec!["go".to_string()],
            vec!["go".to_string()],
            vec!["go".to_string()],
            KEYWORD,
        ))
        .unwrap();
    let found = line.query(AttrKind::Custom(KEYWORD));
    assert_eq!(found.len(), 1);
    assert_eq!(
        found[0].2,
        vec![AttrData::Custom(KEYWORD, "ConditionStart".to_string())]
    );

    let line = test_line("go")
        .run(&layered_nlp::ClauseKeywordResolver::new(
            Vec::new(),
            vec!["go".to_string()],
            vec!["go".to_string()],
            KEYWORD,
        ))
        .unwrap();
    let found = line.query(AttrKind::Custom(KEYWORD));
    assert_eq!(found[0].2, vec![AttrData::Custom(KEYWORD, "Then".to_string())]);
}

#[test]
fn trim_whitespace() {
    let line = test_line(" a ")
        .run(&FnResolver(|sel: LLSelection| {
            match sel.trim(&x::whitespace()) {
                Some(trimmed) => {
                    vec![trimmed.finish_with_attr(AttrData::Custom(PIECE, "core".to_string()))]
                }
                None => Vec::new(),
            }
        }))
        .unwrap();
    let found = line.query(AttrKind::Custom(PIECE));
    assert_eq!(found.len(), 1);
    assert_eq!(found[0].0, (1, 1));
    assert_eq!(found[0].1, "a");
}

#[test]
fn trim_everything_is_none() {
    let line = test_line("  ");
    let checker = FnResolver(|sel: LLSelection| {
        assert!(sel.trim(&x::whitespace()).is_none());
        Vec::new()
    });
    line.run(&checker).unwrap();
}

#[test]
fn match_at_line_edges() {
    let line = test_line("a");
    let checker = FnResolver(|sel: LLSelection| {
        // the selection spans the whole line: no room on either side
        assert!(sel.match_forwards(&x::token_text()).is_empty());
        assert!(sel.match_backwards(&x::token_text()).is_empty());
        assert!(sel.after().is_none());
        Vec::new()
    });
    line.run(&checker).unwrap();
}

#[test]
fn direction_symmetry_attr() {
    // a tag matched forward from its start is matched backward from just
    // past its end, reporting the same range
    let line = test_line("ab cd");
    let checker = FnResolver(|sel: LLSelection| {
        let matcher = x::attr_eq(&AttrData::Tag(TextTag::WORD));
        let forward = sel.find_by(&matcher);
        // "ab" and "cd"
        assert_eq!(forward.len(), 2);
        let (first, _) = &forward[0];
        // the rest of the line after the "ab" match starts just past it
        let after_sel = first.after().unwrap();
        let backward = after_sel.match_backwards(&matcher);
        assert_eq!(backward.len(), 1);
        // extending backward over the same range reaches its start again
        vec![backward[0].0.finish_with_attr(AttrData::Custom(NOTE, "sym".to_string()))]
    });
    let line = line.run(&checker).unwrap();
    let found = line.query(AttrKind::Custom(NOTE));
    assert_eq!(found.len(), 1);
    assert_eq!(found[0].0, (0, 2));
}

#[test]
fn display_uses_column_width() {
    // a double-width character shifts the bracket columns by two
    let line = test_line("\u{1F600} a");
    let mut display = LLLineDisplay::new(&line);
    display.include_kind(AttrKind::Char);
    assert_eq!(
        display.to_string(),
        "\u{1F600}     a\n\u{2570}\u{256F}'\u{1F600}'\n    \u{2570}' '\n       \u{2570}'a'"
    );
}
