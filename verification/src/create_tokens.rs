//! Building a token line from raw input: split each text unit at Unicode
//! word boundaries, split digit-led pieces further into digit runs,
//! letter runs and punctuation, tag every piece, and seed the line.

use vstd::prelude::*;

use crate::attrs::{AttrData, AttrDataV, TextTag};
use crate::ll_line::{empty_attrs, insert_assignments, seed_attrs, tokens_view, AssignV, LLLine,
    LLToken, LLTokenV, LToken, LTokenV};
use crate::type_bucket::AnyAttribute;

verus! {

/// The segments `split_word_bounds` cuts a string into: a function of the
/// characters alone.
pub uninterp spec fn word_bounds_of(s: Seq<char>) -> Seq<Seq<char>>;

/// The concatenation of a list of strings.
pub open spec fn concat_all(v: Seq<Seq<char>>) -> Seq<char>
    decreases v.len(),
{
    if v.len() == 0 {
        Seq::empty()
    } else {
        concat_all(v.drop_last()) + v.last()
    }
}

/// Relies on `UnicodeSegmentation::split_word_bounds`: the segments
/// depend on the string alone, and their concatenation is exactly the
/// original string.
#[verifier::external_body]
fn split_word_bounds_vec(s: &str) -> (r: Vec<String>)
    ensures
        r.deep_view() == word_bounds_of(s@),
        concat_all(r.deep_view()) == s@,
{
    unicode_segmentation::UnicodeSegmentation::split_word_bounds(s).map(|w| w.to_string()).collect()
}

/// The Unicode letter test, a function of the character alone.
pub uninterp spec fn is_alpha_char(c: char) -> bool;

/// Relies on `char::is_alphabetic`: the result depends on the character
/// alone.
#[verifier::external_body]
fn char_is_alphabetic(c: char) -> (r: bool)
    ensures
        r == is_alpha_char(c),
{
    c.is_alphabetic()
}

/// The Unicode whitespace test, a function of the character alone.
pub uninterp spec fn is_space_char(c: char) -> bool;

/// Relies on `char::is_whitespace`: the result depends on the character
/// alone.
#[verifier::external_body]
fn char_is_whitespace(c: char) -> (r: bool)
    ensures
        r == is_space_char(c),
{
    c.is_whitespace()
}

/// An ASCII decimal digit.
pub open spec fn is_digit_char(c: char) -> bool {
    48 <= c as u32 <= 57
}

/// Whether `c` is an ASCII decimal digit.
fn char_is_ascii_digit(c: char) -> (r: bool)
    ensures
        r == is_digit_char(c),
{
    let u = c as u32;
    48 <= u && u <= 57
}

/// Punctuation, hand-wavily: the characters that can affect how a
/// sentence is split apart.
pub open spec fn is_punc_char(c: char) -> bool {
    c == ',' || c == '.' || c == '!' || c == ';' || c == ':' || c == '?' || c == '\'' || c == '"'
}

/// Whether `c` counts as punctuation.
fn char_is_punc(c: char) -> (r: bool)
    ensures
        r == is_punc_char(c),
{
    c == ',' || c == '.' || c == '!' || c == ';' || c == ':' || c == '?' || c == '\'' || c == '"'
}

/// Every character is whitespace.
pub open spec fn all_spaces(w: Seq<char>) -> bool {
    forall|i: int| 0 <= i < w.len() ==> is_space_char(w[i])
}

/// A word: letters throughout, allowing inner apostrophes and dashes, as
/// in "don't" and "baseball-card".
pub open spec fn is_word_spec(w: Seq<char>) -> bool {
    &&& w.len() > 0
    &&& is_alpha_char(w[0])
    &&& forall|i: int|
        1 <= i < w.len() ==> (is_alpha_char(#[trigger] w[i]) || w[i] == '\'' || w[i] == '-'
            || w[i] == '\u{2013}')
}

/// The lexical tag of one piece: whitespace, single punctuation, a word,
/// or an arbitrary symbol.
pub open spec fn tag_of_word(w: Seq<char>) -> TextTag {
    if all_spaces(w) {
        TextTag::SPACE
    } else if w.len() == 1 && is_punc_char(w[0]) {
        TextTag::PUNC
    } else if is_word_spec(w) {
        TextTag::WORD
    } else {
        TextTag::SYMB
    }
}

/// Whether `input` is entirely whitespace.
pub fn is_spaces(input: &str) -> (r: bool)
    ensures
        r == all_spaces(input@),
{
    let n = input.unicode_len();
    let mut i: usize = 0;
    while i < n
        invariant
            n == input@.len(),
            i <= n,
            forall|j: int| 0 <= j < i ==> is_space_char(input@[j]),
        decreases n - i,
    {
        if !char_is_whitespace(input.get_char(i)) {
            return false;
        }
        i += 1;
    }
    true
}

/// Whether `input` is a word: "don't", "peoples'", and "baseball-card"
/// all count.
pub fn is_word(input: &str) -> (r: bool)
    ensures
        r == is_word_spec(input@),
{
    let n = input.unicode_len();
    if n == 0 {
        return false;
    }
    if !char_is_alphabetic(input.get_char(0)) {
        return false;
    }
    let mut i: usize = 1;
    while i < n
        invariant
            n == input@.len(),
            1 <= i <= n,
            is_alpha_char(input@[0]),
            forall|j: int|
                1 <= j < i ==> (is_alpha_char(#[trigger] input@[j]) || input@[j] == '\''
                    || input@[j] == '-' || input@[j] == '\u{2013}'),
        decreases n - i,
    {
        let c = input.get_char(i);
        if char_is_alphabetic(c) {
        } else if c == '\'' || c == '-' || c == '\u{2013}' {
        } else {
            return false;
        }
        i += 1;
    }
    true
}

/// The lexical tag of one piece of a non-digit-led segment.
pub(crate) fn get_unicode_word_tag(word: &str) -> (r: TextTag)
    ensures
        r == tag_of_word(word@),
{
    if is_spaces(word) {
        TextTag::SPACE
    } else if word.unicode_len() == 1 && char_is_punc(word.get_char(0)) {
        TextTag::PUNC
    } else if is_word(word) {
        TextTag::WORD
    } else {
        TextTag::SYMB
    }
}

/// The pieces still to come in a digit-led segment, given the position
/// reached and the letter and digit runs collected so far.  Digits and
/// letters group into runs tagged NATN and WORD; anything else flushes
/// the runs and stands alone as PUNC.
pub open spec fn digit_led_rest(w: Seq<char>, i: int, letters: Seq<char>, digits: Seq<char>) -> Seq<
    (Seq<char>, TextTag),
>
    decreases w.len() - i,
{
    if i >= w.len() {
        flush_letters(letters) + flush_digits(digits)
    } else {
        let c = w[i];
        if is_digit_char(c) {
            flush_letters(letters) + digit_led_rest(w, i + 1, Seq::empty(), digits.push(c))
        } else if is_alpha_char(c) {
            flush_digits(digits) + digit_led_rest(w, i + 1, letters.push(c), Seq::empty())
        } else {
            flush_letters(letters) + flush_digits(digits) + seq![
                (seq![c], TextTag::PUNC),
            ] + digit_led_rest(w, i + 1, Seq::empty(), Seq::empty())
        }
    }
}

/// The collected letter run as a piece, when it is non-empty.
pub open spec fn flush_letters(letters: Seq<char>) -> Seq<(Seq<char>, TextTag)> {
    if letters.len() > 0 {
        seq![(letters, TextTag::WORD)]
    } else {
        Seq::empty()
    }
}

/// The collected digit run as a piece, when it is non-empty.
pub open spec fn flush_digits(digits: Seq<char>) -> Seq<(Seq<char>, TextTag)> {
    if digits.len() > 0 {
        seq![(digits, TextTag::NATN)]
    } else {
        Seq::empty()
    }
}

/// The pieces still to come in a non-digit-led segment: apostrophes cut
/// the segment, the first apostrophe alone is kept as its own piece, and
/// each piece is tagged on its own.
pub open spec fn apos_rest(w: Seq<char>, i: int, segment: Seq<char>, apos_done: bool) -> Seq<(Seq<
    char,
>, TextTag)>
    decreases w.len() - i,
{
    if i >= w.len() {
        flush_segment(segment)
    } else {
        let c = w[i];
        if c == '\'' {
            flush_segment(segment) + (if !apos_done {
                seq![(seq!['\''], tag_of_word(seq!['\'']))]
            } else {
                Seq::empty()
            }) + apos_rest(w, i + 1, Seq::empty(), true)
        } else {
            apos_rest(w, i + 1, segment.push(c), apos_done)
        }
    }
}

/// The collected characters as a tagged piece, when non-empty.
pub open spec fn flush_segment(segment: Seq<char>) -> Seq<(Seq<char>, TextTag)> {
    if segment.len() > 0 {
        seq![(segment, tag_of_word(segment))]
    } else {
        Seq::empty()
    }
}

/// The tagged pieces of one word-boundary segment.
pub open spec fn segment_pieces(w: Seq<char>) -> Seq<(Seq<char>, TextTag)> {
    if w.len() == 0 {
        Seq::empty()
    } else if is_digit_char(w[0]) {
        digit_led_rest(w, 0, Seq::empty(), Seq::empty())
    } else {
        apos_rest(w, 0, Seq::empty(), false)
    }
}

/// The tagged pieces of a whole string: its word-boundary segments, each
/// split into pieces.
pub open spec fn string_pieces_upto(segs: Seq<Seq<char>>, j: int) -> Seq<(Seq<char>, TextTag)>
    decreases j,
{
    if j <= 0 {
        Seq::empty()
    } else {
        string_pieces_upto(segs, j - 1) + segment_pieces(segs[j - 1])
    }
}

/// The tagged pieces of a whole string.
pub open spec fn string_pieces(s: Seq<char>) -> Seq<(Seq<char>, TextTag)> {
    string_pieces_upto(word_bounds_of(s), word_bounds_of(s).len() as int)
}


/// The lift of a token-size list to the tokens' models.
pub open spec fn ltv(v: Seq<(LToken, usize)>) -> Seq<LTokenV> {
    Seq::new(v.len(), |i: int| v[i].0@)
}

/// Tagged pieces as text-token models.
pub open spec fn pieces_to_tokens(p: Seq<(Seq<char>, TextTag)>) -> Seq<LTokenV> {
    Seq::new(p.len(), |i: int| LTokenV::Text(p[i].0, p[i].1))
}

/// Turning pieces into tokens distributes over concatenation.
pub proof fn lemma_p2t_concat(a: Seq<(Seq<char>, TextTag)>, b: Seq<(Seq<char>, TextTag)>)
    ensures
        pieces_to_tokens(a + b) == pieces_to_tokens(a) + pieces_to_tokens(b),
{
    assert(pieces_to_tokens(a + b) =~~= pieces_to_tokens(a) + pieces_to_tokens(b));
}

/// Where a token ends, given its start and its width: the running
/// position sum saturates at the machine bound.
pub open spec fn pos_step(start: usize, w: usize) -> usize {
    if start + w <= usize::MAX {
        (start + w) as usize
    } else {
        usize::MAX
    }
}

/// The recorded width is a result the sizer can return on that text.
pub open spec fn size_of_sizer<F: Fn(&str) -> usize>(f: F, txt: Seq<char>, w: usize) -> bool {
    exists|s: &str| s@ == txt && call_ensures(f, (s,), w)
}

/// A produced piece carries a width the sizer gave for its text.
pub open spec fn sized_piece<F: Fn(&str) -> usize>(f: F, p: (LToken, usize)) -> bool {
    match p.0@ {
        LTokenV::Text(txt, _) => size_of_sizer(f, txt, p.1),
        LTokenV::Value => true,
    }
}

/// Every text token's span is a width the sizer gave for its text.
pub open spec fn text_widths_ok<F: Fn(&str) -> usize>(f: F, tokens: Seq<LLTokenV>) -> bool {
    forall|i: int|
        0 <= i < tokens.len() ==> (match (#[trigger] tokens[i]).token {
            LTokenV::Text(txt, _) => exists|w: usize|
                size_of_sizer(f, txt, w) && tokens[i].pos_ends_at == pos_step(
                    tokens[i].pos_starts_at,
                    w,
                ),
            LTokenV::Value => true,
        })
}

/// Every placeholder token's span is its unit's declared width.
pub open spec fn custom_widths_ok(
    input: Seq<InputTokenV>,
    tokens: Seq<LLTokenV>,
    upto_j: int,
) -> bool {
    forall|j: int|
        0 <= j < upto_j ==> (match #[trigger] input[j] {
            InputTokenV::Custom(sz, _) => {
                let off = expected_tokens_upto(input, j).len() as int;
                &&& off < tokens.len()
                &&& tokens[off].token == LTokenV::Value
                &&& tokens[off].pos_ends_at == pos_step(tokens[off].pos_starts_at, sz)
            },
            InputTokenV::Text(_, _) => true,
        })
}

/// Flush the collected letter run, if any, as a WORD piece.
fn flush_letters_exec<F: Fn(&str) -> usize>(
    out: &mut Vec<(LToken, usize)>,
    letters: &mut Vec<char>,
    get_text_size: &F,
)
    requires
        forall|s: &str| call_requires(*get_text_size, (s,)),
    ensures
        ltv(final(out)@) == ltv(old(out)@) + pieces_to_tokens(flush_letters(old(letters)@)),
        final(letters)@ == Seq::<char>::empty(),
        forall|q: int| 0 <= q < old(out)@.len() ==> #[trigger] final(out)@[q] == old(out)@[q],
        forall|q: int|
            old(out)@.len() <= q < final(out)@.len() ==> sized_piece(
                *get_text_size,
                #[trigger] final(out)@[q],
            ),
{
    let ghost base = ltv(out@);
    if letters.len() > 0 {
        let text = crate::type_bucket::chars_to_string(letters);
        let tstr = text.as_str();
        let size = get_text_size(tstr);
        proof {
            assert(call_ensures(*get_text_size, (tstr,), size));
            assert(size_of_sizer(*get_text_size, text@, size));
        }
        let ghost lv = letters@;
        out.push((LToken::Text(text, TextTag::WORD), size));
        proof {
            assert(ltv(out@) =~~= base + pieces_to_tokens(flush_letters(lv)));
        }
        letters.clear();
        proof {
            assert(letters@ =~= Seq::<char>::empty());
        }
    } else {
        proof {
            assert(ltv(out@) =~~= base + pieces_to_tokens(flush_letters(letters@)));
            assert(letters@ =~= Seq::<char>::empty());
        }
    }
}

/// Flush the collected digit run, if any, as a NATN piece.
fn flush_digits_exec<F: Fn(&str) -> usize>(
    out: &mut Vec<(LToken, usize)>,
    digits: &mut Vec<char>,
    get_text_size: &F,
)
    requires
        forall|s: &str| call_requires(*get_text_size, (s,)),
    ensures
        ltv(final(out)@) == ltv(old(out)@) + pieces_to_tokens(flush_digits(old(digits)@)),
        final(digits)@ == Seq::<char>::empty(),
        forall|q: int| 0 <= q < old(out)@.len() ==> #[trigger] final(out)@[q] == old(out)@[q],
        forall|q: int|
            old(out)@.len() <= q < final(out)@.len() ==> sized_piece(
                *get_text_size,
                #[trigger] final(out)@[q],
            ),
{
    let ghost base = ltv(out@);
    if digits.len() > 0 {
        let text = crate::type_bucket::chars_to_string(digits);
        let tstr = text.as_str();
        let size = get_text_size(tstr);
        proof {
            assert(call_ensures(*get_text_size, (tstr,), size));
            assert(size_of_sizer(*get_text_size, text@, size));
        }
        let ghost dv = digits@;
        out.push((LToken::Text(text, TextTag::NATN), size));
        proof {
            assert(ltv(out@) =~~= base + pieces_to_tokens(flush_digits(dv)));
        }
        digits.clear();
        proof {
            assert(digits@ =~= Seq::<char>::empty());
        }
    } else {
        proof {
            assert(ltv(out@) =~~= base + pieces_to_tokens(flush_digits(digits@)));
            assert(digits@ =~= Seq::<char>::empty());
        }
    }
}

/// Flush the collected segment, if any, tagged on its own.
fn flush_segment_exec<F: Fn(&str) -> usize>(
    out: &mut Vec<(LToken, usize)>,
    segment: &mut Vec<char>,
    get_text_size: &F,
)
    requires
        forall|s: &str| call_requires(*get_text_size, (s,)),
    ensures
        ltv(final(out)@) == ltv(old(out)@) + pieces_to_tokens(flush_segment(old(segment)@)),
        final(segment)@ == Seq::<char>::empty(),
        forall|q: int| 0 <= q < old(out)@.len() ==> #[trigger] final(out)@[q] == old(out)@[q],
        forall|q: int|
            old(out)@.len() <= q < final(out)@.len() ==> sized_piece(
                *get_text_size,
                #[trigger] final(out)@[q],
            ),
{
    let ghost base = ltv(out@);
    if segment.len() > 0 {
        let text = crate::type_bucket::chars_to_string(segment);
        let tag = get_unicode_word_tag(text.as_str());
        let tstr = text.as_str();
        let size = get_text_size(tstr);
        proof {
            assert(call_ensures(*get_text_size, (tstr,), size));
            assert(size_of_sizer(*get_text_size, text@, size));
        }
        let ghost sv = segment@;
        out.push((LToken::Text(text, tag), size));
        proof {
            assert(ltv(out@) =~~= base + pieces_to_tokens(flush_segment(sv)));
        }
        segment.clear();
        proof {
            assert(segment@ =~= Seq::<char>::empty());
        }
    } else {
        proof {
            assert(ltv(out@) =~~= base + pieces_to_tokens(flush_segment(segment@)));
            assert(segment@ =~= Seq::<char>::empty());
        }
    }
}

/// Split `input` into tagged pieces, each with its caller-computed size.
fn create_tokens_for_string<F: Fn(&str) -> usize>(input: &str, get_text_size: &F) -> (r: Vec<
    (LToken, usize),
>)
    requires
        forall|s: &str| call_requires(*get_text_size, (s,)),
    ensures
        ltv(r@) == pieces_to_tokens(string_pieces(input@)),
        concat_all(word_bounds_of(input@)) == input@,
        forall|q: int|
            0 <= q < r@.len() ==> sized_piece(*get_text_size, #[trigger] r@[q]),
{
    let segs = split_word_bounds_vec(input);
    let ghost segsv = segs.deep_view();
    let mut out: Vec<(LToken, usize)> = Vec::new();
    let nsegs = segs.len();
    let mut j: usize = 0;
    proof {
        assert(ltv(out@) =~= pieces_to_tokens(string_pieces_upto(segsv, 0)));
    }
    while j < nsegs
        invariant
            forall|s: &str| call_requires(*get_text_size, (s,)),
            nsegs == segs@.len(),
            j <= nsegs,
            segsv == segs.deep_view(),
            segsv == word_bounds_of(input@),
            ltv(out@) == pieces_to_tokens(string_pieces_upto(segsv, j as int)),
            forall|q: int|
                0 <= q < out@.len() ==> sized_piece(*get_text_size, #[trigger] out@[q]),
        decreases nsegs - j,
    {
        let ghost base = ltv(out@);
        let seg = &segs[j];
        let ghost w = segsv[j as int];
        proof {
            assert(w == seg@);
        }
        let wlen = seg.as_str().unicode_len();
        if wlen == 0 {
            proof {
                assert(segment_pieces(w) =~= Seq::<(Seq<char>, TextTag)>::empty());
                assert(ltv(out@) =~~= base + pieces_to_tokens(segment_pieces(w)));
            }
        } else if char_is_ascii_digit(seg.as_str().get_char(0)) {
            // split digit word boundaries apart: unicode grouping keeps
            // digits, separators and letters together, such as "12,3"
            let mut letters: Vec<char> = Vec::new();
            let mut digits: Vec<char> = Vec::new();
            let mut i: usize = 0;
            proof {
                assert(ltv(out@) + pieces_to_tokens(digit_led_rest(w, 0, letters@, digits@))
                    =~~= base + pieces_to_tokens(digit_led_rest(w, 0, Seq::empty(), Seq::empty())));
            }
            while i < wlen
                invariant
                    forall|s: &str| call_requires(*get_text_size, (s,)),
                    wlen == w.len(),
                    i <= wlen,
                    w == seg@,
                    ltv(out@) + pieces_to_tokens(digit_led_rest(w, i as int, letters@, digits@))
                        == base + pieces_to_tokens(
                        digit_led_rest(w, 0, Seq::empty(), Seq::empty()),
                    ),
                    forall|q: int|
                        0 <= q < out@.len() ==> sized_piece(*get_text_size, #[trigger] out@[q]),
                decreases wlen - i,
            {
                let c = seg.as_str().get_char(i);
                let ghost lv = letters@;
                let ghost dv = digits@;
                let ghost pre = ltv(out@);
                if char_is_ascii_digit(c) {
                    flush_letters_exec(&mut out, &mut letters, get_text_size);
                    digits.push(c);
                    proof {
                        assert(digit_led_rest(w, i as int, lv, dv) == flush_letters(lv)
                            + digit_led_rest(w, i + 1, Seq::empty(), dv.push(c)));
                        assert(ltv(out@) + pieces_to_tokens(
                            digit_led_rest(w, i + 1, letters@, digits@),
                        ) =~~= base + pieces_to_tokens(
                            digit_led_rest(w, 0, Seq::empty(), Seq::empty()),
                        ));
                    }
                } else if char_is_alphabetic(c) {
                    flush_digits_exec(&mut out, &mut digits, get_text_size);
                    letters.push(c);
                    proof {
                        assert(digit_led_rest(w, i as int, lv, dv) == flush_digits(dv)
                            + digit_led_rest(w, i + 1, lv.push(c), Seq::empty()));
                        assert(ltv(out@) + pieces_to_tokens(
                            digit_led_rest(w, i + 1, letters@, digits@),
                        ) =~~= base + pieces_to_tokens(
                            digit_led_rest(w, 0, Seq::empty(), Seq::empty()),
                        ));
                    }
                } else {
                    flush_letters_exec(&mut out, &mut letters, get_text_size);
                    flush_digits_exec(&mut out, &mut digits, get_text_size);
                    let mut punc: Vec<char> = Vec::new();
                    punc.push(c);
                    let text = crate::type_bucket::chars_to_string(&punc);
                    let tstr = text.as_str();
                    let size = get_text_size(tstr);
                    proof {
                        assert(call_ensures(*get_text_size, (tstr,), size));
                        assert(size_of_sizer(*get_text_size, text@, size));
                    }
                    let ghost pre2 = ltv(out@);
                    out.push((LToken::Text(text, TextTag::PUNC), size));
                    proof {
                        let rest_next = digit_led_rest(w, i + 1, Seq::empty(), Seq::empty());
                        assert(punc@ =~= seq![c]);
                        assert(ltv(out@) =~~= pre2.push(LTokenV::Text(seq![c], TextTag::PUNC)));
                        assert(digit_led_rest(w, i as int, lv, dv) == flush_letters(lv)
                            + flush_digits(dv) + seq![(seq![c], TextTag::PUNC)] + rest_next);
                        lemma_p2t_concat(
                            flush_letters(lv) + flush_digits(dv) + seq![(seq![c], TextTag::PUNC)],
                            rest_next,
                        );
                        lemma_p2t_concat(
                            flush_letters(lv) + flush_digits(dv),
                            seq![(seq![c], TextTag::PUNC)],
                        );
                        lemma_p2t_concat(flush_letters(lv), flush_digits(dv));
                        assert(pieces_to_tokens(seq![(seq![c], TextTag::PUNC)]) =~= seq![
                            LTokenV::Text(seq![c], TextTag::PUNC),
                        ]);
                        assert(ltv(out@) + pieces_to_tokens(
                            digit_led_rest(w, i + 1, letters@, digits@),
                        ) =~~= base + pieces_to_tokens(
                            digit_led_rest(w, 0, Seq::empty(), Seq::empty()),
                        ));
                    }
                }
                i += 1;
            }
            flush_letters_exec(&mut out, &mut letters, get_text_size);
            flush_digits_exec(&mut out, &mut digits, get_text_size);
            proof {
                assert(digit_led_rest(w, wlen as int, Seq::empty(), Seq::empty()) =~= Seq::<(Seq<
                    char,
                >, TextTag)>::empty());
                assert(ltv(out@) =~~= base + pieces_to_tokens(segment_pieces(w)));
            }
        } else {
            let mut segment: Vec<char> = Vec::new();
            let mut apos_done = false;
            let mut i: usize = 0;
            proof {
                assert(ltv(out@) + pieces_to_tokens(apos_rest(w, 0, segment@, apos_done)) =~~= base
                    + pieces_to_tokens(apos_rest(w, 0, Seq::empty(), false)));
            }
            while i < wlen
                invariant
                    forall|s: &str| call_requires(*get_text_size, (s,)),
                    wlen == w.len(),
                    i <= wlen,
                    w == seg@,
                    ltv(out@) + pieces_to_tokens(apos_rest(w, i as int, segment@, apos_done))
                        == base + pieces_to_tokens(apos_rest(w, 0, Seq::empty(), false)),
                    forall|q: int|
                        0 <= q < out@.len() ==> sized_piece(*get_text_size, #[trigger] out@[q]),
                decreases wlen - i,
            {
                let c = seg.as_str().get_char(i);
                let ghost sv = segment@;
                let ghost ad = apos_done;
                if c == '\'' {
                    flush_segment_exec(&mut out, &mut segment, get_text_size);
                    let ghost apos_piece = (if !ad {
                        seq![(seq!['\''], tag_of_word(seq!['\'']))]
                    } else {
                        Seq::<(Seq<char>, TextTag)>::empty()
                    });
                    let ghost pre2 = ltv(out@);
                    if !apos_done {
                        let mut apos: Vec<char> = Vec::new();
                        apos.push('\'');
                        let text = crate::type_bucket::chars_to_string(&apos);
                        let tag = get_unicode_word_tag(text.as_str());
                        let tstr = text.as_str();
                        let size = get_text_size(tstr);
                        proof {
                            assert(apos@ =~= seq!['\'']);
                            assert(call_ensures(*get_text_size, (tstr,), size));
                            assert(size_of_sizer(*get_text_size, text@, size));
                        }
                        out.push((LToken::Text(text, tag), size));
                        proof {
                            assert(ltv(out@) =~~= pre2 + pieces_to_tokens(apos_piece));
                        }
                    } else {
                        proof {
                            assert(ltv(out@) =~~= pre2 + pieces_to_tokens(apos_piece));
                        }
                    }
                    apos_done = true;
                    proof {
                        let rest_next = apos_rest(w, i + 1, Seq::empty(), true);
                        assert(apos_rest(w, i as int, sv, ad) == flush_segment(sv) + apos_piece
                            + rest_next);
                        lemma_p2t_concat(flush_segment(sv) + apos_piece, rest_next);
                        lemma_p2t_concat(flush_segment(sv), apos_piece);
                        assert(ltv(out@) + pieces_to_tokens(
                            apos_rest(w, i + 1, segment@, apos_done),
                        ) =~~= base + pieces_to_tokens(apos_rest(w, 0, Seq::empty(), false)));
                    }
                } else {
                    segment.push(c);
                    proof {
                        assert(apos_rest(w, i as int, sv, ad) == apos_rest(
                            w,
                            i + 1,
                            sv.push(c),
                            ad,
                        ));
                        assert(ltv(out@) + pieces_to_tokens(
                            apos_rest(w, i + 1, segment@, apos_done),
                        ) =~~= base + pieces_to_tokens(apos_rest(w, 0, Seq::empty(), false)));
                    }
                }
                i += 1;
            }
            flush_segment_exec(&mut out, &mut segment, get_text_size);
            proof {
                assert(apos_rest(w, wlen as int, Seq::empty(), apos_done) =~= Seq::<(Seq<
                    char,
                >, TextTag)>::empty());
                assert(ltv(out@) =~~= base + pieces_to_tokens(segment_pieces(w)));
            }
        }
        j += 1;
        proof {
            assert(ltv(out@) =~~= pieces_to_tokens(string_pieces_upto(segsv, j as int)));
        }
    }
    out
}


/// Model of an input token.
#[verifier::ext_equal]
pub enum InputTokenV {
    Text(Seq<char>, Seq<AttrDataV>),
    Custom(usize, Seq<AttrDataV>),
}

/// One unit of caller input: a text to be split and tagged, or an opaque
/// placeholder of a caller-given width; both may carry prepared custom
/// attributes spanning all the tokens they produce.
pub enum InputToken {
    Text {
        /// This text will be split up and its pieces tagged
        text: String,
        /// Custom attributes
        attrs: Vec<AnyAttribute>,
    },
    Custom {
        /// Position relative size
        size: usize,
        /// Custom attributes
        attrs: Vec<AnyAttribute>,
    },
}

impl View for InputToken {
    type V = InputTokenV;

    open spec fn view(&self) -> InputTokenV {
        match self {
            InputToken::Text { text, attrs } => InputTokenV::Text(text@, attrs.deep_view()),
            InputToken::Custom { size, attrs } => InputTokenV::Custom(*size, attrs.deep_view()),
        }
    }
}

impl InputToken {
    /// A text unit with the given custom attributes.
    pub fn text(text: String, attrs: Vec<AnyAttribute>) -> (r: Self)
        ensures
            r@ == InputTokenV::Text(text@, attrs.deep_view()),
    {
        InputToken::Text { text, attrs }
    }

    /// A placeholder unit of the given width with custom attributes.
    pub fn custom(size: usize, attrs: Vec<AnyAttribute>) -> (r: Self)
        ensures
            r@ == InputTokenV::Custom(size, attrs.deep_view()),
    {
        InputToken::Custom { size, attrs }
    }

    /// Attach one more custom attribute.
    pub fn add_attr(&mut self, value: AttrData)
        ensures
            final(self)@ == (match old(self)@ {
                InputTokenV::Text(t, a) => InputTokenV::Text(t, a.push(value@)),
                InputTokenV::Custom(sz, a) => InputTokenV::Custom(sz, a.push(value@)),
            }),
    {
        match self {
            InputToken::Text { attrs, .. } => {
                attrs.push(AnyAttribute::new(value));
                proof {
                    assert(attrs.deep_view() =~= old(self)@->Text_1.push(value@));
                }
            },
            InputToken::Custom { attrs, .. } => {
                attrs.push(AnyAttribute::new(value));
                proof {
                    assert(attrs.deep_view() =~= old(self)@->Custom_1.push(value@));
                }
            },
        }
    }
}

/// The custom attributes of one input token.
pub open spec fn attrs_of(t: InputTokenV) -> Seq<AttrDataV> {
    match t {
        InputTokenV::Text(_, a) => a,
        InputTokenV::Custom(_, a) => a,
    }
}

/// The token models one input token produces.
pub open spec fn input_token_models(t: InputTokenV) -> Seq<LTokenV> {
    match t {
        InputTokenV::Text(txt, _) => pieces_to_tokens(string_pieces(txt)),
        InputTokenV::Custom(_, _) => seq![LTokenV::Value],
    }
}

/// The token models of the first `j` input tokens, in order.
pub open spec fn expected_tokens_upto(input: Seq<InputTokenV>, j: int) -> Seq<LTokenV>
    decreases j,
{
    if j <= 0 {
        Seq::empty()
    } else {
        expected_tokens_upto(input, j - 1) + input_token_models(input[j - 1])
    }
}

/// The token models of the whole input.
pub open spec fn expected_tokens(input: Seq<InputTokenV>) -> Seq<LTokenV> {
    expected_tokens_upto(input, input.len() as int)
}

/// The custom-attribute assignments of the first `j` input tokens: each
/// token's attributes span exactly the tokens it produced.
pub open spec fn group_assigns_upto(input: Seq<InputTokenV>, j: int) -> Seq<AssignV>
    decreases j,
{
    if j <= 0 {
        Seq::empty()
    } else {
        group_assigns_upto(input, j - 1) + crate::ll_line::assigns_of(
            expected_tokens_upto(input, j - 1).len() as usize,
            (expected_tokens_upto(input, j).len() - 1) as usize,
            attrs_of(input[j - 1]),
        )
    }
}

/// A non-empty collected segment always flushes to at least one piece.
proof fn lemma_apos_rest_nonempty(w: Seq<char>, i: int, segment: Seq<char>, apos_done: bool)
    requires
        0 <= i <= w.len(),
        segment.len() > 0 || (i < w.len() && !apos_done),
    ensures
        apos_rest(w, i, segment, apos_done).len() > 0,
    decreases w.len() - i,
{
    if i >= w.len() {
    } else {
        let c = w[i];
        if c == '\'' {
        } else {
            lemma_apos_rest_nonempty(w, i + 1, segment.push(c), apos_done);
        }
    }
}

/// A digit-led segment in progress always flushes to at least one piece.
proof fn lemma_digit_led_rest_nonempty(w: Seq<char>, i: int, letters: Seq<char>, digits: Seq<char>)
    requires
        0 <= i <= w.len(),
        letters.len() > 0 || digits.len() > 0 || i < w.len(),
    ensures
        digit_led_rest(w, i, letters, digits).len() > 0,
    decreases w.len() - i,
{
    if i >= w.len() {
    } else {
        let c = w[i];
        if is_digit_char(c) {
            lemma_digit_led_rest_nonempty(w, i + 1, Seq::empty(), digits.push(c));
        } else if is_alpha_char(c) {
            lemma_digit_led_rest_nonempty(w, i + 1, letters.push(c), Seq::empty());
        } else {
        }
    }
}

/// A non-empty segment yields at least one piece.
proof fn lemma_segment_pieces_nonempty(w: Seq<char>)
    requires
        w.len() > 0,
    ensures
        segment_pieces(w).len() > 0,
{
    if is_digit_char(w[0]) {
        lemma_digit_led_rest_nonempty(w, 0, Seq::empty(), Seq::empty());
    } else {
        lemma_apos_rest_nonempty(w, 0, Seq::empty(), false);
    }
}

/// If the concatenation of the segments is non-empty, some segment is.
proof fn lemma_concat_nonempty(v: Seq<Seq<char>>)
    requires
        concat_all(v).len() > 0,
    ensures
        exists|j: int| 0 <= j < v.len() && (#[trigger] v[j]).len() > 0,
    decreases v.len(),
{
    if v.len() > 0 {
        if v.last().len() > 0 {
            assert(v[v.len() - 1].len() > 0);
        } else {
            lemma_concat_nonempty(v.drop_last());
            let j = choose|j: int| 0 <= j < v.drop_last().len() && (#[trigger] v.drop_last()[
                j
            ]).len() > 0;
            assert(v[j].len() > 0);
        }
    }
}

/// Pieces accumulate across segments.
proof fn lemma_string_pieces_upto_len(segs: Seq<Seq<char>>, j: int, j2: int)
    requires
        0 <= j <= j2 <= segs.len(),
    ensures
        string_pieces_upto(segs, j).len() <= string_pieces_upto(segs, j2).len(),
    decreases j2 - j,
{
    if j < j2 {
        lemma_string_pieces_upto_len(segs, j, j2 - 1);
    }
}

/// A non-empty string yields at least one piece, given that its segments
/// concatenate back to it.
proof fn lemma_string_pieces_nonempty(t: Seq<char>)
    requires
        t.len() > 0,
        concat_all(word_bounds_of(t)) == t,
    ensures
        string_pieces(t).len() > 0,
{
    let segs = word_bounds_of(t);
    lemma_concat_nonempty(segs);
    let j = choose|j: int| 0 <= j < segs.len() && (#[trigger] segs[j]).len() > 0;
    lemma_segment_pieces_nonempty(segs[j]);
    assert(string_pieces_upto(segs, j + 1).len() > 0);
    lemma_string_pieces_upto_len(segs, j + 1, segs.len() as int);
}

/// Applying concatenated assignment lists applies them one after the
/// other.
proof fn lemma_insert_assignments_concat(m: crate::ll_line::AttrsV, a: Seq<AssignV>, b: Seq<
    AssignV,
>)
    ensures
        insert_assignments(m, a + b) == insert_assignments(insert_assignments(m, a), b),
    decreases b.len(),
{
    if b.len() == 0 {
        assert(a + b =~= a);
    } else {
        assert((a + b).drop_last() =~= a + b.drop_last());
        assert((a + b).last() == b.last());
        lemma_insert_assignments_concat(m, a, b.drop_last());
    }
}


/// Splits the input units and generates lexical tags.  Kept as the older
/// name of [`create_line_from_input_tokens`].
pub fn create_tokens<F: Fn(&str) -> usize>(input: Vec<InputToken>, get_text_size: F) -> (r: LLLine)
    requires
        forall|s: &str| call_requires(get_text_size, (s,)),
        forall|i: int|
            0 <= i < input@.len() ==> match (#[trigger] input@[i])@ {
                InputTokenV::Text(t, _) => t.len() > 0,
                InputTokenV::Custom(_, _) => true,
            },
    ensures
        r.wf(),
        r@.tokens.len() == expected_tokens(input.deep_view()).len(),
        forall|i: int|
            0 <= i < r@.tokens.len() ==> (#[trigger] r@.tokens[i]).token == expected_tokens(
                input.deep_view(),
            )[i],
        r@.tokens.len() > 0 ==> r@.tokens[0].pos_starts_at == 0,
        forall|i: int|
            1 <= i < r@.tokens.len() ==> (#[trigger] r@.tokens[i]).pos_starts_at == r@.tokens[i
                - 1].pos_ends_at,
        text_widths_ok(get_text_size, r@.tokens),
        custom_widths_ok(input.deep_view(), r@.tokens, input.deep_view().len() as int),
        r@.attrs == insert_assignments(
            seed_attrs(r@.tokens, r@.tokens.len(), r@.tokens.len() as int),
            group_assigns_upto(input.deep_view(), input.deep_view().len() as int),
        ),
{
    create_line_from_input_tokens(input, get_text_size)
}

/// The token models of a built token list.
pub open spec fn lltokens_models(v: Seq<LLToken>) -> Seq<LTokenV> {
    Seq::new(v.len(), |i: int| v[i]@.token)
}

/// Token counts accumulate across input tokens.
proof fn lemma_expected_upto_len(input: Seq<InputTokenV>, j: int, j2: int)
    requires
        0 <= j <= j2 <= input.len(),
    ensures
        expected_tokens_upto(input, j).len() <= expected_tokens_upto(input, j2).len(),
    decreases j2 - j,
{
    if j < j2 {
        lemma_expected_upto_len(input, j, j2 - 1);
    }
}

impl DeepView for InputToken {
    type V = InputTokenV;

    open spec fn deep_view(&self) -> InputTokenV {
        self.view()
    }
}

/// Build a line from input units: split and tag each text unit, seed the
/// store, then attach each unit's custom attributes across the span of
/// the tokens it produced.  `get_text_size` gives each produced text's
/// width in the caller's own units; positions are the running sums.
pub fn create_line_from_input_tokens<F: Fn(&str) -> usize>(input: Vec<InputToken>, get_text_size: F) -> (r: LLLine)
    requires
        forall|s: &str| call_requires(get_text_size, (s,)),
        forall|i: int|
            0 <= i < input@.len() ==> match (#[trigger] input@[i])@ {
                InputTokenV::Text(t, _) => t.len() > 0,
                InputTokenV::Custom(_, _) => true,
            },
    ensures
        r.wf(),
        r@.tokens.len() == expected_tokens(input.deep_view()).len(),
        forall|i: int|
            0 <= i < r@.tokens.len() ==> (#[trigger] r@.tokens[i]).token == expected_tokens(
                input.deep_view(),
            )[i],
        r@.tokens.len() > 0 ==> r@.tokens[0].pos_starts_at == 0,
        forall|i: int|
            1 <= i < r@.tokens.len() ==> (#[trigger] r@.tokens[i]).pos_starts_at == r@.tokens[i
                - 1].pos_ends_at,
        text_widths_ok(get_text_size, r@.tokens),
        custom_widths_ok(input.deep_view(), r@.tokens, input.deep_view().len() as int),
        r@.attrs == insert_assignments(
            seed_attrs(r@.tokens, r@.tokens.len(), r@.tokens.len() as int),
            group_assigns_upto(input.deep_view(), input.deep_view().len() as int),
        ),
{
    let ghost inputv = input.deep_view();
    let mut rest_input = input;
    let mut groups: Vec<(usize, usize, Vec<AnyAttribute>)> = Vec::new();
    let mut lltokens: Vec<LLToken> = Vec::new();
    let mut current_size: usize = 0;
    let total = rest_input.len();
    let mut g: usize = 0;
    proof {
        assert(lltokens_models(lltokens@) =~= expected_tokens_upto(inputv, 0));
    }
    while g < total
        invariant
            forall|s: &str| call_requires(get_text_size, (s,)),
            total == inputv.len(),
            g <= total,
            g + rest_input@.len() == total,
            forall|q: int|
                0 <= q < rest_input@.len() ==> (#[trigger] rest_input@[q])@ == inputv[g + q],
            forall|i: int|
                0 <= i < inputv.len() ==> match #[trigger] inputv[i] {
                    InputTokenV::Text(t, _) => t.len() > 0,
                    InputTokenV::Custom(_, _) => true,
                },
            lltokens_models(lltokens@) == expected_tokens_upto(inputv, g as int),
            forall|i: int|
                0 <= i < lltokens@.len() ==> (#[trigger] lltokens@[i]).token_idx == i,
            lltokens@.len() > 0 ==> lltokens@[0].pos_starts_at == 0,
            forall|i: int|
                1 <= i < lltokens@.len() ==> (#[trigger] lltokens@[i]).pos_starts_at == lltokens@[
                    i - 1].pos_ends_at,
            lltokens@.len() > 0 ==> lltokens@.last().pos_ends_at == current_size,
            lltokens@.len() == 0 ==> current_size == 0,
            text_widths_ok(get_text_size, tokens_view(lltokens@)),
            custom_widths_ok(inputv, tokens_view(lltokens@), g as int),
            groups@.len() == g,
            forall|q: int|
                0 <= q < g ==> (#[trigger] groups@[q]).0 == expected_tokens_upto(inputv, q).len()
                    && groups@[q].1 + 1 == expected_tokens_upto(inputv, q + 1).len() && groups@[
                    q
                ].0 <= groups@[q].1 && groups@[q].2.deep_view() == attrs_of(inputv[q]),
        decreases total - g,
    {
        let tok = rest_input.remove(0);
        proof {
            assert(tok@ == inputv[g as int]);
        }
        let from_idx = lltokens.len();
        let ghost base_models = lltokens_models(lltokens@);
        match tok {
            InputToken::Text { text, attrs } => {
                let mut pieces = create_tokens_for_string(text.as_str(), &get_text_size);
                proof {
                    lemma_string_pieces_nonempty(text@);
                }
                let ghost pv = ltv(pieces@);
                let piece_count = pieces.len();
                let mut p: usize = 0;
                while p < piece_count
                    invariant
                        piece_count == pv.len(),
                        p + pieces@.len() == piece_count,
                        forall|q: int|
                            0 <= q < pieces@.len() ==> (#[trigger] pieces@[q]).0@ == pv[p + q],
                        forall|q: int|
                            0 <= q < pieces@.len() ==> sized_piece(
                                get_text_size,
                                #[trigger] pieces@[q],
                            ),
                        text_widths_ok(get_text_size, tokens_view(lltokens@)),
                        custom_widths_ok(inputv, tokens_view(lltokens@), g as int),
                        lltokens_models(lltokens@) == base_models + pv.take(p as int),
                        lltokens@.len() == base_models.len() + p,
                        forall|i: int|
                            0 <= i < lltokens@.len() ==> (#[trigger] lltokens@[i]).token_idx == i,
                        lltokens@.len() > 0 ==> lltokens@[0].pos_starts_at == 0,
                        forall|i: int|
                            1 <= i < lltokens@.len() ==> (#[trigger] lltokens@[i]).pos_starts_at
                                == lltokens@[i - 1].pos_ends_at,
                        lltokens@.len() > 0 ==> lltokens@.last().pos_ends_at == current_size,
                        lltokens@.len() == 0 ==> current_size == 0,
                    decreases piece_count - p,
                {
                    let (ltoken, size) = pieces.remove(0);
                    proof {
                        assert(ltoken@ == pv[p as int]);
                        assert(sized_piece(get_text_size, (ltoken, size)));
                    }
                    let next_size = if current_size <= usize::MAX - size {
                        current_size + size
                    } else {
                        usize::MAX
                    };
                    let ghost pre = lltokens_models(lltokens@);
                    let ghost old_lltokens = lltokens@;
                    let ghost tv = ltoken@;
                    lltokens.push(
                        LLToken {
                            token_idx: lltokens.len(),
                            pos_starts_at: current_size,
                            pos_ends_at: next_size,
                            token: ltoken,
                        },
                    );
                    current_size = next_size;
                    p += 1;
                    proof {
                        assert(lltokens_models(lltokens@) =~~= pre.push(tv));
                        assert(pv.take(p as int).drop_last() =~= pv.take(p - 1));
                        assert(pv.take(p as int).last() == pv[p - 1]);
                        assert(base_models + pv.take(p as int) =~~= (base_models + pv.take(p - 1)).push(tv));
                        assert(lltokens_models(lltokens@) =~~= base_models + pv.take(p as int));
                        let toks = tokens_view(lltokens@);
                        assert forall|i: int| 0 <= i < toks.len() implies (match (
                        #[trigger] toks[i]).token {
                            LTokenV::Text(txt, _) => exists|w: usize|
                                size_of_sizer(get_text_size, txt, w) && toks[i].pos_ends_at
                                    == pos_step(toks[i].pos_starts_at, w),
                            LTokenV::Value => true,
                        }) by {
                            if i < toks.len() - 1 {
                                assert(toks[i] == tokens_view(old_lltokens)[i]);
                            } else {
                                assert(toks[i].pos_ends_at == pos_step(
                                    toks[i].pos_starts_at,
                                    size,
                                ));
                            }
                        }
                        assert forall|j: int| 0 <= j < g as int implies (match #[trigger] inputv[j] {
                            InputTokenV::Custom(sz, _) => {
                                let off = expected_tokens_upto(inputv, j).len() as int;
                                &&& off < toks.len()
                                &&& toks[off].token == LTokenV::Value
                                &&& toks[off].pos_ends_at == pos_step(toks[off].pos_starts_at, sz)
                            },
                            InputTokenV::Text(_, _) => true,
                        }) by {
                            match inputv[j] {
                                InputTokenV::Custom(sz, _) => {
                                    let off = expected_tokens_upto(inputv, j).len() as int;
                                    assert(toks[off] == tokens_view(old_lltokens)[off]);
                                },
                                InputTokenV::Text(_, _) => {},
                            }
                        }
                        assert(custom_widths_ok(inputv, toks, g as int));
                    }
                }
                proof {
                    assert(pv.take(piece_count as int) =~= pv);
                    assert(lltokens_models(lltokens@) =~~= expected_tokens_upto(
                        inputv,
                        g + 1,
                    ));
                }
                let to_idx = lltokens.len() - 1;
                groups.push((from_idx, to_idx, attrs));
                proof {
                    let toks = tokens_view(lltokens@);
                    assert forall|j: int| 0 <= j < g + 1 implies (match #[trigger] inputv[j] {
                        InputTokenV::Custom(sz, _) => {
                            let off = expected_tokens_upto(inputv, j).len() as int;
                            &&& off < toks.len()
                            &&& toks[off].token == LTokenV::Value
                            &&& toks[off].pos_ends_at == pos_step(toks[off].pos_starts_at, sz)
                        },
                        InputTokenV::Text(_, _) => true,
                    }) by {
                        if j == g as int {
                            assert(inputv[j] is Text);
                        }
                    }
                    assert(custom_widths_ok(inputv, toks, g + 1));
                }
            },
            InputToken::Custom { size, attrs } => {
                let next_size = if current_size <= usize::MAX - size {
                    current_size + size
                } else {
                    usize::MAX
                };
                let ghost old_lltokens = lltokens@;
                lltokens.push(
                    LLToken {
                        token_idx: lltokens.len(),
                        pos_starts_at: current_size,
                        pos_ends_at: next_size,
                        token: LToken::Value,
                    },
                );
                current_size = next_size;
                proof {
                    assert(lltokens_models(lltokens@) =~~= expected_tokens_upto(
                        inputv,
                        g + 1,
                    ));
                    let toks = tokens_view(lltokens@);
                    assert forall|i: int| 0 <= i < toks.len() implies (match (
                    #[trigger] toks[i]).token {
                        LTokenV::Text(txt, _) => exists|w: usize|
                            size_of_sizer(get_text_size, txt, w) && toks[i].pos_ends_at
                                == pos_step(toks[i].pos_starts_at, w),
                        LTokenV::Value => true,
                    }) by {
                        if i < toks.len() - 1 {
                            assert(toks[i] == tokens_view(old_lltokens)[i]);
                        }
                    }
                    assert(toks[old_lltokens.len() as int].token == LTokenV::Value);
                    assert(toks[old_lltokens.len() as int].pos_ends_at == pos_step(
                        toks[old_lltokens.len() as int].pos_starts_at,
                        size,
                    ));
                    assert(old_lltokens.len() == expected_tokens_upto(inputv, g as int).len());
                    assert forall|j: int| 0 <= j < g + 1 implies (match #[trigger] inputv[j] {
                        InputTokenV::Custom(sz, _) => {
                            let off = expected_tokens_upto(inputv, j).len() as int;
                            &&& off < toks.len()
                            &&& toks[off].token == LTokenV::Value
                            &&& toks[off].pos_ends_at == pos_step(toks[off].pos_starts_at, sz)
                        },
                        InputTokenV::Text(_, _) => true,
                    }) by {
                        if j < g as int {
                            match inputv[j] {
                                InputTokenV::Custom(sz, _) => {
                                    let off = expected_tokens_upto(inputv, j).len() as int;
                                    assert(toks[off] == tokens_view(old_lltokens)[off]);
                                },
                                InputTokenV::Text(_, _) => {},
                            }
                        }
                    }
                    assert(custom_widths_ok(inputv, toks, g + 1));
                }
                let to_idx = lltokens.len() - 1;
                groups.push((from_idx, to_idx, attrs));
            },
        }
        g += 1;
        proof {
            assert(groups@[g - 1].0 == expected_tokens_upto(inputv, g - 1).len());
            assert(groups@[g - 1].1 + 1 == expected_tokens_upto(inputv, g as int).len());
        }
    }
    proof {
        assert(lltokens_models(lltokens@) == expected_tokens(inputv));
    }
    let ghost expected = expected_tokens(inputv);
    let mut ll_line = LLLine::new(lltokens);
    let ghost tokv = ll_line@.tokens;
    let ghost n = tokv.len();
    proof {
        assert(forall|i: int|
            0 <= i < n ==> (#[trigger] tokv[i]).token == expected[i]);
    }
    let group_count = groups.len();
    let mut gg: usize = 0;
    proof {
        assert(group_assigns_upto(inputv, 0) =~= Seq::<AssignV>::empty());
        assert(ll_line@.attrs == insert_assignments(
            seed_attrs(tokv, n, n as int),
            group_assigns_upto(inputv, 0),
        ));
    }
    while gg < group_count
        invariant
            group_count == inputv.len(),
            gg <= group_count,
            gg + groups@.len() == group_count,
            n == ll_line@.tokens.len(),
            n <= usize::MAX,
            tokv == ll_line@.tokens,
            ll_line.wf(),
            text_widths_ok(get_text_size, tokv),
            custom_widths_ok(inputv, tokv, inputv.len() as int),
            forall|q: int|
                0 <= q < groups@.len() ==> (#[trigger] groups@[q]).0 == expected_tokens_upto(
                    inputv,
                    gg + q,
                ).len() && groups@[q].1 + 1 == expected_tokens_upto(inputv, gg + q + 1).len()
                    && groups@[q].0 <= groups@[q].1 && groups@[q].2.deep_view() == attrs_of(
                    inputv[gg + q],
                ),
            expected_tokens(inputv).len() == n,
            ll_line@.attrs == insert_assignments(
                seed_attrs(tokv, n, n as int),
                group_assigns_upto(inputv, gg as int),
            ),
        decreases group_count - gg,
    {
        let (start_idx, end_idx, attrs) = groups.remove(0);
        let ghost avals = attrs.deep_view();
        proof {
            assert(start_idx == expected_tokens_upto(inputv, gg as int).len());
            assert(end_idx + 1 == expected_tokens_upto(inputv, gg + 1).len());
            lemma_expected_upto_len(inputv, gg + 1, inputv.len() as int);
            assert(end_idx < n);
        }
        let ghost pre_attrs = ll_line@.attrs;
        ll_line.add_any_attrs(start_idx, end_idx, attrs);
        gg += 1;
        proof {
            assert(group_assigns_upto(inputv, gg as int) == group_assigns_upto(inputv, gg - 1)
                + crate::ll_line::assigns_of(start_idx, end_idx, avals));
            lemma_insert_assignments_concat(
                seed_attrs(tokv, n, n as int),
                group_assigns_upto(inputv, gg - 1),
                crate::ll_line::assigns_of(start_idx, end_idx, avals),
            );
        }
    }
    proof {
        assert(ll_line@.attrs == insert_assignments(
            seed_attrs(tokv, n, n as int),
            group_assigns_upto(inputv, inputv.len() as int),
        ));
    }
    ll_line
}

} // verus!
