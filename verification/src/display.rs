//! Textual rendering of an annotated line: one line of token text with
//! fixed padding between tokens, then one bracket line per included
//! attribute, each bracket spanning the display columns of its range.

use vstd::prelude::*;

use crate::attrs::AttrKind;
use crate::ll_line::{LLLine, LLLineV, LTokenV};
use crate::type_bucket::render_attr;
use crate::type_id_to_many::LRange;

verus! {

/// The display width of a string, a function of its characters alone.
pub uninterp spec fn display_width_of(s: Seq<char>) -> usize;

/// Relies on `UnicodeWidthStr::width`: the width depends on the
/// characters alone.
#[verifier::external_body]
fn str_display_width(s: &str) -> (r: usize)
    ensures
        r == display_width_of(s@),
{
    unicode_width::UnicodeWidthStr::width(s)
}

/// A token's displayed text: its own text, or a placeholder mark.
pub open spec fn token_display(t: LTokenV) -> Seq<char> {
    match t {
        LTokenV::Text(s, _) => s,
        LTokenV::Value => "<>"@,
    }
}

/// The opening line built from the first `i` tokens: token texts with one
/// fixed two-space gap between consecutive tokens.
pub open spec fn opening_upto(tokens: Seq<crate::ll_line::LLTokenV>, i: int) -> Seq<char>
    decreases i,
{
    if i <= 0 {
        Seq::empty()
    } else {
        opening_upto(tokens, i - 1) + (if i - 1 > 0 {
            "  "@
        } else {
            Seq::empty()
        }) + token_display(tokens[i - 1].token)
    }
}

/// The display column where token `i` starts: the width of everything
/// before it, padding included.
pub open spec fn start_col(tokens: Seq<crate::ll_line::LLTokenV>, i: int) -> usize {
    display_width_of(
        opening_upto(tokens, i) + (if i > 0 {
            "  "@
        } else {
            Seq::empty()
        }),
    )
}

/// The display column just past token `i`'s text.
pub open spec fn end_col(tokens: Seq<crate::ll_line::LLTokenV>, i: int) -> usize {
    display_width_of(opening_upto(tokens, i + 1))
}

/// `n` copies of one character.
pub open spec fn char_run(c: char, n: int) -> Seq<char>
    decreases n,
{
    if n <= 0 {
        Seq::empty()
    } else {
        char_run(c, n - 1).push(c)
    }
}

/// One bracket line: newline, indentation up to the range's first column,
/// an opening hook, dashes up to the closing column, a closing hook for
/// spans wider than one column, then the attribute's textual form.
pub open spec fn bracket_line(
    tokens: Seq<crate::ll_line::LLTokenV>,
    range: LRange,
    text: Seq<char>,
) -> Seq<char> {
    let s = start_col(tokens, range.0 as int) as int;
    let e = end_col(tokens, range.1 as int) as int;
    let char_len = if e >= s {
        e - s
    } else {
        0
    };
    let dash_count = if e - 1 > s + 1 {
        e - 1 - (s + 1)
    } else {
        0
    };
    seq!['\n'] + char_run(' ', s) + seq!['\u{2570}'] + char_run('\u{2500}', dash_count) + (if
    char_len > 1 {
        seq!['\u{256F}']
    } else {
        Seq::empty()
    }) + text
}

/// The whole rendering: the opening line, then one bracket line per
/// included attribute, in inclusion order.
pub open spec fn render_upto(
    tokens: Seq<crate::ll_line::LLTokenV>,
    includes: Seq<(LRange, Seq<char>)>,
    j: int,
) -> Seq<char>
    decreases j,
{
    if j <= 0 {
        opening_upto(tokens, tokens.len() as int)
    } else {
        render_upto(tokens, includes, j - 1) + bracket_line(
            tokens,
            includes[j - 1].0,
            includes[j - 1].1,
        )
    }
}

/// The attribute entries of kind `k`, in index order, each range's values
/// in reverse insertion order, rendered.
pub open spec fn include_entries_for(m: crate::ll_line::AttrsV, r: LRange, k: AttrKind) -> Seq<(
    LRange,
    Seq<char>,
)> {
    Seq::new(
        m.values_at(r, k).len(),
        |q: int| (r, render_attr(m.values_at(r, k)[m.values_at(r, k).len() - 1 - q])),
    )
}

/// All entries that including kind `k` appends.
pub open spec fn include_entries_upto(m: crate::ll_line::AttrsV, k: AttrKind, j: int) -> Seq<(
    LRange,
    Seq<char>,
)>
    decreases j,
{
    if j <= 0 {
        Seq::empty()
    } else {
        include_entries_upto(m, k, j - 1) + include_entries_for(m, m.kind_ranges(k)[j - 1], k)
    }
}

/// The lift of the inclusion list to its model.
pub open spec fn includes_view(v: Seq<(LRange, String)>) -> Seq<(LRange, Seq<char>)> {
    Seq::new(v.len(), |i: int| (v[i].0, v[i].1@))
}

/// A renderer for one line: collects which attributes to draw, then
/// renders the token text with one bracket line per collected attribute.
pub struct LLLineDisplay<'a> {
    ll_line: &'a LLLine,
    include_attrs: Vec<(LRange, String)>,
}

impl<'a> LLLineDisplay<'a> {
    /// The included entries, in inclusion order.
    pub closed spec fn includes(&self) -> Seq<(LRange, Seq<char>)> {
        includes_view(self.include_attrs@)
    }

    /// The rendered line.
    pub closed spec fn line(&self) -> LLLineV {
        (*self.ll_line)@
    }

    /// The line is consistent and every included range lies within it.
    pub open spec fn wf(&self) -> bool {
        &&& self.line().wf()
        &&& forall|q: int|
            0 <= q < self.includes().len() ==> ((#[trigger] self.includes()[q]).0.0
                <= self.includes()[q].0.1 < self.line().tokens.len())
    }

    /// A renderer with nothing included yet.
    pub fn new(ll_line: &'a LLLine) -> (r: LLLineDisplay<'a>)
        requires
            ll_line.wf(),
        ensures
            r.line() == ll_line@,
            r.includes() == Seq::<(LRange, Seq<char>)>::empty(),
            r.wf(),
    {
        let r = LLLineDisplay { ll_line, include_attrs: Vec::new() };
        proof {
            assert(r.includes() =~= Seq::<(LRange, Seq<char>)>::empty());
        }
        r
    }

    /// Collect every attribute of kind `k`: each annotated range in index
    /// order, each range's values in reverse insertion order.
    pub fn include_kind(&mut self, k: AttrKind)
        requires
            old(self).wf(),
        ensures
            final(self).line() == old(self).line(),
            final(self).includes() == old(self).includes() + include_entries_upto(
                old(self).line().attrs,
                k,
                old(self).line().attrs.kind_ranges(k).len() as int,
            ),
            final(self).wf(),
    {
        let ghost m = self.line().attrs;
        let ghost base = self.includes();
        let ranges = self.ll_line.ranges_probe(k);
        let ghost rgs = ranges@;
        let n = ranges.len();
        let mut i: usize = 0;
        proof {
            assert(self.includes() =~= base + include_entries_upto(m, k, 0));
        }
        while i < n
            invariant
                n == ranges@.len(),
                i <= n,
                rgs == ranges@,
                rgs == m.kind_ranges(k),
                m == self.line().attrs,
                self.line() == old(self).line(),
                self.line().wf(),
                self.includes() == base + include_entries_upto(m, k, i as int),
                forall|q: int|
                    0 <= q < self.includes().len() ==> ((#[trigger] self.includes()[q]).0.0
                        <= self.includes()[q].0.1 < self.line().tokens.len()),
            decreases n - i,
        {
            let range = ranges[i];
            proof {
                assert(m.kind_ranges(k).contains(rgs[i as int]));
            }
            let rendered = self.ll_line.values_debug(range, k);
            let ghost entries = include_entries_for(m, rgs[i as int], k);
            let count = rendered.len();
            let mut q: usize = 0;
            let ghost base2 = self.includes();
            proof {
                let vals = m.values_at(rgs[i as int], k);
                assert(rendered@.map_values(|s: String| s@) == vals.map_values(
                    |d: crate::attrs::AttrDataV| render_attr(d),
                ));
                assert(rendered@.map_values(|s: String| s@).len() == rendered@.len());
                assert(vals.map_values(|d: crate::attrs::AttrDataV| render_attr(d)).len()
                    == vals.len());
                assert(count == entries.len());
                assert forall|p: int| 0 <= p < count implies (#[trigger] entries[p]) == (
                rgs[i as int],
                rendered@[count - 1 - p]@,
                ) by {
                    assert(rendered@.map_values(|s: String| s@)[count - 1 - p] == rendered@[count
                        - 1 - p]@);
                    assert(vals.map_values(|d: crate::attrs::AttrDataV| render_attr(d))[count - 1
                        - p] == render_attr(vals[count - 1 - p]));
                }
                assert(self.includes() =~= base2 + entries.take(0));
            }
            while q < count
                invariant
                    count == rendered@.len(),
                    q <= count,
                    entries == include_entries_for(m, rgs[i as int], k),
                    count == entries.len(),
                    i < rgs.len(),
                    rgs == ranges@,
                    forall|p: int|
                        0 <= p < count ==> (#[trigger] entries[p]) == (
                        rgs[i as int],
                        rendered@[count - 1 - p]@,
                        ),
                    self.includes() == base2 + entries.take(q as int),
                    rgs[i as int].0 <= rgs[i as int].1 < self.line().tokens.len(),
                    self.line() == old(self).line(),
                    forall|p: int|
                        0 <= p < self.includes().len() ==> ((#[trigger] self.includes()[p]).0.0
                            <= self.includes()[p].0.1 < self.line().tokens.len()),
                decreases count - q,
            {
                let s = rendered[count - 1 - q].clone();
                let ghost pre = self.includes();
                let ghost newel = entries[q as int];
                self.include_attrs.push((ranges[i], s));
                q += 1;
                proof {
                    assert(self.includes() =~~= pre.push(newel));
                    assert(entries.take(q as int).drop_last() =~= entries.take(q - 1));
                    assert(self.includes() =~~= base2 + entries.take(q as int));
                }
            }
            i += 1;
            proof {
                assert(entries.take(count as int) =~= entries);
                assert(self.includes() =~~= base + include_entries_upto(m, k, i as int));
            }
        }
    }

    /// Like [`LLLineDisplay::include_kind`], taking and returning the
    /// renderer.
    pub fn with(self, k: AttrKind) -> (r: LLLineDisplay<'a>)
        requires
            self.wf(),
        ensures
            r.line() == self.line(),
            r.includes() == self.includes() + include_entries_upto(
                self.line().attrs,
                k,
                self.line().attrs.kind_ranges(k).len() as int,
            ),
    {
        let mut this = self;
        this.include_kind(k);
        this
    }

    /// Render: the token texts separated by the fixed padding, then one
    /// bracket line per included attribute.
    pub fn to_string(&self) -> (r: String)
        requires
            self.wf(),
        ensures
            r@ == render_upto(self.line().tokens, self.includes(), self.includes().len() as int),
    {
        let ghost toks = self.line().tokens;
        let tokens = self.ll_line.ll_tokens();
        let n = tokens.len();
        let mut opening_line = String::new();
        let mut starts: Vec<usize> = Vec::new();
        let mut ends: Vec<usize> = Vec::new();
        let mut i: usize = 0;
        proof {
            assert(opening_line@ =~= opening_upto(toks, 0));
        }
        while i < n
            invariant
                self.line().wf(),
                toks == self.line().tokens,
                n == toks.len(),
                i <= n,
                tokens@.len() == n,
                tokens_model_ok(tokens@, toks),
                opening_line@ == opening_upto(toks, i as int),
                starts@.len() == i,
                ends@.len() == i,
                forall|q: int| 0 <= q < i ==> (#[trigger] starts@[q]) == start_col(toks, q),
                forall|q: int| 0 <= q < i ==> (#[trigger] ends@[q]) == end_col(toks, q),
            decreases n - i,
        {
            if i > 0 {
                opening_line.append("  ");
            }
            proof {
                assert(opening_line@ =~= opening_upto(toks, i as int) + (if i > 0 {
                    "  "@
                } else {
                    Seq::<char>::empty()
                }));
            }
            starts.push(str_display_width(opening_line.as_str()));
            match &tokens[i].token {
                crate::ll_line::LToken::Text(text, _) => {
                    opening_line.append(text.as_str());
                },
                crate::ll_line::LToken::Value => {
                    opening_line.append("<>");
                },
            }
            ends.push(str_display_width(opening_line.as_str()));
            i += 1;
            proof {
                assert(opening_line@ =~= opening_upto(toks, i as int));
            }
        }
        let ghost incl = self.includes();
        let mut out = opening_line;
        let count = self.include_attrs.len();
        let mut j: usize = 0;
        proof {
            assert(out@ =~= render_upto(toks, incl, 0));
        }
        while j < count
            invariant
                self.line().wf(),
                toks == self.line().tokens,
                n == toks.len(),
                incl == self.includes(),
                j <= count,
                count == incl.len(),
                count == self.include_attrs@.len(),
                starts@.len() == n,
                ends@.len() == n,
                forall|q: int| 0 <= q < n ==> (#[trigger] starts@[q]) == start_col(toks, q),
                forall|q: int| 0 <= q < n ==> (#[trigger] ends@[q]) == end_col(toks, q),
                forall|q: int|
                    0 <= q < count ==> (#[trigger] incl[q]) == (
                    self.include_attrs@[q].0,
                    self.include_attrs@[q].1@,
                    ),
                forall|q: int|
                    0 <= q < incl.len() ==> ((#[trigger] incl[q]).0.0 <= incl[q].0.1 < n),
                out@ == render_upto(toks, incl, j as int),
            decreases count - j,
        {
            let ghost pre = out@;
            let range = self.include_attrs[j].0;
            proof {
                assert(incl[j as int] == (
                    self.include_attrs@[j as int].0,
                    self.include_attrs@[j as int].1@,
                ));
                assert(incl[j as int].0.0 <= incl[j as int].0.1 < n);
                assert(range == incl[j as int].0);
            }
            out.append("\n");
            let start_char_idx = starts[range.0];
            let end_char_idx = ends[range.1];
            push_char_run(&mut out, ' ', start_char_idx);
            out.append("\u{2570}");
            let dash_count = if end_char_idx >= 1 && end_char_idx - 1 > start_char_idx
                && end_char_idx - 1 - start_char_idx > 1 {
                end_char_idx - 1 - start_char_idx - 1
            } else {
                0
            };
            push_char_run(&mut out, '\u{2500}', dash_count);
            let char_len = if end_char_idx >= start_char_idx {
                end_char_idx - start_char_idx
            } else {
                0
            };
            if char_len > 1 {
                out.append("\u{256F}");
            }
            out.append(self.include_attrs[j].1.as_str());
            j += 1;
            proof {
                reveal_strlit("\n");
                reveal_strlit("\u{2570}");
                reveal_strlit("\u{256F}");
                assert(out@ =~= pre + bracket_line(toks, incl[j - 1].0, incl[j - 1].1));
                assert(out@ =~= render_upto(toks, incl, j as int));
            }
        }
        out
    }
}

/// The built token list models the given tokens.
pub open spec fn tokens_model_ok(v: Seq<crate::ll_line::LLToken>, toks: Seq<
    crate::ll_line::LLTokenV,
>) -> bool {
    v.len() == toks.len() && forall|q: int| 0 <= q < v.len() ==> (#[trigger] v[q])@ == toks[q]
}

/// Append `n` copies of `c`.
fn push_char_run(out: &mut String, c: char, n: usize)
    ensures
        final(out)@ == old(out)@ + char_run(c, n as int),
{
    let mut i: usize = 0;
    proof {
        assert(old(out)@ + char_run(c, 0) =~= old(out)@);
    }
    while i < n
        invariant
            i <= n,
            out@ == old(out)@ + char_run(c, i as int),
        decreases n - i,
    {
        let mut one: Vec<char> = Vec::new();
        one.push(c);
        let s = crate::type_bucket::chars_to_string(&one);
        out.append(s.as_str());
        i += 1;
        proof {
            assert(one@ =~= seq![c]);
            assert(out@ =~= old(out)@ + char_run(c, i as int));
        }
    }
}

} // verus!
