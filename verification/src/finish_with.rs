//! Turning match results into assignments in one sweep.

use vstd::prelude::*;

use crate::attrs::AttrData;
use crate::ll_line::LLCursorAssignment;
use crate::ll_selection::LLSelection;
use crate::x::{parts_view, OutPart};

verus! {

/// Map every `(selection, captured parts)` pair to an assignment by
/// feeding the parts through `f`.
pub trait FinishWith: Sized {
    /// One assignment per match, on the match's own span.
    fn finish_with<F: Fn(Vec<OutPart>) -> AttrData>(self, f: F) -> Vec<LLCursorAssignment>
        requires
            forall|x: Vec<OutPart>| call_requires(f, (x,)),
    ;
}

impl FinishWith for Vec<(LLSelection, Vec<OutPart>)> {
    fn finish_with<F: Fn(Vec<OutPart>) -> AttrData>(self, f: F) -> (out: Vec<LLCursorAssignment>)
        ensures
            out@.len() == self@.len(),
            forall|q: int|
                0 <= q < out@.len() ==> {
                    &&& (#[trigger] out@[q])@.start_idx == self@[q].0@.start_idx
                    &&& out@[q]@.end_idx == self@[q].0@.end_idx
                    &&& exists|p: Vec<OutPart>, v: AttrData|
                        parts_view(p@) == parts_view(self@[q].1@) && call_ensures(f, (p,), v)
                            && out@[q]@.value == v@
                },
    {
        let ghost selfv = self@;
        let mut rest = self;
        let mut out: Vec<LLCursorAssignment> = Vec::new();
        let ghost mut done: int = 0;
        while rest.len() > 0
            invariant
                forall|x: Vec<OutPart>| call_requires(f, (x,)),
                0 <= done,
                done + rest@.len() == selfv.len(),
                out@.len() == done,
                forall|q: int| 0 <= q < rest@.len() ==> (#[trigger] rest@[q]) == selfv[done + q],
                forall|q: int|
                    0 <= q < done ==> {
                        &&& (#[trigger] out@[q])@.start_idx == selfv[q].0@.start_idx
                        &&& out@[q]@.end_idx == selfv[q].0@.end_idx
                        &&& exists|p: Vec<OutPart>, v: AttrData|
                            parts_view(p@) == parts_view(selfv[q].1@) && call_ensures(f, (p,), v)
                                && out@[q]@.value == v@
                    },
            decreases rest@.len(),
        {
            let (selection, parts) = rest.remove(0);
            let ghost gparts = parts;
            let value = f(parts);
            let ghost gvalue = value;
            out.push(selection.finish_with_attr(value));
            proof {
                done = done + 1;
                assert(call_ensures(f, (gparts,), gvalue));
                assert(out@[done - 1]@.value == gvalue@);
            }
        }
        out
    }
}

} // verus!
