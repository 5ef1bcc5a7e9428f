//! What holds of the adapter's output under each policy.

use crate::adapter::{emitted_from, FailurePolicy};
use crate::parse::outcome_of;
use crate::scan::Entry;
use vstd::prelude::*;

verus! {

/// An element holds an integer.
pub open spec fn holds_value(entry: Entry) -> bool {
    entry.1 is Ok
}

/// With failures handed out, the adapter emits one element for every line,
/// in line order: the line's position and its outcome. It stops at no
/// failure and passes over no position.
pub proof fn lemma_surface_emits_every_line(lines: Seq<Seq<char>>, from: int)
    requires
        0 <= from <= lines.len(),
    ensures
        emitted_from(lines, FailurePolicy::Surface, from).len() == lines.len() - from,
        forall|i: int|
            0 <= i < lines.len() - from ==> #[trigger] emitted_from(
                lines,
                FailurePolicy::Surface,
                from,
            )[i] == ((from + i) as usize, outcome_of(lines[from + i])),
    decreases lines.len() - from,
{
    if from < lines.len() {
        lemma_surface_emits_every_line(lines, from + 1);
        let all = emitted_from(lines, FailurePolicy::Surface, from);
        let rest = emitted_from(lines, FailurePolicy::Surface, from + 1);
        assert(all == seq![(from as usize, outcome_of(lines[from]))] + rest);
        assert forall|i: int| 0 <= i < lines.len() - from implies #[trigger] all[i] == (
            (from + i) as usize,
            outcome_of(lines[from + i]),
        ) by {
            if i > 0 {
                assert(all[i] == rest[i - 1]);
            }
        }
    }
}

/// With failing lines passed over, the adapter emits what it would emit with
/// failures handed out, less the failures: the same elements in the same
/// order, each still under the position of its line.
pub proof fn lemma_skip_is_surface_without_failures(lines: Seq<Seq<char>>, from: int)
    requires
        0 <= from,
    ensures
        emitted_from(lines, FailurePolicy::Skip, from) == emitted_from(
            lines,
            FailurePolicy::Surface,
            from,
        ).filter(|entry: Entry| holds_value(entry)),
    decreases lines.len() - from,
{
    let keep = |entry: Entry| holds_value(entry);
    reveal_with_fuel(Seq::filter, 2);
    if from < lines.len() {
        lemma_skip_is_surface_without_failures(lines, from + 1);
        let head = seq![(from as usize, outcome_of(lines[from]))];
        let rest = emitted_from(lines, FailurePolicy::Surface, from + 1);
        Seq::filter_distributes_over_add(head, rest, keep);
        assert(head.drop_last() =~= Seq::<Entry>::empty());
        if outcome_of(lines[from]) is Err {
            assert(head.filter(keep) =~= Seq::<Entry>::empty());
            assert(head.filter(keep) + rest.filter(keep) =~= rest.filter(keep));
        } else {
            assert(head.filter(keep) =~= head);
        }
    } else {
        assert(emitted_from(lines, FailurePolicy::Surface, from).filter(keep) =~= Seq::<
            Entry,
        >::empty());
    }
}

/// With failing lines passed over, every element that the adapter emits
/// holds the integer of the line whose position it carries, and the
/// positions grow strictly from one element to the next.
pub proof fn lemma_skip_emits_values_in_line_order(lines: Seq<Seq<char>>, from: int)
    requires
        0 <= from <= lines.len() <= usize::MAX,
    ensures
        emitted_from(lines, FailurePolicy::Skip, from).len() <= lines.len() - from,
        forall|i: int|
            0 <= i < emitted_from(lines, FailurePolicy::Skip, from).len() ==> {
                let entry = #[trigger] emitted_from(lines, FailurePolicy::Skip, from)[i];
                &&& from <= entry.0 < lines.len()
                &&& entry.1 is Ok
                &&& entry.1 == outcome_of(lines[entry.0 as int])
            },
        forall|i: int, j: int|
            0 <= i < j < emitted_from(lines, FailurePolicy::Skip, from).len() ==> (
            #[trigger] emitted_from(lines, FailurePolicy::Skip, from)[i]).0 < (
            #[trigger] emitted_from(lines, FailurePolicy::Skip, from)[j]).0,
    decreases lines.len() - from,
{
    if from < lines.len() {
        lemma_skip_emits_values_in_line_order(lines, from + 1);
        let all = emitted_from(lines, FailurePolicy::Skip, from);
        let rest = emitted_from(lines, FailurePolicy::Skip, from + 1);
        if outcome_of(lines[from]) is Ok {
            assert(all == seq![(from as usize, outcome_of(lines[from]))] + rest);
            assert forall|i: int| 0 <= i < all.len() implies {
                let entry = #[trigger] all[i];
                &&& from <= entry.0 < lines.len()
                &&& entry.1 is Ok
                &&& entry.1 == outcome_of(lines[entry.0 as int])
            } by {
                if i > 0 {
                    assert(all[i] == rest[i - 1]);
                }
            }
            assert forall|i: int, j: int| 0 <= i < j < all.len() implies (#[trigger] all[i]).0 < (
            #[trigger] all[j]).0 by {
                assert(all[j] == rest[j - 1]);
                if i > 0 {
                    assert(all[i] == rest[i - 1]);
                }
            }
        } else {
            assert(all == rest);
        }
    }
}

} // verus!
