//! The adapter from text lines to a numbered stream of integers.
//!
//! One adapter serves both ways of treating a line that is not an integer:
//! it either hands the failure out in the line's place or passes over the
//! line in silence.

use crate::parse::{outcome_of, parse_line, ParseOutcome};
use crate::scan::Entry;
use vstd::prelude::*;

verus! {

/// What the adapter does with a line that is not an integer.
#[derive(Clone, Copy, Debug, PartialEq, Eq, Structural)]
pub enum FailurePolicy {
    /// Emit the failure as the line's outcome.
    Surface,
    /// Emit nothing for the line and go on with the next one.
    Skip,
}

/// The lines as sequences of characters.
pub open spec fn texts_of(lines: Seq<String>) -> Seq<Seq<char>> {
    lines.map_values(|line: String| line@)
}

/// What an adapter with this policy emits from line `from` on: each line's
/// position with its outcome, in line order, without the failing lines where
/// the policy passes over them.
pub open spec fn emitted_from(lines: Seq<Seq<char>>, policy: FailurePolicy, from: int) -> Seq<Entry>
    decreases lines.len() - from,
{
    if from < 0 || from >= lines.len() {
        Seq::empty()
    } else {
        let rest = emitted_from(lines, policy, from + 1);
        let outcome = outcome_of(lines[from]);
        if policy == FailurePolicy::Skip && outcome is Err {
            rest
        } else {
            seq![(from as usize, outcome)] + rest
        }
    }
}

/// An adapter over a list of lines, with a cursor on the next line to read.
pub struct CorrectLines {
    lines: Vec<String>,
    cursor: usize,
    policy: FailurePolicy,
}

impl CorrectLines {
    /// The lines that the adapter was made over.
    pub closed spec fn lines(&self) -> Seq<Seq<char>> {
        texts_of(self.lines@)
    }

    /// The position of the next line to read.
    pub closed spec fn cursor(&self) -> int {
        self.cursor as int
    }

    pub closed spec fn policy(&self) -> FailurePolicy {
        self.policy
    }

    /// What the adapter has yet to emit.
    pub open spec fn remaining(&self) -> Seq<Entry> {
        emitted_from(self.lines(), self.policy(), self.cursor())
    }

    /// An adapter that hands out one outcome for every line.
    pub fn new(lines: Vec<String>) -> (adapter: CorrectLines)
        ensures
            adapter.lines() == texts_of(lines@),
            adapter.cursor() == 0,
            adapter.policy() == FailurePolicy::Surface,
    {
        CorrectLines { lines, cursor: 0, policy: FailurePolicy::Surface }
    }

    /// An adapter with the given policy for lines that are not integers.
    pub fn with_policy(lines: Vec<String>, policy: FailurePolicy) -> (adapter: CorrectLines)
        ensures
            adapter.lines() == texts_of(lines@),
            adapter.cursor() == 0,
            adapter.policy() == policy,
    {
        CorrectLines { lines, cursor: 0, policy }
    }

    /// Emits the next element with the position of its line, or `None` once
    /// the lines are exhausted.
    pub fn next_numbered(&mut self) -> (r: Option<Entry>)
        ensures
            final(self).lines() == old(self).lines(),
            final(self).policy() == old(self).policy(),
            old(self).cursor() <= final(self).cursor(),
            match r {
                Some(entry) => {
                    &&& old(self).remaining().len() > 0
                    &&& entry == old(self).remaining()[0]
                    &&& final(self).remaining() == old(self).remaining().skip(1)
                    &&& final(self).cursor() == entry.0 + 1
                },
                None => old(self).remaining().len() == 0 && final(self).remaining().len() == 0,
            },
    {
        while self.cursor < self.lines.len()
            invariant
                self.lines == old(self).lines,
                self.policy == old(self).policy,
                old(self).cursor <= self.cursor,
                self.remaining() == old(self).remaining(),
            decreases self.lines.len() - self.cursor,
        {
            let position: usize = self.cursor;
            let outcome = parse_line(self.lines[position].as_str());
            self.cursor = position + 1;
            assert(outcome == outcome_of(self.lines()[position as int]));
            let passed_over = match (self.policy, outcome) {
                (FailurePolicy::Skip, Err(_)) => true,
                _ => false,
            };
            if !passed_over {
                assert(old(self).remaining().skip(1) =~= self.remaining());
                return Some((position, outcome));
            }
        }
        None
    }

    /// Emits the next outcome, or `None` once the lines are exhausted.
    pub fn next(&mut self) -> (r: Option<ParseOutcome>)
        ensures
            final(self).lines() == old(self).lines(),
            final(self).policy() == old(self).policy(),
            match r {
                Some(outcome) => {
                    &&& old(self).remaining().len() > 0
                    &&& outcome == old(self).remaining()[0].1
                    &&& final(self).remaining() == old(self).remaining().skip(1)
                },
                None => old(self).remaining().len() == 0 && final(self).remaining().len() == 0,
            },
    {
        match self.next_numbered() {
            Some(entry) => Some(entry.1),
            None => None,
        }
    }

    /// Runs the adapter to its end and returns all that it had yet to emit.
    pub fn enumerate(self) -> (entries: Vec<Entry>)
        ensures
            entries@ == self.remaining(),
    {
        let mut adapter = self;
        let mut entries: Vec<Entry> = Vec::new();
        loop
            invariant
                entries@ + adapter.remaining() == self.remaining(),
            ensures
                entries@ == self.remaining(),
            decreases adapter.remaining().len(),
        {
            let ghost rest = adapter.remaining();
            let ghost done = entries@;
            match adapter.next_numbered() {
                Some(entry) => {
                    entries.push(entry);
                    assert(entries@ + adapter.remaining() =~= done + rest);
                },
                None => {
                    assert(done + rest =~= done);
                    break ;
                },
            }
        }
        entries
    }
}

/// Lists of lines that an adapter can be made over.
pub trait CorrectLinesIterator: Sized {
    /// The lines as sequences of characters.
    spec fn texts(&self) -> Seq<Seq<char>>;

    /// An adapter over these lines that hands out one outcome for every line.
    fn to_int(self) -> (adapter: CorrectLines)
        ensures
            adapter.lines() == self.texts(),
            adapter.cursor() == 0,
            adapter.policy() == FailurePolicy::Surface,
    ;
}

impl CorrectLinesIterator for Vec<String> {
    open spec fn texts(&self) -> Seq<Seq<char>> {
        texts_of(self@)
    }

    fn to_int(self) -> (adapter: CorrectLines) {
        CorrectLines::new(self)
    }
}

} // verus!
