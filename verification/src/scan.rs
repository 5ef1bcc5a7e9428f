//! The paired-maximum scan over two numbered streams.
//!
//! The second stream is advanced past its first `skip` elements; the streams
//! are then walked in lockstep, and the scan reports the positions of the
//! first pair whose sum is the largest positive sum seen.

use crate::parse::ParseOutcome;
use crate::scan_lemmas::lemma_result_iff_positive_sum;
use vstd::prelude::*;

verus! {

/// One element of a numbered stream: the position of a line and what the line gave.
pub type Entry = (usize, ParseOutcome);

/// The one failure of the scan.
#[derive(Clone, Copy, Debug, PartialEq, Eq, Structural)]
pub enum ScanError {
    /// No pair had a sum above zero.
    NoResultFound,
}

/// How many pairs the scan looks at: the length of the shorter of the first
/// stream and the second stream without its first `skip` elements.
pub open spec fn pair_count(first: Seq<Entry>, second: Seq<Entry>, skip: int) -> int {
    if second.len() <= skip {
        0
    } else if first.len() <= second.len() - skip {
        first.len() as int
    } else {
        second.len() - skip
    }
}

/// What two paired elements weigh: their sum where both are integers, zero otherwise.
pub open spec fn entry_score(a: Entry, b: Entry) -> int {
    match (a.1, b.1) {
        (Ok(x), Ok(y)) => x + y,
        _ => 0,
    }
}

/// The weight of pair `k`: element `k` of the first stream with element
/// `k + skip` of the second.
pub open spec fn score(first: Seq<Entry>, second: Seq<Entry>, skip: int, k: int) -> int {
    entry_score(first[k], second[k + skip])
}

/// Pair `k` is the best of the first `n` pairs: its weight is positive, no
/// pair among them weighs more, and every earlier pair weighs less.
pub open spec fn best_among(
    first: Seq<Entry>,
    second: Seq<Entry>,
    skip: int,
    n: int,
    k: int,
) -> bool {
    &&& 0 <= k < n
    &&& score(first, second, skip, k) > 0
    &&& forall|j: int| 0 <= j < n ==> #[trigger] score(first, second, skip, j) <= score(first, second, skip, k)
    &&& forall|j: int| 0 <= j < k ==> #[trigger] score(first, second, skip, j) < score(first, second, skip, k)
}

/// Pair `k` is the best of all the pairs that the scan looks at.
pub open spec fn is_best(first: Seq<Entry>, second: Seq<Entry>, skip: int, k: int) -> bool {
    best_among(first, second, skip, pair_count(first, second, skip), k)
}

/// What the scan reports: the positions of the best pair, or `NoResultFound`
/// where there is none.
pub open spec fn scan_result(first: Seq<Entry>, second: Seq<Entry>, skip: int) -> Result<
    (usize, usize),
    ScanError,
> {
    if exists|k: int| is_best(first, second, skip, k) {
        let k = choose|k: int| is_best(first, second, skip, k);
        Ok((first[k].0, second[k + skip].0))
    } else {
        Err(ScanError::NoResultFound)
    }
}

/// The running state of a scan: the largest sum so far and where it was seen.
#[derive(Clone, Copy, Debug)]
pub struct MaxState {
    /// The largest sum seen so far; zero until a positive sum is seen.
    pub best_sum: i64,
    /// The positions of the first pair with that sum, once there is one.
    pub best: Option<(usize, usize)>,
}

impl MaxState {
    /// A state holds a pair exactly when its sum is positive.
    pub open spec fn wf(self) -> bool {
        &&& self.best is None ==> self.best_sum == 0
        &&& self.best is Some ==> self.best_sum > 0
    }

    /// The state before any pair.
    pub open spec fn initial() -> MaxState {
        MaxState { best_sum: 0, best: None }
    }

    /// The state after one more pair: replaced where the pair's sum is
    /// strictly larger, kept otherwise.
    pub open spec fn observed(self, a: Entry, b: Entry) -> MaxState {
        if a.1 is Ok && b.1 is Ok && entry_score(a, b) > self.best_sum {
            MaxState { best_sum: entry_score(a, b) as i64, best: Some((a.0, b.0)) }
        } else {
            self
        }
    }

    /// What a scan that ends in this state reports.
    pub open spec fn outcome(self) -> Result<(usize, usize), ScanError> {
        match self.best {
            Some(pair) => Ok(pair),
            None => Err(ScanError::NoResultFound),
        }
    }

    /// The state of a scan that has seen nothing.
    pub fn new() -> (state: MaxState)
        ensures
            state == MaxState::initial(),
            state.wf(),
    {
        MaxState { best_sum: 0, best: None }
    }

    /// Takes one pair into account.
    pub fn observe(&mut self, a: &Entry, b: &Entry)
        ensures
            *final(self) == old(self).observed(*a, *b),
            old(self).wf() ==> final(self).wf(),
    {
        match (a.1, b.1) {
            (Ok(x), Ok(y)) => {
                let sum: i64 = x as i64 + y as i64;
                if sum > self.best_sum {
                    self.best_sum = sum;
                    self.best = Some((a.0, b.0));
                }
            },
            _ => {},
        }
    }

    /// The positions of the best pair, or `NoResultFound` if no pair was recorded.
    pub fn result(&self) -> (r: Result<(usize, usize), ScanError>)
        ensures
            r == self.outcome(),
    {
        match self.best {
            Some(pair) => Ok(pair),
            None => Err(ScanError::NoResultFound),
        }
    }
}

/// The state after the first `n` pairs.
pub open spec fn state_after(first: Seq<Entry>, second: Seq<Entry>, skip: int, n: int) -> MaxState
    decreases n,
{
    if n <= 0 {
        MaxState::initial()
    } else {
        state_after(first, second, skip, n - 1).observed(first[n - 1], second[n - 1 + skip])
    }
}

/// At most one pair is the best among the first `n`.
pub proof fn lemma_best_is_unique(
    first: Seq<Entry>,
    second: Seq<Entry>,
    skip: int,
    n: int,
    k1: int,
    k2: int,
)
    requires
        best_among(first, second, skip, n, k1),
        best_among(first, second, skip, n, k2),
    ensures
        k1 == k2,
{
    if k1 < k2 {
        assert(score(first, second, skip, k1) < score(first, second, skip, k2));
        assert(score(first, second, skip, k2) <= score(first, second, skip, k1));
    } else if k2 < k1 {
        assert(score(first, second, skip, k2) < score(first, second, skip, k1));
        assert(score(first, second, skip, k1) <= score(first, second, skip, k2));
    }
}

/// The state after `n` pairs holds the best pair among them and its sum, or
/// nothing where none of them has a positive sum.
pub proof fn lemma_state_holds_best(first: Seq<Entry>, second: Seq<Entry>, skip: int, n: int)
    requires
        0 <= n,
    ensures
        state_after(first, second, skip, n).wf(),
        state_after(first, second, skip, n).best is None ==> forall|j: int|
            0 <= j < n ==> #[trigger] score(first, second, skip, j) <= 0,
        state_after(first, second, skip, n).best is Some ==> exists|k: int|
            {
                &&& #[trigger] best_among(first, second, skip, n, k)
                &&& state_after(first, second, skip, n).best == Some(
                    (first[k].0, second[k + skip].0),
                )
                &&& state_after(first, second, skip, n).best_sum == score(first, second, skip, k)
            },
    decreases n,
{
    if n > 0 {
        lemma_state_holds_best(first, second, skip, n - 1);
        let before = state_after(first, second, skip, n - 1);
        let after = state_after(first, second, skip, n);
        let s = score(first, second, skip, n - 1);
        assert(after == before.observed(first[n - 1], second[n - 1 + skip]));
        if s > before.best_sum {
            assert(best_among(first, second, skip, n, n - 1)) by {
                if before.best is Some {
                    let k = choose|k: int|
                        {
                            &&& #[trigger] best_among(first, second, skip, n - 1, k)
                            &&& before.best_sum == score(first, second, skip, k)
                        };
                    assert(best_among(first, second, skip, n - 1, k));
                }
            }
        } else if before.best is Some {
            let k = choose|k: int|
                {
                    &&& #[trigger] best_among(first, second, skip, n - 1, k)
                    &&& before.best == Some((first[k].0, second[k + skip].0))
                    &&& before.best_sum == score(first, second, skip, k)
                };
            assert(best_among(first, second, skip, n, k));
        }
    }
}

/// Folding the pairs one by one gives what the scan is defined to report.
pub proof fn lemma_fold_is_scan_result(first: Seq<Entry>, second: Seq<Entry>, skip: int)
    requires
        0 <= skip,
    ensures
        state_after(first, second, skip, pair_count(first, second, skip)).outcome() == scan_result(
            first,
            second,
            skip,
        ),
{
    let n = pair_count(first, second, skip);
    let state = state_after(first, second, skip, n);
    lemma_state_holds_best(first, second, skip, n);
    if state.best is Some {
        let k = choose|k: int|
            {
                &&& #[trigger] best_among(first, second, skip, n, k)
                &&& state.best == Some((first[k].0, second[k + skip].0))
            };
        assert(is_best(first, second, skip, k));
        let c = choose|c: int| is_best(first, second, skip, c);
        lemma_best_is_unique(first, second, skip, n, k, c);
    } else {
        assert forall|k: int| !is_best(first, second, skip, k) by {
            if is_best(first, second, skip, k) {
                assert(score(first, second, skip, k) <= 0);
            }
        }
    }
}

/// Scans two numbered streams for the pair with the largest positive sum.
///
/// Element `k` of `first` is paired with element `k + skip` of `second`, for
/// as long as both exist. A pair counts where both of its elements hold an
/// integer. The result holds the positions that the two elements of the best
/// pair carry: the earliest pair among those with the largest sum, provided
/// that sum is above zero. Without such a pair the scan fails.
pub fn algo(first: &[Entry], second: &[Entry], skip: usize) -> (r: Result<
    (usize, usize),
    ScanError,
>)
    ensures
        r == scan_result(first@, second@, skip as int),
        r is Ok <==> exists|j: int|
            0 <= j < pair_count(first@, second@, skip as int) && #[trigger] score(
                first@,
                second@,
                skip as int,
                j,
            ) > 0,
{
    let mut state = MaxState::new();
    let mut count: usize = 0;
    if skip < second.len() {
        let available: usize = second.len() - skip;
        count = if first.len() <= available {
            first.len()
        } else {
            available
        };
    }
    let mut i: usize = 0;
    while i < count
        invariant
            i <= count <= first.len(),
            count > 0 ==> count + skip <= second.len(),
            count == pair_count(first@, second@, skip as int),
            state == state_after(first@, second@, skip as int, i as int),
        decreases count - i,
    {
        state.observe(&first[i], &second[i + skip]);
        i += 1;
    }
    proof {
        lemma_fold_is_scan_result(first@, second@, skip as int);
        lemma_result_iff_positive_sum(first@, second@, skip as int);
    }
    state.result()
}

} // verus!
