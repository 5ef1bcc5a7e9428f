//! What holds of the scan on whole families of inputs.

use crate::scan::{best_among, is_best, lemma_best_is_unique, pair_count, scan_result, score, Entry, ScanError};
use vstd::prelude::*;

verus! {

/// The stream of the integers `0, 1, .., n - 1`, each at its own position.
pub open spec fn ascending(n: int) -> Seq<Entry> {
    Seq::new(n as nat, |i: int| (i as usize, Ok(i as i32)))
}

/// The stream of the integers `n - 1, .., 1, 0`, numbered from zero.
pub open spec fn descending(n: int) -> Seq<Entry> {
    Seq::new(n as nat, |i: int| (i as usize, Ok((n - 1 - i) as i32)))
}

/// Where pair `k` is the best pair, the scan reports the positions it carries.
pub proof fn lemma_best_pair_is_reported(first: Seq<Entry>, second: Seq<Entry>, skip: int, k: int)
    requires
        is_best(first, second, skip, k),
    ensures
        scan_result(first, second, skip) == Ok::<(usize, usize), ScanError>(
            (first[k].0, second[k + skip].0),
        ),
{
    let c = choose|c: int| is_best(first, second, skip, c);
    lemma_best_is_unique(first, second, skip, pair_count(first, second, skip), k, c);
}

/// Where no pair has a sum above zero, the scan reports no result.
pub proof fn lemma_no_positive_sum_no_result(first: Seq<Entry>, second: Seq<Entry>, skip: int)
    requires
        forall|j: int|
            0 <= j < pair_count(first, second, skip) ==> #[trigger] score(first, second, skip, j)
                <= 0,
    ensures
        scan_result(first, second, skip) == Err::<(usize, usize), ScanError>(
            ScanError::NoResultFound,
        ),
{
    assert forall|k: int| !is_best(first, second, skip, k) by {
        if is_best(first, second, skip, k) {
            assert(score(first, second, skip, k) <= 0);
        }
    }
}

/// Two copies of an ascending stream of more than one integer: the best pair
/// is the last one, whatever the skip below the length.
pub proof fn lemma_ascending_ends_at_last_pair(n: int, k: int)
    requires
        0 <= k < n,
        1 < n <= 0x8000_0000,
    ensures
        scan_result(ascending(n), ascending(n), k) == Ok::<(usize, usize), ScanError>(
            ((n - k - 1) as usize, (n - 1) as usize),
        ),
{
    let s = ascending(n);
    assert(pair_count(s, s, k) == n - k);
    assert forall|j: int| 0 <= j < n - k implies #[trigger] score(s, s, k, j) == 2 * j + k by {}
    assert(is_best(s, s, k, n - k - 1));
    lemma_best_pair_is_reported(s, s, k, n - k - 1);
}

/// Two copies of a descending stream of more than one integer: the best pair
/// is the first one, whatever the skip below the length.
pub proof fn lemma_descending_starts_at_first_pair(n: int, k: int)
    requires
        0 <= k < n,
        1 < n <= 0x8000_0000,
    ensures
        scan_result(descending(n), descending(n), k) == Ok::<(usize, usize), ScanError>(
            (0usize, k as usize),
        ),
{
    let s = descending(n);
    assert(pair_count(s, s, k) == n - k);
    assert forall|j: int| 0 <= j < n - k implies #[trigger] score(s, s, k, j) == 2 * n - 2 - k - 2
        * j by {}
    assert(is_best(s, s, k, 0));
    lemma_best_pair_is_reported(s, s, k, 0);
}

/// A skip that leaves nothing of the second stream, or an empty stream on
/// either side, gives no result.
pub proof fn lemma_nothing_to_pair(first: Seq<Entry>, second: Seq<Entry>, skip: int)
    requires
        0 <= skip,
        skip >= second.len() || first.len() == 0 || second.len() == 0,
    ensures
        scan_result(first, second, skip) == Err::<(usize, usize), ScanError>(
            ScanError::NoResultFound,
        ),
{
    assert(pair_count(first, second, skip) == 0);
    lemma_no_positive_sum_no_result(first, second, skip);
}

/// Streams that hold failures only give no result, whatever their lengths
/// and the skip.
pub proof fn lemma_failures_only(first: Seq<Entry>, second: Seq<Entry>, skip: int)
    requires
        0 <= skip,
        forall|i: int| 0 <= i < first.len() ==> (#[trigger] first[i]).1 is Err,
        forall|i: int| 0 <= i < second.len() ==> (#[trigger] second[i]).1 is Err,
    ensures
        scan_result(first, second, skip) == Err::<(usize, usize), ScanError>(
            ScanError::NoResultFound,
        ),
{
    assert forall|j: int| 0 <= j < pair_count(first, second, skip) implies #[trigger] score(
        first,
        second,
        skip,
        j,
    ) <= 0 by {
        assert(first[j].1 is Err);
    }
    lemma_no_positive_sum_no_result(first, second, skip);
}

/// A failure on one side of every pair is enough: no pair counts, so there
/// is no result.
pub proof fn lemma_every_pair_failed(first: Seq<Entry>, second: Seq<Entry>, skip: int)
    requires
        0 <= skip,
        forall|j: int|
            0 <= j < pair_count(first, second, skip) ==> (#[trigger] first[j]).1 is Err || (
            #[trigger] second[j + skip]).1 is Err,
    ensures
        scan_result(first, second, skip) == Err::<(usize, usize), ScanError>(
            ScanError::NoResultFound,
        ),
{
    assert forall|j: int| 0 <= j < pair_count(first, second, skip) implies #[trigger] score(
        first,
        second,
        skip,
        j,
    ) <= 0 by {
        assert(first[j].1 is Err || second[j + skip].1 is Err);
    }
    lemma_no_positive_sum_no_result(first, second, skip);
}

/// The scan reads the pairs up to the end of the shorter side and nothing
/// else: inputs with the same number of pairs and the same elements in those
/// pairs give the same result, whatever else they hold.
pub proof fn lemma_only_the_pairs_count(
    first: Seq<Entry>,
    second: Seq<Entry>,
    other_first: Seq<Entry>,
    other_second: Seq<Entry>,
    skip: int,
)
    requires
        0 <= skip,
        pair_count(first, second, skip) == pair_count(other_first, other_second, skip),
        forall|j: int|
            0 <= j < pair_count(first, second, skip) ==> #[trigger] first[j] == other_first[j],
        forall|j: int|
            0 <= j < pair_count(first, second, skip) ==> #[trigger] second[j + skip]
                == other_second[j + skip],
    ensures
        scan_result(first, second, skip) == scan_result(other_first, other_second, skip),
{
    let n = pair_count(first, second, skip);
    assert forall|j: int| 0 <= j < n implies #[trigger] score(first, second, skip, j) == score(
        other_first,
        other_second,
        skip,
        j,
    ) by {
        assert(first[j] == other_first[j]);
        assert(second[j + skip] == other_second[j + skip]);
    }
    if exists|k: int| is_best(first, second, skip, k) {
        let k = choose|k: int| is_best(first, second, skip, k);
        assert(first[k] == other_first[k]);
        assert(second[k + skip] == other_second[k + skip]);
        assert(best_among(other_first, other_second, skip, n, k)) by {
            assert forall|j: int| 0 <= j < n implies #[trigger] score(
                other_first,
                other_second,
                skip,
                j,
            ) <= score(other_first, other_second, skip, k) by {
                assert(score(first, second, skip, j) <= score(first, second, skip, k));
            }
            assert forall|j: int| 0 <= j < k implies #[trigger] score(
                other_first,
                other_second,
                skip,
                j,
            ) < score(other_first, other_second, skip, k) by {
                assert(score(first, second, skip, j) < score(first, second, skip, k));
            }
        }
        lemma_best_pair_is_reported(other_first, other_second, skip, k);
    } else {
        assert forall|j: int| 0 <= j < n implies #[trigger] score(
            other_first,
            other_second,
            skip,
            j,
        ) <= 0 by {
            if score(first, second, skip, j) > 0 {
                lemma_positive_sum_has_best(first, second, skip, n, j);
                let k = choose|k: int| best_among(first, second, skip, n, k);
                assert(is_best(first, second, skip, k));
            }
        }
        lemma_no_positive_sum_no_result(other_first, other_second, skip);
    }
}

/// Among the first `n` pairs, one with a sum above zero means that there is a best pair.
pub proof fn lemma_positive_sum_has_best(
    first: Seq<Entry>,
    second: Seq<Entry>,
    skip: int,
    n: int,
    j: int,
)
    requires
        0 <= j < n,
        score(first, second, skip, j) > 0,
    ensures
        exists|k: int| best_among(first, second, skip, n, k),
    decreases n,
{
    let m = n - 1;
    let earlier = if j < m {
        j
    } else {
        choose|i: int| 0 <= i < m && score(first, second, skip, i) > 0
    };
    if 0 <= earlier < m && score(first, second, skip, earlier) > 0 {
        lemma_positive_sum_has_best(first, second, skip, m, earlier);
        let k = choose|k: int| best_among(first, second, skip, m, k);
        if score(first, second, skip, m) > score(first, second, skip, k) {
            assert(best_among(first, second, skip, n, m));
        } else {
            assert(best_among(first, second, skip, n, k));
        }
    } else {
        assert(forall|i: int| 0 <= i < m ==> #[trigger] score(first, second, skip, i) <= 0);
        assert(best_among(first, second, skip, n, m));
    }
}

/// The scan reports a pair exactly when some pair has a sum above zero.
pub proof fn lemma_result_iff_positive_sum(first: Seq<Entry>, second: Seq<Entry>, skip: int)
    ensures
        scan_result(first, second, skip) is Ok <==> exists|j: int|
            0 <= j < pair_count(first, second, skip) && #[trigger] score(first, second, skip, j)
                > 0,
{
    let n = pair_count(first, second, skip);
    if exists|j: int| 0 <= j < n && #[trigger] score(first, second, skip, j) > 0 {
        let j = choose|j: int| 0 <= j < n && #[trigger] score(first, second, skip, j) > 0;
        lemma_positive_sum_has_best(first, second, skip, n, j);
        let k = choose|k: int| best_among(first, second, skip, n, k);
        assert(is_best(first, second, skip, k));
    } else {
        lemma_no_positive_sum_no_result(first, second, skip);
    }
}

/// The skip is taken from the second stream only. With two equal ascending
/// streams it does not matter which of them comes first: the result and its
/// sum are the same. The two positions of the result are `skip` apart, so
/// they differ wherever the skip is not zero.
pub proof fn lemma_skip_is_one_sided(n: int, k: int)
    requires
        0 <= k < n,
        1 < n <= 0x8000_0000,
    ensures
        ({
            let one = ascending(n);
            let other = ascending(n);
            let p = n - k - 1;
            let q = n - 1;
            &&& scan_result(one, other, k) == Ok::<(usize, usize), ScanError>(
                (p as usize, q as usize),
            )
            &&& scan_result(other, one, k) == scan_result(one, other, k)
            &&& score(one, other, k, p) == 2 * n - k - 2
            &&& score(other, one, k, p) == score(one, other, k, p)
            &&& q - p == k
        }),
{
    lemma_ascending_ends_at_last_pair(n, k);
}

} // verus!
