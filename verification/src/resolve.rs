//! From the distances of a group to offsets on the read.
//!
//! A distance says how many occurrences of the group's base are passed over
//! before the next modified one: the first distance counts from the start of
//! the read, each later one from behind the modified base before it.

use vstd::prelude::*;
use crate::offsets::{ints, lemma_ints_push, strictly_increasing};

verus! {

/// How many of the bases of `seq` from `lo` up to `hi` are `base`.
pub open spec fn count_base(seq: Seq<u8>, base: u8, lo: int, hi: int) -> int
    decreases hi - lo,
{
    if hi <= lo {
        0
    } else {
        count_base(seq, base, lo, hi - 1) + if seq[hi - 1] == base {
            1int
        } else {
            0int
        }
    }
}

/// The offset before which the count of distance `k` starts: the start of
/// the read for the first distance, else behind the modified base before.
pub open spec fn count_start(positions: Seq<int>, k: int) -> int {
    if k == 0 {
        0
    } else {
        positions[k - 1] + 1
    }
}

/// `positions[k]` is where distance `k` puts its modified base: on an
/// occurrence of `base` with exactly `distances[k]` occurrences passed over
/// since the count started.
pub open spec fn placed(
    seq: Seq<u8>,
    base: u8,
    distances: Seq<int>,
    positions: Seq<int>,
    k: int,
) -> bool {
    &&& count_start(positions, k) <= positions[k] < seq.len()
    &&& seq[positions[k]] == base
    &&& count_base(seq, base, count_start(positions, k), positions[k]) == distances[k]
}

/// `positions` are the offsets that `distances` put on `seq`, one for each
/// distance and in their order.
pub open spec fn is_resolution(
    seq: Seq<u8>,
    base: u8,
    distances: Seq<int>,
    positions: Seq<int>,
) -> bool {
    &&& positions.len() == distances.len()
    &&& forall|k: int|
        0 <= k < positions.len() ==> #[trigger] placed(seq, base, distances, positions, k)
}

/// The read has occurrences of `base` for all of `distances`.
pub open spec fn resolvable(seq: Seq<u8>, base: u8, distances: Seq<int>) -> bool {
    exists|positions: Seq<int>| is_resolution(seq, base, distances, positions)
}

/// The offsets that `distances` put on `seq`, where there are any; they are
/// the only ones, see [`lemma_resolution_unique`].
pub open spec fn resolution(seq: Seq<u8>, base: u8, distances: Seq<int>) -> Seq<int> {
    choose|positions: Seq<int>| is_resolution(seq, base, distances, positions)
}

/// A count is at least zero and at most the length of its range.
pub proof fn lemma_count_bounds(seq: Seq<u8>, base: u8, lo: int, hi: int)
    requires
        lo <= hi,
    ensures
        0 <= count_base(seq, base, lo, hi) <= hi - lo,
    decreases hi - lo,
{
    if lo < hi {
        lemma_count_bounds(seq, base, lo, hi - 1);
    }
}

/// A count over a longer range is no less.
pub proof fn lemma_count_grows(seq: Seq<u8>, base: u8, lo: int, mid: int, hi: int)
    requires
        lo <= mid <= hi,
    ensures
        count_base(seq, base, lo, mid) <= count_base(seq, base, lo, hi),
    decreases hi - mid,
{
    if mid < hi {
        lemma_count_grows(seq, base, lo, mid, hi - 1);
    }
}

/// Two placements of the same distances agree on every distance.
proof fn lemma_placement_unique(
    seq: Seq<u8>,
    base: u8,
    distances: Seq<int>,
    p: Seq<int>,
    q: Seq<int>,
    k: int,
)
    requires
        0 <= k < p.len(),
        k < q.len(),
        forall|i: int| 0 <= i <= k ==> #[trigger] placed(seq, base, distances, p, i),
        forall|i: int| 0 <= i <= k ==> #[trigger] placed(seq, base, distances, q, i),
    ensures
        p[k] == q[k],
    decreases k,
{
    if k > 0 {
        lemma_placement_unique(seq, base, distances, p, q, k - 1);
    }
    assert(placed(seq, base, distances, p, k));
    assert(placed(seq, base, distances, q, k));
    let start = count_start(p, k);
    if p[k] < q[k] {
        lemma_count_grows(seq, base, start, p[k] + 1, q[k]);
    } else if q[k] < p[k] {
        lemma_count_grows(seq, base, start, q[k] + 1, p[k]);
    }
}

/// The offsets that distances put on a read are determined by the read, the
/// base and the distances.
pub proof fn lemma_resolution_unique(
    seq: Seq<u8>,
    base: u8,
    distances: Seq<int>,
    p: Seq<int>,
    q: Seq<int>,
)
    requires
        is_resolution(seq, base, distances, p),
        is_resolution(seq, base, distances, q),
    ensures
        p == q,
{
    assert forall|k: int| 0 <= k < p.len() implies p[k] == q[k] by {
        lemma_placement_unique(seq, base, distances, p, q, k);
    }
    assert(p =~= q);
}

/// For a group with N distances that the read has room for, the resolved
/// offsets are N in number, lie on the read and are strictly increasing.
pub proof fn lemma_resolution_increasing(
    seq: Seq<u8>,
    base: u8,
    distances: Seq<int>,
    positions: Seq<int>,
)
    requires
        is_resolution(seq, base, distances, positions),
    ensures
        positions.len() == distances.len(),
        strictly_increasing(positions),
        forall|k: int| 0 <= k < positions.len() ==> 0 <= #[trigger] positions[k] < seq.len(),
{
    assert forall|i: int, j: int| 0 <= i < j < positions.len() implies positions[i]
        < positions[j] by {
        lemma_increasing_between(seq, base, distances, positions, i, j);
    }
    assert forall|k: int| 0 <= k < positions.len() implies 0 <= #[trigger] positions[k]
        < seq.len() by {
        assert(placed(seq, base, distances, positions, k));
        if k > 0 {
            lemma_increasing_between(seq, base, distances, positions, 0, k);
            assert(placed(seq, base, distances, positions, 0));
        }
    }
}

/// Of two resolved offsets the later one is the greater.
proof fn lemma_increasing_between(
    seq: Seq<u8>,
    base: u8,
    distances: Seq<int>,
    positions: Seq<int>,
    i: int,
    j: int,
)
    requires
        is_resolution(seq, base, distances, positions),
        0 <= i < j < positions.len(),
    ensures
        positions[i] < positions[j],
    decreases j - i,
{
    assert(placed(seq, base, distances, positions, j));
    if i < j - 1 {
        lemma_increasing_between(seq, base, distances, positions, i, j - 1);
    }
}

/// Resolves the distances of a group into offsets on the forward read.
///
/// Returns the offsets, one for each distance, or `None` where the read ends
/// before every distance has found its base.
pub fn resolve_positions(seq: &[u8], base: u8, distances: &[i64]) -> (r: Option<Vec<i64>>)
    requires
        seq.len() <= i64::MAX,
    ensures
        r is Some <==> resolvable(seq@, base, ints(distances@)),
        r matches Some(positions) ==> {
            &&& is_resolution(seq@, base, ints(distances@), ints(positions@))
            &&& ints(positions@) == resolution(seq@, base, ints(distances@))
            &&& positions.len() == distances.len()
            &&& strictly_increasing(ints(positions@))
        },
{
    let ghost wanted = ints(distances@);
    let mut positions: Vec<i64> = Vec::new();
    let mut at: usize = 0;
    let mut passed: i64 = 0;
    while at < seq.len() && positions.len() < distances.len()
        invariant
            at <= seq.len() <= i64::MAX,
            wanted == ints(distances@),
            positions.len() <= distances.len(),
            forall|k: int|
                0 <= k < positions.len() ==> #[trigger] placed(
                    seq@,
                    base,
                    wanted,
                    ints(positions@),
                    k,
                ),
            0 <= count_start(ints(positions@), positions.len() as int) <= at,
            passed == count_base(
                seq@,
                base,
                count_start(ints(positions@), positions.len() as int),
                at as int,
            ),
            positions.len() < distances.len() ==> forall|j: int|
                count_start(ints(positions@), positions.len() as int) <= j < at ==> !(seq@[j]
                    == base && #[trigger] count_base(
                    seq@,
                    base,
                    count_start(ints(positions@), positions.len() as int),
                    j,
                ) == wanted[positions.len() as int]),
        decreases seq.len() - at,
    {
        let ghost found = ints(positions@);
        let ghost n = positions.len() as int;
        proof {
            lemma_count_bounds(seq@, base, count_start(found, n), at as int);
        }
        if seq[at] == base && passed == distances[positions.len()] {
            proof {
                lemma_ints_push(positions@, at as i64);
                let grown = found.push(at as int);
                assert forall|k: int| 0 <= k <= n implies #[trigger] placed(
                    seq@,
                    base,
                    wanted,
                    grown,
                    k,
                ) by {
                    if k < n {
                        assert(placed(seq@, base, wanted, found, k));
                    }
                }
            }
            positions.push(at as i64);
            passed = 0;
        } else if seq[at] == base {
            passed += 1;
        }
        at += 1;
    }
    if positions.len() == distances.len() {
        proof {
            assert(is_resolution(seq@, base, wanted, ints(positions@)));
            lemma_resolution_unique(
                seq@,
                base,
                wanted,
                ints(positions@),
                resolution(seq@, base, wanted),
            );
            lemma_resolution_increasing(seq@, base, wanted, ints(positions@));
        }
        Some(positions)
    } else {
        proof {
            let found = ints(positions@);
            let n = positions.len() as int;
            assert forall|p: Seq<int>| !is_resolution(seq@, base, wanted, p) by {
                if is_resolution(seq@, base, wanted, p) {
                    assert forall|k: int| 0 <= k < n implies p[k] == found[k] by {
                        lemma_prefix_unique(seq@, base, wanted, found, p, k);
                    }
                    assert(placed(seq@, base, wanted, p, n));
                    assert(count_start(p, n) == count_start(found, n));
                }
            }
        }
        None
    }
}

/// A placement of the first distances agrees with every resolution.
proof fn lemma_prefix_unique(
    seq: Seq<u8>,
    base: u8,
    distances: Seq<int>,
    found: Seq<int>,
    p: Seq<int>,
    k: int,
)
    requires
        0 <= k < found.len() <= p.len(),
        forall|i: int| 0 <= i < found.len() ==> #[trigger] placed(seq, base, distances, found, i),
        is_resolution(seq, base, distances, p),
    ensures
        found[k] == p[k],
{
    assert forall|i: int| 0 <= i <= k implies #[trigger] placed(seq, base, distances, p, i) by {}
    lemma_placement_unique(seq, base, distances, found, p, k);
}

} // verus!
