//! Longest strictly increasing subsequence (patience sorting, O(n log n)).

use vstd::prelude::*;

verus! {

/// `idx` lists positions of `values` in increasing order whose values are
/// strictly increasing.
pub open spec fn increasing_positions(values: Seq<usize>, idx: Seq<usize>) -> bool {
    &&& forall|k: int| 0 <= k < idx.len() ==> #[trigger] idx[k] < values.len()
    &&& forall|j: int, k: int|
        0 <= j < k < idx.len() ==> #[trigger] idx[j] < #[trigger] idx[k] && values[idx[j] as int]
            < values[idx[k] as int]
}

/// The tail kept for the rank of `j` ends no higher than `j` does.
spec fn tail_below(values: Seq<usize>, tails: Seq<usize>, rank: Seq<int>, j: int) -> bool {
    values[tails[rank[j] - 1] as int] <= values[j]
}

/// `j` links to a predecessor one rank below it, earlier and smaller, unless
/// it starts a run.
spec fn pred_ok(values: Seq<usize>, rank: Seq<int>, pred: Seq<Option<usize>>, j: int) -> bool {
    if rank[j] == 1 {
        pred[j] is None
    } else {
        &&& pred[j] is Some
        &&& pred[j].unwrap() < j
        &&& values[pred[j].unwrap() as int] < values[j]
        &&& rank[pred[j].unwrap() as int] == rank[j] - 1
    }
}

/// Patience-sorting state after `i` values: ranks, tails and predecessor links.
#[verifier::opaque]
spec fn patience_inv(
    values: Seq<usize>,
    i: int,
    rank: Seq<int>,
    tails: Seq<usize>,
    pred: Seq<Option<usize>>,
) -> bool {
    &&& 0 <= i <= values.len()
    &&& rank.len() == i
    &&& pred.len() == values.len()
    &&& tails.len() <= i
    &&& forall|l: int| 0 <= l < tails.len() ==> #[trigger] tails[l] < i
    &&& forall|l: int| 0 <= l < tails.len() ==> rank[#[trigger] tails[l] as int] == l + 1
    &&& forall|l1: int, l2: int|
        0 <= l1 < l2 < tails.len() ==> values[#[trigger] tails[l1] as int]
            < values[#[trigger] tails[l2] as int]
    &&& forall|j: int| 0 <= j < i ==> 1 <= #[trigger] rank[j] <= tails.len()
    &&& forall|j: int| 0 <= j < i ==> #[trigger] tail_below(values, tails, rank, j)
    &&& forall|j: int| 0 <= j < i ==> #[trigger] pred_ok(values, rank, pred, j)
    &&& forall|j: int| i <= j < values.len() ==> #[trigger] pred[j] is None
    &&& forall|a: int, b: int|
        0 <= a < b < i && values[a] < values[b] ==> #[trigger] rank[a] < #[trigger] rank[b]
}

/// One step of patience sorting keeps its invariant.
#[verifier::rlimit(60)]
proof fn lemma_patience_step(
    values: Seq<usize>,
    i: int,
    old_rank: Seq<int>,
    old_tails: Seq<usize>,
    old_pred: Seq<Option<usize>>,
    pos: int,
    t: Seq<usize>,
    p: Seq<Option<usize>>,
)
    requires
        0 <= i < values.len(),
        values.len() <= usize::MAX,
        patience_inv(values, i, old_rank, old_tails, old_pred),
        0 <= pos <= old_tails.len(),
        forall|l: int| 0 <= l < pos ==> values[#[trigger] old_tails[l] as int] < values[i],
        forall|l: int|
            pos <= l < old_tails.len() ==> values[#[trigger] old_tails[l] as int] >= values[i],
        p == (if pos > 0 {
            old_pred.update(i, Some(old_tails[pos - 1]))
        } else {
            old_pred
        }),
        t == (if pos < old_tails.len() {
            old_tails.update(pos, i as usize)
        } else {
            old_tails.push(i as usize)
        }),
    ensures
        patience_inv(values, i + 1, old_rank.push(pos + 1), t, p),
{
    reveal(patience_inv);
    let rank = old_rank.push(pos + 1);
    let value = values[i];
    assert(forall|j: int| 0 <= j < values.len() && j != i ==> #[trigger] p[j] == old_pred[j]);
    assert(p[i] == if pos > 0 {
        Some(old_tails[pos - 1])
    } else {
        None
    });
    assert(t[pos] == i);
    assert(forall|l: int| 0 <= l < t.len() && l != pos ==> #[trigger] t[l] == old_tails[l]);
    assert(t.len() == if pos < old_tails.len() {
        old_tails.len()
    } else {
        old_tails.len() + 1
    });
    assert(forall|j: int| 0 <= j < i ==> #[trigger] rank[j] == old_rank[j]);
    assert(rank[i] == pos + 1);
    assert forall|l: int| 0 <= l < t.len() implies #[trigger] t[l] < i + 1 by {
        if l != pos {
            assert(t[l] == old_tails[l]);
        }
    }
    assert forall|l: int| 0 <= l < t.len() implies rank[#[trigger] t[l] as int] == l + 1 by {
        if l != pos {
            assert(t[l] == old_tails[l]);
            assert(old_tails[l] < i);
            assert(old_rank[old_tails[l] as int] == l + 1);
        }
    }
    assert forall|l1: int, l2: int|
        0 <= l1 < l2 < t.len() implies values[#[trigger] t[l1] as int]
        < values[#[trigger] t[l2] as int] by {
        if l1 == pos {
            assert(values[old_tails[l2] as int] > values[old_tails[l1] as int]);
        } else if l2 == pos {
            assert(t[l1] == old_tails[l1]);
        } else {
            assert(t[l1] == old_tails[l1]);
            assert(t[l2] == old_tails[l2]);
        }
    }
    assert forall|j: int| 0 <= j < i + 1 implies #[trigger] tail_below(values, t, rank, j) by {
        if j < i {
            assert(tail_below(values, old_tails, old_rank, j));
            assert(rank[j] == old_rank[j]);
            if rank[j] - 1 != pos {
                assert(t[rank[j] - 1] == old_tails[rank[j] - 1]);
            }
        }
    }
    assert forall|j: int| 0 <= j < i + 1 implies 1 <= #[trigger] rank[j] <= t.len() by {
        if j < i {
            assert(rank[j] == old_rank[j]);
        }
    }
    assert forall|j: int| 0 <= j < i + 1 implies #[trigger] pred_ok(values, rank, p, j) by {
        if j < i {
            assert(pred_ok(values, old_rank, old_pred, j));
            assert(rank[j] == old_rank[j]);
            if old_rank[j] != 1 {
                assert(rank[old_pred[j].unwrap() as int] == old_rank[old_pred[j].unwrap() as int]);
            }
        } else {
            if pos > 0 {
                assert(rank[old_tails[pos - 1] as int] == old_rank[old_tails[pos - 1] as int]);
            }
        }
    }
    assert forall|a: int, b: int|
        0 <= a < b < i + 1 && values[a] < values[b] implies #[trigger] rank[a]
        < #[trigger] rank[b] by {
        if b == i {
            let r = old_rank[a];
            assert(tail_below(values, old_tails, old_rank, a));
            assert(values[old_tails[r - 1] as int] <= values[a]);
            if r - 1 >= pos {
                assert(values[old_tails[r - 1] as int] >= value);
            }
        } else {
            assert(rank[a] == old_rank[a]);
            assert(rank[b] == old_rank[b]);
        }
    }
}

/// Facts about a patience state that the traversal code reads directly.
proof fn lemma_patience_facts(
    values: Seq<usize>,
    i: int,
    rank: Seq<int>,
    tails: Seq<usize>,
    pred: Seq<Option<usize>>,
)
    requires
        patience_inv(values, i, rank, tails, pred),
    ensures
        pred.len() == values.len(),
        rank.len() == i,
        tails.len() <= i,
        forall|l: int| 0 <= l < tails.len() ==> #[trigger] tails[l] < i,
        forall|l: int| 0 <= l < tails.len() ==> rank[#[trigger] tails[l] as int] == l + 1,
        forall|l1: int, l2: int|
            0 <= l1 < l2 < tails.len() ==> values[#[trigger] tails[l1] as int]
                < values[#[trigger] tails[l2] as int],
        forall|j: int| 0 <= j < i ==> 1 <= #[trigger] rank[j] <= tails.len(),
        forall|j: int| 0 <= j < i ==> #[trigger] pred_ok(values, rank, pred, j),
        forall|a: int, b: int|
            0 <= a < b < i && values[a] < values[b] ==> #[trigger] rank[a] < #[trigger] rank[b],
{
    reveal(patience_inv);
}

/// The empty state satisfies the invariant.
proof fn lemma_patience_init(values: Seq<usize>, pred: Seq<Option<usize>>)
    requires
        pred.len() == values.len(),
        forall|j: int| 0 <= j < pred.len() ==> #[trigger] pred[j] is None,
    ensures
        patience_inv(values, 0, Seq::empty(), Seq::empty(), pred),
{
    reveal(patience_inv);
}

/// The last element of an increasing run has a rank at least its length.
proof fn lemma_rank_bounds_run(values: Seq<usize>, rank: Seq<int>, idx: Seq<usize>, k: int)
    requires
        increasing_positions(values, idx),
        rank.len() == values.len(),
        forall|j: int| 0 <= j < values.len() ==> 1 <= #[trigger] rank[j],
        forall|a: int, b: int|
            0 <= a < b < values.len() && values[a] < values[b] ==> #[trigger] rank[a]
                < #[trigger] rank[b],
        1 <= k <= idx.len(),
    ensures
        rank[idx[k - 1] as int] >= k,
    decreases k,
{
    if k > 1 {
        lemma_rank_bounds_run(values, rank, idx, k - 1);
        assert(idx[k - 2] < idx[k - 1]);
    }
}

/// First position in `tails` whose value in `sequence` is not below `value`
/// (binary search over strictly increasing tail values).
fn lower_bound(sequence: &[usize], tails: &Vec<usize>, value: usize, Ghost(i): Ghost<int>) -> (low:
    usize)
    requires
        i <= sequence@.len(),
        forall|l: int| 0 <= l < tails@.len() ==> #[trigger] tails@[l] < i,
        forall|l1: int, l2: int|
            0 <= l1 < l2 < tails@.len() ==> sequence@[#[trigger] tails@[l1] as int]
                < sequence@[#[trigger] tails@[l2] as int],
    ensures
        low <= tails@.len(),
        forall|l: int| 0 <= l < low ==> sequence@[#[trigger] tails@[l] as int] < value,
        forall|l: int| low <= l < tails@.len() ==> sequence@[#[trigger] tails@[l] as int] >= value,
{
    let mut low: usize = 0;
    let mut high: usize = tails.len();
    while low < high
        invariant
            i <= sequence@.len(),
            forall|l: int| 0 <= l < tails@.len() ==> #[trigger] tails@[l] < i,
            forall|l1: int, l2: int|
                0 <= l1 < l2 < tails@.len() ==> sequence@[#[trigger] tails@[l1] as int]
                    < sequence@[#[trigger] tails@[l2] as int],
            low <= high <= tails@.len(),
            forall|l: int| 0 <= l < low ==> sequence@[#[trigger] tails@[l] as int] < value,
            forall|l: int| high <= l < tails@.len() ==> sequence@[#[trigger] tails@[l] as int] >= value,
        decreases high - low,
    {
        let middle = low + (high - low) / 2;
        if sequence[tails[middle]] < value {
            low = middle + 1;
        } else {
            high = middle;
        }
    }
    low
}

/// Returns indices into `sequence` that form a longest strictly increasing
/// subsequence.
pub fn longest_increasing_subsequence(sequence: &[usize]) -> (r: Vec<usize>)
    ensures
        increasing_positions(sequence@, r@),
        forall|other: Seq<usize>|
            increasing_positions(sequence@, other) ==> other.len() <= r@.len(),
{
    let length = sequence.len();
    if length == 0 {
        let r: Vec<usize> = Vec::new();
        proof {
            assert forall|other: Seq<usize>|
                increasing_positions(sequence@, other) implies other.len() <= r@.len() by {
                if other.len() > 0 {
                    assert(other[0] < sequence@.len());
                }
            }
        }
        return r;
    }
    let ghost values = sequence@;
    // tails[l] = index ending an increasing run of length l + 1 with the
    // smallest final value seen so far.
    let mut tails: Vec<usize> = Vec::new();
    let mut predecessors: Vec<Option<usize>> = Vec::with_capacity(length);
    let mut fill: usize = 0;
    while fill < length
        invariant
            fill <= length,
            predecessors@.len() == fill,
            forall|j: int| 0 <= j < fill ==> #[trigger] predecessors@[j] is None,
        decreases length - fill,
    {
        predecessors.push(None);
        fill += 1;
    }
    let ghost mut rank: Seq<int> = Seq::empty();
    proof {
        lemma_patience_init(values, predecessors@);
    }
    let mut index: usize = 0;
    while index < length
        invariant
            length == values.len(),
            values == sequence@,
            index <= length,
            patience_inv(values, index as int, rank, tails@, predecessors@),
        decreases length - index,
    {
        proof {
            lemma_patience_facts(values, index as int, rank, tails@, predecessors@);
        }
        let value = sequence[index];
        // First position whose tail value is not below `value`.
        let low = lower_bound(sequence, &tails, value, Ghost(index as int));
        let insert_position = low;
        let ghost old_tails = tails@;
        let ghost old_pred = predecessors@;
        let ghost old_rank = rank;
        if insert_position > 0 {
            predecessors.set(index, Some(tails[insert_position - 1]));
        }
        if insert_position < tails.len() {
            tails.set(insert_position, index);
        } else {
            tails.push(index);
        }
        proof {
            rank = old_rank.push(insert_position + 1);
            lemma_patience_step(
                values,
                index as int,
                old_rank,
                old_tails,
                old_pred,
                insert_position as int,
                tails@,
                predecessors@,
            );
        }
        index += 1;
    }
    // Walk the predecessor links back from the end of the longest run.
    proof {
        lemma_patience_facts(values, length as int, rank, tails@, predecessors@);
        assert(1 <= rank[0] <= tails@.len());
    }
    let ghost longest = tails@.len();
    let mut backwards: Vec<usize> = Vec::new();
    let mut current: Option<usize> = Some(tails[tails.len() - 1]);
    while current.is_some()
        invariant
            values == sequence@,
            length == values.len(),
            patience_inv(values, length as int, rank, tails@, predecessors@),
            longest == tails@.len(),
            longest >= 1,
            backwards@.len() <= longest,
            forall|t: int|
                0 <= t < backwards@.len() ==> #[trigger] backwards@[t] < length && rank[backwards@[t] as int]
                    == longest - t,
            forall|t: int|
                0 <= t < backwards@.len() - 1 ==> backwards@[t + 1] < #[trigger] backwards@[t]
                    && values[backwards@[t + 1] as int] < values[backwards@[t] as int],
            current matches Some(c) ==> {
                &&& c < length
                &&& rank[c as int] == longest - backwards@.len()
                &&& backwards@.len() > 0 ==> c < backwards@.last() && values[c as int]
                    < values[backwards@.last() as int]
            },
            current is None ==> backwards@.len() == longest,
        decreases longest - backwards@.len(),
    {
        proof {
            lemma_patience_facts(values, length as int, rank, tails@, predecessors@);
        }
        let index = current.unwrap();
        proof {
            assert(pred_ok(values, rank, predecessors@, index as int));
        }
        backwards.push(index);
        current = predecessors[index];
    }
    let n: usize = backwards.len();
    let mut result: Vec<usize> = Vec::with_capacity(n);
    let mut j: usize = n;
    while j > 0
        invariant
            j <= n,
            n == backwards@.len(),
            result@.len() == n - j,
            forall|t: int| 0 <= t < n - j ==> result@[t] == backwards@[n - 1 - t],
        decreases j,
    {
        j -= 1;
        result.push(backwards[j]);
    }
    proof {
        lemma_reversed_chain(values, backwards@, result@);
        lemma_patience_facts(values, length as int, rank, tails@, predecessors@);
        lemma_no_longer_run(values, rank, tails@.len() as int, result@.len() as int);
    }
    result
}

/// Reversing a chain of decreasing positions and values gives an increasing run.
proof fn lemma_reversed_chain(values: Seq<usize>, backwards: Seq<usize>, result: Seq<usize>)
    requires
        result.len() == backwards.len(),
        forall|t: int|
            0 <= t < result.len() ==> result[t] == backwards[result.len() - 1 - t],
        forall|t: int| 0 <= t < backwards.len() ==> #[trigger] backwards[t] < values.len(),
        forall|t: int|
            0 <= t < backwards.len() - 1 ==> backwards[t + 1] < #[trigger] backwards[t]
                && values[backwards[t + 1] as int] < values[backwards[t] as int],
    ensures
        increasing_positions(values, result),
{
    let n = result.len();
    assert forall|k: int| 0 <= k < result.len() implies #[trigger] result[k] < values.len() by {
        assert(result[k] == backwards[n - 1 - k]);
    }
    assert forall|a: int, b: int| 0 <= a < b < result.len() implies #[trigger] result[a]
        < #[trigger] result[b] && values[result[a] as int] < values[result[b] as int] by {
        let x = n - 1 - b;
        let y = n - 1 - a;
        lemma_backwards_chain(values, backwards, x, y - x);
    }
}

/// No increasing run is longer than the number of tails, when every rank is
/// at most that number.
proof fn lemma_no_longer_run(values: Seq<usize>, rank: Seq<int>, longest: int, found: int)
    requires
        rank.len() == values.len(),
        found == longest,
        longest >= 0,
        forall|j: int| 0 <= j < values.len() ==> 1 <= #[trigger] rank[j] <= longest,
        forall|a: int, b: int|
            0 <= a < b < values.len() && values[a] < values[b] ==> #[trigger] rank[a]
                < #[trigger] rank[b],
    ensures
        forall|other: Seq<usize>| increasing_positions(values, other) ==> other.len() <= found,
{
    assert forall|other: Seq<usize>| increasing_positions(values, other) implies other.len()
        <= found by {
        if other.len() > 0 {
            lemma_rank_bounds_run(values, rank, other, other.len() as int);
            let last = other[other.len() - 1] as int;
            assert(0 <= last < values.len());
            assert(1 <= rank[last] <= longest);
        }
    }
}

/// Along a chain whose consecutive links decrease, every later element is
/// below every earlier one.
proof fn lemma_backwards_chain(values: Seq<usize>, chain: Seq<usize>, x: int, d: int)
    requires
        0 <= x,
        0 < d,
        x + d < chain.len(),
        forall|t: int|
            0 <= t < chain.len() - 1 ==> chain[t + 1] < #[trigger] chain[t] && values[chain[t
                + 1] as int] < values[chain[t] as int],
        forall|t: int| 0 <= t < chain.len() ==> #[trigger] chain[t] < values.len(),
    ensures
        chain[x + d] < chain[x],
        values[chain[x + d] as int] < values[chain[x] as int],
    decreases d,
{
    if d > 1 {
        lemma_backwards_chain(values, chain, x, d - 1);
        assert(chain[x + d] < chain[x + d - 1]);
    }
}

} // verus!
