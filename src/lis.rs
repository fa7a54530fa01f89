//! Longest strictly increasing subsequence, by the tails-array method.
use vstd::prelude::*;

verus! {

/// `run` picks positions of `seq`, in increasing order, whose values strictly increase.
pub open spec fn is_run(seq: Seq<usize>, run: Seq<int>) -> bool {
    &&& forall|m: int| 0 <= m < run.len() ==> 0 <= #[trigger] run[m] < seq.len()
    &&& forall|m: int|
        0 <= m < run.len() - 1 ==> #[trigger] run[m] < run[m + 1] && seq[run[m]] < seq[run[m + 1]]
}

/// The positions of a result as integers.
pub open spec fn as_ints(s: Seq<usize>) -> Seq<int> {
    s.map_values(|x: usize| x as int)
}

/// A run of `seq` that no other run is longer than.
pub open spec fn is_longest_run(seq: Seq<usize>, run: Seq<int>) -> bool {
    &&& is_run(seq, run)
    &&& forall|other: Seq<int>| #[trigger] is_run(seq, other) ==> other.len() <= run.len()
}

proof fn lemma_run_prefix(seq: Seq<usize>, run: Seq<int>)
    requires
        is_run(seq, run),
        run.len() > 0,
    ensures
        is_run(seq, run.drop_last()),
{
    assert forall|m: int| 0 <= m < run.drop_last().len() - 1 implies #[trigger] run.drop_last()[m]
        < run.drop_last()[m + 1] && seq[run.drop_last()[m]] < seq[run.drop_last()[m + 1]] by {
        assert(run.drop_last()[m] == run[m]);
        assert(run.drop_last()[m + 1] == run[m + 1]);
    }
}

proof fn lemma_run_push(seq: Seq<usize>, run: Seq<int>, i: int)
    requires
        is_run(seq, run),
        0 <= i < seq.len(),
        run.len() > 0 ==> run.last() < i && seq[run.last()] < seq[i],
    ensures
        is_run(seq, run.push(i)),
{
    let r = run.push(i);
    assert forall|m: int| 0 <= m < r.len() - 1 implies #[trigger] r[m] < r[m + 1] && seq[r[m]]
        < seq[r[m + 1]] by {
        if m < run.len() - 1 {
            assert(r[m] == run[m] && r[m + 1] == run[m + 1]);
        } else {
            assert(r[m] == run.last() && r[m + 1] == i);
        }
    }
    assert forall|m: int| 0 <= m < r.len() implies 0 <= #[trigger] r[m] < seq.len() by {
        if m < run.len() {
            assert(r[m] == run[m]);
        }
    }
}

/// The first of the `len` kept tails whose value is at least `v` (tails are sorted),
/// or `len`.
pub open spec fn lower_bound(seq: Seq<usize>, tails: Seq<usize>, len: nat, v: usize) -> nat
    decreases len,
{
    if len == 0 {
        0
    } else if seq[tails[len - 1] as int] < v {
        len
    } else {
        lower_bound(seq, tails, (len - 1) as nat, v)
    }
}

/// The state of the scan from the left: the kept tail of each run length, each
/// position's predecessor, and the longest length so far.
pub struct ScanState {
    pub tails: Seq<usize>,
    pub preds: Seq<usize>,
    pub length: nat,
}

/// The scan's state after the first `i` positions of `seq`.
#[verifier::opaque]
pub open spec fn scan_state(seq: Seq<usize>, i: nat) -> ScanState
    decreases i,
{
    if i == 0 {
        ScanState {
            tails: Seq::new(seq.len(), |x: int| 0usize),
            preds: Seq::new(seq.len(), |x: int| 0usize),
            length: 0,
        }
    } else {
        let st = scan_state(seq, (i - 1) as nat);
        let j = i - 1;
        let low = lower_bound(seq, st.tails, st.length, seq[j]);
        ScanState {
            tails: st.tails.update(low as int, j as usize),
            preds: if low > 0 {
                st.preds.update(j, st.tails[low - 1])
            } else {
                st.preds
            },
            length: if low == st.length {
                st.length + 1
            } else {
                st.length
            },
        }
    }
}

/// The run that ends at `k` and has `m` positions, read through the predecessors.
pub open spec fn pred_chain(preds: Seq<usize>, k: int, m: nat) -> Seq<int>
    decreases m,
{
    if m == 0 {
        Seq::empty()
    } else {
        pred_chain(preds, preds[k] as int, (m - 1) as nat).push(k)
    }
}

/// The run that the scan from the left finds: it ends at the last kept tail of
/// the longest length.
pub open spec fn scan_result(seq: Seq<usize>) -> Seq<int> {
    let st = scan_state(seq, seq.len());
    if st.length == 0 {
        Seq::empty()
    } else {
        pred_chain(st.preds, st.tails[st.length - 1] as int, st.length)
    }
}

/// The run that `longest_increasing_subsequence` returns: the scan from the left
/// on the mirrored sequence, read back.
pub open spec fn lis_of(seq: Seq<usize>) -> Seq<int> {
    mirror_run(seq.len() as int, scan_result(mirrored(seq)))
}

proof fn lemma_scan_next(seq: Seq<usize>, i: nat, low: nat)
    requires
        i < seq.len(),
        low == lower_bound(seq, scan_state(seq, i).tails, scan_state(seq, i).length, seq[i as int]),
    ensures
        scan_state(seq, i + 1) == (ScanState {
            tails: scan_state(seq, i).tails.update(low as int, i as usize),
            preds: if low > 0 {
                scan_state(seq, i).preds.update(i as int, scan_state(seq, i).tails[low - 1])
            } else {
                scan_state(seq, i).preds
            },
            length: if low == scan_state(seq, i).length {
                scan_state(seq, i).length + 1
            } else {
                scan_state(seq, i).length
            },
        }),
{
    reveal_with_fuel(scan_state, 2);
}

proof fn lemma_lower_bound(seq: Seq<usize>, tails: Seq<usize>, len: nat, v: usize, b: nat)
    requires
        b <= len,
        len <= tails.len(),
        forall|l: int| 0 <= l < len ==> #[trigger] tails[l] < seq.len(),
        forall|l: int| 0 <= l < b ==> seq[#[trigger] tails[l] as int] < v,
        forall|l: int| b <= l < len ==> seq[#[trigger] tails[l] as int] >= v,
    ensures
        lower_bound(seq, tails, len, v) == b,
    decreases len,
{
    if len > 0 && b < len {
        lemma_lower_bound(seq, tails, (len - 1) as nat, v, b);
    }
}

proof fn lemma_runs_chain(runs: Seq<Seq<int>>, preds: Seq<usize>, j: int)
    requires
        0 <= j < runs.len(),
        forall|x: int|
            0 <= x < runs.len() ==> {
                &&& (#[trigger] runs[x]).len() >= 1
                &&& runs[x].last() == x
                &&& runs[x].len() >= 2 ==> runs[x].drop_last() == runs[preds[x] as int]
                &&& runs[x].len() >= 2 ==> preds[x] < x
            },
    ensures
        runs[j] == pred_chain(preds, j, runs[j].len()),
    decreases j,
{
    let r = runs[j];
    if r.len() == 1 {
        assert(pred_chain(preds, preds[j] as int, 0) =~= Seq::<int>::empty());
        assert(r =~= seq![j]);
        assert(pred_chain(preds, j, 1) =~= seq![j]);
    } else {
        let p = preds[j] as int;
        lemma_runs_chain(runs, preds, p);
        assert(r =~= r.drop_last().push(j));
    }
}

/// The first of the `length` sorted tails whose value is at least `value`, by
/// binary search.
fn find_low(seq: &[usize], tails: &Vec<usize>, length: usize, value: usize, i: usize) -> (low: usize)
    requires
        tails@.len() == seq@.len(),
        length <= i < seq@.len(),
        forall|l: int| 0 <= l < length ==> #[trigger] tails@[l] < i,
        forall|l: int|
            0 <= l < length - 1 ==> seq@[#[trigger] tails@[l] as int] < seq@[tails@[l + 1] as int],
    ensures
        low <= length,
        forall|l: int| 0 <= l < low ==> seq@[#[trigger] tails@[l] as int] < value,
        forall|l: int| low <= l < length ==> seq@[#[trigger] tails@[l] as int] >= value,
        low == lower_bound(seq@, tails@, length as nat, value),
{
    let mut low: usize = 0;
    let mut high: usize = length;
    while low < high
        invariant
            tails@.len() == seq@.len(),
            length <= i < seq@.len(),
            0 <= low <= high <= length,
            forall|l: int| 0 <= l < length ==> #[trigger] tails@[l] < i,
            forall|l: int|
                0 <= l < length - 1 ==> seq@[#[trigger] tails@[l] as int] < seq@[tails@[l + 1] as int],
            forall|l: int| 0 <= l < low ==> seq@[#[trigger] tails@[l] as int] < value,
            forall|l: int| high <= l < length ==> seq@[#[trigger] tails@[l] as int] >= value,
        decreases high - low,
    {
        let mid = low + (high - low) / 2;
        if seq[tails[mid]] < value {
            assert forall|l: int| 0 <= l < mid + 1 implies seq@[#[trigger] tails@[l] as int] < value by {
                lemma_tails_sorted(seq@, tails@, length as int, l, mid as int);
            }
            low = mid + 1;
        } else {
            assert forall|l: int| mid <= l < length implies seq@[#[trigger] tails@[l] as int] >= value by {
                lemma_tails_sorted(seq@, tails@, length as int, mid as int, l);
            }
            high = mid;
        }
    }
    proof {
        lemma_lower_bound(seq@, tails@, length as nat, value, low as nat);
    }
    low
}

/// A longest run of `seq`, found by scanning from the left; among runs of one
/// length it keeps the one whose last value is smallest.
#[verifier::rlimit(100)]
fn longest_run_from_left(seq: &[usize]) -> (r: Vec<usize>)
    ensures
        is_longest_run(seq@, as_ints(r@)),
        as_ints(r@) == scan_result(seq@),
{
    let n = seq.len();
    if n == 0 {
        let r: Vec<usize> = Vec::new();
        assert(as_ints(r@) =~= Seq::<int>::empty());
        proof {
            reveal_with_fuel(scan_state, 1);
        }
        assert(scan_result(seq@) =~= Seq::<int>::empty());
        assert forall|other: Seq<int>| #[trigger] is_run(seq@, other) implies other.len() <= 0 by {
            if other.len() > 0 {
                assert(0 <= other[0] < seq@.len());
            }
        }
        return r;
    }
    let mut predecessors: Vec<usize> = vec![0; n];
    let mut tails: Vec<usize> = vec![0; n];
    let mut length: usize = 0;
    proof {
        reveal_with_fuel(scan_state, 1);
    }
    assert(tails@ =~= scan_state(seq@, 0).tails);
    assert(predecessors@ =~= scan_state(seq@, 0).preds);
    // runs[j]: the run that the algorithm found ending at position j
    let ghost mut runs: Seq<Seq<int>> = Seq::empty();
    let mut i: usize = 0;
    proof {
        reveal(tails_bound_runs);
        assert forall|run: Seq<int>| #[trigger] is_run(seq@, run) && run.len() > 0 implies run.last() >= 0 by {
            assert(0 <= run[run.len() - 1]);
        }
    }
    while i < n
        invariant
            n == seq.len(),
            predecessors.len() == n,
            tails.len() == n,
            length <= i <= n,
            runs.len() == i,
            forall|j: int|
                0 <= j < i ==> {
                    &&& is_run(seq@, #[trigger] runs[j])
                    &&& runs[j].len() >= 1
                    &&& runs[j].last() == j
                    &&& runs[j].len() >= 2 ==> runs[j].drop_last() == runs[predecessors@[j] as int]
                    &&& runs[j].len() >= 2 ==> predecessors@[j] < j
                },
            forall|l: int|
                0 <= l < length ==> {
                    &&& #[trigger] tails@[l] < i
                    &&& runs[tails@[l] as int].len() == l + 1
                },
            forall|l: int|
                0 <= l < length - 1 ==> seq@[#[trigger] tails@[l] as int] < seq@[tails@[l + 1] as int],
            i > 0 ==> length >= 1,
            tails_bound_runs(seq@, tails@, length as int, i as int),
            tails@ == scan_state(seq@, i as nat).tails,
            predecessors@ == scan_state(seq@, i as nat).preds,
            length == scan_state(seq@, i as nat).length,
        decreases n - i,
    {
        let value = seq[i];
        let low = find_low(seq, &tails, length, value, i);
        let ghost old_tails = tails@;
        let ghost new_run: Seq<int> = if low > 0 {
            runs[tails@[low - 1] as int].push(i as int)
        } else {
            seq![i as int]
        };
        proof {
            if low > 0 {
                lemma_run_push(seq@, runs[tails@[low - 1] as int], i as int);
            } else {
                assert(is_run(seq@, new_run));
            }
        }
        if low > 0 {
            predecessors.set(i, tails[low - 1]);
        }
        tails.set(low, i);
        proof {
            runs = runs.push(new_run);
        }
        let ghost old_length = length as int;
        if low == length {
            length = length + 1;
        }
        proof {
            lemma_scan_next(seq@, i as nat, low as nat);
            let nx = scan_state(seq@, (i + 1) as nat);
            assert(tails@ =~= nx.tails);
            assert(predecessors@ =~= nx.preds);
            assert(length == nx.length);
        }
        proof {
            assert(tails@ == old_tails.update(low as int, i));
            lemma_step(seq@, old_tails, tails@, old_length, length as int, low as int, i as int);
        }
        i = i + 1;
    }
    let mut result: Vec<usize> = vec![0; length];
    let ghost best = runs[tails@[length - 1] as int];
    let mut k: usize = tails[length - 1];
    let mut t: usize = 0;
    while t < length
        invariant
            n == seq.len(),
            predecessors.len() == n,
            1 <= length <= n,
            result.len() == length,
            runs.len() == n,
            best.len() == length,
            t <= length,
            forall|j: int|
                0 <= j < n ==> {
                    &&& is_run(seq@, #[trigger] runs[j])
                    &&& runs[j].len() >= 1
                    &&& runs[j].last() == j
                    &&& runs[j].len() >= 2 ==> runs[j].drop_last() == runs[predecessors@[j] as int]
                    &&& runs[j].len() >= 2 ==> predecessors@[j] < j
                },
            t < length ==> k < n && runs[k as int] == best.subrange(0, length - t),
            forall|m: int| length - t <= m < length ==> result@[m] as int == best[m],
        decreases length - t,
    {
        let ghost cur = runs[k as int];
        assert(cur.last() == k);
        result.set(length - 1 - t, k);
        if t + 1 < length {
            assert(cur.len() >= 2);
            assert(runs[predecessors@[k as int] as int] == cur.drop_last());
            assert(best.subrange(0, length - t).drop_last() =~= best.subrange(0, length - t - 1));
            k = predecessors[k];
        }
        t = t + 1;
    }
    proof {
        assert(as_ints(result@) =~= best);
        lemma_runs_chain(runs, predecessors@, tails@[length - 1] as int);
        reveal(tails_bound_runs);
        assert forall|other: Seq<int>| #[trigger] is_run(seq@, other) implies other.len()
            <= length by {
            if other.len() > 0 {
                assert(other.last() < n);
            }
        }
    }
    result
}


/// Every run within the first `i` positions is no longer than `length`, and the
/// tail kept for its length holds a value no greater than its last one.
#[verifier::opaque]
spec fn tails_bound_runs(seq: Seq<usize>, tails: Seq<usize>, length: int, i: int) -> bool {
    forall|run: Seq<int>|
        #[trigger] is_run(seq, run) && run.len() > 0 && run.last() < i ==> {
            &&& run.len() <= length
            &&& seq[tails[run.len() - 1] as int] <= seq[run.last()]
        }
}

proof fn lemma_step(
    seq: Seq<usize>,
    old_tails: Seq<usize>,
    tails: Seq<usize>,
    old_length: int,
    length: int,
    low: int,
    i: int,
)
    requires
        0 <= i < seq.len(),
        i <= usize::MAX,
        0 <= low <= old_length <= i,
        old_tails.len() == tails.len() == seq.len(),
        length == if low == old_length { old_length + 1 } else { old_length },
        tails == old_tails.update(low, i as usize),
        forall|l: int| 0 <= l < old_length ==> #[trigger] old_tails[l] < i,
        forall|l: int|
            0 <= l < old_length - 1 ==> seq[#[trigger] old_tails[l] as int] < seq[old_tails[l + 1] as int],
        forall|l: int| 0 <= l < low ==> seq[#[trigger] old_tails[l] as int] < seq[i],
        forall|l: int| low <= l < old_length ==> seq[#[trigger] old_tails[l] as int] >= seq[i],
        tails_bound_runs(seq, old_tails, old_length, i),
    ensures
        tails_bound_runs(seq, tails, length, i + 1),
{
    reveal(tails_bound_runs);
    assert forall|run: Seq<int>| #[trigger] is_run(seq, run) && run.len() > 0 && run.last() < i
        + 1 implies {
        &&& run.len() <= length
        &&& seq[tails[run.len() - 1] as int] <= seq[run.last()]
    } by {
        lemma_step_one(seq, old_tails, tails, old_length, length, low, i, run);
    }
}

proof fn lemma_step_one(
    seq: Seq<usize>,
    old_tails: Seq<usize>,
    tails: Seq<usize>,
    old_length: int,
    length: int,
    low: int,
    i: int,
    run: Seq<int>,
)
    requires
        0 <= i < seq.len(),
        i <= usize::MAX,
        0 <= low <= old_length <= i,
        old_tails.len() == tails.len() == seq.len(),
        length == if low == old_length { old_length + 1 } else { old_length },
        tails == old_tails.update(low, i as usize),
        forall|l: int| 0 <= l < low ==> seq[#[trigger] old_tails[l] as int] < seq[i],
        forall|l: int| low <= l < old_length ==> seq[#[trigger] old_tails[l] as int] >= seq[i],
        tails_bound_runs(seq, old_tails, old_length, i),
        is_run(seq, run),
        run.len() > 0,
        run.last() < i + 1,
    ensures
        run.len() <= length,
        seq[tails[run.len() - 1] as int] <= seq[run.last()],
{
    reveal(tails_bound_runs);
    let len = run.len() as int;
    if run.last() == i {
        if len >= 2 {
            let prev = run.drop_last();
            lemma_run_prefix(seq, run);
            assert(prev.last() == run[len - 2]);
            assert(run[len - 2] < run[len - 1]);
            assert(prev.len() <= old_length);
            assert(seq[old_tails[len - 2] as int] <= seq[prev.last()]);
            assert(seq[prev.last()] < seq[i]);
            assert(len - 2 < low);
            if len - 1 != low {
                assert(tails[len - 1] == old_tails[len - 1]);
                assert(seq[old_tails[len - 1] as int] < seq[i]);
            }
        } else {
            if low != 0 {
                assert(tails[0] == old_tails[0]);
                assert(seq[old_tails[0] as int] < seq[i]);
            }
        }
    } else {
        assert(len <= old_length);
        assert(seq[old_tails[len - 1] as int] <= seq[run.last()]);
        if len - 1 == low {
            assert(seq[old_tails[low] as int] >= seq[i]);
        } else {
            assert(tails[len - 1] == old_tails[len - 1]);
        }
    }
}

/// `seq` read from its end, with each value's order turned around.
pub open spec fn mirrored(seq: Seq<usize>) -> Seq<usize> {
    Seq::new(seq.len(), |k: int| (usize::MAX - seq[seq.len() - 1 - k]) as usize)
}

/// A run of `seq` read from its end.
pub open spec fn mirror_run(n: int, run: Seq<int>) -> Seq<int> {
    Seq::new(run.len(), |m: int| n - 1 - run[run.len() - 1 - m])
}

proof fn lemma_mirror_run(seq: Seq<usize>, run: Seq<int>)
    requires
        is_run(seq, run),
    ensures
        is_run(mirrored(seq), mirror_run(seq.len() as int, run)),
        mirror_run(seq.len() as int, mirror_run(seq.len() as int, run)) =~= run,
{
    let n = seq.len() as int;
    let w = mirrored(seq);
    let r = mirror_run(n, run);
    assert forall|m: int| 0 <= m < r.len() implies 0 <= #[trigger] r[m] < w.len() by {
        assert(0 <= run[run.len() - 1 - m] < n);
    }
    assert forall|m: int| 0 <= m < r.len() - 1 implies #[trigger] r[m] < r[m + 1] && w[r[m]]
        < w[r[m + 1]] by {
        let a = run.len() - 2 - m;
        assert(run[a] < run[a + 1] && seq[run[a]] < seq[run[a + 1]]);
        assert(r[m] == n - 1 - run[a + 1]);
        assert(r[m + 1] == n - 1 - run[a]);
        assert(0 <= run[a] < n && 0 <= run[a + 1] < n);
    }
}

proof fn lemma_unmirror_run(seq: Seq<usize>, run: Seq<int>)
    requires
        is_run(mirrored(seq), run),
    ensures
        is_run(seq, mirror_run(seq.len() as int, run)),
{
    let n = seq.len() as int;
    let w = mirrored(seq);
    let r = mirror_run(n, run);
    assert forall|m: int| 0 <= m < r.len() implies 0 <= #[trigger] r[m] < seq.len() by {
        assert(0 <= run[run.len() - 1 - m] < n);
    }
    assert forall|m: int| 0 <= m < r.len() - 1 implies #[trigger] r[m] < r[m + 1] && seq[r[m]]
        < seq[r[m + 1]] by {
        let a = run.len() - 2 - m;
        assert(run[a] < run[a + 1] && w[run[a]] < w[run[a + 1]]);
        assert(0 <= run[a] < n && 0 <= run[a + 1] < n);
        assert(w[run[a]] == usize::MAX - seq[n - 1 - run[a]]);
        assert(w[run[a + 1]] == usize::MAX - seq[n - 1 - run[a + 1]]);
    }
}

/// The positions (not the values) of a longest strictly increasing subsequence of
/// `seq`, in increasing order; empty for an empty input. Where several runs are
/// longest, the scan from the right keeps the one that starts earliest.
pub fn longest_increasing_subsequence(seq: &[usize]) -> (r: Vec<usize>)
    ensures
        is_longest_run(seq@, as_ints(r@)),
        as_ints(r@) == lis_of(seq@),
{
    let n = seq.len();
    let mut flipped: Vec<usize> = Vec::new();
    let mut k: usize = 0;
    while k < n
        invariant
            n == seq.len(),
            k <= n,
            flipped@ =~= mirrored(seq@).subrange(0, k as int),
        decreases n - k,
    {
        flipped.push(usize::MAX - seq[n - 1 - k]);
        k = k + 1;
    }
    assert(flipped@ =~= mirrored(seq@));
    let found = longest_run_from_left(flipped.as_slice());
    let len = found.len();
    let mut r: Vec<usize> = Vec::new();
    let mut m: usize = 0;
    while m < len
        invariant
            n == seq.len(),
            len == found.len(),
            is_run(mirrored(seq@), as_ints(found@)),
            m <= len,
            as_ints(r@) =~= mirror_run(n as int, as_ints(found@)).subrange(0, m as int),
        decreases len - m,
    {
        let p = found[len - 1 - m];
        assert(as_ints(found@)[len - 1 - m] == p as int);
        assert(0 <= as_ints(found@)[len - 1 - m] < mirrored(seq@).len());
        assert(mirror_run(n as int, as_ints(found@))[m as int] == n - 1 - p);
        let ghost before = r@;
        r.push(n - 1 - p);
        assert(r@ == before.push((n - 1 - p) as usize));
        assert(as_ints(r@) =~= as_ints(before).push(n - 1 - p));
        assert(mirror_run(n as int, as_ints(found@)).subrange(0, m + 1) =~= mirror_run(
            n as int,
            as_ints(found@),
        ).subrange(0, m as int).push(n - 1 - p));
        m = m + 1;
    }
    proof {
        let ghost fr = as_ints(found@);
        assert(as_ints(r@) =~= mirror_run(n as int, fr));
        lemma_unmirror_run(seq@, fr);
        assert forall|other: Seq<int>| #[trigger] is_run(seq@, other) implies other.len()
            <= as_ints(r@).len() by {
            lemma_mirror_run(seq@, other);
            assert(is_run(mirrored(seq@), mirror_run(n as int, other)));
        }
    }
    r
}

proof fn lemma_tails_sorted(seq: Seq<usize>, tails: Seq<usize>, length: int, a: int, b: int)
    requires
        0 <= a <= b < length <= tails.len(),
        forall|l: int| 0 <= l < length ==> #[trigger] tails[l] < seq.len(),
        forall|l: int| 0 <= l < length - 1 ==> seq[#[trigger] tails[l] as int] < seq[tails[l + 1] as int],
    ensures
        seq[tails[a] as int] <= seq[tails[b] as int],
    decreases b - a,
{
    if a < b {
        lemma_tails_sorted(seq, tails, length, a + 1, b);
        assert(seq[tails[a] as int] < seq[tails[a + 1] as int]);
    }
}

} // verus!
