//! Keyed matching of a new child list against the old one: which old children
//! are gone, and for each new child whether it stays, moves, or is new.
use vstd::prelude::*;
use crate::lis::{is_run, is_longest_run, as_ints, lis_of, longest_increasing_subsequence};

verus! {

/// `keys[i]` is the first key equal to `k`.
pub open spec fn first_at(keys: Seq<String>, k: Seq<char>, i: int) -> bool {
    &&& 0 <= i < keys.len()
    &&& keys[i]@ == k
    &&& forall|j: int| 0 <= j < i ==> (#[trigger] keys[j])@ != k
}

/// Some key of `keys` equals `k`.
pub open spec fn key_in(keys: Seq<String>, k: Seq<char>) -> bool {
    exists|i: int| 0 <= i < keys.len() && (#[trigger] keys[i])@ == k
}

/// The position of the first key equal to `k`, or -1.
pub open spec fn key_pos(keys: Seq<String>, k: Seq<char>) -> int {
    if exists|i: int| first_at(keys, k, i) {
        choose|i: int| first_at(keys, k, i)
    } else {
        -1
    }
}

/// For the new keys in order, the old position of each that the old list holds.
pub open spec fn matched_positions(old_keys: Seq<String>, new_keys: Seq<String>) -> Seq<usize>
    decreases new_keys.len(),
{
    if new_keys.len() == 0 {
        Seq::empty()
    } else {
        let pre = matched_positions(old_keys, new_keys.drop_last());
        if key_in(old_keys, new_keys.last()@) {
            pre.push(key_pos(old_keys, new_keys.last()@) as usize)
        } else {
            pre
        }
    }
}

/// What becomes of one new child.
#[derive(Clone, Copy, Debug)]
pub enum ChildStep {
    /// Matched, and in order with the other kept children.
    Keep { old_index: usize },
    /// Matched, and moved.
    Move { old_index: usize },
    /// Not in the old list.
    New,
}

/// The plan for one child list.
#[derive(Clone, Debug)]
pub struct ChildPlan {
    /// For each old child: it is not among the new children.
    pub gone: Vec<bool>,
    /// For each new child, in order.
    pub steps: Vec<ChildStep>,
}

/// What becomes of the new child at position `i`: new where the old list lacks
/// it; else kept where its place among the matched children is in the run that
/// `longest_increasing_subsequence` gives for their old positions; else moved.
pub open spec fn plan_step(old_keys: Seq<String>, new_keys: Seq<String>, i: int) -> ChildStep {
    let k = new_keys[i]@;
    if !key_in(old_keys, k) {
        ChildStep::New
    } else {
        let s = matched_positions(old_keys, new_keys.subrange(0, i)).len() as int;
        let p = key_pos(old_keys, k) as usize;
        if lis_of(matched_positions(old_keys, new_keys)).contains(s) {
            ChildStep::Keep { old_index: p }
        } else {
            ChildStep::Move { old_index: p }
        }
    }
}

/// The steps for all new children.
pub open spec fn plan_steps(old_keys: Seq<String>, new_keys: Seq<String>) -> Seq<ChildStep> {
    Seq::new(new_keys.len(), |i: int| plan_step(old_keys, new_keys, i))
}

/// The number of moves among `steps`.
pub open spec fn count_moves(steps: Seq<ChildStep>) -> nat
    decreases steps.len(),
{
    if steps.len() == 0 {
        0
    } else {
        count_moves(steps.drop_last()) + if steps.last() is Move {
            1nat
        } else {
            0nat
        }
    }
}

pub proof fn lemma_first_unique(keys: Seq<String>, k: Seq<char>, i: int)
    requires
        first_at(keys, k, i),
    ensures
        key_pos(keys, k) == i,
        key_in(keys, k),
{
    let c = choose|c: int| first_at(keys, k, c);
    if c < i {
        assert(keys[c]@ == k);
    } else if c > i {
        assert(keys[i]@ != k);
    }
}

/// The position of the first of `keys` equal to `k`.
pub fn find_key(keys: &Vec<String>, k: &String) -> (r: Option<usize>)
    ensures
        match r {
            Some(i) => first_at(keys@, k@, i as int) && key_pos(keys@, k@) == i && key_in(
                keys@,
                k@,
            ),
            None => !key_in(keys@, k@) && key_pos(keys@, k@) == -1,
        },
{
    let mut i: usize = 0;
    while i < keys.len()
        invariant
            i <= keys.len(),
            forall|j: int| 0 <= j < i ==> (#[trigger] keys@[j])@ != k@,
        decreases keys.len() - i,
    {
        if keys[i] == *k {
            proof {
                lemma_first_unique(keys@, k@, i as int);
            }
            return Some(i);
        }
        i = i + 1;
    }
    None
}

/// Matches `new_keys` against `old_keys`. The children kept in place are those of a
/// longest increasing run of their old positions; every other matched child moves.
pub fn plan_children(old_keys: &Vec<String>, new_keys: &Vec<String>) -> (plan: ChildPlan)
    ensures
        plan.gone@.len() == old_keys@.len(),
        forall|j: int|
            0 <= j < old_keys@.len() ==> plan.gone@[j] == !key_in(new_keys@, (#[trigger] old_keys@[j])@),
        plan.steps@.len() == new_keys@.len(),
        plan.steps@ == plan_steps(old_keys@, new_keys@),
        forall|i: int|
            0 <= i < new_keys@.len() ==> match #[trigger] plan.steps@[i] {
                ChildStep::New => !key_in(old_keys@, new_keys@[i]@),
                ChildStep::Keep { old_index } => key_in(old_keys@, new_keys@[i]@) && old_index
                    == key_pos(old_keys@, new_keys@[i]@),
                ChildStep::Move { old_index } => key_in(old_keys@, new_keys@[i]@) && old_index
                    == key_pos(old_keys@, new_keys@[i]@),
            },
        exists|run: Seq<int>|
            is_run(matched_positions(old_keys@, new_keys@), run) && run.len() + count_moves(plan.steps@)
                == matched_positions(old_keys@, new_keys@).len(),
        forall|run: Seq<int>|
            #[trigger] is_run(matched_positions(old_keys@, new_keys@), run) ==> run.len() + count_moves(
                plan.steps@,
            ) <= matched_positions(old_keys@, new_keys@).len(),
{
    let mut gone: Vec<bool> = Vec::new();
    let mut j: usize = 0;
    while j < old_keys.len()
        invariant
            j <= old_keys@.len(),
            gone@.len() == j,
            forall|x: int| 0 <= x < j ==> gone@[x] == !key_in(new_keys@, (#[trigger] old_keys@[x])@),
        decreases old_keys.len() - j,
    {
        let found = find_key(new_keys, &old_keys[j]);
        gone.push(found.is_none());
        j = j + 1;
    }
    // the old position of each new child, where it has one
    let mut old_pos: Vec<Option<usize>> = Vec::new();
    let mut matched: Vec<usize> = Vec::new();
    let mut i: usize = 0;
    while i < new_keys.len()
        invariant
            i <= new_keys@.len(),
            old_pos@.len() == i,
            matched@ == matched_positions(old_keys@, new_keys@.subrange(0, i as int)),
            forall|x: int|
                0 <= x < i ==> match #[trigger] old_pos@[x] {
                    Some(p) => key_in(old_keys@, new_keys@[x]@) && p == key_pos(
                        old_keys@,
                        new_keys@[x]@,
                    ),
                    None => !key_in(old_keys@, new_keys@[x]@),
                },
        decreases new_keys.len() - i,
    {
        let found = find_key(old_keys, &new_keys[i]);
        proof {
            let pre = new_keys@.subrange(0, i + 1);
            assert(pre.drop_last() =~= new_keys@.subrange(0, i as int));
            assert(pre.last() == new_keys@[i as int]);
        }
        match found {
            Some(p) => {
                matched.push(p);
            },
            None => {},
        }
        old_pos.push(found);
        i = i + 1;
    }
    assert(new_keys@.subrange(0, new_keys@.len() as int) =~= new_keys@);
    let lis = longest_increasing_subsequence(matched.as_slice());
    let ghost ms = matched@;
    let ghost run = as_ints(lis@);
    let mlen = matched.len();
    let mut steps: Vec<ChildStep> = Vec::new();
    let mut s: usize = 0;
    let mut t: usize = 0;
    let mut i: usize = 0;
    while i < new_keys.len()
        invariant
            i <= new_keys@.len(),
            old_pos@.len() == new_keys@.len(),
            ms == matched@,
            mlen == ms.len(),
            ms == matched_positions(old_keys@, new_keys@),
            run == as_ints(lis@),
            run == lis_of(ms),
            is_longest_run(ms, run),
            steps@.len() == i,
            t <= s <= ms.len(),
            t <= run.len(),
            s == t + count_moves(steps@),
            forall|x: int| t <= x < run.len() ==> run[x] >= s,
            forall|x: int| 0 <= x < t ==> run[x] < s,
            s == matched_positions(old_keys@, new_keys@.subrange(0, i as int)).len(),
            forall|x: int| 0 <= x < i ==> #[trigger] steps@[x] == plan_step(old_keys@, new_keys@, x),
            s == ms.len() - matched_positions(old_keys@, new_keys@.subrange(i as int, new_keys@.len() as int)).len(),
            forall|x: int|
                0 <= x < new_keys@.len() ==> match #[trigger] old_pos@[x] {
                    Some(p) => key_in(old_keys@, new_keys@[x]@) && p == key_pos(
                        old_keys@,
                        new_keys@[x]@,
                    ),
                    None => !key_in(old_keys@, new_keys@[x]@),
                },
            forall|x: int|
                0 <= x < i ==> match #[trigger] steps@[x] {
                    ChildStep::New => !key_in(old_keys@, new_keys@[x]@),
                    ChildStep::Keep { old_index } => key_in(old_keys@, new_keys@[x]@) && old_index
                        == key_pos(old_keys@, new_keys@[x]@),
                    ChildStep::Move { old_index } => key_in(old_keys@, new_keys@[x]@) && old_index
                        == key_pos(old_keys@, new_keys@[x]@),
                },
        decreases new_keys.len() - i,
    {
        let ghost before = steps@;
        proof {
            lemma_matched_suffix(old_keys@, new_keys@, i as int);
            let pre = new_keys@.subrange(0, i + 1);
            assert(pre.drop_last() =~= new_keys@.subrange(0, i as int));
            assert(pre.last() == new_keys@[i as int]);
            if t < run.len() && run[t as int] != s {
                assert forall|x: int| 0 <= x < run.len() implies run[x] != s by {
                    if x > t {
                        assert(run[x - 1] < run[x]);
                    }
                }
            }
            if t >= run.len() {
                assert forall|x: int| 0 <= x < run.len() implies run[x] != s by {}
            }
        }
        let ghost s0 = s as int;
        match old_pos[i] {
            Some(p) => {
                if t < lis.len() && lis[t] == s {
                    assert(run[t as int] == s0);
                    assert(lis_of(ms).contains(s0));
                    steps.push(ChildStep::Keep { old_index: p });
                    t = t + 1;
                } else {
                    assert(!lis_of(ms).contains(s0));
                    steps.push(ChildStep::Move { old_index: p });
                }
                assert(s < mlen);
                s = s + 1;
                proof {
                    assert forall|x: int| t <= x < run.len() implies run[x] >= s by {
                        if x > 0 {
                            assert(run[x - 1] < run[x]);
                        }
                    }
                }
            },
            None => {
                steps.push(ChildStep::New);
            },
        }
        assert(steps@.drop_last() =~= before);
        assert(steps@[i as int] == plan_step(old_keys@, new_keys@, i as int));
        i = i + 1;
    }
    proof {
        assert(steps@ =~= plan_steps(old_keys@, new_keys@));
        assert(new_keys@.subrange(new_keys@.len() as int, new_keys@.len() as int) =~= Seq::<String>::empty());
        if t < run.len() {
            assert(0 <= run[t as int] < ms.len());
        }
    }
    ChildPlan { gone, steps }
}

/// What the old positions of the new children from position `i` on add to the
/// matched sequence.
proof fn lemma_matched_suffix(old_keys: Seq<String>, new_keys: Seq<String>, i: int)
    requires
        0 <= i < new_keys.len(),
    ensures
        matched_positions(old_keys, new_keys.subrange(i, new_keys.len() as int)).len() == (if key_in(
            old_keys,
            new_keys[i]@,
        ) {
            1int
        } else {
            0int
        }) + matched_positions(old_keys, new_keys.subrange(i + 1, new_keys.len() as int)).len(),
    decreases new_keys.len() - i,
{
    let suf = new_keys.subrange(i, new_keys.len() as int);
    if i + 1 == new_keys.len() {
        assert(suf.drop_last() =~= Seq::<String>::empty());
        assert(new_keys.subrange(i + 1, new_keys.len() as int) =~= Seq::<String>::empty());
    } else {
        lemma_matched_suffix(old_keys, new_keys.drop_last(), i);
        assert(suf.drop_last() =~= new_keys.drop_last().subrange(i, new_keys.len() - 1));
        assert(new_keys.subrange(i + 1, new_keys.len() as int).drop_last() =~= new_keys.drop_last().subrange(
            i + 1,
            new_keys.len() - 1,
        ));
        assert(suf.last() == new_keys.last());
        assert(new_keys.subrange(i + 1, new_keys.len() as int).last() == new_keys.last());
        assert(new_keys.drop_last()[i] == new_keys[i]);
    }
}

} // verus!
