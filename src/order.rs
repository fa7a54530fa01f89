//! Patch order: every insert comes after the insert of the node it attaches to.
use vstd::prelude::*;
use crate::types::{PatchData, RustPatch};

verus! {

/// `ps[i]` is an insert whose parent render id is the render id that `ps[j]` inserts.
pub open spec fn links_to(ps: Seq<RustPatch>, i: int, j: int) -> bool {
    &&& 0 <= i < ps.len()
    &&& 0 <= j < ps.len()
    &&& match ps[i].data {
        PatchData::Insert { parent_html_id, .. } => ps[j].data is Insert && ps[j].html_id@
            == parent_html_id@,
        _ => false,
    }
}

/// `ps[j]` is the first insert that `ps[i]` attaches to.
pub open spec fn first_link(ps: Seq<RustPatch>, i: int, j: int) -> bool {
    &&& links_to(ps, i, j)
    &&& forall|k: int| 0 <= k < j ==> !links_to(ps, i, k)
}

/// The position of the insert that `ps[i]` attaches to, or -1.
pub open spec fn parent_of(ps: Seq<RustPatch>, i: int) -> int {
    if exists|j: int| first_link(ps, i, j) {
        choose|j: int| first_link(ps, i, j)
    } else {
        -1
    }
}

/// Following parents from `ps[i]` ends within `fuel` steps.
pub open spec fn chain_ends(ps: Seq<RustPatch>, i: int, fuel: nat) -> bool
    decreases fuel,
{
    fuel > 0 && (parent_of(ps, i) < 0 || chain_ends(ps, parent_of(ps, i), (fuel - 1) as nat))
}

/// No insert is its own ancestor: every chain of parents ends.
pub open spec fn acyclic(ps: Seq<RustPatch>) -> bool {
    forall|i: int| 0 <= i < ps.len() ==> chain_ends(ps, i, ps.len())
}

/// `order` lists each position below `n` once.
pub open spec fn is_permutation(order: Seq<usize>, n: int) -> bool {
    &&& order.len() == n
    &&& forall|k: int| 0 <= k < n ==> #[trigger] order[k] < n
    &&& forall|k1: int, k2: int|
        0 <= k1 < n && 0 <= k2 < n && k1 != k2 ==> #[trigger] order[k1] != #[trigger] order[k2]
    &&& forall|i: int| 0 <= i < n ==> #[trigger] appears(order, i)
}

/// Position `i` stands somewhere in `order`.
pub open spec fn appears(order: Seq<usize>, i: int) -> bool {
    exists|k: int| 0 <= k < order.len() && order[k] == i
}

/// In `order`, the parent insert of each insert comes before it.
pub open spec fn parents_first(ps: Seq<RustPatch>, order: Seq<usize>) -> bool {
    forall|k1: int, k2: int|
        0 <= k1 < order.len() && 0 <= k2 < order.len() && #[trigger] order[k2] as int == parent_of(
            ps,
            #[trigger] order[k1] as int,
        ) ==> k2 < k1
}

/// Each insert already comes after the insert of its parent.
pub open spec fn already_parent_first(ps: Seq<RustPatch>) -> bool {
    forall|i: int| 0 <= i < ps.len() ==> #[trigger] parent_of(ps, i) < i
}

/// In `order`, the patches that are not inserts keep their relative order.
pub open spec fn keeps_others_in_order(ps: Seq<RustPatch>, order: Seq<usize>) -> bool {
    forall|k1: int, k2: int|
        0 <= k1 < k2 < order.len() && !(ps[#[trigger] order[k1] as int].data is Insert) && !(
        ps[#[trigger] order[k2] as int].data is Insert) ==> order[k1] < order[k2]
}

proof fn lemma_parent_is_insert(ps: Seq<RustPatch>, i: int)
    requires
        parent_of(ps, i) >= 0,
    ensures
        0 <= parent_of(ps, i) < ps.len(),
        ps[parent_of(ps, i)].data is Insert,
{
    let j = choose|j: int| first_link(ps, i, j);
}

proof fn lemma_first_link_unique(ps: Seq<RustPatch>, i: int, j: int)
    requires
        first_link(ps, i, j),
    ensures
        parent_of(ps, i) == j,
{
    let c = choose|c: int| first_link(ps, i, c);
    if c < j {
        assert(links_to(ps, i, c));
    } else if c > j {
        assert(!links_to(ps, i, j));
    }
}

/// The number of set flags.
pub open spec fn count_true(s: Seq<bool>) -> nat
    decreases s.len(),
{
    if s.len() == 0 {
        0
    } else {
        count_true(s.drop_last()) + if s.last() {
            1nat
        } else {
            0nat
        }
    }
}

proof fn lemma_count_le(s: Seq<bool>)
    ensures
        count_true(s) <= s.len(),
    decreases s.len(),
{
    if s.len() > 0 {
        lemma_count_le(s.drop_last());
    }
}

proof fn lemma_count_set(s: Seq<bool>, i: int)
    requires
        0 <= i < s.len(),
        !s[i],
    ensures
        count_true(s.update(i, true)) == count_true(s) + 1,
    decreases s.len(),
{
    let t = s.update(i, true);
    if i == s.len() - 1 {
        assert(t.drop_last() =~= s.drop_last());
    } else {
        lemma_count_set(s.drop_last(), i);
        assert(t.drop_last() =~= s.drop_last().update(i, true));
    }
}

/// The position of the first insert that `patches[i]` attaches to.
fn find_parent(patches: &Vec<RustPatch>, i: usize) -> (r: Option<usize>)
    requires
        i < patches@.len(),
    ensures
        match r {
            Some(j) => parent_of(patches@, i as int) == j && j < patches@.len(),
            None => parent_of(patches@, i as int) == -1,
        },
{
    let parent = match &patches[i].data {
        PatchData::Insert { parent_html_id, .. } => parent_html_id,
        _ => {
            return None;
        },
    };
    let mut j: usize = 0;
    while j < patches.len()
        invariant
            i < patches@.len(),
            j <= patches@.len(),
            patches@[i as int].data is Insert,
            match patches@[i as int].data {
                PatchData::Insert { parent_html_id, .. } => parent_html_id@ == parent@,
                _ => false,
            },
            forall|k: int| 0 <= k < j ==> !links_to(patches@, i as int, k),
        decreases patches.len() - j,
    {
        let q = &patches[j];
        let hit = match q.data {
            PatchData::Insert { .. } => q.html_id == *parent,
            _ => false,
        };
        if hit {
            proof {
                assert(first_link(patches@, i as int, j as int));
                lemma_first_link_unique(patches@, i as int, j as int);
            }
            return Some(j);
        }
        j = j + 1;
    }
    None
}

/// An order of the patches in which each insert follows the insert of its parent
/// (where the parents form no cycle), the patches that are not inserts keep their
/// order, and a list already in that order stays as it is.
pub fn parent_first_order(patches: &Vec<RustPatch>) -> (order: Vec<usize>)
    ensures
        is_permutation(order@, patches@.len() as int),
        acyclic(patches@) ==> parents_first(patches@, order@),
        keeps_others_in_order(patches@, order@),
        already_parent_first(patches@) ==> forall|k: int| 0 <= k < order@.len() ==> order@[k] == k,
{
    let n = patches.len();
    let mut parent: Vec<Option<usize>> = Vec::new();
    let mut i: usize = 0;
    while i < n
        invariant
            n == patches@.len(),
            i <= n,
            parent@.len() == i,
            forall|x: int|
                0 <= x < i ==> match #[trigger] parent@[x] {
                    Some(j) => parent_of(patches@, x) == j && j < n,
                    None => parent_of(patches@, x) == -1,
                },
        decreases n - i,
    {
        parent.push(find_parent(patches, i));
        i = i + 1;
    }
    let mut emitted: Vec<bool> = vec![false; n];
    proof {
        lemma_count_zero(emitted@);
    }
    let mut order: Vec<usize> = Vec::new();
    // pos[i]: where position i stands in `order`, once it is there
    let ghost mut pos: Seq<int> = Seq::new(n as nat, |x: int| 0);
    let mut cursor: usize = 0;
    while cursor < n
        invariant
            n == patches@.len(),
            parent@.len() == n,
            forall|x: int|
                0 <= x < n ==> match #[trigger] parent@[x] {
                    Some(j) => parent_of(patches@, x) == j && j < n,
                    None => parent_of(patches@, x) == -1,
                },
            emitted@.len() == n,
            pos.len() == n,
            cursor <= n,
            count_true(emitted@) == order@.len(),
            forall|x: int| 0 <= x < cursor ==> #[trigger] emitted@[x],
            forall|k: int| 0 <= k < order@.len() ==> #[trigger] order@[k] < n,
            forall|k: int| 0 <= k < order@.len() ==> pos[#[trigger] order@[k] as int] == k,
            forall|x: int|
                0 <= x < n ==> (#[trigger] emitted@[x] <==> (0 <= pos[x] < order@.len()
                    && order@[pos[x]] == x)),
            acyclic(patches@) ==> forall|k: int|
                0 <= k < order@.len() && parent_of(patches@, #[trigger] order@[k] as int) >= 0
                    ==> emitted@[parent_of(patches@, order@[k] as int)] && pos[parent_of(
                    patches@,
                    order@[k] as int,
                )] < k,
            forall|k: int|
                0 <= k < order@.len() && !(patches@[#[trigger] order@[k] as int].data is Insert)
                    ==> order@[k] <= cursor,
            keeps_others_in_order(patches@, order@),
            already_parent_first(patches@) ==> (forall|k: int| 0 <= k < order@.len() ==> #[trigger] order@[k] == k)
                && cursor <= order@.len() <= cursor + 1,
        decreases n - cursor, n - order@.len(),
    {
        if emitted[cursor] {
            proof {
                if already_parent_first(patches@) {
                    if order@.len() == cursor {
                        assert(0 <= pos[cursor as int] < order@.len() && order@[pos[cursor as int]] == cursor);
                        assert(order@[pos[cursor as int]] == pos[cursor as int]);
                    }
                }
            }
            cursor = cursor + 1;
        } else {
            let mut x: usize = cursor;
            let mut steps: usize = 0;
            let mut walking = true;
            while walking && steps < n
                invariant
                    n == patches@.len(),
                    parent@.len() == n,
                    forall|y: int|
                        0 <= y < n ==> match #[trigger] parent@[y] {
                            Some(j) => parent_of(patches@, y) == j && j < n,
                            None => parent_of(patches@, y) == -1,
                        },
                    emitted@.len() == n,
                    x < n,
                    !emitted@[x as int],
                    steps <= n,
                    acyclic(patches@) ==> chain_ends(patches@, x as int, (n - steps) as nat),
                    cursor < n,
                    forall|y: int| 0 <= y < cursor ==> #[trigger] emitted@[y],
                    x != cursor ==> patches@[x as int].data is Insert,
                    already_parent_first(patches@) ==> x == cursor,
                    !walking ==> (parent_of(patches@, x as int) < 0 || emitted@[parent_of(
                        patches@,
                        x as int,
                    )]),
                decreases n - steps, if walking { 1int } else { 0int },
            {
                match parent[x] {
                    Some(p) => {
                        if emitted[p] {
                            walking = false;
                        } else {
                            proof {
                                lemma_parent_is_insert(patches@, x as int);
                                if already_parent_first(patches@) {
                                    assert(parent_of(patches@, x as int) < x);
                                }
                            }
                            x = p;
                            steps = steps + 1;
                        }
                    },
                    None => {
                        walking = false;
                    },
                }
            }
            proof {
                if acyclic(patches@) && walking {
                    assert(!chain_ends(patches@, x as int, 0));
                }
                lemma_count_set(emitted@, x as int);
                lemma_count_le(emitted@.update(x as int, true));
            }
            let ghost old_order = order@;
            let ghost old_emitted = emitted@;
            proof {
                if already_parent_first(patches@) {
                    if old_order.len() == cursor + 1 {
                        assert(old_order[cursor as int] == cursor);
                        assert(pos[cursor as int] == cursor);
                    }
                }
            }
            emitted.set(x, true);
            order.push(x);
            proof {
                assert forall|k1: int, k2: int|
                    0 <= k1 < k2 < order@.len() && !(patches@[#[trigger] order@[k1] as int].data is Insert) && !(
                    patches@[#[trigger] order@[k2] as int].data is Insert) implies order@[k1] < order@[k2] by {
                    if k2 == old_order.len() {
                        assert(x == cursor);
                        assert(old_order[k1] <= cursor);
                        assert(old_order[k1] != x);
                    } else {
                        assert(order@[k1] == old_order[k1] && order@[k2] == old_order[k2]);
                    }
                }
            }
            proof {
                pos = pos.update(x as int, old_order.len() as int);
                assert forall|k: int| 0 <= k < order@.len() implies pos[#[trigger] order@[k] as int]
                    == k by {
                    if k < old_order.len() {
                        assert(old_order[k] != x);
                    }
                }
                assert forall|y: int| 0 <= y < n implies (#[trigger] emitted@[y] <==> (0 <= pos[y]
                    < order@.len() && order@[pos[y]] == y)) by {
                    if y != x {
                        assert(old_emitted[y] <==> (0 <= pos[y] < old_order.len() && old_order[pos[y]]
                            == y));
                        if 0 <= pos[y] < order@.len() && order@[pos[y]] == y && pos[y]
                            == old_order.len() {
                            assert(order@[pos[y]] == x);
                        }
                    }
                }
            }
        }
    }
    proof {
        let o = order@;
        lemma_all_emitted(emitted@, n as int);
        assert forall|k1: int, k2: int|
            0 <= k1 < n && 0 <= k2 < n && k1 != k2 implies #[trigger] o[k1] != #[trigger] o[k2] by {
            if o[k1] == o[k2] {
                assert(pos[o[k1] as int] == k1);
                assert(pos[o[k2] as int] == k2);
            }
        }
        assert forall|y: int| 0 <= y < n implies #[trigger] appears(o, y) by {
            assert(emitted@[y]);
            assert(o[pos[y]] == y);
        }
        if acyclic(patches@) {
            assert forall|k1: int, k2: int|
                0 <= k1 < o.len() && 0 <= k2 < o.len() && #[trigger] o[k2] as int == parent_of(
                    patches@,
                    #[trigger] o[k1] as int,
                ) implies k2 < k1 by {
                assert(pos[o[k2] as int] == k2);
            }
        }
    }
    order
}

proof fn lemma_count_zero(s: Seq<bool>)
    requires
        forall|x: int| 0 <= x < s.len() ==> !#[trigger] s[x],
    ensures
        count_true(s) == 0,
    decreases s.len(),
{
    if s.len() > 0 {
        assert(!s[s.len() - 1]);
        lemma_count_zero(s.drop_last());
    }
}

proof fn lemma_all_emitted(s: Seq<bool>, n: int)
    requires
        s.len() == n,
        forall|x: int| 0 <= x < n ==> #[trigger] s[x],
    ensures
        count_true(s) == n,
    decreases n,
{
    if n > 0 {
        lemma_all_emitted(s.drop_last(), n - 1);
    }
}

/// The patches in `order`.
fn apply_order(patches: Vec<RustPatch>, order: &Vec<usize>) -> (r: Vec<RustPatch>)
    requires
        is_permutation(order@, patches@.len() as int),
    ensures
        r@.len() == patches@.len(),
        forall|k: int| 0 <= k < r@.len() ==> #[trigger] r@[k] == patches@[order@[k] as int],
{
    let ghost ps = patches@;
    let n = patches.len();
    let mut patches = patches;
    let mut stack: Vec<RustPatch> = Vec::new();
    while patches.len() > 0
        invariant
            ps.len() == n,
            patches@.len() + stack@.len() == n,
            patches@ == ps.subrange(0, patches@.len() as int),
            forall|k: int| 0 <= k < stack@.len() ==> #[trigger] stack@[k] == ps[n - 1 - k],
        decreases patches@.len(),
    {
        let p = patches.pop().unwrap();
        stack.push(p);
    }
    let mut slots: Vec<Option<RustPatch>> = Vec::new();
    while stack.len() > 0
        invariant
            ps.len() == n,
            slots@.len() + stack@.len() == n,
            forall|k: int| 0 <= k < stack@.len() ==> #[trigger] stack@[k] == ps[n - 1 - k],
            forall|k: int| 0 <= k < slots@.len() ==> #[trigger] slots@[k] == Some(ps[k]),
        decreases stack@.len(),
    {
        let p = stack.pop().unwrap();
        slots.push(Some(p));
    }
    let mut r: Vec<RustPatch> = Vec::new();
    let mut k: usize = 0;
    while k < n
        invariant
            ps.len() == n,
            is_permutation(order@, n as int),
            slots@.len() == n,
            k <= n,
            r@.len() == k,
            forall|m: int| 0 <= m < k ==> #[trigger] r@[m] == ps[order@[m] as int],
            forall|y: int|
                0 <= y < n ==> (#[trigger] slots@[y] == Some(ps[y]) || exists|m: int|
                    0 <= m < k && order@[m] == y),
        decreases n - k,
    {
        let idx = order[k];
        proof {
            if slots@[idx as int] != Some(ps[idx as int]) {
                let m = choose|m: int| 0 <= m < k && order@[m] == idx;
                assert(order@[m] != order@[k as int]);
            }
        }
        let taken = slots.remove(idx);
        slots.insert(idx, None);
        match taken {
            Some(p) => {
                r.push(p);
            },
            None => {},
        }
        proof {
            assert forall|y: int| 0 <= y < n implies (#[trigger] slots@[y] == Some(ps[y])
                || exists|m: int| 0 <= m < k + 1 && order@[m] == y) by {
                if y == idx {
                    assert(order@[k as int] == y);
                }
            }
        }
        k = k + 1;
    }
    r
}

/// Reorders `patches` so that each insert comes after the insert of its parent.
pub fn reorder_patches_parent_first(patches: Vec<RustPatch>) -> (r: Vec<RustPatch>)
    ensures
        r@.len() == patches@.len(),
        already_parent_first(patches@) ==> r@ == patches@,
        exists|order: Seq<usize>|
            #[trigger] is_permutation(order, patches@.len() as int) && (forall|k: int|
                0 <= k < r@.len() ==> #[trigger] r@[k] == patches@[order[k] as int]) && (acyclic(
                patches@,
            ) ==> parents_first(patches@, order)) && keeps_others_in_order(patches@, order),
{
    let order = parent_first_order(&patches);
    let ghost ps = patches@;
    let r = apply_order(patches, &order);
    proof {
        if already_parent_first(ps) {
            assert(r@ =~= ps);
        }
    }
    assert(is_permutation(order@, ps.len() as int) && (forall|k: int|
        0 <= k < r@.len() ==> #[trigger] r@[k] == ps[order@[k] as int]) && (acyclic(ps)
        ==> parents_first(ps, order@)) && keeps_others_in_order(ps, order@));
    r
}

/// `ps[a]` is reached from `ps[i]` by following parents `steps` times.
pub open spec fn ancestor_at(ps: Seq<RustPatch>, i: int, a: int, steps: nat) -> bool
    decreases steps,
{
    &&& steps > 0
    &&& parent_of(ps, i) >= 0
    &&& if steps == 1 {
        parent_of(ps, i) == a
    } else {
        ancestor_at(ps, parent_of(ps, i), a, (steps - 1) as nat)
    }
}

proof fn lemma_parent_in_range(ps: Seq<RustPatch>, i: int)
    requires
        parent_of(ps, i) >= 0,
    ensures
        parent_of(ps, i) < ps.len(),
{
    let j = choose|j: int| first_link(ps, i, j);
}

/// Ancestors first: in an order of the patches where each insert follows the insert
/// of its parent (as `reorder_patches_parent_first` gives), each insert also follows
/// the inserts of all its further ancestors.
pub proof fn lemma_ancestors_first(
    ps: Seq<RustPatch>,
    order: Seq<usize>,
    kd: int,
    ka: int,
    steps: nat,
)
    requires
        is_permutation(order, ps.len() as int),
        parents_first(ps, order),
        0 <= kd < order.len(),
        0 <= ka < order.len(),
        ancestor_at(ps, order[kd] as int, order[ka] as int, steps),
    ensures
        ka < kd,
    decreases steps,
{
    let p = parent_of(ps, order[kd] as int);
    lemma_parent_in_range(ps, order[kd] as int);
    assert(appears(order, p));
    let kp = choose|k: int| 0 <= k < order.len() && order[k] == p;
    assert(order[kp] as int == parent_of(ps, order[kd] as int));
    assert(kp < kd);
    if steps == 1 {
        if ka != kp {
            assert(order[ka] != order[kp]);
        }
    } else {
        lemma_ancestors_first(ps, order, kp, ka, (steps - 1) as nat);
    }
}

} // verus!
