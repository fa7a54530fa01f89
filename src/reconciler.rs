//! One reconciliation pass from two snapshots, the table of stored snapshots by
//! context, and render id allocation.
use vstd::prelude::*;
use crate::diff_engine::{
    callbacks_view, call_view, empty_view, init_view, is_removed, lists_distinct, map_view, result_view, sd_node,
    styles_view, views, CallView, DiffEngine, DiffInputs, ResultView,
};
use crate::order::{acyclic, is_permutation, keeps_others_in_order, parents_first};
use crate::types::{
    lemma_node_index_range, node_index, JsInitializer, LifecycleCall, NodeMap, PatchData, RustNodeData, RustPatch,
    RustReconciliationResult,
};

verus! {

/// The decimal digit `d`.
pub open spec fn digit_char(d: nat) -> char {
    if d == 0 {
        '0'
    } else if d == 1 {
        '1'
    } else if d == 2 {
        '2'
    } else if d == 3 {
        '3'
    } else if d == 4 {
        '4'
    } else if d == 5 {
        '5'
    } else if d == 6 {
        '6'
    } else if d == 7 {
        '7'
    } else if d == 8 {
        '8'
    } else {
        '9'
    }
}

/// `n` in decimal, without leading zeros.
pub open spec fn decimal(n: nat) -> Seq<char>
    decreases n,
{
    if n < 10 {
        seq![digit_char(n)]
    } else {
        decimal(n / 10).push(digit_char(n % 10))
    }
}

/// The render id numbered `n`.
pub open spec fn render_id_text(n: nat) -> Seq<char> {
    "fw_id_"@ + decimal(n)
}

fn digit_str(d: u64) -> (r: &'static str)
    requires
        d < 10,
    ensures
        r@ == seq![digit_char(d as nat)],
{
    proof {
        reveal_strlit("0");
        reveal_strlit("1");
        reveal_strlit("2");
        reveal_strlit("3");
        reveal_strlit("4");
        reveal_strlit("5");
        reveal_strlit("6");
        reveal_strlit("7");
        reveal_strlit("8");
        reveal_strlit("9");
    }
    if d == 0 {
        "0"
    } else if d == 1 {
        "1"
    } else if d == 2 {
        "2"
    } else if d == 3 {
        "3"
    } else if d == 4 {
        "4"
    } else if d == 5 {
        "5"
    } else if d == 6 {
        "6"
    } else if d == 7 {
        "7"
    } else if d == 8 {
        "8"
    } else {
        "9"
    }
}

fn append_decimal(s: &mut String, n: u64)
    ensures
        final(s)@ == old(s)@ + decimal(n as nat),
    decreases n,
{
    if n >= 10 {
        append_decimal(s, n / 10);
        s.append(digit_str(n % 10));
        proof {
            assert(final(s)@ =~= old(s)@ + decimal(n as nat));
        }
    } else {
        s.append(digit_str(n));
    }
}

/// The next render id of a session whose counter is `counter`.
pub fn next_id(counter: &mut u64) -> (r: String)
    requires
        *old(counter) < u64::MAX,
    ensures
        *final(counter) == *old(counter) + 1,
        r@ == render_id_text(*old(counter) as nat),
{
    let n = *counter;
    *counter = n + 1;
    let mut s = String::from_str("fw_id_");
    append_decimal(&mut s, n);
    s
}

/// The render id for a node with key `key` in a new tree: the one it had in the
/// old tree, else the session's next one.
pub fn render_id_for(old_map: &NodeMap, key: &String, counter: &mut u64) -> (r: String)
    requires
        *old(counter) < u64::MAX,
    ensures
        old_map.contains_spec(key@) ==> r@ == old_map.nodes@[old_map.index_of(key@)].html_id@
            && *final(counter) == *old(counter),
        !old_map.contains_spec(key@) ==> r@ == render_id_text(*old(counter) as nat)
            && *final(counter) == *old(counter) + 1,
{
    match old_map.get(key) {
        Some(n) => n.html_id.clone(),
        None => next_id(counter),
    }
}

/// `nodes[i]` is a root under `parent_html_id`: attached there, with no parent key.
pub open spec fn is_root_at(nodes: Seq<RustNodeData>, i: int, parent_html_id: Seq<char>) -> bool {
    0 <= i < nodes.len() && nodes[i].parent_html_id@ == parent_html_id && nodes[i].parent_key is None
}

/// `i` is the first root of `nodes` under `parent_html_id`.
pub open spec fn first_root_at(nodes: Seq<RustNodeData>, i: int, parent_html_id: Seq<char>) -> bool {
    is_root_at(nodes, i, parent_html_id) && forall|j: int| 0 <= j < i ==> !is_root_at(nodes, j, parent_html_id)
}

/// The key of the first root of `nodes` under `parent_html_id`.
pub open spec fn first_root(nodes: Seq<RustNodeData>, parent_html_id: Seq<char>) -> Option<Seq<char>> {
    if exists|i: int| first_root_at(nodes, i, parent_html_id) {
        Some(nodes[choose|i: int| first_root_at(nodes, i, parent_html_id)].key@)
    } else {
        None
    }
}

/// The key that a pass starts from: the one given, else the first root under
/// `parent_html_id` in the old tree, else in the new tree, else "root".
pub open spec fn chosen_root(
    old_root_key: Option<String>,
    old_nodes: Seq<RustNodeData>,
    new_nodes: Seq<RustNodeData>,
    parent_html_id: Seq<char>,
) -> Seq<char> {
    match old_root_key {
        Some(k) => k@,
        None => match first_root(old_nodes, parent_html_id) {
            Some(k) => k,
            None => match first_root(new_nodes, parent_html_id) {
                Some(k) => k,
                None => "root"@,
            },
        },
    }
}

/// The key of the first root of `map` under `parent_html_id`.
pub fn find_root(map: &NodeMap, parent_html_id: &String) -> (r: Option<String>)
    ensures
        match r {
            Some(k) => first_root(map.nodes@, parent_html_id@) == Some(k@),
            None => first_root(map.nodes@, parent_html_id@) is None,
        },
        match r {
            Some(k) => exists|i: int|
                #[trigger] is_root_at(map.nodes@, i, parent_html_id@) && map.nodes@[i].key@ == k@
                    && forall|j: int| 0 <= j < i ==> !is_root_at(map.nodes@, j, parent_html_id@),
            None => forall|i: int| !is_root_at(map.nodes@, i, parent_html_id@),
        },
{
    let mut i: usize = 0;
    while i < map.nodes.len()
        invariant
            i <= map.nodes@.len(),
            forall|j: int| 0 <= j < i ==> !is_root_at(map.nodes@, j, parent_html_id@),
        decreases map.nodes.len() - i,
    {
        let n = &map.nodes[i];
        if n.parent_html_id == *parent_html_id && n.parent_key.is_none() {
            assert(is_root_at(map.nodes@, i as int, parent_html_id@));
            proof {
                assert(first_root_at(map.nodes@, i as int, parent_html_id@));
                let c = choose|c: int| first_root_at(map.nodes@, c, parent_html_id@);
                if c < i {
                    assert(!is_root_at(map.nodes@, c, parent_html_id@));
                } else if c > i {
                    assert(!is_root_at(map.nodes@, i as int, parent_html_id@));
                }
            }
            return Some(n.key.clone());
        }
        i = i + 1;
    }
    proof {
        if exists|c: int| first_root_at(map.nodes@, c, parent_html_id@) {
            let c = choose|c: int| first_root_at(map.nodes@, c, parent_html_id@);
            assert(is_root_at(map.nodes@, c, parent_html_id@));
        }
    }
    None
}

/// The removes for the nodes of `nodes` whose keys the new tree lacks, in order,
/// leaving out a node that `prior` (or an earlier one of these) already removes.
pub open spec fn removal_patches(nodes: Seq<RustNodeData>, new_map: NodeMap, prior: Seq<RustPatch>) -> Seq<RustPatch>
    decreases nodes.len(),
{
    if nodes.len() == 0 {
        Seq::empty()
    } else {
        let pre = removal_patches(nodes.drop_last(), new_map, prior);
        if new_map.contains_spec(nodes.last().key@) || is_removed(prior + pre, nodes.last().html_id@) {
            pre
        } else {
            pre.push(RustPatch { html_id: nodes.last().html_id, data: PatchData::Remove })
        }
    }
}

/// The disposals for the stateful nodes of `nodes` whose keys the new tree lacks.
pub open spec fn dispose_calls(nodes: Seq<RustNodeData>, new_map: NodeMap) -> Seq<LifecycleCall>
    decreases nodes.len(),
{
    if nodes.len() == 0 {
        Seq::empty()
    } else {
        let pre = dispose_calls(nodes.drop_last(), new_map);
        let n = nodes.last();
        if !new_map.contains_spec(n.key@) && n.widget_type@ == "StatefulWidget"@ && n.widget_instance is Some {
            pre.push(LifecycleCall::Dispose { widget_instance: n.widget_instance->0 })
        } else {
            pre
        }
    }
}

/// Some patch of `ps` removes the node with render id `id`.
fn removes_id(ps: &Vec<RustPatch>, id: &String) -> (r: bool)
    ensures
        r == is_removed(ps@, id@),
{
    let mut i: usize = 0;
    while i < ps.len()
        invariant
            i <= ps@.len(),
            forall|x: int| 0 <= x < i ==> !((#[trigger] ps@[x]).data is Remove && ps@[x].html_id@ == id@),
        decreases ps.len() - i,
    {
        match ps[i].data {
            PatchData::Remove => {
                if ps[i].html_id == *id {
                    assert(ps@[i as int].html_id@ == id@);
                    return true;
                }
            },
            _ => {},
        }
        i = i + 1;
    }
    false
}

/// Removes every node of the old tree whose key the new tree lacks (once: a node
/// already removed stays so), and asks that stateful ones be disposed of.
pub fn remove_missing(result: &mut RustReconciliationResult, old_map: &NodeMap, new_map: &NodeMap)
    ensures
        final(result).patches@ == old(result).patches@ + removal_patches(
            old_map.nodes@,
            *new_map,
            old(result).patches@,
        ),
        final(result).lifecycle_calls@ == old(result).lifecycle_calls@ + dispose_calls(
            old_map.nodes@,
            *new_map,
        ),
        final(result).new_rendered_map == old(result).new_rendered_map,
        final(result).style_requests@ == old(result).style_requests@,
        final(result).callback_requests@ == old(result).callback_requests@,
        final(result).js_initializers@ == old(result).js_initializers@,
{
    let ghost map0 = result.new_rendered_map;
    let ghost r0 = *result;
    let ghost start = result.patches@;
    let ghost calls0 = result.lifecycle_calls@;
    let mut i: usize = 0;
    assert(result.patches@ =~= start + removal_patches(old_map.nodes@.subrange(0, 0), *new_map, start));
    assert(result.lifecycle_calls@ =~= calls0 + dispose_calls(old_map.nodes@.subrange(0, 0), *new_map));
    while i < old_map.nodes.len()
        invariant
            i <= old_map.nodes@.len(),
            result.patches@ == start + removal_patches(
                old_map.nodes@.subrange(0, i as int),
                *new_map,
                start,
            ),
            result.lifecycle_calls@ == calls0 + dispose_calls(old_map.nodes@.subrange(0, i as int), *new_map),
            result.new_rendered_map == map0,
            result.style_requests@ == r0.style_requests@,
            result.callback_requests@ == r0.callback_requests@,
            result.js_initializers@ == r0.js_initializers@,
        decreases old_map.nodes.len() - i,
    {
        let n = &old_map.nodes[i];
        proof {
            let pre = old_map.nodes@.subrange(0, i + 1);
            assert(pre.drop_last() =~= old_map.nodes@.subrange(0, i as int));
            assert(pre.last() == *n);
        }
        if !new_map.contains_key(&n.key) {
            if n.widget_type == String::from_str("StatefulWidget") {
                match n.widget_instance {
                    Some(h) => {
                        result.lifecycle_calls.push(LifecycleCall::Dispose { widget_instance: h });
                    },
                    None => {},
                }
            }
            assert(result.lifecycle_calls@ =~= calls0 + dispose_calls(old_map.nodes@.subrange(0, i + 1), *new_map));
            if !removes_id(&result.patches, &n.html_id) {
                result.patches.push(RustPatch { html_id: n.html_id.clone(), data: PatchData::Remove });
            }
            proof {
                assert(result.patches@ =~= start + removal_patches(
                    old_map.nodes@.subrange(0, i + 1),
                    *new_map,
                    start,
                ));
            }
        } else {
            assert(result.lifecycle_calls@ =~= calls0 + dispose_calls(old_map.nodes@.subrange(0, i + 1), *new_map));
            assert(result.patches@ =~= start + removal_patches(
                old_map.nodes@.subrange(0, i + 1),
                *new_map,
                start,
            ));
        }
        i = i + 1;
    }
    assert(old_map.nodes@.subrange(0, old_map.nodes@.len() as int) =~= old_map.nodes@);
}

/// The table of stored snapshots, one per context.
pub struct Reconciler {
    pub context_maps: Vec<(String, NodeMap)>,
}

/// `maps` without the entries under `key`.
pub open spec fn without_context(maps: Seq<(String, NodeMap)>, key: Seq<char>) -> Seq<(String, NodeMap)>
    decreases maps.len(),
{
    if maps.len() == 0 {
        Seq::empty()
    } else {
        let pre = without_context(maps.drop_last(), key);
        if maps.last().0@ == key {
            pre
        } else {
            pre.push(maps.last())
        }
    }
}

impl Reconciler {
    /// A table that holds the empty "main" context.
    pub fn new() -> (r: Reconciler)
        ensures
            r.context_maps@.len() == 1,
            r.context_maps@[0].0@ == "main"@,
            r.context_maps@[0].1.nodes@.len() == 0,
    {
        let mut context_maps: Vec<(String, NodeMap)> = Vec::new();
        context_maps.push((String::from_str("main"), NodeMap::new()));
        Reconciler { context_maps }
    }

    /// Drops the snapshot stored under `context_key`.
    pub fn clear_context(&mut self, context_key: &String)
        ensures
            final(self).context_maps@ == without_context(old(self).context_maps@, context_key@),
    {
        let ghost start = self.context_maps@;
        let ghost mut consumed: int = 0;
        let mut i: usize = 0;
        while i < self.context_maps.len()
            invariant
                0 <= consumed <= start.len(),
                self.context_maps@ == without_context(start.subrange(0, consumed), context_key@)
                    + start.subrange(consumed, start.len() as int),
                i == without_context(start.subrange(0, consumed), context_key@).len(),
            decreases start.len() - consumed,
        {
            let ghost before = self.context_maps@;
            let ghost w = without_context(start.subrange(0, consumed), context_key@);
            proof {
                assert(start.subrange(0, consumed + 1).drop_last() =~= start.subrange(0, consumed));
                assert(before[i as int] == start[consumed]);
            }
            if self.context_maps[i].0 == *context_key {
                self.context_maps.remove(i);
                proof {
                    assert(self.context_maps@ =~= w + start.subrange(consumed + 1, start.len() as int));
                }
            } else {
                i = i + 1;
                proof {
                    assert(before =~= w.push(start[consumed]) + start.subrange(consumed + 1, start.len() as int));
                }
            }
            proof {
                consumed = consumed + 1;
            }
        }
        proof {
            if consumed < start.len() {
                assert(self.context_maps@.len() > i);
            }
            assert(start.subrange(0, start.len() as int) =~= start);
            assert(self.context_maps@ =~= without_context(start, context_key@));
        }
    }

    /// Drops every stored snapshot and starts again with an empty "main" context.
    pub fn clear_all_contexts(&mut self)
        ensures
            final(self).context_maps@.len() == 1,
            final(self).context_maps@[0].0@ == "main"@,
            final(self).context_maps@[0].1.nodes@.len() == 0,
    {
        self.context_maps = Vec::new();
        self.context_maps.push((String::from_str("main"), NodeMap::new()));
    }

    /// One reconciliation pass: diffs `new_map` against `old_map` from a root key,
    /// orders the inserts parent first, then, unless the pass is partial, removes
    /// every old node whose key the new tree lacks.
    ///
    /// The root key is `old_root_key` where given, else the key of the first root
    /// under `parent_html_id` in the old tree, else in the new tree, else "root".
    pub fn reconcile(
        &self,
        old_map: &NodeMap,
        new_map: &NodeMap,
        parent_html_id: &String,
        is_partial_reconciliation: bool,
        old_root_key: Option<String>,
        wrapper_kinds: Vec<String>,
    ) -> (r: RustReconciliationResult)
        requires
            old_map.nodes@.len() + new_map.nodes@.len() + 1 < usize::MAX,
        ensures
            (*old_map == *new_map && lists_distinct(new_map.nodes@)) ==> r.patches@.len() == 0,
            old_map.nodes@.len() == 0 ==> forall|k: int|
                0 <= k < r.patches@.len() ==> (#[trigger] r.patches@[k]).data is Insert,
            forall|k: Seq<char>| #[trigger] r.new_rendered_map.contains_spec(k) ==> new_map.contains_spec(k),
            new_map.contains_spec(chosen_root(old_root_key, old_map.nodes@, new_map.nodes@, parent_html_id@))
                ==> r.new_rendered_map.contains_spec(
                chosen_root(old_root_key, old_map.nodes@, new_map.nodes@, parent_html_id@),
            ),
            ({
                let sv = sd_node(
                    DiffInputs { old: old_map.nodes@, new: new_map.nodes@, wrappers: wrapper_kinds@ },
                    empty_view(),
                    chosen_root(old_root_key, old_map.nodes@, new_map.nodes@, parent_html_id@),
                    (new_map.nodes@.len() + 1) as nat,
                );
                &&& map_view(r.new_rendered_map) == sv.map
                &&& styles_view(r.style_requests@) == sv.styles
                &&& callbacks_view(r.callback_requests@) == sv.callbacks
                &&& r.js_initializers@.map_values(|j: JsInitializer| init_view(j)) == sv.inits
                &&& r.lifecycle_calls@.map_values(|c: LifecycleCall| call_view(c)) == sv.calls + if is_partial_reconciliation {
                    Seq::<CallView>::empty()
                } else {
                    dispose_calls(old_map.nodes@, *new_map).map_values(|c: LifecycleCall| call_view(c))
                }
            }),
            exists|diffed: Seq<RustPatch>, order: Seq<usize>|
                views(diffed) == sd_node(
                    DiffInputs { old: old_map.nodes@, new: new_map.nodes@, wrappers: wrapper_kinds@ },
                    empty_view(),
                    chosen_root(old_root_key, old_map.nodes@, new_map.nodes@, parent_html_id@),
                    (new_map.nodes@.len() + 1) as nat,
                ).patches && #[trigger] is_permutation(order, diffed.len() as int) && (acyclic(diffed)
                    ==> parents_first(diffed, order)) && keeps_others_in_order(diffed, order)
                    && diffed.len() <= r.patches@.len() && (forall|k: int|
                    0 <= k < diffed.len() ==> #[trigger] r.patches@[k] == diffed[order[k] as int])
                    && r.patches@.subrange(diffed.len() as int, r.patches@.len() as int) == (
                if is_partial_reconciliation {
                    Seq::<RustPatch>::empty()
                } else {
                    removal_patches(
                        old_map.nodes@,
                        *new_map,
                        r.patches@.subrange(0, diffed.len() as int),
                    )
                }),
    {
        let root_key = match old_root_key {
            Some(k) => k,
            None => match find_root(old_map, parent_html_id) {
                Some(k) => k,
                None => match find_root(new_map, parent_html_id) {
                    Some(k) => k,
                    None => String::from_str("root"),
                },
            },
        };
        let ghost root_spec = chosen_root(old_root_key, old_map.nodes@, new_map.nodes@, parent_html_id@);
        assert(root_key@ == root_spec);
        let ghost wk = wrapper_kinds@;
        let mut engine = DiffEngine::new(old_map, new_map, wrapper_kinds);
        assert(engine.inputs() == (DiffInputs { old: old_map.nodes@, new: new_map.nodes@, wrappers: wk }));
        assert(engine.result.patches@ =~= Seq::<RustPatch>::empty());
        assert forall|k: Seq<char>| !engine.result.new_rendered_map.contains_spec(k) by {
            assert(node_index(engine.result.new_rendered_map.nodes@, k) == -1);
        }
        let ghost sv = sd_node(
            DiffInputs { old: old_map.nodes@, new: new_map.nodes@, wrappers: wk },
            empty_view(),
            root_spec,
            (new_map.nodes@.len() + 1) as nat,
        );
        engine.reconcile(&Some(root_key));
        let mut result = engine.into_result();
        let ghost rv1 = result_view(result);
        assert(rv1 == (ResultView { patches: rv1.patches, ..sv }));
        let ghost diffed_len = result.patches@.len();
        let ghost after_diff = result.patches@;
        if !is_partial_reconciliation {
            remove_missing(&mut result, old_map, new_map);
        }
        proof {
            if old_map.nodes@.len() == 0 {
                assert(old_map.nodes@.subrange(0, 0) =~= old_map.nodes@);
                assert(removal_patches(old_map.nodes@, *new_map, after_diff).len() == 0);
                assert(result.patches@ =~= after_diff);
            }
            if *old_map == *new_map {
                lemma_no_removals(old_map.nodes@, *new_map, after_diff, old_map.nodes@.len() as int);
                assert(old_map.nodes@.subrange(0, old_map.nodes@.len() as int) =~= old_map.nodes@);
            }
        }
        proof {
            let (diffed, order) = choose|diffed: Seq<RustPatch>, order: Seq<usize>|
                views(diffed) == sv.patches && #[trigger] is_permutation(order, diffed.len() as int) && (forall|k: int|
                    0 <= k < after_diff.len() ==> #[trigger] after_diff[k] == diffed[order[k] as int])
                    && after_diff.len() == diffed.len() && (acyclic(diffed) ==> parents_first(diffed, order))
                    && keeps_others_in_order(diffed, order);
            if is_partial_reconciliation {
                assert(result.lifecycle_calls@.map_values(|c: LifecycleCall| call_view(c)) =~= sv.calls + Seq::<CallView>::empty());
            } else {
                assert(result.lifecycle_calls@.map_values(|c: LifecycleCall| call_view(c)) =~= sv.calls
                    + dispose_calls(old_map.nodes@, *new_map).map_values(|c: LifecycleCall| call_view(c)));
            }
            assert forall|k: int| 0 <= k < diffed.len() implies #[trigger] result.patches@[k]
                == diffed[order[k] as int] by {
                assert(result.patches@[k] == after_diff[k]);
            }
            assert(result.patches@.subrange(0, diffed.len() as int) =~= after_diff);
            if !is_partial_reconciliation {
                assert(result.patches@.subrange(diffed.len() as int, result.patches@.len() as int)
                    =~= removal_patches(old_map.nodes@, *new_map, after_diff));
            } else {
                assert(result.patches@.subrange(diffed.len() as int, result.patches@.len() as int)
                    =~= Seq::<RustPatch>::empty());
            }
        }
        result
    }
}

/// A tree lacks none of its own keys.
proof fn lemma_no_removals(nodes: Seq<RustNodeData>, map: NodeMap, prior: Seq<RustPatch>, n: int)
    requires
        nodes == map.nodes@,
        0 <= n <= nodes.len(),
    ensures
        removal_patches(nodes.subrange(0, n), map, prior).len() == 0,
    decreases n,
{
    if n > 0 {
        let pre = nodes.subrange(0, n);
        assert(pre.drop_last() =~= nodes.subrange(0, n - 1));
        lemma_no_removals(nodes, map, prior, n - 1);
        lemma_node_index_range(nodes, nodes[n - 1].key@);
        assert(pre.last() == nodes[n - 1]);
    }
}

} // verus!
