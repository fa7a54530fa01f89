//! The tree differ: walks the new tree from a root key against the old tree and
//! appends patches, rendered nodes and registrations to a result.
use vstd::prelude::*;
use crate::children::{
    find_key, key_in, lemma_first_unique, plan_children, plan_step, plan_steps, ChildStep, count_moves, first_at, matched_positions,
};
use crate::lis::is_run;
use crate::order::{acyclic, is_permutation, keeps_others_in_order, parents_first, reorder_patches_parent_first};
use crate::types::{
    CallbackRequest, JsInitializer, LifecycleCall, NodeMap, PatchData, Prop, PropMap, PropModel, PropValue,
    RustNodeData, RustPatch, RustReconciliationResult, StyleRequest, node_index, has_prop_name,
    lemma_lookup_none, lemma_node_index_range, same_props,
};

verus! {

/// Some patch of `patches` removes the node with render id `id`.
pub open spec fn is_removed(patches: Seq<RustPatch>, id: Seq<char>) -> bool {
    exists|i: int|
        0 <= i < patches.len() && (#[trigger] patches[i]).data is Remove && patches[i].html_id@ == id
}

/// Some node of `nodes` has render id `id`.
pub open spec fn has_html_id(nodes: Seq<RustNodeData>, id: Seq<char>) -> bool {
    exists|i: int| 0 <= i < nodes.len() && (#[trigger] nodes[i]).html_id@ == id
}

pub open spec fn opt_view(k: Option<String>) -> Option<Seq<char>> {
    match k {
        Some(s) => Some(s@),
        None => None,
    }
}

/// What a property map holds, by name.
pub open spec fn props_view(p: PropMap) -> Map<Seq<char>, PropModel> {
    Map::new(|k: Seq<char>| p.get_spec(k) is Some, |k: Seq<char>| p.get_spec(k)->0)
}

/// What a patch says, with text as characters and property maps by content.
pub enum PatchView {
    Insert {
        id: Seq<char>,
        html: Seq<char>,
        parent: Seq<char>,
        props: Map<Seq<char>, PropModel>,
        before: Option<Seq<char>>,
    },
    Remove { id: Seq<char> },
    Update { id: Seq<char>, props: Map<Seq<char>, PropModel>, old_props: Map<Seq<char>, PropModel> },
    Move { id: Seq<char>, parent: Seq<char>, before: Option<Seq<char>> },
    Replace { id: Seq<char>, html: Seq<char>, props: Map<Seq<char>, PropModel> },
}

pub open spec fn patch_view(p: RustPatch) -> PatchView {
    match p.data {
        PatchData::Insert { html, parent_html_id, props, before_id } => PatchView::Insert {
            id: p.html_id@,
            html: html@,
            parent: parent_html_id@,
            props: props_view(props),
            before: opt_view(before_id),
        },
        PatchData::Remove => PatchView::Remove { id: p.html_id@ },
        PatchData::Update { props, old_props } => PatchView::Update {
            id: p.html_id@,
            props: props_view(props),
            old_props: props_view(old_props),
        },
        PatchData::Move { parent_html_id, before_id } => PatchView::Move {
            id: p.html_id@,
            parent: parent_html_id@,
            before: opt_view(before_id),
        },
        PatchData::Replace { new_html, new_props } => PatchView::Replace {
            id: p.html_id@,
            html: new_html@,
            props: props_view(new_props),
        },
    }
}

pub open spec fn views(ps: Seq<RustPatch>) -> Seq<PatchView> {
    ps.map_values(|p: RustPatch| patch_view(p))
}

/// The render ids that some patch of `vs` removes.
pub open spec fn removed_ids(vs: Seq<PatchView>) -> Set<Seq<char>> {
    Set::new(|id: Seq<char>| exists|i: int| 0 <= i < vs.len() && vs[i] == (PatchView::Remove { id }))
}

proof fn lemma_removed_views(ps: Seq<RustPatch>, id: Seq<char>)
    ensures
        is_removed(ps, id) == removed_ids(views(ps)).contains(id),
{
    if is_removed(ps, id) {
        let i = choose|i: int| 0 <= i < ps.len() && (#[trigger] ps[i]).data is Remove && ps[i].html_id@ == id;
        assert(views(ps)[i] == (PatchView::Remove { id }));
    }
    if removed_ids(views(ps)).contains(id) {
        let i = choose|i: int| 0 <= i < views(ps).len() && views(ps)[i] == (PatchView::Remove { id });
        assert(views(ps)[i] == patch_view(ps[i]));
        assert(ps[i].data is Remove);
    }
}

proof fn lemma_same_props_view(a: PropMap, b: PropMap)
    requires
        same_props(a, b),
    ensures
        props_view(a) == props_view(b),
{
    assert(props_view(a) =~= props_view(b));
}

/// The walk up the parent-key chain from `key`: the render id of the first
/// renderable ancestor, looked up in the old tree (where it must not be removed
/// already) and else in the new tree; at most `fuel` steps.
pub open spec fn resolve_walk(
    old: Seq<RustNodeData>,
    new: Seq<RustNodeData>,
    wrappers: Seq<String>,
    removed: Set<Seq<char>>,
    key: Option<Seq<char>>,
    fuel: nat,
) -> Option<Seq<char>>
    decreases fuel,
{
    if fuel == 0 {
        None
    } else {
        match key {
            None => None,
            Some(k) => {
                let oi = node_index(old, k);
                let ni = node_index(new, k);
                if oi >= 0 {
                    let n = old[oi];
                    if !removed.contains(n.html_id@) && !key_in(wrappers, n.widget_type@) {
                        Some(n.html_id@)
                    } else {
                        resolve_walk(old, new, wrappers, removed, opt_view(n.parent_key), (fuel - 1) as nat)
                    }
                } else if ni >= 0 {
                    let n = new[ni];
                    if !key_in(wrappers, n.widget_type@) {
                        Some(n.html_id@)
                    } else {
                        resolve_walk(old, new, wrappers, removed, opt_view(n.parent_key), (fuel - 1) as nat)
                    }
                } else {
                    None
                }
            },
        }
    }
}

/// The render id that a new node under parent key `key` attaches to: the walk's
/// result, else `fallback` where it names a node of the old tree that is not
/// removed, else the top-level container.
pub open spec fn resolved_parent(
    old: Seq<RustNodeData>,
    new: Seq<RustNodeData>,
    wrappers: Seq<String>,
    removed: Set<Seq<char>>,
    key: Option<Seq<char>>,
    fallback: Seq<char>,
) -> Seq<char> {
    match resolve_walk(old, new, wrappers, removed, key, (old.len() + new.len() + 1) as nat) {
        Some(id) => id,
        None => if !removed.contains(fallback) && has_html_id(old, fallback) {
            fallback
        } else {
            "root-container"@
        },
    }
}

/// Property names that an update ignores.
pub open spec fn ignored_prop(name: Seq<char>) -> bool {
    name == "widget_instance"@ || name == "itemBuilder"@ || name == "onChanged"@ || name
        == "onPressed"@ || name == "onTap"@ || name == "onDrag"@
}

/// Some property that an update does not ignore differs between the two maps.
pub open spec fn props_differ(old: PropMap, new: PropMap) -> bool {
    exists|name: Seq<char>| !ignored_prop(name) && old.get_spec(name) != new.get_spec(name)
}

/// `b` is `a` with patches appended.
pub open spec fn extends(a: Seq<RustPatch>, b: Seq<RustPatch>) -> bool {
    a.len() <= b.len() && b.subrange(0, a.len() as int) == a
}

/// Every patch from position `start` on is an insert.
pub open spec fn inserts_from(ps: Seq<RustPatch>, start: int) -> bool {
    forall|i: int| start <= i < ps.len() ==> (#[trigger] ps[i]).data is Insert
}

/// No child list names a key twice.
pub open spec fn keys_distinct(keys: Seq<String>) -> bool {
    forall|i: int, j: int| 0 <= i < keys.len() && 0 <= j < keys.len() && i != j ==> (
    #[trigger] keys[i])@ != (#[trigger] keys[j])@
}

/// No node of `nodes` names a child twice.
pub open spec fn lists_distinct(nodes: Seq<RustNodeData>) -> bool {
    forall|i: int| 0 <= i < nodes.len() ==> keys_distinct((#[trigger] nodes[i]).children_keys@)
}

proof fn lemma_extends_trans(a: Seq<RustPatch>, b: Seq<RustPatch>, c: Seq<RustPatch>)
    requires
        extends(a, b),
        extends(b, c),
    ensures
        extends(a, c),
{
    assert(c.subrange(0, a.len() as int) =~= c.subrange(0, b.len() as int).subrange(0, a.len() as int));
}

proof fn lemma_extends_push(a: Seq<RustPatch>, p: RustPatch)
    ensures
        extends(a, a.push(p)),
{
    assert(a.push(p).subrange(0, a.len() as int) =~= a);
}

proof fn lemma_inserts_trans(a: Seq<RustPatch>, b: Seq<RustPatch>, c: Seq<RustPatch>, start: int)
    requires
        extends(a, b),
        extends(b, c),
        0 <= start <= a.len(),
        inserts_from(b, start),
        inserts_from(c, b.len() as int),
    ensures
        inserts_from(c, start),
{
    assert forall|i: int| start <= i < c.len() implies (#[trigger] c[i]).data is Insert by {
        if i < b.len() {
            assert(c.subrange(0, b.len() as int)[i] == c[i]);
            assert(b[i].data is Insert);
        }
    }
}

/// The new children of identical lists keep their places.
proof fn lemma_same_list_plan(keys: Seq<String>, steps: Seq<ChildStep>)
    requires
        keys_distinct(keys),
        keys.len() <= usize::MAX,
        steps.len() == keys.len(),
        forall|i: int|
            0 <= i < keys.len() ==> match #[trigger] steps[i] {
                ChildStep::New => !key_in(keys, keys[i]@),
                _ => true,
            },
        forall|run: Seq<int>|
            #[trigger] is_run(matched_positions(keys, keys), run) ==> run.len() + count_moves(steps)
                <= matched_positions(keys, keys).len(),
    ensures
        forall|i: int| 0 <= i < keys.len() ==> (#[trigger] steps[i]) is Keep,
{
    lemma_identity_positions(keys, keys.len() as int);
    assert(keys.subrange(0, keys.len() as int) =~= keys);
    let ms = matched_positions(keys, keys);
    let run = Seq::new(keys.len(), |i: int| i);
    assert(is_run(ms, run));
    lemma_no_moves(steps);
    assert forall|i: int| 0 <= i < keys.len() implies (#[trigger] steps[i]) is Keep by {
        assert(key_in(keys, keys[i]@));
        assert(!(steps[i] is Move));
    }
}

proof fn lemma_identity_positions(keys: Seq<String>, n: int)
    requires
        keys_distinct(keys),
        0 <= n <= keys.len(),
        keys.len() <= usize::MAX,
    ensures
        matched_positions(keys, keys.subrange(0, n)).len() == n,
        forall|i: int| 0 <= i < n ==> matched_positions(keys, keys.subrange(0, n))[i] == i,
    decreases n,
{
    if n > 0 {
        lemma_identity_positions(keys, n - 1);
        let pre = keys.subrange(0, n);
        assert(pre.drop_last() =~= keys.subrange(0, n - 1));
        assert(first_at(keys, keys[n - 1]@, n - 1));
        lemma_first_unique(keys, keys[n - 1]@, n - 1);
        assert(pre.last() == keys[n - 1]);
    }
}

proof fn lemma_no_moves(steps: Seq<ChildStep>)
    ensures
        count_moves(steps) == 0 ==> forall|i: int| 0 <= i < steps.len() ==> !((#[trigger] steps[i]) is Move),
    decreases steps.len(),
{
    if steps.len() > 0 {
        lemma_no_moves(steps.drop_last());
        if count_moves(steps) == 0 {
            assert forall|i: int| 0 <= i < steps.len() implies !((#[trigger] steps[i]) is Move) by {
                if i < steps.len() - 1 {
                    assert(steps.drop_last()[i] == steps[i]);
                }
            }
        }
    }
}

/// Relies on str::strip_suffix: the text before a final "Name".
#[verifier::external_body]
fn strip_name_suffix(s: &String) -> (r: Option<String>)
    ensures
        match r {
            Some(p) => s@ == p@ + "Name"@,
            None => !(s@.len() >= 4 && s@.subrange(s@.len() - 4, s@.len() as int) == "Name"@),
        },
{
    s.strip_suffix("Name").map(|p| p.to_string())
}

/// The words of a text, split at whitespace as str::split_whitespace does.
pub uninterp spec fn words_of(s: Seq<char>) -> Seq<Seq<char>>;

/// Relies on str::split_whitespace: the non-empty words of `s`, in order.
#[verifier::external_body]
fn split_words(s: &String) -> (r: Vec<String>)
    ensures
        r@.map_values(|w: String| w@) == words_of(s@),
        forall|i: int| 0 <= i < r@.len() ==> (#[trigger] r@[i])@.len() > 0,
{
    s.split_whitespace().map(|w| w.to_string()).collect()
}

/// The render id that the children of a node attach to when the tree is built:
/// the node's own where its kind renders, else its parent's.
pub fn tree_child_parent(
    wrapper_kinds: &Vec<String>,
    widget_type: &String,
    html_id: &String,
    parent_html_id: &String,
) -> (r: String)
    ensures
        r@ == if key_in(wrapper_kinds@, widget_type@) {
            parent_html_id@
        } else {
            html_id@
        },
{
    if find_key(wrapper_kinds, widget_type).is_some() {
        parent_html_id.clone()
    } else {
        html_id.clone()
    }
}

/// The kinds that are composition wrappers by default: they render nothing, and
/// their children attach to the nearest renderable ancestor.
pub fn default_wrapper_kinds() -> (r: Vec<String>)
    ensures
        r@.len() == 3,
        r@[0]@ == "StatefulWidget"@,
        r@[1]@ == "StatelessWidget"@,
        r@[2]@ == "_WidgetProxy"@,
{
    let mut r: Vec<String> = Vec::new();
    r.push(String::from_str("StatefulWidget"));
    r.push(String::from_str("StatelessWidget"));
    r.push(String::from_str("_WidgetProxy"));
    r
}

fn is_ignored_prop(name: &String) -> (r: bool)
    ensures
        r == ignored_prop(name@),
{
    *name == String::from_str("widget_instance") || *name == String::from_str("itemBuilder")
        || *name == String::from_str("onChanged") || *name == String::from_str("onPressed")
        || *name == String::from_str("onTap") || *name == String::from_str("onDrag")
}

fn same_lookup(a: Option<&PropValue>, b: Option<&PropValue>) -> (r: bool)
    ensures
        r == (match (a, b) {
            (Some(x), Some(y)) => x@ == y@,
            (None, None) => true,
            _ => false,
        }),
{
    match (a, b) {
        (Some(x), Some(y)) => x.same_as(y),
        (None, None) => true,
        _ => false,
    }
}

/// Whether an update sees a change between two property maps.
pub fn diff_props(old: &PropMap, new: &PropMap) -> (r: bool)
    ensures
        r == props_differ(*old, *new),
{
    let mut i: usize = 0;
    while i < old.entries.len()
        invariant
            i <= old.entries@.len(),
            forall|x: int|
                0 <= x < i ==> ignored_prop((#[trigger] old.entries@[x]).name@) || old.get_spec(
                    old.entries@[x].name@,
                ) == new.get_spec(old.entries@[x].name@),
        decreases old.entries.len() - i,
    {
        let name = &old.entries[i].name;
        if !is_ignored_prop(name) {
            let a = old.get(name);
            let b = new.get(name);
            if !same_lookup(a, b) {
                return true;
            }
        }
        i = i + 1;
    }
    let mut i: usize = 0;
    while i < new.entries.len()
        invariant
            i <= new.entries@.len(),
            forall|x: int|
                0 <= x < old.entries@.len() ==> ignored_prop((#[trigger] old.entries@[x]).name@)
                    || old.get_spec(old.entries@[x].name@) == new.get_spec(old.entries@[x].name@),
            forall|x: int|
                0 <= x < i ==> ignored_prop((#[trigger] new.entries@[x]).name@) || old.get_spec(
                    new.entries@[x].name@,
                ) == new.get_spec(new.entries@[x].name@),
        decreases new.entries.len() - i,
    {
        let name = &new.entries[i].name;
        if !is_ignored_prop(name) {
            let a = old.get(name);
            let b = new.get(name);
            if !same_lookup(a, b) {
                return true;
            }
        }
        i = i + 1;
    }
    proof {
        assert forall|name: Seq<char>| !ignored_prop(name) implies old.get_spec(name)
            == new.get_spec(name) by {
            if has_prop_name(old.entries@, name) {
                let x = choose|x: int|
                    0 <= x < old.entries@.len() && (#[trigger] old.entries@[x]).name@ == name;
            } else if has_prop_name(new.entries@, name) {
                let x = choose|x: int|
                    0 <= x < new.entries@.len() && (#[trigger] new.entries@[x]).name@ == name;
            } else {
                lemma_lookup_none(old.entries@, name);
                lemma_lookup_none(new.entries@, name);
            }
        }
    }
    false
}

/// `s` ends with "Name".
pub open spec fn ends_with_name(s: Seq<char>) -> bool {
    s.len() >= 4 && s.subrange(s.len() - 4, s.len() as int) == "Name"@
}

/// The registration token that a property value gives: its text, or empty.
pub open spec fn token_of(v: PropModel) -> Seq<char> {
    match v {
        PropModel::Str(t) => t,
        _ => Seq::empty(),
    }
}

/// The callbacks that properties name, as (token, method): one for each entry
/// named "<method>Name" whose value is not null, in order.
pub open spec fn callback_specs(entries: Seq<Prop>) -> Seq<(Seq<char>, Seq<char>)>
    decreases entries.len(),
{
    if entries.len() == 0 {
        Seq::empty()
    } else {
        let pre = callback_specs(entries.drop_last());
        let e = entries.last();
        if ends_with_name(e.name@) && !(e.value@ is Null) {
            pre.push((token_of(e.value@), e.name@.subrange(0, e.name@.len() - 4)))
        } else {
            pre
        }
    }
}

/// The callbacks that a node with a live instance names.
pub open spec fn node_callbacks(node: RustNodeData) -> Seq<(Seq<char>, Seq<char>)> {
    if node.widget_instance is Some {
        callback_specs(node.props.entries@)
    } else {
        Seq::empty()
    }
}

/// The style classes that a node with a live instance names.
pub open spec fn css_words(node: RustNodeData) -> Seq<Seq<char>> {
    match node.props.get_spec("css_class"@) {
        Some(PropModel::Str(t)) => if node.widget_instance is Some {
            words_of(t)
        } else {
            Seq::empty()
        },
        _ => Seq::empty(),
    }
}

/// What an initializer request says: its kind, its target, its data and the
/// sibling it goes before.
pub open spec fn init_view(j: JsInitializer) -> (Seq<char>, Seq<char>, PropModel, Option<Seq<char>>) {
    (j.init_type@, j.target_id@, j.data@, opt_view(j.before_id))
}

/// The initializers that a node asks for: a scrollbar's, then one for its
/// "responsive_clip_path" property, then one for its "_js_init" property.
pub open spec fn initializers_for(n: RustNodeData) -> Seq<(Seq<char>, Seq<char>, PropModel, Option<Seq<char>>)> {
    (if n.widget_type@ == "Scrollbar"@ {
        seq![("SimpleBar"@, n.html_id@, PropModel::Json("{}"@), None)]
    } else {
        Seq::empty()
    }) + match n.props.get_spec("responsive_clip_path"@) {
        Some(v) => seq![("ResponsiveClipPath"@, n.html_id@, v, None)],
        None => Seq::empty(),
    } + match n.props.get_spec("_js_init"@) {
        Some(v) => seq![("generic"@, n.html_id@, v, None)],
        None => Seq::empty(),
    }
}

/// `p` inserts `node` under `parent`, before the sibling `before`.
pub open spec fn inserted_as(
    p: RustPatch,
    node: RustNodeData,
    parent: Seq<char>,
    before: Option<Seq<char>>,
) -> bool {
    &&& p.html_id@ == node.html_id@
    &&& match p.data {
        PatchData::Insert { html, parent_html_id, props, before_id } => {
            &&& html@ == node.html@
            &&& parent_html_id@ == parent
            &&& opt_view(before_id) == before
            &&& same_props(props, node.props)
        },
        _ => false,
    }
}

/// `p` updates `node`, whose properties were those of `old_node`.
pub open spec fn updated_as(p: RustPatch, node: RustNodeData, old_node: RustNodeData) -> bool {
    &&& p.html_id@ == node.html_id@
    &&& match p.data {
        PatchData::Update { props, old_props } => same_props(props, node.props) && same_props(
            old_props,
            old_node.props,
        ),
        _ => false,
    }
}

/// What a pass compares: the two trees and the wrapper kinds.
pub struct DiffInputs {
    pub old: Seq<RustNodeData>,
    pub new: Seq<RustNodeData>,
    pub wrappers: Seq<String>,
}

/// The node with key `k` in `nodes`, if any.
pub open spec fn node_at(nodes: Seq<RustNodeData>, k: Seq<char>) -> Option<RustNodeData> {
    if node_index(nodes, k) >= 0 {
        Some(nodes[node_index(nodes, k)])
    } else {
        None
    }
}

/// What a node says, with text as characters and its property map by content.
pub struct NodeView {
    pub html_id: Seq<char>,
    pub html: Seq<char>,
    pub kind: Seq<char>,
    pub key: Seq<char>,
    pub instance: Option<u64>,
    pub props: Map<Seq<char>, PropModel>,
    pub parent_html_id: Seq<char>,
    pub parent_key: Option<Seq<char>>,
    pub children: Seq<String>,
}

pub open spec fn node_view(n: RustNodeData) -> NodeView {
    NodeView {
        html_id: n.html_id@,
        html: n.html@,
        kind: n.widget_type@,
        key: n.key@,
        instance: n.widget_instance,
        props: props_view(n.props),
        parent_html_id: n.parent_html_id@,
        parent_key: opt_view(n.parent_key),
        children: n.children_keys@,
    }
}

/// What a node map holds, by key.
pub open spec fn map_view(m: NodeMap) -> Map<Seq<char>, NodeView> {
    Map::new(|k: Seq<char>| m.contains_spec(k), |k: Seq<char>| node_view(m.nodes@[m.index_of(k)]))
}

/// What a lifecycle request says.
pub enum CallView {
    PropsChanged { instance: u64, old_props: Map<Seq<char>, PropModel> },
    Dispose { instance: u64 },
}

pub open spec fn call_view(c: LifecycleCall) -> CallView {
    match c {
        LifecycleCall::PropsChanged { widget_instance, old_props } => CallView::PropsChanged {
            instance: widget_instance,
            old_props: props_view(old_props),
        },
        LifecycleCall::Dispose { widget_instance } => CallView::Dispose { instance: widget_instance },
    }
}

/// What a pass has produced so far.
pub struct ResultView {
    pub patches: Seq<PatchView>,
    pub map: Map<Seq<char>, NodeView>,
    pub styles: Seq<(Seq<char>, u64)>,
    pub callbacks: Seq<(Seq<char>, Seq<char>, u64)>,
    pub inits: Seq<(Seq<char>, Seq<char>, PropModel, Option<Seq<char>>)>,
    pub calls: Seq<CallView>,
}

pub open spec fn styles_view(s: Seq<StyleRequest>) -> Seq<(Seq<char>, u64)> {
    s.map_values(|q: StyleRequest| (q.css_class@, q.widget_instance))
}

pub open spec fn callbacks_view(s: Seq<CallbackRequest>) -> Seq<(Seq<char>, Seq<char>, u64)> {
    s.map_values(|q: CallbackRequest| (q.token@, q.method@, q.widget_instance))
}

pub open spec fn result_view(r: RustReconciliationResult) -> ResultView {
    ResultView {
        patches: views(r.patches@),
        map: map_view(r.new_rendered_map),
        styles: styles_view(r.style_requests@),
        callbacks: callbacks_view(r.callback_requests@),
        inits: r.js_initializers@.map_values(|j: JsInitializer| init_view(j)),
        calls: r.lifecycle_calls@.map_values(|c: LifecycleCall| call_view(c)),
    }
}

/// A result with nothing in it.
pub open spec fn empty_view() -> ResultView {
    ResultView {
        patches: Seq::empty(),
        map: Map::empty(),
        styles: Seq::empty(),
        callbacks: Seq::empty(),
        inits: Seq::empty(),
        calls: Seq::empty(),
    }
}

/// The style requests of a node: one per word of its "css_class", with its instance.
pub open spec fn style_reqs(n: RustNodeData) -> Seq<(Seq<char>, u64)> {
    match n.widget_instance {
        Some(h) => css_words(n).map_values(|w: Seq<char>| (w, h)),
        None => Seq::empty(),
    }
}

/// The callback requests of a node, with its instance.
pub open spec fn callback_reqs(n: RustNodeData) -> Seq<(Seq<char>, Seq<char>, u64)> {
    match n.widget_instance {
        Some(h) => callback_specs(n.props.entries@).map_values(
            |p: (Seq<char>, Seq<char>)| (p.0, p.1, h),
        ),
        None => Seq::empty(),
    }
}

/// `v` with the style and callback requests of `n`.
pub open spec fn with_details(v: ResultView, n: RustNodeData) -> ResultView {
    ResultView { styles: v.styles + style_reqs(n), callbacks: v.callbacks + callback_reqs(n), ..v }
}

/// `v` with the initializers of `n`.
pub open spec fn with_inits(v: ResultView, n: RustNodeData) -> ResultView {
    ResultView { inits: v.inits + initializers_for(n), ..v }
}

/// `v` with `n` registered and recorded in the map as `nv`.
pub open spec fn with_registered(v: ResultView, n: RustNodeData, nv: NodeView) -> ResultView {
    let v1 = with_details(with_inits(v, n), n);
    ResultView { map: v1.map.insert(nv.key, nv), ..v1 }
}

pub open spec fn push_patch(v: ResultView, p: PatchView) -> ResultView {
    ResultView { patches: v.patches.push(p), ..v }
}

/// The parent render id that a node under parent key `key` gets, with `v` produced so far.
pub open spec fn resolve_in(c: DiffInputs, v: ResultView, key: Option<Seq<char>>, fallback: Seq<char>) -> Seq<char> {
    resolved_parent(c.old, c.new, c.wrappers, removed_ids(v.patches), key, fallback)
}

/// The render id that the children of the node `n` (as `nv`) attach to.
pub open spec fn child_parent_in(c: DiffInputs, v: ResultView, nv: NodeView) -> Seq<char> {
    if !key_in(c.wrappers, nv.kind) {
        nv.html_id
    } else {
        resolve_in(c, v, nv.parent_key, nv.parent_html_id)
    }
}

/// `v` with `n` registered and recorded as `nv`, and its insert under `parent`
/// where it renders.
pub open spec fn with_insert(
    c: DiffInputs,
    v: ResultView,
    n: RustNodeData,
    nv: NodeView,
    parent: Seq<char>,
    before: Option<Seq<char>>,
) -> ResultView {
    let v1 = with_registered(v, n, nv);
    if !key_in(c.wrappers, nv.kind) {
        push_patch(
            v1,
            PatchView::Insert { id: nv.html_id, html: nv.html, parent, props: nv.props, before },
        )
    } else {
        v1
    }
}

/// The removes that open a child list's diff: one for each old child that the new
/// list lacks and the old tree holds, in order.
pub open spec fn gone_views(old: Seq<RustNodeData>, old_keys: Seq<String>, new_keys: Seq<String>) -> Seq<PatchView>
    decreases old_keys.len(),
{
    if old_keys.len() == 0 {
        Seq::empty()
    } else {
        let pre = gone_views(old, old_keys.drop_last(), new_keys);
        let k = old_keys.last()@;
        if !key_in(new_keys, k) && node_index(old, k) >= 0 {
            pre.push(PatchView::Remove { id: old[node_index(old, k)].html_id@ })
        } else {
            pre
        }
    }
}

/// The node that replaces `o` under its key: `n` under the render id of `o`.
pub open spec fn replacement_view(o: RustNodeData, n: RustNodeData) -> NodeView {
    NodeView { html_id: o.html_id@, ..node_view(n) }
}

/// What the pass has produced after diffing the node under `key`, from `v`.
pub open spec fn sd_node(c: DiffInputs, v: ResultView, key: Seq<char>, fuel: nat) -> ResultView
    decreases fuel, 2int, 0int,
{
    match (node_at(c.old, key), node_at(c.new, key)) {
        (None, Some(n)) => {
            let res = resolve_in(c, v, opt_view(n.parent_key), n.parent_html_id@);
            let cp = if !key_in(c.wrappers, n.widget_type@) { n.html_id@ } else { res };
            sd_children(c, with_insert(c, v, n, node_view(n), res, None), Seq::empty(), n.children_keys@, cp, n.key@, fuel)
        },
        (Some(o), Some(n)) => {
            if o.widget_type@ != n.widget_type@ || o.key@ != n.key@ {
                let nv = replacement_view(o, n);
                let v1 = with_registered(
                    push_patch(v, PatchView::Replace { id: o.html_id@, html: n.html@, props: props_view(n.props) }),
                    n,
                    nv,
                );
                sd_children(c, v1, Seq::empty(), n.children_keys@, child_parent_in(c, v1, nv), n.key@, fuel)
            } else {
                sd_update(c, v, o, n, fuel)
            }
        },
        (Some(o), None) => push_patch(v, PatchView::Remove { id: o.html_id@ }),
        (None, None) => v,
    }
}

/// What the pass has produced after updating `n`, which had the kind and key of `o`.
pub open spec fn sd_update(c: DiffInputs, v: ResultView, o: RustNodeData, n: RustNodeData, fuel: nat) -> ResultView
    decreases fuel, 1int, 0int,
{
    let v1 = with_details(v, n);
    let v2 = if n.widget_type@ == "StatefulWidget"@ && n.widget_instance is Some {
        ResultView {
            calls: v1.calls.push(CallView::PropsChanged { instance: n.widget_instance->0, old_props: props_view(o.props) }),
            ..v1
        }
    } else {
        v1
    };
    let v3 = if !key_in(c.wrappers, n.widget_type@) && props_differ(o.props, n.props) {
        push_patch(v2, PatchView::Update { id: n.html_id@, props: props_view(n.props), old_props: props_view(o.props) })
    } else {
        v2
    };
    let cp = child_parent_in(c, v3, node_view(n));
    let v4 = ResultView { map: v3.map.insert(n.key@, node_view(n)), ..v3 };
    sd_children(c, v4, o.children_keys@, n.children_keys@, cp, n.key@, fuel)
}

/// What the pass has produced after diffing a child list under the node
/// `parent_key`, whose children attach to `parent`.
pub open spec fn sd_children(
    c: DiffInputs,
    v: ResultView,
    old_keys: Seq<String>,
    new_keys: Seq<String>,
    parent: Seq<char>,
    parent_key: Seq<char>,
    fuel: nat,
) -> ResultView
    decreases fuel, 0int, new_keys.len() + 1,
{
    if fuel == 0 || (old_keys.len() == 0 && new_keys.len() == 0) {
        v
    } else {
        sd_children_from(
            c,
            ResultView { patches: v.patches + gone_views(c.old, old_keys, new_keys), ..v },
            old_keys,
            new_keys,
            parent,
            parent_key,
            fuel,
            0,
        )
    }
}

/// The render id of the new sibling after position `i`, if any.
pub open spec fn before_in(c: DiffInputs, new_keys: Seq<String>, i: int) -> Option<Seq<char>> {
    if i + 1 < new_keys.len() {
        match node_at(c.new, new_keys[i + 1]@) {
            Some(n) => Some(n.html_id@),
            None => None,
        }
    } else {
        None
    }
}

/// What the pass has produced after the new children from position `i` on.
pub open spec fn sd_children_from(
    c: DiffInputs,
    v: ResultView,
    old_keys: Seq<String>,
    new_keys: Seq<String>,
    parent: Seq<char>,
    parent_key: Seq<char>,
    fuel: nat,
    i: int,
) -> ResultView
    decreases fuel, 0int, new_keys.len() - i,
{
    if fuel == 0 || i < 0 || i >= new_keys.len() {
        v
    } else {
        let k = new_keys[i]@;
        let before = before_in(c, new_keys, i);
        let v1 = match plan_step(old_keys, new_keys, i) {
            ChildStep::Keep { .. } => sd_node(c, v, k, (fuel - 1) as nat),
            ChildStep::Move { .. } => {
                let vm = match node_at(c.new, k) {
                    Some(n) => push_patch(v, PatchView::Move { id: n.html_id@, parent, before }),
                    None => v,
                };
                sd_node(c, vm, k, (fuel - 1) as nat)
            },
            ChildStep::New => match node_at(c.new, k) {
                Some(n) => {
                    let res = resolve_in(c, v, Some(parent_key), parent);
                    let nv = NodeView { parent_html_id: res, parent_key: Some(parent_key), ..node_view(n) };
                    let cp = if !key_in(c.wrappers, n.widget_type@) { n.html_id@ } else { res };
                    sd_children(c, with_insert(c, v, n, nv, res, before), Seq::empty(), n.children_keys@, cp, k, (fuel - 1) as nat)
                },
                None => v,
            },
        };
        sd_children_from(c, v1, old_keys, new_keys, parent, parent_key, fuel, i + 1)
    }
}

/// `b` holds every key that `a` holds.
pub open spec fn map_grows(a: NodeMap, b: NodeMap) -> bool {
    forall|k: Seq<char>| a.contains_spec(k) ==> #[trigger] b.contains_spec(k)
}

/// Every key of `b` is one of `a` or one that `new` holds.
pub open spec fn map_within(a: NodeMap, b: NodeMap, new: Seq<RustNodeData>) -> bool {
    forall|k: Seq<char>| #[trigger] b.contains_spec(k) ==> a.contains_spec(k) || node_index(new, k) >= 0
}

/// `b` is `a` with lifecycle calls appended.
pub open spec fn calls_extend(a: Seq<LifecycleCall>, b: Seq<LifecycleCall>) -> bool {
    a.len() <= b.len() && b.subrange(0, a.len() as int) == a
}

proof fn lemma_styles_view(a: Seq<StyleRequest>, b: Seq<StyleRequest>, words: Seq<Seq<char>>, h: u64)
    requires
        a.len() <= b.len(),
        forall|x: int| 0 <= x < a.len() ==> b[x] == a[x],
        b.map_values(|q: StyleRequest| q.css_class@) == a.map_values(|q: StyleRequest| q.css_class@) + words,
        forall|x: int| a.len() <= x < b.len() ==> Some((#[trigger] b[x]).widget_instance) == Some(h),
    ensures
        styles_view(b) == styles_view(a) + words.map_values(|w: Seq<char>| (w, h)),
{
    let bm = b.map_values(|q: StyleRequest| q.css_class@);
    let am = a.map_values(|q: StyleRequest| q.css_class@);
    assert(bm.len() == b.len() && am.len() == a.len());
    assert(b.len() == a.len() + words.len());
    assert forall|x: int| 0 <= x < b.len() implies #[trigger] styles_view(b)[x] == (styles_view(a) + words.map_values(
        |w: Seq<char>| (w, h),
    ))[x] by {
        assert(bm[x] == b[x].css_class@);
        assert(bm[x] == (am + words)[x]);
        if x >= a.len() {
            assert((am + words)[x] == words[x - a.len()]);
            assert(b[x].widget_instance == h);
        } else {
            assert(b[x] == a[x]);
        }
    }
    assert(styles_view(b) =~= styles_view(a) + words.map_values(|w: Seq<char>| (w, h)));
}

proof fn lemma_callbacks_view(
    a: Seq<CallbackRequest>,
    b: Seq<CallbackRequest>,
    specs: Seq<(Seq<char>, Seq<char>)>,
    h: u64,
)
    requires
        a.len() <= b.len(),
        forall|x: int| 0 <= x < a.len() ==> b[x] == a[x],
        b.map_values(|q: CallbackRequest| (q.token@, q.method@)) == a.map_values(
            |q: CallbackRequest| (q.token@, q.method@),
        ) + specs,
        forall|x: int| a.len() <= x < b.len() ==> Some((#[trigger] b[x]).widget_instance) == Some(h),
    ensures
        callbacks_view(b) == callbacks_view(a) + specs.map_values(
            |p: (Seq<char>, Seq<char>)| (p.0, p.1, h),
        ),
{
    let bm = b.map_values(|q: CallbackRequest| (q.token@, q.method@));
    let am = a.map_values(|q: CallbackRequest| (q.token@, q.method@));
    assert(bm.len() == b.len() && am.len() == a.len());
    assert(b.len() == a.len() + specs.len());
    assert forall|x: int| 0 <= x < b.len() implies #[trigger] callbacks_view(b)[x] == (callbacks_view(a)
        + specs.map_values(|p: (Seq<char>, Seq<char>)| (p.0, p.1, h)))[x] by {
        assert(bm[x] == (b[x].token@, b[x].method@));
        assert(bm[x] == (am + specs)[x]);
        if x >= a.len() {
            assert((am + specs)[x] == specs[x - a.len()]);
            assert(b[x].widget_instance == h);
        } else {
            assert(b[x] == a[x]);
        }
    }
    assert(callbacks_view(b) =~= callbacks_view(a) + specs.map_values(
        |p: (Seq<char>, Seq<char>)| (p.0, p.1, h),
    ));
}

proof fn lemma_map_insert(a: NodeMap, b: NodeMap, node: RustNodeData)
    requires
        b.nodes@ == a.nodes@.push(node),
    ensures
        map_view(b) == map_view(a).insert(node.key@, node_view(node)),
{
    assert(b.nodes@.drop_last() =~= a.nodes@);
    assert forall|k: Seq<char>| #[trigger] map_view(b).dom().contains(k) == map_view(a).insert(node.key@, node_view(node)).dom().contains(k) by {
        lemma_node_index_range(a.nodes@, k);
    }
    assert forall|k: Seq<char>| map_view(b).dom().contains(k) implies #[trigger] map_view(b)[k] == map_view(a).insert(node.key@, node_view(node))[k] by {
        lemma_node_index_range(a.nodes@, k);
        if k != node.key@ {
            assert(b.nodes@[node_index(a.nodes@, k)] == a.nodes@[node_index(a.nodes@, k)]);
        }
    }
    assert(map_view(b) =~= map_view(a).insert(node.key@, node_view(node)));
}

proof fn lemma_calls_trans(a: Seq<LifecycleCall>, b: Seq<LifecycleCall>, c: Seq<LifecycleCall>)
    requires
        calls_extend(a, b),
        calls_extend(b, c),
    ensures
        calls_extend(a, c),
{
    assert(c.subrange(0, a.len() as int) =~= c.subrange(0, b.len() as int).subrange(0, a.len() as int));
}

proof fn lemma_map_trans(a: NodeMap, b: NodeMap, c: NodeMap, new: Seq<RustNodeData>)
    requires
        map_grows(a, b),
        map_within(a, b, new),
        map_grows(b, c),
        map_within(b, c, new),
    ensures
        map_grows(a, c),
        map_within(a, c, new),
{
    assert forall|k: Seq<char>| a.contains_spec(k) implies #[trigger] c.contains_spec(k) by {
        assert(b.contains_spec(k));
    }
    assert forall|k: Seq<char>| #[trigger] c.contains_spec(k) implies a.contains_spec(k) || node_index(new, k) >= 0 by {
        if !(node_index(new, k) >= 0) {
            assert(b.contains_spec(k));
        }
    }
}

/// One diff pass: the two trees it compares, the wrapper kinds, and what it has
/// produced so far.
pub struct DiffEngine<'a> {
    pub old_tree: &'a NodeMap,
    pub new_tree: &'a NodeMap,
    pub wrapper_kinds: Vec<String>,
    pub result: RustReconciliationResult,
}

impl<'a> DiffEngine<'a> {
    pub open spec fn wf(&self) -> bool {
        self.old_tree.nodes@.len() + self.new_tree.nodes@.len() + 1 < usize::MAX
    }

    /// `self` compares what `other` compares.
    pub open spec fn same_inputs(&self, other: &DiffEngine<'a>) -> bool {
        &&& self.old_tree == other.old_tree
        &&& self.new_tree == other.new_tree
        &&& self.wrapper_kinds@ == other.wrapper_kinds@
    }

    /// The two trees are one: a pass against itself.
    pub open spec fn self_diff(&self) -> bool {
        *self.old_tree == *self.new_tree && lists_distinct(self.new_tree.nodes@)
    }

    pub open spec fn resolved_spec(&self, key: Option<Seq<char>>, fallback: Seq<char>) -> Seq<char> {
        resolved_parent(
            self.old_tree.nodes@,
            self.new_tree.nodes@,
            self.wrapper_kinds@,
            removed_ids(views(self.result.patches@)),
            key,
            fallback,
        )
    }

    pub fn new(
        old_tree: &'a NodeMap,
        new_tree: &'a NodeMap,
        wrapper_kinds: Vec<String>,
    ) -> (r: DiffEngine<'a>)
        requires
            old_tree.nodes@.len() + new_tree.nodes@.len() + 1 < usize::MAX,
        ensures
            r.wf(),
            r.old_tree == old_tree,
            r.new_tree == new_tree,
            r.wrapper_kinds@ == wrapper_kinds@,
            r.result.patches@.len() == 0,
            r.result.new_rendered_map.nodes@.len() == 0,
            result_view(r.result) == empty_view(),
    {
        let result = RustReconciliationResult::new();
        proof {
            assert(map_view(result.new_rendered_map) =~= Map::<Seq<char>, NodeView>::empty()) by {
                assert forall|k: Seq<char>| !result.new_rendered_map.contains_spec(k) by {
                    assert(node_index(result.new_rendered_map.nodes@, k) == -1);
                }
            }
            assert(result_view(result).patches =~= Seq::<PatchView>::empty());
            assert(result_view(result).styles =~= Seq::<(Seq<char>, u64)>::empty());
            assert(result_view(result).callbacks =~= Seq::<(Seq<char>, Seq<char>, u64)>::empty());
            assert(result_view(result).inits =~= Seq::<(Seq<char>, Seq<char>, PropModel, Option<Seq<char>>)>::empty());
            assert(result_view(result).calls =~= Seq::<CallView>::empty());
        }
        DiffEngine { old_tree, new_tree, wrapper_kinds, result }
    }

    /// Nodes of a wrapper kind render nothing.
    pub fn is_renderable_type(&self, widget_type: &String) -> (r: bool)
        ensures
            r == !key_in(self.wrapper_kinds@, widget_type@),
    {
        find_key(&self.wrapper_kinds, widget_type).is_none()
    }

    fn is_removed_id(&self, id: &String) -> (r: bool)
        ensures
            r == is_removed(self.result.patches@, id@),
            r == removed_ids(views(self.result.patches@)).contains(id@),
    {
        proof {
            lemma_removed_views(self.result.patches@, id@);
        }
        let mut i: usize = 0;
        while i < self.result.patches.len()
            invariant
                i <= self.result.patches@.len(),
                forall|x: int|
                    0 <= x < i ==> !((#[trigger] self.result.patches@[x]).data is Remove
                        && self.result.patches@[x].html_id@ == id@),
            decreases self.result.patches.len() - i,
        {
            let p = &self.result.patches[i];
            match p.data {
                PatchData::Remove => {
                    if p.html_id == *id {
                        proof {
                            assert(self.result.patches@[i as int].html_id@ == id@);
                            lemma_removed_views(self.result.patches@, id@);
                        }
                        return true;
                    }
                },
                _ => {},
            }
            i = i + 1;
        }
        proof {
            lemma_removed_views(self.result.patches@, id@);
        }
        false
    }

    fn old_has_html_id(&self, id: &String) -> (r: bool)
        ensures
            r == has_html_id(self.old_tree.nodes@, id@),
    {
        let nodes = &self.old_tree.nodes;
        assert(nodes@ == self.old_tree.nodes@);
        let mut i: usize = 0;
        while i < nodes.len()
            invariant
                nodes@ == self.old_tree.nodes@,
                i <= nodes@.len(),
                forall|x: int| 0 <= x < i ==> (#[trigger] nodes@[x]).html_id@ != id@,
            decreases nodes.len() - i,
        {
            if nodes[i].html_id == *id {
                assert(nodes@[i as int].html_id@ == id@);
                return true;
            }
            i = i + 1;
        }
        false
    }

    /// The render id of the nearest renderable ancestor of a node whose parent key
    /// is `parent_key`; see `resolved_parent`.
    pub fn resolve_parent_html_by_parent_key(
        &self,
        parent_key: &Option<String>,
        fallback_parent_html_id: &String,
    ) -> (r: String)
        requires
            self.wf(),
        ensures
            r@ == self.resolved_spec(opt_view(*parent_key), fallback_parent_html_id@),
    {
        let old_tree = self.old_tree;
        let new_tree = self.new_tree;
        let ghost total = resolve_walk(
            old_tree.nodes@,
            new_tree.nodes@,
            self.wrapper_kinds@,
            removed_ids(views(self.result.patches@)),
            opt_view(*parent_key),
            (old_tree.nodes@.len() + new_tree.nodes@.len() + 1) as nat,
        );
        let mut current: Option<String> = match parent_key {
            Some(k) => Some(k.clone()),
            None => None,
        };
        let mut fuel: usize = old_tree.len() + new_tree.len() + 1;
        while fuel > 0 && current.is_some()
            invariant
                self.wf(),
                old_tree == self.old_tree,
                new_tree == self.new_tree,
                total == resolve_walk(
                    old_tree.nodes@,
                    new_tree.nodes@,
                    self.wrapper_kinds@,
                    removed_ids(views(self.result.patches@)),
                    opt_view(*parent_key),
                    (old_tree.nodes@.len() + new_tree.nodes@.len() + 1) as nat,
                ),
                resolve_walk(
                    old_tree.nodes@,
                    new_tree.nodes@,
                    self.wrapper_kinds@,
                    removed_ids(views(self.result.patches@)),
                    opt_view(current),
                    fuel as nat,
                ) == total,
            decreases fuel,
        {
            let k: String = match &current {
                Some(x) => x.clone(),
                None => String::new(),
            };
            assert(opt_view(current) == Some(k@));
            match old_tree.get(&k) {
                Some(n) => {
                    if !self.is_removed_id(&n.html_id) && self.is_renderable_type(&n.widget_type) {
                        assert(resolve_walk(
                            old_tree.nodes@,
                            new_tree.nodes@,
                            self.wrapper_kinds@,
                            removed_ids(views(self.result.patches@)),
                            opt_view(current),
                            fuel as nat,
                        ) == Some(n.html_id@));
                        assert(total == Some(n.html_id@));
                        return n.html_id.clone();
                    }
                    current = match &n.parent_key {
                        Some(p) => Some(p.clone()),
                        None => None,
                    };
                },
                None => {
                    match new_tree.get(&k) {
                        Some(n) => {
                            if self.is_renderable_type(&n.widget_type) {
                                return n.html_id.clone();
                            }
                            current = match &n.parent_key {
                                Some(p) => Some(p.clone()),
                                None => None,
                            };
                        },
                        None => {
                            current = None;
                        },
                    }
                },
            }
            fuel = fuel - 1;
        }
        if !self.is_removed_id(fallback_parent_html_id) && self.old_has_html_id(
            fallback_parent_html_id,
        ) {
            return fallback_parent_html_id.clone();
        }
        String::from_str("root-container")
    }

    /// The rendered map of `self` grew from that of `before` by nodes of the new tree only.
    pub open spec fn map_step(&self, before: &DiffEngine<'a>) -> bool {
        map_grows(before.result.new_rendered_map, self.result.new_rendered_map) && map_within(
            before.result.new_rendered_map,
            self.result.new_rendered_map,
            before.new_tree.nodes@,
        )
    }

    pub open spec fn inputs(&self) -> DiffInputs {
        DiffInputs { old: self.old_tree.nodes@, new: self.new_tree.nodes@, wrappers: self.wrapper_kinds@ }
    }

    /// The patches after a pass on `key` start with one replace of the old node by
    /// `new_node`, and the rest are inserts.
    pub open spec fn replace_then_inserts(
        &self,
        start: &DiffEngine<'a>,
        old_html_id: Seq<char>,
        new_node: RustNodeData,
    ) -> bool {
        let n = start.result.patches@.len() as int;
        &&& self.result.patches@.len() > n
        &&& self.result.patches@[n as int].html_id@ == old_html_id
        &&& match self.result.patches@[n as int].data {
            PatchData::Replace { new_html, new_props } => new_html@ == new_node.html@ && same_props(
                new_props,
                new_node.props,
            ),
            _ => false,
        }
        &&& inserts_from(self.result.patches@, n + 1)
    }

    /// Records the style classes and callbacks that `node` names, to be looked up
    /// on its live instance: one style request per word of its "css_class", and
    /// one callback request per property named "<method>Name" whose value is not
    /// null, registered under that value.
    fn collect_details(&mut self, node: &RustNodeData)
        ensures
            final(self).result.lifecycle_calls@ == old(self).result.lifecycle_calls@,
            final(self).same_inputs(old(self)),
            final(self).result.patches@ == old(self).result.patches@,
            final(self).result.new_rendered_map == old(self).result.new_rendered_map,
            final(self).result.style_requests@.map_values(|q: StyleRequest| q.css_class@) == old(
                self,
            ).result.style_requests@.map_values(|q: StyleRequest| q.css_class@) + css_words(*node),
            final(self).result.callback_requests@.map_values(|q: CallbackRequest| (q.token@, q.method@))
                == old(self).result.callback_requests@.map_values(
                |q: CallbackRequest| (q.token@, q.method@),
            ) + node_callbacks(*node),
            forall|i: int|
                old(self).result.style_requests@.len() <= i < final(self).result.style_requests@.len()
                    ==> Some((#[trigger] final(self).result.style_requests@[i]).widget_instance)
                    == node.widget_instance,
            forall|i: int|
                old(self).result.callback_requests@.len() <= i
                    < final(self).result.callback_requests@.len() ==> Some(
                    (#[trigger] final(self).result.callback_requests@[i]).widget_instance,
                ) == node.widget_instance,
            result_view(final(self).result) == with_details(result_view(old(self).result), *node),
    {
        let ghost start = *self;
        let ghost styles0 = self.result.style_requests@.map_values(|q: StyleRequest| q.css_class@);
        let ghost calls0 = self.result.callback_requests@.map_values(
            |q: CallbackRequest| (q.token@, q.method@),
        );
        let h = match node.widget_instance {
            Some(h) => h,
            None => {
                assert(styles0 + css_words(*node) =~= styles0);
                assert(calls0 + node_callbacks(*node) =~= calls0);
                assert(result_view(self.result) =~~= with_details(result_view(start.result), *node));
                return ;
            },
        };
        match node.props.get(&String::from_str("css_class")) {
            Some(v) => match v.as_str() {
                Some(text) => {
                    let words = split_words(text);
                    let mut i: usize = 0;
                    while i < words.len()
                        invariant
                            self.same_inputs(&start),
                            self.result.patches@ == start.result.patches@,
                            self.result.new_rendered_map == start.result.new_rendered_map,
                            self.result.lifecycle_calls@ == start.result.lifecycle_calls@,
                            self.result.js_initializers@ == start.result.js_initializers@,
                            self.result.callback_requests@ == start.result.callback_requests@,
                            i <= words@.len(),
                            self.result.style_requests@.map_values(|q: StyleRequest| q.css_class@)
                                == styles0 + words@.map_values(|w: String| w@).subrange(0, i as int),
                            self.result.style_requests@.len() == start.result.style_requests@.len() + i,
                            self.result.style_requests@.subrange(0, start.result.style_requests@.len() as int)
                                == start.result.style_requests@,
                            forall|x: int|
                                start.result.style_requests@.len() <= x < self.result.style_requests@.len()
                                    ==> (#[trigger] self.result.style_requests@[x]).widget_instance == h,
                        decreases words.len() - i,
                    {
                        let ghost before = self.result.style_requests@;
                        self.result.style_requests.push(
                            StyleRequest { css_class: words[i].clone(), widget_instance: h },
                        );
                        assert(self.result.style_requests@.map_values(|q: StyleRequest| q.css_class@)
                            =~= before.map_values(|q: StyleRequest| q.css_class@).push(words@[i as int]@));
                        assert(self.result.style_requests@.subrange(0, start.result.style_requests@.len() as int)
                            =~= before.subrange(0, start.result.style_requests@.len() as int));
                        assert(words@.map_values(|w: String| w@).subrange(0, i + 1) =~= words@.map_values(
                            |w: String| w@,
                        ).subrange(0, i as int).push(words@[i as int]@));
                        i = i + 1;
                    }
                    assert(words@.map_values(|w: String| w@).subrange(0, i as int) =~= words@.map_values(
                        |w: String| w@,
                    ));
                },
                None => {
                    assert(styles0 + css_words(*node) =~= styles0);
                },
            },
            None => {
                assert(styles0 + css_words(*node) =~= styles0);
            },
        }
        let ghost mid = *self;
        proof {
            assert(mid.result.style_requests@.map_values(|q: StyleRequest| q.css_class@) == styles0 + css_words(*node));
            assert forall|x: int| 0 <= x < start.result.style_requests@.len() implies mid.result.style_requests@[x]
                == start.result.style_requests@[x] by {
                if mid.result.style_requests@.len() > start.result.style_requests@.len() {
                    assert(mid.result.style_requests@.subrange(0, start.result.style_requests@.len() as int)[x]
                        == mid.result.style_requests@[x]);
                }
            }
        }
        let mut i: usize = 0;
        while i < node.props.entries.len()
            invariant
                node.widget_instance == Some(h),
                mid.result.style_requests@.len() >= start.result.style_requests@.len(),
                forall|x: int| 0 <= x < start.result.style_requests@.len() ==> mid.result.style_requests@[x]
                    == start.result.style_requests@[x],
                mid.result.style_requests@.map_values(|q: StyleRequest| q.css_class@) == styles0 + css_words(*node),
                forall|x: int|
                    start.result.style_requests@.len() <= x < mid.result.style_requests@.len()
                        ==> (#[trigger] mid.result.style_requests@[x]).widget_instance == h,
                calls0 == start.result.callback_requests@.map_values(|q: CallbackRequest| (q.token@, q.method@)),
                styles0 == start.result.style_requests@.map_values(|q: StyleRequest| q.css_class@),
                self.same_inputs(&start),
                self.result.patches@ == start.result.patches@,
                self.result.new_rendered_map == start.result.new_rendered_map,
                self.result.lifecycle_calls@ == start.result.lifecycle_calls@,
                self.result.js_initializers@ == start.result.js_initializers@,
                self.result.style_requests@ == mid.result.style_requests@,
                i <= node.props.entries@.len(),
                self.result.callback_requests@.map_values(|q: CallbackRequest| (q.token@, q.method@))
                    == calls0 + callback_specs(node.props.entries@.subrange(0, i as int)),
                self.result.callback_requests@.len() >= start.result.callback_requests@.len(),
                forall|x: int|
                    start.result.callback_requests@.len() <= x < self.result.callback_requests@.len()
                        ==> (#[trigger] self.result.callback_requests@[x]).widget_instance == h,
                forall|x: int|
                    0 <= x < start.result.callback_requests@.len() ==> self.result.callback_requests@[x]
                        == start.result.callback_requests@[x],
            decreases node.props.entries.len() - i,
        {
            let e = &node.props.entries[i];
            let ghost before = self.result.callback_requests@;
            proof {
                let pre = node.props.entries@.subrange(0, i + 1);
                assert(pre.drop_last() =~= node.props.entries@.subrange(0, i as int));
                assert(pre.last() == *e);
            }
            if !e.value.is_null() {
                match strip_name_suffix(&e.name) {
                    Some(method) => {
                        let token = match e.value.as_str() {
                            Some(t) => t.clone(),
                            None => String::new(),
                        };
                        proof {
                            reveal_strlit("Name");
                            assert(e.name@.len() == method@.len() + 4);
                            assert(method@ =~= e.name@.subrange(0, e.name@.len() - 4));
                            assert(e.name@.subrange(e.name@.len() - 4, e.name@.len() as int) =~= "Name"@);
                            assert(token@ == token_of(e.value@));
                        }
                        self.result.callback_requests.push(
                            CallbackRequest { token, method, widget_instance: h },
                        );
                        assert(self.result.callback_requests@.map_values(
                            |q: CallbackRequest| (q.token@, q.method@),
                        ) =~= before.map_values(|q: CallbackRequest| (q.token@, q.method@)).push(
                            (token_of(e.value@), e.name@.subrange(0, e.name@.len() - 4)),
                        ));
                    },
                    None => {},
                }
            }
            i = i + 1;
        }
        assert(node.props.entries@.subrange(0, i as int) =~= node.props.entries@);
        proof {
            lemma_styles_view(
                start.result.style_requests@,
                self.result.style_requests@,
                css_words(*node),
                h,
            );
            lemma_callbacks_view(
                start.result.callback_requests@,
                self.result.callback_requests@,
                node_callbacks(*node),
                h,
            );
            assert(styles_view(self.result.style_requests@) =~= styles_view(start.result.style_requests@)
                + style_reqs(*node));
            assert(callbacks_view(self.result.callback_requests@) =~= callbacks_view(
                start.result.callback_requests@,
            ) + callback_reqs(*node));
            assert(result_view(self.result) =~~= with_details(result_view(start.result), *node));
        }
    }

    /// Queues the post-render initializers that `node` asks for.
    fn queue_js_initializers(&mut self, node: &RustNodeData)
        ensures
            final(self).result.lifecycle_calls@ == old(self).result.lifecycle_calls@,
            final(self).same_inputs(old(self)),
            final(self).result.patches@ == old(self).result.patches@,
            final(self).result.new_rendered_map == old(self).result.new_rendered_map,
            final(self).result.js_initializers@.map_values(|j: JsInitializer| init_view(j)) == old(
                self,
            ).result.js_initializers@.map_values(|j: JsInitializer| init_view(j)) + initializers_for(*node),
            result_view(final(self).result) == with_inits(result_view(old(self).result), *node),
    {
        let ghost start0 = *self;
        let ghost inits0 = self.result.js_initializers@.map_values(|j: JsInitializer| init_view(j));
        let ghost n = *node;
        let ghost scroll: Seq<(Seq<char>, Seq<char>, PropModel, Option<Seq<char>>)> = if n.widget_type@ == "Scrollbar"@ {
            seq![("SimpleBar"@, n.html_id@, PropModel::Json("{}"@), None)]
        } else {
            Seq::empty()
        };
        let ghost clip: Seq<(Seq<char>, Seq<char>, PropModel, Option<Seq<char>>)> = match n.props.get_spec("responsive_clip_path"@) {
            Some(v) => seq![("ResponsiveClipPath"@, n.html_id@, v, None)],
            None => Seq::empty(),
        };
        if node.widget_type == String::from_str("Scrollbar") {
            self.result.js_initializers.push(
                JsInitializer {
                    init_type: String::from_str("SimpleBar"),
                    target_id: node.html_id.clone(),
                    data: PropValue::Json(String::from_str("{}")),
                    before_id: None,
                },
            );
        }
        assert(self.result.js_initializers@.map_values(|j: JsInitializer| init_view(j)) =~= inits0
            + scroll);
        let ghost after_scroll = self.result.js_initializers@.map_values(|j: JsInitializer| init_view(j));
        match node.props.get(&String::from_str("responsive_clip_path")) {
            Some(v) => {
                self.result.js_initializers.push(
                    JsInitializer {
                        init_type: String::from_str("ResponsiveClipPath"),
                        target_id: node.html_id.clone(),
                        data: v.duplicate(),
                        before_id: None,
                    },
                );
            },
            None => {},
        }
        assert(self.result.js_initializers@.map_values(|j: JsInitializer| init_view(j)) =~= after_scroll
            + clip);
        let ghost after_clip = self.result.js_initializers@.map_values(|j: JsInitializer| init_view(j));
        match node.props.get(&String::from_str("_js_init")) {
            Some(v) => {
                self.result.js_initializers.push(
                    JsInitializer {
                        init_type: String::from_str("generic"),
                        target_id: node.html_id.clone(),
                        data: v.duplicate(),
                        before_id: None,
                    },
                );
            },
            None => {},
        }
        assert(self.result.js_initializers@.map_values(|j: JsInitializer| init_view(j)) =~= inits0
            + initializers_for(*node));
        assert(result_view(self.result) =~~= with_inits(result_view(start0.result), *node));
    }

    /// Records `node` in the new rendered map with its initializers and
    /// registrations; a renderable node also gets an insert under `parent_html_id`.
    fn insert_node(
        &mut self,
        node: &RustNodeData,
        before_id: Option<String>,
        parent_html_id: &String,
        stored: RustNodeData,
    )
        requires
            node_index(old(self).new_tree.nodes@, node.key@) >= 0,
            stored.html_id@ == node.html_id@,
            stored.html@ == node.html@,
            stored.widget_type@ == node.widget_type@,
            stored.key@ == node.key@,
            props_view(stored.props) == props_view(node.props),
        ensures
            final(self).result.lifecycle_calls@ == old(self).result.lifecycle_calls@,
            final(self).map_step(old(self)),
            final(self).same_inputs(old(self)),
            extends(old(self).result.patches@, final(self).result.patches@),
            inserts_from(final(self).result.patches@, old(self).result.patches@.len() as int),
            key_in(old(self).wrapper_kinds@, node.widget_type@) ==> final(self).result.patches@ == old(
                self,
            ).result.patches@,
            !key_in(old(self).wrapper_kinds@, node.widget_type@) ==> {
                &&& final(self).result.patches@.len() == old(self).result.patches@.len() + 1
                &&& inserted_as(
                    final(self).result.patches@.last(),
                    *node,
                    parent_html_id@,
                    opt_view(before_id),
                )
            },
            result_view(final(self).result) == with_insert(
                old(self).inputs(),
                result_view(old(self).result),
                *node,
                node_view(stored),
                parent_html_id@,
                opt_view(before_id),
            ),
            final(self).result.new_rendered_map.contains_spec(node.key@),
    {
        let ghost start = self.result.patches@;
        let ghost v0 = result_view(self.result);
        self.queue_js_initializers(node);
        self.collect_details(node);
        if self.is_renderable_type(&node.widget_type) {
            let props = node.props.duplicate();
            let ghost gp = props;
            let ghost gb = opt_view(before_id);
            self.result.patches.push(
                RustPatch {
                    html_id: node.html_id.clone(),
                    data: PatchData::Insert {
                        html: node.html.clone(),
                        parent_html_id: parent_html_id.clone(),
                        props,
                        before_id,
                    },
                },
            );
            proof {
                lemma_extends_push(start, self.result.patches@.last());
                lemma_same_props_view(gp, node.props);
                assert(views(self.result.patches@) =~= views(start).push(patch_view(self.result.patches@.last())));
            }
        } else {
            assert(self.result.patches@.subrange(0, start.len() as int) =~= start);
            assert(views(self.result.patches@) =~= views(start));
        }
        let ghost map0 = self.result.new_rendered_map;
        let ghost gs = stored;
        self.result.new_rendered_map.insert(stored);
        proof {
            lemma_map_insert(map0, self.result.new_rendered_map, gs);
            let v1 = with_registered(v0, *node, node_view(gs));
            if !key_in(self.wrapper_kinds@, node.widget_type@) {
                assert(result_view(self.result) =~~= push_patch(
                    v1,
                    PatchView::Insert {
                        id: node_view(gs).html_id,
                        html: node_view(gs).html,
                        parent: parent_html_id@,
                        props: node_view(gs).props,
                        before: opt_view(before_id),
                    },
                ));
            } else {
                assert(result_view(self.result) =~~= v1);
            }
        }
    }

    /// Records a node that replaces another under its key, under the render id
    /// `html_id`: no insert of its own.
    fn register_replacement(&mut self, node: &RustNodeData, html_id: &String)
        requires
            node_index(old(self).new_tree.nodes@, node.key@) >= 0,
        ensures
            result_view(final(self).result) == with_registered(
                result_view(old(self).result),
                *node,
                NodeView { html_id: html_id@, ..node_view(*node) },
            ),
            final(self).result.lifecycle_calls@ == old(self).result.lifecycle_calls@,
            final(self).map_step(old(self)),
            final(self).same_inputs(old(self)),
            final(self).result.patches@ == old(self).result.patches@,
            final(self).result.new_rendered_map.contains_spec(node.key@),
    {
        let ghost v0 = result_view(self.result);
        self.queue_js_initializers(node);
        self.collect_details(node);
        let mut stored = node.duplicate();
        stored.html_id = html_id.clone();
        let ghost map0 = self.result.new_rendered_map;
        let ghost gs = stored;
        self.result.new_rendered_map.insert(stored);
        proof {
            lemma_map_insert(map0, self.result.new_rendered_map, gs);
            lemma_same_props_view(gs.props, node.props);
            assert(node_view(gs) == NodeView { html_id: html_id@, ..node_view(*node) });
            assert(result_view(self.result) =~~= with_registered(
                v0,
                *node,
                NodeView { html_id: html_id@, ..node_view(*node) },
            ));
        }
    }

    /// The parent render id for the children of `node`: its own where it is
    /// renderable, else the one that it resolves to.
    fn child_parent_of(&self, node: &RustNodeData) -> (r: String)
        requires
            self.wf(),
        ensures
            r@ == child_parent_in(self.inputs(), result_view(self.result), node_view(*node)),
    {
        if self.is_renderable_type(&node.widget_type) {
            node.html_id.clone()
        } else {
            self.resolve_parent_html_by_parent_key(&node.parent_key, &node.parent_html_id)
        }
    }

    /// Updates a node that both trees hold with one kind.
    fn update_node(&mut self, old_node: &RustNodeData, new_node: &RustNodeData, fuel: usize)
        requires
            old(self).wf(),
            node_index(old(self).new_tree.nodes@, new_node.key@) >= 0,
        ensures
            final(self).map_step(old(self)),
            final(self).result.new_rendered_map.contains_spec(new_node.key@),
            calls_extend(old(self).result.lifecycle_calls@, final(self).result.lifecycle_calls@),
            (new_node.widget_type@ == "StatefulWidget"@ && new_node.widget_instance is Some) ==> {
                &&& final(self).result.lifecycle_calls@.len() > old(self).result.lifecycle_calls@.len()
                &&& match final(self).result.lifecycle_calls@[old(self).result.lifecycle_calls@.len() as int] {
                    LifecycleCall::PropsChanged { widget_instance, old_props } => Some(widget_instance)
                        == new_node.widget_instance && same_props(old_props, old_node.props),
                    _ => false,
                }
            },
            final(self).same_inputs(old(self)),
            extends(old(self).result.patches@, final(self).result.patches@),
            (old(self).self_diff() && *old_node == *new_node && keys_distinct(
                new_node.children_keys@,
            )) ==> final(self).result.patches@ == old(self).result.patches@,
            (!key_in(old(self).wrapper_kinds@, new_node.widget_type@) && props_differ(
                old_node.props,
                new_node.props,
            )) ==> final(self).result.patches@.len() > old(self).result.patches@.len()
                && updated_as(
                final(self).result.patches@[old(self).result.patches@.len() as int],
                *new_node,
                *old_node,
            ),
            result_view(final(self).result) == sd_update(
                old(self).inputs(),
                result_view(old(self).result),
                *old_node,
                *new_node,
                fuel as nat,
            ),
        decreases fuel, 1int,
    {
        let ghost start = *self;
        let ghost c = start.inputs();
        self.collect_details(new_node);
        let ghost v1 = result_view(self.result);
        if new_node.widget_type == String::from_str("StatefulWidget") {
            match new_node.widget_instance {
                Some(h) => {
                    self.result.lifecycle_calls.push(
                        LifecycleCall::PropsChanged {
                            widget_instance: h,
                            old_props: old_node.props.duplicate(),
                        },
                    );
                },
                None => {},
            }
        }
        let ghost v2 = result_view(self.result);
        proof {
            if new_node.widget_type@ == "StatefulWidget"@ && new_node.widget_instance is Some {
                assert(v2 =~~= ResultView {
                    calls: v1.calls.push(CallView::PropsChanged {
                        instance: new_node.widget_instance->0,
                        old_props: props_view(old_node.props),
                    }),
                    ..v1
                }) by {
                    let l = self.result.lifecycle_calls@.last();
                    match l {
                        LifecycleCall::PropsChanged { widget_instance, old_props } => {
                            lemma_same_props_view(old_props, old_node.props);
                        },
                        _ => {},
                    }
                    assert(self.result.lifecycle_calls@.map_values(|c: LifecycleCall| call_view(c)) =~= v1.calls.push(
                        call_view(l),
                    ));
                }
            } else {
                assert(v2 =~~= v1);
            }
        }
        if self.is_renderable_type(&new_node.widget_type) && diff_props(
            &old_node.props,
            &new_node.props,
        ) {
            let ghost pre = self.result.patches@;
            let props = new_node.props.duplicate();
            let old_props = old_node.props.duplicate();
            let ghost gp = props;
            let ghost go = old_props;
            self.result.patches.push(
                RustPatch {
                    html_id: new_node.html_id.clone(),
                    data: PatchData::Update { props, old_props },
                },
            );
            proof {
                lemma_extends_push(pre, self.result.patches@.last());
                lemma_same_props_view(gp, new_node.props);
                lemma_same_props_view(go, old_node.props);
                assert(views(self.result.patches@) =~= views(pre).push(patch_view(self.result.patches@.last())));
            }
        } else {
            assert(self.result.patches@.subrange(0, start.result.patches@.len() as int)
                =~= start.result.patches@);
        }
        let ghost v3 = result_view(self.result);
        let child_parent = self.child_parent_of(new_node);
        let ghost map0 = self.result.new_rendered_map;
        let stored = new_node.duplicate();
        let ghost gs = stored;
        self.result.new_rendered_map.insert(stored);
        proof {
            lemma_map_insert(map0, self.result.new_rendered_map, gs);
            lemma_same_props_view(gs.props, new_node.props);
            assert(node_view(gs) == node_view(*new_node));
            assert(result_view(self.result) =~~= ResultView { map: v3.map.insert(new_node.key@, node_view(*new_node)), ..v3 });
        }
        let ghost m1 = *self;
        assert(m1.map_step(&start));
        let ghost mid = self.result.patches@;
        self.diff_children(
            &old_node.children_keys,
            &new_node.children_keys,
            &child_parent,
            &new_node.key,
            fuel,
        );
        proof {
            lemma_map_trans(
                start.result.new_rendered_map,
                m1.result.new_rendered_map,
                self.result.new_rendered_map,
                start.new_tree.nodes@,
            );
            assert(m1.result.new_rendered_map.contains_spec(new_node.key@));
            assert(calls_extend(start.result.lifecycle_calls@, m1.result.lifecycle_calls@)) by {
                assert(m1.result.lifecycle_calls@.subrange(0, start.result.lifecycle_calls@.len() as int)
                    =~= start.result.lifecycle_calls@);
            }
            lemma_calls_trans(start.result.lifecycle_calls@, m1.result.lifecycle_calls@, self.result.lifecycle_calls@);
            let l0 = start.result.lifecycle_calls@.len() as int;
            if l0 < m1.result.lifecycle_calls@.len() {
                assert(self.result.lifecycle_calls@.subrange(0, m1.result.lifecycle_calls@.len() as int)[l0]
                    == self.result.lifecycle_calls@[l0]);
            }
            lemma_extends_trans(start.result.patches@, mid, self.result.patches@);
            let n = start.result.patches@.len() as int;
            if n < mid.len() {
                assert(self.result.patches@.subrange(0, mid.len() as int)[n] == self.result.patches@[n]);
            }
        }
    }

    /// Diffs the node that both trees may hold under `key`.
    fn diff_node(&mut self, key: &String, fuel: usize)
        requires
            old(self).wf(),
        ensures
            final(self).same_inputs(old(self)),
            extends(old(self).result.patches@, final(self).result.patches@),
            old(self).self_diff() ==> final(self).result.patches@ == old(self).result.patches@,
            ({
                let oi = old(self).old_tree.index_of(key@);
                let ni = old(self).new_tree.index_of(key@);
                (oi >= 0 && ni >= 0 && old(self).old_tree.nodes@[oi].widget_type@ != old(self).new_tree.nodes@[ni].widget_type@) ==> final(self).replace_then_inserts(
                    old(self),
                    old(self).old_tree.nodes@[oi].html_id@,
                    old(self).new_tree.nodes@[ni],
                )
            }),
            ({
                let oi = old(self).old_tree.index_of(key@);
                let ni = old(self).new_tree.index_of(key@);
                &&& (oi < 0 && ni >= 0) ==> inserts_from(
                    final(self).result.patches@,
                    old(self).result.patches@.len() as int,
                )
                &&& (oi >= 0 && ni < 0) ==> final(self).result.patches@ == old(self).result.patches@.push(
                    RustPatch {
                        html_id: old(self).old_tree.nodes@[oi].html_id,
                        data: PatchData::Remove,
                    },
                )
                &&& (oi < 0 && ni < 0) ==> final(self).result.patches@ == old(self).result.patches@
            }),
            result_view(final(self).result) == sd_node(
                old(self).inputs(),
                result_view(old(self).result),
                key@,
                fuel as nat,
            ),
            final(self).map_step(old(self)),
            old(self).new_tree.index_of(key@) >= 0 ==> final(self).result.new_rendered_map.contains_spec(key@),
            calls_extend(old(self).result.lifecycle_calls@, final(self).result.lifecycle_calls@),
        decreases fuel, 2int,
    {
        let ghost start = *self;
        let ghost v0 = result_view(self.result);
        let old_tree = self.old_tree;
        let new_tree = self.new_tree;
        match (old_tree.get(key), new_tree.get(key)) {
            (None, Some(node)) => {
                let resolved = self.resolve_parent_html_by_parent_key(
                    &node.parent_key,
                    &node.parent_html_id,
                );
                let stored = node.duplicate();
                proof {
                    lemma_same_props_view(stored.props, node.props);
                    assert(node_view(stored) == node_view(*node));
                }
                self.insert_node(node, None, &resolved, stored);
                let ghost m1 = *self;
                let child_parent = if self.is_renderable_type(&node.widget_type) {
                    node.html_id.clone()
                } else {
                    resolved
                };
                let ghost mid = self.result.patches@;
                let empty: Vec<String> = Vec::new();
                assert(empty@ =~= Seq::<String>::empty());
                self.diff_children(&empty, &node.children_keys, &child_parent, &node.key, fuel);
                proof {
                    assert(m1.result.lifecycle_calls@.subrange(0, start.result.lifecycle_calls@.len() as int)
                        =~= start.result.lifecycle_calls@);
                    lemma_calls_trans(start.result.lifecycle_calls@, m1.result.lifecycle_calls@, self.result.lifecycle_calls@);
                    lemma_map_trans(
                        start.result.new_rendered_map,
                        m1.result.new_rendered_map,
                        self.result.new_rendered_map,
                        start.new_tree.nodes@,
                    );
                    lemma_extends_trans(start.result.patches@, mid, self.result.patches@);
                    lemma_inserts_trans(
                        start.result.patches@,
                        mid,
                        self.result.patches@,
                        start.result.patches@.len() as int,
                    );
                }
            },
            (Some(old_node), Some(new_node)) => {
                if old_node.widget_type != new_node.widget_type || old_node.key != new_node.key {
                    let ghost n0 = start.result.patches@.len();
                    let new_props = new_node.props.duplicate();
                    let ghost gp = new_props;
                    self.result.patches.push(
                        RustPatch {
                            html_id: old_node.html_id.clone(),
                            data: PatchData::Replace { new_html: new_node.html.clone(), new_props },
                        },
                    );
                    proof {
                        lemma_extends_push(start.result.patches@, self.result.patches@.last());
                        lemma_same_props_view(gp, new_node.props);
                        assert(views(self.result.patches@) =~= views(start.result.patches@).push(
                            patch_view(self.result.patches@.last()),
                        ));
                    }
                    let ghost m0 = *self;
                    proof {
                        assert(result_view(self.result) =~~= push_patch(
                            v0,
                            PatchView::Replace { id: old_node.html_id@, html: new_node.html@, props: props_view(new_node.props) },
                        ));
                    }
                    self.register_replacement(new_node, &old_node.html_id);
                    let ghost m1 = *self;
                    let child_parent = if self.is_renderable_type(&new_node.widget_type) {
                        old_node.html_id.clone()
                    } else {
                        self.resolve_parent_html_by_parent_key(&new_node.parent_key, &new_node.parent_html_id)
                    };
                    let ghost mid = self.result.patches@;
                    let empty: Vec<String> = Vec::new();
                    assert(empty@ =~= Seq::<String>::empty());
                    self.diff_children(
                        &empty,
                        &new_node.children_keys,
                        &child_parent,
                        &new_node.key,
                        fuel,
                    );
                    proof {
                        assert(m1.result.lifecycle_calls@.subrange(0, start.result.lifecycle_calls@.len() as int)
                            =~= start.result.lifecycle_calls@);
                        lemma_calls_trans(start.result.lifecycle_calls@, m1.result.lifecycle_calls@, self.result.lifecycle_calls@);
                        assert(m0.result.new_rendered_map == start.result.new_rendered_map);
                        lemma_map_trans(
                            start.result.new_rendered_map,
                            m1.result.new_rendered_map,
                            self.result.new_rendered_map,
                            start.new_tree.nodes@,
                        );
                        lemma_extends_trans(start.result.patches@, mid, self.result.patches@);
                        assert(self.result.patches@.subrange(0, mid.len() as int)[n0 as int]
                            == self.result.patches@[n0 as int]);
                        assert forall|i: int| n0 + 1 <= i < self.result.patches@.len() implies (
                        #[trigger] self.result.patches@[i]).data is Insert by {
                            assert(i >= mid.len());
                        }
                    }
                } else {
                    self.update_node(old_node, new_node, fuel);
                }
            },
            (Some(old_node), None) => {
                self.result.patches.push(
                    RustPatch { html_id: old_node.html_id.clone(), data: PatchData::Remove },
                );
                proof {
                    assert(self.result.lifecycle_calls@.subrange(0, start.result.lifecycle_calls@.len() as int)
                        =~= start.result.lifecycle_calls@);
                    lemma_extends_push(start.result.patches@, self.result.patches@.last());
                    assert(views(self.result.patches@) =~= views(start.result.patches@).push(
                        patch_view(self.result.patches@.last()),
                    ));
                    assert(result_view(self.result) =~~= push_patch(v0, PatchView::Remove { id: old_node.html_id@ }));
                }
            },
            (None, None) => {
                assert(self.result.lifecycle_calls@.subrange(0, start.result.lifecycle_calls@.len() as int)
                    =~= start.result.lifecycle_calls@);
                assert(self.result.patches@.subrange(0, start.result.patches@.len() as int)
                    =~= start.result.patches@);
            },
        }
    }

    /// Diffs a node's old child list against its new one: removes, moves and
    /// inserts children, and diffs each child that stays.
    fn diff_children(
        &mut self,
        old_keys: &Vec<String>,
        new_keys: &Vec<String>,
        parent_html_id: &String,
        parent_key: &String,
        fuel: usize,
    )
        requires
            old(self).wf(),
        ensures
            final(self).same_inputs(old(self)),
            extends(old(self).result.patches@, final(self).result.patches@),
            old_keys@.len() == 0 ==> inserts_from(
                final(self).result.patches@,
                old(self).result.patches@.len() as int,
            ),
            (old(self).self_diff() && old_keys@ == new_keys@ && keys_distinct(new_keys@))
                ==> final(self).result.patches@ == old(self).result.patches@,
            result_view(final(self).result) == sd_children(
                old(self).inputs(),
                result_view(old(self).result),
                old_keys@,
                new_keys@,
                parent_html_id@,
                parent_key@,
                fuel as nat,
            ),
            final(self).map_step(old(self)),
            calls_extend(old(self).result.lifecycle_calls@, final(self).result.lifecycle_calls@),
            fuel > 0 ==> forall|x: int|
                0 <= x < new_keys@.len() && node_index(old(self).new_tree.nodes@, new_keys@[x]@) >= 0
                    ==> #[trigger] final(self).result.new_rendered_map.contains_spec(new_keys@[x]@),
        decreases fuel, 0int,
    {
        let ghost start = *self;
        let ghost n0 = start.result.patches@.len() as int;
        let ghost same = start.self_diff() && old_keys@ == new_keys@ && keys_distinct(new_keys@);
        assert(self.result.patches@.subrange(0, n0) =~= start.result.patches@);
        assert(self.result.lifecycle_calls@.subrange(0, start.result.lifecycle_calls@.len() as int)
            =~= start.result.lifecycle_calls@);
        if fuel == 0 || (old_keys.len() == 0 && new_keys.len() == 0) {
            return ;
        }
        let old_tree = self.old_tree;
        let new_tree = self.new_tree;
        let plan = plan_children(old_keys, new_keys);
        proof {
            if same {
                lemma_same_list_plan(new_keys@, plan.steps@);
            }
        }
        let mut j: usize = 0;
        while j < old_keys.len()
            invariant
                self.wf(),
                self.same_inputs(&start),
                old_tree == self.old_tree,
                n0 == start.result.patches@.len(),
                extends(start.result.patches@, self.result.patches@),
                same ==> self.result.patches@ == start.result.patches@,
                same ==> old_keys@ == new_keys@,
                self.result.new_rendered_map == start.result.new_rendered_map,
                self.result.lifecycle_calls@ == start.result.lifecycle_calls@,
                result_view(self.result) == (ResultView {
                    patches: result_view(start.result).patches + gone_views(
                        old_tree.nodes@,
                        old_keys@.subrange(0, j as int),
                        new_keys@,
                    ),
                    ..result_view(start.result)
                }),
                j <= old_keys@.len(),
                plan.gone@.len() == old_keys@.len(),
                forall|x: int|
                    0 <= x < old_keys@.len() ==> plan.gone@[x] == !key_in(
                        new_keys@,
                        (#[trigger] old_keys@[x])@,
                    ),
            decreases old_keys.len() - j,
        {
            proof {
                let pre_keys = old_keys@.subrange(0, j + 1);
                assert(pre_keys.drop_last() =~= old_keys@.subrange(0, j as int));
                assert(pre_keys.last() == old_keys@[j as int]);
            }
            let ghost before = self.result.patches@;
            assert(views(before) =~= views(start.result.patches@) + gone_views(
                old_tree.nodes@,
                old_keys@.subrange(0, j as int),
                new_keys@,
            ));
            if plan.gone[j] {
                proof {
                    if same {
                        assert(new_keys@[j as int]@ == old_keys@[j as int]@);
                    }
                }
                match old_tree.get(&old_keys[j]) {
                    Some(n) => {
                        let ghost pre = self.result.patches@;
                        self.result.patches.push(
                            RustPatch { html_id: n.html_id.clone(), data: PatchData::Remove },
                        );
                        proof {
                            lemma_extends_push(pre, self.result.patches@.last());
                            lemma_extends_trans(start.result.patches@, pre, self.result.patches@);
                            assert(views(self.result.patches@) =~= views(pre).push(
                                patch_view(self.result.patches@.last()),
                            ));
                        }
                    },
                    None => {},
                }
            }
            assert(views(self.result.patches@) =~= views(start.result.patches@) + gone_views(
                old_tree.nodes@,
                old_keys@.subrange(0, j + 1),
                new_keys@,
            ));
            assert(result_view(self.result) =~~= (ResultView {
                patches: result_view(start.result).patches + gone_views(
                    old_tree.nodes@,
                    old_keys@.subrange(0, j + 1),
                    new_keys@,
                ),
                ..result_view(start.result)
            }));
            j = j + 1;
        }
        assert(old_keys@.subrange(0, old_keys@.len() as int) =~= old_keys@);
        let ghost base = self.result.patches@;
        let ghost c = start.inputs();
        let ghost target = sd_children_from(
            c,
            result_view(self.result),
            old_keys@,
            new_keys@,
            parent_html_id@,
            parent_key@,
            fuel as nat,
            0,
        );
        assert(base.subrange(0, base.len() as int) =~= base);
        assert(sd_children(c, result_view(start.result), old_keys@, new_keys@, parent_html_id@, parent_key@, fuel as nat) == target);
        if new_keys.len() == 0 {
            return ;
        }
        let mut i: usize = 0;
        while i < new_keys.len()
            invariant
                self.wf(),
                self.same_inputs(&start),
                old_tree == self.old_tree,
                new_tree == self.new_tree,
                fuel > 0,
                n0 == start.result.patches@.len(),
                extends(start.result.patches@, self.result.patches@),
                extends(base, self.result.patches@),
                old_keys@.len() == 0 ==> inserts_from(self.result.patches@, n0),
                same ==> self.result.patches@ == start.result.patches@,
                same ==> start.self_diff(),
                c == start.inputs(),
                i <= new_keys@.len(),
                target == sd_children(c, result_view(start.result), old_keys@, new_keys@, parent_html_id@, parent_key@, fuel as nat),
                sd_children_from(
                    c,
                    result_view(self.result),
                    old_keys@,
                    new_keys@,
                    parent_html_id@,
                    parent_key@,
                    fuel as nat,
                    i as int,
                ) == target,
                plan.steps@ == plan_steps(old_keys@, new_keys@),
                plan.steps@.len() == new_keys@.len(),
                self.map_step(&start),
                calls_extend(start.result.lifecycle_calls@, self.result.lifecycle_calls@),
                forall|x: int|
                    0 <= x < i && node_index(start.new_tree.nodes@, new_keys@[x]@) >= 0
                        ==> #[trigger] self.result.new_rendered_map.contains_spec(new_keys@[x]@),
                same ==> forall|x: int| 0 <= x < new_keys@.len() ==> (#[trigger] plan.steps@[x]) is Keep,
                forall|x: int|
                    0 <= x < new_keys@.len() ==> match #[trigger] plan.steps@[x] {
                        ChildStep::New => !key_in(old_keys@, new_keys@[x]@),
                        ChildStep::Keep { .. } => key_in(old_keys@, new_keys@[x]@),
                        ChildStep::Move { .. } => key_in(old_keys@, new_keys@[x]@),
                    },
            decreases new_keys.len() - i,
        {
            let ghost pre = self.result.patches@;
            let ghost pv = result_view(self.result);
            let ghost e0 = *self;
            let before_id: Option<String> = if i + 1 < new_keys.len() {
                match new_tree.get(&new_keys[i + 1]) {
                    Some(n) => Some(n.html_id.clone()),
                    None => None,
                }
            } else {
                None
            };
            let ghost gb = opt_view(before_id);
            assert(gb == before_in(c, new_keys@, i as int));
            assert(plan.steps@[i as int] == plan_step(old_keys@, new_keys@, i as int));
            match plan.steps[i] {
                ChildStep::Keep { .. } => {
                    self.diff_node(&new_keys[i], fuel - 1);
                    proof {
                        lemma_extends_trans(start.result.patches@, pre, self.result.patches@);
                        lemma_extends_trans(base, pre, self.result.patches@);
                        assert(sd_children_from(c, pv, old_keys@, new_keys@, parent_html_id@, parent_key@, fuel as nat, i as int)
                            == sd_children_from(c, result_view(self.result), old_keys@, new_keys@, parent_html_id@, parent_key@, fuel as nat, i + 1));
                        if old_keys@.len() == 0 {
                            assert(key_in(old_keys@, new_keys@[i as int]@));
                        }
                    }
                },
                ChildStep::Move { .. } => {
                    proof {
                        if same {
                            assert(plan.steps@[i as int] is Keep);
                        }
                        if old_keys@.len() == 0 {
                            assert(key_in(old_keys@, new_keys@[i as int]@));
                        }
                    }
                    match new_tree.get(&new_keys[i]) {
                        Some(n) => {
                            self.result.patches.push(
                                RustPatch {
                                    html_id: n.html_id.clone(),
                                    data: PatchData::Move {
                                        parent_html_id: parent_html_id.clone(),
                                        before_id,
                                    },
                                },
                            );
                            proof {
                                lemma_extends_push(pre, self.result.patches@.last());
                                assert(views(self.result.patches@) =~= views(pre).push(
                                    patch_view(self.result.patches@.last()),
                                ));
                                assert(result_view(self.result) =~~= push_patch(
                                    pv,
                                    PatchView::Move { id: n.html_id@, parent: parent_html_id@, before: gb },
                                ));
                            }
                        },
                        None => {
                            assert(self.result.patches@.subrange(0, pre.len() as int) =~= pre);
                        },
                    }
                    let ghost mid = self.result.patches@;
                    self.diff_node(&new_keys[i], fuel - 1);
                    proof {
                        lemma_extends_trans(pre, mid, self.result.patches@);
                        lemma_extends_trans(start.result.patches@, pre, self.result.patches@);
                        lemma_extends_trans(base, pre, self.result.patches@);
                        assert(sd_children_from(c, pv, old_keys@, new_keys@, parent_html_id@, parent_key@, fuel as nat, i as int)
                            == sd_children_from(c, result_view(self.result), old_keys@, new_keys@, parent_html_id@, parent_key@, fuel as nat, i + 1));
                    }
                },
                ChildStep::New => {
                    proof {
                        if same {
                            assert(plan.steps@[i as int] is Keep);
                        }
                    }
                    match new_tree.get(&new_keys[i]) {
                        Some(node) => {
                            let parent = Some(parent_key.clone());
                            let resolved = self.resolve_parent_html_by_parent_key(
                                &parent,
                                parent_html_id,
                            );
                            let mut copy = node.duplicate();
                            copy.parent_html_id = resolved.clone();
                            copy.parent_key = parent;
                            let ghost gcopy = copy;
                            proof {
                                lemma_same_props_view(gcopy.props, node.props);
                                assert(node_view(gcopy) == (NodeView {
                                    parent_html_id: resolved@,
                                    parent_key: Some(parent_key@),
                                    ..node_view(*node)
                                }));
                            }
                            self.insert_node(node, before_id, &resolved, copy);
                            let ghost m1 = *self;
                            let child_parent = if self.is_renderable_type(&node.widget_type) {
                                node.html_id.clone()
                            } else {
                                resolved
                            };
                            let ghost mid = self.result.patches@;
                            let empty: Vec<String> = Vec::new();
                            assert(empty@ =~= Seq::<String>::empty());
                            self.diff_children(
                                &empty,
                                &node.children_keys,
                                &child_parent,
                                &new_keys[i],
                                fuel - 1,
                            );
                            proof {
                                assert(m1.result.lifecycle_calls@.subrange(0, e0.result.lifecycle_calls@.len() as int)
                                    =~= e0.result.lifecycle_calls@);
                                lemma_calls_trans(e0.result.lifecycle_calls@, m1.result.lifecycle_calls@, self.result.lifecycle_calls@);
                                lemma_map_trans(
                                    e0.result.new_rendered_map,
                                    m1.result.new_rendered_map,
                                    self.result.new_rendered_map,
                                    start.new_tree.nodes@,
                                );
                                assert(m1.result.new_rendered_map.contains_spec(new_keys@[i as int]@));
                                lemma_extends_trans(pre, mid, self.result.patches@);
                                lemma_extends_trans(start.result.patches@, pre, self.result.patches@);
                                lemma_extends_trans(base, pre, self.result.patches@);
                                assert(sd_children_from(c, pv, old_keys@, new_keys@, parent_html_id@, parent_key@, fuel as nat, i as int)
                                    == sd_children_from(c, result_view(self.result), old_keys@, new_keys@, parent_html_id@, parent_key@, fuel as nat, i + 1));
                                lemma_inserts_trans(pre, mid, self.result.patches@, pre.len() as int);
                                if old_keys@.len() == 0 {
                                    lemma_inserts_trans(
                                        start.result.patches@,
                                        pre,
                                        self.result.patches@,
                                        n0,
                                    );
                                }
                            }
                        },
                        None => {
                            assert(self.result.patches@.subrange(0, pre.len() as int) =~= pre);
                        },
                    }
                },
            }
            proof {
                assert(self.result.lifecycle_calls@.subrange(0, e0.result.lifecycle_calls@.len() as int)
                    =~= e0.result.lifecycle_calls@ || calls_extend(e0.result.lifecycle_calls@, self.result.lifecycle_calls@));
                lemma_calls_trans(start.result.lifecycle_calls@, e0.result.lifecycle_calls@, self.result.lifecycle_calls@);
                lemma_map_trans(
                    start.result.new_rendered_map,
                    e0.result.new_rendered_map,
                    self.result.new_rendered_map,
                    start.new_tree.nodes@,
                );
                assert forall|x: int|
                    0 <= x < i + 1 && node_index(start.new_tree.nodes@, new_keys@[x]@) >= 0 implies
                    #[trigger] self.result.new_rendered_map.contains_spec(new_keys@[x]@) by {
                    if x < i {
                        assert(e0.result.new_rendered_map.contains_spec(new_keys@[x]@));
                    }
                }
            }
            i = i + 1;
        }
    }

    /// Diffs the two trees from `root_key`, then orders the inserts so that each
    /// parent's comes before its children's.
    pub fn reconcile(&mut self, root_key: &Option<String>)
        requires
            old(self).wf(),
        ensures
            final(self).same_inputs(old(self)),
            (old(self).self_diff() && old(self).result.patches@.len() == 0) ==> final(self).result.patches@.len() == 0,
            (old(self).old_tree.nodes@.len() == 0 && old(self).result.patches@.len() == 0) ==> forall|k: int|
                0 <= k < final(self).result.patches@.len() ==> (#[trigger] final(self).result.patches@[k]).data is Insert,
            root_key is None ==> *final(self) == *old(self),
            final(self).map_step(old(self)),
            root_key is Some && old(self).new_tree.index_of(root_key->0@) >= 0
                ==> final(self).result.new_rendered_map.contains_spec(root_key->0@),
            root_key is Some ==> result_view(final(self).result) == (ResultView {
                patches: result_view(final(self).result).patches,
                ..sd_node(
                    old(self).inputs(),
                    result_view(old(self).result),
                    root_key->0@,
                    (old(self).new_tree.nodes@.len() + 1) as nat,
                )
            }),
            root_key is Some ==> exists|diffed: Seq<RustPatch>, order: Seq<usize>|
                views(diffed) == sd_node(
                    old(self).inputs(),
                    result_view(old(self).result),
                    root_key->0@,
                    (old(self).new_tree.nodes@.len() + 1) as nat,
                ).patches && #[trigger] is_permutation(order, diffed.len() as int) && (forall|k: int|
                    0 <= k < final(self).result.patches@.len() ==> #[trigger] final(self).result.patches@[k]
                        == diffed[order[k] as int]) && final(self).result.patches@.len() == diffed.len()
                    && (acyclic(diffed) ==> parents_first(diffed, order)) && keeps_others_in_order(diffed, order),
    {
        let ghost start = self.result.patches@;
        let root = match root_key {
            Some(root) => root,
            None => {
                return ;
            },
        };
        let fuel = self.new_tree.len() + 1;
        self.diff_node(root, fuel);
        let ghost sv = result_view(self.result);
        proof {
            if self.old_tree.nodes@.len() == 0 && start.len() == 0 {
                assert(inserts_from(self.result.patches@, 0)) by {
                    lemma_node_index_range(self.old_tree.nodes@, root@);
                }
            }
        }
        let mut diffed: Vec<RustPatch> = Vec::new();
        std::mem::swap(&mut diffed, &mut self.result.patches);
        let ghost d = diffed@;
        self.result.patches = reorder_patches_parent_first(diffed);
        proof {
            let order = choose|order: Seq<usize>|
                #[trigger] is_permutation(order, d.len() as int) && (forall|k: int|
                    0 <= k < self.result.patches@.len() ==> #[trigger] self.result.patches@[k]
                        == d[order[k] as int]) && (acyclic(d) ==> parents_first(d, order)) && keeps_others_in_order(d, order);
            if self.old_tree.nodes@.len() == 0 && start.len() == 0 {
                assert forall|k: int| 0 <= k < self.result.patches@.len() implies (
                #[trigger] self.result.patches@[k]).data is Insert by {
                    assert(self.result.patches@[k] == d[order[k] as int]);
                    assert(order[k] < d.len());
                }
            }
            assert(is_permutation(order, d.len() as int) && (forall|k: int|
                0 <= k < self.result.patches@.len() ==> #[trigger] self.result.patches@[k] == d[order[k] as int])
                && self.result.patches@.len() == d.len() && (acyclic(d) ==> parents_first(d, order))
                && keeps_others_in_order(d, order));
            assert(result_view(self.result) =~~= (ResultView { patches: result_view(self.result).patches, ..sv }));
        }
    }

    /// The result that the pass has produced.
    pub fn into_result(self) -> (r: RustReconciliationResult)
        ensures
            r == self.result,
    {
        self.result
    }
}

} // verus!
