use rust_reconciler::diff_engine::{default_wrapper_kinds, diff_props, tree_child_parent, DiffEngine};
use rust_reconciler::reconciler::{find_root, next_id, render_id_for, Reconciler};
use rust_reconciler::types::{LifecycleCall, NodeMap, PatchData, PropMap, PropValue, RustNodeData, RustReconciliationResult};

fn s(x: &str) -> String {
    x.to_string()
}

fn node(key: &str, id: &str, kind: &str, parent_key: Option<&str>, children: &[&str]) -> RustNodeData {
    RustNodeData {
        html_id: s(id),
        html: format!("<div id=\"{}\"></div>", id),
        widget_type: s(kind),
        key: s(key),
        widget_instance: Some(7),
        props: PropMap::new(),
        parent_html_id: s("root-container"),
        parent_key: parent_key.map(s),
        children_keys: children.iter().map(|c| s(c)).collect(),
    }
}

fn tree(nodes: Vec<RustNodeData>) -> NodeMap {
    let mut m = NodeMap::new();
    for n in nodes {
        m.insert(n);
    }
    m
}

fn diff(old: &NodeMap, new: &NodeMap, root: &str, wrappers: Vec<String>) -> RustReconciliationResult {
    let mut engine = DiffEngine::new(old, new, wrappers);
    engine.reconcile(&Some(s(root)));
    engine.into_result()
}

fn abc(order: &[&str]) -> NodeMap {
    tree(vec![
        node("R", "r", "Column", None, order),
        node("A", "a", "Text", Some("R"), &[]),
        node("B", "b", "Text", Some("R"), &[]),
        node("C", "c", "Text", Some("R"), &[]),
    ])
}

#[test]
fn swapped_children_move_one_child() {
    let old = abc(&["A", "B", "C"]);
    let new = abc(&["B", "A", "C"]);
    let r = diff(&old, &new, "R", default_wrapper_kinds());
    assert_eq!(r.patches.len(), 1);
    assert_eq!(r.patches[0].html_id, "a");
    match &r.patches[0].data {
        PatchData::Move { parent_html_id, before_id } => {
            assert_eq!(parent_html_id, "r");
            assert_eq!(before_id.as_deref(), Some("c"));
        }
        _ => panic!("expected a move"),
    }
}

#[test]
fn new_leaf_is_inserted_under_root() {
    let old = tree(vec![node("root", "r0", "Column", None, &[])]);
    let new = tree(vec![
        node("root", "r0", "Column", None, &["leaf"]),
        node("leaf", "l0", "Text", Some("root"), &[]),
    ]);
    let r = diff(&old, &new, "root", default_wrapper_kinds());
    assert_eq!(r.patches.len(), 1);
    assert_eq!(r.patches[0].html_id, "l0");
    match &r.patches[0].data {
        PatchData::Insert { parent_html_id, before_id, .. } => {
            assert_eq!(parent_html_id, "r0");
            assert_eq!(*before_id, None);
        }
        _ => panic!("expected an insert"),
    }
    assert!(r.new_rendered_map.contains_key(&s("leaf")));
}

#[test]
fn kind_change_replaces_without_removing_old_children() {
    let old = tree(vec![
        node("X", "x1", "Panel", None, &["c1", "c2"]),
        node("c1", "c1id", "Text", Some("X"), &[]),
        node("c2", "c2id", "Text", Some("X"), &[]),
    ]);
    let new = tree(vec![
        node("X", "x2", "List", None, &["n1"]),
        node("n1", "n1id", "Text", Some("X"), &[]),
    ]);
    let r = diff(&old, &new, "X", default_wrapper_kinds());
    let replaces: Vec<_> = r.patches.iter().filter(|p| matches!(p.data, PatchData::Replace { .. })).collect();
    let inserts: Vec<_> = r.patches.iter().filter(|p| matches!(p.data, PatchData::Insert { .. })).collect();
    let removes = r.patches.iter().filter(|p| matches!(p.data, PatchData::Remove)).count();
    assert_eq!(replaces.len(), 1);
    assert_eq!(replaces[0].html_id, "x1");
    assert_eq!(inserts.len(), 1);
    assert_eq!(inserts[0].html_id, "n1id");
    assert_eq!(removes, 0);
    assert_eq!(r.patches.len(), 2);
}

#[test]
fn wrapper_child_attaches_past_the_wrapper() {
    let old = tree(vec![node("R", "r", "Column", None, &[])]);
    let new = tree(vec![
        node("R", "r", "Column", None, &["G"]),
        node("G", "g", "Group", Some("R"), &["L"]),
        node("L", "l", "Leaf", Some("G"), &[]),
    ]);
    let mut wrappers = default_wrapper_kinds();
    wrappers.push(s("Group"));
    let r = diff(&old, &new, "R", wrappers);
    assert_eq!(r.patches.len(), 1);
    assert_eq!(r.patches[0].html_id, "l");
    match &r.patches[0].data {
        PatchData::Insert { parent_html_id, .. } => assert_eq!(parent_html_id, "r"),
        _ => panic!("expected an insert"),
    }
}

#[test]
fn diffing_a_tree_against_itself_yields_nothing() {
    let t = abc(&["A", "B", "C"]);
    let r = diff(&t, &t, "R", default_wrapper_kinds());
    assert_eq!(r.patches.len(), 0);
    let rec = Reconciler::new();
    let full = rec.reconcile(&t, &t, &s("root-container"), false, None, default_wrapper_kinds());
    assert_eq!(full.patches.len(), 0);
}

#[test]
fn first_render_inserts_parents_before_children() {
    let old = NodeMap::new();
    let new = tree(vec![
        node("R", "r", "Column", None, &["A"]),
        node("A", "a", "Row", Some("R"), &["B"]),
        node("B", "b", "Text", Some("A"), &[]),
    ]);
    let rec = Reconciler::new();
    let r = rec.reconcile(&old, &new, &s("root-container"), false, None, default_wrapper_kinds());
    let ids: Vec<&str> = r.patches.iter().map(|p| p.html_id.as_str()).collect();
    assert_eq!(ids, vec!["r", "a", "b"]);
    match &r.patches[0].data {
        PatchData::Insert { parent_html_id, .. } => assert_eq!(parent_html_id, "root-container"),
        _ => panic!("expected an insert"),
    }
}

#[test]
fn removed_child_is_removed_once_and_stateful_one_disposed() {
    let old = tree(vec![
        node("R", "r", "Column", None, &["A", "S"]),
        node("A", "a", "Text", Some("R"), &[]),
        node("S", "s", "StatefulWidget", Some("R"), &[]),
    ]);
    let new = tree(vec![node("R", "r", "Column", None, &[])]);
    let rec = Reconciler::new();
    let r = rec.reconcile(&old, &new, &s("root-container"), false, Some(s("R")), default_wrapper_kinds());
    let removed: Vec<&str> = r
        .patches
        .iter()
        .filter(|p| matches!(p.data, PatchData::Remove))
        .map(|p| p.html_id.as_str())
        .collect();
    assert_eq!(removed, vec!["a", "s"]);
    assert!(r.lifecycle_calls.iter().any(|c| matches!(c, LifecycleCall::Dispose { widget_instance: 7 })));
    let partial = rec.reconcile(&old, &new, &s("root-container"), true, Some(s("R")), default_wrapper_kinds());
    assert_eq!(partial.patches.len(), 2);
}

#[test]
fn changed_property_gives_one_update() {
    let old = tree(vec![node("T", "t", "Text", None, &[])]);
    let mut changed = node("T", "t", "Text", None, &[]);
    changed.props.insert(s("data"), PropValue::Str(s("new")));
    let new = tree(vec![changed]);
    let r = diff(&old, &new, "T", default_wrapper_kinds());
    assert_eq!(r.patches.len(), 1);
    assert!(matches!(r.patches[0].data, PatchData::Update { .. }));
}

#[test]
fn ignored_properties_do_not_update() {
    let mut a = PropMap::new();
    a.insert(s("onPressed"), PropValue::Str(s("f")));
    let mut b = PropMap::new();
    b.insert(s("onPressed"), PropValue::Str(s("g")));
    assert!(!diff_props(&a, &b));
    b.insert(s("color"), PropValue::Str(s("red")));
    assert!(diff_props(&a, &b));
    assert!(diff_props(&b, &a));
}

#[test]
fn stateful_update_notifies_with_old_props() {
    let mut old_node = node("S", "s", "StatefulWidget", None, &[]);
    old_node.props.insert(s("count"), PropValue::Json(s("1")));
    let old = tree(vec![old_node]);
    let new = tree(vec![node("S", "s", "StatefulWidget", None, &[])]);
    let r = diff(&old, &new, "S", default_wrapper_kinds());
    assert_eq!(r.patches.len(), 0);
    assert_eq!(r.lifecycle_calls.len(), 1);
    match &r.lifecycle_calls[0] {
        LifecycleCall::PropsChanged { widget_instance, old_props } => {
            assert_eq!(*widget_instance, 7);
            assert!(old_props.contains_key(&s("count")));
        }
        _ => panic!("expected a notification"),
    }
}

#[test]
fn style_classes_and_callbacks_are_requested() {
    let old = NodeMap::new();
    let mut b = node("B", "b", "TextButton", None, &[]);
    b.props.insert(s("css_class"), PropValue::Str(s("  btn  primary ")));
    b.props.insert(s("onPressedName"), PropValue::Str(s("cb_1")));
    b.props.insert(s("onHoverName"), PropValue::Null);
    let new = tree(vec![b]);
    let r = diff(&old, &new, "B", default_wrapper_kinds());
    let classes: Vec<&str> = r.style_requests.iter().map(|q| q.css_class.as_str()).collect();
    assert_eq!(classes, vec!["btn", "primary"]);
    assert_eq!(r.callback_requests.len(), 1);
    assert_eq!(r.callback_requests[0].method, "onPressed");
    assert_eq!(r.callback_requests[0].token, "cb_1");
}

#[test]
fn initializers_are_queued() {
    let old = NodeMap::new();
    let mut n = node("S", "sb", "Scrollbar", None, &[]);
    n.props.insert(s("_js_init"), PropValue::Json(s("{\"a\":1}")));
    let new = tree(vec![n]);
    let r = diff(&old, &new, "S", default_wrapper_kinds());
    let kinds: Vec<&str> = r.js_initializers.iter().map(|j| j.init_type.as_str()).collect();
    assert_eq!(kinds, vec!["SimpleBar", "generic"]);
    assert_eq!(r.js_initializers[0].target_id, "sb");
}

#[test]
fn parent_resolution_falls_back_to_container() {
    let old = NodeMap::new();
    let new = NodeMap::new();
    let engine = DiffEngine::new(&old, &new, default_wrapper_kinds());
    assert_eq!(engine.resolve_parent_html_by_parent_key(&Some(s("missing")), &s("nowhere")), "root-container");
    let old2 = tree(vec![node("P", "p", "Column", None, &[])]);
    let engine2 = DiffEngine::new(&old2, &new, default_wrapper_kinds());
    assert_eq!(engine2.resolve_parent_html_by_parent_key(&None, &s("p")), "p");
    assert_eq!(engine2.resolve_parent_html_by_parent_key(&Some(s("P")), &s("zzz")), "p");
}

#[test]
fn ids_count_up_and_are_reused_by_key() {
    let mut counter: u64 = 0;
    assert_eq!(next_id(&mut counter), "fw_id_0");
    assert_eq!(next_id(&mut counter), "fw_id_1");
    counter = 120;
    assert_eq!(next_id(&mut counter), "fw_id_120");
    assert_eq!(counter, 121);
    let old = tree(vec![node("K", "kept", "Text", None, &[])]);
    assert_eq!(render_id_for(&old, &s("K"), &mut counter), "kept");
    assert_eq!(counter, 121);
    assert_eq!(render_id_for(&old, &s("Z"), &mut counter), "fw_id_121");
}

#[test]
fn root_key_is_found_under_the_parent_id() {
    let t = tree(vec![node("A", "a", "Text", Some("R"), &[]), node("R", "r", "Column", None, &["A"])]);
    assert_eq!(find_root(&t, &s("root-container")), Some(s("R")));
    assert_eq!(find_root(&t, &s("elsewhere")), None);
}

#[test]
fn contexts_can_be_cleared() {
    let mut rec = Reconciler::new();
    assert_eq!(rec.context_maps.len(), 1);
    rec.context_maps.push((s("side"), NodeMap::new()));
    rec.clear_context(&s("main"));
    assert_eq!(rec.context_maps.len(), 1);
    assert_eq!(rec.context_maps[0].0, "side");
    rec.clear_all_contexts();
    assert_eq!(rec.context_maps.len(), 1);
    assert_eq!(rec.context_maps[0].0, "main");
}

#[test]
fn empty_trees_give_an_empty_result() {
    let rec = Reconciler::new();
    let r = rec.reconcile(&NodeMap::new(), &NodeMap::new(), &s("root-container"), false, None, default_wrapper_kinds());
    assert_eq!(r.patches.len(), 0);
    assert_eq!(r.new_rendered_map.len(), 0);
}

#[test]
fn insert_carries_markup_props_and_sibling() {
    let old = tree(vec![node("R", "r", "Column", None, &["B"]), node("B", "b", "Text", Some("R"), &[])]);
    let mut a = node("A", "a", "Text", Some("R"), &[]);
    a.props.insert(s("data"), PropValue::Str(s("hello")));
    let new = tree(vec![node("R", "r", "Column", None, &["A", "B"]), a, node("B", "b", "Text", Some("R"), &[])]);
    let r = diff(&old, &new, "R", default_wrapper_kinds());
    assert_eq!(r.patches.len(), 1);
    match &r.patches[0].data {
        PatchData::Insert { html, parent_html_id, props, before_id } => {
            assert_eq!(html, "<div id=\"a\"></div>");
            assert_eq!(parent_html_id, "r");
            assert_eq!(before_id.as_deref(), Some("b"));
            assert!(props.get(&s("data")).unwrap().same_as(&PropValue::Str(s("hello"))));
        }
        _ => panic!("expected an insert"),
    }
}

#[test]
fn removed_and_inserted_siblings_do_not_share_a_parent_with_a_removal() {
    let old = abc(&["A", "B", "C"]);
    let new = tree(vec![
        node("R", "r", "Column", None, &["C", "D"]),
        node("C", "c", "Text", Some("R"), &[]),
        node("D", "d", "Text", Some("R"), &[]),
    ]);
    let rec = Reconciler::new();
    let r = rec.reconcile(&old, &new, &s("root-container"), false, Some(s("R")), default_wrapper_kinds());
    let removed: Vec<String> = r
        .patches
        .iter()
        .filter(|p| matches!(p.data, PatchData::Remove))
        .map(|p| p.html_id.clone())
        .collect();
    assert!(removed.contains(&s("a")) && removed.contains(&s("b")));
    for p in &r.patches {
        match &p.data {
            PatchData::Insert { parent_html_id, .. } | PatchData::Move { parent_html_id, .. } => {
                assert!(!removed.contains(parent_html_id));
            }
            _ => {}
        }
    }
}

#[test]
fn removal_of_root_child_list_item_comes_first() {
    let old = abc(&["A", "B", "C"]);
    let new = tree(vec![
        node("R", "r", "Column", None, &["C", "B"]),
        node("B", "b", "Text", Some("R"), &[]),
        node("C", "c", "Text", Some("R"), &[]),
    ]);
    let r = diff(&old, &new, "R", default_wrapper_kinds());
    assert_eq!(r.patches[0].html_id, "a");
    assert!(matches!(r.patches[0].data, PatchData::Remove));
    let moves = r.patches.iter().filter(|p| matches!(p.data, PatchData::Move { .. })).count();
    assert_eq!(moves, 1);
}

#[test]
fn children_of_wrappers_attach_to_the_wrapper_parent() {
    let w = default_wrapper_kinds();
    assert_eq!(tree_child_parent(&w, &s("StatelessWidget"), &s("own"), &s("up")), "up");
    assert_eq!(tree_child_parent(&w, &s("Text"), &s("own"), &s("up")), "own");
}

#[test]
fn no_root_key_changes_nothing() {
    let old = abc(&["A", "B", "C"]);
    let new = abc(&["C", "B", "A"]);
    let mut engine = DiffEngine::new(&old, &new, default_wrapper_kinds());
    engine.reconcile(&None);
    let r = engine.into_result();
    assert_eq!(r.patches.len(), 0);
    assert_eq!(r.new_rendered_map.len(), 0);
}

#[test]
fn rendered_map_holds_the_pass_nodes() {
    let old = tree(vec![
        node("X", "x1", "Panel", None, &["c1"]),
        node("c1", "c1id", "Text", Some("X"), &[]),
    ]);
    let new = tree(vec![
        node("X", "x2", "List", None, &["n1"]),
        node("n1", "n1id", "Text", Some("X"), &[]),
    ]);
    let r = diff(&old, &new, "X", default_wrapper_kinds());
    let x = r.new_rendered_map.get(&s("X")).unwrap();
    assert_eq!(x.html_id, "x1");
    assert_eq!(x.widget_type, "List");
    let n1 = r.new_rendered_map.get(&s("n1")).unwrap();
    assert_eq!(n1.parent_key.as_deref(), Some("X"));
    assert_eq!(n1.parent_html_id, "x1");
    assert!(!r.new_rendered_map.contains_key(&s("c1")));
}
