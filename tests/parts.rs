use rust_reconciler::children::{plan_children, ChildStep};
use rust_reconciler::lis::longest_increasing_subsequence;
use rust_reconciler::types::{NodeMap, PatchAction, PatchData, Prop, PropMap, PropValue, RustNodeData, RustPatch};
use rust_reconciler::order::reorder_patches_parent_first;

fn s(x: &str) -> String {
    x.to_string()
}

fn props(entries: &[(&str, PropValue)]) -> PropMap {
    let mut m = PropMap::new();
    for (k, v) in entries {
        m.insert(s(k), v.clone());
    }
    m
}

fn node(key: &str, id: &str, kind: &str, parent_key: Option<&str>, children: &[&str]) -> RustNodeData {
    RustNodeData {
        html_id: s(id),
        html: format!("<div id=\"{}\"></div>", id),
        widget_type: s(kind),
        key: s(key),
        widget_instance: Some(1),
        props: PropMap::new(),
        parent_html_id: s("root-container"),
        parent_key: parent_key.map(s),
        children_keys: children.iter().map(|c| s(c)).collect(),
    }
}

fn insert(id: &str, parent: &str) -> RustPatch {
    RustPatch {
        html_id: s(id),
        data: PatchData::Insert { html: String::new(), parent_html_id: s(parent), props: PropMap::new(), before_id: None },
    }
}

fn remove(id: &str) -> RustPatch {
    RustPatch { html_id: s(id), data: PatchData::Remove }
}

#[test]
fn lis_of_empty_is_empty() {
    assert_eq!(longest_increasing_subsequence(&[]), Vec::<usize>::new());
}

#[test]
fn lis_returns_positions_not_values() {
    assert_eq!(longest_increasing_subsequence(&[1, 0, 2]), vec![0, 2]);
}

#[test]
fn lis_of_sorted_input_is_everything() {
    assert_eq!(longest_increasing_subsequence(&[0, 1, 2, 3]), vec![0, 1, 2, 3]);
}

#[test]
fn lis_of_reversed_input_has_length_one() {
    assert_eq!(longest_increasing_subsequence(&[3, 2, 1, 0]).len(), 1);
}

#[test]
fn lis_finds_a_longest_run() {
    let seq = [3, 4, 0, 1, 2, 9, 5];
    let r = longest_increasing_subsequence(&seq);
    assert_eq!(r.len(), 4);
    for w in r.windows(2) {
        assert!(w[0] < w[1]);
        assert!(seq[w[0]] < seq[w[1]]);
    }
}

#[test]
fn plan_moves_equal_matched_minus_lis() {
    let old: Vec<String> = ["A", "B", "C", "D", "E"].iter().map(|x| s(x)).collect();
    let new: Vec<String> = ["E", "A", "B", "X", "C", "D"].iter().map(|x| s(x)).collect();
    let plan = plan_children(&old, &new);
    let moves = plan.steps.iter().filter(|st| matches!(st, ChildStep::Move { .. })).count();
    let news = plan.steps.iter().filter(|st| matches!(st, ChildStep::New)).count();
    // matched old positions in new order: [4, 0, 1, 2, 3]; the longest run has 4
    assert_eq!(moves, 5 - 4);
    assert_eq!(news, 1);
    assert!(matches!(plan.steps[0], ChildStep::Move { old_index: 4 }));
    assert_eq!(plan.gone, vec![false; 5]);
}

#[test]
fn plan_marks_gone_children() {
    let old: Vec<String> = ["A", "B", "C"].iter().map(|x| s(x)).collect();
    let new: Vec<String> = ["C"].iter().map(|x| s(x)).collect();
    let plan = plan_children(&old, &new);
    assert_eq!(plan.gone, vec![true, true, false]);
    assert!(matches!(plan.steps[0], ChildStep::Keep { old_index: 2 }));
}

#[test]
fn plan_of_swapped_pair_moves_the_first_matched_out_of_order() {
    let old: Vec<String> = ["A", "B", "C"].iter().map(|x| s(x)).collect();
    let new: Vec<String> = ["B", "A", "C"].iter().map(|x| s(x)).collect();
    let plan = plan_children(&old, &new);
    assert!(matches!(plan.steps[0], ChildStep::Keep { old_index: 1 }));
    assert!(matches!(plan.steps[1], ChildStep::Move { old_index: 0 }));
    assert!(matches!(plan.steps[2], ChildStep::Keep { old_index: 2 }));
}

#[test]
fn reorder_puts_parent_insert_first() {
    let patches = vec![insert("c", "b"), remove("x"), insert("b", "a"), insert("a", "root")];
    let r = reorder_patches_parent_first(patches);
    let ids: Vec<&str> = r.iter().map(|p| p.html_id.as_str()).collect();
    assert_eq!(ids, vec!["a", "b", "c", "x"]);
}

#[test]
fn reorder_keeps_an_ordered_list() {
    let patches = vec![insert("a", "root"), remove("x"), insert("b", "a"), insert("c", "b")];
    let r = reorder_patches_parent_first(patches);
    let ids: Vec<&str> = r.iter().map(|p| p.html_id.as_str()).collect();
    assert_eq!(ids, vec!["a", "x", "b", "c"]);
}

#[test]
fn reorder_keeps_non_inserts_in_order() {
    let patches = vec![remove("x"), remove("y"), insert("c", "b"), remove("z"), insert("b", "root")];
    let r = reorder_patches_parent_first(patches);
    let ids: Vec<&str> = r.iter().map(|p| p.html_id.as_str()).collect();
    assert_eq!(ids, vec!["x", "y", "b", "c", "z"]);
}

#[test]
fn reorder_of_a_cycle_keeps_every_patch() {
    let patches = vec![insert("a", "b"), insert("b", "a")];
    let r = reorder_patches_parent_first(patches);
    assert_eq!(r.len(), 2);
}

#[test]
fn patch_action_names() {
    assert_eq!(PatchAction::Insert.to_string(), "INSERT");
    assert_eq!(PatchAction::Remove.to_string(), "REMOVE");
    assert_eq!(PatchAction::Update.to_string(), "UPDATE");
    assert_eq!(PatchAction::Move.to_string(), "MOVE");
    assert_eq!(PatchAction::Replace.to_string(), "REPLACE");
    assert_eq!(remove("x").action(), PatchAction::Remove);
}

#[test]
fn prop_map_later_entry_wins() {
    let m = props(&[("a", PropValue::Str(s("1"))), ("a", PropValue::Str(s("2")))]);
    assert!(m.get(&s("a")).unwrap().same_as(&PropValue::Str(s("2"))));
    assert!(m.get(&s("b")).is_none());
    assert!(m.contains_key(&s("a")));
}

#[test]
fn get_prop_reports_a_missing_property() {
    let mut n = node("k", "id", "Text", None, &[]);
    n.props = props(&[("data", PropValue::Str(s("hi")))]);
    assert!(n.get_prop(&s("data")).is_ok());
    match n.get_prop(&s("nope")) {
        Err(rust_reconciler::types::ReconcilerError::PropError { property, details }) => {
            assert_eq!(property, "nope");
            assert_eq!(details, "Property not found");
        }
        _ => panic!("expected a property error"),
    }
}

#[test]
fn node_map_get_finds_last_node_with_key() {
    let mut m = NodeMap::new();
    m.insert(node("k", "first", "Text", None, &[]));
    m.insert(node("k", "second", "Text", None, &[]));
    assert_eq!(m.get(&s("k")).unwrap().html_id, "second");
    assert!(!m.contains_key(&s("other")));
}

#[test]
fn values_compare_structurally() {
    assert!(PropValue::Null.same_as(&PropValue::Null));
    assert!(!PropValue::Null.same_as(&PropValue::Bool(false)));
    assert!(PropValue::Json(s("[1,2]")).same_as(&PropValue::Json(s("[1,2]"))));
    assert!(!PropValue::Json(s("1")).same_as(&PropValue::Str(s("1"))));
    assert!(PropValue::Null.is_null());
    assert_eq!(PropValue::Str(s("x")).as_str().unwrap(), "x");
}
