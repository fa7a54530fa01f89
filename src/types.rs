//! The values that the engine reads and writes: properties, nodes, trees, patches,
//! and the accumulated result of one pass.
use vstd::prelude::*;

verus! {

/// A property value. Strings and null are read by the engine; numbers, lists and
/// maps are only compared, and are held by their canonical JSON text.
#[derive(Clone, Debug)]
pub enum PropValue {
    Null,
    Bool(bool),
    Str(String),
    Json(String),
}

/// What a property value is, for contracts.
pub enum PropModel {
    Null,
    Bool(bool),
    Str(Seq<char>),
    Json(Seq<char>),
}

impl View for PropValue {
    type V = PropModel;

    open spec fn view(&self) -> PropModel {
        match self {
            PropValue::Null => PropModel::Null,
            PropValue::Bool(b) => PropModel::Bool(*b),
            PropValue::Str(s) => PropModel::Str(s@),
            PropValue::Json(s) => PropModel::Json(s@),
        }
    }
}

impl PropValue {
    /// Structural equality of two values.
    pub fn same_as(&self, other: &PropValue) -> (r: bool)
        ensures
            r == (self@ == other@),
    {
        match (self, other) {
            (PropValue::Null, PropValue::Null) => true,
            (PropValue::Bool(a), PropValue::Bool(b)) => *a == *b,
            (PropValue::Str(a), PropValue::Str(b)) => a.eq(b),
            (PropValue::Json(a), PropValue::Json(b)) => a.eq(b),
            _ => false,
        }
    }

    /// A copy of the value.
    pub fn duplicate(&self) -> (r: PropValue)
        ensures
            r@ == self@,
    {
        match self {
            PropValue::Null => PropValue::Null,
            PropValue::Bool(b) => PropValue::Bool(*b),
            PropValue::Str(t) => PropValue::Str(t.clone()),
            PropValue::Json(t) => PropValue::Json(t.clone()),
        }
    }

    pub fn is_null(&self) -> (r: bool)
        ensures
            r == (self@ is Null),
    {
        match self {
            PropValue::Null => true,
            _ => false,
        }
    }

    /// The text of a string value.
    pub fn as_str(&self) -> (r: Option<&String>)
        ensures
            match self@ {
                PropModel::Str(s) => r is Some && r->0@ == s,
                _ => r is None,
            },
    {
        match self {
            PropValue::Str(s) => Some(s),
            _ => None,
        }
    }
}

/// One named property.
#[derive(Clone, Debug)]
pub struct Prop {
    pub name: String,
    pub value: PropValue,
}

/// A property map. Where a name occurs twice, the later entry holds.
#[derive(Clone, Debug)]
pub struct PropMap {
    pub entries: Vec<Prop>,
}

/// The value of `name` among `entries`: the last entry with that name.
pub open spec fn prop_lookup(entries: Seq<Prop>, name: Seq<char>) -> Option<PropModel>
    decreases entries.len(),
{
    if entries.len() == 0 {
        None
    } else if entries.last().name@ == name {
        Some(entries.last().value@)
    } else {
        prop_lookup(entries.drop_last(), name)
    }
}

/// Some entry of `entries` has this name.
pub open spec fn has_prop_name(entries: Seq<Prop>, name: Seq<char>) -> bool {
    exists|i: int| 0 <= i < entries.len() && (#[trigger] entries[i]).name@ == name
}

pub proof fn lemma_lookup_none(entries: Seq<Prop>, name: Seq<char>)
    ensures
        prop_lookup(entries, name) is None <==> !has_prop_name(entries, name),
    decreases entries.len(),
{
    if entries.len() > 0 {
        lemma_lookup_none(entries.drop_last(), name);
        if has_prop_name(entries, name) && entries.last().name@ != name {
            let i = choose|i: int| 0 <= i < entries.len() && (#[trigger] entries[i]).name@ == name;
            assert(entries.drop_last()[i] == entries[i]);
        }
        if has_prop_name(entries.drop_last(), name) {
            let i = choose|i: int|
                0 <= i < entries.drop_last().len() && (#[trigger] entries.drop_last()[i]).name@
                    == name;
            assert(entries[i] == entries.drop_last()[i]);
        }
    }
}

impl PropMap {
    pub open spec fn get_spec(&self, name: Seq<char>) -> Option<PropModel> {
        prop_lookup(self.entries@, name)
    }

    pub fn new() -> (r: PropMap)
        ensures
            r.entries@.len() == 0,
    {
        PropMap { entries: Vec::new() }
    }

    /// Sets `name` to `value`.
    pub fn insert(&mut self, name: String, value: PropValue)
        ensures
            final(self).get_spec(name@) == Some(value@),
            forall|other: Seq<char>|
                other != name@ ==> final(self).get_spec(other) == old(self).get_spec(other),
    {
        let ghost before = self.entries@;
        self.entries.push(Prop { name, value });
        assert(self.entries@.drop_last() =~= before);
    }

    /// The value of `name`, if the map holds it.
    pub fn get(&self, name: &String) -> (r: Option<&PropValue>)
        ensures
            match r {
                Some(v) => self.get_spec(name@) == Some(v@),
                None => self.get_spec(name@) is None,
            },
    {
        let mut i: usize = self.entries.len();
        assert(self.entries@.subrange(0, i as int) =~= self.entries@);
        while i > 0
            invariant
                i <= self.entries.len(),
                prop_lookup(self.entries@.subrange(0, i as int), name@) == self.get_spec(name@),
            decreases i,
        {
            let ghost pre = self.entries@.subrange(0, i as int);
            assert(pre.drop_last() =~= self.entries@.subrange(0, i - 1));
            if self.entries[i - 1].name == *name {
                return Some(&self.entries[i - 1].value);
            }
            i = i - 1;
        }
        None
    }

    pub fn contains_key(&self, name: &String) -> (r: bool)
        ensures
            r == (self.get_spec(name@) is Some),
    {
        self.get(name).is_some()
    }

    /// A copy of the map.
    pub fn duplicate(&self) -> (r: PropMap)
        ensures
            same_props(r, *self),
    {
        let mut entries: Vec<Prop> = Vec::new();
        let mut i: usize = 0;
        while i < self.entries.len()
            invariant
                i <= self.entries@.len(),
                entries@.len() == i,
                forall|x: int|
                    0 <= x < i ==> (#[trigger] entries@[x]).name@ == self.entries@[x].name@
                        && entries@[x].value@ == self.entries@[x].value@,
            decreases self.entries.len() - i,
        {
            let e = &self.entries[i];
            entries.push(Prop { name: e.name.clone(), value: e.value.duplicate() });
            i = i + 1;
        }
        let r = PropMap { entries };
        proof {
            lemma_same_entries(r.entries@, self.entries@);
        }
        r
    }
}

/// Two maps give every name the same value.
pub open spec fn same_props(a: PropMap, b: PropMap) -> bool {
    forall|name: Seq<char>| #[trigger] a.get_spec(name) == b.get_spec(name)
}

proof fn lemma_same_entries(a: Seq<Prop>, b: Seq<Prop>)
    requires
        a.len() == b.len(),
        forall|x: int|
            0 <= x < a.len() ==> (#[trigger] a[x]).name@ == b[x].name@ && a[x].value@ == b[x].value@,
    ensures
        forall|name: Seq<char>| #[trigger] prop_lookup(a, name) == prop_lookup(b, name),
    decreases a.len(),
{
    if a.len() > 0 {
        assert forall|x: int| 0 <= x < a.drop_last().len() implies (#[trigger] a.drop_last()[x]).name@
            == b.drop_last()[x].name@ && a.drop_last()[x].value@ == b.drop_last()[x].value@ by {
            assert(a.drop_last()[x] == a[x]);
            assert(b.drop_last()[x] == b[x]);
        }
        lemma_same_entries(a.drop_last(), b.drop_last());
        let k = a.len() - 1;
        assert(a[k].name@ == b[k].name@ && a[k].value@ == b[k].value@);
        assert forall|name: Seq<char>| #[trigger] prop_lookup(a, name) == prop_lookup(b, name) by {
            assert(prop_lookup(a.drop_last(), name) == prop_lookup(b.drop_last(), name));
        }
    }
}

/// `e` is the error that says that property `name` is missing.
pub open spec fn prop_error_missing(name: Seq<char>, e: ReconcilerError) -> bool {
    match e {
        ReconcilerError::PropError { property, details } => property@ == name && details@
            == "Property not found"@,
        _ => false,
    }
}

/// One node of a tree snapshot.
#[derive(Clone, Debug)]
pub struct RustNodeData {
    /// The render id of the node's materialised representation.
    pub html_id: String,
    /// The node's representation text.
    pub html: String,
    /// The node's kind.
    pub widget_type: String,
    pub key: String,
    /// A handle of the node's live instance, in a table that the caller owns.
    pub widget_instance: Option<u64>,
    pub props: PropMap,
    pub parent_html_id: String,
    pub parent_key: Option<String>,
    pub children_keys: Vec<String>,
}

impl RustNodeData {
    /// A copy of the node.
    pub fn duplicate(&self) -> (r: RustNodeData)
        ensures
            r.html_id@ == self.html_id@,
            r.html@ == self.html@,
            r.widget_type@ == self.widget_type@,
            r.key@ == self.key@,
            r.widget_instance == self.widget_instance,
            same_props(r.props, self.props),
            r.parent_html_id@ == self.parent_html_id@,
            r.parent_key == self.parent_key,
            r.children_keys@ == self.children_keys@,
    {
        let parent_key = match &self.parent_key {
            Some(k) => Some(k.clone()),
            None => None,
        };
        let mut children_keys: Vec<String> = Vec::new();
        let mut i: usize = 0;
        while i < self.children_keys.len()
            invariant
                i <= self.children_keys@.len(),
                children_keys@ == self.children_keys@.subrange(0, i as int),
            decreases self.children_keys.len() - i,
        {
            children_keys.push(self.children_keys[i].clone());
            assert(children_keys@ =~= self.children_keys@.subrange(0, i + 1));
            i = i + 1;
        }
        assert(self.children_keys@.subrange(0, i as int) =~= self.children_keys@);
        RustNodeData {
            html_id: self.html_id.clone(),
            html: self.html.clone(),
            widget_type: self.widget_type.clone(),
            key: self.key.clone(),
            widget_instance: self.widget_instance,
            props: self.props.duplicate(),
            parent_html_id: self.parent_html_id.clone(),
            parent_key,
            children_keys,
        }
    }

    /// The property `key`, or a property error.
    pub fn get_prop(&self, key: &String) -> (r: Result<&PropValue, ReconcilerError>)
        ensures
            match r {
                Ok(v) => self.props.get_spec(key@) == Some(v@),
                Err(e) => self.props.get_spec(key@) is None && prop_error_missing(key@, e),
            },
    {
        match self.props.get(key) {
            Some(v) => Ok(v),
            None => Err(
                ReconcilerError::PropError {
                    property: key.clone(),
                    details: String::from_str("Property not found"),
                },
            ),
        }
    }
}

/// A tree snapshot: nodes by key. Where a key occurs twice, the later node holds.
#[derive(Clone, Debug)]
pub struct NodeMap {
    pub nodes: Vec<RustNodeData>,
}

/// The position of the node with key `k`: the last one, or -1.
pub open spec fn node_index(nodes: Seq<RustNodeData>, k: Seq<char>) -> int
    decreases nodes.len(),
{
    if nodes.len() == 0 {
        -1
    } else if nodes.last().key@ == k {
        nodes.len() - 1
    } else {
        node_index(nodes.drop_last(), k)
    }
}

pub proof fn lemma_node_index_range(nodes: Seq<RustNodeData>, k: Seq<char>)
    ensures
        -1 <= node_index(nodes, k) < nodes.len(),
        node_index(nodes, k) >= 0 ==> nodes[node_index(nodes, k)].key@ == k,
        node_index(nodes, k) == -1 ==> forall|i: int|
            0 <= i < nodes.len() ==> (#[trigger] nodes[i]).key@ != k,
    decreases nodes.len(),
{
    if nodes.len() > 0 {
        lemma_node_index_range(nodes.drop_last(), k);
        if node_index(nodes, k) == -1 {
            assert forall|i: int| 0 <= i < nodes.len() implies (#[trigger] nodes[i]).key@ != k by {
                if i < nodes.len() - 1 {
                    assert(nodes.drop_last()[i] == nodes[i]);
                }
            }
        }
    }
}

impl NodeMap {
    pub open spec fn index_of(&self, k: Seq<char>) -> int {
        node_index(self.nodes@, k)
    }

    pub open spec fn contains_spec(&self, k: Seq<char>) -> bool {
        self.index_of(k) >= 0
    }

    pub fn new() -> (r: NodeMap)
        ensures
            r.nodes@.len() == 0,
    {
        NodeMap { nodes: Vec::new() }
    }

    pub fn len(&self) -> (r: usize)
        ensures
            r == self.nodes@.len(),
    {
        self.nodes.len()
    }

    /// The node with key `k`.
    pub fn get(&self, k: &String) -> (r: Option<&RustNodeData>)
        ensures
            -1 <= self.index_of(k@) < self.nodes@.len(),
            match r {
                Some(n) => self.index_of(k@) >= 0 && *n == self.nodes@[self.index_of(k@)]
                    && n.key@ == k@,
                None => self.index_of(k@) == -1,
            },
    {
        proof {
            lemma_node_index_range(self.nodes@, k@);
        }
        let mut i: usize = self.nodes.len();
        assert(self.nodes@.subrange(0, i as int) =~= self.nodes@);
        while i > 0
            invariant
                i <= self.nodes.len(),
                node_index(self.nodes@.subrange(0, i as int), k@) == self.index_of(k@),
            decreases i,
        {
            let ghost pre = self.nodes@.subrange(0, i as int);
            assert(pre.drop_last() =~= self.nodes@.subrange(0, i - 1));
            if self.nodes[i - 1].key == *k {
                return Some(&self.nodes[i - 1]);
            }
            i = i - 1;
        }
        None
    }

    pub fn contains_key(&self, k: &String) -> (r: bool)
        ensures
            r == self.contains_spec(k@),
    {
        self.get(k).is_some()
    }

    /// Records `node` under its key, in place of a node with that key.
    pub fn insert(&mut self, node: RustNodeData)
        ensures
            final(self).contains_spec(node.key@),
            final(self).nodes@[final(self).index_of(node.key@)] == node,
            forall|k: Seq<char>|
                old(self).contains_spec(k) ==> #[trigger] final(self).contains_spec(k),
            forall|k: Seq<char>|
                #[trigger] final(self).contains_spec(k) ==> old(self).contains_spec(k) || k == node.key@,
            final(self).nodes@ == old(self).nodes@.push(node),
    {
        let ghost before = self.nodes@;
        self.nodes.push(node);
        proof {
            assert(self.nodes@.drop_last() =~= before);
            assert forall|k: Seq<char>| node_index(before, k) >= 0 implies #[trigger] node_index(
                self.nodes@,
                k,
            ) >= 0 by {
                lemma_node_index_range(before, k);
            }
        }
    }
}

/// What a patch does.
#[derive(PartialEq, Eq, Structural, Clone, Copy, Debug)]
pub enum PatchAction {
    Insert,
    Remove,
    Update,
    Move,
    Replace,
}

impl PatchAction {
    pub open spec fn name_spec(&self) -> Seq<char> {
        match self {
            PatchAction::Insert => "INSERT"@,
            PatchAction::Remove => "REMOVE"@,
            PatchAction::Update => "UPDATE"@,
            PatchAction::Move => "MOVE"@,
            PatchAction::Replace => "REPLACE"@,
        }
    }

    /// The action's name, in capitals.
    pub fn to_string(&self) -> (r: String)
        ensures
            r@ == self.name_spec(),
    {
        match self {
            PatchAction::Insert => String::from_str("INSERT"),
            PatchAction::Remove => String::from_str("REMOVE"),
            PatchAction::Update => String::from_str("UPDATE"),
            PatchAction::Move => String::from_str("MOVE"),
            PatchAction::Replace => String::from_str("REPLACE"),
        }
    }
}

/// What a patch carries, by action.
#[derive(Clone, Debug)]
pub enum PatchData {
    Insert { html: String, parent_html_id: String, props: PropMap, before_id: Option<String> },
    Remove,
    Update { props: PropMap, old_props: PropMap },
    Move { parent_html_id: String, before_id: Option<String> },
    Replace { new_html: String, new_props: PropMap },
}

/// One edit of the rendered output.
#[derive(Clone, Debug)]
pub struct RustPatch {
    /// The render id of the node that the edit is about.
    pub html_id: String,
    pub data: PatchData,
}

impl RustPatch {
    pub open spec fn action_spec(&self) -> PatchAction {
        match self.data {
            PatchData::Insert { .. } => PatchAction::Insert,
            PatchData::Remove => PatchAction::Remove,
            PatchData::Update { .. } => PatchAction::Update,
            PatchData::Move { .. } => PatchAction::Move,
            PatchData::Replace { .. } => PatchAction::Replace,
        }
    }

    pub fn action(&self) -> (r: PatchAction)
        ensures
            r == self.action_spec(),
    {
        match self.data {
            PatchData::Insert { .. } => PatchAction::Insert,
            PatchData::Remove => PatchAction::Remove,
            PatchData::Update { .. } => PatchAction::Update,
            PatchData::Move { .. } => PatchAction::Move,
            PatchData::Replace { .. } => PatchAction::Replace,
        }
    }
}

/// A request to run a post-render initializer on a rendered node.
#[derive(Clone, Debug)]
pub struct JsInitializer {
    pub init_type: String,
    pub target_id: String,
    pub data: PropValue,
    pub before_id: Option<String>,
}

/// A style class that a node uses; its rule comes from the node's live instance.
#[derive(Clone, Debug)]
pub struct StyleRequest {
    pub css_class: String,
    pub widget_instance: u64,
}

/// A callback that a node names: the instance's method `method`, to be registered
/// under `token`.
#[derive(Clone, Debug)]
pub struct CallbackRequest {
    pub token: String,
    pub method: String,
    pub widget_instance: u64,
}

/// A lifecycle call on a stateful node's live instance.
#[derive(Clone, Debug)]
pub enum LifecycleCall {
    /// The node was updated; its properties were `old_props`.
    PropsChanged { widget_instance: u64, old_props: PropMap },
    /// The node left the tree.
    Dispose { widget_instance: u64 },
}

/// All that one reconciliation pass produces.
#[derive(Clone, Debug)]
pub struct RustReconciliationResult {
    pub patches: Vec<RustPatch>,
    /// The new rendered map: the old tree of the next pass.
    pub new_rendered_map: NodeMap,
    pub style_requests: Vec<StyleRequest>,
    pub callback_requests: Vec<CallbackRequest>,
    pub js_initializers: Vec<JsInitializer>,
    pub lifecycle_calls: Vec<LifecycleCall>,
}

impl RustReconciliationResult {
    pub fn new() -> (r: RustReconciliationResult)
        ensures
            r.patches@.len() == 0,
            r.new_rendered_map.nodes@.len() == 0,
            r.style_requests@.len() == 0,
            r.callback_requests@.len() == 0,
            r.js_initializers@.len() == 0,
            r.lifecycle_calls@.len() == 0,
    {
        RustReconciliationResult {
            patches: Vec::new(),
            new_rendered_map: NodeMap::new(),
            style_requests: Vec::new(),
            callback_requests: Vec::new(),
            js_initializers: Vec::new(),
            lifecycle_calls: Vec::new(),
        }
    }
}

/// What can go wrong at the boundary of the engine.
#[derive(Clone, Debug)]
pub enum ReconcilerError {
    KeyError { details: String },
    PropError { property: String, details: String },
    TypeConversionError { expected: String, actual: String },
    HtmlGenerationError { widget_type: String, details: String },
    SerdeError(String),
    PythonError(String),
}

} // verus!
