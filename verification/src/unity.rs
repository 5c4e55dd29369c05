use crate::diff::{diff_text, text_report, Context};
use crate::json::{from_serde, JsonValue, JsonView};
use crate::json_diff::{diff_json, json_report};
use crate::names::{
    added_names, common_names, name_changes, names_view, removed_names,
};
use crate::old_new::OldNew;
use crate::text::{
    decimal, ends_with, is_text_before, push_char, push_decimal, str_equal, text_before,
    text_ends_with,
};
use std::collections::HashMap;
use vstd::pervasive::VecAdditionalExecFns;
use vstd::prelude::*;
use vstd::string::StringExecFns;

verus! {

/// `rabex::typetree::TypeTreeNode`, the layout as the container crate
/// holds it.
#[verifier::external_type_specification]
#[verifier::external_body]
pub struct ExTypeTreeNode(rabex::typetree::TypeTreeNode);

/// The order in which the bytes of a number stand in a file.
#[derive(Debug, Clone, Copy, PartialEq, Eq, Structural)]
pub enum ByteOrder {
    /// The byte of least weight stands first.
    Little,
    /// The byte of most weight stands first.
    Big,
}

/// A layout as mathematics sees it.
pub struct LayoutView {
    pub kind: Seq<char>,
    pub name: Seq<char>,
    pub version: i32,
    pub type_flags: i32,
    pub byte_size: i32,
    pub meta_flag: Option<i32>,
    pub ref_type_hash: Option<u64>,
    pub variable_count: Option<i32>,
    pub children: Seq<LayoutView>,
}

/// The layout of a value in the bytes of a component: the name of its
/// type, its own name, what the container says of its size and its flags,
/// and the layouts of its parts.
#[derive(Debug)]
pub struct Layout {
    pub kind: String,
    pub name: String,
    pub version: i32,
    pub type_flags: i32,
    pub byte_size: i32,
    pub meta_flag: Option<i32>,
    pub ref_type_hash: Option<u64>,
    pub variable_count: Option<i32>,
    pub children: Vec<Layout>,
}

/// A layout without a name and without parts.
pub open spec fn no_layout() -> LayoutView {
    LayoutView {
        kind: Seq::empty(),
        name: Seq::empty(),
        version: 0,
        type_flags: 0,
        byte_size: 0,
        meta_flag: None,
        ref_type_hash: None,
        variable_count: None,
        children: Seq::empty(),
    }
}

/// What a layout is seen as: its own fields, and its parts as they are
/// seen.
pub open spec fn layout_view(layout: Layout) -> LayoutView
    decreases layout,
{
    LayoutView {
        kind: layout.kind@,
        name: layout.name@,
        version: layout.version,
        type_flags: layout.type_flags,
        byte_size: layout.byte_size,
        meta_flag: layout.meta_flag,
        ref_type_hash: layout.ref_type_hash,
        variable_count: layout.variable_count,
        children: Seq::new(
            layout.children@.len(),
            |i: int|
                if 0 <= i < layout.children@.len() {
                    layout_view(layout.children[i])
                } else {
                    no_layout()
                },
        ),
    }
}

impl View for Layout {
    type V = LayoutView;

    open spec fn view(&self) -> LayoutView {
        layout_view(*self)
    }
}

impl LayoutView {
    /// Whether the layout has the parts that its shape asks for: a map
    /// holds an array of pairs, and what wraps an array holds its size and
    /// its items; and so for each part, at any depth.
    pub open spec fn is_sound(self) -> bool
        decreases self,
    {
        &&& self.kind == "map"@ ==> self.children.len() >= 1 && self.children[0].children.len()
            >= 2 && self.children[0].children[1].children.len() >= 2
        &&& self.children.len() == 1 && self.children[0].kind == "Array"@
            ==> self.children[0].children.len() >= 2
        &&& forall|i: int|
            0 <= i < self.children.len() ==> (#[trigger] self.children[i]).is_sound()
    }
}

impl Layout {
    /// The parts of a layout are seen as the parts of what the layout is
    /// seen as.
    pub proof fn lemma_children_view(self)
        ensures
            self@.children.len() == self.children@.len(),
            forall|i: int|
                0 <= i < self.children@.len() ==> (#[trigger] self@.children[i])
                    == self.children@[i]@,
    {
    }

    /// Whether the map that the layout describes holds an array of pairs.
    fn map_is_sound(&self) -> (sound: bool)
        ensures
            sound == (self@.children.len() >= 1 && self@.children[0].children.len() >= 2
                && self@.children[0].children[1].children.len() >= 2),
    {
        proof {
            self.lemma_children_view();
        }
        if self.children.len() < 1 {
            return false;
        }
        let array = &self.children[0];
        proof {
            array.lemma_children_view();
        }
        if array.children.len() < 2 {
            return false;
        }
        proof {
            array.children[1].lemma_children_view();
        }
        array.children[1].children.len() >= 2
    }

    /// Whether the array that the layout wraps, if it wraps one, holds its
    /// size and its items.
    fn array_is_sound(&self) -> (sound: bool)
        ensures
            sound == (self@.children.len() == 1 && self@.children[0].kind == "Array"@
                ==> self@.children[0].children.len() >= 2),
    {
        proof {
            self.lemma_children_view();
        }
        if self.children.len() != 1 {
            return true;
        }
        let array = &self.children[0];
        proof {
            array.lemma_children_view();
        }
        !str_equal(array.kind.as_str(), "Array") || array.children.len() >= 2
    }

    /// Whether the layout has the parts that its shape asks for.
    #[verifier::loop_isolation(false)]
    pub fn is_sound(&self) -> (sound: bool)
        ensures
            sound == self@.is_sound(),
        decreases self,
    {
        if str_equal(self.kind.as_str(), "map") && !self.map_is_sound() {
            return false;
        }
        if !self.array_is_sound() {
            return false;
        }
        let mut i: usize = 0;
        while i < self.children.len()
            invariant
                i <= self.children.len(),
                forall|k: int| 0 <= k < i ==> (#[trigger] self@.children[k]).is_sound(),
            decreases self.children.len() - i,
        {
            assert(self@.children[i as int] == self.children[i as int]@);
            if !self.children[i].is_sound() {
                return false;
            }
            i += 1;
        }
        true
    }
}

/// The key by which a component is found again in another version, as
/// mathematics sees it.
pub enum KeyView {
    Script(Seq<char>),
    ClassId(i32),
}

/// The key by which a component of a node is found again in another
/// version: the full name of its script where it has one, and else the
/// number of its kind.
#[derive(Debug, PartialEq, Eq, PartialOrd, Ord)]
pub enum ComponentKey {
    Script(String),
    ClassId(i32),
}

impl View for ComponentKey {
    type V = KeyView;

    open spec fn view(&self) -> KeyView {
        match self {
            ComponentKey::Script(name) => KeyView::Script(name@),
            ComponentKey::ClassId(id) => KeyView::ClassId(*id),
        }
    }
}

/// A component as mathematics sees it.
pub struct ComponentView {
    pub key: KeyView,
    pub class_id: i32,
    pub data: Seq<u8>,
    pub layout: LayoutView,
    pub byte_order: ByteOrder,
}

/// A payload attached to a node: the key it is matched by, the number of its
/// kind, its bytes as they stand in the file, and what is needed to read
/// them.
pub struct Component {
    pub key: ComponentKey,
    pub class_id: i32,
    pub data: Vec<u8>,
    pub layout: Layout,
    pub byte_order: ByteOrder,
}

impl View for Component {
    type V = ComponentView;

    open spec fn view(&self) -> ComponentView {
        ComponentView {
            key: self.key@,
            class_id: self.class_id,
            data: self.data@,
            layout: self.layout@,
            byte_order: self.byte_order,
        }
    }
}

/// A node as mathematics sees it.
pub struct NodeView {
    pub id: int,
    pub name: Seq<char>,
    pub parent: Option<int>,
    pub children: Seq<int>,
    pub components: Seq<ComponentView>,
}

/// A node of a container's tree. Its number is only good inside its own
/// version: the parent and the children are named by their numbers and
/// found through the scene.
pub struct SceneNode {
    pub id: i64,
    pub name: String,
    pub parent: Option<i64>,
    pub children: Vec<i64>,
    pub components: Vec<Component>,
}

impl View for SceneNode {
    type V = NodeView;

    open spec fn view(&self) -> NodeView {
        NodeView {
            id: self.id as int,
            name: self.name@,
            parent: match self.parent {
                Some(p) => Some(p as int),
                None => None,
            },
            children: self.children@.map_values(|c: i64| c as int),
            components: self.components@.map_values(|c: Component| c@),
        }
    }
}

/// All nodes of one version of a container, in the order they were met,
/// and for each number of a node the position of the first node that has
/// it.
pub struct Scene {
    nodes: Vec<SceneNode>,
    positions: HashMap<i64, usize>,
}

/// The nodes that a list of nodes stands for.
pub open spec fn nodes_view(nodes: Seq<SceneNode>) -> Seq<NodeView> {
    nodes.map_values(|n: SceneNode| n@)
}

impl View for Scene {
    type V = Seq<NodeView>;

    closed spec fn view(&self) -> Seq<NodeView> {
        nodes_view(self.nodes@)
    }
}

/// Whether `positions` holds, for each number that a node of `nodes` has,
/// the position of the first such node, and nothing else. Only the first
/// `upto` nodes count.
pub open spec fn is_index(positions: Map<i64, usize>, nodes: Seq<NodeView>, upto: int) -> bool {
    forall|id: i64|
        {
            let first = #[trigger] find_node(nodes, id as int, 0);
            if first < upto {
                positions.contains_key(id) && positions[id] == first
            } else {
                !positions.contains_key(id)
            }
        }
}

/// What `find_node` returns: the position of a node with the number, with
/// no such node between `from` and it; or the number of nodes, where no node
/// from `from` on has the number.
pub proof fn lemma_find_node(nodes: Seq<NodeView>, id: int, from: int)
    requires
        0 <= from,
    ensures
        ({
            let found = find_node(nodes, id, from);
            &&& found <= nodes.len()
            &&& from <= found || found == nodes.len()
            &&& found < nodes.len() ==> nodes[found].id == id
            &&& forall|k: int| from <= k < found && k < nodes.len() ==> (#[trigger] nodes[k]).id != id
        }),
    decreases nodes.len() - from,
{
    if from < nodes.len() && nodes[from].id != id {
        lemma_find_node(nodes, id, from + 1);
    }
}

/// The position of the first node numbered `id`, from position `from` on,
/// or the number of nodes if there is none.
pub open spec fn find_node(nodes: Seq<NodeView>, id: int, from: int) -> int
    decreases nodes.len() - from,
{
    if from < 0 || from >= nodes.len() {
        nodes.len() as int
    } else if nodes[from].id == id {
        from
    } else {
        find_node(nodes, id, from + 1)
    }
}

/// The positions of the nodes that `ids` name, in the order of `ids`; a
/// number that names no node is passed over.
pub open spec fn resolved(nodes: Seq<NodeView>, ids: Seq<int>) -> Seq<int>
    decreases ids.len(),
{
    if ids.len() == 0 {
        Seq::empty()
    } else {
        let head = resolved(nodes, ids.drop_last());
        let pos = find_node(nodes, ids.last(), 0);
        if pos < nodes.len() {
            head.push(pos)
        } else {
            head
        }
    }
}

/// The positions of the nodes without a parent among the first `upto`
/// nodes, in order.
pub open spec fn roots(nodes: Seq<NodeView>, upto: int) -> Seq<int>
    decreases upto,
{
    if upto <= 0 || upto > nodes.len() {
        Seq::empty()
    } else if nodes[upto - 1].parent is None {
        roots(nodes, upto - 1).push(upto - 1)
    } else {
        roots(nodes, upto - 1)
    }
}

/// The names of the nodes at `positions`.
pub open spec fn names_at(nodes: Seq<NodeView>, positions: Seq<int>) -> Seq<Seq<char>> {
    Seq::new(positions.len(), |k: int| nodes[positions[k]].name)
}

/// How many of the first `upto` names are `name`.
pub open spec fn occurrence_of(names: Seq<Seq<char>>, name: Seq<char>, upto: int) -> nat
    decreases upto,
{
    if upto <= 0 || upto > names.len() {
        0
    } else if names[upto - 1] == name {
        occurrence_of(names, name, upto - 1) + 1
    } else {
        occurrence_of(names, name, upto - 1)
    }
}

/// The position, from `from` on, of the name that has `n` equal names
/// between `from` and itself and is `name`; the number of names if there is
/// none.
pub open spec fn nth_named(names: Seq<Seq<char>>, name: Seq<char>, n: nat, from: int) -> int
    decreases names.len() - from,
{
    if from < 0 || from >= names.len() {
        names.len() as int
    } else if names[from] == name {
        if n == 0 {
            from
        } else {
            nth_named(names, name, (n - 1) as nat, from + 1)
        }
    } else {
        nth_named(names, name, n, from + 1)
    }
}

/// Which of the old siblings the new sibling at position `k` is matched
/// with: the one of the same name that has as many siblings of that name
/// before it as the new one has. The number of old siblings if there is
/// none.
pub open spec fn partner(old_names: Seq<Seq<char>>, new_names: Seq<Seq<char>>, k: int) -> int {
    if 0 <= k < new_names.len() {
        nth_named(old_names, new_names[k], occurrence_of(new_names, new_names[k], k), 0)
    } else {
        old_names.len() as int
    }
}

/// The name of a kind of component as the container crate prints it.
pub uninterp spec fn class_id_label(id: i32) -> Seq<char>;

/// The structured value that the container crate reads from the bytes of a
/// component by its layout and byte order, if it can read them.
pub uninterp spec fn typetree_decode(
    data: Seq<u8>,
    layout: LayoutView,
    byte_order: ByteOrder,
) -> Option<JsonView>;

/// Builds the container crate's layout for a layout, field by field.
#[verifier::external_body]
fn to_typetree(layout: &Layout) -> rabex::typetree::TypeTreeNode {
    rabex::typetree::TypeTreeNode {
        m_Type: layout.kind.clone(),
        m_Name: layout.name.clone(),
        m_Version: layout.version,
        m_TypeFlags: layout.type_flags,
        m_ByteSize: layout.byte_size,
        m_MetaFlag: layout.meta_flag,
        m_RefTypeHash: layout.ref_type_hash,
        m_VariableCount: layout.variable_count,
        children: layout.children.iter().map(to_typetree).collect(),
    }
}

/// `ClassId`'s `Debug`: the name of the kind, which depends on its number
/// alone.
#[verifier::external_body]
fn class_label(id: i32) -> (label: String)
    ensures
        label@ == class_id_label(id),
{
    format!("{:?}", rabex::objects::ClassId(id))
}

/// `rabex::serde_typetree::from_reader_endianed`: reads the bytes of a
/// component as a structured value. Whether they can be read, and as which
/// value, depends on the bytes, the layout and the byte order alone. The
/// layout must have the parts that its shape asks for: the crate takes them
/// without looking.
#[verifier::external_body]
fn decode_payload(component: &Component) -> (decoded: Option<JsonValue>)
    requires
        component.layout@.is_sound(),
    ensures
        match decoded {
            Some(value) => typetree_decode(
                component.data@,
                component.layout@,
                component.byte_order,
            ) == Some(value@),
            None => typetree_decode(component.data@, component.layout@, component.byte_order)
                is None,
        },
{
    rabex::serde_typetree::from_reader_endianed::<serde_json::Value>(
        &mut std::io::Cursor::new(&component.data),
        &to_typetree(&component.layout),
        match component.byte_order {
            ByteOrder::Little => rabex::files::serializedfile::Endianness::Little,
            ByteOrder::Big => rabex::files::serializedfile::Endianness::Big,
        },
    ).ok().map(|value| from_serde(&value))
}

/// The structured value that the bytes of a component hold, if its layout
/// is sound and its bytes can be read by it.
pub open spec fn payload(component: ComponentView) -> Option<JsonView> {
    if component.layout.is_sound() {
        typetree_decode(component.data, component.layout, component.byte_order)
    } else {
        None
    }
}

/// Reads the bytes of a component as a structured value.
fn read_payload(component: &Component) -> (decoded: Option<JsonValue>)
    ensures
        match decoded {
            Some(value) => payload(component@) == Some(value@),
            None => payload(component@) is None,
        },
{
    if component.layout.is_sound() {
        decode_payload(component)
    } else {
        None
    }
}

/// Whether key `a` comes before key `b`: a script comes before a kind,
/// scripts go by their names and kinds by their numbers.
pub open spec fn key_before(a: KeyView, b: KeyView) -> bool {
    match (a, b) {
        (KeyView::Script(x), KeyView::Script(y)) => text_before(x, y),
        (KeyView::Script(_), KeyView::ClassId(_)) => true,
        (KeyView::ClassId(_), KeyView::Script(_)) => false,
        (KeyView::ClassId(m), KeyView::ClassId(n)) => m < n,
    }
}

/// The position of the last of the first `upto` components under `key`, or
/// -1 if there is none.
pub open spec fn last_with_key(components: Seq<ComponentView>, key: KeyView, upto: int) -> int
    decreases upto,
{
    if upto <= 0 || upto > components.len() {
        -1
    } else if components[upto - 1].key == key {
        upto - 1
    } else {
        last_with_key(components, key, upto - 1)
    }
}

/// Where `key` goes into keys that are in order: behind the last key that
/// does not come after it.
pub open spec fn key_position(sorted: Seq<KeyView>, key: KeyView) -> int
    decreases sorted.len(),
{
    if sorted.len() == 0 {
        0
    } else if key_before(key, sorted.last()) {
        key_position(sorted.drop_last(), key)
    } else {
        sorted.len() as int
    }
}

/// The keys of the first `upto` components, each once, in order.
pub open spec fn key_list(components: Seq<ComponentView>, upto: int) -> Seq<KeyView>
    decreases upto,
{
    if upto <= 0 || upto > components.len() {
        Seq::empty()
    } else {
        let head = key_list(components, upto - 1);
        let key = components[upto - 1].key;
        if head.contains(key) {
            head
        } else {
            head.insert(key_position(head, key), key)
        }
    }
}

/// How a key reads in a report.
pub open spec fn key_text(key: KeyView) -> Seq<char> {
    match key {
        KeyView::Script(name) => name,
        KeyView::ClassId(id) => class_id_label(id),
    }
}

/// The headline of what a report says of one component of the node at
/// `path`; `what` is the word for what happened to it.
pub open spec fn component_headline(what: Seq<char>, key: KeyView, path: Seq<char>) -> Seq<char> {
    "--- "@ + what + seq![' '] + key_text(key) + " @ '"@ + path + "' ---\n"@
}

/// What a report says of a component that both versions of a node have.
/// Nothing, if the context passes over its kind on either side, or if its
/// bytes are the same. Else both payloads are read and compared: the report holds what
/// differs, if anything does, and one line in place of that where a payload
/// cannot be read.
pub open spec fn component_change(
    cx: Context,
    old: ComponentView,
    new: ComponentView,
    path: Seq<char>,
) -> Seq<char> {
    if cx.unity_filter.ignore_classes@.contains(old.class_id)
        || cx.unity_filter.ignore_classes@.contains(new.class_id) || old.data == new.data {
        Seq::empty()
    } else {
        match (payload(old), payload(new)) {
            (Some(a), Some(b)) => {
                let report = json_report(cx, a, b);
                if report.len() == 0 {
                    Seq::empty()
                } else {
                    component_headline("Changed"@, new.key, path) + report + seq!['\n']
                }
            },
            _ => component_headline("Changed"@, new.key, path) + "changed: could not diff\n"@,
        }
    }
}

/// What a report says of the first `upto` of the keys `keys` of one side:
/// `what` happened to a component under a key that the other side, with the
/// components `others`, lacks.
pub open spec fn one_sided_lines(
    what: Seq<char>,
    keys: Seq<KeyView>,
    others: Seq<ComponentView>,
    path: Seq<char>,
    upto: int,
) -> Seq<char>
    decreases upto,
{
    if upto <= 0 || upto > keys.len() {
        Seq::empty()
    } else {
        let head = one_sided_lines(what, keys, others, path, upto - 1);
        if last_with_key(others, keys[upto - 1], others.len() as int) < 0 {
            head + component_headline(what, keys[upto - 1], path) + seq!['\n']
        } else {
            head
        }
    }
}

/// What a report says of the components under the first `upto` of the old
/// side's keys that both sides have. Under one key the last component of a
/// side counts.
pub open spec fn changed_lines(
    cx: Context,
    keys: Seq<KeyView>,
    old: Seq<ComponentView>,
    new: Seq<ComponentView>,
    path: Seq<char>,
    upto: int,
) -> Seq<char>
    decreases upto,
{
    if upto <= 0 || upto > keys.len() {
        Seq::empty()
    } else {
        let head = changed_lines(cx, keys, old, new, path, upto - 1);
        let i = last_with_key(old, keys[upto - 1], old.len() as int);
        let j = last_with_key(new, keys[upto - 1], new.len() as int);
        if 0 <= i && 0 <= j {
            head + component_change(cx, old[i], new[j], path)
        } else {
            head
        }
    }
}

/// What a report says of the components of a node that both versions have:
/// first the components that only the new version has, then those that only
/// the old version has, then those of both that differ, each group in the
/// order of the keys.
pub open spec fn compare_text(
    cx: Context,
    old: Seq<ComponentView>,
    new: Seq<ComponentView>,
    path: Seq<char>,
) -> Seq<char> {
    let old_keys = key_list(old, old.len() as int);
    let new_keys = key_list(new, new.len() as int);
    one_sided_lines("Added"@, new_keys, old, path, new_keys.len() as int) + one_sided_lines(
        "Removed"@,
        old_keys,
        new,
        path,
        old_keys.len() as int,
    ) + changed_lines(cx, old_keys, old, new, path, old_keys.len() as int)
}

/// The components that a list of components stands for.
pub open spec fn components_view(components: Seq<Component>) -> Seq<ComponentView> {
    components.map_values(|c: Component| c@)
}

/// The number of the kind of component that runs a script.
pub const SCRIPT_CLASS: i32 = 114;

impl ComponentKey {
    /// The key of a component of the kind with the given number: the name
    /// of its script, where it is of the kind that runs scripts and has
    /// one; else the number of its kind.
    pub fn of(class_id: i32, script: Option<String>) -> (key: ComponentKey)
        ensures
            key@ == match script {
                Some(name) if class_id == SCRIPT_CLASS => KeyView::Script(name@),
                _ => KeyView::ClassId(class_id),
            },
    {
        match script {
            Some(name) => if class_id == SCRIPT_CLASS {
                ComponentKey::Script(name)
            } else {
                ComponentKey::ClassId(class_id)
            },
            None => ComponentKey::ClassId(class_id),
        }
    }

    /// Whether the two keys are the same key.
    pub fn same_as(&self, other: &ComponentKey) -> (same: bool)
        ensures
            same == (self@ == other@),
    {
        match (self, other) {
            (ComponentKey::Script(a), ComponentKey::Script(b)) => str_equal(a.as_str(), b.as_str()),
            (ComponentKey::ClassId(a), ComponentKey::ClassId(b)) => *a == *b,
            _ => false,
        }
    }

    /// Whether this key comes before the other.
    pub fn is_before(&self, other: &ComponentKey) -> (before: bool)
        ensures
            before == key_before(self@, other@),
    {
        match (self, other) {
            (ComponentKey::Script(a), ComponentKey::Script(b)) => is_text_before(
                a.as_str(),
                b.as_str(),
            ),
            (ComponentKey::Script(_), ComponentKey::ClassId(_)) => true,
            (ComponentKey::ClassId(_), ComponentKey::Script(_)) => false,
            (ComponentKey::ClassId(a), ComponentKey::ClassId(b)) => *a < *b,
        }
    }
}

/// Whether two lists of bytes hold the same bytes.
fn same_bytes(a: &Vec<u8>, b: &Vec<u8>) -> (same: bool)
    ensures
        same == (a@ == b@),
{
    if a.len() != b.len() {
        return false;
    }
    let mut i: usize = 0;
    while i < a.len()
        invariant
            i <= a.len(),
            a.len() == b.len(),
            forall|k: int| 0 <= k < i ==> a[k] == b[k],
        decreases a.len() - i,
    {
        if a[i] != b[i] {
            return false;
        }
        i += 1;
    }
    assert(a@ =~= b@);
    true
}

/// The position of the last component under `key`.
fn find_last(components: &Vec<Component>, key: &ComponentKey) -> (found: Option<usize>)
    ensures
        match found {
            Some(i) => i < components.len() && i == last_with_key(
                components_view(components@),
                key@,
                components.len() as int,
            ),
            None => last_with_key(components_view(components@), key@, components.len() as int)
                < 0,
        },
{
    let ghost all = components_view(components@);
    let mut upto: usize = components.len();
    while upto > 0
        invariant
            upto <= components.len(),
            all == components_view(components@),
            last_with_key(all, key@, components.len() as int) == last_with_key(
                all,
                key@,
                upto as int,
            ),
        decreases upto,
    {
        if components[upto - 1].key.same_as(key) {
            return Some(upto - 1);
        }
        upto -= 1;
    }
    None
}

/// The keys that the components at the positions `order` stand under.
pub open spec fn keys_at(components: Seq<Component>, order: Seq<usize>) -> Seq<KeyView> {
    Seq::new(order.len(), |k: int| components[order[k] as int].key@)
}

/// For each key of the components, in the order of the keys, the position
/// of a component under it.
fn sorted_keys(components: &Vec<Component>) -> (order: Vec<usize>)
    ensures
        forall|k: int| 0 <= k < order.len() ==> order[k] < components.len(),
        keys_at(components@, order@) == key_list(
            components_view(components@),
            components.len() as int,
        ),
{
    let ghost all = components_view(components@);
    let mut order: Vec<usize> = Vec::new();
    let mut i: usize = 0;
    proof {
        assert(keys_at(components@, order@) =~= Seq::<KeyView>::empty());
    }
    while i < components.len()
        invariant
            i <= components.len(),
            all == components_view(components@),
            forall|k: int| 0 <= k < order.len() ==> order[k] < components.len(),
            keys_at(components@, order@) == key_list(all, i as int),
        decreases components.len() - i,
    {
        let key = &components[i].key;
        let ghost sorted = keys_at(components@, order@);
        let mut known = false;
        let mut k: usize = 0;
        while k < order.len()
            invariant
                k <= order.len(),
                sorted == keys_at(components@, order@),
                forall|m: int| 0 <= m < order.len() ==> order[m] < components.len(),
                known == sorted.take(k as int).contains(key@),
            decreases order.len() - k,
        {
            proof {
                let next = sorted.take(k as int + 1);
                assert(next.drop_last() =~= sorted.take(k as int));
                assert(next.last() == sorted[k as int]);
                if sorted.take(k as int).contains(key@) {
                    let m = choose|m: int|
                        0 <= m < sorted.take(k as int).len() && sorted.take(k as int)[m] == key@;
                    assert(next[m] == key@);
                }
                if next.contains(key@) && sorted[k as int] != key@ {
                    let m = choose|m: int| 0 <= m < next.len() && next[m] == key@;
                    assert(sorted.take(k as int)[m] == key@);
                }
                if sorted[k as int] == key@ {
                    assert(next[k as int] == key@);
                }
            }
            if components[order[k]].key.same_as(key) {
                known = true;
            }
            k += 1;
        }
        proof {
            assert(sorted.take(order.len() as int) =~= sorted);
            assert(all[i as int].key == key@);
        }
        if !known {
            let mut pos: usize = order.len();
            proof {
                assert(sorted.take(pos as int) =~= sorted);
            }
            while pos > 0 && key.is_before(&components[order[pos - 1]].key)
                invariant
                    pos <= order.len(),
                    sorted == keys_at(components@, order@),
                    forall|m: int| 0 <= m < order.len() ==> order[m] < components.len(),
                    key_position(sorted, key@) == key_position(sorted.take(pos as int), key@),
                decreases pos,
            {
                proof {
                    assert(sorted.take(pos as int).drop_last() =~= sorted.take(pos as int - 1));
                    assert(sorted.take(pos as int).last() == sorted[pos as int - 1]);
                }
                pos -= 1;
            }
            proof {
                assert(keys_at(components@, order@.insert(pos as int, i)) =~= sorted.insert(
                    pos as int,
                    key@,
                ));
            }
            order.insert(pos, i);
        }
        i += 1;
    }
    order
}

/// Appends to `out` the headline of what a report says of one component.
fn push_headline(out: &mut String, what: &str, key: &ComponentKey, path: &str)
    ensures
        final(out)@ == old(out)@ + component_headline(what@, key@, path@),
{
    let ghost before = out@;
    out.append("--- ");
    out.append(what);
    push_char(out, ' ');
    match key {
        ComponentKey::Script(name) => {
            out.append(name.as_str());
        },
        ComponentKey::ClassId(id) => {
            let label = class_label(*id);
            out.append(label.as_str());
        },
    }
    out.append(" @ '");
    out.append(path);
    out.append("' ---\n");
    assert(out@ =~= before + component_headline(what@, key@, path@));
}

/// Appends to `out` what a report says of a component that both versions
/// of a node have.
fn push_component_change(
    cx: &Context,
    out: &mut String,
    older: &Component,
    newer: &Component,
    path: &str,
)
    ensures
        final(out)@ == old(out)@ + component_change(*cx, older@, newer@, path@),
{
    let ghost before = out@;
    proof {
        assert(before + Seq::<char>::empty() =~= before);
    }
    if !cx.unity_filter.matches(older.class_id) || !cx.unity_filter.matches(newer.class_id) {
        return ;
    }
    if same_bytes(&older.data, &newer.data) {
        return ;
    }
    match (read_payload(older), read_payload(newer)) {
        (Some(a), Some(b)) => {
            let report = diff_json(cx, OldNew::new(&a, &b));
            if !report.as_str().is_empty() {
                push_headline(out, "Changed", &newer.key, path);
                out.append(report.as_str());
                push_char(out, '\n');
                assert(out@ =~= before + (component_headline("Changed"@, newer.key@, path@)
                    + report@ + seq!['\n']));
            }
        },
        _ => {
            push_headline(out, "Changed", &newer.key, path);
            out.append("changed: could not diff\n");
            assert(out@ =~= before + (component_headline("Changed"@, newer.key@, path@)
                + "changed: could not diff\n"@));
        },
    }
}

/// Appends to `out` what happened to the components of `side` under keys
/// that the other side lacks.
fn push_one_sided(
    out: &mut String,
    what: &str,
    side: &Vec<Component>,
    order: &Vec<usize>,
    others: &Vec<Component>,
    path: &str,
)
    requires
        forall|k: int| 0 <= k < order.len() ==> order[k] < side.len(),
    ensures
        final(out)@ == old(out)@ + one_sided_lines(
            what@,
            keys_at(side@, order@),
            components_view(others@),
            path@,
            order.len() as int,
        ),
{
    let ghost keys = keys_at(side@, order@);
    let ghost rest = components_view(others@);
    let mut k: usize = 0;
    proof {
        assert(out@ + Seq::<char>::empty() =~= out@);
    }
    while k < order.len()
        invariant
            k <= order.len(),
            keys == keys_at(side@, order@),
            rest == components_view(others@),
            forall|m: int| 0 <= m < order.len() ==> order[m] < side.len(),
            out@ == old(out)@ + one_sided_lines(what@, keys, rest, path@, k as int),
        decreases order.len() - k,
    {
        let key = &side[order[k]].key;
        let ghost head = one_sided_lines(what@, keys, rest, path@, k as int);
        proof {
            assert(keys[k as int] == key@);
        }
        if find_last(others, key).is_none() {
            push_headline(out, what, key, path);
            push_char(out, '\n');
            assert(out@ =~= old(out)@ + (head + component_headline(what@, key@, path@) + seq![
                '\n',
            ]));
        }
        k += 1;
    }
}

/// Compares the components of the two versions of a node found at `path`
/// and appends to `out` what differs.
pub fn compare(cx: &Context, out: &mut String, path: &str, data: OldNew<&SceneNode>)
    ensures
        final(out)@ == old(out)@ + compare_text(
            *cx,
            data.old@.components,
            data.new@.components,
            path@,
        ),
{
    let ghost before = out@;
    let older = &data.old.components;
    let newer = &data.new.components;
    let ghost old_all = components_view(older@);
    let ghost new_all = components_view(newer@);
    let old_order = sorted_keys(older);
    let new_order = sorted_keys(newer);
    let ghost old_keys = keys_at(older@, old_order@);
    let ghost new_keys = keys_at(newer@, new_order@);
    push_one_sided(out, "Added", newer, &new_order, older, path);
    push_one_sided(out, "Removed", older, &old_order, newer, path);
    let ghost one_sided = out@;
    let mut k: usize = 0;
    proof {
        assert(out@ + Seq::<char>::empty() =~= out@);
    }
    while k < old_order.len()
        invariant
            k <= old_order.len(),
            old_keys == keys_at(older@, old_order@),
            old_all == components_view(older@),
            new_all == components_view(newer@),
            forall|m: int| 0 <= m < old_order.len() ==> old_order[m] < older.len(),
            out@ == one_sided + changed_lines(*cx, old_keys, old_all, new_all, path@, k as int),
        decreases old_order.len() - k,
    {
        let key = &older[old_order[k]].key;
        let ghost head = changed_lines(*cx, old_keys, old_all, new_all, path@, k as int);
        proof {
            assert(old_keys[k as int] == key@);
        }
        match (find_last(older, key), find_last(newer, key)) {
            (Some(i), Some(j)) => {
                proof {
                    assert(old_all[i as int] == older[i as int]@);
                    assert(new_all[j as int] == newer[j as int]@);
                }
                push_component_change(cx, out, &older[i], &newer[j], path);
                assert(out@ =~= one_sided + (head + component_change(
                    *cx,
                    old_all[i as int],
                    new_all[j as int],
                    path@,
                )));
            },
            _ => {},
        }
        k += 1;
    }
    proof {
        let added = one_sided_lines("Added"@, new_keys, old_all, path@, new_keys.len() as int);
        let removed = one_sided_lines(
            "Removed"@,
            old_keys,
            new_all,
            path@,
            old_keys.len() as int,
        );
        let changed = changed_lines(
            *cx,
            old_keys,
            old_all,
            new_all,
            path@,
            old_keys.len() as int,
        );
        assert(data.old@.components == old_all);
        assert(data.new@.components == new_all);
        assert(out@ =~= before + (added + removed + changed));
    }
}

/// What walking a part of the two trees comes to: the text of the report
/// and the positions of the old nodes that were matched.
pub struct Walk {
    pub text: Seq<char>,
    pub seen: Set<int>,
}

/// The path of a child: the path of its parent, a slash, and its name.
pub open spec fn child_path(parent: Seq<char>, name: Seq<char>) -> Seq<char> {
    parent + seq!['/'] + name
}

/// What a report says of a new node below a matched node that has no
/// partner.
pub open spec fn added_object_line(path: Seq<char>) -> Seq<char> {
    "--- Added Object '"@ + path + "' ---\n"@
}

/// What a report says of a new root that has no partner; `index` is the
/// number of new roots of that name before it.
pub open spec fn added_root_line(name: Seq<char>, index: nat) -> Seq<char> {
    "--- Added Object '"@ + name + "'@"@ + decimal(index) + "\n\n"@
}

/// What a report says of an old node that was not matched.
pub open spec fn removed_object_line(path: Seq<char>) -> Seq<char> {
    "--- Removed object '"@ + path + "' ---\n"@
}

/// What walking a matched pair of nodes comes to: the old node is seen, the
/// components of the two are compared, and then their children are walked.
/// `fuel` bounds how deep the walk goes.
pub open spec fn visit_walk(
    cx: Context,
    old: Seq<NodeView>,
    new: Seq<NodeView>,
    old_pos: int,
    new_pos: int,
    path: Seq<char>,
    fuel: nat,
) -> Walk
    decreases fuel, 1int, 0int,
{
    let here = compare_text(cx, old[old_pos].components, new[new_pos].components, path);
    let old_kids = resolved(old, old[old_pos].children);
    let new_kids = resolved(new, new[new_pos].children);
    let below = children_walk(cx, old, new, old_kids, new_kids, path, new_kids.len() as int, fuel);
    Walk { text: here + below.text, seen: below.seen.insert(old_pos) }
}

/// What walking the first `upto` children of a matched new node comes to.
/// A child is matched with the old child of the same name that has as many
/// siblings of that name before it; the two are then walked. A child
/// without a partner is reported as added.
pub open spec fn children_walk(
    cx: Context,
    old: Seq<NodeView>,
    new: Seq<NodeView>,
    old_kids: Seq<int>,
    new_kids: Seq<int>,
    path: Seq<char>,
    upto: int,
    fuel: nat,
) -> Walk
    decreases fuel, 0int, upto,
{
    if fuel == 0 || upto <= 0 || upto > new_kids.len() {
        Walk { text: Seq::empty(), seen: Set::empty() }
    } else {
        let head = children_walk(cx, old, new, old_kids, new_kids, path, upto - 1, fuel);
        let k = upto - 1;
        let below = child_path(path, new[new_kids[k]].name);
        let p = partner(names_at(old, old_kids), names_at(new, new_kids), k);
        if p < old_kids.len() {
            let walk = visit_walk(cx, old, new, old_kids[p], new_kids[k], below, (fuel - 1) as nat);
            Walk { text: head.text + walk.text, seen: head.seen.union(walk.seen) }
        } else {
            Walk { text: head.text + added_object_line(below), seen: head.seen }
        }
    }
}

/// What walking the first `upto` new roots comes to. A root is matched
/// with the old root of the same name that has as many roots of that name
/// before it.
pub open spec fn roots_walk(
    cx: Context,
    old: Seq<NodeView>,
    new: Seq<NodeView>,
    old_roots: Seq<int>,
    new_roots: Seq<int>,
    upto: int,
    fuel: nat,
) -> Walk
    decreases upto,
{
    if upto <= 0 || upto > new_roots.len() {
        Walk { text: Seq::empty(), seen: Set::empty() }
    } else {
        let head = roots_walk(cx, old, new, old_roots, new_roots, upto - 1, fuel);
        let k = upto - 1;
        let name = new[new_roots[k]].name;
        let new_names = names_at(new, new_roots);
        let p = partner(names_at(old, old_roots), new_names, k);
        if p < old_roots.len() {
            let walk = visit_walk(cx, old, new, old_roots[p], new_roots[k], name, fuel);
            Walk { text: head.text + walk.text, seen: head.seen.union(walk.seen) }
        } else {
            Walk {
                text: head.text + added_root_line(name, occurrence_of(new_names, name, k)),
                seen: head.seen,
            }
        }
    }
}

/// The path of the old node at `pos`: the names from its topmost ancestor
/// down to itself, with slashes between them. `fuel` bounds how far up the
/// parents are followed.
pub open spec fn old_path(old: Seq<NodeView>, pos: int, fuel: nat) -> Seq<char>
    decreases fuel,
{
    match old[pos].parent {
        Some(id) => {
            let up = find_node(old, id, 0);
            if fuel > 0 && up < old.len() {
                child_path(old_path(old, up, (fuel - 1) as nat), old[pos].name)
            } else {
                old[pos].name
            }
        },
        None => old[pos].name,
    }
}

/// What a report says of the first `upto` old nodes: each that is not in
/// `seen` is reported as removed.
pub open spec fn removed_lines(old: Seq<NodeView>, seen: Set<int>, upto: int) -> Seq<char>
    decreases upto,
{
    if upto <= 0 || upto > old.len() {
        Seq::empty()
    } else {
        let head = removed_lines(old, seen, upto - 1);
        if seen.contains(upto - 1) {
            head
        } else {
            head + removed_object_line(old_path(old, upto - 1, old.len()))
        }
    }
}

/// The report on two versions of a container's tree: what the walk from
/// the new roots finds, and then the old nodes that the walk did not match.
pub open spec fn scene_report(cx: Context, old: Seq<NodeView>, new: Seq<NodeView>) -> Seq<char> {
    let old_roots = roots(old, old.len() as int);
    let new_roots = roots(new, new.len() as int);
    let walk = roots_walk(cx, old, new, old_roots, new_roots, new_roots.len() as int, new.len());
    walk.text + removed_lines(old, walk.seen, old.len() as int)
}

/// The positions that a list of positions stands for.
pub open spec fn positions_view(positions: Seq<usize>) -> Seq<int> {
    positions.map_values(|p: usize| p as int)
}

/// The numbers that a list of node numbers stands for.
pub open spec fn ids_view(ids: Seq<i64>) -> Seq<int> {
    ids.map_values(|c: i64| c as int)
}

impl Scene {
    #[verifier::type_invariant]
    spec fn indexed(&self) -> bool {
        is_index(self.positions@, nodes_view(self.nodes@), self.nodes@.len() as int)
    }

    /// The scene of the given nodes.
    pub fn new(nodes: Vec<SceneNode>) -> (scene: Scene)
        ensures
            scene@ == nodes_view(nodes@),
    {
        let ghost all = nodes_view(nodes@);
        let mut positions: HashMap<i64, usize> = HashMap::new();
        let mut i: usize = 0;
        proof {
            assert forall|id: i64| find_node(all, id as int, 0) >= 0 by {
                lemma_find_node(all, id as int, 0);
            }
        }
        while i < nodes.len()
            invariant
                i <= nodes.len(),
                all == nodes_view(nodes@),
                is_index(positions@, all, i as int),
            decreases nodes.len() - i,
        {
            let id = nodes[i].id;
            let ghost before = positions@;
            proof {
                lemma_find_node(all, id as int, 0);
                assert(all[i as int].id == id);
            }
            if !positions.contains_key(&id) {
                positions.insert(id, i);
            }
            proof {
                assert forall|other: i64|
                    {
                        let first = #[trigger] find_node(all, other as int, 0);
                        if first < i + 1 {
                            positions@.contains_key(other) && positions@[other] == first
                        } else {
                            !positions@.contains_key(other)
                        }
                    } by {
                    lemma_find_node(all, other as int, 0);
                }
            }
            i += 1;
        }
        Scene { nodes, positions }
    }

    /// The nodes of the scene, in the order they were met.
    pub fn nodes(&self) -> (nodes: &Vec<SceneNode>)
        ensures
            nodes_view(nodes@) == self@,
    {
        &self.nodes
    }

    /// The position of the first node numbered `id`.
    pub fn find(&self, id: i64) -> (found: Option<usize>)
        ensures
            match found {
                Some(pos) => pos < self@.len() && pos == find_node(self@, id as int, 0),
                None => find_node(self@, id as int, 0) == self@.len(),
            },
    {
        proof {
            use_type_invariant(self);
            lemma_find_node(self@, id as int, 0);
        }
        match self.positions.get(&id) {
            Some(pos) => Some(*pos),
            None => None,
        }
    }

    /// The positions of the nodes that `ids` name, in the order of `ids`.
    pub fn resolve(&self, ids: &Vec<i64>) -> (positions: Vec<usize>)
        ensures
            positions_view(positions@) == resolved(self@, ids_view(ids@)),
            forall|k: int| 0 <= k < positions.len() ==> positions[k] < self@.len(),
    {
        let ghost all = ids_view(ids@);
        let mut positions: Vec<usize> = Vec::new();
        let mut i: usize = 0;
        proof {
            assert(all.take(0) =~= Seq::<int>::empty());
            assert(positions_view(positions@) =~= Seq::<int>::empty());
        }
        while i < ids.len()
            invariant
                i <= ids.len(),
                all == ids_view(ids@),
                positions_view(positions@) == resolved(self@, all.take(i as int)),
                forall|k: int| 0 <= k < positions.len() ==> positions[k] < self@.len(),
            decreases ids.len() - i,
        {
            proof {
                let next = all.take(i as int + 1);
                assert(next.drop_last() =~= all.take(i as int));
                assert(next.last() == ids[i as int] as int);
            }
            match self.find(ids[i]) {
                Some(pos) => {
                    proof {
                        assert(positions_view(positions@.push(pos)) =~= positions_view(
                            positions@,
                        ).push(pos as int));
                    }
                    positions.push(pos);
                },
                None => {},
            }
            i += 1;
        }
        proof {
            assert(all.take(ids.len() as int) =~= all);
        }
        positions
    }

    /// The positions of the nodes without a parent, in order.
    pub fn root_positions(&self) -> (positions: Vec<usize>)
        ensures
            positions_view(positions@) == roots(self@, self@.len() as int),
            forall|k: int| 0 <= k < positions.len() ==> positions[k] < self@.len(),
    {
        let mut positions: Vec<usize> = Vec::new();
        let mut i: usize = 0;
        proof {
            assert(positions_view(positions@) =~= Seq::<int>::empty());
        }
        while i < self.nodes.len()
            invariant
                i <= self@.len(),
                positions_view(positions@) == roots(self@, i as int),
                forall|k: int| 0 <= k < positions.len() ==> positions[k] < self@.len(),
            decreases self@.len() - i,
        {
            if self.nodes[i].parent.is_none() {
                proof {
                    assert(positions_view(positions@.push(i)) =~= positions_view(positions@).push(
                        i as int,
                    ));
                }
                positions.push(i);
            }
            i += 1;
        }
        positions
    }
}

/// Which of the old siblings at `old_kids` the new sibling at position `k`
/// of `new_kids` is matched with, and how many new siblings of its name
/// come before it.
#[verifier::loop_isolation(false)]
pub fn find_partner(
    older: &Scene,
    old_kids: &Vec<usize>,
    newer: &Scene,
    new_kids: &Vec<usize>,
    k: usize,
) -> (found: (Option<usize>, usize))
    requires
        k < new_kids.len(),
        forall|m: int| 0 <= m < old_kids.len() ==> old_kids[m] < older@.len(),
        forall|m: int| 0 <= m < new_kids.len() ==> new_kids[m] < newer@.len(),
    ensures
        ({
            let old_names = names_at(older@, positions_view(old_kids@));
            let new_names = names_at(newer@, positions_view(new_kids@));
            &&& found.1 == occurrence_of(new_names, new_names[k as int], k as int)
            &&& match found.0 {
                Some(p) => p < old_kids.len() && p == partner(old_names, new_names, k as int),
                None => partner(old_names, new_names, k as int) == old_kids.len(),
            }
        }),
{
    let ghost old_names = names_at(older@, positions_view(old_kids@));
    let ghost new_names = names_at(newer@, positions_view(new_kids@));
    let name = newer.nodes[new_kids[k]].name.as_str();
    proof {
        assert(new_names[k as int] == newer.nodes[new_kids[k as int] as int].name@);
        assert(old_names.len() == old_kids.len());
        assert(new_names.len() == new_kids.len());
    }
    let mut before: usize = 0;
    let mut i: usize = 0;
    while i < k
        invariant
            i <= k < new_kids.len(),
            before <= i,
            new_names == names_at(newer@, positions_view(new_kids@)),
            name@ == new_names[k as int],
            forall|m: int| 0 <= m < new_kids.len() ==> new_kids[m] < newer@.len(),
            before == occurrence_of(new_names, name@, i as int),
        decreases k - i,
    {
        proof {
            assert(new_names[i as int] == newer.nodes[new_kids[i as int] as int].name@);
        }
        if str_equal(newer.nodes[new_kids[i]].name.as_str(), name) {
            before += 1;
        }
        i += 1;
    }
    let mut wanted: usize = before;
    let mut j: usize = 0;
    while j < old_kids.len()
        invariant
            j <= old_kids.len(),
            old_names == names_at(older@, positions_view(old_kids@)),
            forall|m: int| 0 <= m < old_kids.len() ==> old_kids[m] < older@.len(),
            nth_named(old_names, name@, before as nat, 0) == nth_named(
                old_names,
                name@,
                wanted as nat,
                j as int,
            ),
        decreases old_kids.len() - j,
    {
        proof {
            assert(old_names[j as int] == older.nodes[old_kids[j as int] as int].name@);
        }
        if str_equal(older.nodes[old_kids[j]].name.as_str(), name) {
            if wanted == 0 {
                return (Some(j), before);
            }
            wanted -= 1;
        }
        j += 1;
    }
    (None, before)
}

/// Appends to `out` the note that the new node at `path` was added.
fn added_object(out: &mut String, path: &str)
    ensures
        final(out)@ == old(out)@ + added_object_line(path@),
{
    let ghost before = out@;
    out.append("--- Added Object '");
    out.append(path);
    out.append("' ---\n");
    assert(out@ =~= before + added_object_line(path@));
}

/// Walks a matched pair of nodes: marks the old node as seen, compares the
/// components of the two and walks their children, `fuel` levels down.
#[verifier::loop_isolation(false)]
fn visit_within(
    cx: &Context,
    older: &Scene,
    newer: &Scene,
    old_pos: usize,
    new_pos: usize,
    path: &str,
    fuel: usize,
    out: &mut String,
    seen: &mut Vec<bool>,
)
    requires
        old_pos < older@.len(),
        new_pos < newer@.len(),
        old(seen).len() == older@.len(),
    ensures
        final(seen).len() == old(seen).len(),
        ({
            let walk = visit_walk(
                *cx,
                older@,
                newer@,
                old_pos as int,
                new_pos as int,
                path@,
                fuel as nat,
            );
            &&& final(out)@ == old(out)@ + walk.text
            &&& forall|i: int|
                0 <= i < old(seen).len() ==> #[trigger] final(seen)@[i] == (old(seen)@[i]
                    || walk.seen.contains(i))
        }),
    decreases fuel,
{
    let ghost before = out@;
    let ghost seen_before = seen@;
    seen.set(old_pos, true);
    compare(cx, out, path, OldNew::new(&older.nodes[old_pos], &newer.nodes[new_pos]));
    let ghost compared = out@;
    let old_kids = older.resolve(&older.nodes[old_pos].children);
    let new_kids = newer.resolve(&newer.nodes[new_pos].children);
    let ghost old_ints = positions_view(old_kids@);
    let ghost new_ints = positions_view(new_kids@);
    proof {
        assert(older@[old_pos as int].children == ids_view(older.nodes[old_pos as int].children@));
        assert(newer@[new_pos as int].children == ids_view(newer.nodes[new_pos as int].children@));
    }
    let mut k: usize = 0;
    if fuel > 0 {
        proof {
            assert(out@ + Seq::<char>::empty() =~= out@);
        }
        while k < new_kids.len()
            invariant
                k <= new_kids.len(),
                fuel > 0,
                seen.len() == older@.len(),
                seen_before.len() == older@.len(),
                old_pos < older@.len(),
                old_ints == positions_view(old_kids@),
                new_ints == positions_view(new_kids@),
                forall|m: int| 0 <= m < old_kids.len() ==> old_kids[m] < older@.len(),
                forall|m: int| 0 <= m < new_kids.len() ==> new_kids[m] < newer@.len(),
                ({
                    let head = children_walk(
                        *cx,
                        older@,
                        newer@,
                        old_ints,
                        new_ints,
                        path@,
                        k as int,
                        fuel as nat,
                    );
                    &&& out@ == compared + head.text
                    &&& forall|i: int|
                        0 <= i < seen.len() ==> #[trigger] seen@[i] == (seen_before[i] || i
                            == old_pos || head.seen.contains(i))
                }),
            decreases new_kids.len() - k,
        {
            let ghost head = children_walk(
                *cx,
                older@,
                newer@,
                old_ints,
                new_ints,
                path@,
                k as int,
                fuel as nat,
            );
            let name = newer.nodes[new_kids[k]].name.as_str();
            let mut below = String::from_str(path);
            push_char(&mut below, '/');
            below.append(name);
            proof {
                assert(below@ =~= child_path(path@, name@));
                assert(newer@[new_ints[k as int]].name == name@);
            }
            match find_partner(older, &old_kids, newer, &new_kids, k).0 {
                Some(p) => {
                    visit_within(
                        cx,
                        older,
                        newer,
                        old_kids[p],
                        new_kids[k],
                        below.as_str(),
                        fuel - 1,
                        out,
                        seen,
                    );
                    proof {
                        let walk = visit_walk(
                            *cx,
                            older@,
                            newer@,
                            old_ints[p as int],
                            new_ints[k as int],
                            below@,
                            (fuel - 1) as nat,
                        );
                        let next = children_walk(
                            *cx,
                            older@,
                            newer@,
                            old_ints,
                            new_ints,
                            path@,
                            k as int + 1,
                            fuel as nat,
                        );
                        assert(old_ints[p as int] == old_kids[p as int]);
                        assert(new_ints[k as int] == new_kids[k as int]);
                        assert(next.text == head.text + walk.text);
                        assert(next.seen == head.seen.union(walk.seen));
                        assert(out@ =~= compared + (head.text + walk.text));
                    }
                },
                None => {
                    added_object(out, below.as_str());
                    proof {
                        let next = children_walk(
                            *cx,
                            older@,
                            newer@,
                            old_ints,
                            new_ints,
                            path@,
                            k as int + 1,
                            fuel as nat,
                        );
                        assert(new_ints[k as int] == new_kids[k as int]);
                        assert(next.text == head.text + added_object_line(below@));
                        assert(next.seen == head.seen);
                        assert(out@ =~= compared + (head.text + added_object_line(below@)));
                    }
                },
            }
            k += 1;
        }
    }
    proof {
        let below = children_walk(
            *cx,
            older@,
            newer@,
            old_ints,
            new_ints,
            path@,
            new_ints.len() as int,
            fuel as nat,
        );
        let here = compare_text(
            *cx,
            older@[old_pos as int].components,
            newer@[new_pos as int].components,
            path@,
        );
        assert(compared + below.text =~= before + (here + below.text));
        assert(compared + Seq::<char>::empty() =~= compared);
    }
}

/// Walks a matched pair of nodes: marks the old node as seen, compares the
/// components of the two, pairs the children of the new node with those of
/// the old node and walks each pair in the same way. The walk goes as many
/// levels down as the new scene has nodes, which is deeper than any tree in
/// it.
pub fn visit(
    cx: &Context,
    older: &Scene,
    newer: &Scene,
    old_pos: usize,
    new_pos: usize,
    path: &str,
    out: &mut String,
    seen: &mut Vec<bool>,
)
    requires
        old_pos < older@.len(),
        new_pos < newer@.len(),
        old(seen).len() == older@.len(),
    ensures
        final(seen).len() == old(seen).len(),
        ({
            let walk = visit_walk(
                *cx,
                older@,
                newer@,
                old_pos as int,
                new_pos as int,
                path@,
                newer@.len(),
            );
            &&& final(out)@ == old(out)@ + walk.text
            &&& forall|i: int|
                0 <= i < old(seen).len() ==> #[trigger] final(seen)@[i] == (old(seen)@[i]
                    || walk.seen.contains(i))
        }),
{
    visit_within(cx, older, newer, old_pos, new_pos, path, newer.nodes.len(), out, seen)
}

/// Walks the new roots: each is matched with the old root of the same
/// name that has as many roots of that name before it, and the two are
/// walked; a new root without a partner is reported as added.
#[verifier::loop_isolation(false)]
pub fn visit_roots(
    cx: &Context,
    older: &Scene,
    newer: &Scene,
    out: &mut String,
    seen: &mut Vec<bool>,
)
    requires
        old(seen).len() == older@.len(),
    ensures
        final(seen).len() == old(seen).len(),
        ({
            let old_roots = roots(older@, older@.len() as int);
            let new_roots = roots(newer@, newer@.len() as int);
            let walk = roots_walk(
                *cx,
                older@,
                newer@,
                old_roots,
                new_roots,
                new_roots.len() as int,
                newer@.len() as nat,
            );
            &&& final(out)@ == old(out)@ + walk.text
            &&& forall|i: int|
                0 <= i < old(seen).len() ==> #[trigger] final(seen)@[i] == (old(seen)@[i]
                    || walk.seen.contains(i))
        }),
{
    let ghost before = out@;
    let ghost seen_before = seen@;
    let old_roots = older.root_positions();
    let new_roots = newer.root_positions();
    let ghost old_ints = positions_view(old_roots@);
    let ghost new_ints = positions_view(new_roots@);
    let fuel = newer.nodes.len();
    let mut k: usize = 0;
    proof {
        assert(out@ + Seq::<char>::empty() =~= out@);
    }
    while k < new_roots.len()
        invariant
            k <= new_roots.len(),
            seen.len() == older@.len(),
            ({
                let head = roots_walk(
                    *cx,
                    older@,
                    newer@,
                    old_ints,
                    new_ints,
                    k as int,
                    fuel as nat,
                );
                &&& out@ == before + head.text
                &&& forall|i: int|
                    0 <= i < seen.len() ==> #[trigger] seen@[i] == (seen_before[i]
                        || head.seen.contains(i))
            }),
        decreases new_roots.len() - k,
    {
        let ghost head = roots_walk(*cx, older@, newer@, old_ints, new_ints, k as int, fuel as nat);
        let ghost next = roots_walk(
            *cx,
            older@,
            newer@,
            old_ints,
            new_ints,
            k as int + 1,
            fuel as nat,
        );
        let name = newer.nodes[new_roots[k]].name.as_str();
        proof {
            assert(newer@[new_ints[k as int]].name == name@);
            assert(names_at(newer@, new_ints)[k as int] == name@);
        }
        match find_partner(older, &old_roots, newer, &new_roots, k) {
            (Some(p), _) => {
                visit(cx, older, newer, old_roots[p], new_roots[k], name, out, seen);
                proof {
                    let walk = visit_walk(
                        *cx,
                        older@,
                        newer@,
                        old_ints[p as int],
                        new_ints[k as int],
                        name@,
                        fuel as nat,
                    );
                    assert(next.text == head.text + walk.text);
                    assert(next.seen == head.seen.union(walk.seen));
                    assert(out@ =~= before + (head.text + walk.text));
                }
            },
            (None, index) => {
                let ghost so_far = out@;
                out.append("--- Added Object '");
                out.append(name);
                out.append("'@");
                push_decimal(out, index);
                out.append("\n\n");
                proof {
                    assert(out@ =~= so_far + added_root_line(name@, index as nat));
                    assert(next.text == head.text + added_root_line(name@, index as nat));
                    assert(next.seen == head.seen);
                    assert(out@ =~= before + (head.text + added_root_line(name@, index as nat)));
                }
            },
        }
        k += 1;
    }
}

/// Appends to `out` the path of the old node at `pos`, following the
/// parents up as far as `fuel` allows.
fn push_old_path(out: &mut String, older: &Scene, pos: usize, fuel: usize)
    requires
        pos < older@.len(),
    ensures
        final(out)@ == old(out)@ + old_path(older@, pos as int, fuel as nat),
    decreases fuel,
{
    let ghost before = out@;
    let node = &older.nodes[pos];
    let up = match node.parent {
        Some(id) => if fuel > 0 {
            older.find(id)
        } else {
            None
        },
        None => None,
    };
    match up {
        Some(parent) => {
            push_old_path(out, older, parent, fuel - 1);
            push_char(out, '/');
            out.append(node.name.as_str());
            proof {
                assert(out@ =~= before + child_path(
                    old_path(older@, parent as int, (fuel - 1) as nat),
                    node.name@,
                ));
            }
        },
        None => {
            out.append(node.name.as_str());
        },
    }
}

/// Compares two versions of a container's tree and reports what differs:
/// what the walk from the new roots finds, and then each old node that the
/// walk did not match, as removed.
pub fn diff_scene(cx: &Context, scenes: OldNew<&Scene>) -> (text: String)
    ensures
        text@ == scene_report(*cx, scenes.old@, scenes.new@),
{
    let older = scenes.old;
    let newer = scenes.new;
    let mut out = String::new();
    let mut seen: Vec<bool> = Vec::new();
    while seen.len() < older.nodes.len()
        invariant
            seen.len() <= older@.len(),
            forall|i: int| 0 <= i < seen.len() ==> !(#[trigger] seen@[i]),
        decreases older@.len() - seen.len(),
    {
        seen.push(false);
    }
    visit_roots(cx, older, newer, &mut out, &mut seen);
    let ghost walk = roots_walk(
        *cx,
        older@,
        newer@,
        roots(older@, older@.len() as int),
        roots(newer@, newer@.len() as int),
        roots(newer@, newer@.len() as int).len() as int,
        newer@.len() as nat,
    );
    let ghost walked = out@;
    proof {
        assert(walked =~= walk.text);
        assert(out@ + Seq::<char>::empty() =~= out@);
    }
    let mut pos: usize = 0;
    while pos < older.nodes.len()
        invariant
            pos <= older@.len(),
            seen.len() == older@.len(),
            forall|i: int| 0 <= i < seen.len() ==> #[trigger] seen@[i] == walk.seen.contains(i),
            out@ == walked + removed_lines(older@, walk.seen, pos as int),
        decreases older@.len() - pos,
    {
        if !seen[pos] {
            let ghost so_far = out@;
            out.append("--- Removed object '");
            push_old_path(&mut out, older, pos, older.nodes.len());
            out.append("' ---\n");
            proof {
                let line = removed_object_line(
                    old_path(older@, pos as int, older@.len() as nat),
                );
                assert(out@ =~= so_far + line);
                assert(out@ =~= walked + (removed_lines(older@, walk.seen, pos as int) + line));
            }
        }
        pos += 1;
    }
    out
}

/// A container file as mathematics sees it.
pub struct ContainerView {
    pub header: Seq<char>,
    pub scene: Seq<NodeView>,
}

/// What was read of one version of a container file: the text that
/// describes its header, and its tree.
pub struct ContainerFile {
    pub header: String,
    pub scene: Scene,
}

impl View for ContainerFile {
    type V = ContainerView;

    open spec fn view(&self) -> ContainerView {
        ContainerView { header: self.header@, scene: self.scene@ }
    }
}

/// The report on two versions of a container file: what differs between
/// the descriptions of their headers, on lines of its own if anything does,
/// and then the report on their trees.
pub open spec fn serialized_report(cx: Context, old: ContainerView, new: ContainerView) -> Seq<
    char,
> {
    let headers = text_report(old.header, new.header, cx.text_diff_context_size);
    if headers.len() > 0 {
        headers.push('\n') + scene_report(cx, old.scene, new.scene)
    } else {
        scene_report(cx, old.scene, new.scene)
    }
}

/// Compares two versions of a container file: the descriptions of their
/// headers as texts, and their trees node by node.
pub fn diff_serializedfile(cx: &Context, files: OldNew<&ContainerFile>) -> (text: String)
    ensures
        text@ == serialized_report(*cx, files.old@, files.new@),
{
    let mut text = diff_text(
        cx,
        OldNew::new(files.old.header.as_str(), files.new.header.as_str()),
    );
    if !text.as_str().is_empty() {
        push_char(&mut text, '\n');
    }
    let tree = diff_scene(cx, OldNew::new(&files.old.scene, &files.new.scene));
    text.append(tree.as_str());
    proof {
        assert(Seq::<char>::empty() + tree@ =~= tree@);
    }
    text
}

/// An entry of an archive as mathematics sees it.
pub struct EntryView {
    pub path: Seq<char>,
    pub size: usize,
    pub file: Option<ContainerView>,
}

/// One file inside an archive of container files: its path in the archive,
/// its size, and what was read of it, if it is a container file that could
/// be read.
pub struct BundleEntry {
    pub path: String,
    pub size: usize,
    pub file: Option<ContainerFile>,
}

impl View for BundleEntry {
    type V = EntryView;

    open spec fn view(&self) -> EntryView {
        EntryView {
            path: self.path@,
            size: self.size,
            file: match self.file {
                Some(f) => Some(f@),
                None => None,
            },
        }
    }
}

/// The entries that a list of entries stands for.
pub open spec fn entries_view(entries: Seq<BundleEntry>) -> Seq<EntryView> {
    entries.map_values(|e: BundleEntry| e@)
}

/// The paths of the entries, in order.
pub open spec fn entry_paths(entries: Seq<EntryView>) -> Seq<Seq<char>> {
    entries.map_values(|e: EntryView| e.path)
}

/// The position of the first entry at `path`, from position `from` on, or
/// the number of entries if there is none.
pub open spec fn find_path(entries: Seq<EntryView>, path: Seq<char>, from: int) -> int
    decreases entries.len() - from,
{
    if from < 0 || from >= entries.len() {
        entries.len() as int
    } else if entries[from].path == path {
        from
    } else {
        find_path(entries, path, from + 1)
    }
}

/// Whether the entry of an archive at `path` holds a container file: all
/// do but those that hold streamed resources.
pub open spec fn holds_container(path: Seq<char>) -> bool {
    !ends_with(path, ".resS"@) && !ends_with(path, "resource"@)
}

/// Whether the entry of an archive at `path` holds a container file.
pub fn holds_container_file(path: &str) -> (holds: bool)
    ensures
        holds == holds_container(path@),
{
    !text_ends_with(path, ".resS") && !text_ends_with(path, "resource")
}

/// How the standard library prints a text for debugging: in double quotes,
/// with what cannot stand there escaped.
pub uninterp spec fn debug_text(text: Seq<char>) -> Seq<char>;

/// `str`'s `Debug`: the text in double quotes, with escapes. What is
/// printed depends on the text alone.
#[verifier::external_body]
fn quoted(text: &str) -> (printed: String)
    ensures
        printed@ == debug_text(text@),
{
    format!("{:?}", text)
}

/// The first `upto` names as they are printed inside a set: each as it is
/// printed for debugging, with a comma and a space between two.
pub open spec fn set_items(names: Seq<Seq<char>>, upto: int) -> Seq<char>
    decreases upto,
{
    if upto <= 0 || upto > names.len() {
        Seq::empty()
    } else if upto == 1 {
        debug_text(names[0])
    } else {
        set_items(names, upto - 1) + ", "@ + debug_text(names[upto - 1])
    }
}

/// The names as a set is printed for debugging: in curly brackets.
pub open spec fn set_text(names: Seq<Seq<char>>) -> Seq<char> {
    seq!['{'] + set_items(names, names.len() as int) + seq!['}']
}

/// What a report says of the entry at `path` that both versions of an
/// archive have. Of a container file, the report on its two versions, or one
/// line in place of that where one of them could not be read. Of any other
/// entry, that it changed, if its size did.
pub open spec fn entry_change(
    cx: Context,
    old: Seq<EntryView>,
    new: Seq<EntryView>,
    path: Seq<char>,
) -> Seq<char> {
    let a = old[find_path(old, path, 0)];
    let b = new[find_path(new, path, 0)];
    if holds_container(path) {
        match (a.file, b.file) {
            (Some(x), Some(y)) => serialized_report(cx, x, y),
            _ => "=== "@ + path + " ===\nchanged: could not diff\n"@,
        }
    } else if a.size != b.size {
        "=== "@ + path + " ===\nchanged\n"@
    } else {
        Seq::empty()
    }
}

/// What a report says of the first `upto` of the entries at `paths`, which
/// both versions of an archive have.
pub open spec fn entry_changes(
    cx: Context,
    old: Seq<EntryView>,
    new: Seq<EntryView>,
    paths: Seq<Seq<char>>,
    upto: int,
) -> Seq<char>
    decreases upto,
{
    if upto <= 0 || upto > paths.len() {
        Seq::empty()
    } else {
        entry_changes(cx, old, new, paths, upto - 1) + entry_change(cx, old, new, paths[upto - 1])
    }
}

/// The names of the entries of an archive to which `what` happened, if
/// there are any.
pub open spec fn listed_entries(what: Seq<char>, names: Seq<Seq<char>>) -> Seq<char> {
    if names.len() > 0 {
        what + set_text(names)
    } else {
        Seq::empty()
    }
}

/// The report on two versions of an archive of container files. The
/// entries that were removed are named, if any were, and then the entries
/// that were added, if any were. Then follows what changed in the entries
/// that both versions have, in the order of their paths.
pub open spec fn bundle_report(cx: Context, old: Seq<EntryView>, new: Seq<EntryView>) -> Seq<
    char,
> {
    let removed = removed_names(entry_paths(old), entry_paths(new));
    let added = added_names(entry_paths(old), entry_paths(new));
    let same = common_names(entry_paths(old), entry_paths(new));
    listed_entries("Removed: "@, removed) + listed_entries("Added: "@, added) + entry_changes(
        cx,
        old,
        new,
        same,
        same.len() as int,
    )
}

/// Appends to `out` the names as a set is printed for debugging.
fn push_set_text(out: &mut String, names: &Vec<String>)
    ensures
        final(out)@ == old(out)@ + set_text(names_view(names@)),
{
    let ghost all = names_view(names@);
    let ghost before = out@;
    push_char(out, '{');
    let ghost opened = out@;
    let mut i: usize = 0;
    proof {
        assert(opened + Seq::<char>::empty() =~= opened);
    }
    while i < names.len()
        invariant
            i <= names.len(),
            all == names_view(names@),
            out@ == opened + set_items(all, i as int),
        decreases names.len() - i,
    {
        let ghost head = set_items(all, i as int);
        if i > 0 {
            out.append(", ");
        }
        let item = quoted(names[i].as_str());
        out.append(item.as_str());
        proof {
            assert(all[i as int] == names[i as int]@);
            if i > 0 {
                assert(out@ =~= opened + (head + ", "@ + debug_text(all[i as int])));
            } else {
                assert(out@ =~= opened + debug_text(all[0]));
            }
        }
        i += 1;
    }
    push_char(out, '}');
    proof {
        assert(out@ =~= before + set_text(all));
    }
}

/// The position of the first entry at `path`.
fn find_entry_at(entries: &Vec<BundleEntry>, path: &str) -> (found: Option<usize>)
    ensures
        match found {
            Some(i) => i < entries.len() && i == find_path(entries_view(entries@), path@, 0),
            None => find_path(entries_view(entries@), path@, 0) == entries.len(),
        },
{
    let ghost all = entries_view(entries@);
    let mut i: usize = 0;
    while i < entries.len()
        invariant
            i <= entries.len(),
            all == entries_view(entries@),
            find_path(all, path@, 0) == find_path(all, path@, i as int),
        decreases entries.len() - i,
    {
        proof {
            assert(all[i as int] == entries[i as int]@);
        }
        if str_equal(entries[i].path.as_str(), path) {
            return Some(i);
        }
        i += 1;
    }
    None
}

/// The paths of the entries, in order.
fn paths_of_entries(entries: &Vec<BundleEntry>) -> (paths: Vec<String>)
    ensures
        names_view(paths@) == entry_paths(entries_view(entries@)),
{
    let mut paths: Vec<String> = Vec::new();
    let mut i: usize = 0;
    while i < entries.len()
        invariant
            i <= entries.len(),
            paths.len() == i,
            forall|k: int| 0 <= k < i ==> (#[trigger] paths[k])@ == entries[k].path@,
        decreases entries.len() - i,
    {
        paths.push(entries[i].path.clone());
        i += 1;
    }
    proof {
        assert(names_view(paths@) =~= entry_paths(entries_view(entries@)));
    }
    paths
}

/// Compares two versions of an archive of container files, entry by entry.
pub fn diff_bundlefile(cx: &Context, entries: OldNew<&Vec<BundleEntry>>) -> (text: String)
    ensures
        text@ == bundle_report(*cx, entries_view(entries.old@), entries_view(entries.new@)),
{
    let ghost old_all = entries_view(entries.old@);
    let ghost new_all = entries_view(entries.new@);
    let old_paths = paths_of_entries(entries.old);
    let new_paths = paths_of_entries(entries.new);
    let changes = name_changes(&old_paths, &new_paths);
    let ghost same = names_view(changes.same@);
    let mut text = String::new();
    if changes.removed.len() > 0 {
        text.append("Removed: ");
        push_set_text(&mut text, &changes.removed);
    }
    let ghost removed = text@;
    if changes.added.len() > 0 {
        text.append("Added: ");
        push_set_text(&mut text, &changes.added);
    }
    proof {
        assert(removed =~= listed_entries("Removed: "@, names_view(changes.removed@)));
        assert(text@ =~= removed + listed_entries("Added: "@, names_view(changes.added@)));
    }
    let ghost listed = text@;
    let mut i: usize = 0;
    proof {
        assert(text@ + Seq::<char>::empty() =~= text@);
    }
    while i < changes.same.len()
        invariant
            i <= changes.same.len(),
            same == names_view(changes.same@),
            same == common_names(entry_paths(old_all), entry_paths(new_all)),
            old_all == entries_view(entries.old@),
            new_all == entries_view(entries.new@),
            text@ == listed + entry_changes(*cx, old_all, new_all, same, i as int),
        decreases changes.same.len() - i,
    {
        let path = changes.same[i].as_str();
        let ghost head = entry_changes(*cx, old_all, new_all, same, i as int);
        let ghost so_far = text@;
        proof {
            assert(same[i as int] == path@);
            assert(so_far + Seq::<char>::empty() =~= so_far);
        }
        match (find_entry_at(entries.old, path), find_entry_at(entries.new, path)) {
            (Some(a), Some(b)) => {
                let older = &entries.old[a];
                let newer = &entries.new[b];
                proof {
                    assert(old_all[a as int] == older@);
                    assert(new_all[b as int] == newer@);
                }
                if holds_container_file(path) {
                    match (&older.file, &newer.file) {
                        (Some(x), Some(y)) => {
                            let part = diff_serializedfile(cx, OldNew::new(x, y));
                            text.append(part.as_str());
                        },
                        _ => {
                            text.append("=== ");
                            text.append(path);
                            text.append(" ===\nchanged: could not diff\n");
                            proof {
                                assert(text@ =~= so_far + ("=== "@ + path@
                                    + " ===\nchanged: could not diff\n"@));
                            }
                        },
                    }
                } else if older.size != newer.size {
                    text.append("=== ");
                    text.append(path);
                    text.append(" ===\nchanged\n");
                    proof {
                        assert(text@ =~= so_far + ("=== "@ + path@ + " ===\nchanged\n"@));
                    }
                }
                proof {
                    assert(text@ =~= listed + (head + entry_change(*cx, old_all, new_all, path@)));
                }
            },
            _ => {
                proof {
                    lemma_common_name_is_found(old_all, new_all, i as int);
                }
            },
        }
        i += 1;
    }
    text
}

/// A path that both versions of an archive have is the path of an entry of
/// each.
proof fn lemma_common_name_is_found(old: Seq<EntryView>, new: Seq<EntryView>, i: int)
    requires
        0 <= i < common_names(entry_paths(old), entry_paths(new)).len(),
    ensures
        ({
            let path = common_names(entry_paths(old), entry_paths(new))[i];
            find_path(old, path, 0) < old.len() && find_path(new, path, 0) < new.len()
        }),
{
    let same = common_names(entry_paths(old), entry_paths(new));
    let path = same[i];
    crate::names::lemma_name_changes_partition(entry_paths(old), entry_paths(new), path);
    assert(same.contains(path));
    lemma_find_path(old, path, 0);
    lemma_find_path(new, path, 0);
    let a = choose|a: int| 0 <= a < entry_paths(old).len() && entry_paths(old)[a] == path;
    assert(old[a].path == path);
    let b = choose|b: int| 0 <= b < entry_paths(new).len() && entry_paths(new)[b] == path;
    assert(new[b].path == path);
}

/// `find_path` finds the first entry at a path wherever there is one.
proof fn lemma_find_path(entries: Seq<EntryView>, path: Seq<char>, from: int)
    requires
        0 <= from,
    ensures
        forall|k: int|
            from <= k < entries.len() && (#[trigger] entries[k]).path == path ==> find_path(
                entries,
                path,
                from,
            ) <= k,
    decreases entries.len() - from,
{
    if from < entries.len() && entries[from].path != path {
        lemma_find_path(entries, path, from + 1);
    }
}

} // verus!
