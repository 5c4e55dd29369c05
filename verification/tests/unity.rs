use std::collections::HashSet;

use snapshot_diff::diff::{Context, Filter};
use snapshot_diff::old_new::OldNew;
use snapshot_diff::unity::{
    compare, diff_bundlefile, diff_scene, diff_serializedfile, find_partner, visit, BundleEntry,
    ByteOrder, Component, ComponentKey, ContainerFile, Layout, Scene, SceneNode,
};

fn context(ignored: &[i32]) -> Context {
    Context {
        file_filter: String::new(),
        text_diff_context_size: 6,
        json_ignore_regex: None,
        json_ignore_new_default: true,
        json_sort: false,
        cs_decompile_assembly: true,
        unity_filter: Filter { ignore_classes: ignored.iter().copied().collect::<HashSet<i32>>() },
    }
}

fn part(kind: &str, name: &str, size: i32, children: Vec<Layout>) -> Layout {
    Layout {
        kind: kind.to_string(),
        name: name.to_string(),
        version: 1,
        type_flags: 0,
        byte_size: size,
        meta_flag: Some(0),
        ref_type_hash: None,
        variable_count: None,
        children,
    }
}

fn field(kind: &str, name: &str, size: i32) -> Layout {
    part(kind, name, size, vec![])
}

fn layout() -> Layout {
    part("Thing", "Base", 8, vec![field("int", "m_Value", 4), field("int", "m_Other", 4)])
}

fn component(key: ComponentKey, class_id: i32, value: i32, other: i32) -> Component {
    let mut data = value.to_le_bytes().to_vec();
    data.extend_from_slice(&other.to_le_bytes());
    Component { key, class_id, data, layout: layout(), byte_order: ByteOrder::Little }
}

fn script(name: &str, value: i32) -> Component {
    component(ComponentKey::Script(name.to_string()), 114, value, 0)
}

fn kind(class_id: i32, value: i32) -> Component {
    component(ComponentKey::ClassId(class_id), class_id, value, 0)
}

fn node(id: i64, name: &str, parent: Option<i64>, children: &[i64], components: Vec<Component>)
    -> SceneNode {
    SceneNode {
        id,
        name: name.to_string(),
        parent,
        children: children.to_vec(),
        components,
    }
}

fn report(cx: &Context, old: &Scene, new: &Scene) -> String {
    diff_scene(cx, OldNew::new(old, new))
}

#[test]
fn siblings_of_one_name_pair_in_order() {
    let old = Scene::new(vec![
            node(1, "Root", None, &[2, 3, 4], vec![]),
            node(2, "Foo", Some(1), &[], vec![kind(4, 10)]),
            node(3, "Bar", Some(1), &[], vec![]),
            node(4, "Foo", Some(1), &[], vec![kind(4, 20)]),
        ]);
    let new = Scene::new(vec![
            node(70, "Foo", Some(90), &[], vec![kind(4, 10)]),
            node(80, "Foo", Some(90), &[], vec![kind(4, 21)]),
            node(90, "Root", None, &[70, 80], vec![]),
        ]);
    let old_kids = old.resolve(&old.nodes()[0].children);
    let new_kids = new.resolve(&new.nodes()[2].children);
    assert_eq!(old_kids, vec![1, 2, 3]);
    assert_eq!(new_kids, vec![0, 1]);
    assert_eq!(find_partner(&old, &old_kids, &new, &new_kids, 0), (Some(0), 0));
    assert_eq!(find_partner(&old, &old_kids, &new, &new_kids, 1), (Some(2), 1));
    assert_eq!(
        report(&context(&[]), &old, &new),
        "--- Changed Transform @ 'Root/Foo' ---\n.m_Value 20 -> 21\n--- Removed object 'Root/Bar' ---\n"
    );
}

#[test]
fn the_walk_of_a_pair_pairs_its_children() {
    let old = Scene::new(vec![
        node(1, "Parent", None, &[2, 3], vec![kind(4, 0)]),
        node(2, "Foo", Some(1), &[], vec![kind(4, 10), script("Game.A", 1)]),
        node(3, "Foo", Some(1), &[], vec![kind(4, 20)]),
        node(4, "Elsewhere", None, &[], vec![]),
    ]);
    let new = Scene::new(vec![
        node(8, "Foo", Some(7), &[], vec![kind(4, 21), kind(23, 1)]),
        node(9, "Foo", Some(7), &[], vec![kind(4, 11), script("Game.A", 1)]),
        node(7, "Parent", None, &[9, 8], vec![kind(4, 0)]),
    ]);
    let mut out = String::new();
    let mut seen = vec![false; 4];
    visit(&context(&[]), &old, &new, 0, 2, "Parent", &mut out, &mut seen);
    assert_eq!(seen, vec![true, true, true, false]);
    assert_eq!(
        out,
        "--- Changed Transform @ 'Parent/Foo' ---\n.m_Value 10 -> 11\n--- Added MeshRenderer @ 'Parent/Foo' ---\n\n--- Changed Transform @ 'Parent/Foo' ---\n.m_Value 20 -> 21\n"
    );
    let lone = Scene::new(vec![node(7, "Parent", None, &[], vec![kind(4, 0)])]);
    let mut out = String::new();
    let mut seen = vec![false; 4];
    visit(&context(&[]), &old, &lone, 0, 0, "Parent", &mut out, &mut seen);
    assert_eq!(seen, vec![true, false, false, false]);
    assert_eq!(out, "");
}

#[test]
fn a_third_sibling_of_a_name_is_added() {
    let old = Scene::new(vec![
            node(1, "Root", None, &[2], vec![]),
            node(2, "Foo", Some(1), &[], vec![]),
        ]);
    let new = Scene::new(vec![
            node(1, "Root", None, &[2, 3], vec![]),
            node(2, "Foo", Some(1), &[], vec![]),
            node(3, "Foo", Some(1), &[4], vec![]),
            node(4, "Deep", Some(3), &[], vec![]),
        ]);
    let old_kids = old.resolve(&old.nodes()[0].children);
    let new_kids = new.resolve(&new.nodes()[0].children);
    assert_eq!(find_partner(&old, &old_kids, &new, &new_kids, 1), (None, 1));
    assert_eq!(report(&context(&[]), &old, &new), "--- Added Object 'Root/Foo' ---\n");
}

fn forest_nodes() -> Vec<SceneNode> {
    vec![
        node(5, "Deep", Some(3), &[], vec![script("Game.Deep", 3)]),
        node(1, "Root", None, &[2, 3], vec![kind(4, 1), script("Game.Main", 7)]),
        node(2, "Foo", Some(1), &[], vec![kind(4, 2)]),
        node(3, "Foo", Some(1), &[5], vec![kind(4, 3), kind(4, 4)]),
        node(9, "Root", None, &[], vec![]),
    ]
}

fn forest() -> Scene {
    Scene::new(forest_nodes())
}

#[test]
fn a_forest_does_not_differ_from_itself() {
    let scene = forest();
    assert_eq!(report(&context(&[]), &scene, &scene), "");
    let empty = Scene::new(vec![]);
    assert_eq!(report(&context(&[]), &empty, &empty), "");
}

#[test]
fn numbers_of_nodes_do_not_count() {
    let old = forest();
    let mut nodes = forest_nodes();
    for node in nodes.iter_mut() {
        node.id += 1000;
        node.parent = node.parent.map(|p| p + 1000);
        for child in node.children.iter_mut() {
            *child += 1000;
        }
    }
    nodes.swap(0, 2);
    nodes.swap(2, 3);
    let turned: Vec<SceneNode> = nodes
        .iter()
        .map(|n| node(n.id, &n.name, n.parent, &n.children, match n.id {
            1005 => vec![script("Game.Deep", 3)],
            1001 => vec![kind(4, 1), script("Game.Main", 7)],
            1002 => vec![kind(4, 2)],
            1003 => vec![kind(4, 3), kind(4, 4)],
            _ => vec![],
        }))
        .collect();
    assert_eq!(report(&context(&[]), &old, &Scene::new(turned)), "");
    nodes[1].children = vec![1003, 1002];
    assert_eq!(
        report(&context(&[]), &old, &Scene::new(nodes)),
        "--- Changed Transform @ 'Root/Foo' ---\n.m_Value 2 -> 4\n--- Added Object 'Root/Foo/Deep' ---\n--- Changed Transform @ 'Root/Foo' ---\n.m_Value 4 -> 2\n--- Removed object 'Root/Foo/Deep' ---\n"
    );
}

#[test]
fn a_number_twice_names_the_first_node() {
    let scene = Scene::new(vec![
        node(1, "Root", None, &[2], vec![]),
        node(2, "First", Some(1), &[], vec![]),
        node(2, "Second", Some(1), &[], vec![]),
    ]);
    assert_eq!(scene.find(2), Some(1));
    assert_eq!(scene.find(1), Some(0));
    assert_eq!(scene.find(3), None);
    assert_eq!(scene.resolve(&vec![2, 7, 1, 2]), vec![1, 0, 1]);
    assert_eq!(scene.root_positions(), vec![0]);
    assert_eq!(scene.nodes().len(), 3);
    assert_eq!(report(&context(&[]), &scene, &scene), "--- Removed object 'Root/Second' ---\n");
}

#[test]
fn wide_and_deep_trees_are_walked() {
    let mut nodes = vec![node(0, "Root", None, &(1..=3000).collect::<Vec<i64>>(), vec![])];
    for id in 1..=3000 {
        let name = format!("Child{}", id % 7);
        nodes.push(node(id, &name, Some(0), &[], vec![kind(4, id as i32)]));
    }
    let mut parent = 0;
    for id in 3001..=3400 {
        nodes.push(node(id, "Link", Some(parent), &[], vec![]));
        let at = nodes.iter().position(|n| n.id == parent).unwrap();
        nodes[at].children.push(id);
        parent = id;
    }
    let old = Scene::new(nodes);
    assert_eq!(report(&context(&[]), &old, &old), "");
    let mut fewer: Vec<SceneNode> = Vec::new();
    for n in old.nodes() {
        if n.id != 3400 {
            let children: Vec<i64> = n.children.iter().copied().filter(|c| *c != 3400).collect();
            let components = if n.id == 2999 { vec![kind(4, -1)] } else { vec![] };
            fewer.push(node(n.id, &n.name, n.parent, &children, components));
        }
    }
    let bare: Vec<SceneNode> = old
        .nodes()
        .iter()
        .map(|n| {
            let components = if n.id == 2999 { vec![kind(4, 2999)] } else { vec![] };
            node(n.id, &n.name, n.parent, &n.children, components)
        })
        .collect();
    let path = format!("Root{}", "/Link".repeat(400));
    assert_eq!(
        report(&context(&[]), &Scene::new(bare), &Scene::new(fewer)),
        format!(
            "--- Changed Transform @ 'Root/Child3' ---\n.m_Value 2999 -> -1\n--- Removed object '{}' ---\n",
            path
        )
    );
}

#[test]
fn roots_and_nodes_come_and_go() {
    let old = Scene::new(vec![
            node(1, "A", None, &[2], vec![]),
            node(2, "Child", Some(1), &[3], vec![]),
            node(3, "Leaf", Some(2), &[], vec![]),
            node(4, "Gone", None, &[], vec![]),
            node(5, "Orphan", Some(77), &[], vec![]),
        ]);
    let new = Scene::new(vec![
            node(1, "A", None, &[], vec![]),
            node(2, "A", None, &[], vec![]),
            node(3, "New", None, &[], vec![]),
        ]);
    assert_eq!(
        report(&context(&[]), &old, &new),
        "--- Added Object 'A'@1\n\n--- Added Object 'New'@0\n\n--- Removed object 'A/Child' ---\n--- Removed object 'A/Child/Leaf' ---\n--- Removed object 'Gone' ---\n--- Removed object 'Orphan' ---\n"
    );
}

fn compared(cx: &Context, old: Vec<Component>, new: Vec<Component>) -> String {
    let old = node(1, "N", None, &[], old);
    let new = node(2, "N", None, &[], new);
    let mut out = String::from(">");
    compare(cx, &mut out, "Root/N", OldNew::new(&old, &new));
    out
}

#[test]
fn components_are_added_removed_and_changed() {
    let old = vec![kind(4, 1), script("Game.Zed", 1), kind(23, 5), script("Game.Abc", 1)];
    let new = vec![script("Game.New", 1), kind(4, 2), script("Game.Abc", 9), kind(1, 5)];
    assert_eq!(
        compared(&context(&[]), old, new),
        ">--- Added Game.New @ 'Root/N' ---\n\n--- Added GameObject @ 'Root/N' ---\n\n--- Removed Game.Zed @ 'Root/N' ---\n\n--- Removed MeshRenderer @ 'Root/N' ---\n\n--- Changed Game.Abc @ 'Root/N' ---\n.m_Value 1 -> 9\n--- Changed Transform @ 'Root/N' ---\n.m_Value 1 -> 2\n"
    );
}

#[test]
fn equal_components_are_not_read() {
    let mut older = kind(4, 1);
    let mut newer = kind(4, 1);
    older.layout = field("", "", 0);
    newer.layout = part("vector", "broken", 4, vec![part("Array", "Array", 4, vec![])]);
    assert_eq!(compared(&context(&[]), vec![older], vec![newer]), ">");
}

#[test]
fn ignored_kinds_are_passed_over() {
    let old = vec![kind(4, 1), kind(28, 1)];
    let new = vec![kind(4, 2), kind(28, 2)];
    assert_eq!(
        compared(&context(&[28]), old, new),
        ">--- Changed Transform @ 'Root/N' ---\n.m_Value 1 -> 2\n"
    );
}

#[test]
fn the_last_component_under_a_key_counts() {
    let old = vec![kind(4, 1), kind(4, 2)];
    let new = vec![kind(4, 2), kind(4, 3)];
    assert_eq!(
        compared(&context(&[]), old, new),
        ">--- Changed Transform @ 'Root/N' ---\n.m_Value 2 -> 3\n"
    );
}

#[test]
fn unreadable_components_get_one_line() {
    let older = kind(4, 1);
    let mut newer = kind(4, 2);
    newer.data.truncate(3);
    assert_eq!(
        compared(&context(&[]), vec![older], vec![newer]),
        ">--- Changed Transform @ 'Root/N' ---\nchanged: could not diff\n"
    );
}

#[test]
fn components_of_unsound_layout_get_one_line() {
    let older = kind(4, 1);
    let mut newer = kind(4, 2);
    newer.layout = part("vector", "list", -1, vec![part("Array", "Array", -1, vec![])]);
    assert!(older.layout.is_sound());
    assert!(!newer.layout.is_sound());
    assert_eq!(
        compared(&context(&[]), vec![older], vec![newer]),
        ">--- Changed Transform @ 'Root/N' ---\nchanged: could not diff\n"
    );
}

#[test]
fn layouts_are_sound_or_not() {
    let list = |parts: Vec<Layout>| part("vector", "list", -1, vec![part("Array", "Array", -1, parts)]);
    assert!(list(vec![field("int", "size", 4), field("int", "data", 4)]).is_sound());
    assert!(!list(vec![field("int", "size", 4)]).is_sound());
    assert!(part("vector", "list", -1, vec![field("int", "Array", 4)]).is_sound());
    let pair = |parts: Vec<Layout>| part("pair", "data", -1, parts);
    let map = |parts: Vec<Layout>| part("map", "m", -1, parts);
    let array = |parts: Vec<Layout>| part("Array", "Array", -1, parts);
    let sound = map(vec![array(vec![
        field("int", "size", 4),
        pair(vec![field("int", "first", 4), field("int", "second", 4)]),
    ])]);
    assert!(sound.is_sound());
    assert!(!map(vec![]).is_sound());
    assert!(!map(vec![array(vec![field("int", "size", 4)])]).is_sound());
    assert!(!map(vec![array(vec![field("int", "size", 4), pair(vec![field("int", "first", 4)])])])
        .is_sound());
    assert!(!part("Thing", "Base", -1, vec![field("int", "a", 4), list(vec![])]).is_sound());
    assert!(part("Thing", "Base", -1, vec![field("int", "a", 4), sound]).is_sound());
}

fn list_layout() -> Layout {
    part(
        "vector",
        "m_List",
        -1,
        vec![part("Array", "Array", -1, vec![field("int", "size", 4), field("int", "data", 4)])],
    )
}

fn map_layout(key: &str) -> Layout {
    part(
        "map",
        "m_Map",
        -1,
        vec![part(
            "Array",
            "Array",
            -1,
            vec![
                field("int", "size", 4),
                part("pair", "data", -1, vec![field(key, "first", 4), field("int", "second", 4)]),
            ],
        )],
    )
}

fn numbers(values: &[i32]) -> Vec<u8> {
    values.iter().flat_map(|n| n.to_le_bytes()).collect()
}

fn holding(layout: Layout, data: Vec<u8>) -> Component {
    Component {
        key: ComponentKey::ClassId(4),
        class_id: 4,
        data,
        layout: part("Thing", "Base", -1, vec![layout, field("int", "m_Last", 4)]),
        byte_order: ByteOrder::Little,
    }
}

#[test]
fn lists_are_read() {
    assert!(list_layout().is_sound());
    let older = holding(list_layout(), numbers(&[2, 10, 20, 5]));
    let newer = holding(list_layout(), numbers(&[3, 10, 21, 30, 5]));
    assert_eq!(
        compared(&context(&[]), vec![older], vec![newer]),
        ">--- Changed Transform @ 'Root/N' ---\n  .m_List.[1] 20 -> 21\n> .m_List.[2] 30\n"
    );
}

#[test]
fn maps_are_read() {
    assert!(map_layout("string").is_sound());
    let entry = |value: i32| -> Vec<u8> {
        let mut data = numbers(&[1, 2]);
        data.extend_from_slice(b"ab\0\0");
        data.extend_from_slice(&numbers(&[value, 5]));
        data
    };
    let older = holding(map_layout("string"), entry(70));
    let newer = holding(map_layout("string"), entry(71));
    assert_eq!(
        compared(&context(&[]), vec![older], vec![newer]),
        ">--- Changed Transform @ 'Root/N' ---\n.m_Map.ab 70 -> 71\n"
    );
}

#[test]
fn byte_order_counts() {
    let mut older = kind(4, 1);
    let mut newer = kind(4, 2);
    older.byte_order = ByteOrder::Big;
    newer.byte_order = ByteOrder::Big;
    assert_eq!(
        compared(&context(&[]), vec![older], vec![newer]),
        ">--- Changed Transform @ 'Root/N' ---\n.m_Value 16777216 -> 33554432\n"
    );
}

#[test]
fn changes_that_are_hidden_leave_no_headline() {
    let older = component(ComponentKey::ClassId(4), 4, 1, 0);
    let mut newer = component(ComponentKey::ClassId(4), 4, 1, 0);
    newer.layout.children.push(field("int", "m_Fresh", 4));
    newer.data.extend_from_slice(&0i32.to_le_bytes());
    assert_eq!(compared(&context(&[]), vec![older], vec![newer]), ">");
}

#[test]
fn keys_prefer_the_script() {
    assert_eq!(
        ComponentKey::of(114, Some("Game.Main".to_string())),
        ComponentKey::Script("Game.Main".to_string())
    );
    assert_eq!(ComponentKey::of(114, None), ComponentKey::ClassId(114));
    assert_eq!(ComponentKey::of(4, Some("Game.Main".to_string())), ComponentKey::ClassId(4));
    assert_eq!(ComponentKey::of(4, None), ComponentKey::ClassId(4));
}

#[test]
fn kinds_are_ignored_on_either_side() {
    let cx = context(&[28]);
    assert!(cx.unity_filter.matches(4));
    assert!(!cx.unity_filter.matches(28));
    let older = component(ComponentKey::Script("S".to_string()), 28, 1, 0);
    let newer = component(ComponentKey::Script("S".to_string()), 114, 2, 0);
    assert_eq!(compared(&cx, vec![older], vec![newer]), ">");
    let older = component(ComponentKey::Script("S".to_string()), 114, 1, 0);
    let newer = component(ComponentKey::Script("S".to_string()), 28, 2, 0);
    assert_eq!(compared(&cx, vec![older], vec![newer]), ">");
    let older = component(ComponentKey::Script("S".to_string()), 114, 1, 0);
    let newer = component(ComponentKey::Script("S".to_string()), 114, 2, 0);
    assert_eq!(
        compared(&cx, vec![older], vec![newer]),
        ">--- Changed S @ 'Root/N' ---\n.m_Value 1 -> 2\n"
    );
}

#[test]
fn keys_tell_and_order_themselves() {
    let a = ComponentKey::Script("A".to_string());
    let b = ComponentKey::Script("B".to_string());
    let low = ComponentKey::ClassId(-5);
    let high = ComponentKey::ClassId(4);
    assert!(a.same_as(&ComponentKey::Script("A".to_string())));
    assert!(!a.same_as(&b));
    assert!(!low.same_as(&high));
    assert!(!a.same_as(&high));
    let keys = [&a, &b, &low, &high];
    for x in keys {
        for y in keys {
            assert_eq!(x.is_before(y), x < y, "{:?} before {:?}", x, y);
        }
    }
}

fn file(header: &str, scene: Scene) -> ContainerFile {
    ContainerFile { header: header.to_string(), scene }
}

#[test]
fn container_files_are_compared_by_header_and_tree() {
    let cx = context(&[]);
    let old = file("version 1\n", forest());
    let new = file("version 2\n", forest());
    assert_eq!(
        diff_serializedfile(&cx, OldNew::new(&old, &new)),
        "@@ -1 +1 @@\n-version 1\n+version 2\n"
    );
    let same = file("version 1\n", Scene::new(vec![node(1, "Only", None, &[], vec![])]));
    assert_eq!(
        diff_serializedfile(&cx, OldNew::new(&old, &same)),
        "--- Added Object 'Only'@0\n\n--- Removed object 'Root/Foo/Deep' ---\n--- Removed object 'Root' ---\n--- Removed object 'Root/Foo' ---\n--- Removed object 'Root/Foo' ---\n--- Removed object 'Root' ---\n"
    );
    assert_eq!(diff_serializedfile(&cx, OldNew::new(&old, &old)), "");
}

fn entry(path: &str, size: usize, scene: Option<Scene>) -> BundleEntry {
    BundleEntry { path: path.to_string(), size, file: scene.map(|s| file("h\n", s)) }
}

#[test]
fn archives_are_compared_entry_by_entry() {
    let cx = context(&[]);
    let one = Scene::new(vec![node(1, "One", None, &[], vec![])]);
    let two = Scene::new(vec![node(1, "Two", None, &[], vec![])]);
    let old = vec![
        entry("b.resS", 10, None),
        entry("level0", 1, Some(one)),
        entry("a\"quoted", 1, None),
        entry("c.resource", 5, None),
        entry("broken", 5, None),
    ];
    let new = vec![
        entry("level0", 1, Some(two)),
        entry("b.resS", 11, None),
        entry("c.resource", 5, None),
        entry("broken", 5, Some(Scene::new(vec![]))),
        entry("new1", 1, None),
        entry("new0", 1, None),
    ];
    assert_eq!(
        diff_bundlefile(&cx, OldNew::new(&old, &new)),
        "Removed: {\"a\\\"quoted\"}Added: {\"new0\", \"new1\"}=== b.resS ===\nchanged\n=== broken ===\nchanged: could not diff\n--- Added Object 'Two'@0\n\n--- Removed object 'One' ---\n"
    );
    assert_eq!(
        diff_bundlefile(&cx, OldNew::new(&old, &old)),
        "=== a\"quoted ===\nchanged: could not diff\n=== broken ===\nchanged: could not diff\n"
    );
    let grown = vec![entry("fresh", 1, None)];
    assert_eq!(diff_bundlefile(&cx, OldNew::new(&Vec::new(), &grown)), "Added: {\"fresh\"}");
    assert_eq!(diff_bundlefile(&cx, OldNew::new(&grown, &Vec::new())), "Removed: {\"fresh\"}");
    let streamed = vec![entry("fresh.resS", 1, None)];
    assert_eq!(diff_bundlefile(&cx, OldNew::new(&streamed, &streamed)), "");
}
