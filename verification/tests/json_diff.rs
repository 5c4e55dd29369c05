use std::collections::HashSet;

use snapshot_diff::diff::{Context, Filter};
use snapshot_diff::json::{is_json_default, JsonValue};
use snapshot_diff::json_diff::{
    clone_path, compare_values, diff_json, push_path_text, render_records, resolve_path,
    DiffRecord, PathStep,
};
use snapshot_diff::old_new::OldNew;
use snapshot_diff::text::is_text_before;

fn context(ignore: Option<&str>, hide_defaults: bool, sort: bool) -> Context {
    Context {
        file_filter: String::new(),
        text_diff_context_size: 6,
        json_ignore_regex: ignore.map(|p| regex::Regex::new(p).unwrap()),
        json_ignore_new_default: hide_defaults,
        json_sort: sort,
        cs_decompile_assembly: false,
        unity_filter: Filter { ignore_classes: HashSet::new() },
    }
}

fn num(text: &str) -> JsonValue {
    JsonValue::Number(text.to_string())
}

fn text(text: &str) -> JsonValue {
    JsonValue::String(text.to_string())
}

fn array(items: Vec<JsonValue>) -> JsonValue {
    JsonValue::Array(items)
}

fn object(entries: Vec<(&str, JsonValue)>) -> JsonValue {
    JsonValue::Object(entries.into_iter().map(|(k, v)| (k.to_string(), v)).collect())
}

fn shown(record: &DiffRecord) -> String {
    fn path_text(path: &Vec<PathStep>) -> String {
        let mut out = String::new();
        push_path_text(&mut out, path);
        out
    }
    match record {
        DiffRecord::Mismatch { path, old, new } => {
            format!("Mismatch({}, {:?}, {:?})", path_text(path), old, new)
        }
        DiffRecord::LeftOnly { path } => format!("LeftOnly({})", path_text(path)),
        DiffRecord::RightOnly { path } => format!("RightOnly({})", path_text(path)),
        DiffRecord::RootMismatch => "RootMismatch".to_string(),
    }
}

fn records(old: &JsonValue, new: &JsonValue) -> Vec<String> {
    compare_values(old, new).iter().map(shown).collect()
}

fn report(cx: &Context, old: &JsonValue, new: &JsonValue) -> String {
    diff_json(cx, OldNew::new(old, new))
}

#[test]
fn structured_value_scenario() {
    let old = object(vec![("x", num("1")), ("y", array(vec![num("1"), num("2")]))]);
    let new = object(vec![("x", num("2")), ("y", array(vec![num("1"), num("2"), num("3")]))]);
    assert_eq!(
        records(&old, &new),
        vec!["Mismatch(.x, Number(\"1\"), Number(\"2\"))", "RightOnly(.y.[2])"]
    );
    assert_eq!(report(&context(None, true, false), &old, &new), "  .x 1 -> 2\n> .y.[2] 3");
}

#[test]
fn a_value_does_not_differ_from_itself() {
    let value = object(vec![
        ("a", array(vec![num("1"), JsonValue::Null, object(vec![("b", text("c"))])])),
        ("d", JsonValue::Bool(true)),
    ]);
    assert!(compare_values(&value, &value).is_empty());
    assert_eq!(report(&context(None, false, false), &value, &value), "");
    assert_eq!(report(&context(None, true, true), &value, &value), "");
}

#[test]
fn the_order_of_keys_makes_no_difference() {
    let old = object(vec![("a", num("1")), ("b", num("2"))]);
    let new = object(vec![("b", num("2")), ("a", num("1"))]);
    assert!(compare_values(&old, &new).is_empty());
}

#[test]
fn differences_mirror_when_old_and_new_change_places() {
    let old = object(vec![
        ("x", num("1")),
        ("gone", text("g")),
        ("list", array(vec![num("1"), num("2"), num("3")])),
    ]);
    let new = object(vec![
        ("list", array(vec![num("1"), num("5")])),
        ("x", num("2")),
        ("fresh", JsonValue::Null),
    ]);
    assert_eq!(
        records(&old, &new),
        vec![
            "RightOnly(.fresh)",
            "LeftOnly(.gone)",
            "Mismatch(.list.[1], Number(\"2\"), Number(\"5\"))",
            "LeftOnly(.list.[2])",
            "Mismatch(.x, Number(\"1\"), Number(\"2\"))",
        ]
    );
    assert_eq!(
        records(&new, &old),
        vec![
            "LeftOnly(.fresh)",
            "RightOnly(.gone)",
            "Mismatch(.list.[1], Number(\"5\"), Number(\"2\"))",
            "RightOnly(.list.[2])",
            "Mismatch(.x, Number(\"2\"), Number(\"1\"))",
        ]
    );
}

#[test]
fn an_object_with_a_key_twice_goes_by_its_first_entry() {
    let twice = object(vec![("a", num("1")), ("a", num("2"))]);
    let once = object(vec![("a", num("1"))]);
    assert!(compare_values(&twice, &twice).is_empty());
    assert!(compare_values(&twice, &once).is_empty());
    assert!(compare_values(&once, &twice).is_empty());
}

#[test]
fn arrays_are_compared_by_position() {
    let old = array(vec![num("1"), num("2"), num("3")]);
    let new = array(vec![num("2"), num("3")]);
    assert_eq!(
        records(&old, &new),
        vec![
            "Mismatch(.[0], Number(\"1\"), Number(\"2\"))",
            "Mismatch(.[1], Number(\"2\"), Number(\"3\"))",
            "LeftOnly(.[2])",
        ]
    );
}

#[test]
fn roots_of_different_shape_are_a_root_mismatch() {
    let list = array(vec![]);
    let map = object(vec![]);
    assert_eq!(records(&map, &list), vec!["RootMismatch"]);
    assert_eq!(records(&list, &num("1")), vec!["RootMismatch"]);
    assert_eq!(records(&num("1"), &map), vec!["RootMismatch"]);
    assert_eq!(report(&context(None, true, false), &map, &list), "Mismatch at root.");
}

#[test]
fn different_scalars_at_the_root_are_a_mismatch() {
    assert_eq!(records(&num("1"), &text("1")), vec!["Mismatch(, Number(\"1\"), String(\"1\"))"]);
    assert_eq!(report(&context(None, true, false), &num("1"), &text("1")), " 1 -> \"1\"");
    assert!(records(&JsonValue::Null, &JsonValue::Null).is_empty());
    assert_eq!(records(&JsonValue::Bool(true), &JsonValue::Bool(false)).len(), 1);
}

#[test]
fn different_shapes_below_the_root_are_a_mismatch() {
    let old = object(vec![("a", array(vec![num("1")]))]);
    let new = object(vec![("a", object(vec![("b", num("1"))]))]);
    assert_eq!(
        report(&context(None, true, false), &old, &new),
        ".a [1] -> {\"b\":1}"
    );
}

#[test]
fn default_additions_are_hidden() {
    let old = object(vec![]);
    let new = object(vec![
        ("zero", num("0")),
        ("float", num("0.0")),
        ("minus", num("-0.0")),
        ("empty", text("")),
        ("none", array(vec![])),
        ("blank", object(vec![])),
        ("null", JsonValue::Null),
        ("no", JsonValue::Bool(false)),
        ("nested", object(vec![("deep", object(vec![("zero", num("0"))]))])),
        ("one", num("1")),
    ]);
    assert_eq!(compare_values(&old, &new).len(), 10);
    assert_eq!(report(&context(None, true, false), &old, &new), "> .one 1");
    let all = report(&context(None, false, false), &old, &new);
    assert_eq!(all.lines().filter(|l| l.starts_with("> ")).count(), 10);
    assert!(all.starts_with("> .blank {}\n> .empty \"\"\n> .float 0.0\n> .minus -0.0\n> .nested {"));
    assert!(all.ends_with("> .no false\n> .none []\n> .null null\n> .one 1\n> .zero 0"));
}

#[test]
fn default_removals_are_shown() {
    let old = object(vec![("zero", num("0"))]);
    let new = object(vec![]);
    assert_eq!(report(&context(None, true, false), &old, &new), "< .zero 0");
}

#[test]
fn which_values_are_default() {
    assert!(is_json_default(&JsonValue::Null));
    assert!(is_json_default(&JsonValue::Bool(false)));
    assert!(!is_json_default(&JsonValue::Bool(true)));
    for zero in ["0", "0.0", "-0", "-0.0", "0e0", "0E5", "0.00e-7", "-0.0E+12", "00", "0.", ".0"] {
        assert!(is_json_default(&num(zero)), "{:?} writes zero", zero);
    }
    for other in ["1", "-1", "0.1", "10", "0.01", "1e0", "0e", "0e+", "0e1x", "", "-", ".", "e0",
        "+0", "--0", "0..0", "0.0.0", "0x0", " 0", "0 ", "zero"]
    {
        assert!(!is_json_default(&num(other)), "{:?} does not write zero", other);
    }
    assert!(is_json_default(&text("")));
    assert!(!is_json_default(&text("0")));
    assert!(is_json_default(&array(vec![])));
    assert!(!is_json_default(&array(vec![num("0")])));
    assert!(is_json_default(&object(vec![])));
    assert!(is_json_default(&object(vec![("a", num("0")), ("b", object(vec![]))])));
    assert!(!is_json_default(&object(vec![("a", num("0")), ("b", num("2"))])));
}

#[test]
fn ignored_paths_are_passed_over() {
    let old = object(vec![
        ("m_PreloadTable", array(vec![num("1")])),
        ("keep", num("1")),
        ("inner", object(vec![("m_PreloadTable", num("1")), ("other", num("1"))])),
    ]);
    let new = object(vec![
        ("m_PreloadTable", array(vec![num("2"), num("3")])),
        ("keep", num("2")),
        ("inner", object(vec![("m_PreloadTable", num("2")), ("other", num("3"))])),
    ]);
    assert_eq!(compare_values(&old, &new).len(), 5);
    assert_eq!(
        report(&context(Some("m_PreloadTable"), true, false), &old, &new),
        ".inner.other 1 -> 3\n.keep 1 -> 2"
    );
    assert_eq!(
        report(&context(Some(r"^\.keep$"), true, false), &old, &new),
        "  .inner.m_PreloadTable 1 -> 2\n  .inner.other 1 -> 3\n  .m_PreloadTable.[0] 1 -> 2\n> .m_PreloadTable.[1] 3"
    );
}

#[test]
fn reports_of_mismatches_alone_have_no_margin() {
    let old = object(vec![("a", num("1")), ("b", text("x"))]);
    let new = object(vec![("a", num("2")), ("b", text("y"))]);
    assert_eq!(report(&context(None, true, false), &old, &new), ".a 1 -> 2\n.b \"x\" -> \"y\"");
}

#[test]
fn one_sided_values_are_printed() {
    let old = object(vec![("gone", object(vec![("a", num("1")), ("b", array(vec![text("x")]))]))]);
    let new = object(vec![("list", array(vec![]))]);
    assert_eq!(
        report(&context(None, true, false), &old, &new),
        "< .gone {\n  \"a\": 1,\n  \"b\": [\n    \"x\"\n  ]\n}"
    );
    let old = array(vec![]);
    let new = array(vec![object(vec![("a", num("1.5"))])]);
    assert_eq!(report(&context(None, true, false), &old, &new), "> .[0] {\"a\":1.5}");
}

#[test]
fn keys_are_sorted_on_request() {
    let old = object(vec![("b", num("1")), ("a", num("1"))]);
    let new = object(vec![("c", object(vec![("z", num("1")), ("y", num("2"))])), ("b", num("2"))]);
    assert_eq!(
        report(&context(None, true, false), &old, &new),
        "< .a 1\n  .b 1 -> 2\n> .c {\n  \"z\": 1,\n  \"y\": 2\n}"
    );
    assert_eq!(
        report(&context(None, true, true), &old, &new),
        "< .a 1\n  .b 1 -> 2\n> .c {\n  \"y\": 2,\n  \"z\": 1\n}"
    );
}

#[test]
fn sorting_puts_every_object_in_order() {
    let value = object(vec![
        ("b", array(vec![object(vec![("z", num("1")), ("a", num("2"))])])),
        ("a", num("1")),
        ("B", num("1")),
    ]);
    let expected = object(vec![
        ("B", num("1")),
        ("a", num("1")),
        ("b", array(vec![object(vec![("a", num("2")), ("z", num("1"))])])),
    ]);
    assert_eq!(format!("{:?}", value.sort_keys()), format!("{:?}", expected));
    assert_eq!(format!("{:?}", value.clone_value()), format!("{:?}", value));
}

#[test]
fn texts_are_ordered_as_strings_are() {
    let names = ["", "a", "B", "ab", "b", "é", "z", "10", "9", "a b", "a/b"];
    for a in names {
        for b in names {
            assert_eq!(is_text_before(a, b), a < b, "{:?} before {:?}", a, b);
        }
    }
}

#[test]
fn paths_are_followed() {
    let value = object(vec![("a", array(vec![num("1"), object(vec![("b", text("x"))])]))]);
    let path = vec![
        PathStep::Key("a".to_string()),
        PathStep::Index(1),
        PathStep::Key("b".to_string()),
    ];
    assert!(matches!(resolve_path(&value, &path), Some(JsonValue::String(s)) if s == "x"));
    assert!(matches!(resolve_path(&value, &Vec::new()), Some(JsonValue::Object(_))));
    let missing = vec![PathStep::Key("a".to_string()), PathStep::Index(2)];
    assert!(resolve_path(&value, &missing).is_none());
    let wrong = vec![PathStep::Index(0)];
    assert!(resolve_path(&value, &wrong).is_none());
    assert_eq!(value.find_entry("a"), Some(0));
    assert_eq!(value.find_entry("b"), None);
    let copy = clone_path(&path);
    let mut out = String::new();
    push_path_text(&mut out, &copy);
    assert_eq!(out, ".a.[1].b");
}

#[test]
fn records_are_rendered_as_given() {
    let old = object(vec![("a", num("1"))]);
    let new = object(vec![("b", num("0"))]);
    let listed = vec![
        DiffRecord::RootMismatch,
        DiffRecord::LeftOnly { path: vec![PathStep::Key("a".to_string())] },
        DiffRecord::RightOnly { path: vec![PathStep::Key("b".to_string())] },
        DiffRecord::RightOnly { path: vec![PathStep::Key("nowhere".to_string())] },
        DiffRecord::Mismatch { path: Vec::new(), old: num("1"), new: num("2") },
    ];
    assert_eq!(
        render_records(&context(None, true, false), &listed, &old, &new),
        "Mismatch at root.\n< .a 1\n> .nowhere\n   1 -> 2"
    );
    assert_eq!(render_records(&context(None, true, false), &Vec::new(), &old, &new), "");
}
