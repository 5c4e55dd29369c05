use crate::diff::{pattern_matches, regex_accepts, Context};
use crate::json::{
    compact_text, find_key, is_json_default, json_compact_text, json_pretty_text, pretty_text,
    JsonEntry, JsonValue, JsonView,
};
use crate::names::{name_list, names_view, sorted_names};
use crate::old_new::OldNew;
use crate::text::{decimal, push_char, push_decimal, str_equal};
use vstd::string::StringExecFns;
use vstd::prelude::*;

verus! {

/// One accessor of a path, as mathematics sees it.
pub enum StepView {
    Key(Seq<char>),
    Index(int),
}

/// One accessor of a path into a structured value: the name of an object's
/// field or the position of an array's item.
#[derive(Debug)]
pub enum PathStep {
    Key(String),
    Index(usize),
}

impl View for PathStep {
    type V = StepView;

    open spec fn view(&self) -> StepView {
        match self {
            PathStep::Key(k) => StepView::Key(k@),
            PathStep::Index(i) => StepView::Index(*i as int),
        }
    }
}

/// The accessors of a path, from the root down.
pub open spec fn path_view(path: Seq<PathStep>) -> Seq<StepView> {
    path.map_values(|s: PathStep| s@)
}

/// One difference between two structured values, as mathematics sees it.
pub enum RecordView {
    Mismatch { path: Seq<StepView>, old: JsonView, new: JsonView },
    LeftOnly { path: Seq<StepView> },
    RightOnly { path: Seq<StepView> },
    RootMismatch,
}

/// One difference between two structured values: two different values at
/// one path, a path that only the old value has, a path that only the new
/// value has, or two roots of different shape.
#[derive(Debug)]
pub enum DiffRecord {
    Mismatch { path: Vec<PathStep>, old: JsonValue, new: JsonValue },
    LeftOnly { path: Vec<PathStep> },
    RightOnly { path: Vec<PathStep> },
    RootMismatch,
}

impl View for DiffRecord {
    type V = RecordView;

    open spec fn view(&self) -> RecordView {
        match self {
            DiffRecord::Mismatch { path, old, new } => RecordView::Mismatch {
                path: path_view(path@),
                old: old@,
                new: new@,
            },
            DiffRecord::LeftOnly { path } => RecordView::LeftOnly { path: path_view(path@) },
            DiffRecord::RightOnly { path } => RecordView::RightOnly { path: path_view(path@) },
            DiffRecord::RootMismatch => RecordView::RootMismatch,
        }
    }
}

/// The differences that a list of records stands for.
pub open spec fn records_view(records: Seq<DiffRecord>) -> Seq<RecordView> {
    records.map_values(|r: DiffRecord| r@)
}

impl RecordView {
    /// Where the difference is; the root for two roots of different shape.
    pub open spec fn path(self) -> Seq<StepView> {
        match self {
            RecordView::Mismatch { path, .. } => path,
            RecordView::LeftOnly { path } => path,
            RecordView::RightOnly { path } => path,
            RecordView::RootMismatch => Seq::empty(),
        }
    }

    /// The same difference seen from the other side: old and new change
    /// places.
    pub open spec fn mirror(self) -> RecordView {
        match self {
            RecordView::Mismatch { path, old, new } => RecordView::Mismatch {
                path,
                old: new,
                new: old,
            },
            RecordView::LeftOnly { path } => RecordView::RightOnly { path },
            RecordView::RightOnly { path } => RecordView::LeftOnly { path },
            RecordView::RootMismatch => RecordView::RootMismatch,
        }
    }
}

/// The differences between `old` and `new`, both found at `path`, in the
/// order of a depth-first walk.
///
/// Two objects differ by what their keys contribute, the keys taken in the
/// order of a dictionary; two arrays differ by their items. Any other two
/// values differ if they are not equal: at the root, where one of them is
/// an object or an array, as a root mismatch, and else as a mismatch of the
/// two values.
pub open spec fn diff_at(old: JsonView, new: JsonView, path: Seq<StepView>) -> Seq<RecordView>
    decreases old, 0int,
{
    match (old, new) {
        (JsonView::Object(a), JsonView::Object(b)) => entries_walk(
            a,
            b,
            path,
            all_keys(a, b),
            all_keys(a, b).len() as int,
        ),
        (JsonView::Array(a), JsonView::Array(b)) => shared_items(a, b, path, 0) + extra_items(
            a.len() as int,
            b.len() as int,
            path,
        ),
        _ => if old == new {
            Seq::empty()
        } else if path.len() == 0 && (old.is_container() || new.is_container()) {
            seq![RecordView::RootMismatch]
        } else {
            seq![RecordView::Mismatch { path, old, new }]
        },
    }
}

/// The keys of entries, in their order.
pub open spec fn entry_keys(entries: Seq<JsonEntry>) -> Seq<Seq<char>> {
    entries.map_values(|e: JsonEntry| e.key)
}

/// The keys that two objects have between them, each once, in the order of
/// a dictionary.
pub open spec fn all_keys(a: Seq<JsonEntry>, b: Seq<JsonEntry>) -> Seq<Seq<char>> {
    let keys = entry_keys(a) + entry_keys(b);
    name_list(keys, keys.len() as int)
}

/// What `key` contributes to the differences between the old object `a` and
/// the new object `b`: where both have the key, what the two values under it
/// differ by; where one has it, one record on the side of that one. Where
/// an object has a key twice, its first entry under the key counts.
pub open spec fn entry_piece(
    a: Seq<JsonEntry>,
    b: Seq<JsonEntry>,
    path: Seq<StepView>,
    key: Seq<char>,
) -> Seq<RecordView>
    decreases a, 0int,
{
    let i = find_key(a, key, 0);
    let j = find_key(b, key, 0);
    let step = path.push(StepView::Key(key));
    if 0 <= i < a.len() {
        if 0 <= j < b.len() {
            diff_at(a[i].value, b[j].value, step)
        } else {
            seq![RecordView::LeftOnly { path: step }]
        }
    } else if 0 <= j < b.len() {
        seq![RecordView::RightOnly { path: step }]
    } else {
        Seq::empty()
    }
}

/// What the first `upto` of `keys` contribute, one after the other.
pub open spec fn entries_walk(
    a: Seq<JsonEntry>,
    b: Seq<JsonEntry>,
    path: Seq<StepView>,
    keys: Seq<Seq<char>>,
    upto: int,
) -> Seq<RecordView>
    decreases a, upto + 1,
{
    if upto <= 0 || upto > keys.len() {
        Seq::empty()
    } else {
        entries_walk(a, b, path, keys, upto - 1) + entry_piece(a, b, path, keys[upto - 1])
    }
}

/// What the positions from `i` on that both arrays have contribute: the two
/// items at one position are compared with each other.
pub open spec fn shared_items(
    a: Seq<JsonView>,
    b: Seq<JsonView>,
    path: Seq<StepView>,
    i: int,
) -> Seq<RecordView>
    decreases a, a.len() - i,
{
    if i < 0 || i >= a.len() || i >= b.len() {
        Seq::empty()
    } else {
        diff_at(a[i], b[i], path.push(StepView::Index(i))) + shared_items(a, b, path, i + 1)
    }
}

/// What the positions that only the longer of two arrays has contribute,
/// given the arrays' lengths: one record for each, on the side of the
/// longer array.
pub open spec fn extra_items(old_len: int, new_len: int, path: Seq<StepView>) -> Seq<RecordView> {
    if old_len > new_len {
        Seq::new(
            (old_len - new_len) as nat,
            |k: int| RecordView::LeftOnly { path: path.push(StepView::Index(new_len + k)) },
        )
    } else {
        Seq::new(
            (new_len - old_len) as nat,
            |k: int| RecordView::RightOnly { path: path.push(StepView::Index(old_len + k)) },
        )
    }
}

/// The differences between two structured values.
pub open spec fn diff_values(old: JsonView, new: JsonView) -> Seq<RecordView> {
    diff_at(old, new, Seq::empty())
}

impl PathStep {
    /// A copy of the accessor.
    pub fn clone_step(&self) -> (copy: PathStep)
        ensures
            copy@ == self@,
    {
        match self {
            PathStep::Key(k) => PathStep::Key(k.clone()),
            PathStep::Index(i) => PathStep::Index(*i),
        }
    }
}

/// A copy of a path.
pub fn clone_path(path: &Vec<PathStep>) -> (copy: Vec<PathStep>)
    ensures
        path_view(copy@) == path_view(path@),
{
    let mut copy: Vec<PathStep> = Vec::new();
    let mut i: usize = 0;
    while i < path.len()
        invariant
            i <= path.len(),
            copy.len() == i,
            forall|k: int| 0 <= k < i ==> copy[k]@ == path[k]@,
        decreases path.len() - i,
    {
        copy.push(path[i].clone_step());
        i += 1;
    }
    assert(path_view(copy@) =~= path_view(path@));
    copy
}

proof fn lemma_records_push(records: Seq<DiffRecord>, record: DiffRecord)
    ensures
        records_view(records.push(record)) == records_view(records).push(record@),
{
    assert(records_view(records.push(record)) =~= records_view(records).push(record@));
}

proof fn lemma_path_push(path: Seq<PathStep>, step: PathStep)
    ensures
        path_view(path.push(step)) == path_view(path).push(step@),
{
    assert(path_view(path.push(step)) =~= path_view(path).push(step@));
}

proof fn lemma_path_drop_last(path: Seq<PathStep>)
    ensures
        path.len() == path_view(path).len(),
        path.len() > 0 ==> path_view(path.drop_last()) == path_view(path).drop_last(),
        forall|prefix: Seq<StepView>, step: StepView|
            path_view(path) == prefix.push(step) ==> path.len() > 0 && #[trigger] prefix.push(
                step,
            ).drop_last() == prefix,
{
    if path.len() > 0 {
        assert(path_view(path.drop_last()) =~= path_view(path).drop_last());
    }
    assert forall|prefix: Seq<StepView>, step: StepView|
        path_view(path) == prefix.push(step) implies path.len() > 0 && #[trigger] prefix.push(
            step,
        ).drop_last() == prefix by {
        assert(prefix.push(step).drop_last() =~= prefix);
    }
}

/// Whether two values, not both objects and not both arrays, are equal.
fn same_scalar(older: &JsonValue, newer: &JsonValue) -> (same: bool)
    requires
        !(older is Object && newer is Object),
        !(older is Array && newer is Array),
    ensures
        same == (older@ == newer@),
{
    match (older, newer) {
        (JsonValue::Null, JsonValue::Null) => true,
        (JsonValue::Bool(a), JsonValue::Bool(b)) => *a == *b,
        (JsonValue::Number(a), JsonValue::Number(b)) => str_equal(a.as_str(), b.as_str()),
        (JsonValue::String(a), JsonValue::String(b)) => str_equal(a.as_str(), b.as_str()),
        _ => false,
    }
}

/// Appends to `out` the differences between `older` and `newer`, both found
/// at `path`.
#[verifier::loop_isolation(false)]
fn diff_into(
    older: &JsonValue,
    newer: &JsonValue,
    path: &mut Vec<PathStep>,
    out: &mut Vec<DiffRecord>,
)
    ensures
        path_view(final(path)@) == path_view(old(path)@),
        records_view(final(out)@) == records_view(old(out)@) + diff_at(
            older@,
            newer@,
            path_view(old(path)@),
        ),
    decreases older,
{
    let ghost here = path_view(path@);
    let ghost before = records_view(out@);
    match (older, newer) {
        (JsonValue::Object(a), JsonValue::Object(b)) => {
            let ghost av = older@->Object_0;
            let ghost bv = newer@->Object_0;
            let keys = keys_of_both(older, newer);
            let ghost listed = names_view(keys@);
            let mut k: usize = 0;
            proof {
                assert(records_view(out@) + Seq::<RecordView>::empty() =~= records_view(out@));
            }
            while k < keys.len()
                invariant
                    k <= keys.len(),
                    listed == names_view(keys@),
                    listed == all_keys(av, bv),
                    path_view(path@) == here,
                    records_view(out@) == before + entries_walk(av, bv, here, listed, k as int),
                decreases keys.len() - k,
            {
                let ghost so_far = entries_walk(av, bv, here, listed, k as int);
                let ghost piece = entry_piece(av, bv, here, listed[k as int]);
                let key = &keys[k];
                proof {
                    assert(listed[k as int] == key@);
                    lemma_path_push(path@, PathStep::Key(*key));
                    assert(before + so_far + Seq::<RecordView>::empty() =~= before + so_far);
                }
                path.push(PathStep::Key(key.clone()));
                match (older.find_entry(key.as_str()), newer.find_entry(key.as_str())) {
                    (Some(i), Some(j)) => {
                        diff_into(&a[i].1, &b[j].1, path, out);
                    },
                    (Some(_), None) => {
                        let record = DiffRecord::LeftOnly { path: clone_path(path) };
                        proof {
                            lemma_records_push(out@, record);
                            assert(records_view(out@).push(record@) =~= records_view(out@)
                                + seq![record@]);
                        }
                        out.push(record);
                    },
                    (None, Some(_)) => {
                        let record = DiffRecord::RightOnly { path: clone_path(path) };
                        proof {
                            lemma_records_push(out@, record);
                            assert(records_view(out@).push(record@) =~= records_view(out@)
                                + seq![record@]);
                        }
                        out.push(record);
                    },
                    (None, None) => {},
                }
                proof {
                    lemma_path_drop_last(path@);
                }
                path.pop();
                proof {
                    assert(records_view(out@) =~= before + (so_far + piece));
                }
                k += 1;
            }
        },
        (JsonValue::Array(a), JsonValue::Array(b)) => {
            let ghost av = older@->Array_0;
            let ghost bv = newer@->Array_0;
            let mut i: usize = 0;
            while i < a.len() && i < b.len()
                invariant
                    i <= a.len(),
                    i <= b.len(),
                    av.len() == a.len(),
                    bv.len() == b.len(),
                    path_view(path@) == here,
                    records_view(out@) + shared_items(av, bv, here, i as int) == before
                        + shared_items(av, bv, here, 0),
                decreases a.len() - i,
            {
                let ghost so_far = records_view(out@);
                let ghost rest = shared_items(av, bv, here, i as int + 1);
                proof {
                    lemma_path_push(path@, PathStep::Index(i));
                }
                path.push(PathStep::Index(i));
                diff_into(&a[i], &b[i], path, out);
                proof {
                    lemma_path_drop_last(path@);
                }
                path.pop();
                proof {
                    let piece = shared_items(av, bv, here, i as int);
                    assert(records_view(out@) + rest =~= so_far + piece);
                }
                i += 1;
            }
            proof {
                assert(records_view(out@) + Seq::<RecordView>::empty() =~= records_view(out@));
            }
            let ghost shared = records_view(out@);
            let ghost extras = extra_items(a.len() as int, b.len() as int, here);
            let common: usize = i;
            while i < a.len()
                invariant
                    common <= i <= a.len(),
                    common == b.len() || common == a.len(),
                    i > common ==> common == b.len(),
                    path_view(path@) == here,
                    records_view(out@) == shared + extras.take(i - common),
                decreases a.len() - i,
            {
                proof {
                    lemma_path_push(path@, PathStep::Index(i));
                }
                path.push(PathStep::Index(i));
                let record = DiffRecord::LeftOnly { path: clone_path(path) };
                proof {
                    lemma_records_push(out@, record);
                    lemma_path_drop_last(path@);
                    assert(extras.take(i - common + 1) =~= extras.take(i - common).push(record@));
                }
                out.push(record);
                path.pop();
                i += 1;
            }
            while i < b.len()
                invariant
                    common <= i,
                    a.len() > b.len() ==> i == a.len() && common == b.len(),
                    a.len() <= b.len() ==> i <= b.len() && common == a.len(),
                    path_view(path@) == here,
                    records_view(out@) == shared + extras.take(i - common),
                decreases b.len() - i,
            {
                proof {
                    lemma_path_push(path@, PathStep::Index(i));
                }
                path.push(PathStep::Index(i));
                let record = DiffRecord::RightOnly { path: clone_path(path) };
                proof {
                    lemma_records_push(out@, record);
                    lemma_path_drop_last(path@);
                    assert(extras.take(i - common + 1) =~= extras.take(i - common).push(record@));
                }
                out.push(record);
                path.pop();
                i += 1;
            }
            proof {
                assert(i - common == extras.len());
                assert(extras.take(extras.len() as int) =~= extras);
                assert(shared + extras =~= before + (shared_items(av, bv, here, 0) + extras));
            }
        },
        _ => {
            if !same_scalar(older, newer) {
                let record = if path.len() == 0 && (is_container(older) || is_container(newer)) {
                    DiffRecord::RootMismatch
                } else {
                    DiffRecord::Mismatch {
                        path: clone_path(path),
                        old: older.clone_value(),
                        new: newer.clone_value(),
                    }
                };
                proof {
                    lemma_records_push(out@, record);
                    assert(before.push(record@) =~= before + seq![record@]);
                }
                out.push(record);
            } else {
                assert(before + Seq::<RecordView>::empty() =~= before);
            }
        },
    }
}

/// The keys that two objects have between them, each once, in the order of
/// a dictionary.
#[verifier::loop_isolation(false)]
fn keys_of_both(older: &JsonValue, newer: &JsonValue) -> (keys: Vec<String>)
    requires
        older is Object,
        newer is Object,
    ensures
        names_view(keys@) == all_keys(older@->Object_0, newer@->Object_0),
{
    proof {
        older.lemma_object_view();
        newer.lemma_object_view();
    }
    let mut both: Vec<String> = Vec::new();
    match (older, newer) {
        (JsonValue::Object(a), JsonValue::Object(b)) => {
            let mut i: usize = 0;
            while i < a.len()
                invariant
                    i <= a.len(),
                    both.len() == i,
                    forall|k: int| 0 <= k < i ==> (#[trigger] both[k])@ == a[k].0@,
                decreases a.len() - i,
            {
                both.push(a[i].0.clone());
                i += 1;
            }
            let mut j: usize = 0;
            while j < b.len()
                invariant
                    j <= b.len(),
                    both.len() == a.len() + j,
                    forall|k: int| 0 <= k < a.len() ==> (#[trigger] both[k])@ == a[k].0@,
                    forall|k: int| 0 <= k < j ==> (#[trigger] both[a.len() + k])@ == b[k].0@,
                decreases b.len() - j,
            {
                both.push(b[j].0.clone());
                j += 1;
            }
            proof {
                let av = older@->Object_0;
                let bv = newer@->Object_0;
                let joined = entry_keys(av) + entry_keys(bv);
                assert(names_view(both@).len() == joined.len());
                assert forall|k: int| 0 <= k < joined.len() implies names_view(both@)[k]
                    == joined[k] by {
                    if k < a.len() {
                        assert(av[k].key == a[k].0@);
                        assert(both[k]@ == a[k].0@);
                    } else {
                        assert(bv[k - a.len()].key == b[k - a.len()].0@);
                        assert(both[a.len() + (k - a.len())]@ == b[k - a.len()].0@);
                    }
                }
                assert(names_view(both@) =~= joined);
            }
        },
        _ => {},
    }
    sorted_names(&both)
}

/// Whether a value is an array or an object.
fn is_container(value: &JsonValue) -> (container: bool)
    ensures
        container == value@.is_container(),
{
    match value {
        JsonValue::Array(_) => true,
        JsonValue::Object(_) => true,
        _ => false,
    }
}

/// Compares two structured values and lists their differences, in the
/// order of a depth-first walk.
pub fn compare_values(older: &JsonValue, newer: &JsonValue) -> (records: Vec<DiffRecord>)
    ensures
        records_view(records@) == diff_values(older@, newer@),
{
    let mut path: Vec<PathStep> = Vec::new();
    let mut out: Vec<DiffRecord> = Vec::new();
    diff_into(older, newer, &mut path, &mut out);
    proof {
        assert(path_view(Seq::<PathStep>::empty()) =~= Seq::<StepView>::empty());
        assert(records_view(Seq::<DiffRecord>::empty()) + diff_values(older@, newer@)
            =~= diff_values(older@, newer@));
    }
    out
}

/// The value that `path` leads to inside `value`, if it leads anywhere: a
/// key leads into an object, to its first entry under that key, and a
/// position leads into an array.
pub open spec fn resolve(value: JsonView, path: Seq<StepView>) -> Option<JsonView>
    decreases path.len(),
{
    if path.len() == 0 {
        Some(value)
    } else {
        match (value, path[0]) {
            (JsonView::Object(entries), StepView::Key(key)) => {
                let j = find_key(entries, key, 0);
                if j < entries.len() {
                    resolve(entries[j].value, path.drop_first())
                } else {
                    None
                }
            },
            (JsonView::Array(items), StepView::Index(i)) => if 0 <= i < items.len() {
                resolve(items[i], path.drop_first())
            } else {
                None
            },
            _ => None,
        }
    }
}

/// Follows `path` into `value`.
pub fn resolve_path<'a>(value: &'a JsonValue, path: &Vec<PathStep>) -> (found: Option<
    &'a JsonValue,
>)
    ensures
        match found {
            Some(v) => resolve(value@, path_view(path@)) == Some(v@),
            None => resolve(value@, path_view(path@)) is None,
        },
{
    let mut current: &JsonValue = value;
    let mut i: usize = 0;
    proof {
        assert(path_view(path@).skip(0) =~= path_view(path@));
    }
    while i < path.len()
        invariant
            i <= path.len(),
            resolve(value@, path_view(path@)) == resolve(current@, path_view(path@).skip(i as int)),
        decreases path.len() - i,
    {
        let ghost rest = path_view(path@).skip(i as int);
        proof {
            assert(rest.len() > 0);
            assert(rest[0] == path[i as int]@);
            assert(rest.drop_first() =~= path_view(path@).skip(i as int + 1));
        }
        match (current, &path[i]) {
            (JsonValue::Object(entries), PathStep::Key(key)) => {
                proof {
                    current.lemma_object_view();
                }
                match current.find_entry(key.as_str()) {
                    Some(j) => {
                        current = &entries[j].1;
                    },
                    None => {
                        return None;
                    },
                }
            },
            (JsonValue::Array(items), PathStep::Index(k)) => {
                proof {
                    current.lemma_array_view();
                }
                if *k < items.len() {
                    current = &items[*k];
                } else {
                    return None;
                }
            },
            _ => {
                return None;
            },
        }
        i += 1;
    }
    proof {
        assert(path_view(path@).skip(path.len() as int).len() == 0);
    }
    Some(current)
}

/// How one accessor reads in a report: a dot, then the key, or the position
/// in square brackets.
pub open spec fn step_text(step: StepView) -> Seq<char> {
    match step {
        StepView::Key(key) => seq!['.'] + key,
        StepView::Index(i) => seq!['.', '['] + decimal(i as nat) + seq![']'],
    }
}

/// How a path reads in a report: its accessors one after the other, from
/// the root down.
pub open spec fn path_text(path: Seq<StepView>) -> Seq<char>
    decreases path.len(),
{
    if path.len() == 0 {
        Seq::empty()
    } else {
        path_text(path.drop_last()) + step_text(path.last())
    }
}

/// Appends to `out` how `path` reads in a report.
pub fn push_path_text(out: &mut String, path: &Vec<PathStep>)
    ensures
        final(out)@ == old(out)@ + path_text(path_view(path@)),
{
    let mut i: usize = 0;
    proof {
        assert(path_view(path@).take(0) =~= Seq::<StepView>::empty());
        assert(out@ + Seq::<char>::empty() =~= out@);
    }
    while i < path.len()
        invariant
            i <= path.len(),
            out@ == old(out)@ + path_text(path_view(path@).take(i as int)),
        decreases path.len() - i,
    {
        let ghost before = out@;
        let ghost prefix = path_view(path@).take(i as int);
        let ghost next = path_view(path@).take(i as int + 1);
        proof {
            assert(next.drop_last() =~= prefix);
            assert(next.last() == path[i as int]@);
        }
        push_char(out, '.');
        match &path[i] {
            PathStep::Key(key) => {
                out.append(key.as_str());
                proof {
                    assert(out@ =~= before + (seq!['.'] + key@));
                }
            },
            PathStep::Index(k) => {
                push_char(out, '[');
                push_decimal(out, *k);
                push_char(out, ']');
                proof {
                    assert(out@ =~= before + (seq!['.', '['] + decimal(*k as nat) + seq![']']));
                }
            },
        }
        proof {
            assert(out@ =~= old(out)@ + path_text(next));
        }
        i += 1;
    }
    proof {
        assert(path_view(path@).take(path.len() as int) =~= path_view(path@));
    }
}

/// Whether the ignore pattern of `cx` matches the path of the record.
pub open spec fn ignored(cx: Context, record: RecordView) -> bool {
    cx.json_ignore_regex matches Some(pattern) && regex_accepts(
        pattern,
        path_text(record.path()),
    )
}

/// Whether the record is an addition that `cx` hides: `cx` hides default
/// additions, the record is only on the right, and the value it leads to in
/// `new` is one that an uninitialised field would hold.
pub open spec fn hidden_addition(cx: Context, record: RecordView, new: JsonView) -> bool {
    cx.json_ignore_new_default && record is RightOnly && (resolve(new, record.path()) matches Some(
        value,
    ) && value.is_default())
}

/// Whether every record that `cx` does not ignore is a mismatch of two
/// values, so that nothing was added and nothing removed.
pub open spec fn only_mismatches(cx: Context, records: Seq<RecordView>) -> bool {
    forall|i: int| 0 <= i < records.len() ==> ignored(cx, #[trigger] records[i]) || records[i] is Mismatch
}

/// What a report shows of the value on the one side that has it: after a
/// space, the value on one line where the path ends in an array position,
/// and else with one entry per line.
pub open spec fn side_text(found: Option<JsonView>, path: Seq<StepView>) -> Seq<char> {
    match found {
        Some(value) => if path.len() > 0 && path.last() is Index {
            seq![' '] + json_compact_text(value)
        } else {
            seq![' '] + json_pretty_text(value)
        },
        None => Seq::empty(),
    }
}

/// The line of a report for one record. A record on one side only starts
/// with `<` or `>`; a mismatch starts with two spaces, or with nothing where
/// the report holds only mismatches (`plain`).
pub open spec fn record_text(record: RecordView, plain: bool, old: JsonView, new: JsonView) -> Seq<
    char,
> {
    match record {
        RecordView::RootMismatch => "Mismatch at root."@,
        RecordView::LeftOnly { path } => "< "@ + path_text(path) + side_text(
            resolve(old, path),
            path,
        ),
        RecordView::RightOnly { path } => "> "@ + path_text(path) + side_text(
            resolve(new, path),
            path,
        ),
        RecordView::Mismatch { path, old: a, new: b } => (if plain {
            Seq::empty()
        } else {
            "  "@
        }) + path_text(path) + seq![' '] + json_compact_text(a) + " -> "@ + json_compact_text(b),
    }
}

/// The report for a list of records: the lines of the records that `cx`
/// neither ignores nor hides, each on a line of its own.
pub open spec fn report_lines(
    cx: Context,
    records: Seq<RecordView>,
    plain: bool,
    old: JsonView,
    new: JsonView,
) -> Seq<char>
    decreases records.len(),
{
    if records.len() == 0 {
        Seq::empty()
    } else {
        let head = report_lines(cx, records.drop_last(), plain, old, new);
        let record = records.last();
        if ignored(cx, record) || hidden_addition(cx, record, new) {
            head
        } else if head.len() > 0 {
            head.push('\n') + record_text(record, plain, old, new)
        } else {
            record_text(record, plain, old, new)
        }
    }
}

/// The report for the differences between two values as they stand.
pub open spec fn report_of(cx: Context, old: JsonView, new: JsonView) -> Seq<char> {
    let records = diff_values(old, new);
    report_lines(cx, records, only_mismatches(cx, records), old, new)
}

/// The report for the differences between two values: where `cx` asks for
/// it, the keys of all objects are put in order first.
pub open spec fn json_report(cx: Context, old: JsonView, new: JsonView) -> Seq<char> {
    if cx.json_sort {
        report_of(cx, old.sorted(), new.sorted())
    } else {
        report_of(cx, old, new)
    }
}

/// The text of a path and whether `cx` ignores a record at that path.
fn path_and_ignored(cx: &Context, path: &Vec<PathStep>) -> (r: (String, bool))
    ensures
        r.0@ == path_text(path_view(path@)),
        r.1 == (cx.json_ignore_regex matches Some(pattern) && regex_accepts(pattern, r.0@)),
{
    let mut text = String::new();
    push_path_text(&mut text, path);
    proof {
        assert(Seq::<char>::empty() + path_text(path_view(path@)) =~= path_text(path_view(path@)));
    }
    let skip = match &cx.json_ignore_regex {
        Some(pattern) => pattern_matches(pattern, text.as_str()),
        None => false,
    };
    (text, skip)
}

/// Whether `cx` ignores the record.
fn is_ignored(cx: &Context, record: &DiffRecord) -> (skip: bool)
    ensures
        skip == ignored(*cx, record@),
{
    match record {
        DiffRecord::Mismatch { path, .. } => path_and_ignored(cx, path).1,
        DiffRecord::LeftOnly { path } => path_and_ignored(cx, path).1,
        DiffRecord::RightOnly { path } => path_and_ignored(cx, path).1,
        DiffRecord::RootMismatch => {
            let path: Vec<PathStep> = Vec::new();
            proof {
                assert(path_view(path@) =~= Seq::<StepView>::empty());
            }
            path_and_ignored(cx, &path).1
        },
    }
}

/// Appends to `out` what a report shows of the value on the one side that
/// has it.
fn push_side_text(out: &mut String, side: &JsonValue, path: &Vec<PathStep>)
    ensures
        final(out)@ == old(out)@ + side_text(resolve(side@, path_view(path@)), path_view(path@)),
{
    proof {
        lemma_path_drop_last(path@);
        assert(out@ + Seq::<char>::empty() =~= out@);
    }
    match resolve_path(side, path) {
        Some(value) => {
            let ghost before = out@;
            push_char(out, ' ');
            let on_one_line = path.len() > 0 && match &path[path.len() - 1] {
                PathStep::Index(_) => true,
                PathStep::Key(_) => false,
            };
            if on_one_line {
                let text = compact_text(value);
                out.append(text.as_str());
                assert(out@ =~= before + (seq![' '] + json_compact_text(value@)));
            } else {
                let text = pretty_text(value);
                out.append(text.as_str());
                assert(out@ =~= before + (seq![' '] + json_pretty_text(value@)));
            }
        },
        None => {},
    }
}

/// Appends to `out` the line of a report for one record.
fn push_record_text(
    out: &mut String,
    record: &DiffRecord,
    plain: bool,
    older: &JsonValue,
    newer: &JsonValue,
)
    ensures
        final(out)@ == old(out)@ + record_text(record@, plain, older@, newer@),
{
    let ghost before = out@;
    match record {
        DiffRecord::RootMismatch => {
            out.append("Mismatch at root.");
        },
        DiffRecord::LeftOnly { path } => {
            out.append("< ");
            push_path_text(out, path);
            push_side_text(out, older, path);
            assert(out@ =~= before + record_text(record@, plain, older@, newer@));
        },
        DiffRecord::RightOnly { path } => {
            out.append("> ");
            push_path_text(out, path);
            push_side_text(out, newer, path);
            assert(out@ =~= before + record_text(record@, plain, older@, newer@));
        },
        DiffRecord::Mismatch { path, old: a, new: b } => {
            if !plain {
                out.append("  ");
            }
            push_path_text(out, path);
            push_char(out, ' ');
            let left = compact_text(a);
            out.append(left.as_str());
            out.append(" -> ");
            let right = compact_text(b);
            out.append(right.as_str());
            assert(out@ =~= before + record_text(record@, plain, older@, newer@));
        },
    }
}

/// Renders a list of differences between `older` and `newer` as a report:
/// one line for each record that `cx` neither ignores nor hides.
pub fn render_records(
    cx: &Context,
    records: &Vec<DiffRecord>,
    older: &JsonValue,
    newer: &JsonValue,
) -> (text: String)
    ensures
        text@ == report_lines(
            *cx,
            records_view(records@),
            only_mismatches(*cx, records_view(records@)),
            older@,
            newer@,
        ),
{
    let ghost all = records_view(records@);
    let mut plain = true;
    let mut i: usize = 0;
    while i < records.len()
        invariant
            i <= records.len(),
            all == records_view(records@),
            plain == only_mismatches(*cx, all.take(i as int)),
        decreases records.len() - i,
    {
        let is_mismatch = match &records[i] {
            DiffRecord::Mismatch { .. } => true,
            _ => false,
        };
        let keeps = is_mismatch || is_ignored(cx, &records[i]);
        proof {
            let next = all.take(i as int + 1);
            assert(next[i as int] == records[i as int]@);
            if plain && keeps {
                assert forall|k: int| 0 <= k < next.len() implies ignored(*cx, #[trigger] next[k])
                    || next[k] is Mismatch by {
                    if k < i {
                        assert(next[k] == all.take(i as int)[k]);
                    }
                }
            } else if plain {
                assert(!(ignored(*cx, next[i as int]) || next[i as int] is Mismatch));
            } else {
                let k = choose|k: int|
                    0 <= k < i && !(ignored(*cx, #[trigger] all.take(i as int)[k]) || all.take(
                        i as int,
                    )[k] is Mismatch);
                assert(next[k] == all.take(i as int)[k]);
            }
        }
        plain = plain && keeps;
        i += 1;
    }
    proof {
        assert(all.take(records.len() as int) =~= all);
    }
    let mut out = String::new();
    let mut i: usize = 0;
    proof {
        assert(all.take(0) =~= Seq::<RecordView>::empty());
    }
    while i < records.len()
        invariant
            i <= records.len(),
            all == records_view(records@),
            out@ == report_lines(*cx, all.take(i as int), plain, older@, newer@),
        decreases records.len() - i,
    {
        let record = &records[i];
        proof {
            let next = all.take(i as int + 1);
            assert(next.drop_last() =~= all.take(i as int));
            assert(next.last() == record@);
        }
        let skip = is_ignored(cx, record) || (cx.json_ignore_new_default && match record {
            DiffRecord::RightOnly { path } => match resolve_path(newer, path) {
                Some(value) => is_json_default(value),
                None => false,
            },
            _ => false,
        });
        if !skip {
            if !out.as_str().is_empty() {
                push_char(&mut out, '\n');
            }
            push_record_text(&mut out, record, plain, older, newer);
            proof {
                let head = report_lines(*cx, all.take(i as int), plain, older@, newer@);
                assert(Seq::<char>::empty() + record_text(record@, plain, older@, newer@)
                    =~= record_text(record@, plain, older@, newer@));
            }
        }
        i += 1;
    }
    proof {
        assert(all.take(records.len() as int) =~= all);
    }
    out
}

/// Compares two structured values as they stand and renders what differs.
fn render_diff(cx: &Context, older: &JsonValue, newer: &JsonValue) -> (text: String)
    ensures
        text@ == report_of(*cx, older@, newer@),
{
    let records = compare_values(older, newer);
    render_records(cx, &records, older, newer)
}

/// Compares two structured values and renders what differs between them,
/// one line for each difference.
pub fn diff_json(cx: &Context, data: OldNew<&JsonValue>) -> (text: String)
    ensures
        text@ == json_report(*cx, data.old@, data.new@),
{
    if cx.json_sort {
        let older = data.old.sort_keys();
        let newer = data.new.sort_keys();
        render_diff(cx, &older, &newer)
    } else {
        render_diff(cx, data.old, data.new)
    }
}

} // verus!
