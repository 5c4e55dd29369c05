use crate::diff::Context;
use crate::json::{find_key, insert_position, sort_entries, JsonEntry, JsonView};
use crate::json_diff::{
    all_keys, diff_at, diff_values, entries_walk, entry_keys, entry_piece, extra_items, ignored,
    record_text, report_lines, report_of, resolve, shared_items, RecordView, StepView,
};
use crate::order::{
    lemma_before_asymmetric, lemma_before_total, lemma_before_transitive,
    lemma_name_list_is_canonical,
};
use crate::text::{count_char, exponent_mark, is_exponent, is_zero_numeral, text_before};
use vstd::prelude::*;

verus! {

proof fn lemma_same_entries(
    entries: Seq<JsonEntry>,
    path: Seq<StepView>,
    keys: Seq<Seq<char>>,
    upto: int,
)
    requires
        0 <= upto <= keys.len(),
    ensures
        entries_walk(entries, entries, path, keys, upto) == Seq::<RecordView>::empty(),
    decreases entries, upto,
{
    if upto > 0 {
        lemma_same_entries(entries, path, keys, upto - 1);
        let key = keys[upto - 1];
        let i = find_key(entries, key, 0);
        if 0 <= i < entries.len() {
            lemma_same_at(entries[i].value, path.push(StepView::Key(key)));
        }
        assert(entry_piece(entries, entries, path, key) =~= Seq::<RecordView>::empty());
        assert(entries_walk(entries, entries, path, keys, upto) =~= Seq::<RecordView>::empty());
    }
}

proof fn lemma_same_items(items: Seq<JsonView>, path: Seq<StepView>, i: int)
    requires
        0 <= i,
    ensures
        shared_items(items, items, path, i) == Seq::<RecordView>::empty(),
    decreases items, items.len() - i,
{
    if i < items.len() {
        lemma_same_at(items[i], path.push(StepView::Index(i)));
        lemma_same_items(items, path, i + 1);
        assert(shared_items(items, items, path, i) =~= Seq::<RecordView>::empty());
    }
}

/// A value does not differ from itself, wherever it is found.
pub proof fn lemma_same_at(value: JsonView, path: Seq<StepView>)
    ensures
        diff_at(value, value, path) == Seq::<RecordView>::empty(),
    decreases value, 0int,
{
    match value {
        JsonView::Object(entries) => {
            let keys = all_keys(entries, entries);
            lemma_same_entries(entries, path, keys, keys.len() as int);
        },
        JsonView::Array(items) => {
            lemma_same_items(items, path, 0);
            assert(extra_items(items.len() as int, items.len() as int, path) =~= Seq::<
                RecordView,
            >::empty());
            assert(diff_at(value, value, path) =~= Seq::<RecordView>::empty());
        },
        _ => {},
    }
}

/// Comparing a value with itself finds no difference, and the report of it
/// is empty, whatever the context ignores or hides.
pub proof fn lemma_diff_of_same_is_empty(cx: Context, value: JsonView)
    ensures
        diff_values(value, value) == Seq::<RecordView>::empty(),
        report_of(cx, value, value) == Seq::<char>::empty(),
{
    lemma_same_at(value, Seq::empty());
}

/// The records, each seen from the other side.
pub open spec fn mirrored(records: Seq<RecordView>) -> Seq<RecordView> {
    records.map_values(|r: RecordView| r.mirror())
}

proof fn lemma_mirrored_concat(x: Seq<RecordView>, y: Seq<RecordView>)
    ensures
        mirrored(x + y) == mirrored(x) + mirrored(y),
{
    assert(mirrored(x + y) =~= mirrored(x) + mirrored(y));
}

/// Two objects have the same keys between them whichever is taken first.
proof fn lemma_all_keys_commute(a: Seq<JsonEntry>, b: Seq<JsonEntry>)
    ensures
        all_keys(a, b) == all_keys(b, a),
{
    let x = entry_keys(a) + entry_keys(b);
    let y = entry_keys(b) + entry_keys(a);
    assert forall|name: Seq<char>| x.contains(name) <==> y.contains(name) by {
        if x.contains(name) {
            let k = choose|k: int| 0 <= k < x.len() && x[k] == name;
            if k < entry_keys(a).len() {
                assert(y[entry_keys(b).len() + k] == name);
            } else {
                assert(y[k - entry_keys(a).len()] == name);
            }
        }
        if y.contains(name) {
            let k = choose|k: int| 0 <= k < y.len() && y[k] == name;
            if k < entry_keys(b).len() {
                assert(x[entry_keys(a).len() + k] == name);
            } else {
                assert(x[k - entry_keys(b).len()] == name);
            }
        }
    }
    lemma_name_list_is_canonical(x, y);
}

proof fn lemma_mirror_entries(
    a: Seq<JsonEntry>,
    b: Seq<JsonEntry>,
    path: Seq<StepView>,
    keys: Seq<Seq<char>>,
    upto: int,
)
    requires
        0 <= upto <= keys.len(),
    ensures
        entries_walk(b, a, path, keys, upto) == mirrored(entries_walk(a, b, path, keys, upto)),
    decreases a, upto,
{
    if upto > 0 {
        lemma_mirror_entries(a, b, path, keys, upto - 1);
        let key = keys[upto - 1];
        let i = find_key(a, key, 0);
        let j = find_key(b, key, 0);
        let step = path.push(StepView::Key(key));
        if 0 <= i < a.len() && 0 <= j < b.len() {
            lemma_mirror_at(a[i].value, b[j].value, step);
        }
        assert(entry_piece(b, a, path, key) =~= mirrored(entry_piece(a, b, path, key)));
        lemma_mirrored_concat(
            entries_walk(a, b, path, keys, upto - 1),
            entry_piece(a, b, path, key),
        );
    } else {
        assert(mirrored(Seq::<RecordView>::empty()) =~= Seq::<RecordView>::empty());
    }
}

proof fn lemma_mirror_items(a: Seq<JsonView>, b: Seq<JsonView>, path: Seq<StepView>, i: int)
    requires
        0 <= i,
    ensures
        shared_items(b, a, path, i) == mirrored(shared_items(a, b, path, i)),
    decreases a, a.len() - i,
{
    if i < a.len() && i < b.len() {
        lemma_mirror_at(a[i], b[i], path.push(StepView::Index(i)));
        lemma_mirror_items(a, b, path, i + 1);
        lemma_mirrored_concat(
            diff_at(a[i], b[i], path.push(StepView::Index(i))),
            shared_items(a, b, path, i + 1),
        );
    } else {
        assert(mirrored(Seq::<RecordView>::empty()) =~= Seq::<RecordView>::empty());
    }
}

/// The differences between `new` and `old` are the differences between
/// `old` and `new`, each seen from the other side.
pub proof fn lemma_mirror_at(old: JsonView, new: JsonView, path: Seq<StepView>)
    ensures
        diff_at(new, old, path) == mirrored(diff_at(old, new, path)),
    decreases old, 0int,
{
    match (old, new) {
        (JsonView::Object(a), JsonView::Object(b)) => {
            lemma_all_keys_commute(a, b);
            let keys = all_keys(a, b);
            lemma_mirror_entries(a, b, path, keys, keys.len() as int);
        },
        (JsonView::Array(a), JsonView::Array(b)) => {
            lemma_mirror_items(a, b, path, 0);
            let extras = extra_items(a.len() as int, b.len() as int, path);
            assert(extra_items(b.len() as int, a.len() as int, path) =~= mirrored(extras));
            lemma_mirrored_concat(shared_items(a, b, path, 0), extras);
        },
        _ => {
            assert(diff_at(new, old, path) =~= mirrored(diff_at(old, new, path)));
        },
    }
}

/// Exchanging old and new exchanges the sides of the differences and
/// nothing else: the differences between `new` and `old` are those between
/// `old` and `new`, in the same order, with left and right exchanged and the
/// two values of each mismatch exchanged.
pub proof fn lemma_diff_mirrors(old: JsonView, new: JsonView)
    ensures
        diff_values(new, old) == mirrored(diff_values(old, new)),
{
    lemma_mirror_at(old, new, Seq::empty());
}

/// Where default additions are hidden, a record only on the right that
/// leads to a value that an uninitialised field would hold adds nothing to
/// a report.
pub proof fn lemma_default_addition_hidden(
    cx: Context,
    records: Seq<RecordView>,
    record: RecordView,
    plain: bool,
    old: JsonView,
    new: JsonView,
)
    requires
        cx.json_ignore_new_default,
        record is RightOnly,
        resolve(new, record.path()) matches Some(value) && value.is_default(),
    ensures
        report_lines(cx, records.push(record), plain, old, new) == report_lines(
            cx,
            records,
            plain,
            old,
            new,
        ),
{
    assert(records.push(record).drop_last() =~= records);
}

/// A record only on the right that leads to any other value, and that the
/// context does not ignore, adds its line to a report.
pub proof fn lemma_other_addition_shown(
    cx: Context,
    records: Seq<RecordView>,
    record: RecordView,
    plain: bool,
    old: JsonView,
    new: JsonView,
)
    requires
        record is RightOnly,
        !ignored(cx, record),
        resolve(new, record.path()) matches Some(value) && !value.is_default(),
    ensures
        ({
            let head = report_lines(cx, records, plain, old, new);
            let line = record_text(record, plain, old, new);
            report_lines(cx, records.push(record), plain, old, new) == if head.len() > 0 {
                head.push('\n') + line
            } else {
                line
            }
        }),
{
    assert(records.push(record).drop_last() =~= records);
}

/// Null, false, the number zero, the empty string, the empty array and the
/// empty object are values that an uninitialised field would hold, and so
/// is an object that holds only such values. A number is such a value
/// exactly when its text writes zero.
pub proof fn lemma_default_values(number: Seq<char>, entries: Seq<JsonEntry>)
    ensures
        JsonView::Null.is_default(),
        JsonView::Bool(false).is_default(),
        !JsonView::Bool(true).is_default(),
        JsonView::Number(number).is_default() <==> is_zero_numeral(number),
        JsonView::String(Seq::empty()).is_default(),
        JsonView::Array(Seq::empty()).is_default(),
        JsonView::Object(Seq::empty()).is_default(),
        JsonView::Object(entries).is_default() <==> (forall|i: int|
            0 <= i < entries.len() ==> (#[trigger] entries[i]).value.is_default()),
{
}

/// Zero is zero however it is written: as `0`, as `0.0`, as `-0`, as `0e0`
/// and as `-0.0E+5`. The empty text, `1`, `0.1` and `10` do not write zero.
pub proof fn lemma_spellings_of_zero()
    ensures
        is_zero_numeral(seq!['0']),
        is_zero_numeral(seq!['0', '.', '0']),
        is_zero_numeral(seq!['-', '0']),
        is_zero_numeral(seq!['0', 'e', '0']),
        is_zero_numeral(seq!['-', '0', '.', '0', 'E', '+', '5']),
        !is_zero_numeral(Seq::empty()),
        !is_zero_numeral(seq!['1']),
        !is_zero_numeral(seq!['0', '.', '1']),
        !is_zero_numeral(seq!['1', '0']),
{
    reveal_with_fuel(exponent_mark, 8);
    reveal_with_fuel(count_char, 8);
    let a = seq!['-', '0'];
    assert(a.skip(1) =~= seq!['0']);
    let b = seq!['0', 'e', '0'];
    assert(b.skip(2) =~= seq!['0']);
    assert(is_exponent(seq!['0']));
    let c = seq!['-', '0', '.', '0', 'E', '+', '5'];
    let body = seq!['0', '.', '0', 'E', '+', '5'];
    assert(c.skip(1) =~= body);
    let tail = seq!['+', '5'];
    assert(body.skip(4) =~= tail);
    assert(tail.skip(1) =~= seq!['5']);
    assert(is_exponent(tail));
}

/// A text with a character before its exponent that is neither a zero nor
/// a point does not write zero: no number other than zero is a default.
pub proof fn lemma_other_digit_is_not_zero(text: Seq<char>, i: int)
    requires
        0 <= i < exponent_mark(text, 0),
        text[i] != '0',
        text[i] != '.',
        text.len() > 0 ==> text[0] != '-',
    ensures
        !is_zero_numeral(text),
{
    let mark = exponent_mark(text, 0);
    lemma_mark_in_text(text, 0);
    lemma_count_misses(text, i, mark);
}

proof fn lemma_mark_in_text(text: Seq<char>, from: int)
    requires
        0 <= from <= text.len(),
    ensures
        from <= exponent_mark(text, from) <= text.len(),
    decreases text.len() - from,
{
    if from < text.len() && !(text[from] == 'e' || text[from] == 'E') {
        lemma_mark_in_text(text, from + 1);
    }
}

proof fn lemma_count_misses(text: Seq<char>, i: int, upto: int)
    requires
        0 <= i < upto <= text.len(),
        text[i] != '0',
        text[i] != '.',
    ensures
        count_char(text, '0', upto) + count_char(text, '.', upto) < upto,
    decreases upto,
{
    if i < upto - 1 {
        lemma_count_misses(text, i, upto - 1);
    } else {
        lemma_count_bound(text, upto - 1);
    }
}

proof fn lemma_count_bound(text: Seq<char>, upto: int)
    requires
        0 <= upto <= text.len(),
    ensures
        count_char(text, '0', upto) + count_char(text, '.', upto) <= upto,
    decreases upto,
{
    if upto > 0 {
        lemma_count_bound(text, upto - 1);
    }
}

/// Whether a record leads somewhere: a mismatch to its two values in the
/// two roots, a record on one side to a value in the root of that side.
pub open spec fn leads_somewhere(record: RecordView, old_root: JsonView, new_root: JsonView)
    -> bool {
    match record {
        RecordView::Mismatch { path, old, new } => resolve(old_root, path) == Some(old) && resolve(
            new_root,
            path,
        ) == Some(new),
        RecordView::LeftOnly { path } => resolve(old_root, path) is Some,
        RecordView::RightOnly { path } => resolve(new_root, path) is Some,
        RecordView::RootMismatch => true,
    }
}

/// Whether each of the records leads somewhere.
pub open spec fn all_lead_somewhere(
    records: Seq<RecordView>,
    old_root: JsonView,
    new_root: JsonView,
) -> bool {
    forall|k: int| 0 <= k < records.len() ==> leads_somewhere(#[trigger] records[k], old_root, new_root)
}

/// A path with one more step leads to where the step leads from where the
/// path leads.
proof fn lemma_resolve_step(root: JsonView, path: Seq<StepView>, found: JsonView, step: StepView)
    requires
        resolve(root, path) == Some(found),
    ensures
        resolve(root, path.push(step)) == resolve(found, seq![step]),
    decreases path.len(),
{
    let longer = path.push(step);
    if path.len() == 0 {
        assert(longer =~= seq![step]);
    } else {
        assert(longer[0] == path[0]);
        assert(longer.drop_first() =~= path.drop_first().push(step));
        match (root, path[0]) {
            (JsonView::Object(entries), StepView::Key(key)) => {
                let j = find_key(entries, key, 0);
                lemma_resolve_step(entries[j].value, path.drop_first(), found, step);
            },
            (JsonView::Array(items), StepView::Index(i)) => {
                lemma_resolve_step(items[i], path.drop_first(), found, step);
            },
            _ => {},
        }
    }
}

proof fn lemma_one_step(value: JsonView, step: StepView)
    ensures
        resolve(value, seq![step]) == match (value, step) {
            (JsonView::Object(entries), StepView::Key(key)) => if find_key(entries, key, 0)
                < entries.len() {
                Some(entries[find_key(entries, key, 0)].value)
            } else {
                None
            },
            (JsonView::Array(items), StepView::Index(i)) => if 0 <= i < items.len() {
                Some(items[i])
            } else {
                None
            },
            _ => None,
        },
{
    let path = seq![step];
    assert(path.drop_first() =~= Seq::<StepView>::empty());
    reveal_with_fuel(resolve, 2);
}

proof fn lemma_concat_leads(
    x: Seq<RecordView>,
    y: Seq<RecordView>,
    old_root: JsonView,
    new_root: JsonView,
)
    requires
        all_lead_somewhere(x, old_root, new_root),
        all_lead_somewhere(y, old_root, new_root),
    ensures
        all_lead_somewhere(x + y, old_root, new_root),
{
    assert forall|k: int| 0 <= k < (x + y).len() implies leads_somewhere(
        #[trigger] (x + y)[k],
        old_root,
        new_root,
    ) by {
        if k < x.len() {
            assert((x + y)[k] == x[k]);
        } else {
            assert((x + y)[k] == y[k - x.len()]);
        }
    }
}

proof fn lemma_entries_lead(
    old_root: JsonView,
    new_root: JsonView,
    a: Seq<JsonEntry>,
    b: Seq<JsonEntry>,
    path: Seq<StepView>,
    keys: Seq<Seq<char>>,
    upto: int,
)
    requires
        resolve(old_root, path) == Some(JsonView::Object(a)),
        resolve(new_root, path) == Some(JsonView::Object(b)),
        0 <= upto <= keys.len(),
    ensures
        all_lead_somewhere(entries_walk(a, b, path, keys, upto), old_root, new_root),
    decreases a, upto,
{
    if upto > 0 {
        lemma_entries_lead(old_root, new_root, a, b, path, keys, upto - 1);
        let key = keys[upto - 1];
        let step = StepView::Key(key);
        let i = find_key(a, key, 0);
        let j = find_key(b, key, 0);
        lemma_resolve_step(old_root, path, JsonView::Object(a), step);
        lemma_resolve_step(new_root, path, JsonView::Object(b), step);
        lemma_one_step(JsonView::Object(a), step);
        lemma_one_step(JsonView::Object(b), step);
        lemma_find_key_bounds(a, key, 0);
        lemma_find_key_bounds(b, key, 0);
        if 0 <= i < a.len() && 0 <= j < b.len() {
            lemma_diff_leads(old_root, new_root, a[i].value, b[j].value, path.push(step));
        }
        let piece = entry_piece(a, b, path, key);
        assert(all_lead_somewhere(piece, old_root, new_root));
        lemma_concat_leads(
            entries_walk(a, b, path, keys, upto - 1),
            piece,
            old_root,
            new_root,
        );
    }
}

/// What `find_key` returns is a position from `from` on or the number of
/// entries.
pub proof fn lemma_find_key_bounds(entries: Seq<JsonEntry>, key: Seq<char>, from: int)
    requires
        0 <= from,
    ensures
        from <= find_key(entries, key, from) || find_key(entries, key, from) == entries.len(),
        0 <= find_key(entries, key, from) <= entries.len(),
    decreases entries.len() - from,
{
    if from < entries.len() && entries[from].key != key {
        lemma_find_key_bounds(entries, key, from + 1);
    }
}

proof fn lemma_items_lead(
    old_root: JsonView,
    new_root: JsonView,
    a: Seq<JsonView>,
    b: Seq<JsonView>,
    path: Seq<StepView>,
    i: int,
)
    requires
        resolve(old_root, path) == Some(JsonView::Array(a)),
        resolve(new_root, path) == Some(JsonView::Array(b)),
        0 <= i,
    ensures
        all_lead_somewhere(shared_items(a, b, path, i), old_root, new_root),
    decreases a, a.len() - i,
{
    if i < a.len() && i < b.len() {
        let step = StepView::Index(i);
        lemma_resolve_step(old_root, path, JsonView::Array(a), step);
        lemma_resolve_step(new_root, path, JsonView::Array(b), step);
        lemma_one_step(JsonView::Array(a), step);
        lemma_one_step(JsonView::Array(b), step);
        lemma_diff_leads(old_root, new_root, a[i], b[i], path.push(step));
        lemma_items_lead(old_root, new_root, a, b, path, i + 1);
        lemma_concat_leads(
            diff_at(a[i], b[i], path.push(step)),
            shared_items(a, b, path, i + 1),
            old_root,
            new_root,
        );
    }
}

proof fn lemma_diff_leads(
    old_root: JsonView,
    new_root: JsonView,
    old: JsonView,
    new: JsonView,
    path: Seq<StepView>,
)
    requires
        resolve(old_root, path) == Some(old),
        resolve(new_root, path) == Some(new),
    ensures
        all_lead_somewhere(diff_at(old, new, path), old_root, new_root),
    decreases old, 0int,
{
    match (old, new) {
        (JsonView::Object(a), JsonView::Object(b)) => {
            let keys = all_keys(a, b);
            lemma_entries_lead(old_root, new_root, a, b, path, keys, keys.len() as int);
        },
        (JsonView::Array(a), JsonView::Array(b)) => {
            lemma_items_lead(old_root, new_root, a, b, path, 0);
            let extras = extra_items(a.len() as int, b.len() as int, path);
            assert forall|k: int| 0 <= k < extras.len() implies leads_somewhere(
                #[trigger] extras[k],
                old_root,
                new_root,
            ) by {
                if a.len() > b.len() {
                    let step = StepView::Index(b.len() + k);
                    lemma_resolve_step(old_root, path, old, step);
                    lemma_one_step(old, step);
                } else {
                    let step = StepView::Index(a.len() + k);
                    lemma_resolve_step(new_root, path, new, step);
                    lemma_one_step(new, step);
                }
            }
            lemma_concat_leads(shared_items(a, b, path, 0), extras, old_root, new_root);
        },
        _ => {},
    }
}

/// Every difference leads somewhere: the path of a mismatch leads to its
/// old value in the old root and to its new value in the new root; the path
/// of a record on one side leads to a value in the root of that side.
pub proof fn lemma_paths_lead_somewhere(old: JsonView, new: JsonView)
    ensures
        all_lead_somewhere(diff_values(old, new), old, new),
{
    lemma_diff_leads(old, new, old, new, Seq::empty());
}

/// Whether no entry stands behind an entry whose key comes after its own.
pub open spec fn keys_in_order(entries: Seq<JsonEntry>) -> bool {
    forall|i: int, j: int|
        0 <= i < j < entries.len() ==> !text_before(
            (#[trigger] entries[j]).key,
            (#[trigger] entries[i]).key,
        )
}

proof fn lemma_insert_position_splits(sorted: Seq<JsonEntry>, key: Seq<char>)
    requires
        keys_in_order(sorted),
    ensures
        ({
            let pos = insert_position(sorted, key);
            &&& 0 <= pos <= sorted.len()
            &&& forall|k: int| 0 <= k < pos ==> !text_before(key, (#[trigger] sorted[k]).key)
            &&& forall|k: int|
                pos <= k < sorted.len() ==> text_before(key, (#[trigger] sorted[k]).key)
        }),
    decreases sorted.len(),
{
    if sorted.len() > 0 {
        let last = sorted.last();
        let rest = sorted.drop_last();
        assert(sorted[sorted.len() - 1] == last);
        if text_before(key, last.key) {
            assert forall|i: int, j: int| 0 <= i < j < rest.len() implies !text_before(
                (#[trigger] rest[j]).key,
                (#[trigger] rest[i]).key,
            ) by {
                assert(rest[i] == sorted[i] && rest[j] == sorted[j]);
            }
            lemma_insert_position_splits(rest, key);
            let pos = insert_position(rest, key);
            assert forall|k: int| 0 <= k < pos implies !text_before(
                key,
                (#[trigger] sorted[k]).key,
            ) by {
                assert(sorted[k] == rest[k]);
            }
            assert forall|k: int| pos <= k < sorted.len() implies text_before(
                key,
                (#[trigger] sorted[k]).key,
            ) by {
                if k < rest.len() {
                    assert(sorted[k] == rest[k]);
                }
            }
        } else {
            assert forall|k: int| 0 <= k < sorted.len() implies !text_before(
                key,
                (#[trigger] sorted[k]).key,
            ) by {
                if k < sorted.len() - 1 && text_before(key, sorted[k].key) {
                    lemma_before_total(key, last.key);
                    if key == last.key {
                        assert(text_before(last.key, sorted[k].key));
                    } else {
                        lemma_before_transitive(last.key, key, sorted[k].key);
                    }
                }
            }
        }
    }
}

/// Sorting puts the entries in the order of their keys.
pub proof fn lemma_sorted_entries_in_order(entries: Seq<JsonEntry>)
    ensures
        keys_in_order(sort_entries(entries)),
    decreases entries.len(),
{
    if entries.len() > 0 {
        let head = sort_entries(entries.drop_last());
        let entry = entries.last();
        lemma_sorted_entries_in_order(entries.drop_last());
        lemma_insert_position_splits(head, entry.key);
        let pos = insert_position(head, entry.key);
        let list = head.insert(pos, entry);
        assert forall|i: int, j: int| 0 <= i < j < list.len() implies !text_before(
            (#[trigger] list[j]).key,
            (#[trigger] list[i]).key,
        ) by {
            if j < pos {
                assert(list[i] == head[i] && list[j] == head[j]);
            } else if j == pos {
                assert(list[i] == head[i]);
            } else if i < pos {
                assert(list[i] == head[i] && list[j] == head[j - 1]);
            } else if i == pos {
                assert(list[j] == head[j - 1]);
                lemma_before_asymmetric(entry.key, head[j - 1].key);
            } else {
                assert(list[i] == head[i - 1] && list[j] == head[j - 1]);
            }
        }
    }
}

/// Sorting keeps the entries: each entry stands in the sorted list as
/// often as in the list it came in.
pub proof fn lemma_sorted_entries_are_the_same(entries: Seq<JsonEntry>)
    ensures
        sort_entries(entries).to_multiset() == entries.to_multiset(),
    decreases entries.len(),
{
    broadcast use vstd::seq_lib::group_to_multiset_ensures;

    if entries.len() > 0 {
        let rest = entries.drop_last();
        let head = sort_entries(rest);
        let entry = entries.last();
        lemma_sorted_entries_are_the_same(rest);
        lemma_sorted_entries_in_order(rest);
        lemma_insert_position_splits(head, entry.key);
        let pos = insert_position(head, entry.key);
        let list = head.insert(pos, entry);
        assert(list.remove(pos) =~= head);
        assert(list[pos] == entry);
        assert(list.to_multiset() =~= head.to_multiset().insert(entry));
        assert(entries =~= rest.push(entry));
        assert(entries.to_multiset() =~= rest.to_multiset().insert(entry));
    }
}

} // verus!
