use crate::text::{is_text_before, is_zero_numeral, str_equal, text_before, writes_zero};
use vstd::prelude::*;

verus! {

/// A structured value as mathematics sees it.
pub enum JsonView {
    Null,
    Bool(bool),
    Number(Seq<char>),
    String(Seq<char>),
    Array(Seq<JsonView>),
    Object(Seq<JsonEntry>),
}

/// One entry of an object: a key and the value under it.
pub struct JsonEntry {
    pub key: Seq<char>,
    pub value: JsonView,
}

/// A structured value: null, a boolean, a number kept as its decimal text,
/// a string, an ordered array, or an object whose entries stand in document
/// order.
#[derive(Debug)]
pub enum JsonValue {
    Null,
    Bool(bool),
    Number(String),
    String(String),
    Array(Vec<JsonValue>),
    Object(Vec<(String, JsonValue)>),
}

impl View for JsonValue {
    type V = JsonView;

    open spec fn view(&self) -> JsonView
        decreases self,
    {
        match self {
            JsonValue::Null => JsonView::Null,
            JsonValue::Bool(b) => JsonView::Bool(*b),
            JsonValue::Number(n) => JsonView::Number(n@),
            JsonValue::String(s) => JsonView::String(s@),
            JsonValue::Array(items) => JsonView::Array(
                Seq::new(
                    items@.len(),
                    |i: int|
                        if 0 <= i < items@.len() {
                            items[i].view()
                        } else {
                            JsonView::Null
                        },
                ),
            ),
            JsonValue::Object(entries) => JsonView::Object(
                Seq::new(
                    entries@.len(),
                    |i: int|
                        if 0 <= i < entries@.len() {
                            JsonEntry { key: entries[i].0@, value: entries[i].1.view() }
                        } else {
                            JsonEntry { key: Seq::empty(), value: JsonView::Null }
                        },
                ),
            ),
        }
    }
}

/// The position of the first entry of `entries` under `key`, from position
/// `from` on, or the number of entries if there is none.
pub open spec fn find_key(entries: Seq<JsonEntry>, key: Seq<char>, from: int) -> int
    decreases entries.len() - from,
{
    if from < 0 || from >= entries.len() {
        entries.len() as int
    } else if entries[from].key == key {
        from
    } else {
        find_key(entries, key, from + 1)
    }
}

impl JsonView {
    /// A value that an uninitialised field would hold: null, false, the
    /// number zero in whatever spelling, the empty string, the empty array,
    /// or an object all of whose values are such values.
    pub open spec fn is_default(self) -> bool
        decreases self,
    {
        match self {
            JsonView::Null => true,
            JsonView::Bool(b) => !b,
            JsonView::Number(n) => is_zero_numeral(n),
            JsonView::String(s) => s.len() == 0,
            JsonView::Array(items) => items.len() == 0,
            JsonView::Object(entries) => forall|i: int|
                0 <= i < entries.len() ==> (#[trigger] entries[i]).value.is_default(),
        }
    }

    /// Whether the value is an array or an object.
    pub open spec fn is_container(self) -> bool {
        self is Array || self is Object
    }
}

impl JsonValue {
    /// The view of an array is the sequence of its items' views.
    pub proof fn lemma_array_view(self)
        requires
            self is Array,
        ensures
            self@ is Array,
            self@->Array_0.len() == self->Array_0@.len(),
            forall|i: int|
                0 <= i < self->Array_0@.len() ==> (#[trigger] self@->Array_0[i])
                    == self->Array_0@[i]@,
    {
    }

    /// The view of an object is the sequence of its entries' views.
    pub proof fn lemma_object_view(self)
        requires
            self is Object,
        ensures
            self@ is Object,
            self@->Object_0.len() == self->Object_0@.len(),
            forall|i: int|
                0 <= i < self->Object_0@.len() ==> (#[trigger] self@->Object_0[i]) == (JsonEntry {
                    key: self->Object_0@[i].0@,
                    value: self->Object_0@[i].1@,
                }),
    {
    }

    /// The position of the first entry of an object under `key`; none for a
    /// value that is no object.
    pub fn find_entry(&self, key: &str) -> (found: Option<usize>)
        ensures
            match found {
                Some(j) => self is Object && j < self@->Object_0.len() && j == find_key(
                    self@->Object_0,
                    key@,
                    0,
                ),
                None => self is Object ==> find_key(self@->Object_0, key@, 0)
                    == self@->Object_0.len(),
            },
    {
        proof {
            if self is Object {
                self.lemma_object_view();
            }
        }
        match self {
            JsonValue::Object(entries) => {
                let mut i: usize = 0;
                while i < entries.len()
                    invariant
                        i <= entries.len(),
                        self is Object,
                        self->Object_0 == entries,
                        self@->Object_0.len() == entries.len(),
                        forall|k: int|
                            0 <= k < entries.len() ==> (#[trigger] self@->Object_0[k]).key
                                == entries[k].0@,
                        find_key(self@->Object_0, key@, 0) == find_key(
                            self@->Object_0,
                            key@,
                            i as int,
                        ),
                    decreases entries.len() - i,
                {
                    if str_equal(entries[i].0.as_str(), key) {
                        return Some(i);
                    }
                    i += 1;
                }
                None
            },
            _ => None,
        }
    }

    /// A copy of the value.
    #[verifier::loop_isolation(false)]
    pub fn clone_value(&self) -> (copy: JsonValue)
        ensures
            copy@ == self@,
        decreases self,
    {
        match self {
            JsonValue::Null => JsonValue::Null,
            JsonValue::Bool(b) => JsonValue::Bool(*b),
            JsonValue::Number(n) => JsonValue::Number(n.clone()),
            JsonValue::String(s) => JsonValue::String(s.clone()),
            JsonValue::Array(items) => {
                let mut out: Vec<JsonValue> = Vec::new();
                let mut i: usize = 0;
                while i < items.len()
                    invariant
                        i <= items.len(),
                        out.len() == i,
                        forall|j: int| 0 <= j < i ==> out[j]@ == items[j]@,
                    decreases items.len() - i,
                {
                    out.push(items[i].clone_value());
                    i += 1;
                }
                let copy = JsonValue::Array(out);
                assert(copy@->Array_0 =~= self@->Array_0);
                copy
            },
            JsonValue::Object(entries) => {
                let mut out: Vec<(String, JsonValue)> = Vec::new();
                let mut i: usize = 0;
                while i < entries.len()
                    invariant
                        i <= entries.len(),
                        out.len() == i,
                        forall|j: int|
                            0 <= j < i ==> out[j].0@ == entries[j].0@ && out[j].1@ == entries[j].1@,
                    decreases entries.len() - i,
                {
                    out.push((entries[i].0.clone(), entries[i].1.clone_value()));
                    i += 1;
                }
                let copy = JsonValue::Object(out);
                assert(copy@->Object_0 =~= self@->Object_0);
                copy
            },
        }
    }
}

/// Whether a value is what an uninitialised field would hold.
#[verifier::loop_isolation(false)]
pub fn is_json_default(value: &JsonValue) -> (default: bool)
    ensures
        default == value@.is_default(),
    decreases value,
{
    match value {
        JsonValue::Null => true,
        JsonValue::Bool(b) => !*b,
        JsonValue::Number(n) => writes_zero(n.as_str()),
        JsonValue::String(s) => s.as_str().is_empty(),
        JsonValue::Array(items) => items.len() == 0,
        JsonValue::Object(entries) => {
            let mut i: usize = 0;
            while i < entries.len()
                invariant
                    i <= entries.len(),
                    forall|j: int|
                        0 <= j < i ==> (#[trigger] value@->Object_0[j]).value.is_default(),
                decreases entries.len() - i,
            {
                if !is_json_default(&entries[i].1) {
                    assert(!value@->Object_0[i as int].value.is_default());
                    return false;
                }
                i += 1;
            }
            true
        },
    }
}

/// `serde_json::Value`, the tree that the JSON crate reads and prints.
#[verifier::external_type_specification]
#[verifier::external_body]
pub struct ExSerdeValue(serde_json::Value);

/// The text that the JSON crate prints for a value on one line.
pub uninterp spec fn json_compact_text(value: JsonView) -> Seq<char>;

/// The text that the JSON crate prints for a value with one entry per line
/// and two spaces of indentation.
pub uninterp spec fn json_pretty_text(value: JsonView) -> Seq<char>;

/// The value that the JSON crate reads from a document, or what it says
/// of a document that it cannot read.
pub uninterp spec fn json_parse(document: Seq<u8>) -> Result<JsonView, Seq<char>>;

/// Why a document could not be read as a structured value.
#[derive(Debug)]
pub struct JsonError {
    pub message: String,
}

/// Builds the JSON crate's tree for a value, variant by variant. A number
/// whose text is no JSON number becomes null.
#[verifier::external_body]
fn to_serde(value: &JsonValue) -> serde_json::Value {
    match value {
        JsonValue::Null => serde_json::Value::Null,
        JsonValue::Bool(b) => serde_json::Value::Bool(*b),
        JsonValue::Number(n) => n.parse().map(serde_json::Value::Number).unwrap_or_default(),
        JsonValue::String(s) => serde_json::Value::String(s.clone()),
        JsonValue::Array(items) => serde_json::Value::Array(items.iter().map(to_serde).collect()),
        JsonValue::Object(entries) => serde_json::Value::Object(
            entries.iter().map(|e| (e.0.clone(), to_serde(&e.1))).collect(),
        ),
    }
}

/// Reads the JSON crate's tree into a value, variant by variant. A number
/// is kept as the text that the crate prints for it.
#[verifier::external_body]
pub(crate) fn from_serde(value: &serde_json::Value) -> JsonValue {
    match value {
        serde_json::Value::Null => JsonValue::Null,
        serde_json::Value::Bool(b) => JsonValue::Bool(*b),
        serde_json::Value::Number(n) => JsonValue::Number(n.to_string()),
        serde_json::Value::String(s) => JsonValue::String(s.clone()),
        serde_json::Value::Array(items) => JsonValue::Array(items.iter().map(from_serde).collect()),
        serde_json::Value::Object(entries) => JsonValue::Object(
            entries.iter().map(|(k, v)| (k.clone(), from_serde(v))).collect(),
        ),
    }
}

/// `serde_json::Value`'s `Display`: the value on one line. The text depends
/// on the value alone.
#[verifier::external_body]
pub(crate) fn compact_text(value: &JsonValue) -> (text: String)
    ensures
        text@ == json_compact_text(value@),
{
    to_serde(value).to_string()
}

/// `serde_json::to_string_pretty`: the value with one entry per line. The
/// text depends on the value alone.
#[verifier::external_body]
pub(crate) fn pretty_text(value: &JsonValue) -> (text: String)
    ensures
        text@ == json_pretty_text(value@),
{
    serde_json::to_string_pretty(&to_serde(value)).unwrap_or_default()
}

/// `serde_json::from_slice`: reads a document. Whether it can be read, as
/// which value, and what is said of it if not, depends on its bytes alone.
#[verifier::external_body]
pub(crate) fn read_document(document: &[u8]) -> (read: Result<JsonValue, JsonError>)
    ensures
        match read {
            Ok(value) => json_parse(document@) == Ok::<JsonView, Seq<char>>(value@),
            Err(e) => json_parse(document@) == Err::<JsonView, Seq<char>>(e.message@),
        },
{
    match serde_json::from_slice::<serde_json::Value>(document) {
        Ok(value) => Ok(from_serde(&value)),
        Err(e) => Err(JsonError { message: e.to_string() }),
    }
}

/// Where an entry under `key` goes into entries that are in order: behind
/// the last entry whose key does not come after `key`.
pub open spec fn insert_position(sorted: Seq<JsonEntry>, key: Seq<char>) -> int
    decreases sorted.len(),
{
    if sorted.len() == 0 {
        0
    } else if text_before(key, sorted.last().key) {
        insert_position(sorted.drop_last(), key)
    } else {
        sorted.len() as int
    }
}

/// The entries in the order of their keys; entries under one key keep the
/// order they came in.
pub open spec fn sort_entries(entries: Seq<JsonEntry>) -> Seq<JsonEntry>
    decreases entries.len(),
{
    if entries.len() == 0 {
        Seq::empty()
    } else {
        let sorted = sort_entries(entries.drop_last());
        sorted.insert(insert_position(sorted, entries.last().key), entries.last())
    }
}

impl JsonView {
    /// The value with the entries of every object, at any depth, in the
    /// order of their keys.
    pub open spec fn sorted(self) -> JsonView
        decreases self,
    {
        match self {
            JsonView::Array(items) => JsonView::Array(sorted_items(items)),
            JsonView::Object(entries) => JsonView::Object(sort_entries(sorted_values(entries))),
            _ => self,
        }
    }
}

/// The items, each with its objects' entries in order.
pub open spec fn sorted_items(items: Seq<JsonView>) -> Seq<JsonView>
    decreases items,
{
    Seq::new(
        items.len(),
        |i: int|
            if 0 <= i < items.len() {
                items[i].sorted()
            } else {
                JsonView::Null
            },
    )
}

/// The entries as they stand, each value with its objects' entries in
/// order.
pub open spec fn sorted_values(entries: Seq<JsonEntry>) -> Seq<JsonEntry>
    decreases entries,
{
    Seq::new(
        entries.len(),
        |i: int|
            if 0 <= i < entries.len() {
                JsonEntry { key: entries[i].key, value: entries[i].value.sorted() }
            } else {
                JsonEntry { key: Seq::empty(), value: JsonView::Null }
            },
    )
}

/// The entries that a list of pairs of a key and a value stands for.
pub open spec fn entries_view(entries: Seq<(String, JsonValue)>) -> Seq<JsonEntry> {
    Seq::new(entries.len(), |i: int| JsonEntry { key: entries[i].0@, value: entries[i].1@ })
}

/// The values that a list of values stands for.
pub open spec fn items_view(items: Seq<JsonValue>) -> Seq<JsonView> {
    Seq::new(items.len(), |i: int| items[i]@)
}

/// An object is seen as its entries are, and an array as its items are.
pub proof fn lemma_view_of_parts(value: JsonValue)
    ensures
        value matches JsonValue::Object(entries) ==> value@ == JsonView::Object(
            entries_view(entries@),
        ),
        value matches JsonValue::Array(items) ==> value@ == JsonView::Array(items_view(items@)),
{
    match value {
        JsonValue::Object(entries) => {
            value.lemma_object_view();
            assert(value@->Object_0 =~= entries_view(entries@));
        },
        JsonValue::Array(items) => {
            value.lemma_array_view();
            assert(value@->Array_0 =~= items_view(items@));
        },
        _ => {},
    }
}

impl JsonValue {
    /// A copy of the value in which the entries of every object, at any
    /// depth, are in the order of their keys.
    #[verifier::loop_isolation(false)]
    pub fn sort_keys(&self) -> (sorted: JsonValue)
        ensures
            sorted@ == self@.sorted(),
        decreases self,
    {
        match self {
            JsonValue::Null => JsonValue::Null,
            JsonValue::Bool(b) => JsonValue::Bool(*b),
            JsonValue::Number(n) => JsonValue::Number(n.clone()),
            JsonValue::String(s) => JsonValue::String(s.clone()),
            JsonValue::Array(items) => {
                let mut out: Vec<JsonValue> = Vec::new();
                let mut i: usize = 0;
                while i < items.len()
                    invariant
                        i <= items.len(),
                        out.len() == i,
                        forall|j: int| 0 <= j < i ==> out[j]@ == items[j]@.sorted(),
                    decreases items.len() - i,
                {
                    out.push(items[i].sort_keys());
                    i += 1;
                }
                let sorted = JsonValue::Array(out);
                assert(sorted@->Array_0 =~= sorted_items(self@->Array_0));
                sorted
            },
            JsonValue::Object(entries) => {
                let ghost mapped = sorted_values(self@->Object_0);
                let mut out: Vec<(String, JsonValue)> = Vec::new();
                let mut i: usize = 0;
                proof {
                    assert(mapped.take(0) =~= Seq::<JsonEntry>::empty());
                    assert(entries_view(out@) =~= Seq::<JsonEntry>::empty());
                }
                while i < entries.len()
                    invariant
                        i <= entries.len(),
                        mapped.len() == entries.len(),
                        entries_view(out@) == sort_entries(mapped.take(i as int)),
                    decreases entries.len() - i,
                {
                    let key = entries[i].0.clone();
                    let value = entries[i].1.sort_keys();
                    let ghost sorted_so_far = entries_view(out@);
                    let mut pos: usize = out.len();
                    proof {
                        assert(sorted_so_far.take(pos as int) =~= sorted_so_far);
                    }
                    while pos > 0 && is_text_before(key.as_str(), out[pos - 1].0.as_str())
                        invariant
                            pos <= out.len(),
                            sorted_so_far == entries_view(out@),
                            insert_position(sorted_so_far, key@) == insert_position(
                                sorted_so_far.take(pos as int),
                                key@,
                            ),
                        decreases pos,
                    {
                        proof {
                            assert(sorted_so_far.take(pos as int).drop_last()
                                =~= sorted_so_far.take(pos as int - 1));
                        }
                        pos -= 1;
                    }
                    proof {
                        let next = mapped.take(i as int + 1);
                        assert(next.drop_last() =~= mapped.take(i as int));
                        assert(next.last() == JsonEntry { key: key@, value: value@ });
                        assert(entries_view(out@.insert(pos as int, (key, value)))
                            =~= sorted_so_far.insert(
                            pos as int,
                            JsonEntry { key: key@, value: value@ },
                        ));
                    }
                    out.insert(pos, (key, value));
                    i += 1;
                }
                let sorted = JsonValue::Object(out);
                proof {
                    assert(mapped.take(entries.len() as int) =~= mapped);
                    lemma_view_of_parts(sorted);
                }
                sorted
            },
        }
    }
}

} // verus!
