//! JSON values.
use crate::text::same_text;
use vstd::prelude::*;

verus! {

/// A number of a JSON value. A number that is not an integer is kept as it is
/// written.
#[derive(Clone, Debug)]
pub enum JsonNumber {
    Unsigned(u64),
    Negative(i64),
    Real(String),
}

/// A JSON value. The entries of an object stand in the order in which they are
/// walked.
#[derive(Debug)]
pub enum Json {
    Null,
    Bool(bool),
    Number(JsonNumber),
    Text(String),
    List(Vec<Json>),
    Object(Vec<JsonEntry>),
}

/// An entry of a JSON object.
#[derive(Debug)]
pub struct JsonEntry {
    pub key: String,
    pub value: Json,
}

/// A number of a JSON value as a mathematical value.
#[verifier::ext_equal]
pub enum NumberView {
    Unsigned(int),
    Negative(int),
    Real(Seq<char>),
}

/// A JSON value as a mathematical value.
#[verifier::ext_equal]
pub enum JsonView {
    Null,
    Bool(bool),
    Number(NumberView),
    Text(Seq<char>),
    List(Seq<JsonView>),
    Object(Seq<EntryView>),
}

/// An entry of a JSON object as a mathematical value.
#[verifier::ext_equal]
pub struct EntryView {
    pub key: Seq<char>,
    pub value: JsonView,
}

impl View for JsonNumber {
    type V = NumberView;

    open spec fn view(&self) -> NumberView {
        match *self {
            JsonNumber::Unsigned(number) => NumberView::Unsigned(number as int),
            JsonNumber::Negative(number) => NumberView::Negative(number as int),
            JsonNumber::Real(text) => NumberView::Real(text@),
        }
    }
}

impl View for Json {
    type V = JsonView;

    open spec fn view(&self) -> JsonView
        decreases self,
    {
        match *self {
            Json::Null => JsonView::Null,
            Json::Bool(value) => JsonView::Bool(value),
            Json::Number(number) => JsonView::Number(number@),
            Json::Text(text) => JsonView::Text(text@),
            Json::List(items) => JsonView::List(
                Seq::new(
                    items@.len(),
                    |i: int|
                        if 0 <= i < items@.len() {
                            items@[i].view()
                        } else {
                            JsonView::Null
                        },
                ),
            ),
            Json::Object(entries) => JsonView::Object(
                Seq::new(
                    entries@.len(),
                    |i: int|
                        if 0 <= i < entries@.len() {
                            EntryView { key: entries@[i].key@, value: entries@[i].value.view() }
                        } else {
                            EntryView { key: Seq::empty(), value: JsonView::Null }
                        },
                ),
            ),
        }
    }
}

/// An entry of an object.
pub open spec fn pair(key: Seq<char>, value: JsonView) -> EntryView {
    EntryView { key, value }
}

/// A number that is an integer without a sign.
pub open spec fn unsigned(number: int) -> JsonView {
    JsonView::Number(NumberView::Unsigned(number))
}

/// The items of a list as mathematical values.
pub open spec fn items_view(items: Seq<Json>) -> Seq<JsonView> {
    Seq::new(items.len(), |i: int| items[i]@)
}

/// The entries of an object as mathematical values.
pub open spec fn entries_view(entries: Seq<JsonEntry>) -> Seq<EntryView> {
    Seq::new(entries.len(), |i: int| EntryView { key: entries[i].key@, value: entries[i].value@ })
}

/// The value of the first entry with a key.
pub open spec fn entry(entries: Seq<EntryView>, key: Seq<char>) -> Option<JsonView>
    decreases entries.len(),
{
    if entries.len() == 0 {
        None
    } else if entries[0].key == key {
        Some(entries[0].value)
    } else {
        entry(entries.drop_first(), key)
    }
}

/// The value that an object has for a key. Other values have none.
pub open spec fn field(value: JsonView, key: Seq<char>) -> Option<JsonView> {
    match value {
        JsonView::Object(entries) => entry(entries, key),
        _ => None,
    }
}

/// The text that a value is.
pub open spec fn as_text(value: Option<JsonView>) -> Option<Seq<char>> {
    match value {
        Some(JsonView::Text(text)) => Some(text),
        _ => None,
    }
}

/// The number that a value is, if it is an integer without a sign.
pub open spec fn as_unsigned(value: Option<JsonView>) -> Option<int> {
    match value {
        Some(JsonView::Number(NumberView::Unsigned(number))) => Some(number),
        _ => None,
    }
}

/// A list of values is seen item by item.
pub proof fn lemma_list_view(items: Vec<Json>)
    ensures
        Json::List(items)@ == JsonView::List(items_view(items@)),
{
    let value = Json::List(items)@;
    assert(value->List_0 =~= items_view(items@));
}

/// An object is seen entry by entry.
pub proof fn lemma_object_view(entries: Vec<JsonEntry>)
    ensures
        Json::Object(entries)@ == JsonView::Object(entries_view(entries@)),
{
    let value = Json::Object(entries)@;
    assert(value->Object_0 =~= entries_view(entries@));
}

// ---------------------------------------------------------------------------
// Reading
// ---------------------------------------------------------------------------

/// The value of the first of `entries` with the key `key`.
pub fn find_entry<'a>(entries: &'a Vec<JsonEntry>, key: &str) -> (found: Option<&'a Json>)
    ensures
        match found {
            Some(found) => entry(entries_view(entries@), key@) == Some(found@),
            None => entry(entries_view(entries@), key@) is None,
        },
{
    let ghost all = entries_view(entries@);
    let mut i: usize = 0;
    assert(all.skip(0) =~= all);
    while i < entries.len()
        invariant
            i <= entries@.len(),
            all == entries_view(entries@),
            entry(all, key@) == entry(all.skip(i as int), key@),
        decreases entries@.len() - i,
    {
        proof {
            assert(all.skip(i as int)[0] == all[i as int]);
            assert(all.skip(i as int).drop_first() =~= all.skip(i + 1));
        }
        if same_text(entries[i].key.as_str(), key) {
            return Some(&entries[i].value);
        }
        i = i + 1;
    }
    None
}

/// The value that `value` has for the key `key`, if it is an object.
pub fn get<'a>(value: &'a Json, key: &str) -> (found: Option<&'a Json>)
    ensures
        match found {
            Some(found) => field(value@, key@) == Some(found@),
            None => field(value@, key@) is None,
        },
{
    match value {
        Json::Object(entries) => {
            proof {
                lemma_object_view(*entries);
            }
            find_entry(entries, key)
        },
        _ => None,
    }
}

/// The text that `value` has for the key `key`, if it is an object.
pub fn get_text(value: &Json, key: &str) -> (found: Option<String>)
    ensures
        match found {
            Some(found) => as_text(field(value@, key@)) == Some(found@),
            None => as_text(field(value@, key@)) is None,
        },
{
    match get(value, key) {
        Some(Json::Text(text)) => Some(text.clone()),
        _ => None,
    }
}

/// The number that `value` has for the key `key`, if it is an object.
pub fn get_unsigned(value: &Json, key: &str) -> (found: Option<u64>)
    ensures
        match found {
            Some(found) => as_unsigned(field(value@, key@)) == Some(found as int),
            None => as_unsigned(field(value@, key@)) is None,
        },
{
    match get(value, key) {
        Some(Json::Number(JsonNumber::Unsigned(number))) => Some(*number),
        _ => None,
    }
}

// ---------------------------------------------------------------------------
// Building
// ---------------------------------------------------------------------------

/// A text as a JSON value.
pub fn text_value(text: &str) -> (value: Json)
    ensures
        value@ == JsonView::Text(text@),
{
    Json::Text(text.to_owned())
}

/// A number as a JSON value.
pub fn number_value(number: u64) -> (value: Json)
    ensures
        value@ == unsigned(number as int),
{
    Json::Number(JsonNumber::Unsigned(number))
}

/// Items as a JSON list.
pub fn list_value(items: Vec<Json>) -> (value: Json)
    ensures
        value@ == JsonView::List(items_view(items@)),
{
    proof {
        lemma_list_view(items);
    }
    Json::List(items)
}

/// Entries as a JSON object.
pub fn object_value(entries: Vec<JsonEntry>) -> (value: Json)
    ensures
        value@ == JsonView::Object(entries_view(entries@)),
{
    proof {
        lemma_object_view(entries);
    }
    Json::Object(entries)
}

/// No entries.
pub fn no_entries() -> (entries: Vec<JsonEntry>)
    ensures
        entries_view(entries@) == Seq::<EntryView>::empty(),
{
    let entries: Vec<JsonEntry> = Vec::new();
    assert(entries_view(entries@) =~= Seq::<EntryView>::empty());
    entries
}

/// No items.
pub fn no_items() -> (items: Vec<Json>)
    ensures
        items_view(items@) == Seq::<JsonView>::empty(),
{
    let items: Vec<Json> = Vec::new();
    assert(items_view(items@) =~= Seq::<JsonView>::empty());
    items
}

/// Adds an entry behind the others.
pub fn add_entry(entries: &mut Vec<JsonEntry>, key: &str, value: Json)
    ensures
        entries_view(final(entries)@) == entries_view(old(entries)@).push(pair(key@, value@)),
{
    let ghost before = entries_view(entries@);
    entries.push(JsonEntry { key: key.to_owned(), value });
    assert(entries_view(entries@) =~= before.push(pair(key@, value@)));
}

/// Adds an item behind the others.
pub fn add_item(items: &mut Vec<Json>, value: Json)
    ensures
        items_view(final(items)@) == items_view(old(items)@).push(value@),
{
    let ghost before = items_view(items@);
    items.push(value);
    assert(items_view(items@) =~= before.push(value@));
}

impl JsonView {
    /// An object without entries.
    pub open spec fn object() -> JsonView {
        JsonView::Object(Seq::empty())
    }

    /// An object with one entry more.
    pub open spec fn with(self, key: Seq<char>, value: JsonView) -> JsonView {
        match self {
            JsonView::Object(entries) => JsonView::Object(entries.push(pair(key, value))),
            _ => self,
        }
    }

    /// A list without items.
    pub open spec fn list() -> JsonView {
        JsonView::List(Seq::empty())
    }

    /// A list with one item more.
    pub open spec fn item(self, value: JsonView) -> JsonView {
        match self {
            JsonView::List(items) => JsonView::List(items.push(value)),
            _ => self,
        }
    }
}

impl Json {
    /// An object without entries.
    pub fn object() -> (value: Json)
        ensures
            value@ == JsonView::object(),
    {
        object_value(no_entries())
    }

    /// An object with one entry more; any other value stays as it is.
    pub fn with(self, key: &str, value: Json) -> (out: Json)
        ensures
            out@ == self@.with(key@, value@),
    {
        match self {
            Json::Object(entries) => {
                let mut entries = entries;
                proof {
                    lemma_object_view(entries);
                }
                add_entry(&mut entries, key, value);
                object_value(entries)
            },
            other => other,
        }
    }

    /// A list without items.
    pub fn list() -> (value: Json)
        ensures
            value@ == JsonView::list(),
    {
        list_value(no_items())
    }

    /// A list with one item more; any other value stays as it is.
    pub fn item(self, value: Json) -> (out: Json)
        ensures
            out@ == self@.item(value@),
    {
        match self {
            Json::List(items) => {
                let mut items = items;
                proof {
                    lemma_list_view(items);
                }
                add_item(&mut items, value);
                list_value(items)
            },
            other => other,
        }
    }
}

/// A list of texts as JSON values.
pub open spec fn text_items(texts: Seq<Seq<char>>) -> Seq<JsonView> {
    Seq::new(texts.len(), |i: int| JsonView::Text(texts[i]))
}

/// A list of texts as a JSON list.
pub fn text_list(list: &Vec<String>) -> (value: Json)
    ensures
        value@ == JsonView::List(text_items(crate::text::texts(list@))),
{
    let ghost all = text_items(crate::text::texts(list@));
    let mut items = no_items();
    let mut i: usize = 0;
    assert(all.take(0) =~= Seq::<JsonView>::empty());
    while i < list.len()
        invariant
            i <= list@.len(),
            all == text_items(crate::text::texts(list@)),
            items_view(items@) == all.take(i as int),
        decreases list@.len() - i,
    {
        add_item(&mut items, text_value(list[i].as_str()));
        assert(all.take(i + 1) =~= all.take(i as int).push(all[i as int]));
        i = i + 1;
    }
    assert(all.take(i as int) =~= all);
    list_value(items)
}

/// A copy of a JSON value.
pub fn copy_json(value: &Json) -> (copy: Json)
    ensures
        copy@ == value@,
    decreases value,
{
    match value {
        Json::Null => Json::Null,
        Json::Bool(flag) => Json::Bool(*flag),
        Json::Number(JsonNumber::Unsigned(number)) => Json::Number(JsonNumber::Unsigned(*number)),
        Json::Number(JsonNumber::Negative(number)) => Json::Number(JsonNumber::Negative(*number)),
        Json::Number(JsonNumber::Real(text)) => Json::Number(JsonNumber::Real(text.clone())),
        Json::Text(text) => Json::Text(text.clone()),
        Json::List(items) => {
            let ghost all = items_view(items@);
            let mut copies = no_items();
            let mut i: usize = 0;
            assert(all.take(0) =~= Seq::<JsonView>::empty());
            while i < items.len()
                invariant
                    i <= items@.len(),
                    *value == Json::List(*items),
                    all == items_view(items@),
                    items_view(copies@) == all.take(i as int),
                decreases items@.len() - i,
            {
                let item = &items[i];
                assert(decreases_to!(*value => value->List_0));
                assert(decreases_to!(*items => items@));
                assert(decreases_to!(items@ => items@[i as int]));
                let copy = copy_json(item);
                add_item(&mut copies, copy);
                assert(all.take(i + 1) =~= all.take(i as int).push(all[i as int]));
                i = i + 1;
            }
            assert(all.take(i as int) =~= all);
            proof {
                lemma_list_view(*items);
            }
            list_value(copies)
        },
        Json::Object(entries) => {
            let ghost all = entries_view(entries@);
            let mut copies = no_entries();
            let mut i: usize = 0;
            assert(all.take(0) =~= Seq::<EntryView>::empty());
            while i < entries.len()
                invariant
                    i <= entries@.len(),
                    *value == Json::Object(*entries),
                    all == entries_view(entries@),
                    entries_view(copies@) == all.take(i as int),
                decreases entries@.len() - i,
            {
                let item = &entries[i].value;
                assert(decreases_to!(*value => value->Object_0));
                assert(decreases_to!(*entries => entries@));
                assert(decreases_to!(entries@ => entries@[i as int]));
                assert(decreases_to!(entries@[i as int] => entries@[i as int].value));
                let copy = copy_json(item);
                add_entry(&mut copies, entries[i].key.as_str(), copy);
                assert(all.take(i + 1) =~= all.take(i as int).push(all[i as int]));
                i = i + 1;
            }
            assert(all.take(i as int) =~= all);
            proof {
                lemma_object_view(*entries);
            }
            object_value(copies)
        },
    }
}

} // verus!
