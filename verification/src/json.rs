//! JSON values as plain data, read by the `serde_json` crate.

use crate::decimal::digits_of;
use crate::text::{same_text, white};
use vstd::prelude::*;
use vstd::string::StringExecFns;

verus! {

/// The value type of `serde_json`.
#[verifier::external_type_specification]
#[verifier::external_body]
pub struct ExValue(serde_json::Value);

/// The error type of `serde_json`.
#[verifier::external_type_specification]
#[verifier::external_body]
pub struct ExError(serde_json::Error);

/// A JSON value.
#[derive(Debug, PartialEq)]
pub enum Json {
    Null,
    Bool(bool),
    /// A number, in the notation in which it is printed.
    Number(String),
    Text(String),
    Array(Vec<Json>),
    /// The entries of an object, no name twice.
    Object(Vec<(String, Json)>),
}

/// What a JSON value says.
pub enum JsonModel {
    Null,
    Bool(bool),
    Number(Seq<char>),
    Text(Seq<char>),
    Array(Seq<JsonModel>),
    Object(Seq<(Seq<char>, JsonModel)>),
}

impl View for Json {
    type V = JsonModel;

    closed spec fn view(&self) -> JsonModel {
        json_model(*self)
    }
}

/// What a value says, if there is one.
pub open spec fn said(value: Option<Json>) -> Option<JsonModel> {
    match value {
        Some(json) => Some(json@),
        None => None,
    }
}

spec fn json_model(value: Json) -> JsonModel
    decreases value,
{
    match value {
        Json::Null => JsonModel::Null,
        Json::Bool(b) => JsonModel::Bool(b),
        Json::Number(s) => JsonModel::Number(s@),
        Json::Text(s) => JsonModel::Text(s@),
        Json::Array(items) => JsonModel::Array(array_model(items@)),
        Json::Object(entries) => JsonModel::Object(object_model(entries@)),
    }
}

/// What the items of an array say, one after the other.
pub closed spec fn array_model(items: Seq<Json>) -> Seq<JsonModel>
    decreases items,
{
    if items.len() == 0 {
        Seq::empty()
    } else {
        array_model(items.drop_last()).push(json_model(items[items.len() - 1]))
    }
}

/// What the entries of an object say, one after the other.
pub closed spec fn object_model(entries: Seq<(String, Json)>) -> Seq<(Seq<char>, JsonModel)>
    decreases entries,
{
    if entries.len() == 0 {
        Seq::empty()
    } else {
        let (name, value) = entries[entries.len() - 1];
        object_model(entries.drop_last()).push((name@, json_model(value)))
    }
}

/// What a value says, layer by layer.
pub proof fn lemma_json_model(value: Json)
    ensures
        value@ == (match value {
            Json::Null => JsonModel::Null,
            Json::Bool(b) => JsonModel::Bool(b),
            Json::Number(s) => JsonModel::Number(s@),
            Json::Text(s) => JsonModel::Text(s@),
            Json::Array(items) => JsonModel::Array(array_model(items@)),
            Json::Object(entries) => JsonModel::Object(object_model(entries@)),
        }),
{
}

/// An array says what its items say.
pub proof fn lemma_array_model(items: Seq<Json>)
    ensures
        array_model(items).len() == items.len(),
        forall|i: int| 0 <= i < items.len() ==> #[trigger] array_model(items)[i] == items[i]@,
    decreases items.len(),
{
    if items.len() > 0 {
        let t = items.drop_last();
        lemma_array_model(t);
        assert forall|i: int| 0 <= i < items.len() implies #[trigger] array_model(items)[i]
            == json_model(items[i]) by {
            if i < t.len() {
                assert(array_model(t)[i] == json_model(t[i]));
            }
        }
    }
}

/// An object says its names, each with what stands under it.
pub proof fn lemma_object_model(entries: Seq<(String, Json)>)
    ensures
        object_model(entries).len() == entries.len(),
        forall|i: int|
            0 <= i < entries.len() ==> #[trigger] object_model(entries)[i] == (
                entries[i].0@,
                entries[i].1@,
            ),
    decreases entries.len(),
{
    if entries.len() > 0 {
        let t = entries.drop_last();
        lemma_object_model(t);
        assert forall|i: int| 0 <= i < entries.len() implies #[trigger] object_model(entries)[i]
            == (entries[i].0@, json_model(entries[i].1)) by {
            if i < t.len() {
                assert(object_model(t)[i] == (t[i].0@, json_model(t[i].1)));
            }
        }
    }
}

impl Json {
    fn copy_of(&self) -> (r: Json)
        ensures
            json_model(r) == json_model(*self),
        decreases self,
    {
        match self {
            Json::Null => Json::Null,
            Json::Bool(b) => Json::Bool(*b),
            Json::Number(s) => Json::Number(s.clone()),
            Json::Text(s) => Json::Text(s.clone()),
            Json::Array(items) => {
                let mut copies: Vec<Json> = Vec::new();
                let mut i: usize = 0;
                while i < items.len()
                    invariant
                        i <= items@.len(),
                        copies@.len() == i,
                        decreases_to!(self => items@),
                        forall|j: int|
                            0 <= j < i ==> json_model(#[trigger] copies@[j]) == json_model(
                                items@[j],
                            ),
                    decreases items@.len() - i,
                {
                    assert(decreases_to!(self => items@[i as int]));
                    copies.push(items[i].copy_of());
                    i = i + 1;
                }
                proof {
                    lemma_array_model(items@);
                    lemma_array_model(copies@);
                    assert(array_model(copies@) =~= array_model(items@));
                }
                Json::Array(copies)
            },
            Json::Object(entries) => {
                let mut copies: Vec<(String, Json)> = Vec::new();
                let mut i: usize = 0;
                while i < entries.len()
                    invariant
                        i <= entries@.len(),
                        copies@.len() == i,
                        decreases_to!(self => entries@),
                        forall|j: int|
                            0 <= j < i ==> (#[trigger] copies@[j]).0@ == entries@[j].0@
                                && json_model(copies@[j].1) == json_model(entries@[j].1),
                    decreases entries@.len() - i,
                {
                    assert(decreases_to!(self => entries@[i as int].1));
                    let entry = &entries[i];
                    copies.push((entry.0.clone(), entry.1.copy_of()));
                    i = i + 1;
                }
                proof {
                    lemma_object_model(entries@);
                    lemma_object_model(copies@);
                    assert(object_model(copies@) =~= object_model(entries@));
                }
                Json::Object(copies)
            },
        }
    }
}

impl Clone for Json {
    fn clone(&self) -> (r: Json)
        ensures
            r@ == self@,
    {
        self.copy_of()
    }
}

// ---------------------------------------------------------------------------
// Reading values
// ---------------------------------------------------------------------------

/// The index of the first entry with the name, or the number of entries.
pub open spec fn entry_at(entries: Seq<(Seq<char>, JsonModel)>, name: Seq<char>) -> int
    decreases entries.len(),
{
    if entries.len() == 0 {
        0
    } else if entries[0].0 == name {
        0
    } else {
        1 + entry_at(entries.drop_first(), name)
    }
}

/// What stands under a name, if the value is an object with such an entry.
pub open spec fn json_get(value: JsonModel, name: Seq<char>) -> Option<JsonModel> {
    match value {
        JsonModel::Object(entries) => {
            let k = entry_at(entries, name);
            if k < entries.len() {
                Some(entries[k].1)
            } else {
                None
            }
        },
        _ => None,
    }
}

/// The text that stands under a name.
pub open spec fn json_text(value: JsonModel, name: Seq<char>) -> Option<Seq<char>> {
    match json_get(value, name) {
        Some(JsonModel::Text(text)) => Some(text),
        _ => None,
    }
}

/// The items of the array that stands under a name.
pub open spec fn json_items(value: JsonModel, name: Seq<char>) -> Option<Seq<JsonModel>> {
    match json_get(value, name) {
        Some(JsonModel::Array(items)) => Some(items),
        _ => None,
    }
}

pub proof fn lemma_entry_at(entries: Seq<(Seq<char>, JsonModel)>, name: Seq<char>)
    ensures
        0 <= entry_at(entries, name) <= entries.len(),
        forall|i: int| 0 <= i < entry_at(entries, name) ==> (#[trigger] entries[i]).0 != name,
        entry_at(entries, name) < entries.len() ==> entries[entry_at(entries, name)].0 == name,
    decreases entries.len(),
{
    if entries.len() > 0 && entries[0].0 != name {
        let t = entries.drop_first();
        lemma_entry_at(t, name);
        assert(forall|i: int| 0 < i < entries.len() ==> #[trigger] entries[i] == t[i - 1]);
    }
}

impl Json {
    /// What stands under a name, if this is an object with such an entry.
    pub fn get(&self, name: &str) -> (r: Option<&Json>)
        ensures
            r is Some <==> json_get(self@, name@) is Some,
            r matches Some(value) ==> json_get(self@, name@) == Some(value@),
    {
        match self {
            Json::Object(entries) => {
                let ghost model = object_model(entries@);
                proof {
                    lemma_object_model(entries@);
                    lemma_entry_at(model, name@);
                }
                let mut i: usize = 0;
                while i < entries.len()
                    invariant
                        i <= entry_at(model, name@) <= model.len(),
                        model.len() == entries@.len(),
                        forall|j: int|
                            0 <= j < entries@.len() ==> #[trigger] model[j] == (
                                entries@[j].0@,
                                json_model(entries@[j].1),
                            ),
                        forall|j: int|
                            0 <= j < entry_at(model, name@) ==> (#[trigger] model[j]).0 != name@,
                        entry_at(model, name@) < model.len() ==> model[entry_at(model, name@)].0
                            == name@,
                        self@ == JsonModel::Object(model),
                    decreases entries@.len() - i,
                {
                    let entry = &entries[i];
                    assert(model[i as int].0 == entry.0@);
                    if same_text(entry.0.as_str(), name) {
                        return Some(&entry.1);
                    }
                    i = i + 1;
                }
                None
            },
            _ => None,
        }
    }

    /// The text, if this is one.
    pub fn as_str(&self) -> (r: Option<&str>)
        ensures
            match self@ {
                JsonModel::Text(text) => r is Some && r->0@ == text,
                _ => r is None,
            },
    {
        match self {
            Json::Text(text) => Some(text.as_str()),
            _ => None,
        }
    }

    /// The items, if this is an array.
    pub fn as_array(&self) -> (r: Option<&Vec<Json>>)
        ensures
            match self@ {
                JsonModel::Array(items) => r is Some && array_model(r->0@) == items,
                _ => r is None,
            },
    {
        match self {
            Json::Array(items) => Some(items),
            _ => None,
        }
    }

    /// The items, if this is an array; else the value itself.
    pub fn into_items(self) -> (r: Result<Vec<Json>, Json>)
        ensures
            match self@ {
                JsonModel::Array(items) => r is Ok && array_model(r->Ok_0@) == items,
                _ => r == Err::<Vec<Json>, Json>(self),
            },
    {
        match self {
            Json::Array(items) => Ok(items),
            other => Err(other),
        }
    }

    /// The text that stands under a name.
    pub fn text_at(&self, name: &str) -> (r: Option<&str>)
        ensures
            r is Some <==> json_text(self@, name@) is Some,
            r matches Some(text) ==> json_text(self@, name@) == Some(text@),
    {
        match self.get(name) {
            Some(value) => value.as_str(),
            None => None,
        }
    }

    /// The items of the array that stands under a name.
    pub fn items_at(&self, name: &str) -> (r: Option<&Vec<Json>>)
        ensures
            r is Some <==> json_items(self@, name@) is Some,
            r matches Some(items) ==> json_items(self@, name@) == Some(array_model(items@)),
    {
        match self.get(name) {
            Some(value) => value.as_array(),
            None => None,
        }
    }

    /// Reads a value, if the text is one and nothing else; or says what is wrong with
    /// the text.
    pub fn parse(text: &str) -> (r: Result<Json, String>)
        ensures
            match r {
                Ok(value) => parsed_json(text@) == Ok::<JsonModel, Seq<char>>(value@)
                    && well_read(value@) && json_opens(text@),
                Err(reason) => parsed_json(text@) == Err::<JsonModel, Seq<char>>(reason@),
            },
            forall|model: JsonModel|
                readable(model) && text@ == #[trigger] printed_json(model) ==> r is Ok
                    && r->Ok_0@ == model,
    {
        match outside_parse(text) {
            Ok(value) => Ok(Json::from_value(value)),
            Err(error) => Err(outside_told(&error)),
        }
    }

    fn from_value(value: serde_json::Value) -> (r: Json)
        ensures
            r@ == json_held(value),
            solid_json(r@),
            ordered_json(r@),
        decreases json_held(value),
    {
        let ghost model = json_held(value);
        match opened(value) {
            JsonNode::Null => Json::Null,
            JsonNode::Bool(b) => Json::Bool(b),
            JsonNode::Number(s) => Json::Number(s),
            JsonNode::Text(s) => Json::Text(s),
            JsonNode::Array(values) => {
                let ghost held = values_held(values@);
                assert(decreases_to!(model => model->Array_0));
                let mut items: Vec<Json> = Vec::new();
                for item in iter: values.into_iter()
                    invariant
                        iter.seq() == values@,
                        held == values_held(values@),
                        model == json_held(value),
                        decreases_to!(model => held),
                        items@.len() == iter.index(),
                        forall|j: int|
                            0 <= j < items@.len() ==> json_model(#[trigger] items@[j]) == held[j]
                                && solid_json(held[j]) && ordered_json(held[j]),
                {
                    assert(item == values@[iter.index()]);
                    assert(decreases_to!(model => held[iter.index()]));
                    items.push(Json::from_value(item));
                }
                proof {
                    lemma_array_model(items@);
                    assert(array_model(items@) =~= held);
                    lemma_solid_items(held);
                    lemma_ordered_items(held);
                }
                Json::Array(items)
            },
            JsonNode::Object(values) => {
                let ghost held = entries_held(values@);
                assert(decreases_to!(model => model->Object_0));
                let mut entries: Vec<(String, Json)> = Vec::new();
                for entry in iter: values.into_iter()
                    invariant
                        iter.seq() == values@,
                        held == entries_held(values@),
                        model == json_held(value),
                        decreases_to!(model => held),
                        entries@.len() == iter.index(),
                        forall|j: int|
                            0 <= j < entries@.len() ==> (#[trigger] entries@[j]).0@ == held[j].0
                                && json_model(entries@[j].1) == held[j].1 && solid_json(held[j].1)
                                && ordered_json(held[j].1),
                {
                    assert(entry == values@[iter.index()]);
                    assert(decreases_to!(model => held[iter.index()].1));
                    let (name, item) = entry;
                    entries.push((name, Json::from_value(item)));
                }
                proof {
                    lemma_object_model(entries@);
                    assert(object_model(entries@) =~= held);
                    lemma_solid_entries(held);
                    assert forall|j: int| 0 < j < held.len() implies text_less(
                        held[j - 1].0,
                        (#[trigger] held[j]).0,
                    ) by {
                        assert(text_less(values@[j - 1].0@, values@[j].0@));
                    }
                    lemma_ordered_entries(held);
                }
                Json::Object(entries)
            },
        }
    }
}

// ---------------------------------------------------------------------------
// Printing values
// ---------------------------------------------------------------------------

/// A character of a JSON string.
pub open spec fn escaped(c: char) -> Seq<char> {
    if c == '"' {
        seq!['\\', '"']
    } else if c == '\\' {
        seq!['\\', '\\']
    } else if c == '\u{8}' {
        seq!['\\', 'b']
    } else if c == '\u{9}' {
        seq!['\\', 't']
    } else if c == '\u{a}' {
        seq!['\\', 'n']
    } else if c == '\u{c}' {
        seq!['\\', 'f']
    } else if c == '\u{d}' {
        seq!['\\', 'r']
    } else if (c as u32) < 0x20 {
        seq!['\\', 'u', '0', '0', hex_char(c as int / 16), hex_char(c as int % 16)]
    } else {
        seq![c]
    }
}

/// The character that stands for a hexadecimal digit.
pub open spec fn hex_char(d: int) -> char {
    if d < 10 {
        ('0' as u32 + d) as char
    } else {
        ('a' as u32 + d - 10) as char
    }
}

/// The characters of a JSON string, without the quotes.
pub open spec fn escaped_text(s: Seq<char>) -> Seq<char>
    decreases s.len(),
{
    if s.len() == 0 {
        seq![]
    } else {
        escaped_text(s.drop_last()) + escaped(s.last())
    }
}

/// A text as a JSON string.
pub open spec fn quoted_text(s: Seq<char>) -> Seq<char> {
    seq!['"'] + escaped_text(s) + seq!['"']
}

/// A value as text, without white space between its parts.
pub open spec fn printed_json(value: JsonModel) -> Seq<char>
    decreases value,
{
    match value {
        JsonModel::Null => "null"@,
        JsonModel::Bool(b) => if b {
            "true"@
        } else {
            "false"@
        },
        JsonModel::Number(text) => text,
        JsonModel::Text(text) => quoted_text(text),
        JsonModel::Array(items) => "["@ + printed_items(items) + "]"@,
        JsonModel::Object(entries) => "{"@ + printed_entries(entries) + "}"@,
    }
}

/// The items of an array, with commas between them.
pub open spec fn printed_items(items: Seq<JsonModel>) -> Seq<char>
    decreases items,
{
    if items.len() == 0 {
        seq![]
    } else if items.len() == 1 {
        printed_json(items[0])
    } else {
        printed_items(items.drop_last()) + ","@ + printed_json(items[items.len() - 1])
    }
}

/// The entries of an object, with commas between them.
pub open spec fn printed_entries(entries: Seq<(Seq<char>, JsonModel)>) -> Seq<char>
    decreases entries,
{
    if entries.len() == 0 {
        seq![]
    } else {
        let (name, value) = entries[entries.len() - 1];
        let entry = quoted_text(name) + ":"@ + printed_json(value);
        if entries.len() == 1 {
            entry
        } else {
            printed_entries(entries.drop_last()) + ","@ + entry
        }
    }
}

impl Json {
    /// Writes the value as text, without white space between its parts.
    pub fn to_text(&self) -> (r: String)
        ensures
            r@ == printed_json(self@),
    {
        let mut out = String::new();
        self.print(&mut out);
        assert(out@ =~= printed_json(self@));
        out
    }

    fn print(&self, out: &mut String)
        ensures
            final(out)@ == old(out)@ + printed_json(json_model(*self)),
        decreases self,
    {
        match self {
            Json::Null => out.append("null"),
            Json::Bool(b) => if *b {
                out.append("true")
            } else {
                out.append("false")
            },
            Json::Number(text) => out.append(text.as_str()),
            Json::Text(text) => out.append(quoted(text.as_str()).as_str()),
            Json::Array(items) => {
                let ghost model = array_model(items@);
                out.append("[");
                let ghost front = out@;
                let mut i: usize = 0;
                proof {
                    lemma_array_model(items@);
                    assert(out@ =~= front + printed_items(model.take(0)));
                }
                while i < items.len()
                    invariant
                        i <= items@.len() == model.len(),
                        decreases_to!(self => items@),
                        forall|j: int|
                            0 <= j < items@.len() ==> #[trigger] model[j] == json_model(items@[j]),
                        out@ == front + printed_items(model.take(i as int)),
                    decreases items@.len() - i,
                {
                    proof {
                        assert(decreases_to!(self => items@[i as int]));
                        assert(model.take(i + 1).drop_last() =~= model.take(i as int));
                        assert(model.take(i + 1)[i as int] == model[i as int]);
                    }
                    if i > 0 {
                        out.append(",");
                    }
                    items[i].print(out);
                    i = i + 1;
                    assert(out@ =~= front + printed_items(model.take(i as int)));
                }
                assert(model.take(i as int) =~= model);
                out.append("]");
                assert(out@ =~= old(out)@ + printed_json(json_model(*self)));
            },
            Json::Object(entries) => {
                let ghost model = object_model(entries@);
                out.append("{");
                let ghost front = out@;
                let mut i: usize = 0;
                proof {
                    lemma_object_model(entries@);
                    assert(out@ =~= front + printed_entries(model.take(0)));
                }
                while i < entries.len()
                    invariant
                        i <= entries@.len() == model.len(),
                        decreases_to!(self => entries@),
                        forall|j: int|
                            0 <= j < entries@.len() ==> #[trigger] model[j] == (
                                entries@[j].0@,
                                json_model(entries@[j].1),
                            ),
                        out@ == front + printed_entries(model.take(i as int)),
                    decreases entries@.len() - i,
                {
                    proof {
                        assert(decreases_to!(self => entries@[i as int].1));
                        assert(model.take(i + 1).drop_last() =~= model.take(i as int));
                        assert(model.take(i + 1)[i as int] == model[i as int]);
                    }
                    if i > 0 {
                        out.append(",");
                    }
                    let entry = &entries[i];
                    out.append(quoted(entry.0.as_str()).as_str());
                    out.append(":");
                    entry.1.print(out);
                    i = i + 1;
                    assert(out@ =~= front + printed_entries(model.take(i as int)));
                }
                assert(model.take(i as int) =~= model);
                out.append("}");
                assert(out@ =~= old(out)@ + printed_json(json_model(*self)));
            },
        }
    }
}

// ---------------------------------------------------------------------------
// Values that are read back as they were printed
// ---------------------------------------------------------------------------

/// Whether a text comes before another in the order of their characters.
pub open spec fn text_less(a: Seq<char>, b: Seq<char>) -> bool
    decreases a.len(),
{
    if b.len() == 0 {
        false
    } else if a.len() == 0 {
        true
    } else {
        (a[0] as u32) < (b[0] as u32) || (a[0] == b[0] && text_less(
            a.drop_first(),
            b.drop_first(),
        ))
    }
}

/// How deep arrays and objects are nested.
pub open spec fn json_depth(value: JsonModel) -> nat
    decreases value,
{
    match value {
        JsonModel::Array(items) => 1 + items_depth(items),
        JsonModel::Object(entries) => 1 + entries_depth(entries),
        _ => 0,
    }
}

pub open spec fn items_depth(items: Seq<JsonModel>) -> nat
    decreases items,
{
    if items.len() == 0 {
        0
    } else {
        let rest = items_depth(items.drop_last());
        let last = json_depth(items[items.len() - 1]);
        if rest < last {
            last
        } else {
            rest
        }
    }
}

pub open spec fn entries_depth(entries: Seq<(Seq<char>, JsonModel)>) -> nat
    decreases entries,
{
    if entries.len() == 0 {
        0
    } else {
        let rest = entries_depth(entries.drop_last());
        let last = json_depth(entries[entries.len() - 1].1);
        if rest < last {
            last
        } else {
            rest
        }
    }
}

/// The text is that of a natural number of at most 64 bits.
pub open spec fn natural_text(text: Seq<char>) -> bool {
    exists|n: u64| text == #[trigger] digits_of(n as nat)
}

/// The text is that of a negative integer of at most 64 bits.
pub open spec fn negative_text(text: Seq<char>) -> bool {
    exists|n: u64|
        1 <= n <= 0x8000_0000_0000_0000 && text == seq!['-'] + #[trigger] digits_of(n as nat)
}

/// Every number is an integer.
pub open spec fn integer_json(value: JsonModel) -> bool
    decreases value,
{
    match value {
        JsonModel::Number(text) => natural_text(text) || negative_text(text),
        JsonModel::Array(items) => integer_items(items),
        JsonModel::Object(entries) => integer_entries(entries),
        _ => true,
    }
}

pub open spec fn integer_items(items: Seq<JsonModel>) -> bool
    decreases items,
{
    items.len() == 0 || (integer_items(items.drop_last()) && integer_json(items[items.len() - 1]))
}

pub open spec fn integer_entries(entries: Seq<(Seq<char>, JsonModel)>) -> bool
    decreases entries,
{
    entries.len() == 0 || (integer_entries(entries.drop_last()) && integer_json(
        entries[entries.len() - 1].1,
    ))
}

/// In every object the names stand in order, none of them twice.
pub open spec fn ordered_json(value: JsonModel) -> bool
    decreases value,
{
    match value {
        JsonModel::Array(items) => ordered_items(items),
        JsonModel::Object(entries) => ordered_entries(entries),
        _ => true,
    }
}

pub open spec fn ordered_items(items: Seq<JsonModel>) -> bool
    decreases items,
{
    items.len() == 0 || (ordered_items(items.drop_last()) && ordered_json(items[items.len() - 1]))
}

pub open spec fn ordered_entries(entries: Seq<(Seq<char>, JsonModel)>) -> bool
    decreases entries,
{
    entries.len() == 0 || {
        &&& ordered_entries(entries.drop_last())
        &&& ordered_json(entries[entries.len() - 1].1)
        &&& entries.len() > 1 ==> text_less(
            entries[entries.len() - 2].0,
            entries[entries.len() - 1].0,
        )
    }
}

proof fn lemma_ordered_items(items: Seq<JsonModel>)
    requires
        forall|i: int| 0 <= i < items.len() ==> ordered_json(#[trigger] items[i]),
    ensures
        ordered_items(items),
    decreases items.len(),
{
    if items.len() > 0 {
        let t = items.drop_last();
        assert(forall|i: int| 0 <= i < t.len() ==> #[trigger] t[i] == items[i]);
        lemma_ordered_items(t);
    }
}

proof fn lemma_ordered_entries(entries: Seq<(Seq<char>, JsonModel)>)
    requires
        forall|i: int| 0 <= i < entries.len() ==> ordered_json((#[trigger] entries[i]).1),
        forall|i: int|
            0 < i < entries.len() ==> text_less(entries[i - 1].0, (#[trigger] entries[i]).0),
    ensures
        ordered_entries(entries),
    decreases entries.len(),
{
    if entries.len() > 0 {
        let t = entries.drop_last();
        assert(forall|i: int| 0 <= i < t.len() ==> #[trigger] t[i] == entries[i]);
        lemma_ordered_entries(t);
    }
}

/// The value is read back as it was printed.
pub open spec fn readable(value: JsonModel) -> bool {
    integer_json(value) && ordered_json(value) && json_depth(value) <= 127
}

/// What every value is that was read from a text. If besides its numbers are integers,
/// it is `readable`.
pub open spec fn well_read(value: JsonModel) -> bool {
    solid_json(value) && ordered_json(value) && json_depth(value) <= 127
}

// ---------------------------------------------------------------------------
// How the text of a value begins
// ---------------------------------------------------------------------------

/// White space between the parts of a JSON text.
pub open spec fn json_space(c: char) -> bool {
    c == ' ' || c == '\n' || c == '\t' || c == '\r'
}

/// The text behind the white space at its front.
pub open spec fn json_body(text: Seq<char>) -> Seq<char>
    decreases text.len(),
{
    if text.len() > 0 && json_space(text[0]) {
        json_body(text.drop_first())
    } else {
        text
    }
}

/// The text begins like a value: with a bracket, a quote, a minus sign or a digit, or
/// with one of the three words.
pub open spec fn json_opens(text: Seq<char>) -> bool {
    let body = json_body(text);
    &&& body.len() > 0
    &&& {
        ||| body[0] == '{' || body[0] == '[' || body[0] == '"' || body[0] == '-'
        ||| '0' <= body[0] <= '9'
        ||| "null"@.is_prefix_of(body)
        ||| "true"@.is_prefix_of(body)
        ||| "false"@.is_prefix_of(body)
    }
}

// ---------------------------------------------------------------------------
// Values that are printed on one line
// ---------------------------------------------------------------------------

/// The text is not empty, and holds no white space.
pub open spec fn solid_text(text: Seq<char>) -> bool {
    &&& text.len() > 0
    &&& forall|i: int| 0 <= i < text.len() ==> !white(#[trigger] text[i])
}

/// No number is written with white space.
pub open spec fn solid_json(value: JsonModel) -> bool
    decreases value,
{
    match value {
        JsonModel::Number(text) => solid_text(text),
        JsonModel::Array(items) => solid_items(items),
        JsonModel::Object(entries) => solid_entries(entries),
        _ => true,
    }
}

pub open spec fn solid_items(items: Seq<JsonModel>) -> bool
    decreases items,
{
    items.len() == 0 || (solid_items(items.drop_last()) && solid_json(items[items.len() - 1]))
}

pub open spec fn solid_entries(entries: Seq<(Seq<char>, JsonModel)>) -> bool
    decreases entries,
{
    entries.len() == 0 || (solid_entries(entries.drop_last()) && solid_json(
        entries[entries.len() - 1].1,
    ))
}

proof fn lemma_solid_items(items: Seq<JsonModel>)
    requires
        forall|i: int| 0 <= i < items.len() ==> solid_json(#[trigger] items[i]),
    ensures
        solid_items(items),
    decreases items.len(),
{
    if items.len() > 0 {
        let t = items.drop_last();
        assert(forall|i: int| 0 <= i < t.len() ==> #[trigger] t[i] == items[i]);
        lemma_solid_items(t);
    }
}

proof fn lemma_solid_entries(entries: Seq<(Seq<char>, JsonModel)>)
    requires
        forall|i: int| 0 <= i < entries.len() ==> solid_json((#[trigger] entries[i]).1),
    ensures
        solid_entries(entries),
    decreases entries.len(),
{
    if entries.len() > 0 {
        let t = entries.drop_last();
        assert(forall|i: int| 0 <= i < t.len() ==> #[trigger] t[i] == entries[i]);
        lemma_solid_entries(t);
    }
}

/// A value that is read back as it was printed is printed on one line: integers are
/// written without white space.
pub proof fn law_integers_are_solid(value: JsonModel)
    requires
        integer_json(value),
    ensures
        solid_json(value),
    decreases value,
{
    match value {
        JsonModel::Number(text) => {
            if natural_text(text) {
                let n = choose|n: u64| text == #[trigger] digits_of(n as nat);
                lemma_digits(n as nat);
            } else {
                let n = choose|n: u64|
                    1 <= n <= 0x8000_0000_0000_0000 && text == seq!['-'] + #[trigger] digits_of(
                        n as nat,
                    );
                lemma_digits(n as nat);
                assert(forall|i: int|
                    0 < i < text.len() ==> #[trigger] text[i] == digits_of(n as nat)[i - 1]);
            }
        },
        JsonModel::Array(items) => lemma_integer_items_solid(items),
        JsonModel::Object(entries) => lemma_integer_entries_solid(entries),
        _ => {},
    }
}

proof fn lemma_integer_items_solid(items: Seq<JsonModel>)
    requires
        integer_items(items),
    ensures
        solid_items(items),
    decreases items,
{
    if items.len() > 0 {
        lemma_integer_items_solid(items.drop_last());
        law_integers_are_solid(items[items.len() - 1]);
    }
}

proof fn lemma_integer_entries_solid(entries: Seq<(Seq<char>, JsonModel)>)
    requires
        integer_entries(entries),
    ensures
        solid_entries(entries),
    decreases entries,
{
    if entries.len() > 0 {
        lemma_integer_entries_solid(entries.drop_last());
        law_integers_are_solid(entries[entries.len() - 1].1);
    }
}

proof fn lemma_no_line_feed_concat(a: Seq<char>, b: Seq<char>)
    requires
        !a.contains('\n'),
        !b.contains('\n'),
    ensures
        !(a + b).contains('\n'),
{
    if (a + b).contains('\n') {
        let i = choose|i: int| 0 <= i < (a + b).len() && (a + b)[i] == '\n';
        if i < a.len() {
            assert(a[i] == '\n');
        } else {
            assert(b[i - a.len()] == '\n');
        }
    }
}

proof fn lemma_escaped(c: char)
    ensures
        !escaped(c).contains('\n'),
{
    let e = escaped(c);
    let high = hex_char(c as int / 16);
    let low = hex_char(c as int % 16);
    if (c as u32) < 0x20 {
        assert(high == '0' || high == '1');
        assert(high != '\n' && low != '\n');
    }
    assert forall|i: int| 0 <= i < e.len() implies e[i] != '\n' by {}
}

proof fn lemma_escaped_text(s: Seq<char>)
    ensures
        !escaped_text(s).contains('\n'),
        !quoted_text(s).contains('\n'),
    decreases s.len(),
{
    if s.len() > 0 {
        lemma_escaped_text(s.drop_last());
        lemma_escaped(s.last());
        lemma_no_line_feed_concat(escaped_text(s.drop_last()), escaped(s.last()));
    }
    lemma_no_line_feed_concat(seq!['"'], escaped_text(s));
    lemma_no_line_feed_concat(seq!['"'] + escaped_text(s), seq!['"']);
}

proof fn lemma_digits(n: nat)
    ensures
        digits_of(n).len() > 0,
        forall|i: int| 0 <= i < digits_of(n).len() ==> '0' <= #[trigger] digits_of(n)[i] <= '9',
    decreases n,
{
    if n >= 10 {
        lemma_digits(n / 10);
    }
}

proof fn lemma_punctuation()
    ensures
        "null"@ == seq!['n', 'u', 'l', 'l'],
        "true"@ == seq!['t', 'r', 'u', 'e'],
        "false"@ == seq!['f', 'a', 'l', 's', 'e'],
        "["@ == seq!['['],
        "]"@ == seq![']'],
        "{"@ == seq!['{'],
        "}"@ == seq!['}'],
        ","@ == seq![','],
        ":"@ == seq![':'],
{
    reveal_strlit("null");
    reveal_strlit("true");
    reveal_strlit("false");
    reveal_strlit("[");
    reveal_strlit("]");
    reveal_strlit("{");
    reveal_strlit("}");
    reveal_strlit(",");
    reveal_strlit(":");
    assert("null"@ =~= seq!['n', 'u', 'l', 'l']);
    assert("true"@ =~= seq!['t', 'r', 'u', 'e']);
    assert("false"@ =~= seq!['f', 'a', 'l', 's', 'e']);
    assert("["@ =~= seq!['[']);
    assert("]"@ =~= seq![']']);
    assert("{"@ =~= seq!['{']);
    assert("}"@ =~= seq!['}']);
    assert(","@ =~= seq![',']);
    assert(":"@ =~= seq![':']);
}

/// A value whose numbers are written without white space is printed on one line,
/// whatever its texts hold, and without white space at its ends.
pub proof fn law_printed_on_one_line(value: JsonModel)
    requires
        solid_json(value),
    ensures
        printed_json(value).len() > 0,
        !printed_json(value).contains('\n'),
        !white(printed_json(value)[0]),
        !white(printed_json(value).last()),
    decreases value,
{
    lemma_punctuation();
    match value {
        JsonModel::Number(text) => {
            assert(text.last() == text[text.len() - 1]);
            assert(white('\n'));
        },
        JsonModel::Text(text) => {
            lemma_escaped_text(text);
        },
        JsonModel::Array(items) => {
            lemma_items_on_one_line(items);
            lemma_no_line_feed_concat("["@, printed_items(items));
            lemma_no_line_feed_concat("["@ + printed_items(items), "]"@);
        },
        JsonModel::Object(entries) => {
            lemma_entries_on_one_line(entries);
            lemma_no_line_feed_concat("{"@, printed_entries(entries));
            lemma_no_line_feed_concat("{"@ + printed_entries(entries), "}"@);
        },
        _ => {},
    }
}

proof fn lemma_items_on_one_line(items: Seq<JsonModel>)
    requires
        solid_items(items),
    ensures
        !printed_items(items).contains('\n'),
    decreases items,
{
    lemma_punctuation();
    if items.len() > 0 {
        law_printed_on_one_line(items[items.len() - 1]);
        if items.len() > 1 {
            let rest = printed_items(items.drop_last());
            lemma_items_on_one_line(items.drop_last());
            lemma_no_line_feed_concat(rest, ","@);
            lemma_no_line_feed_concat(rest + ","@, printed_json(items[items.len() - 1]));
        }
    }
}

proof fn lemma_entries_on_one_line(entries: Seq<(Seq<char>, JsonModel)>)
    requires
        solid_entries(entries),
    ensures
        !printed_entries(entries).contains('\n'),
    decreases entries,
{
    lemma_punctuation();
    if entries.len() > 0 {
        let (name, value) = entries[entries.len() - 1];
        law_printed_on_one_line(value);
        lemma_escaped_text(name);
        lemma_no_line_feed_concat(quoted_text(name), ":"@);
        lemma_no_line_feed_concat(quoted_text(name) + ":"@, printed_json(value));
        if entries.len() > 1 {
            let entry = quoted_text(name) + ":"@ + printed_json(value);
            let rest = printed_entries(entries.drop_last());
            lemma_entries_on_one_line(entries.drop_last());
            lemma_no_line_feed_concat(rest, ","@);
            lemma_no_line_feed_concat(rest + ","@, entry);
        }
    }
}

// ---------------------------------------------------------------------------
// Outside functions
// ---------------------------------------------------------------------------

/// The `Display` of a `serde_json::Value::String`: the text between quotes, with
/// quotes, backslashes and control characters escaped.
#[verifier::external_body]
pub(crate) fn quoted(text: &str) -> (r: String)
    ensures
        r@ == quoted_text(text@),
{
    serde_json::Value::String(text.to_string()).to_string()
}

/// What a value of `serde_json` holds.
pub uninterp spec fn json_held(value: serde_json::Value) -> JsonModel;

/// What an error of `serde_json` says.
pub uninterp spec fn error_told(error: serde_json::Error) -> Seq<char>;

/// The value that a text is, if `serde_json` takes it for one; else what is wrong
/// with the text.
pub uninterp spec fn parsed_json(text: Seq<char>) -> Result<JsonModel, Seq<char>>;

/// The value that a text is, if it is one.
pub open spec fn json_in(text: Seq<char>) -> Option<JsonModel> {
    match parsed_json(text) {
        Ok(value) => Some(value),
        Err(_) => None,
    }
}

/// The `Display` of a `serde_json::Error`: the message, with the line and column where
/// reading stopped.
#[verifier::external_body]
fn outside_told(error: &serde_json::Error) -> (r: String)
    ensures
        r@ == error_told(*error),
{
    error.to_string()
}

/// `serde_json::from_str::<serde_json::Value>`: its result is a function of the text.
/// A value that was printed is read back as it was, if its numbers are integers, its
/// names stand in order and it is not nested too deep. (A number with a fraction may
/// come back in another notation.) What is read is not nested too deep, and its text
/// begins like a value.
#[verifier::external_body]
fn outside_parse(text: &str) -> (r: Result<serde_json::Value, serde_json::Error>)
    ensures
        match r {
            Ok(value) => parsed_json(text@) == Ok::<JsonModel, Seq<char>>(json_held(value))
                && json_depth(json_held(value)) <= 127 && json_opens(text@),
            Err(error) => parsed_json(text@) == Err::<JsonModel, Seq<char>>(error_told(error)),
        },
        forall|value: JsonModel|
            readable(value) && text@ == #[trigger] printed_json(value) ==> r is Ok && json_held(
                r->Ok_0,
            ) == value,
{
    serde_json::from_str::<serde_json::Value>(text)
}

/// The outermost layer of a value.
enum JsonNode {
    Null,
    Bool(bool),
    Number(String),
    Text(String),
    Array(Vec<serde_json::Value>),
    Object(Vec<(String, serde_json::Value)>),
}

/// What the values hold, one after the other.
pub open spec fn values_held(values: Seq<serde_json::Value>) -> Seq<JsonModel> {
    values.map_values(|value: serde_json::Value| json_held(value))
}

/// What the entries hold, one after the other.
pub open spec fn entries_held(entries: Seq<(String, serde_json::Value)>) -> Seq<
    (Seq<char>, JsonModel),
> {
    entries.map_values(|entry: (String, serde_json::Value)| (entry.0@, json_held(entry.1)))
}

/// The variants of `serde_json::Value` with their fields: a number by its
/// `to_string`, which writes it without white space, an object by the entries of its
/// map in the order in which they are walked, which is that of their names.
#[verifier::external_body]
fn opened(value: serde_json::Value) -> (r: JsonNode)
    ensures
        json_held(value) == (match r {
            JsonNode::Null => JsonModel::Null,
            JsonNode::Bool(b) => JsonModel::Bool(b),
            JsonNode::Number(s) => JsonModel::Number(s@),
            JsonNode::Text(s) => JsonModel::Text(s@),
            JsonNode::Array(values) => JsonModel::Array(values_held(values@)),
            JsonNode::Object(entries) => JsonModel::Object(entries_held(entries@)),
        }),
        r matches JsonNode::Number(s) ==> solid_text(s@),
        r matches JsonNode::Object(entries) ==> forall|i: int|
            0 < i < entries@.len() ==> text_less(entries@[i - 1].0@, (#[trigger] entries@[i]).0@),
{
    match value {
        serde_json::Value::Null => JsonNode::Null,
        serde_json::Value::Bool(b) => JsonNode::Bool(b),
        serde_json::Value::Number(n) => JsonNode::Number(n.to_string()),
        serde_json::Value::String(s) => JsonNode::Text(s),
        serde_json::Value::Array(values) => JsonNode::Array(values),
        serde_json::Value::Object(entries) => JsonNode::Object(entries.into_iter().collect()),
    }
}

} // verus!
