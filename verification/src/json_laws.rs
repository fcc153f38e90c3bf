//! What values say and how they are written, said of their parts.

use crate::feed_laws::{holds, law_what_is_held_is_found};
use crate::json::{
    array_model, escaped, escaped_text, lemma_array_model, lemma_json_model, lemma_object_model,
    object_model, printed_entries, printed_items, printed_json, quoted_text, readable, Json,
    JsonModel,
};
use vstd::prelude::*;

verus! {

/// The items say this, one by one.
pub open spec fn items_say(items: Seq<Json>, models: Seq<JsonModel>) -> bool {
    &&& items.len() == models.len()
    &&& forall|i: int| 0 <= i < items.len() ==> (#[trigger] items[i])@ == models[i]
}

/// The entries say this, one by one.
pub open spec fn entries_say(
    entries: Seq<(String, Json)>,
    models: Seq<(Seq<char>, JsonModel)>,
) -> bool {
    &&& entries.len() == models.len()
    &&& forall|i: int|
        0 <= i < entries.len() ==> (#[trigger] entries[i]).0@ == models[i].0 && entries[i].1@
            == models[i].1
}

proof fn lemma_items_say(items: Seq<Json>, models: Seq<JsonModel>)
    ensures
        items_say(items, models) <==> array_model(items) == models,
{
    lemma_array_model(items);
    if items_say(items, models) {
        assert(array_model(items) =~= models);
    }
    if array_model(items) == models {
        assert forall|i: int| 0 <= i < items.len() implies (#[trigger] items[i])@ == models[i] by {
            assert(array_model(items)[i] == items[i]@);
        }
    }
}

/// A value says what its parts say, each of them and in the same order.
pub proof fn law_value_says(value: Json)
    ensures
        value is Null ==> value@ == JsonModel::Null,
        value is Bool ==> value@ == JsonModel::Bool(value->Bool_0),
        value is Number ==> value@ == JsonModel::Number(value->Number_0@),
        value is Text ==> value@ == JsonModel::Text(value->Text_0@),
        value is Array ==> value@ is Array && items_say(value->Array_0@, value@->Array_0),
        value is Object ==> value@ is Object && entries_say(value->Object_0@, value@->Object_0),
{
    lemma_json_model(value);
    if value is Array {
        lemma_items_say(value->Array_0@, value@->Array_0);
    }
    if value is Object {
        let entries = value->Object_0@;
        lemma_object_model(entries);
        assert forall|i: int| 0 <= i < entries.len() implies (#[trigger] entries[i]).0@
            == value@->Object_0[i].0 && entries[i].1@ == value@->Object_0[i].1 by {
            assert(object_model(entries)[i] == (entries[i].0@, entries[i].1@));
        }
    }
}

/// `text_at` finds the text under a name, and nothing else.
pub proof fn law_text_at(json: &Json, name: &str, r: Option<&str>)
    requires
        call_ensures(Json::text_at, (json, name), r),
    ensures
        forall|text: Seq<char>| #[trigger]
            holds(json@, name@, JsonModel::Text(text)) <==> r is Some && r->0@ == text,
{
    law_what_is_held_is_found(json@, name@, json@);
}

/// `items_at` finds the items of the array under a name, all of them, and nothing else.
pub proof fn law_items_at(json: &Json, name: &str, r: Option<&Vec<Json>>)
    requires
        call_ensures(Json::items_at, (json, name), r),
    ensures
        forall|items: Seq<JsonModel>| #[trigger]
            holds(json@, name@, JsonModel::Array(items)) <==> r is Some && items_say(
                r->0@,
                items,
            ),
{
    law_what_is_held_is_found(json@, name@, json@);
    assert forall|items: Seq<JsonModel>| #[trigger]
        holds(json@, name@, JsonModel::Array(items)) <==> r is Some && items_say(
            r->0@,
            items,
        ) by {
        if r is Some {
            lemma_items_say(r->0@, items);
        }
    }
}

/// `as_str`, `as_array` and `into_items` give what a value says.
pub proof fn law_parts(
    json: Json,
    text: Option<&str>,
    items: Option<&Vec<Json>>,
    taken: Result<Vec<Json>, Json>,
)
    requires
        call_ensures(Json::as_str, (&json,), text),
        call_ensures(Json::as_array, (&json,), items),
        call_ensures(Json::into_items, (json,), taken),
    ensures
        text is Some <==> json@ is Text,
        text is Some ==> text->0@ == json@->Text_0,
        items is Some <==> json@ is Array,
        items is Some ==> items_say(items->0@, json@->Array_0),
        taken is Ok <==> json@ is Array,
        taken is Ok ==> items_say(taken->Ok_0@, json@->Array_0),
        taken is Err ==> taken->Err_0@ == json@,
{
    if json@ is Array {
        lemma_items_say(items->0@, json@->Array_0);
        lemma_items_say(taken->Ok_0@, json@->Array_0);
    }
}

/// A clone says what the value says.
pub proof fn law_clone_says_the_same(json: &Json, copy: Json)
    requires
        call_ensures(Json::clone, (json,), copy),
    ensures
        copy@ == json@,
{
}

// ---------------------------------------------------------------------------
// Writing
// ---------------------------------------------------------------------------

/// Texts with commas between them.
pub open spec fn listed(texts: Seq<Seq<char>>) -> Seq<char>
    decreases texts.len(),
{
    if texts.len() == 0 {
        seq![]
    } else if texts.len() == 1 {
        texts[0]
    } else {
        texts[0] + seq![','] + listed(texts.drop_first())
    }
}

proof fn lemma_listed_push(texts: Seq<Seq<char>>, last: Seq<char>)
    ensures
        listed(texts.push(last)) == (if texts.len() == 0 {
            last
        } else {
            listed(texts) + seq![','] + last
        }),
    decreases texts.len(),
{
    let all = texts.push(last);
    if texts.len() > 0 {
        lemma_listed_push(texts.drop_first(), last);
        assert(all.drop_first() =~= texts.drop_first().push(last));
        assert(listed(all) =~= listed(texts) + seq![','] + last);
    }
}

proof fn lemma_items_listed(items: Seq<JsonModel>)
    ensures
        printed_items(items) == listed(items.map_values(|item: JsonModel| printed_json(item))),
    decreases items,
{
    let texts = items.map_values(|item: JsonModel| printed_json(item));
    reveal_strlit(",");
    assert(","@ =~= seq![',']);
    if items.len() > 0 {
        let front = items.drop_last();
        lemma_items_listed(front);
        let fewer = front.map_values(|item: JsonModel| printed_json(item));
        assert(texts =~= fewer.push(printed_json(items.last())));
        lemma_listed_push(fewer, printed_json(items.last()));
    }
}

spec fn entry_text(entry: (Seq<char>, JsonModel)) -> Seq<char> {
    quoted_text(entry.0) + seq![':'] + printed_json(entry.1)
}

proof fn lemma_entries_listed(entries: Seq<(Seq<char>, JsonModel)>)
    ensures
        printed_entries(entries) == listed(
            entries.map_values(|entry: (Seq<char>, JsonModel)| entry_text(entry)),
        ),
    decreases entries,
{
    let texts = entries.map_values(|entry: (Seq<char>, JsonModel)| entry_text(entry));
    reveal_strlit(",");
    reveal_strlit(":");
    assert(","@ =~= seq![',']);
    assert(":"@ =~= seq![':']);
    if entries.len() > 0 {
        let front = entries.drop_last();
        let last = entries[entries.len() - 1];
        lemma_entries_listed(front);
        let fewer = front.map_values(|entry: (Seq<char>, JsonModel)| entry_text(entry));
        assert(texts =~= fewer.push(entry_text(last)));
        lemma_listed_push(fewer, entry_text(last));
    }
}

/// What is neither an array, an object nor a text is written as a word or as its digits.
pub proof fn law_text_of_word(json: &Json, text: String)
    requires
        call_ensures(Json::to_text, (json,), text),
    ensures
        json@ is Null ==> text@ == seq!['n', 'u', 'l', 'l'],
        json@ == JsonModel::Bool(true) ==> text@ == seq!['t', 'r', 'u', 'e'],
        json@ == JsonModel::Bool(false) ==> text@ == seq!['f', 'a', 'l', 's', 'e'],
        json@ is Number ==> text@ == json@->Number_0,
{
    reveal_strlit("null");
    reveal_strlit("true");
    reveal_strlit("false");
    assert("null"@ =~= seq!['n', 'u', 'l', 'l']);
    assert("true"@ =~= seq!['t', 'r', 'u', 'e']);
    assert("false"@ =~= seq!['f', 'a', 'l', 's', 'e']);
}

/// The character stands in a string as it is.
pub open spec fn plain(c: char) -> bool {
    c != '"' && c != '\\' && c as u32 >= 0x20
}

proof fn lemma_plain(s: Seq<char>)
    requires
        forall|i: int| 0 <= i < s.len() ==> plain(#[trigger] s[i]),
    ensures
        escaped_text(s) == s,
    decreases s.len(),
{
    if s.len() > 0 {
        let t = s.drop_last();
        assert(forall|i: int| 0 <= i < t.len() ==> #[trigger] t[i] == s[i]);
        lemma_plain(t);
        assert(plain(s[s.len() - 1]));
        assert(escaped(s.last()) =~= seq![s.last()]);
        assert(escaped_text(s) =~= s);
    }
}

/// A text is written between quotes, as it is where nothing in it needs another notation.
pub proof fn law_text_of_text(json: &Json, text: String)
    requires
        json@ is Text,
        call_ensures(Json::to_text, (json,), text),
    ensures
        text@.len() >= 2,
        text@[0] == '"',
        text@.last() == '"',
        (forall|i: int| 0 <= i < json@->Text_0.len() ==> plain(#[trigger] json@->Text_0[i]))
            ==> text@ == seq!['"'] + json@->Text_0 + seq!['"'],
{
    if forall|i: int| 0 <= i < json@->Text_0.len() ==> plain(#[trigger] json@->Text_0[i]) {
        lemma_plain(json@->Text_0);
    }
}

/// An array is written as its items are, all of them and in order, with commas between
/// them and in brackets.
pub proof fn law_text_of_array(
    json: &Json,
    text: String,
    items: Seq<Json>,
    texts: Seq<String>,
)
    requires
        json@ is Array,
        items_say(items, json@->Array_0),
        call_ensures(Json::to_text, (json,), text),
        texts.len() == items.len(),
        forall|k: int|
            0 <= k < items.len() ==> call_ensures(
                Json::to_text,
                (&items[k],),
                #[trigger] texts[k],
            ),
    ensures
        text@ == seq!['['] + listed(texts.map_values(|text: String| text@)) + seq![']'],
{
    let models = json@->Array_0;
    reveal_strlit("[");
    reveal_strlit("]");
    assert("["@ =~= seq!['[']);
    assert("]"@ =~= seq![']']);
    lemma_items_listed(models);
    let written = texts.map_values(|text: String| text@);
    let printed = models.map_values(|item: JsonModel| printed_json(item));
    assert forall|k: int| 0 <= k < written.len() implies written[k] == printed[k] by {
        assert(items[k]@ == models[k]);
        assert(call_ensures(Json::to_text, (&items[k],), texts[k]));
    }
    assert(written =~= printed);
}

/// A name with a colon and a value.
pub open spec fn named(name: Seq<char>, value: Seq<char>) -> Seq<char> {
    name + seq![':'] + value
}

/// An object is written as its entries are, all of them and in order, with commas between
/// them and in braces; an entry as its name, which is written as a text is, a colon and its
/// value.
pub proof fn law_text_of_object(
    json: &Json,
    text: String,
    names: Seq<Json>,
    name_texts: Seq<String>,
    values: Seq<Json>,
    value_texts: Seq<String>,
)
    requires
        json@ is Object,
        names.len() == json@->Object_0.len(),
        values.len() == json@->Object_0.len(),
        name_texts.len() == json@->Object_0.len(),
        value_texts.len() == json@->Object_0.len(),
        forall|k: int|
            0 <= k < names.len() ==> (#[trigger] names[k])@ == JsonModel::Text(
                json@->Object_0[k].0,
            ),
        forall|k: int|
            0 <= k < values.len() ==> (#[trigger] values[k])@ == json@->Object_0[k].1,
        call_ensures(Json::to_text, (json,), text),
        forall|k: int|
            0 <= k < names.len() ==> call_ensures(
                Json::to_text,
                (&names[k],),
                #[trigger] name_texts[k],
            ),
        forall|k: int|
            0 <= k < values.len() ==> call_ensures(
                Json::to_text,
                (&values[k],),
                #[trigger] value_texts[k],
            ),
    ensures
        text@ == seq!['{'] + listed(
            Seq::new(names.len(), |k: int| named(name_texts[k]@, value_texts[k]@)),
        ) + seq!['}'],
{
    let entries = json@->Object_0;
    reveal_strlit("{");
    reveal_strlit("}");
    assert("{"@ =~= seq!['{']);
    assert("}"@ =~= seq!['}']);
    lemma_entries_listed(entries);
    let written = Seq::new(names.len(), |k: int| named(name_texts[k]@, value_texts[k]@));
    let printed = entries.map_values(|entry: (Seq<char>, JsonModel)| entry_text(entry));
    assert forall|k: int| 0 <= k < written.len() implies written[k] == printed[k] by {
        assert(names[k]@ == JsonModel::Text(entries[k].0));
        assert(values[k]@ == entries[k].1);
        assert(call_ensures(Json::to_text, (&names[k],), name_texts[k]));
        assert(call_ensures(Json::to_text, (&values[k],), value_texts[k]));
    }
    assert(written =~= printed);
}

/// What is written of a readable value is read as that value.
pub proof fn law_written_is_read(json: &Json, text: String, copy: &str, r: Result<Json, String>)
    requires
        readable(json@),
        call_ensures(Json::to_text, (json,), text),
        copy@ == text@,
        call_ensures(Json::parse, (copy,), r),
    ensures
        r is Ok,
        r->Ok_0@ == json@,
{
}

} // verus!
