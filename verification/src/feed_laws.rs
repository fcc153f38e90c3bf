//! What reading a message gives, said of the message itself.

use crate::basic_orderbook::{Level, Price, Quantity, Side};
use crate::decimal::parsed_decimal;
use crate::feed::{
    parse_change, parse_snapshot, parsed_change, parsed_level, parsed_levels, parsed_side,
    parsed_snapshot, Change, Snapshot,
};
use crate::json::{
    entry_at, json_get, json_items, json_text, lemma_entry_at, Json, JsonModel,
};
use vstd::prelude::*;

verus! {

/// The value is an object in which `item` stands under the name, the first of that name.
pub open spec fn holds(value: JsonModel, name: Seq<char>, item: JsonModel) -> bool {
    value is Object && exists|i: int|
        #![trigger value->Object_0[i]]
        0 <= i < value->Object_0.len() && value->Object_0[i] == (name, item) && forall|j: int|
            0 <= j < i ==> (#[trigger] value->Object_0[j]).0 != name
}

/// The entry names the level: its price and its size stand in it as texts that are read as
/// these numbers.
pub open spec fn names_level(entry: JsonModel, level: Level) -> bool {
    exists|price: Seq<char>, size: Seq<char>| #[trigger]
        holds(entry, "price"@, JsonModel::Text(price)) && #[trigger] holds(
            entry,
            "size"@,
            JsonModel::Text(size),
        ) && parsed_decimal(price) == Some(level.price.0) && parsed_decimal(size) == Some(
            level.size.0,
        )
}

/// The entry names a level.
pub open spec fn names_some_level(entry: JsonModel) -> bool {
    exists|level: Level| #[trigger] names_level(entry, level)
}

/// The entries name the levels, each its own.
pub open spec fn names_levels(entries: Seq<JsonModel>, levels: Seq<Level>) -> bool {
    &&& levels.len() == entries.len()
    &&& forall|k: int| 0 <= k < entries.len() ==> names_level(#[trigger] entries[k], levels[k])
}

/// The message is a whole snapshot of the asset with these levels.
pub open spec fn names_snapshot(
    message: JsonModel,
    id: Seq<char>,
    bids: Seq<Level>,
    asks: Seq<Level>,
) -> bool {
    &&& holds(message, "asset_id"@, JsonModel::Text(id))
    &&& exists|entries: Seq<JsonModel>| #[trigger]
        holds(message, "bids"@, JsonModel::Array(entries)) && names_levels(entries, bids)
    &&& exists|entries: Seq<JsonModel>| #[trigger]
        holds(message, "asks"@, JsonModel::Array(entries)) && names_levels(entries, asks)
}

/// The entry is a whole change to the asset: what is bought are bids, what is sold asks.
pub open spec fn names_change(
    entry: JsonModel,
    id: Seq<char>,
    side: Side,
    price: Price,
    size: Quantity,
) -> bool {
    &&& holds(entry, "asset_id"@, JsonModel::Text(id))
    &&& names_level(entry, Level { price, size })
    &&& holds(
        entry,
        "side"@,
        JsonModel::Text(
            if side is Bid {
                seq!['B', 'U', 'Y']
            } else {
                seq!['S', 'E', 'L', 'L']
            },
        ),
    )
}

/// What stands under a name is found, and nothing else is.
pub proof fn law_what_is_held_is_found(value: JsonModel, name: Seq<char>, item: JsonModel)
    ensures
        json_get(value, name) == Some(item) <==> holds(value, name, item),
        forall|text: Seq<char>|
            json_text(value, name) == Some(text) <==> #[trigger] holds(
                value,
                name,
                JsonModel::Text(text),
            ),
        forall|items: Seq<JsonModel>|
            json_items(value, name) == Some(items) <==> #[trigger] holds(
                value,
                name,
                JsonModel::Array(items),
            ),
{
    lemma_found(value, name, item);
    assert forall|text: Seq<char>|
        json_text(value, name) == Some(text) <==> #[trigger] holds(
            value,
            name,
            JsonModel::Text(text),
        ) by {
        lemma_found(value, name, JsonModel::Text(text));
    }
    assert forall|items: Seq<JsonModel>|
        json_items(value, name) == Some(items) <==> #[trigger] holds(
            value,
            name,
            JsonModel::Array(items),
        ) by {
        lemma_found(value, name, JsonModel::Array(items));
    }
}

proof fn lemma_found(value: JsonModel, name: Seq<char>, item: JsonModel)
    ensures
        json_get(value, name) == Some(item) <==> holds(value, name, item),
{
    if let JsonModel::Object(entries) = value {
        lemma_entry_at(entries, name);
        let k = entry_at(entries, name);
        if json_get(value, name) == Some(item) {
            assert(value->Object_0[k] == (name, item));
        }
        if holds(value, name, item) {
            let i = choose|i: int|
                #![trigger value->Object_0[i]]
                0 <= i < entries.len() && value->Object_0[i] == (name, item) && forall|j: int|
                    0 <= j < i ==> (#[trigger] value->Object_0[j]).0 != name;
            assert(i == k) by {
                if i < k {
                    assert(entries[i].0 != name);
                }
                if k < i {
                    assert(value->Object_0[k].0 != name);
                }
            }
        }
    }
}

/// `Json::get` finds what stands under a name.
pub proof fn law_get(json: &Json, name: &str, found: Option<&Json>)
    requires
        call_ensures(Json::get, (json, name), found),
    ensures
        forall|item: JsonModel| #[trigger]
            holds(json@, name@, item) <==> found is Some && found->0@ == item,
{
    assert forall|item: JsonModel| #[trigger]
        holds(json@, name@, item) <==> found is Some && found->0@ == item by {
        lemma_found(json@, name@, item);
    }
}

/// An entry names at most one level, and that one is read.
pub proof fn law_level_is_the_one_named(entry: JsonModel)
    ensures
        forall|level: Level| #[trigger]
            names_level(entry, level) <==> parsed_level(entry) == Some(level),
{
    law_what_is_held_is_found(entry, "price"@, entry);
    law_what_is_held_is_found(entry, "size"@, entry);
    assert forall|level: Level| #[trigger]
        names_level(entry, level) <==> parsed_level(entry) == Some(level) by {
        if parsed_level(entry) == Some(level) {
            let price = json_text(entry, "price"@)->0;
            let size = json_text(entry, "size"@)->0;
            assert(holds(entry, "price"@, JsonModel::Text(price)));
            assert(holds(entry, "size"@, JsonModel::Text(size)));
        }
    }
}

/// Entries name as many levels as they are, each its own, and all of them are read; if one
/// names none, nothing is.
pub proof fn law_levels_are_those_named(entries: Seq<JsonModel>)
    ensures
        parsed_levels(entries) is Some <==> forall|k: int|
            0 <= k < entries.len() ==> names_some_level(#[trigger] entries[k]),
        forall|levels: Seq<Level>| #[trigger]
            names_levels(entries, levels) <==> parsed_levels(entries) == Some(levels),
    decreases entries.len(),
{
    if entries.len() > 0 {
        let rest = entries.drop_last();
        let last = entries.last();
        law_levels_are_those_named(rest);
        law_level_is_the_one_named(last);
        assert(forall|k: int| 0 <= k < rest.len() ==> #[trigger] rest[k] == entries[k]);
        if parsed_levels(entries) is Some {
            assert forall|k: int| 0 <= k < entries.len() implies names_some_level(
                #[trigger] entries[k],
            ) by {
                if k < rest.len() {
                    assert(rest[k] == entries[k]);
                } else {
                    assert(names_level(entries[k], parsed_level(last)->0));
                }
            }
        }
        if forall|k: int|
            0 <= k < entries.len() ==> names_some_level(#[trigger] entries[k]) {
            assert forall|k: int| 0 <= k < rest.len() implies names_some_level(
                #[trigger] rest[k],
            ) by {
                assert(rest[k] == entries[k]);
            }
            assert(entries[entries.len() - 1] == last);
        }
        assert forall|levels: Seq<Level>| #[trigger]
            names_levels(entries, levels) <==> parsed_levels(entries) == Some(levels) by {
            if names_levels(entries, levels) {
                let front = levels.drop_last();
                assert forall|k: int| 0 <= k < rest.len() implies names_level(
                    #[trigger] rest[k],
                    front[k],
                ) by {
                    assert(names_level(entries[k], levels[k]));
                }
                assert(names_levels(rest, front));
                assert(names_level(entries[entries.len() - 1], levels[entries.len() - 1]));
                assert(front.push(levels.last()) =~= levels);
            }
            if parsed_levels(entries) == Some(levels) {
                let front = parsed_levels(rest)->0;
                assert(names_levels(rest, front));
                assert forall|k: int| 0 <= k < entries.len() implies names_level(
                    #[trigger] entries[k],
                    levels[k],
                ) by {
                    if k < rest.len() {
                        assert(names_level(rest[k], front[k]));
                    } else {
                        assert(names_level(last, levels[k]));
                    }
                }
            }
        }
    } else {
        assert forall|levels: Seq<Level>| #[trigger]
            names_levels(entries, levels) <==> parsed_levels(entries) == Some(levels) by {
            if names_levels(entries, levels) {
                assert(levels =~= seq![]);
            }
        }
    }
}

/// A message names at most one snapshot, and that one is read.
pub proof fn law_snapshot_is_the_one_named(message: JsonModel)
    ensures
        forall|id: Seq<char>, bids: Seq<Level>, asks: Seq<Level>| #[trigger]
            names_snapshot(message, id, bids, asks) <==> parsed_snapshot(message) is Some
                && parsed_snapshot(message)->0.asset_id == id && parsed_snapshot(message)->0.bids
                == bids && parsed_snapshot(message)->0.asks == asks,
{
    law_what_is_held_is_found(message, "asset_id"@, message);
    law_what_is_held_is_found(message, "bids"@, message);
    law_what_is_held_is_found(message, "asks"@, message);
    assert forall|id: Seq<char>, bids: Seq<Level>, asks: Seq<Level>| #[trigger]
        names_snapshot(message, id, bids, asks) <==> parsed_snapshot(message) is Some
            && parsed_snapshot(message)->0.asset_id == id && parsed_snapshot(message)->0.bids
            == bids && parsed_snapshot(message)->0.asks == asks by {
        if names_snapshot(message, id, bids, asks) {
            let b = choose|entries: Seq<JsonModel>| #[trigger]
                holds(message, "bids"@, JsonModel::Array(entries)) && names_levels(entries, bids);
            let a = choose|entries: Seq<JsonModel>| #[trigger]
                holds(message, "asks"@, JsonModel::Array(entries)) && names_levels(entries, asks);
            law_levels_are_those_named(b);
            law_levels_are_those_named(a);
            assert(json_text(message, "asset_id"@) == Some(id));
            assert(json_items(message, "bids"@) == Some(b));
            assert(json_items(message, "asks"@) == Some(a));
        }
        if parsed_snapshot(message) is Some && parsed_snapshot(message)->0.asset_id == id
            && parsed_snapshot(message)->0.bids == bids && parsed_snapshot(message)->0.asks
            == asks {
            let b = json_items(message, "bids"@)->0;
            let a = json_items(message, "asks"@)->0;
            law_levels_are_those_named(b);
            law_levels_are_those_named(a);
            assert(holds(message, "asset_id"@, JsonModel::Text(id)));
            assert(holds(message, "bids"@, JsonModel::Array(b)) && names_levels(b, bids));
            assert(holds(message, "asks"@, JsonModel::Array(a)) && names_levels(a, asks));
        }
    }
}

/// An entry names at most one change, and that one is read.
pub proof fn law_change_is_the_one_named(entry: JsonModel)
    ensures
        forall|id: Seq<char>, side: Side, price: Price, size: Quantity| #[trigger]
            names_change(entry, id, side, price, size) <==> parsed_change(entry) is Some
                && parsed_change(entry)->0.asset_id == id && parsed_change(entry)->0.side == side
                && parsed_change(entry)->0.price == price && parsed_change(entry)->0.size == size,
{
    reveal_strlit("BUY");
    reveal_strlit("SELL");
    assert("BUY"@ =~= seq!['B', 'U', 'Y']);
    assert("SELL"@ =~= seq!['S', 'E', 'L', 'L']);
    assert("BUY"@.len() != "SELL"@.len());
    law_what_is_held_is_found(entry, "asset_id"@, entry);
    law_what_is_held_is_found(entry, "side"@, entry);
    law_level_is_the_one_named(entry);
    assert forall|id: Seq<char>, side: Side, price: Price, size: Quantity| #[trigger]
        names_change(entry, id, side, price, size) <==> parsed_change(entry) is Some
            && parsed_change(entry)->0.asset_id == id && parsed_change(entry)->0.side == side
            && parsed_change(entry)->0.price == price && parsed_change(entry)->0.size == size by {
        let text = if side is Bid {
            seq!['B', 'U', 'Y']
        } else {
            seq!['S', 'E', 'L', 'L']
        };
        if names_change(entry, id, side, price, size) {
            assert(json_text(entry, "side"@) == Some(text));
            assert(parsed_level(entry) == Some(Level { price, size }));
            assert(parsed_side(text) == Some(side));
        }
        if parsed_change(entry) is Some && parsed_change(entry)->0.asset_id == id
            && parsed_change(entry)->0.side == side && parsed_change(entry)->0.price == price
            && parsed_change(entry)->0.size == size {
            assert(json_text(entry, "side"@) == Some(text));
            assert(holds(entry, "side"@, JsonModel::Text(text)));
            assert(parsed_level(entry) == Some(Level { price, size }));
            assert(names_level(entry, Level { price, size }));
        }
    }
}

/// `parse_snapshot` reads the snapshot that the message names, with every level of it; it
/// reads none exactly where the message names none.
pub proof fn law_parse_snapshot(message: &Json, read: Option<Snapshot<'_>>)
    requires
        call_ensures(parse_snapshot, (message,), read),
    ensures
        forall|id: Seq<char>, bids: Seq<Level>, asks: Seq<Level>| #[trigger]
            names_snapshot(message@, id, bids, asks) <==> read is Some && read->0.asset_id@ == id
                && read->0.bids@ == bids && read->0.asks@ == asks,
{
    law_snapshot_is_the_one_named(message@);
}

/// `parse_change` reads the change that the entry names; it reads none exactly where the
/// entry names none.
pub proof fn law_parse_change(entry: &Json, read: Option<Change<'_>>)
    requires
        call_ensures(parse_change, (entry,), read),
    ensures
        forall|id: Seq<char>, side: Side, price: Price, size: Quantity| #[trigger]
            names_change(entry@, id, side, price, size) <==> read is Some && read->0.asset_id@
                == id && read->0.side == side && read->0.price == price && read->0.size == size,
{
    law_change_is_the_one_named(entry@);
}

} // verus!
