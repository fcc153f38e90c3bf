//! The messages of the feed: snapshots of a book and changes to its levels.

use crate::basic_orderbook::{Level, Price, Quantity, Side};
use crate::decimal::parsed_decimal;
use crate::json::{array_model, json_items, json_text, lemma_array_model, Json, JsonModel};
use crate::text::same_text;
use vstd::prelude::*;

verus! {

/// The level that an entry of a snapshot names: its price and its size, both as text.
pub open spec fn parsed_level(entry: JsonModel) -> Option<Level> {
    match (json_text(entry, "price"@), json_text(entry, "size"@)) {
        (Some(price), Some(size)) => match (parsed_decimal(price), parsed_decimal(size)) {
            (Some(price), Some(size)) => Some(Level { price: Price(price), size: Quantity(size) }),
            _ => None,
        },
        _ => None,
    }
}

/// The levels that the entries of a snapshot name, if each of them names one.
pub open spec fn parsed_levels(entries: Seq<JsonModel>) -> Option<Seq<Level>>
    decreases entries.len(),
{
    if entries.len() == 0 {
        Some(seq![])
    } else {
        match (parsed_levels(entries.drop_last()), parsed_level(entries.last())) {
            (Some(levels), Some(level)) => Some(levels.push(level)),
            _ => None,
        }
    }
}

/// The side that a change names.
pub open spec fn parsed_side(text: Seq<char>) -> Option<Side> {
    if text == "BUY"@ {
        Some(Side::Bid)
    } else if text == "SELL"@ {
        Some(Side::Ask)
    } else {
        None
    }
}

/// A snapshot of the book of an asset.
pub struct SnapshotModel {
    pub asset_id: Seq<char>,
    pub bids: Seq<Level>,
    pub asks: Seq<Level>,
}

/// A change to one level of the book of an asset.
pub struct ChangeModel {
    pub asset_id: Seq<char>,
    pub side: Side,
    pub price: Price,
    pub size: Quantity,
}

/// The snapshot that a message holds, if it is whole.
pub open spec fn parsed_snapshot(message: JsonModel) -> Option<SnapshotModel> {
    match (
        json_text(message, "asset_id"@),
        json_items(message, "bids"@),
        json_items(message, "asks"@),
    ) {
        (Some(asset_id), Some(bids), Some(asks)) => match (
            parsed_levels(bids),
            parsed_levels(asks),
        ) {
            (Some(bids), Some(asks)) => Some(SnapshotModel { asset_id, bids, asks }),
            _ => None,
        },
        _ => None,
    }
}

/// The change that an entry holds, if it is whole.
pub open spec fn parsed_change(entry: JsonModel) -> Option<ChangeModel> {
    match (json_text(entry, "asset_id"@), json_text(entry, "side"@), parsed_level(entry)) {
        (Some(asset_id), Some(side), Some(level)) => match parsed_side(side) {
            Some(side) => Some(
                ChangeModel { asset_id, side, price: level.price, size: level.size },
            ),
            None => None,
        },
        _ => None,
    }
}

fn parse_level(entry: &Json) -> (r: Option<Level>)
    ensures
        r == parsed_level(entry@),
{
    let price_str = entry.text_at("price")?;
    let size_str = entry.text_at("size")?;
    let price = Price::from_str(price_str)?;
    let size = Quantity::from_str(size_str)?;
    Some(Level { price, size })
}

fn parse_levels(entries: &Vec<Json>) -> (r: Option<Vec<Level>>)
    ensures
        match r {
            Some(levels) => parsed_levels(array_model(entries@)) == Some(levels@),
            None => parsed_levels(array_model(entries@)) is None,
        },
{
    let ghost model = array_model(entries@);
    let mut levels: Vec<Level> = Vec::new();
    let mut i: usize = 0;
    proof {
        lemma_array_model(entries@);
        assert(model.take(0) =~= seq![]);
        assert(levels@ =~= seq![]);
    }
    while i < entries.len()
        invariant
            i <= entries@.len() == model.len(),
            model == array_model(entries@),
            forall|j: int| 0 <= j < entries@.len() ==> #[trigger] model[j] == entries@[j]@,
            parsed_levels(model.take(i as int)) == Some(levels@),
        decreases entries@.len() - i,
    {
        proof {
            assert(model.take(i + 1).drop_last() =~= model.take(i as int));
            assert(model.take(i + 1).last() == model[i as int]);
        }
        match parse_level(&entries[i]) {
            Some(level) => levels.push(level),
            None => {
                proof {
                    lemma_unparsed(model, i + 1);
                }
                return None;
            },
        }
        i = i + 1;
    }
    assert(model.take(i as int) =~= model);
    Some(levels)
}

/// An entry that names no level spoils the whole.
proof fn lemma_unparsed(entries: Seq<JsonModel>, k: int)
    requires
        0 <= k <= entries.len(),
        parsed_levels(entries.take(k)) is None,
    ensures
        parsed_levels(entries) is None,
    decreases entries.len() - k,
{
    if k < entries.len() {
        assert(entries.take(k + 1).drop_last() =~= entries.take(k));
        lemma_unparsed(entries, k + 1);
    } else {
        assert(entries.take(k) =~= entries);
    }
}

/// A snapshot of the book of an asset.
pub struct Snapshot<'a> {
    pub asset_id: &'a str,
    pub bids: Vec<Level>,
    pub asks: Vec<Level>,
}

/// A change to one level of the book of an asset.
pub struct Change<'a> {
    pub asset_id: &'a str,
    pub side: Side,
    pub price: Price,
    pub size: Quantity,
}

/// Reads the snapshot that a message holds.
pub fn parse_snapshot(message: &Json) -> (r: Option<Snapshot<'_>>)
    ensures
        match r {
            Some(snapshot) => parsed_snapshot(message@) == Some(
                SnapshotModel {
                    asset_id: snapshot.asset_id@,
                    bids: snapshot.bids@,
                    asks: snapshot.asks@,
                },
            ),
            None => parsed_snapshot(message@) is None,
        },
{
    let asset_id = message.text_at("asset_id")?;
    let bids = message.items_at("bids")?;
    let asks = message.items_at("asks")?;
    let bids = parse_levels(bids)?;
    let asks = parse_levels(asks)?;
    Some(Snapshot { asset_id, bids, asks })
}

/// Reads the change that an entry holds.
pub fn parse_change(entry: &Json) -> (r: Option<Change<'_>>)
    ensures
        match r {
            Some(change) => parsed_change(entry@) == Some(
                ChangeModel {
                    asset_id: change.asset_id@,
                    side: change.side,
                    price: change.price,
                    size: change.size,
                },
            ),
            None => parsed_change(entry@) is None,
        },
{
    let asset_id = entry.text_at("asset_id")?;
    let level = parse_level(entry)?;
    let side_str = entry.text_at("side")?;
    let side = if same_text(side_str, "BUY") {
        Side::Bid
    } else if same_text(side_str, "SELL") {
        Side::Ask
    } else {
        return None;
    };
    Some(Change { asset_id, side, price: level.price, size: level.size })
}

} // verus!
