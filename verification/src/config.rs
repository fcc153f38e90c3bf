//! What a session is configured with, and how it subscribes.

use crate::json::{
    entries_depth, escaped, escaped_text, integer_entries, integer_items, integer_json,
    items_depth, json_depth, ordered_entries, ordered_items, ordered_json, printed_entries,
    printed_items, printed_json, quoted, quoted_text, readable, text_less, JsonModel,
};
use vstd::prelude::*;
use vstd::string::StringExecFns;

verus! {

#[derive(Debug)]
pub struct AppAssetConfig {
    pub id: String,
    pub label: String,
}

#[derive(Debug)]
pub struct AppConfig {
    pub url: String,
    pub assets: Vec<AppAssetConfig>,
    /// Optional CPU index to pin the session to.
    pub cpu: Option<usize>,
}

/// The ids of the assets, as JSON strings with commas between them.
pub open spec fn listed_ids(assets: Seq<AppAssetConfig>) -> Seq<char>
    decreases assets.len(),
{
    if assets.len() == 0 {
        seq![]
    } else if assets.len() == 1 {
        quoted_text(assets[0].id@)
    } else {
        listed_ids(assets.drop_last()) + seq![','] + quoted_text(assets.last().id@)
    }
}

/// The message that subscribes to the assets.
pub open spec fn subscription_text(assets: Seq<AppAssetConfig>) -> Seq<char> {
    "{\"assets_ids\":["@ + listed_ids(assets) + "],\"type\":\"market\"}"@
}

pub fn build_subscription_payload(assets: &[AppAssetConfig]) -> (r: String)
    ensures
        r@ == subscription_text(assets@),
{
    let mut payload = String::new();
    payload.append("{\"assets_ids\":[");
    let ghost front = payload@;
    assert(front =~= "{\"assets_ids\":["@);
    proof {
        reveal_strlit(",");
        assert(","@ =~= seq![',']);
        assert(payload@ =~= front + listed_ids(assets@.take(0)));
    }
    let mut i: usize = 0;
    while i < assets.len()
        invariant
            i <= assets@.len(),
            payload@ == front + listed_ids(assets@.take(i as int)),
            ","@ == seq![','],
        decreases assets@.len() - i,
    {
        proof {
            assert(assets@.take(i + 1).drop_last() =~= assets@.take(i as int));
            assert(assets@.take(i + 1).last() == assets@[i as int]);
        }
        if i > 0 {
            payload.append(",");
        }
        payload.append(quoted(assets[i].id.as_str()).as_str());
        i = i + 1;
        assert(payload@ =~= front + listed_ids(assets@.take(i as int)));
    }
    assert(assets@.take(i as int) =~= assets@);
    payload.append("],\"type\":\"market\"}");
    payload
}

/// The ids of the assets, each as a JSON text.
pub open spec fn id_texts(assets: Seq<AppAssetConfig>) -> Seq<JsonModel> {
    assets.map_values(|asset: AppAssetConfig| JsonModel::Text(asset.id@))
}

/// The message that subscribes to the assets, as a JSON value.
pub open spec fn subscription(assets: Seq<AppAssetConfig>) -> JsonModel {
    JsonModel::Object(
        seq![
            ("assets_ids"@, JsonModel::Array(id_texts(assets))),
            ("type"@, JsonModel::Text("market"@)),
        ],
    )
}

proof fn lemma_listed_ids(assets: Seq<AppAssetConfig>)
    ensures
        listed_ids(assets) == printed_items(id_texts(assets)),
        integer_items(id_texts(assets)),
        ordered_items(id_texts(assets)),
        items_depth(id_texts(assets)) == 0,
    decreases assets.len(),
{
    let ids = id_texts(assets);
    reveal_strlit(",");
    assert(","@ =~= seq![',']);
    if assets.len() > 0 {
        lemma_listed_ids(assets.drop_last());
        assert(ids.drop_last() =~= id_texts(assets.drop_last()));
        let last = ids[ids.len() - 1];
        assert(last == JsonModel::Text(assets.last().id@));
        assert(printed_json(last) == quoted_text(assets.last().id@));
        assert(integer_json(last) && ordered_json(last));
        assert(json_depth(last) == 0);
    }
}

/// The text has no character that is escaped in a JSON string.
spec fn unescaped(s: Seq<char>) -> bool {
    forall|i: int| 0 <= i < s.len() ==> escaped(#[trigger] s[i]) == seq![s[i]]
}

proof fn lemma_unescaped(s: Seq<char>)
    requires
        unescaped(s),
    ensures
        escaped_text(s) == s,
    decreases s.len(),
{
    if s.len() > 0 {
        let t = s.drop_last();
        assert forall|i: int| 0 <= i < t.len() implies escaped(#[trigger] t[i]) == seq![t[i]] by {
            assert(t[i] == s[i]);
        }
        lemma_unescaped(t);
        assert(escaped(s[s.len() - 1]) == seq![s.last()]);
        assert(t + seq![s.last()] =~= s);
    }
}

/// The message that is sent is the JSON value that subscribes to the assets, each
/// under its id, in the order given. It is read back as such.
pub proof fn law_payload_is_subscription(assets: Seq<AppAssetConfig>)
    ensures
        subscription_text(assets) == printed_json(subscription(assets)),
        readable(subscription(assets)),
{
    let entries = subscription(assets)->Object_0;
    lemma_listed_ids(assets);
    reveal_strlit("assets_ids");
    reveal_strlit("type");
    reveal_strlit("market");
    reveal_strlit("{\"assets_ids\":[");
    reveal_strlit("],\"type\":\"market\"}");
    reveal_strlit("{");
    reveal_strlit("}");
    reveal_strlit("[");
    reveal_strlit("]");
    reveal_strlit(",");
    reveal_strlit(":");
    lemma_unescaped("assets_ids"@);
    lemma_unescaped("type"@);
    lemma_unescaped("market"@);
    let front = entries.drop_last();
    assert(front =~= seq![("assets_ids"@, JsonModel::Array(id_texts(assets)))]);
    assert(front.drop_last() =~= seq![]);
    let first = quoted_text("assets_ids"@) + ":"@ + printed_json(entries[0].1);
    let second = quoted_text("type"@) + ":"@ + printed_json(entries[1].1);
    assert(printed_entries(front) == first);
    assert(printed_entries(entries) == first + ","@ + second);
    assert(subscription_text(assets) =~= "{"@ + printed_entries(entries) + "}"@);
    assert(integer_json(entries[0].1) && integer_json(entries[1].1));
    assert(ordered_json(entries[0].1) && ordered_json(entries[1].1));
    assert(json_depth(entries[0].1) == 1 && json_depth(entries[1].1) == 0);
    assert(integer_entries(front.drop_last()) && ordered_entries(front.drop_last()));
    assert(integer_entries(front) && ordered_entries(front));
    assert(text_less("assets_ids"@, "type"@));
    assert(entries_depth(front.drop_last()) == 0);
    assert(entries_depth(front) == 1);
}

} // verus!
