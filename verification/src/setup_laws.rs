//! What a session and its observer begin with, said of the configuration.

use crate::basic_orderbook::OrderbookLike;
use crate::config::{
    build_subscription_payload, id_texts, law_payload_is_subscription, subscription,
    AppAssetConfig, AppConfig,
};
use crate::feed_laws::holds;
use crate::json::{Json, JsonModel};
use crate::message_laws::watches;
use crate::observer::{
    label_map, AssetConfig, ObserverConfig, OrderbookObserver, SessionObserverError,
};
use crate::session::SessionConfig;
use vstd::prelude::*;

verus! {

/// The value subscribes to the assets: it names the ids of all of them, in order, and the
/// channel, and nothing else.
pub open spec fn subscribes(value: JsonModel, assets: Seq<AppAssetConfig>) -> bool {
    &&& value is Object && value->Object_0.len() == 2
    &&& holds(value, "type"@, JsonModel::Text(seq!['m', 'a', 'r', 'k', 'e', 't']))
    &&& exists|ids: Seq<JsonModel>| #[trigger]
        holds(value, "assets_ids"@, JsonModel::Array(ids)) && ids.len() == assets.len()
            && forall|k: int|
            0 <= k < ids.len() ==> #[trigger] ids[k] == JsonModel::Text(assets[k].id@)
}

/// The message with which a session subscribes reads as a value that subscribes to its
/// assets.
pub proof fn law_subscription_payload(
    assets: &[AppAssetConfig],
    payload: String,
    text: &str,
    read: Result<Json, String>,
)
    requires
        call_ensures(build_subscription_payload, (assets,), payload),
        text@ == payload@,
        call_ensures(Json::parse, (text,), read),
    ensures
        read is Ok,
        subscribes(read->Ok_0@, assets@),
{
    law_payload_is_subscription(assets@);
    let value = subscription(assets@);
    assert(read->Ok_0@ == value);
    reveal_strlit("market");
    reveal_strlit("type");
    reveal_strlit("assets_ids");
    assert("market"@ =~= seq!['m', 'a', 'r', 'k', 'e', 't']);
    assert("type"@.len() != "assets_ids"@.len());
    let entries = value->Object_0;
    let ids = id_texts(assets@);
    assert(entries[0] == ("assets_ids"@, JsonModel::Array(ids)));
    assert(entries[1] == ("type"@, JsonModel::Text("market"@)));
    assert(holds(value, "assets_ids"@, JsonModel::Array(ids)));
    assert(holds(value, "type"@, JsonModel::Text("market"@)));
}

/// The session of an application connects to its url, subscribes to its assets, and waits
/// sixteen seconds at most.
pub proof fn law_session_for_app(
    config: &AppConfig,
    session: SessionConfig,
    assets: &[AppAssetConfig],
    payload: String,
)
    requires
        call_ensures(SessionConfig::for_app, (config,), session),
        assets@ == config.assets@,
        call_ensures(build_subscription_payload, (assets,), payload),
    ensures
        session.url@ == config.url@,
        session.subscription_payload@ == payload@,
        session.max_backoff_secs == 16,
{
}

/// By default a session connects to the market channel of Polymarket, and waits sixteen
/// seconds at most.
pub proof fn law_default_session(session: SessionConfig)
    requires
        call_ensures(SessionConfig::polymarket_default, (), session),
    ensures
        session.url@ == "wss://ws-subscriptions-clob.polymarket.com/ws/market"@,
        session.max_backoff_secs == 16,
{
}

/// An error of an observer is told with its message.
pub proof fn law_observer_error(error: &SessionObserverError, text: String)
    requires
        call_ensures(SessionObserverError::to_string, (error,), text),
    ensures
        text@ == "observer error: "@ + error->0@,
{
}

/// The observer of an application observes its assets, each under its id and label.
pub proof fn law_observer_for_app(config: AppConfig, verbose: bool, r: ObserverConfig)
    requires
        call_ensures(ObserverConfig::for_app, (config, verbose), r),
    ensures
        r.verbose == verbose,
        r.assets@.len() == config.assets@.len(),
        forall|i: int|
            0 <= i < r.assets@.len() ==> (#[trigger] r.assets@[i]).id@ == config.assets@[i].id@
                && r.assets@[i].label@ == config.assets@[i].label@,
{
}

/// The label is the one that is given last for the id.
pub open spec fn labels_last(
    assets: Seq<AssetConfig>,
    id: Seq<char>,
    label: Seq<char>,
) -> bool {
    exists|j: int|
        0 <= j < assets.len() && (#[trigger] assets[j]).id@ == id && assets[j].label@ == label
            && forall|k: int| j < k < assets.len() ==> (#[trigger] assets[k]).id@ != id
}

proof fn lemma_last_label(assets: Seq<AssetConfig>, id: Seq<char>)
    ensures
        label_map(assets).contains_key(id) <==> watches(assets, id),
        label_map(assets).contains_key(id) ==> labels_last(assets, id, label_map(assets)[id]),
    decreases assets.len(),
{
    if assets.len() > 0 {
        let front = assets.drop_last();
        let n = assets.len() - 1;
        lemma_last_label(front, id);
        assert(assets[n] == assets.last());
        if id == assets.last().id@ {
            assert(labels_last(assets, id, assets[n].label@));
        } else {
            if watches(front, id) {
                let i = choose|i: int| 0 <= i < front.len() && (#[trigger] front[i]).id@ == id;
                assert(assets[i].id@ == id);
                let label = label_map(front)[id];
                let j = choose|j: int|
                    0 <= j < front.len() && (#[trigger] front[j]).id@ == id && front[j].label@
                        == label && forall|k: int|
                        j < k < front.len() ==> (#[trigger] front[k]).id@ != id;
                assert forall|k: int| j < k < assets.len() implies (#[trigger] assets[k]).id@
                    != id by {
                    if k < n {
                        assert(front[k] == assets[k]);
                    }
                }
                assert(assets[j].id@ == id);
            }
            if watches(assets, id) {
                let i = choose|i: int| 0 <= i < assets.len() && (#[trigger] assets[i]).id@ == id;
                assert(front[i].id@ == id);
            }
        }
    }
}

/// A new observer observes the configured assets, each once and under the label that is
/// given last for it; it has no book, and prints if that is asked for.
pub proof fn law_new_observer<B: OrderbookLike>(config: ObserverConfig, r: OrderbookObserver<B>)
    requires
        call_ensures(OrderbookObserver::<B>::new, (config,), r),
    ensures
        r.inv(),
        r.verbose() == config.verbose,
        forall|id: Seq<char>| !#[trigger] r.kept().contains_key(id),
        forall|id: Seq<char>| #[trigger] watches(r.assets(), id) <==> watches(config.assets@, id),
        forall|i: int, j: int|
            0 <= i < j < r.assets().len() ==> r.assets()[i].id@ != r.assets()[j].id@,
        forall|i: int|
            0 <= i < r.assets().len() ==> labels_last(
                config.assets@,
                (#[trigger] r.assets()[i]).id@,
                r.assets()[i].label@,
            ),
{
    let assets = r.assets();
    let given = config.assets@;
    assert forall|id: Seq<char>| #[trigger] watches(assets, id) <==> watches(given, id) by {
        lemma_last_label(assets, id);
        lemma_last_label(given, id);
    }
    assert forall|i: int| 0 <= i < assets.len() implies labels_last(
        given,
        (#[trigger] assets[i]).id@,
        assets[i].label@,
    ) by {
        let id = assets[i].id@;
        lemma_last_label(assets, id);
        lemma_last_label(given, id);
        assert(watches(assets, id));
        let label = label_map(assets)[id];
        let j = choose|j: int|
            0 <= j < assets.len() && (#[trigger] assets[j]).id@ == id && assets[j].label@ == label
                && forall|k: int| j < k < assets.len() ==> (#[trigger] assets[k]).id@ != id;
        if i < j {
            assert(assets[i].id@ != assets[j].id@);
        }
        if j < i {
            assert(assets[j].id@ != assets[i].id@);
        }
    }
}

/// The books of an observer are those that it keeps.
pub proof fn law_books_are_kept<B: OrderbookLike>(
    observer: &OrderbookObserver<B>,
    books: &crate::orderbooks::Orderbooks<B>,
)
    requires
        call_ensures(OrderbookObserver::<B>::books, (observer,), books),
    ensures
        books@ == observer.kept(),
{
}

} // verus!
