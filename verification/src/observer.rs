//! Keeps the books of a session up to date with the messages of its feed.

pub use crate::display::{AssetBook, BookLevel, TopBookSnapshot};

use crate::basic_orderbook::{
    equal_levels, same_levels, Level, OrderbookLike, Overflow, Price, Side,
};
use crate::config::AppConfig;
use crate::display::{
    book_fits, can_show, print_book, printed_book, show_book, shown, shown_book, text_model,
    top_levels, AssetBookModel, DISPLAY_DEPTH,
};
use crate::feed::{
    parse_change, parse_snapshot, parsed_change, parsed_snapshot, Change, Snapshot,
};
use crate::json::{array_model, json_items, json_text, lemma_array_model, Json, JsonModel};
use crate::ladder::{first_at, lemma_first_at};
use crate::laws::levels_on;
use crate::orderbooks::Orderbooks;
use crate::text::same_text;
use vstd::prelude::*;
use vstd::std_specs::iter::IteratorSpec;
use vstd::string::StringExecFns;

verus! {

#[derive(Debug)]
pub enum SessionObserverError {
    Other(String),
}

impl SessionObserverError {
    /// The error as it is told.
    pub fn to_string(&self) -> (r: String)
        ensures
            r@ == "observer error: "@ + self->0@,
    {
        let mut text = String::new();
        text.append("observer error: ");
        match self {
            SessionObserverError::Other(message) => text.append(message.as_str()),
        }
        assert(text@ =~= "observer error: "@ + self->0@);
        text
    }
}

/// Is told what happens in a session. What is not overridden does nothing.
pub trait SessionObserver: Send + Sized {
    fn on_connected(&mut self)
        default_ensures
            *final(self) == *old(self),
    {
    }

    fn on_disconnected(&mut self)
        default_ensures
            *final(self) == *old(self),
    {
    }

    fn on_json_message(&mut self, _value: Json)
        default_ensures
            *final(self) == *old(self),
    {
    }

    fn on_error(&mut self, _error: SessionObserverError)
        default_ensures
            *final(self) == *old(self),
    {
    }
}

pub struct AssetConfig {
    pub id: String,
    pub label: String,
}

pub struct ObserverConfig {
    pub assets: Vec<AssetConfig>,
    /// When true, books are printed on changes.
    pub verbose: bool,
}

impl ObserverConfig {
    /// Observes the assets that an application is configured for.
    pub fn for_app(config: AppConfig, verbose: bool) -> (r: Self)
        ensures
            r.verbose == verbose,
            r.assets@.len() == config.assets@.len(),
            forall|i: int|
                0 <= i < r.assets@.len() ==> (#[trigger] r.assets@[i]).id@ == config.assets@[i].id@
                    && r.assets@[i].label@ == config.assets@[i].label@,
    {
        let mut assets: Vec<AssetConfig> = Vec::new();
        for asset in iter: config.assets.into_iter()
            invariant
                iter.seq() == config.assets@,
                assets@.len() == iter.index(),
                forall|i: int|
                    0 <= i < assets@.len() ==> (#[trigger] assets@[i]).id@
                        == config.assets@[i].id@ && assets@[i].label@
                        == config.assets@[i].label@,
        {
            assets.push(AssetConfig { id: asset.id, label: asset.label });
        }
        ObserverConfig { assets, verbose }
    }
}

// ---------------------------------------------------------------------------
// The observed assets
// ---------------------------------------------------------------------------

/// Where an id stands among the observed assets, or their number.
pub open spec fn asset_at(assets: Seq<AssetConfig>, id: Seq<char>) -> int
    decreases assets.len(),
{
    if assets.len() == 0 {
        0
    } else if assets[0].id@ == id {
        0
    } else {
        1 + asset_at(assets.drop_first(), id)
    }
}

/// The asset is observed.
pub open spec fn observed(assets: Seq<AssetConfig>, id: Seq<char>) -> bool {
    asset_at(assets, id) < assets.len()
}

/// No id occurs twice.
pub open spec fn distinct_assets(assets: Seq<AssetConfig>) -> bool {
    forall|i: int, j: int| 0 <= i < j < assets.len() ==> assets[i].id@ != assets[j].id@
}

/// The label of each id: the last one that is given.
pub open spec fn label_map(assets: Seq<AssetConfig>) -> Map<Seq<char>, Seq<char>>
    decreases assets.len(),
{
    if assets.len() == 0 {
        Map::empty()
    } else {
        label_map(assets.drop_last()).insert(assets.last().id@, assets.last().label@)
    }
}

pub proof fn lemma_asset_at(assets: Seq<AssetConfig>, id: Seq<char>)
    ensures
        0 <= asset_at(assets, id) <= assets.len(),
        forall|i: int| 0 <= i < asset_at(assets, id) ==> (#[trigger] assets[i]).id@ != id,
        asset_at(assets, id) < assets.len() ==> assets[asset_at(assets, id)].id@ == id,
    decreases assets.len(),
{
    if assets.len() > 0 && assets[0].id@ != id {
        let rest = assets.drop_first();
        lemma_asset_at(rest, id);
        assert(forall|i: int| 0 < i < assets.len() ==> #[trigger] assets[i] == rest[i - 1]);
    }
}

/// The map has the id and label of every asset, and no other.
proof fn lemma_label_map(assets: Seq<AssetConfig>, id: Seq<char>)
    requires
        distinct_assets(assets),
    ensures
        label_map(assets).contains_key(id) <==> observed(assets, id),
        observed(assets, id) ==> label_map(assets)[id] == assets[asset_at(assets, id)].label@,
    decreases assets.len(),
{
    lemma_asset_at(assets, id);
    if assets.len() > 0 {
        let t = assets.drop_last();
        assert(forall|i: int| 0 <= i < t.len() ==> #[trigger] t[i] == assets[i]);
        assert(assets.last() == assets[assets.len() - 1]);
        lemma_label_map(t, id);
        lemma_asset_at(t, id);
        if id == assets.last().id@ {
            let k = asset_at(assets, id);
            if k < assets.len() - 1 {
                assert(assets[k].id@ != assets[assets.len() - 1].id@);
            }
        } else if observed(t, id) {
            assert(assets[asset_at(t, id)].id@ == id);
            if asset_at(assets, id) < asset_at(t, id) {
                assert(t[asset_at(assets, id)].id@ == id);
            }
        } else if observed(assets, id) {
            assert(t[asset_at(assets, id)].id@ == id);
        }
    }
}

/// Two lists of distinct assets with an asset replaced or added differ in the label
/// of that asset alone.
proof fn lemma_label_set(assets: Seq<AssetConfig>, k: int, asset: AssetConfig)
    requires
        distinct_assets(assets),
        k == asset_at(assets, asset.id@),
    ensures
        ({
            let after = if k < assets.len() {
                assets.update(k, asset)
            } else {
                assets.push(asset)
            };
            &&& distinct_assets(after)
            &&& label_map(after) == label_map(assets).insert(asset.id@, asset.label@)
        }),
{
    let after = if k < assets.len() {
        assets.update(k, asset)
    } else {
        assets.push(asset)
    };
    lemma_asset_at(assets, asset.id@);
    assert forall|i: int, j: int| 0 <= i < j < after.len() implies after[i].id@ != after[j].id@ by {
        if i < assets.len() {
            assert(after[i].id@ == assets[i].id@);
        }
        if j < assets.len() {
            assert(after[j].id@ == assets[j].id@);
        }
    }
    if k < assets.len() {
        assert forall|id: Seq<char>| #[trigger]
            label_map(after).contains_key(id) == label_map(assets).insert(
                asset.id@,
                asset.label@,
            ).contains_key(id) && (label_map(after).contains_key(id) ==> label_map(after)[id]
                == label_map(assets).insert(asset.id@, asset.label@)[id]) by {
            lemma_label_map(assets, id);
            lemma_label_map(after, id);
            lemma_asset_at(assets, id);
            lemma_asset_at(after, id);
            let i = asset_at(assets, id);
            let j = asset_at(after, id);
            if i < assets.len() {
                assert(after[i].id@ == assets[i].id@);
                if i < j {
                    assert(after[i].id@ != id);
                }
            }
            if j < after.len() {
                assert(assets[j].id@ == after[j].id@);
                if j < i {
                    assert(assets[j].id@ != id);
                }
            }
        }
        assert(label_map(after) =~= label_map(assets).insert(asset.id@, asset.label@));
    } else {
        assert(after.drop_last() =~= assets);
    }
}

/// The assets with each id once, under the label that was given last.
fn distinct_labels(assets: Vec<AssetConfig>) -> (r: Vec<AssetConfig>)
    ensures
        distinct_assets(r@),
        label_map(r@) == label_map(assets@),
{
    let mut r: Vec<AssetConfig> = Vec::new();
    let ghost all = assets@;
    assert(all.take(0) =~= Seq::<AssetConfig>::empty());
    for asset in iter: assets.into_iter()
        invariant
            iter.seq() == all,
            distinct_assets(r@),
            label_map(r@) == label_map(all.take(iter.index())),
    {
        let ghost n = iter.index();
        proof {
            assert(all.take(n + 1).drop_last() =~= all.take(n));
            assert(all.take(n + 1).last() == asset);
        }
        let k: usize = position_of(&r, asset.id.as_str());
        proof {
            lemma_label_set(r@, k as int, asset);
            lemma_asset_at(r@, asset.id@);
        }
        if k < r.len() {
            r.set(k, asset);
        } else {
            r.push(asset);
        }
    }
    assert(all.take(all.len() as int) =~= all);
    r
}

fn position_of(assets: &Vec<AssetConfig>, id: &str) -> (k: usize)
    ensures
        k == asset_at(assets@, id@),
{
    proof {
        lemma_asset_at(assets@, id@);
    }
    let mut k: usize = 0;
    while k < assets.len()
        invariant
            k <= asset_at(assets@, id@) <= assets@.len(),
            asset_at(assets@, id@) < assets@.len() ==> assets@[asset_at(assets@, id@)].id@ == id@,
            forall|i: int| 0 <= i < asset_at(assets@, id@) ==> (#[trigger] assets@[i]).id@ != id@,
        decreases assets@.len() - k,
    {
        if same_text(assets[k].id.as_str(), id) {
            return k;
        }
        k = k + 1;
    }
    k
}

// ---------------------------------------------------------------------------
// What a message does
// ---------------------------------------------------------------------------

/// The levels on a side of the book of an asset; none where there is no book.
pub open spec fn asset_levels<B: OrderbookLike>(
    books: Map<Seq<char>, B>,
    id: Seq<char>,
    side: Side,
) -> Seq<Level> {
    if books.contains_key(id) {
        levels_on(&books[id], side)
    } else {
        seq![]
    }
}

/// The price is among the levels that are shown.
pub open spec fn in_top(levels: Seq<Level>, price: Price) -> bool {
    let k = first_at(levels, price.0.value());
    k < levels.len() && k < DISPLAY_DEPTH
}

/// A whole snapshot of an observed asset replaces its book, and `anew` says whether
/// the levels that are shown are others than before. Any other leaves the books as
/// they are.
pub open spec fn book_message_gives<B: OrderbookLike>(
    assets: Seq<AssetConfig>,
    before: Map<Seq<char>, B>,
    message: JsonModel,
    after: Map<Seq<char>, B>,
    anew: bool,
) -> bool {
    match parsed_snapshot(message) {
        Some(snapshot) if observed(assets, snapshot.asset_id) => {
            let id = snapshot.asset_id;
            &&& after.contains_key(id)
            &&& after == before.insert(id, after[id])
            &&& B::snapshot_gives(snapshot.bids, snapshot.asks, &after[id])
            &&& anew == !(same_levels(
                shown(asset_levels(before, id, Side::Bid)),
                shown(asset_levels(after, id, Side::Bid)),
            ) && same_levels(
                shown(asset_levels(before, id, Side::Ask)),
                shown(asset_levels(after, id, Side::Ask)),
            ))
        },
        _ => after == before && !anew,
    }
}

/// A whole change to an observed asset that has a book is applied to it, and `anew`
/// says whether the price is shown before or after. Any other leaves the books as
/// they are.
pub open spec fn change_entry_gives<B: OrderbookLike>(
    assets: Seq<AssetConfig>,
    before: Map<Seq<char>, B>,
    entry: JsonModel,
    after: Map<Seq<char>, B>,
    anew: bool,
) -> bool {
    match parsed_change(entry) {
        Some(change) if observed(assets, change.asset_id) && before.contains_key(
            change.asset_id,
        ) => {
            let id = change.asset_id;
            &&& after.contains_key(id)
            &&& after == before.insert(id, after[id])
            &&& B::change_gives(&before[id], change.side, change.price, change.size, &after[id])
            &&& anew == (in_top(levels_on(&before[id], change.side), change.price) || in_top(
                levels_on(&after[id], change.side),
                change.price,
            ))
        },
        _ => after == before && !anew,
    }
}

/// The change is whole, of an observed asset, and of one that has a book.
pub open spec fn usable_change<B: OrderbookLike>(
    assets: Seq<AssetConfig>,
    books: Map<Seq<char>, B>,
    entry: JsonModel,
) -> bool {
    match parsed_change(entry) {
        Some(change) => observed(assets, change.asset_id) && books.contains_key(change.asset_id),
        None => false,
    }
}

/// What is said of a change to an asset that has no book yet.
pub open spec fn violation_text(id: Seq<char>) -> Seq<char> {
    "protocol violation: received price_change for asset `"@ + id
        + "` before any book snapshot"@
}

/// A whole change to an observed asset that has no book yet is warned of.
pub open spec fn entry_warnings<B: OrderbookLike>(
    assets: Seq<AssetConfig>,
    books: Map<Seq<char>, B>,
    entry: JsonModel,
) -> Seq<ReportModel> {
    match parsed_change(entry) {
        Some(change) if observed(assets, change.asset_id) && !books.contains_key(
            change.asset_id,
        ) => seq![ReportModel::Warning(violation_text(change.asset_id))],
        _ => seq![],
    }
}

/// The warnings about changes, one after the other.
pub open spec fn change_warnings<B: OrderbookLike>(
    assets: Seq<AssetConfig>,
    books: Map<Seq<char>, B>,
    entries: Seq<JsonModel>,
) -> Seq<ReportModel>
    decreases entries.len(),
{
    if entries.len() == 0 {
        seq![]
    } else {
        change_warnings(assets, books, entries.drop_last()) + entry_warnings(
            assets,
            books,
            entries.last(),
        )
    }
}

/// The warnings about a list of changes.
pub open spec fn price_change_warnings<B: OrderbookLike>(
    assets: Seq<AssetConfig>,
    books: Map<Seq<char>, B>,
    message: JsonModel,
) -> Seq<ReportModel> {
    match json_items(message, "price_changes"@) {
        Some(entries) => change_warnings(assets, books, entries),
        None => seq![],
    }
}

/// The warnings about a message.
pub open spec fn message_warnings<B: OrderbookLike>(
    assets: Seq<AssetConfig>,
    books: Map<Seq<char>, B>,
    message: JsonModel,
) -> Seq<ReportModel> {
    match json_text(message, "event_type"@) {
        Some(kind) if kind == "price_change"@ => price_change_warnings(assets, books, message),
        _ => seq![],
    }
}

/// `course` has the books before the first change, after it, and so on; `touched`
/// says of each change whether it touches what is shown.
pub open spec fn changes_take<B: OrderbookLike>(
    assets: Seq<AssetConfig>,
    entries: Seq<JsonModel>,
    course: Seq<Map<Seq<char>, B>>,
    touched: Seq<bool>,
) -> bool {
    &&& course.len() == entries.len() + 1
    &&& touched.len() == entries.len()
    &&& forall|i: int|
        0 <= i < entries.len() ==> #[trigger] change_entry_gives(
            assets,
            course[i],
            entries[i],
            course[i + 1],
            touched[i],
        )
}

/// Changes are applied one after the other, and `anew` says whether one of them
/// touches what is shown.
pub open spec fn change_entries_give<B: OrderbookLike>(
    assets: Seq<AssetConfig>,
    before: Map<Seq<char>, B>,
    entries: Seq<JsonModel>,
    after: Map<Seq<char>, B>,
    anew: bool,
) -> bool {
    exists|course: Seq<Map<Seq<char>, B>>, touched: Seq<bool>| #[trigger]
        changes_take(assets, entries, course, touched) && course[0] == before && course.last()
            == after && anew == touched.contains(true)
}

proof fn lemma_one_more_change<B: OrderbookLike>(
    assets: Seq<AssetConfig>,
    entries: Seq<JsonModel>,
    course: Seq<Map<Seq<char>, B>>,
    touched: Seq<bool>,
    after: Map<Seq<char>, B>,
    last: bool,
)
    requires
        entries.len() > 0,
        changes_take(assets, entries.drop_last(), course, touched),
        change_entry_gives(assets, course.last(), entries.last(), after, last),
    ensures
        changes_take(assets, entries, course.push(after), touched.push(last)),
        touched.push(last).contains(true) == (touched.contains(true) || last),
{
    let n = entries.len() - 1;
    assert forall|i: int| 0 <= i < entries.len() implies #[trigger] change_entry_gives(
        assets,
        course.push(after)[i],
        entries[i],
        course.push(after)[i + 1],
        touched.push(last)[i],
    ) by {
        if i < n {
            assert(change_entry_gives(
                assets,
                course[i],
                entries.drop_last()[i],
                course[i + 1],
                touched[i],
            ));
        }
    }
    if touched.contains(true) {
        let i = choose|i: int| 0 <= i < touched.len() && touched[i];
        assert(touched.push(last)[i]);
    }
    if last {
        assert(touched.push(last)[n]);
    }
    if touched.push(last).contains(true) && !last {
        let i = choose|i: int| 0 <= i < touched.push(last).len() && touched.push(last)[i];
        assert(touched[i]);
    }
}

/// A message with a list of changes has them applied; any other leaves the books as they
/// are.
pub open spec fn price_change_gives<B: OrderbookLike>(
    assets: Seq<AssetConfig>,
    before: Map<Seq<char>, B>,
    message: JsonModel,
    after: Map<Seq<char>, B>,
    anew: bool,
) -> bool {
    match json_items(message, "price_changes"@) {
        Some(entries) => change_entries_give(assets, before, entries, after, anew),
        None => after == before && !anew,
    }
}

/// A message is a snapshot, a list of changes, or of no concern.
pub open spec fn message_gives<B: OrderbookLike>(
    assets: Seq<AssetConfig>,
    before: Map<Seq<char>, B>,
    message: JsonModel,
    after: Map<Seq<char>, B>,
    anew: bool,
) -> bool {
    match json_text(message, "event_type"@) {
        Some(kind) if kind == "book"@ => book_message_gives(assets, before, message, after, anew),
        Some(kind) if kind == "price_change"@ => price_change_gives(
            assets,
            before,
            message,
            after,
            anew,
        ),
        _ => after == before && !anew,
    }
}

// ---------------------------------------------------------------------------
// What is published
// ---------------------------------------------------------------------------

/// The books of the assets that have one, as they are printed.
pub open spec fn printed_books<B: OrderbookLike>(
    assets: Seq<AssetConfig>,
    books: Map<Seq<char>, B>,
) -> Seq<char>
    decreases assets.len(),
{
    if assets.len() == 0 {
        seq![]
    } else {
        let rest = printed_books(assets.drop_last(), books);
        let asset = assets.last();
        if books.contains_key(asset.id@) {
            let book = books[asset.id@];
            rest + printed_book(asset.label@, book.bid_levels(), book.ask_levels())
        } else {
            rest
        }
    }
}

/// The books of the assets that have one, as text.
pub open spec fn shown_books<B: OrderbookLike>(
    assets: Seq<AssetConfig>,
    books: Map<Seq<char>, B>,
) -> Seq<AssetBookModel>
    decreases assets.len(),
{
    if assets.len() == 0 {
        seq![]
    } else {
        let rest = shown_books(assets.drop_last(), books);
        let asset = assets.last();
        if books.contains_key(asset.id@) {
            let book = books[asset.id@];
            rest.push(
                shown_book(asset.id@, asset.label@, book.bid_levels(), book.ask_levels()),
            )
        } else {
            rest
        }
    }
}

/// Every number that is shown of the books is one that a decimal can hold.
pub open spec fn books_fit<B: OrderbookLike>(
    assets: Seq<AssetConfig>,
    books: Map<Seq<char>, B>,
) -> bool {
    forall|k: int|
        0 <= k < assets.len() && books.contains_key((#[trigger] assets[k]).id@) ==> book_fits(
            books[assets[k].id@].bid_levels(),
            books[assets[k].id@].ask_levels(),
        )
}

/// What is published when the levels that are shown change.
#[derive(Debug)]
pub struct Publication {
    /// The books as they are printed, where that is asked for.
    pub text: Option<String>,
    pub snapshot: TopBookSnapshot,
}

/// What is published, as text.
pub struct PublicationModel {
    pub text: Option<Seq<char>>,
    pub assets: Seq<AssetBookModel>,
}

/// Books, each as text.
pub open spec fn book_models(books: Seq<AssetBook>) -> Seq<AssetBookModel> {
    books.map_values(|book: AssetBook| book@)
}

impl View for Publication {
    type V = PublicationModel;

    open spec fn view(&self) -> PublicationModel {
        PublicationModel {
            text: text_model(self.text),
            assets: book_models(self.snapshot.assets@),
        }
    }
}

/// What is told of the messages of a feed.
#[derive(Debug)]
pub enum Report {
    /// A message does not keep to the protocol.
    Warning(String),
    /// The levels that are shown changed.
    Published(Publication),
}

/// A report, as text.
pub enum ReportModel {
    Warning(Seq<char>),
    Published(PublicationModel),
}

impl View for Report {
    type V = ReportModel;

    open spec fn view(&self) -> ReportModel {
        match *self {
            Report::Warning(text) => ReportModel::Warning(text@),
            Report::Published(publication) => ReportModel::Published(publication@),
        }
    }
}

/// Reports, each as text.
pub open spec fn report_models(reports: Seq<Report>) -> Seq<ReportModel> {
    reports.map_values(|report: Report| report@)
}

/// A book was to show a number that no decimal can hold.
#[derive(Debug)]
pub struct Interrupted {
    /// What was told before.
    pub reports: Vec<Report>,
}

/// What is published of the books.
pub open spec fn published<B: OrderbookLike>(
    assets: Seq<AssetConfig>,
    verbose: bool,
    books: Map<Seq<char>, B>,
) -> PublicationModel {
    PublicationModel {
        text: if verbose {
            Some(printed_books(assets, books))
        } else {
            None
        },
        assets: shown_books(assets, books),
    }
}

/// What is told of a message: the warnings about it, and then the books if the levels
/// that are shown changed.
pub open spec fn told<B: OrderbookLike>(
    assets: Seq<AssetConfig>,
    verbose: bool,
    warnings: Seq<ReportModel>,
    after: Map<Seq<char>, B>,
    anew: bool,
) -> Seq<ReportModel> {
    if anew {
        warnings.push(ReportModel::Published(published(assets, verbose, after)))
    } else {
        warnings
    }
}

/// `course` has the books before the first message, after it, and so on; `anew` says
/// of each message whether it changes what is shown.
pub open spec fn messages_take<B: OrderbookLike>(
    assets: Seq<AssetConfig>,
    messages: Seq<JsonModel>,
    course: Seq<Map<Seq<char>, B>>,
    anew: Seq<bool>,
) -> bool {
    &&& course.len() == messages.len() + 1
    &&& anew.len() == messages.len()
    &&& forall|i: int|
        0 <= i < messages.len() ==> #[trigger] message_gives(
            assets,
            course[i],
            messages[i],
            course[i + 1],
            anew[i],
        )
}

/// The first `n` messages are warned of where they do not keep to the protocol, and
/// after each that changes what is shown the books are published.
pub open spec fn reports_of<B: OrderbookLike>(
    assets: Seq<AssetConfig>,
    verbose: bool,
    messages: Seq<JsonModel>,
    course: Seq<Map<Seq<char>, B>>,
    anew: Seq<bool>,
    n: nat,
) -> Seq<ReportModel>
    decreases n,
{
    if n == 0 {
        seq![]
    } else {
        reports_of(assets, verbose, messages, course, anew, (n - 1) as nat) + told(
            assets,
            verbose,
            message_warnings(assets, course[n - 1], messages[n - 1]),
            course[n as int],
            anew[n - 1],
        )
    }
}

/// All that is published on the way consists of numbers that a decimal can hold.
pub open spec fn course_fits<B: OrderbookLike>(
    assets: Seq<AssetConfig>,
    course: Seq<Map<Seq<char>, B>>,
    anew: Seq<bool>,
) -> bool {
    forall|i: int| 0 <= i < anew.len() && #[trigger] anew[i] ==> books_fit(assets, course[i + 1])
}

/// Messages are handled one after the other, each with its warnings; after each that
/// changes what is shown the books are published.
pub open spec fn messages_give<B: OrderbookLike>(
    assets: Seq<AssetConfig>,
    verbose: bool,
    before: Map<Seq<char>, B>,
    messages: Seq<JsonModel>,
    after: Map<Seq<char>, B>,
    reports: Seq<ReportModel>,
) -> bool {
    exists|course: Seq<Map<Seq<char>, B>>, anew: Seq<bool>| #[trigger]
        messages_take(assets, messages, course, anew) && course[0] == before && course.last()
            == after && course_fits(assets, course, anew) && reports == reports_of(
            assets,
            verbose,
            messages,
            course,
            anew,
            messages.len(),
        )
}

/// One of the messages makes the books show a number that no decimal can hold: it is
/// the last that is handled, and the last report is a warning about it or comes before
/// it.
pub open spec fn messages_overflow<B: OrderbookLike>(
    assets: Seq<AssetConfig>,
    verbose: bool,
    before: Map<Seq<char>, B>,
    messages: Seq<JsonModel>,
    after: Map<Seq<char>, B>,
    reports: Seq<ReportModel>,
) -> bool {
    exists|k: int, course: Seq<Map<Seq<char>, B>>, anew: Seq<bool>|
        0 < k <= messages.len() && #[trigger] messages_take(
            assets,
            messages.take(k),
            course,
            anew,
        ) && course[0] == before && course.last() == after && course_fits(
            assets,
            course.drop_last(),
            anew.drop_last(),
        ) && anew.last() && !books_fit(assets, after) && reports == reports_of(
            assets,
            verbose,
            messages,
            course,
            anew,
            (k - 1) as nat,
        ) + message_warnings(assets, course[k - 1], messages[k - 1])
}

proof fn lemma_one_more_message<B: OrderbookLike>(
    assets: Seq<AssetConfig>,
    messages: Seq<JsonModel>,
    course: Seq<Map<Seq<char>, B>>,
    anew: Seq<bool>,
    after: Map<Seq<char>, B>,
    last: bool,
)
    requires
        messages.len() > 0,
        messages_take(assets, messages.drop_last(), course, anew),
        message_gives(assets, course.last(), messages.last(), after, last),
    ensures
        messages_take(assets, messages, course.push(after), anew.push(last)),
        course_fits(assets, course, anew) && (last ==> books_fit(assets, after)) ==> course_fits(
            assets,
            course.push(after),
            anew.push(last),
        ),
{
    let n = messages.len() - 1;
    assert forall|i: int| 0 <= i < messages.len() implies #[trigger] message_gives(
        assets,
        course.push(after)[i],
        messages[i],
        course.push(after)[i + 1],
        anew.push(last)[i],
    ) by {
        if i < n {
            assert(message_gives(
                assets,
                course[i],
                messages.drop_last()[i],
                course[i + 1],
                anew[i],
            ));
        }
    }
    if course_fits(assets, course, anew) && (last ==> books_fit(assets, after)) {
        assert forall|i: int| 0 <= i < anew.push(last).len() && #[trigger] anew.push(
            last,
        )[i] implies books_fit(assets, course.push(after)[i + 1]) by {
            if i < n {
                assert(anew[i]);
            }
        }
    }
}

/// The reports about the first messages do not depend on the later ones.
pub proof fn lemma_reports_kept<B: OrderbookLike>(
    assets: Seq<AssetConfig>,
    verbose: bool,
    messages: Seq<JsonModel>,
    course: Seq<Map<Seq<char>, B>>,
    anew: Seq<bool>,
    longer_messages: Seq<JsonModel>,
    longer_course: Seq<Map<Seq<char>, B>>,
    longer_anew: Seq<bool>,
    n: nat,
)
    requires
        n <= messages.len() <= longer_messages.len(),
        n <= anew.len() <= longer_anew.len(),
        n < course.len() <= longer_course.len(),
        forall|i: int| 0 <= i < messages.len() ==> messages[i] == longer_messages[i],
        forall|i: int| 0 <= i < anew.len() ==> anew[i] == longer_anew[i],
        forall|i: int| 0 <= i < course.len() ==> course[i] == longer_course[i],
    ensures
        reports_of(assets, verbose, messages, course, anew, n) == reports_of(
            assets,
            verbose,
            longer_messages,
            longer_course,
            longer_anew,
            n,
        ),
    decreases n,
{
    if n > 0 {
        lemma_reports_kept(
            assets,
            verbose,
            messages,
            course,
            anew,
            longer_messages,
            longer_course,
            longer_anew,
            (n - 1) as nat,
        );
    }
}

/// The messages in a value: the items of an array, or the value itself.
pub open spec fn messages_in(value: JsonModel) -> Seq<JsonModel> {
    match value {
        JsonModel::Array(items) => items,
        other => seq![other],
    }
}

// ---------------------------------------------------------------------------
// The observer
// ---------------------------------------------------------------------------

/// Keeps the books of the observed assets.
pub struct OrderbookObserver<B: OrderbookLike> {
    books: Orderbooks<B>,
    assets: Vec<AssetConfig>,
    verbose: bool,
}

impl<B: OrderbookLike> OrderbookObserver<B> {
    /// The books under the ids of their assets.
    pub closed spec fn kept(&self) -> Map<Seq<char>, B> {
        self.books@
    }

    /// The observed assets, each once.
    pub closed spec fn assets(&self) -> Seq<AssetConfig> {
        self.assets@
    }

    /// Books are printed on changes.
    pub closed spec fn verbose(&self) -> bool {
        self.verbose
    }

    /// No asset is observed twice, and every book is one of an observed asset.
    pub open spec fn inv(&self) -> bool {
        &&& distinct_assets(self.assets())
        &&& forall|id: Seq<char>| #[trigger]
            self.kept().contains_key(id) ==> observed(self.assets(), id) && self.kept()[id].wf()
    }

    pub fn new(config: ObserverConfig) -> (r: Self)
        ensures
            r.inv(),
            r.kept() == Map::<Seq<char>, B>::empty(),
            label_map(r.assets()) == label_map(config.assets@),
            r.verbose() == config.verbose,
    {
        OrderbookObserver {
            books: Orderbooks::new(),
            assets: distinct_labels(config.assets),
            verbose: config.verbose,
        }
    }

    /// The books.
    pub fn books(&self) -> (r: &Orderbooks<B>)
        ensures
            r@ == self.kept(),
    {
        &self.books
    }

    /// Whether the asset is observed.
    fn observes(&self, asset_id: &str) -> (r: bool)
        ensures
            r == observed(self.assets(), asset_id@),
    {
        position_of(&self.assets, asset_id) < self.assets.len()
    }

    /// Adds the books to the reports, if every number in them is one that a decimal can
    /// hold.
    fn publish(&self, reports: &mut Vec<Report>) -> (r: Result<(), Overflow>)
        requires
            self.inv(),
        ensures
            match r {
                Ok(_) => books_fit(self.assets(), self.kept()) && report_models(final(reports)@)
                    == report_models(old(reports)@).push(
                    ReportModel::Published(
                        published(self.assets(), self.verbose(), self.kept()),
                    ),
                ),
                Err(_) => !books_fit(self.assets(), self.kept()) && final(reports)@
                    == old(reports)@,
            },
    {
        match self.publish_and_print_books() {
            Ok(publication) => {
                let ghost done = reports@;
                reports.push(Report::Published(publication));
                assert(report_models(reports@) =~= report_models(done).push(
                    ReportModel::Published(publication@),
                ));
                Ok(())
            },
            Err(overflow) => Err(overflow),
        }
    }

    /// Handles a snapshot, and publishes the books if what is shown changed. Says whether
    /// it did.
    pub fn handle_book(&mut self, value: &Json, reports: &mut Vec<Report>) -> (r: Result<
        bool,
        Overflow,
    >)
        requires
            old(self).inv(),
        ensures
            final(self).inv(),
            final(self).assets() == old(self).assets(),
            final(self).verbose() == old(self).verbose(),
            book_message_gives(
                old(self).assets(),
                old(self).kept(),
                value@,
                final(self).kept(),
                r is Err || r->Ok_0,
            ),
            r is Err || r->Ok_0 ==> (r is Ok <==> books_fit(
                final(self).assets(),
                final(self).kept(),
            )),
            report_models(final(reports)@) == report_models(old(reports)@) + told(
                old(self).assets(),
                old(self).verbose(),
                seq![],
                final(self).kept(),
                r is Ok && r->Ok_0,
            ),
    {
        let ghost done = report_models(reports@);
        let anew = self.apply_book(value);
        if anew {
            if let Err(overflow) = self.publish(reports) {
                assert(done + seq![] =~= done);
                return Err(overflow);
            }
        }
        proof {
            let more = told(self.assets(), self.verbose(), seq![], self.kept(), anew);
            if anew {
                assert(more =~= seq![
                    ReportModel::Published(
                        published(self.assets(), self.verbose(), self.kept()),
                    ),
                ]);
            }
            assert(report_models(reports@) =~= done + more);
        }
        Ok(anew)
    }

    /// Applies a snapshot, and says whether what is shown changed.
    fn apply_book(&mut self, value: &Json) -> (anew: bool)
        requires
            old(self).inv(),
        ensures
            final(self).inv(),
            final(self).assets() == old(self).assets(),
            final(self).verbose() == old(self).verbose(),
            book_message_gives(
                old(self).assets(),
                old(self).kept(),
                value@,
                final(self).kept(),
                anew,
            ),
    {
        let Snapshot { asset_id, bids, asks } = match parse_snapshot(value) {
            Some(snapshot) => snapshot,
            None => return false,
        };
        if !self.observes(asset_id) {
            return false;
        }
        let ghost before = self.kept();
        let book = self.books.book_mut(asset_id);
        proof {
            if before.contains_key(asset_id@) {
                assert(before[asset_id@].wf());
            } else {
                B::law_default(book);
            }
        }
        // Capture previous top-of-book view (up to DISPLAY_DEPTH levels per side).
        let prev_top_bids = top_levels(book.bids());
        let prev_top_asks = top_levels(book.asks());
        book.apply_snapshot(bids, asks);
        let new_top_bids = top_levels(book.bids());
        let new_top_asks = top_levels(book.asks());
        !(equal_levels(&prev_top_bids, &new_top_bids) && equal_levels(
            &prev_top_asks,
            &new_top_asks,
        ))
    }

    /// Handles one change, and says whether it touches what is shown.
    fn handle_change(&mut self, entry: &Json, reports: &mut Vec<Report>) -> (anew: bool)
        requires
            old(self).inv(),
        ensures
            report_models(final(reports)@) == report_models(old(reports)@) + entry_warnings(
                old(self).assets(),
                old(self).kept(),
                entry@,
            ),
            final(self).inv(),
            final(self).assets() == old(self).assets(),
            final(self).verbose() == old(self).verbose(),
            change_entry_gives(
                old(self).assets(),
                old(self).kept(),
                entry@,
                final(self).kept(),
                anew,
            ),
    {
        let ghost told = report_models(reports@);
        assert(told + seq![] =~= told);
        let Change { asset_id, side, price, size } = match parse_change(entry) {
            Some(change) => change,
            None => return false,
        };
        if !self.observes(asset_id) {
            return false;
        }
        let ghost before = self.kept();
        // A change that arrives before any snapshot violates the protocol: it is dropped.
        let book = match self.books.get_mut(asset_id) {
            Some(book) => book,
            None => {
                reports.push(Report::Warning(violation(asset_id)));
                assert(report_models(reports@) =~= told + seq![
                    ReportModel::Warning(violation_text(asset_id@)),
                ]);
                return false;
            },
        };
        assert(before[asset_id@].wf());
        // Determine whether this change can affect the visible top DISPLAY_DEPTH levels.
        let old_in_top = match side {
            Side::Bid => price_in_top(book.bids(), price),
            Side::Ask => price_in_top(book.asks(), price),
        };
        // Apply the change (this may insert, update, or remove a level).
        book.apply_price_change(side, price, size);
        let new_in_top = match side {
            Side::Bid => price_in_top(book.bids(), price),
            Side::Ask => price_in_top(book.asks(), price),
        };
        old_in_top || new_in_top
    }

    /// Handles changes, and says whether one of them touches what is shown.
    fn handle_changes(&mut self, entries: &Vec<Json>, reports: &mut Vec<Report>) -> (anew: bool)
        requires
            old(self).inv(),
        ensures
            report_models(final(reports)@) == report_models(old(reports)@) + change_warnings(
                old(self).assets(),
                old(self).kept(),
                array_model(entries@),
            ),
            final(self).inv(),
            final(self).assets() == old(self).assets(),
            final(self).verbose() == old(self).verbose(),
            change_entries_give(
                old(self).assets(),
                old(self).kept(),
                array_model(entries@),
                final(self).kept(),
                anew,
            ),
    {
        let ghost model = array_model(entries@);
        let ghost before = self.kept();
        let ghost assets = self.assets();
        let ghost mut course = seq![before];
        let ghost mut touched: Seq<bool> = seq![];
        let ghost told = report_models(reports@);
        let mut anew = false;
        let mut i: usize = 0;
        proof {
            lemma_array_model(entries@);
            assert(told =~= told + change_warnings(assets, before, model.take(0)));
        }
        while i < entries.len()
            invariant
                i <= entries@.len() == model.len(),
                forall|j: int| 0 <= j < entries@.len() ==> #[trigger] model[j] == entries@[j]@,
                self.inv(),
                self.assets() == assets,
                self.verbose() == old(self).verbose(),
                changes_take(assets, model.take(i as int), course, touched),
                course[0] == before,
                course.last() == self.kept(),
                anew == touched.contains(true),
                report_models(reports@) == told + change_warnings(
                    assets,
                    before,
                    model.take(i as int),
                ),
            decreases entries@.len() - i,
        {
            let last = self.handle_change(&entries[i], reports);
            if last {
                anew = true;
            }
            proof {
                let more = model.take(i + 1);
                assert(model.take(i as int).len() == i);
                lemma_warnings_kept(
                    assets,
                    model.take(i as int),
                    course,
                    touched,
                    model[i as int],
                    i as int,
                );
                assert(report_models(reports@) =~= told + (change_warnings(
                    assets,
                    before,
                    model.take(i as int),
                ) + entry_warnings(assets, before, model[i as int])));
                assert(more.drop_last() =~= model.take(i as int));
                assert(more.last() == model[i as int]);
                lemma_one_more_change(assets, more, course, touched, self.kept(), last);
                course = course.push(self.kept());
                touched = touched.push(last);
            }
            i = i + 1;
        }
        assert(model.take(i as int) =~= model);
        anew
    }

    /// Handles a list of changes, each that cannot be used skipped, and publishes the books
    /// once if one of the others touches what is shown. Says whether it did.
    pub fn handle_price_change(&mut self, value: &Json, reports: &mut Vec<Report>) -> (r: Result<
        bool,
        Overflow,
    >)
        requires
            old(self).inv(),
        ensures
            final(self).inv(),
            final(self).assets() == old(self).assets(),
            final(self).verbose() == old(self).verbose(),
            price_change_gives(
                old(self).assets(),
                old(self).kept(),
                value@,
                final(self).kept(),
                r is Err || r->Ok_0,
            ),
            r is Err || r->Ok_0 ==> (r is Ok <==> books_fit(
                final(self).assets(),
                final(self).kept(),
            )),
            report_models(final(reports)@) == report_models(old(reports)@) + told(
                old(self).assets(),
                old(self).verbose(),
                price_change_warnings(old(self).assets(), old(self).kept(), value@),
                final(self).kept(),
                r is Ok && r->Ok_0,
            ),
    {
        let ghost done = report_models(reports@);
        let ghost warnings = price_change_warnings(self.assets(), self.kept(), value@);
        let should_print = match value.items_at("price_changes") {
            Some(entries) => self.handle_changes(entries, reports),
            None => false,
        };
        assert(report_models(reports@) =~= done + warnings);
        if should_print {
            if let Err(overflow) = self.publish(reports) {
                return Err(overflow);
            }
        }
        assert(report_models(reports@) =~= done + told(
            self.assets(),
            self.verbose(),
            warnings,
            self.kept(),
            should_print,
        ));
        Ok(should_print)
    }

    /// Handles one message: adds the warnings about it to the reports, and the books if
    /// what is shown changed. Says whether it did.
    pub fn handle_single_message(&mut self, value: &Json, reports: &mut Vec<Report>) -> (r: Result<
        bool,
        Overflow,
    >)
        requires
            old(self).inv(),
        ensures
            final(self).inv(),
            final(self).assets() == old(self).assets(),
            final(self).verbose() == old(self).verbose(),
            message_gives(
                old(self).assets(),
                old(self).kept(),
                value@,
                final(self).kept(),
                r is Err || r->Ok_0,
            ),
            r is Err || r->Ok_0 ==> (r is Ok <==> books_fit(
                final(self).assets(),
                final(self).kept(),
            )),
            report_models(final(reports)@) == report_models(old(reports)@) + told(
                old(self).assets(),
                old(self).verbose(),
                message_warnings(old(self).assets(), old(self).kept(), value@),
                final(self).kept(),
                r is Ok && r->Ok_0,
            ),
    {
        proof {
            reveal_strlit("book");
            reveal_strlit("price_change");
            assert("book"@.len() != "price_change"@.len());
            assert(report_models(reports@) + seq![] =~= report_models(reports@));
        }
        let event_type = match value.text_at("event_type") {
            Some(kind) => kind,
            None => return Ok(false),
        };
        if same_text(event_type, "book") {
            self.handle_book(value, reports)
        } else if same_text(event_type, "price_change") {
            self.handle_price_change(value, reports)
        } else {
            Ok(false)
        }
    }

    /// Handles the messages one after the other, and publishes the books after each
    /// that changes what is shown.
    fn handle_messages(&mut self, messages: &Vec<Json>) -> (r: Result<Vec<Report>, Interrupted>)
        requires
            old(self).inv(),
        ensures
            final(self).inv(),
            final(self).assets() == old(self).assets(),
            final(self).verbose() == old(self).verbose(),
            match r {
                Ok(reports) => messages_give(
                    old(self).assets(),
                    old(self).verbose(),
                    old(self).kept(),
                    array_model(messages@),
                    final(self).kept(),
                    report_models(reports@),
                ),
                Err(interrupted) => messages_overflow(
                    old(self).assets(),
                    old(self).verbose(),
                    old(self).kept(),
                    array_model(messages@),
                    final(self).kept(),
                    report_models(interrupted.reports@),
                ),
            },
    {
        let ghost model = array_model(messages@);
        let ghost before = self.kept();
        let ghost assets = self.assets();
        let ghost verbose = self.verbose();
        let ghost mut course = seq![before];
        let ghost mut anew: Seq<bool> = seq![];
        let mut reports: Vec<Report> = Vec::new();
        let mut i: usize = 0;
        proof {
            lemma_array_model(messages@);
            assert(report_models(reports@) =~= seq![]);
        }
        while i < messages.len()
            invariant
                i <= messages@.len() == model.len(),
                model == array_model(messages@),
                forall|j: int| 0 <= j < messages@.len() ==> #[trigger] model[j] == messages@[j]@,
                self.inv(),
                self.assets() == assets,
                self.verbose() == verbose,
                assets == old(self).assets(),
                verbose == old(self).verbose(),
                before == old(self).kept(),
                messages_take(assets, model.take(i as int), course, anew),
                course[0] == before,
                course.last() == self.kept(),
                course_fits(assets, course, anew),
                report_models(reports@) == reports_of(
                    assets,
                    verbose,
                    model,
                    course,
                    anew,
                    i as nat,
                ),
            decreases messages@.len() - i,
        {
            let handled = self.handle_single_message(&messages[i], &mut reports);
            let ghost changed = handled is Err || handled->Ok_0;
            let ghost kept = self.kept();
            let ghost course2 = course.push(kept);
            let ghost anew2 = anew.push(changed);
            proof {
                let more = model.take(i + 1);
                assert(more.drop_last() =~= model.take(i as int));
                assert(more.last() == model[i as int]);
                assert(model.take(i as int).len() == i);
                lemma_one_more_message(assets, more, course, anew, kept, changed);
                lemma_reports_kept(
                    assets,
                    verbose,
                    model,
                    course,
                    anew,
                    model,
                    course2,
                    anew2,
                    i as nat,
                );
                assert(course2[i as int] == course.last());
            }
            if handled.is_err() {
                proof {
                    assert(course2.drop_last() =~= course);
                    assert(anew2.drop_last() =~= anew);
                    assert(messages_take(assets, model.take(i + 1), course2, anew2));
                }
                return Err(Interrupted { reports });
            }
            proof {
                course = course2;
                anew = anew2;
            }
            i = i + 1;
        }
        assert(model.take(i as int) =~= model);
        Ok(reports)
    }

    /// Handles a value of the feed: a message, or an array of messages. Returns what
    /// is to be told of it.
    pub fn on_json_message(&mut self, value: Json) -> (r: Result<Vec<Report>, Interrupted>)
        requires
            old(self).inv(),
        ensures
            final(self).inv(),
            final(self).assets() == old(self).assets(),
            final(self).verbose() == old(self).verbose(),
            match r {
                Ok(reports) => messages_give(
                    old(self).assets(),
                    old(self).verbose(),
                    old(self).kept(),
                    messages_in(value@),
                    final(self).kept(),
                    report_models(reports@),
                ),
                Err(interrupted) => messages_overflow(
                    old(self).assets(),
                    old(self).verbose(),
                    old(self).kept(),
                    messages_in(value@),
                    final(self).kept(),
                    report_models(interrupted.reports@),
                ),
            },
    {
        match value.into_items() {
            Ok(messages) => self.handle_messages(&messages),
            Err(message) => {
                let mut messages: Vec<Json> = Vec::new();
                messages.push(message);
                proof {
                    lemma_array_model(messages@);
                    assert(array_model(messages@) =~= seq![message@]);
                }
                self.handle_messages(&messages)
            },
        }
    }

    /// Whether every number that is shown of the books is one that a decimal can hold.
    pub fn can_publish(&self) -> (r: bool)
        requires
            self.inv(),
        ensures
            r == books_fit(self.assets(), self.kept()),
    {
        let mut i: usize = 0;
        while i < self.assets.len()
            invariant
                i <= self.assets@.len(),
                self.inv(),
                forall|k: int|
                    0 <= k < i && self.kept().contains_key((#[trigger] self.assets@[k]).id@)
                        ==> book_fits(
                        self.kept()[self.assets@[k].id@].bid_levels(),
                        self.kept()[self.assets@[k].id@].ask_levels(),
                    ),
            decreases self.assets@.len() - i,
        {
            if let Some(book) = self.books.get(self.assets[i].id.as_str()) {
                assert(self.kept().contains_key(self.assets@[i as int].id@));
                if !can_show(book) {
                    assert(!books_fit(self.assets(), self.kept()));
                    return false;
                }
            }
            i = i + 1;
        }
        true
    }

    /// The books as they are printed.
    pub fn format_books_text(&self) -> (r: String)
        requires
            self.inv(),
            books_fit(self.assets(), self.kept()),
        ensures
            r@ == printed_books(self.assets(), self.kept()),
    {
        let mut out = String::new();
        let mut i: usize = 0;
        assert(self.assets@.take(0) =~= Seq::<AssetConfig>::empty());
        assert(out@ =~= printed_books(self.assets@.take(0), self.kept()));
        while i < self.assets.len()
            invariant
                i <= self.assets@.len(),
                self.inv(),
                books_fit(self.assets(), self.kept()),
                out@ == printed_books(self.assets@.take(i as int), self.kept()),
            decreases self.assets@.len() - i,
        {
            proof {
                let more = self.assets@.take(i + 1);
                assert(more.drop_last() =~= self.assets@.take(i as int));
                assert(more.last() == self.assets@[i as int]);
                assert(self.assets()[i as int] == self.assets@[i as int]);
            }
            if let Some(book) = self.books.get(self.assets[i].id.as_str()) {
                assert(self.kept().contains_key(self.assets@[i as int].id@));
                print_book(&mut out, self.assets[i].label.as_str(), book);
            }
            i = i + 1;
        }
        assert(self.assets@.take(i as int) =~= self.assets@);
        out
    }

    /// The books as text, for export.
    pub fn build_top_snapshot(&self) -> (r: TopBookSnapshot)
        requires
            self.inv(),
            books_fit(self.assets(), self.kept()),
        ensures
            book_models(r.assets@) == shown_books(self.assets(), self.kept()),
    {
        let mut assets: Vec<AssetBook> = Vec::new();
        let mut i: usize = 0;
        assert(self.assets@.take(0) =~= Seq::<AssetConfig>::empty());
        assert(book_models(assets@) =~= shown_books(self.assets@.take(0), self.kept()));
        while i < self.assets.len()
            invariant
                i <= self.assets@.len(),
                self.inv(),
                books_fit(self.assets(), self.kept()),
                book_models(assets@) == shown_books(self.assets@.take(i as int), self.kept()),
            decreases self.assets@.len() - i,
        {
            proof {
                let more = self.assets@.take(i + 1);
                assert(more.drop_last() =~= self.assets@.take(i as int));
                assert(more.last() == self.assets@[i as int]);
                assert(self.assets()[i as int] == self.assets@[i as int]);
            }
            if let Some(book) = self.books.get(self.assets[i].id.as_str()) {
                assert(self.kept().contains_key(self.assets@[i as int].id@));
                let ghost done = assets@;
                let asset = show_book(
                    self.assets[i].id.as_str(),
                    self.assets[i].label.as_str(),
                    book,
                );
                assets.push(asset);
                assert(book_models(assets@) =~= book_models(done).push(asset@));
            }
            i = i + 1;
        }
        assert(self.assets@.take(i as int) =~= self.assets@);
        TopBookSnapshot { assets }
    }

    /// What is published of the books, if every number in it is one that a decimal
    /// can hold.
    pub fn publish_and_print_books(&self) -> (r: Result<Publication, Overflow>)
        requires
            self.inv(),
        ensures
            match r {
                Ok(publication) => books_fit(self.assets(), self.kept()) && publication@
                    == published(self.assets(), self.verbose(), self.kept()),
                Err(_) => !books_fit(self.assets(), self.kept()),
            },
    {
        if !self.can_publish() {
            return Err(Overflow);
        }
        let text = if self.verbose {
            Some(self.format_books_text())
        } else {
            None
        };
        let snapshot = self.build_top_snapshot();
        Ok(Publication { text, snapshot })
    }
}

/// What is said of a change to an asset that has no book yet.
fn violation(asset_id: &str) -> (r: String)
    ensures
        r@ == violation_text(asset_id@),
{
    let mut text = String::new();
    text.append("protocol violation: received price_change for asset `");
    text.append(asset_id);
    text.append("` before any book snapshot");
    assert(text@ =~= violation_text(asset_id@));
    text
}

/// Whether the price is among the levels that are shown.
fn price_in_top<I: Iterator<Item = Level>>(levels: I, price: Price) -> (r: bool)
    requires
        levels.obeys_prophetic_iter_laws(),
    ensures
        r == in_top(levels.remaining(), price),
{
    let ghost all = levels.remaining();
    let top = top_levels(levels);
    proof {
        lemma_first_at(all, price.0.value());
    }
    let mut i: usize = 0;
    while i < top.len()
        invariant
            i <= top@.len(),
            all == levels.remaining(),
            top@ == shown(all),
            first_at(all, price.0.value()) <= all.len(),
            first_at(all, price.0.value()) < all.len() ==> all[first_at(
                all,
                price.0.value(),
            ) as int].price.0.value() == price.0.value(),
            forall|j: int|
                0 <= j < first_at(all, price.0.value()) ==> (#[trigger] all[j]).price.0.value()
                    != price.0.value(),
            i <= first_at(all, price.0.value()),
        decreases top@.len() - i,
    {
        assert(top@[i as int] == all[i as int]);
        if top[i].price == price {
            return true;
        }
        i = i + 1;
    }
    false
}

/// What happens to the other books along a course of changes: nothing.
pub proof fn lemma_changes_keep<B: OrderbookLike>(
    assets: Seq<AssetConfig>,
    entries: Seq<JsonModel>,
    course: Seq<Map<Seq<char>, B>>,
    touched: Seq<bool>,
    id: Seq<char>,
    n: int,
)
    requires
        changes_take(assets, entries, course, touched),
        0 <= n < course.len(),
    ensures
        course[n].contains_key(id) == course[0].contains_key(id),
        !observed(assets, id) && course[0].contains_key(id) ==> course[n][id] == course[0][id],
    decreases n,
{
    if n > 0 {
        lemma_changes_keep(assets, entries, course, touched, id, n - 1);
        assert(change_entry_gives(
            assets,
            course[n - 1],
            entries[n - 1],
            course[n - 1 + 1],
            touched[n - 1],
        ));
    }
}

/// What is warned of does not depend on the changes before it.
pub proof fn lemma_warnings_kept<B: OrderbookLike>(
    assets: Seq<AssetConfig>,
    entries: Seq<JsonModel>,
    course: Seq<Map<Seq<char>, B>>,
    touched: Seq<bool>,
    entry: JsonModel,
    n: int,
)
    requires
        changes_take(assets, entries, course, touched),
        0 <= n < course.len(),
    ensures
        entry_warnings(assets, course[n], entry) == entry_warnings(assets, course[0], entry),
        usable_change(assets, course[n], entry) == usable_change(assets, course[0], entry),
{
    if let Some(change) = parsed_change(entry) {
        lemma_changes_keep(assets, entries, course, touched, change.asset_id, n);
    }
}

} // verus!
