//! What a message does to the books and what is told of it, said of the message itself.

use crate::basic_orderbook::{
    same_level, same_levels, Level, OrderbookLike, Overflow, Price, Quantity, Side,
};
use crate::book_laws::{
    ascending, at_price, change_at, descending, lemma_change_at, lemma_directions,
    lemma_snapshot_at, listable,
};
use crate::display::shown;
use crate::feed::{parsed_change, parsed_snapshot};
use crate::feed_laws::{
    holds, law_change_is_the_one_named, law_snapshot_is_the_one_named, law_what_is_held_is_found,
    names_change, names_snapshot,
};
use crate::json::{json_items, Json, JsonModel};
use crate::ladder::{first_at, lemma_first_at, parts_at, pool_limit};
use crate::laws::levels_on;
use crate::observer::{
    asset_at, asset_levels, book_message_gives, books_fit, change_entries_give, change_entry_gives,
    change_warnings, changes_take, entry_warnings, in_top, lemma_asset_at, lemma_warnings_kept,
    observed, price_change_warnings, report_models, told, violation_text, AssetConfig,
    OrderbookObserver, Report, ReportModel,
};
use crate::observer_laws::{
    alike_books, law_message_goes_by_its_kind, law_price_change_is_determined,
    law_publication_is_determined, law_snapshot_is_determined, lemma_alike_books,
    lemma_warnings_joined,
};
use crate::publication_laws::{all_showable, lemma_all_showable, lemma_publishes, publishes};
use vstd::prelude::*;

verus! {

/// The asset is one of those that are observed.
pub open spec fn watches(assets: Seq<AssetConfig>, id: Seq<char>) -> bool {
    exists|i: int| 0 <= i < assets.len() && (#[trigger] assets[i]).id@ == id
}

/// One of the best five levels has the price.
pub open spec fn among_first_five(levels: Seq<Level>, value: int) -> bool {
    exists|i: int|
        0 <= i < levels.len() && i < 5 && (#[trigger] levels[i]).price.0.value() == value
}

/// Both sides have a level of the same price and size at a place, or none has one there.
pub open spec fn alike_at(a: Seq<Level>, b: Seq<Level>, i: int) -> bool {
    &&& i < a.len() <==> i < b.len()
    &&& i < a.len() ==> a[i].price.0.value() == b[i].price.0.value() && a[i].size.0.value()
        == b[i].size.0.value()
}

/// The best five levels have the same prices and sizes.
pub open spec fn first_five_alike(a: Seq<Level>, b: Seq<Level>) -> bool {
    forall|i: int| 0 <= i < 5 ==> #[trigger] alike_at(a, b, i)
}

/// The reports are those from before and so many more.
pub open spec fn reports_grow(before: Seq<Report>, after: Seq<Report>, more: nat) -> bool {
    &&& after.len() == before.len() + more
    &&& forall|i: int| 0 <= i < before.len() ==> (#[trigger] after[i])@ == before[i]@
}

/// What is told where the levels that are shown are touched or not: the books, once, where
/// they can be shown, and nothing otherwise.
pub open spec fn tells<B: OrderbookLike>(
    touched: bool,
    r: Result<bool, Overflow>,
    observer: &OrderbookObserver<B>,
    before: Seq<Report>,
    after: Seq<Report>,
) -> bool {
    let can = all_showable(observer.assets(), observer.kept());
    &&& !touched ==> r == Ok::<bool, Overflow>(false) && reports_grow(before, after, 0)
    &&& touched && !can ==> r is Err && reports_grow(before, after, 0)
    &&& touched && can ==> r == Ok::<bool, Overflow>(true) && reports_grow(before, after, 1)
        && after.last() is Published && publishes(
        after.last()->Published_0,
        observer.verbose(),
        observer.assets(),
        observer.kept(),
    )
}

/// The same is observed, and the same is asked for.
pub open spec fn same_watch<B: OrderbookLike>(
    a: &OrderbookObserver<B>,
    b: &OrderbookObserver<B>,
) -> bool {
    a.assets() == b.assets() && a.verbose() == b.verbose()
}

/// Of every asset but one the book is what it was, if it has one.
pub open spec fn others_stay<B: OrderbookLike>(
    before: Map<Seq<char>, B>,
    after: Map<Seq<char>, B>,
    id: Seq<char>,
) -> bool {
    forall|other: Seq<char>|
        other != id ==> #[trigger] after.contains_key(other) == before.contains_key(other) && (
        before.contains_key(other) ==> after[other] == before[other])
}

pub proof fn lemma_watches(assets: Seq<AssetConfig>, id: Seq<char>)
    ensures
        observed(assets, id) <==> watches(assets, id),
{
    lemma_asset_at(assets, id);
    if observed(assets, id) {
        assert(assets[asset_at(assets, id)].id@ == id);
    }
}

proof fn lemma_in_top(levels: Seq<Level>, price: Price)
    ensures
        in_top(levels, price) <==> among_first_five(levels, price.0.value()),
{
    let k = first_at(levels, price.0.value()) as int;
    lemma_first_at(levels, price.0.value());
    if in_top(levels, price) {
        assert(levels[k].price.0.value() == price.0.value());
    }
}

proof fn lemma_told<B: OrderbookLike>(
    touched: bool,
    r: Result<bool, Overflow>,
    observer: &OrderbookObserver<B>,
    before: Seq<Report>,
    after: Seq<Report>,
)
    requires
        touched == (r is Err || r->Ok_0),
        touched ==> (r is Ok <==> books_fit(observer.assets(), observer.kept())),
        report_models(after) == report_models(before) + told(
            observer.assets(),
            observer.verbose(),
            seq![],
            observer.kept(),
            r is Ok && r->Ok_0,
        ),
    ensures
        tells(touched, r, observer, before, after),
{
    lemma_all_showable(observer.assets(), observer.kept());
    assert(after.len() == report_models(after).len());
    assert(before.len() == report_models(before).len());
    assert forall|i: int| 0 <= i < before.len() implies (#[trigger] after[i])@
        == before[i]@ by {
        assert(report_models(after)[i] == after[i]@);
        assert(report_models(before)[i] == before[i]@);
    }
    if r is Ok && r->Ok_0 {
        let n = before.len() as int;
        assert(report_models(after)[n] == after[n]@);
        lemma_publishes(
            after[n]->Published_0,
            observer.verbose(),
            observer.assets(),
            observer.kept(),
        );
    }
}

/// Where the price is not among the best five before or after, these are the same.
proof fn lemma_first_five(a: Seq<Level>, b: Seq<Level>, value: int)
    requires
        parts_at(a, b, value),
        !among_first_five(a, value),
        !among_first_five(b, value),
    ensures
        first_five_alike(a, b),
{
    if a != b {
        let k = choose|k: int|
            #![trigger a.take(k)]
            0 <= k <= a.len() && k <= b.len() && a.take(k) == b.take(k) && ((k < a.len()
                && a[k].price.0.value() == value) || (k < b.len() && b[k].price.0.value()
                == value));
        assert(k >= 5) by {
            if k < 5 && k < a.len() && a[k].price.0.value() == value {
                assert(among_first_five(a, value));
            }
            if k < 5 && k < b.len() && b[k].price.0.value() == value {
                assert(among_first_five(b, value));
            }
        }
        assert forall|i: int| 0 <= i < 5 implies a[i] == b[i] by {
            assert(a.take(k)[i] == a[i]);
            assert(b.take(k)[i] == b[i]);
        }
    }
}

proof fn lemma_one_change<B: OrderbookLike>(
    assets: Seq<AssetConfig>,
    before: Map<Seq<char>, B>,
    entry: JsonModel,
    after: Map<Seq<char>, B>,
    anew: bool,
)
    ensures
        change_entries_give(assets, before, seq![entry], after, anew) <==> change_entry_gives(
            assets,
            before,
            entry,
            after,
            anew,
        ),
        change_warnings(assets, before, seq![entry]) == entry_warnings(assets, before, entry),
{
    let entries = seq![entry];
    if change_entries_give(assets, before, entries, after, anew) {
        let (course, touched) = choose|course: Seq<Map<Seq<char>, B>>, touched: Seq<bool>|
            #[trigger]
            changes_take(assets, entries, course, touched) && course[0] == before && course.last()
                == after && anew == touched.contains(true);
        assert(change_entry_gives(
            assets,
            course[0],
            entries[0],
            course[0int + 1],
            touched[0],
        ));
        assert(touched.contains(true) == touched[0]);
    }
    if change_entry_gives(assets, before, entry, after, anew) {
        let course = seq![before, after];
        let touched = seq![anew];
        assert(touched[0] == anew);
        assert(changes_take(assets, entries, course, touched));
    }
    assert(entries.drop_last() =~= seq![]);
    reveal_with_fuel(change_warnings, 2);
    assert(seq![] + entry_warnings(assets, before, entry) =~= entry_warnings(
        assets,
        before,
        entry,
    ));
}

/// A list of one whole change to an observed asset that has a book is applied to that book
/// alone: the change sets the level at its price or, where its size is zero, takes it away,
/// whatever place the price has; every other price and the other side list what they did.
/// The books are published once where the price is among the best five before or after,
/// which is the case wherever the best five change.
pub proof fn law_one_change<B: OrderbookLike>(
    observer: &mut OrderbookObserver<B>,
    message: &Json,
    reports: &mut Vec<Report>,
    r: Result<bool, Overflow>,
    entry: JsonModel,
    id: Seq<char>,
    side: Side,
    price: Price,
    size: Quantity,
)
    requires
        old(observer).inv(),
        call_ensures(OrderbookObserver::<B>::handle_price_change, (observer, message, reports), r),
        holds(message@, "price_changes"@, JsonModel::Array(seq![entry])),
        names_change(entry, id, side, price, size),
        watches(old(observer).assets(), id),
        old(observer).kept().contains_key(id),
    ensures
        final(observer).inv(),
        same_watch(old(observer), final(observer)),
        others_stay(old(observer).kept(), final(observer).kept(), id),
        final(observer).kept().contains_key(id),
        ({
            let before = old(observer).kept()[id];
            let after = final(observer).kept()[id];
            let (listed, now) = match side {
                Side::Bid => (before.bid_levels(), after.bid_levels()),
                Side::Ask => (before.ask_levels(), after.ask_levels()),
            };
            let touched = among_first_five(listed, price.0.value()) || among_first_five(
                now,
                price.0.value(),
            );
            &&& side is Bid ==> after.ask_levels() == before.ask_levels()
            &&& side is Ask ==> after.bid_levels() == before.bid_levels()
            &&& descending(after.bid_levels())
            &&& ascending(after.ask_levels())
            &&& before.regular(side) && listed.len() < 0xffff_ffff ==> after.regular(side)
                && change_at(listed, price, size, now)
            &&& !first_five_alike(listed, now) ==> touched
            &&& tells(touched, r, final(observer), old(reports)@, final(reports)@)
        }),
{
    let assets = old(observer).assets();
    let books = old(observer).kept();
    let after_books = final(observer).kept();
    let touched = r is Err || r->Ok_0;
    law_what_is_held_is_found(message@, "price_changes"@, message@);
    law_change_is_the_one_named(entry);
    lemma_watches(assets, id);
    assert(json_items(message@, "price_changes"@) == Some(seq![entry]));
    lemma_one_change(assets, books, entry, after_books, touched);
    assert(change_entry_gives(assets, books, entry, after_books, touched));
    let before = books[id];
    let after = after_books[id];
    assert(books.contains_key(id));
    assert(after_books.contains_key(id));
    let listed = levels_on(&before, side);
    let now = levels_on(&after, side);
    lemma_in_top(listed, price);
    lemma_in_top(now, price);
    B::law_change(&before, side, price, size, &after);
    B::law_change_at_its_price(&before, side, price, size, &after);
    B::law_ordered(&after);
    lemma_directions(after.bid_levels());
    lemma_directions(after.ask_levels());
    if before.regular(side) && listed.len() < pool_limit() {
        lemma_change_at(&before, side, price, size, &after);
    }
    if !among_first_five(listed, price.0.value()) && !among_first_five(now, price.0.value()) {
        lemma_first_five(listed, now, price.0.value());
    }
    lemma_told(touched, r, final(observer), old(reports)@, final(reports)@);
}

/// Nothing changes, and nothing is told.
pub open spec fn nothing_happens<B: OrderbookLike>(
    r: Result<bool, Overflow>,
    observer: &OrderbookObserver<B>,
    now: &OrderbookObserver<B>,
    before: Seq<Report>,
    after: Seq<Report>,
) -> bool {
    &&& same_watch(observer, now)
    &&& now.kept() == observer.kept()
    &&& r == Ok::<bool, Overflow>(false)
    &&& reports_grow(before, after, 0)
}

proof fn lemma_nothing<B: OrderbookLike>(
    r: Result<bool, Overflow>,
    now: &OrderbookObserver<B>,
    before: Seq<Report>,
    after: Seq<Report>,
)
    requires
        !(r is Err || r->Ok_0),
        report_models(after) == report_models(before) + told(
            now.assets(),
            now.verbose(),
            seq![],
            now.kept(),
            false,
        ),
    ensures
        r == Ok::<bool, Overflow>(false),
        reports_grow(before, after, 0),
{
    lemma_told(false, r, now, before, after);
}

/// A list of one change that is not whole, or to an asset that is not observed, does
/// nothing.
pub proof fn law_one_change_of_no_concern<B: OrderbookLike>(
    observer: &mut OrderbookObserver<B>,
    message: &Json,
    reports: &mut Vec<Report>,
    r: Result<bool, Overflow>,
    entry: JsonModel,
)
    requires
        old(observer).inv(),
        call_ensures(OrderbookObserver::<B>::handle_price_change, (observer, message, reports), r),
        holds(message@, "price_changes"@, JsonModel::Array(seq![entry])),
        forall|id: Seq<char>, side: Side, price: Price, size: Quantity| #[trigger]
            names_change(entry, id, side, price, size) ==> !watches(old(observer).assets(), id),
    ensures
        nothing_happens(r, old(observer), final(observer), old(reports)@, final(reports)@),
{
    let assets = old(observer).assets();
    let books = old(observer).kept();
    let touched = r is Err || r->Ok_0;
    law_what_is_held_is_found(message@, "price_changes"@, message@);
    law_change_is_the_one_named(entry);
    assert(json_items(message@, "price_changes"@) == Some(seq![entry]));
    lemma_one_change(assets, books, entry, final(observer).kept(), touched);
    if let Some(change) = parsed_change(entry) {
        assert(names_change(entry, change.asset_id, change.side, change.price, change.size));
        lemma_watches(assets, change.asset_id);
    }
    lemma_nothing(r, final(observer), old(reports)@, final(reports)@);
}

/// A list of one whole change to an observed asset that has no book is warned of, with the
/// id of the asset, and does nothing else.
pub proof fn law_one_change_without_book<B: OrderbookLike>(
    observer: &mut OrderbookObserver<B>,
    message: &Json,
    reports: &mut Vec<Report>,
    r: Result<bool, Overflow>,
    entry: JsonModel,
    id: Seq<char>,
    side: Side,
    price: Price,
    size: Quantity,
)
    requires
        old(observer).inv(),
        call_ensures(OrderbookObserver::<B>::handle_price_change, (observer, message, reports), r),
        holds(message@, "price_changes"@, JsonModel::Array(seq![entry])),
        names_change(entry, id, side, price, size),
        watches(old(observer).assets(), id),
        !old(observer).kept().contains_key(id),
    ensures
        same_watch(old(observer), final(observer)),
        final(observer).kept() == old(observer).kept(),
        r == Ok::<bool, Overflow>(false),
        reports_grow(old(reports)@, final(reports)@, 1),
        final(reports)@.last() is Warning,
        final(reports)@.last()->Warning_0@
            == "protocol violation: received price_change for asset `"@ + id
            + "` before any book snapshot"@,
{
    let assets = old(observer).assets();
    let books = old(observer).kept();
    let touched = r is Err || r->Ok_0;
    let before = old(reports)@;
    let after = final(reports)@;
    law_what_is_held_is_found(message@, "price_changes"@, message@);
    law_change_is_the_one_named(entry);
    lemma_watches(assets, id);
    assert(json_items(message@, "price_changes"@) == Some(seq![entry]));
    lemma_one_change(assets, books, entry, final(observer).kept(), touched);
    assert(report_models(after) == report_models(before) + seq![
        ReportModel::Warning(violation_text(id)),
    ]);
    assert(after.len() == report_models(after).len());
    assert(before.len() == report_models(before).len());
    assert forall|i: int| 0 <= i < before.len() implies (#[trigger] after[i])@
        == before[i]@ by {
        assert(report_models(after)[i] == after[i]@);
        assert(report_models(before)[i] == before[i]@);
    }
    let n = before.len() as int;
    assert(report_models(after)[n] == after[n]@);
}

/// A message without a list of changes, or with an empty one, does nothing.
pub proof fn law_no_changes<B: OrderbookLike>(
    observer: &mut OrderbookObserver<B>,
    message: &Json,
    reports: &mut Vec<Report>,
    r: Result<bool, Overflow>,
)
    requires
        old(observer).inv(),
        call_ensures(OrderbookObserver::<B>::handle_price_change, (observer, message, reports), r),
        forall|entries: Seq<JsonModel>| #[trigger]
            holds(message@, "price_changes"@, JsonModel::Array(entries)) ==> entries.len() == 0,
    ensures
        nothing_happens(r, old(observer), final(observer), old(reports)@, final(reports)@),
{
    law_what_is_held_is_found(message@, "price_changes"@, message@);
    let assets = old(observer).assets();
    let books = old(observer).kept();
    let after_books = final(observer).kept();
    let touched = r is Err || r->Ok_0;
    if let Some(entries) = json_items(message@, "price_changes"@) {
        assert(holds(message@, "price_changes"@, JsonModel::Array(entries)));
        let (course, flags) = choose|course: Seq<Map<Seq<char>, B>>, flags: Seq<bool>| #[trigger]
            changes_take(assets, entries, course, flags) && course[0] == books && course.last()
                == after_books && touched == flags.contains(true);
        assert(course.last() == course[0]);
        assert(!flags.contains(true));
    }
    lemma_nothing(r, final(observer), old(reports)@, final(reports)@);
}

// ---------------------------------------------------------------------------
// Many changes
// ---------------------------------------------------------------------------

/// The texts of the warnings among the reports from a place on.
pub open spec fn warnings_from(reports: Seq<Report>, n: int) -> Seq<Seq<char>>
    decreases reports.len(),
{
    if reports.len() <= n || reports.len() == 0 {
        seq![]
    } else {
        let rest = warnings_from(reports.drop_last(), n);
        match reports.last() {
            Report::Warning(text) => rest.push(text@),
            _ => rest,
        }
    }
}

/// What is told of a message are warnings, and at the end the books if they are published.
pub open spec fn warns_and_publishes<B: OrderbookLike>(
    r: Result<bool, Overflow>,
    observer: &OrderbookObserver<B>,
    before: Seq<Report>,
    after: Seq<Report>,
) -> bool {
    let last = if r == Ok::<bool, Overflow>(true) {
        after.len() - 1
    } else {
        after.len() as int
    };
    &&& before.len() <= last
    &&& forall|i: int| 0 <= i < before.len() ==> (#[trigger] after[i])@ == before[i]@
    &&& forall|i: int| before.len() <= i < last ==> #[trigger] after[i] is Warning
    &&& r is Err ==> !all_showable(observer.assets(), observer.kept())
    &&& r == Ok::<bool, Overflow>(true) ==> all_showable(observer.assets(), observer.kept())
        && after.last() is Published && publishes(
        after.last()->Published_0,
        observer.verbose(),
        observer.assets(),
        observer.kept(),
    )
}

/// The texts of warnings.
spec fn texts_of(warnings: Seq<ReportModel>) -> Seq<Seq<char>> {
    warnings.map_values(|report: ReportModel| report->Warning_0)
}

spec fn only_warnings(warnings: Seq<ReportModel>) -> bool {
    forall|i: int| 0 <= i < warnings.len() ==> #[trigger] warnings[i] is Warning
}

proof fn lemma_only_warnings<B: OrderbookLike>(
    assets: Seq<AssetConfig>,
    books: Map<Seq<char>, B>,
    entries: Seq<JsonModel>,
)
    ensures
        only_warnings(change_warnings(assets, books, entries)),
    decreases entries.len(),
{
    if entries.len() > 0 {
        lemma_only_warnings(assets, books, entries.drop_last());
    }
}

proof fn lemma_warnings_read(after: Seq<Report>, n: int, warnings: Seq<ReportModel>)
    requires
        0 <= n,
        n + warnings.len() <= after.len() <= n + warnings.len() + 1,
        only_warnings(warnings),
        forall|i: int|
            0 <= i < warnings.len() ==> (#[trigger] report_models(after)[n + i]) == warnings[i],
        after.len() == n + warnings.len() + 1 ==> after.last() is Published,
    ensures
        warnings_from(after, n) == texts_of(warnings),
    decreases after.len(),
{
    let m = after.len() - 1;
    if after.len() == n + warnings.len() + 1 {
        let rest = after.drop_last();
        assert forall|i: int| 0 <= i < warnings.len() implies (#[trigger] report_models(rest)[n
            + i]) == warnings[i] by {
            assert(report_models(after)[n + i] == warnings[i]);
            assert(rest[n + i] == after[n + i]);
        }
        lemma_warnings_read(rest, n, warnings);
    } else if warnings.len() > 0 {
        let rest = after.drop_last();
        let fewer = warnings.drop_last();
        assert forall|i: int| 0 <= i < fewer.len() implies (#[trigger] report_models(rest)[n + i])
            == fewer[i] by {
            assert(report_models(after)[n + i] == warnings[i]);
            assert(rest[n + i] == after[n + i]);
        }
        if rest.len() == n + fewer.len() + 1 {
            assert(false);
        }
        lemma_warnings_read(rest, n, fewer);
        assert(report_models(after)[n + (warnings.len() - 1)] == warnings.last());
        assert(after.last()@ == warnings.last());
        assert(warnings[warnings.len() - 1] is Warning);
        assert(texts_of(warnings) =~= texts_of(fewer).push(warnings.last()->Warning_0));
    } else {
        assert(texts_of(warnings) =~= seq![]);
    }
}

proof fn lemma_warned<B: OrderbookLike>(
    r: Result<bool, Overflow>,
    observer: &OrderbookObserver<B>,
    before: Seq<Report>,
    after: Seq<Report>,
    warnings: Seq<ReportModel>,
)
    requires
        only_warnings(warnings),
        r is Err || r->Ok_0 ==> (r is Ok <==> books_fit(observer.assets(), observer.kept())),
        report_models(after) == report_models(before) + told(
            observer.assets(),
            observer.verbose(),
            warnings,
            observer.kept(),
            r is Ok && r->Ok_0,
        ),
    ensures
        warns_and_publishes(r, observer, before, after),
        warnings_from(after, before.len() as int) == texts_of(warnings),
{
    let n = before.len() as int;
    lemma_all_showable(observer.assets(), observer.kept());
    assert(after.len() == report_models(after).len());
    assert(before.len() == report_models(before).len());
    assert forall|i: int| 0 <= i < before.len() implies (#[trigger] after[i])@
        == before[i]@ by {
        assert(report_models(after)[i] == after[i]@);
        assert(report_models(before)[i] == before[i]@);
    }
    assert forall|i: int| 0 <= i < warnings.len() implies (#[trigger] report_models(after)[n + i])
        == warnings[i] by {}
    assert forall|i: int| n <= i < n + warnings.len() implies #[trigger] after[i] is Warning by {
        assert(report_models(after)[n + (i - n)] == warnings[i - n]);
        assert(report_models(after)[i] == after[i]@);
        assert(warnings[i - n] is Warning);
    }
    if r is Ok && r->Ok_0 {
        let m = after.len() - 1;
        assert(report_models(after)[m] == after[m]@);
        lemma_publishes(
            after[m]->Published_0,
            observer.verbose(),
            observer.assets(),
            observer.kept(),
        );
    }
    lemma_warnings_read(after, n, warnings);
}

proof fn lemma_changes_join<B: OrderbookLike>(
    assets: Seq<AssetConfig>,
    before: Map<Seq<char>, B>,
    first: Seq<JsonModel>,
    between: Map<Seq<char>, B>,
    early: bool,
    second: Seq<JsonModel>,
    after: Map<Seq<char>, B>,
    late: bool,
)
    requires
        change_entries_give(assets, before, first, between, early),
        change_entries_give(assets, between, second, after, late),
    ensures
        change_entries_give(assets, before, first + second, after, early || late),
        change_warnings(assets, before, second) == change_warnings(assets, between, second),
{
    let (c1, t1) = choose|course: Seq<Map<Seq<char>, B>>, touched: Seq<bool>| #[trigger]
        changes_take(assets, first, course, touched) && course[0] == before && course.last()
            == between && early == touched.contains(true);
    let (c2, t2) = choose|course: Seq<Map<Seq<char>, B>>, touched: Seq<bool>| #[trigger]
        changes_take(assets, second, course, touched) && course[0] == between && course.last()
            == after && late == touched.contains(true);
    let course = c1 + c2.drop_first();
    let touched = t1 + t2;
    let all = first + second;
    let n = first.len() as int;
    assert(forall|i: int| 0 <= i < c2.len() ==> #[trigger] course[n + i] == c2[i]);
    assert(forall|i: int| 0 <= i < c1.len() ==> #[trigger] course[i] == c1[i]);
    assert forall|i: int| 0 <= i < all.len() implies #[trigger] change_entry_gives(
        assets,
        course[i],
        all[i],
        course[i + 1],
        touched[i],
    ) by {
        if i < n {
            assert(change_entry_gives(assets, c1[i], first[i], c1[i + 1], t1[i]));
        } else {
            let j = i - n;
            assert(change_entry_gives(assets, c2[j], second[j], c2[j + 1], t2[j]));
            assert(course[n + j] == c2[j] && course[n + (j + 1)] == c2[j + 1]);
        }
    }
    assert(changes_take(assets, all, course, touched));
    assert(touched.contains(true) == (t1.contains(true) || t2.contains(true))) by {
        if t1.contains(true) {
            let i = choose|i: int| 0 <= i < t1.len() && t1[i];
            assert(touched[i]);
        }
        if t2.contains(true) {
            let i = choose|i: int| 0 <= i < t2.len() && t2[i];
            assert(touched[n + i]);
        }
        if touched.contains(true) {
            let i = choose|i: int| 0 <= i < touched.len() && touched[i];
            if i < n {
                assert(t1[i]);
            } else {
                assert(t2[i - n]);
            }
        }
    }
    lemma_warnings_stay(assets, first, c1, t1, second);
}

proof fn lemma_warnings_stay<B: OrderbookLike>(
    assets: Seq<AssetConfig>,
    first: Seq<JsonModel>,
    course: Seq<Map<Seq<char>, B>>,
    touched: Seq<bool>,
    second: Seq<JsonModel>,
)
    requires
        changes_take(assets, first, course, touched),
    ensures
        change_warnings(assets, course[0], second) == change_warnings(
            assets,
            course.last(),
            second,
        ),
    decreases second.len(),
{
    if second.len() > 0 {
        lemma_warnings_stay(assets, first, course, touched, second.drop_last());
        lemma_warnings_kept(assets, first, course, touched, second.last(), course.len() - 1);
    }
}

/// What is told of a list of changes are warnings, and at the end the books if they are
/// published.
pub proof fn law_changes_are_told<B: OrderbookLike>(
    observer: &mut OrderbookObserver<B>,
    message: &Json,
    reports: &mut Vec<Report>,
    r: Result<bool, Overflow>,
)
    requires
        old(observer).inv(),
        call_ensures(OrderbookObserver::<B>::handle_price_change, (observer, message, reports), r),
    ensures
        final(observer).inv(),
        same_watch(old(observer), final(observer)),
        warns_and_publishes(r, final(observer), old(reports)@, final(reports)@),
{
    let assets = old(observer).assets();
    let books = old(observer).kept();
    let warnings = price_change_warnings(assets, books, message@);
    if let Some(entries) = json_items(message@, "price_changes"@) {
        lemma_only_warnings(assets, books, entries);
    }
    lemma_warned(r, final(observer), old(reports)@, final(reports)@, warnings);
}

/// A list of changes does what its parts do one after the other: the books are alike in the
/// end, the warnings are those about the first part and then those about the second, and
/// what is shown is touched if one of the parts touches it.
pub proof fn law_changes_one_after_the_other<B: OrderbookLike>(
    whole: &mut OrderbookObserver<B>,
    message: &Json,
    reports: &mut Vec<Report>,
    r: Result<bool, Overflow>,
    first: &mut OrderbookObserver<B>,
    first_message: &Json,
    first_reports: &mut Vec<Report>,
    first_r: Result<bool, Overflow>,
    second: &mut OrderbookObserver<B>,
    second_message: &Json,
    second_reports: &mut Vec<Report>,
    second_r: Result<bool, Overflow>,
    a: Seq<JsonModel>,
    b: Seq<JsonModel>,
)
    requires
        old(whole).inv(),
        *old(first) == *old(whole),
        *old(second) == *final(first),
        holds(message@, "price_changes"@, JsonModel::Array(a + b)),
        holds(first_message@, "price_changes"@, JsonModel::Array(a)),
        holds(second_message@, "price_changes"@, JsonModel::Array(b)),
        call_ensures(OrderbookObserver::<B>::handle_price_change, (whole, message, reports), r),
        call_ensures(
            OrderbookObserver::<B>::handle_price_change,
            (first, first_message, first_reports),
            first_r,
        ),
        call_ensures(
            OrderbookObserver::<B>::handle_price_change,
            (second, second_message, second_reports),
            second_r,
        ),
    ensures
        alike_books(final(whole).kept(), final(second).kept()),
        (r is Err || r->Ok_0) == (first_r is Err || first_r->Ok_0 || second_r is Err
            || second_r->Ok_0),
        warnings_from(final(reports)@, old(reports)@.len() as int) == warnings_from(
            final(first_reports)@,
            old(first_reports)@.len() as int,
        ) + warnings_from(final(second_reports)@, old(second_reports)@.len() as int),
{
    let assets = old(whole).assets();
    let books = old(whole).kept();
    let between = final(first).kept();
    law_what_is_held_is_found(message@, "price_changes"@, message@);
    law_what_is_held_is_found(first_message@, "price_changes"@, message@);
    law_what_is_held_is_found(second_message@, "price_changes"@, message@);
    assert(json_items(message@, "price_changes"@) == Some(a + b));
    assert(json_items(first_message@, "price_changes"@) == Some(a));
    assert(json_items(second_message@, "price_changes"@) == Some(b));
    let early = first_r is Err || first_r->Ok_0;
    let late = second_r is Err || second_r->Ok_0;
    lemma_changes_join(
        assets,
        books,
        a,
        between,
        early,
        b,
        final(second).kept(),
        late,
    );
    lemma_alike_books(books);
    law_price_change_is_determined(
        assets,
        books,
        books,
        message@,
        final(whole).kept(),
        r is Err || r->Ok_0,
        final(second).kept(),
        early || late,
    );
    lemma_only_warnings(assets, books, a + b);
    lemma_only_warnings(assets, books, a);
    lemma_only_warnings(assets, between, b);
    lemma_warned(
        r,
        final(whole),
        old(reports)@,
        final(reports)@,
        change_warnings(assets, books, a + b),
    );
    lemma_warned(
        first_r,
        final(first),
        old(first_reports)@,
        final(first_reports)@,
        change_warnings(assets, books, a),
    );
    lemma_warned(
        second_r,
        final(second),
        old(second_reports)@,
        final(second_reports)@,
        change_warnings(assets, between, b),
    );
    lemma_warnings_joined(assets, books, a, b);
    assert(texts_of(change_warnings(assets, books, a + b)) =~= texts_of(
        change_warnings(assets, books, a),
    ) + texts_of(change_warnings(assets, between, b)));
}

// ---------------------------------------------------------------------------
// Snapshots
// ---------------------------------------------------------------------------

/// The levels of a book, if there is one: bids and asks.
pub open spec fn listed_for<B: OrderbookLike>(
    books: Map<Seq<char>, B>,
    id: Seq<char>,
) -> (Seq<Level>, Seq<Level>) {
    if books.contains_key(id) {
        (books[id].bid_levels(), books[id].ask_levels())
    } else {
        (seq![], seq![])
    }
}

/// Sides of which the shown levels are the same have the same best five.
proof fn lemma_shown_alike(a: Seq<Level>, b: Seq<Level>)
    ensures
        same_levels(shown(a), shown(b)) <==> first_five_alike(a, b),
{
    assert(forall|i: int| 0 <= i < shown(a).len() ==> #[trigger] shown(a)[i] == a[i]);
    assert(forall|i: int| 0 <= i < shown(b).len() ==> #[trigger] shown(b)[i] == b[i]);
    if same_levels(shown(a), shown(b)) {
        assert forall|i: int| 0 <= i < 5 implies #[trigger] alike_at(a, b, i) by {
            if i < a.len() && i < b.len() {
                assert(same_level(shown(a)[i], shown(b)[i]));
            }
        }
    }
    if first_five_alike(a, b) {
        assert(shown(a).len() == shown(b).len()) by {
            let i = if a.len() < b.len() {
                a.len() as int
            } else {
                b.len() as int
            };
            if i < 5 {
                assert(alike_at(a, b, i));
            }
        }
        assert forall|i: int| 0 <= i < shown(a).len() implies same_level(
            #[trigger] shown(a)[i],
            shown(b)[i],
        ) by {
            assert(alike_at(a, b, i));
        }
    }
}

/// A whole snapshot of an observed asset gives it a book, or replaces the one it has, and
/// leaves every other alone. Where it names no price twice and no empty level, the book
/// lists at every price what the snapshot names there and nothing else. The books are
/// published once where the best five of a side are others than before.
pub proof fn law_snapshot_message<B: OrderbookLike>(
    observer: &mut OrderbookObserver<B>,
    message: &Json,
    reports: &mut Vec<Report>,
    r: Result<bool, Overflow>,
    id: Seq<char>,
    bids: Seq<Level>,
    asks: Seq<Level>,
)
    requires
        old(observer).inv(),
        call_ensures(OrderbookObserver::<B>::handle_book, (observer, message, reports), r),
        names_snapshot(message@, id, bids, asks),
        watches(old(observer).assets(), id),
    ensures
        final(observer).inv(),
        same_watch(old(observer), final(observer)),
        others_stay(old(observer).kept(), final(observer).kept(), id),
        final(observer).kept().contains_key(id),
        ({
            let (old_bids, old_asks) = listed_for(old(observer).kept(), id);
            let after = final(observer).kept()[id];
            let touched = !(first_five_alike(old_bids, after.bid_levels()) && first_five_alike(
                old_asks,
                after.ask_levels(),
            ));
            &&& descending(after.bid_levels())
            &&& ascending(after.ask_levels())
            &&& listable(bids) ==> after.regular(Side::Bid) && forall|value: int| #[trigger]
                at_price(after.bid_levels(), value) == at_price(bids, value)
            &&& listable(asks) ==> after.regular(Side::Ask) && forall|value: int| #[trigger]
                at_price(after.ask_levels(), value) == at_price(asks, value)
            &&& tells(touched, r, final(observer), old(reports)@, final(reports)@)
        }),
{
    let assets = old(observer).assets();
    let books = old(observer).kept();
    let after_books = final(observer).kept();
    let touched = r is Err || r->Ok_0;
    law_snapshot_is_the_one_named(message@);
    lemma_watches(assets, id);
    assert(book_message_gives(assets, books, message@, after_books, touched));
    assert(after_books.contains_key(id));
    let after = after_books[id];
    let (old_bids, old_asks) = listed_for(books, id);
    lemma_snapshot_at(bids, asks, &after);
    B::law_ordered(&after);
    lemma_directions(after.bid_levels());
    lemma_directions(after.ask_levels());
    lemma_shown_alike(old_bids, after.bid_levels());
    lemma_shown_alike(old_asks, after.ask_levels());
    assert(asset_levels(books, id, Side::Bid) == old_bids);
    assert(asset_levels(books, id, Side::Ask) == old_asks);
    lemma_told(touched, r, final(observer), old(reports)@, final(reports)@);
}

/// A message that is no whole snapshot, or one of an asset that is not observed, does
/// nothing when it is handled as a snapshot.
pub proof fn law_snapshot_of_no_concern<B: OrderbookLike>(
    observer: &mut OrderbookObserver<B>,
    message: &Json,
    reports: &mut Vec<Report>,
    r: Result<bool, Overflow>,
)
    requires
        old(observer).inv(),
        call_ensures(OrderbookObserver::<B>::handle_book, (observer, message, reports), r),
        forall|id: Seq<char>, bids: Seq<Level>, asks: Seq<Level>| #[trigger]
            names_snapshot(message@, id, bids, asks) ==> !watches(old(observer).assets(), id),
    ensures
        nothing_happens(r, old(observer), final(observer), old(reports)@, final(reports)@),
{
    law_snapshot_is_the_one_named(message@);
    if let Some(snapshot) = parsed_snapshot(message@) {
        assert(names_snapshot(message@, snapshot.asset_id, snapshot.bids, snapshot.asks));
        lemma_watches(old(observer).assets(), snapshot.asset_id);
    }
    lemma_nothing(r, final(observer), old(reports)@, final(reports)@);
}

/// A snapshot message leaves the book that applying its levels leaves, whatever they are
/// and to whatever book they are applied.
pub proof fn law_snapshot_message_applies<B: OrderbookLike>(
    observer: &mut OrderbookObserver<B>,
    message: &Json,
    reports: &mut Vec<Report>,
    r: Result<bool, Overflow>,
    id: Seq<char>,
    book: &mut B,
    bids: Vec<Level>,
    asks: Vec<Level>,
    done: (),
)
    requires
        old(observer).inv(),
        call_ensures(OrderbookObserver::<B>::handle_book, (observer, message, reports), r),
        names_snapshot(message@, id, bids@, asks@),
        watches(old(observer).assets(), id),
        call_ensures(B::apply_snapshot, (book, bids, asks), done),
    ensures
        final(observer).kept().contains_key(id),
        final(observer).kept()[id].alike(final(book)),
{
    law_snapshot_is_the_one_named(message@);
    lemma_watches(old(observer).assets(), id);
    let after = final(observer).kept()[id];
    let other = *final(book);
    B::law_same_snapshot(bids@, asks@, &after, &other);
}

/// A list of one change leaves the book that applying the change leaves.
pub proof fn law_one_change_applies<B: OrderbookLike>(
    observer: &mut OrderbookObserver<B>,
    message: &Json,
    reports: &mut Vec<Report>,
    r: Result<bool, Overflow>,
    entry: JsonModel,
    id: Seq<char>,
    book: &mut B,
    side: Side,
    price: Price,
    size: Quantity,
    done: (),
)
    requires
        old(observer).inv(),
        call_ensures(OrderbookObserver::<B>::handle_price_change, (observer, message, reports), r),
        holds(message@, "price_changes"@, JsonModel::Array(seq![entry])),
        names_change(entry, id, side, price, size),
        watches(old(observer).assets(), id),
        old(observer).kept().contains_key(id),
        old(observer).kept()[id].alike(old(book)),
        call_ensures(B::apply_price_change, (book, side, price, size), done),
    ensures
        final(observer).kept().contains_key(id),
        final(observer).kept()[id].alike(final(book)),
{
    let assets = old(observer).assets();
    let books = old(observer).kept();
    let after_books = final(observer).kept();
    let touched = r is Err || r->Ok_0;
    law_what_is_held_is_found(message@, "price_changes"@, message@);
    law_change_is_the_one_named(entry);
    lemma_watches(assets, id);
    assert(json_items(message@, "price_changes"@) == Some(seq![entry]));
    lemma_one_change(assets, books, entry, after_books, touched);
    assert(change_entry_gives(assets, books, entry, after_books, touched));
    let before = books[id];
    let after = after_books[id];
    let other = *old(book);
    let other_after = *final(book);
    B::law_same_change(&before, &other, side, price, size, &after, &other_after);
}

// ---------------------------------------------------------------------------
// Messages of any kind
// ---------------------------------------------------------------------------

/// Both calls did the same: the books are alike, and the same was told.
pub open spec fn same_outcome<B: OrderbookLike>(
    a: &OrderbookObserver<B>,
    told_a: Seq<Report>,
    b: &OrderbookObserver<B>,
    told_b: Seq<Report>,
) -> bool {
    &&& same_watch(a, b)
    &&& alike_books(a.kept(), b.kept())
    &&& reports_grow(told_a, told_b, 0)
}

pub proof fn lemma_same_reports(a: Seq<Report>, b: Seq<Report>)
    requires
        report_models(a) == report_models(b),
    ensures
        reports_grow(a, b, 0),
{
    assert(a.len() == report_models(a).len());
    assert(b.len() == report_models(b).len());
    assert forall|i: int| 0 <= i < a.len() implies (#[trigger] b[i])@ == a[i]@ by {
        assert(report_models(a)[i] == a[i]@);
        assert(report_models(b)[i] == b[i]@);
    }
}

/// A message of kind "book" is handled as a snapshot.
pub proof fn law_book_messages_are_snapshots<B: OrderbookLike>(
    observer: &mut OrderbookObserver<B>,
    message: &Json,
    reports: &mut Vec<Report>,
    r: Result<bool, Overflow>,
    other: &mut OrderbookObserver<B>,
    other_reports: &mut Vec<Report>,
    other_r: Result<bool, Overflow>,
)
    requires
        old(observer).inv(),
        *old(other) == *old(observer),
        old(other_reports)@ == old(reports)@,
        holds(message@, "event_type"@, JsonModel::Text(seq!['b', 'o', 'o', 'k'])),
        call_ensures(
            OrderbookObserver::<B>::handle_single_message,
            (observer, message, reports),
            r,
        ),
        call_ensures(OrderbookObserver::<B>::handle_book, (other, message, other_reports), other_r),
    ensures
        r is Ok == other_r is Ok,
        r is Ok ==> r->Ok_0 == other_r->Ok_0,
        same_outcome(final(observer), final(reports)@, final(other), final(other_reports)@),
{
    let assets = old(observer).assets();
    let books = old(observer).kept();
    reveal_strlit("book");
    assert("book"@ =~= seq!['b', 'o', 'o', 'k']);
    law_what_is_held_is_found(message@, "event_type"@, message@);
    law_message_goes_by_its_kind(
        assets,
        books,
        message@,
        final(observer).kept(),
        r is Err || r->Ok_0,
    );
    lemma_alike_books(books);
    law_snapshot_is_determined(
        assets,
        books,
        books,
        message@,
        final(observer).kept(),
        r is Err || r->Ok_0,
        final(other).kept(),
        other_r is Err || other_r->Ok_0,
    );
    law_publication_is_determined(
        assets,
        old(observer).verbose(),
        final(observer).kept(),
        final(other).kept(),
    );
    lemma_same_reports(final(reports)@, final(other_reports)@);
}

/// A message of kind "price_change" is handled as a list of changes.
pub proof fn law_price_change_messages_are_changes<B: OrderbookLike>(
    observer: &mut OrderbookObserver<B>,
    message: &Json,
    reports: &mut Vec<Report>,
    r: Result<bool, Overflow>,
    other: &mut OrderbookObserver<B>,
    other_reports: &mut Vec<Report>,
    other_r: Result<bool, Overflow>,
)
    requires
        old(observer).inv(),
        *old(other) == *old(observer),
        old(other_reports)@ == old(reports)@,
        holds(
            message@,
            "event_type"@,
            JsonModel::Text(seq!['p', 'r', 'i', 'c', 'e', '_', 'c', 'h', 'a', 'n', 'g', 'e']),
        ),
        call_ensures(
            OrderbookObserver::<B>::handle_single_message,
            (observer, message, reports),
            r,
        ),
        call_ensures(
            OrderbookObserver::<B>::handle_price_change,
            (other, message, other_reports),
            other_r,
        ),
    ensures
        r is Ok == other_r is Ok,
        r is Ok ==> r->Ok_0 == other_r->Ok_0,
        same_outcome(final(observer), final(reports)@, final(other), final(other_reports)@),
{
    let assets = old(observer).assets();
    let books = old(observer).kept();
    reveal_strlit("book");
    reveal_strlit("price_change");
    assert("price_change"@ =~= seq![
        'p',
        'r',
        'i',
        'c',
        'e',
        '_',
        'c',
        'h',
        'a',
        'n',
        'g',
        'e',
    ]);
    assert("book"@.len() != "price_change"@.len());
    law_what_is_held_is_found(message@, "event_type"@, message@);
    law_message_goes_by_its_kind(
        assets,
        books,
        message@,
        final(observer).kept(),
        r is Err || r->Ok_0,
    );
    lemma_alike_books(books);
    law_price_change_is_determined(
        assets,
        books,
        books,
        message@,
        final(observer).kept(),
        r is Err || r->Ok_0,
        final(other).kept(),
        other_r is Err || other_r->Ok_0,
    );
    law_publication_is_determined(
        assets,
        old(observer).verbose(),
        final(observer).kept(),
        final(other).kept(),
    );
    lemma_same_reports(final(reports)@, final(other_reports)@);
}

/// A message of any other kind, or of none, does nothing.
pub proof fn law_other_messages_do_nothing<B: OrderbookLike>(
    observer: &mut OrderbookObserver<B>,
    message: &Json,
    reports: &mut Vec<Report>,
    r: Result<bool, Overflow>,
)
    requires
        old(observer).inv(),
        call_ensures(
            OrderbookObserver::<B>::handle_single_message,
            (observer, message, reports),
            r,
        ),
        !holds(message@, "event_type"@, JsonModel::Text("book"@)),
        !holds(message@, "event_type"@, JsonModel::Text("price_change"@)),
    ensures
        nothing_happens(r, old(observer), final(observer), old(reports)@, final(reports)@),
{
    law_what_is_held_is_found(message@, "event_type"@, message@);
    lemma_nothing(r, final(observer), old(reports)@, final(reports)@);
}

} // verus!
