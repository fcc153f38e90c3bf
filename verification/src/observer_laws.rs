//! What holds of the observer, whichever kind of book it keeps.

use crate::basic_orderbook::{same_levels, OrderbookLike, Side};
use crate::display::shown;
use crate::feed::{parsed_change, parsed_snapshot};
use crate::json::{json_items, json_text, JsonModel};
use crate::ladder::{distinct_prices, no_empty_level, pool_limit, sorted_ladder};
use crate::observer::{
    asset_levels, book_message_gives, books_fit, change_entries_give, change_entry_gives,
    change_warnings, changes_take, course_fits, entry_warnings, lemma_changes_keep,
    lemma_reports_kept, lemma_warnings_kept, message_gives, message_warnings, messages_give,
    messages_take, observed, price_change_gives, price_change_warnings, printed_books, published,
    reports_of, shown_books, told, usable_change, AssetConfig, ReportModel,
};
use vstd::prelude::*;

verus! {

/// A message goes by its kind: a snapshot, a list of changes, or none of the two, which
/// changes nothing and is not told of.
pub proof fn law_message_goes_by_its_kind<B: OrderbookLike>(
    assets: Seq<AssetConfig>,
    before: Map<Seq<char>, B>,
    message: JsonModel,
    after: Map<Seq<char>, B>,
    anew: bool,
)
    ensures
        json_text(message, "event_type"@) == Some("book"@) ==> {
            &&& message_gives(assets, before, message, after, anew) <==> book_message_gives(
                assets,
                before,
                message,
                after,
                anew,
            )
            &&& message_warnings(assets, before, message) == Seq::<ReportModel>::empty()
        },
        json_text(message, "event_type"@) == Some("price_change"@) ==> {
            &&& message_gives(assets, before, message, after, anew) <==> price_change_gives(
                assets,
                before,
                message,
                after,
                anew,
            )
            &&& message_warnings(assets, before, message) == price_change_warnings(
                assets,
                before,
                message,
            )
        },
        json_text(message, "event_type"@) != Some("book"@) && json_text(message, "event_type"@)
            != Some("price_change"@) ==> {
            &&& message_gives(assets, before, message, after, anew) <==> after == before && !anew
            &&& message_warnings(assets, before, message) == Seq::<ReportModel>::empty()
        },
{
    reveal_strlit("book");
    reveal_strlit("price_change");
    assert("book"@.len() != "price_change"@.len());
}

/// A message leaves alone what is not observed.
pub proof fn law_unobserved_assets_are_ignored<B: OrderbookLike>(
    assets: Seq<AssetConfig>,
    before: Map<Seq<char>, B>,
    message: JsonModel,
    after: Map<Seq<char>, B>,
    anew: bool,
    id: Seq<char>,
)
    requires
        message_gives(assets, before, message, after, anew),
        !observed(assets, id),
    ensures
        after.contains_key(id) == before.contains_key(id),
        before.contains_key(id) ==> after[id] == before[id],
{
    if let Some(entries) = json_items(message, "price_changes"@) {
        if change_entries_give(assets, before, entries, after, anew) {
            let (course, touched) = choose|course: Seq<Map<Seq<char>, B>>, touched: Seq<bool>|
                #[trigger]
                changes_take(assets, entries, course, touched) && course[0] == before
                    && course.last() == after && anew == touched.contains(true);
            lemma_changes_keep(assets, entries, course, touched, id, course.len() - 1);
        }
    }
}

/// A message that is no snapshot creates no book: changes that come before the first
/// snapshot of an asset are dropped.
pub proof fn law_only_snapshots_create_books<B: OrderbookLike>(
    assets: Seq<AssetConfig>,
    before: Map<Seq<char>, B>,
    message: JsonModel,
    after: Map<Seq<char>, B>,
    anew: bool,
)
    requires
        message_gives(assets, before, message, after, anew),
        json_text(message, "event_type"@) != Some("book"@),
    ensures
        after.dom() == before.dom(),
{
    if let Some(entries) = json_items(message, "price_changes"@) {
        if change_entries_give(assets, before, entries, after, anew) {
            let (course, touched) = choose|course: Seq<Map<Seq<char>, B>>, touched: Seq<bool>|
                #[trigger]
                changes_take(assets, entries, course, touched) && course[0] == before
                    && course.last() == after && anew == touched.contains(true);
            assert forall|id: Seq<char>| after.dom().contains(id) == before.dom().contains(id) by {
                lemma_changes_keep(assets, entries, course, touched, id, course.len() - 1);
            }
        }
    }
    assert(after.dom() =~= before.dom());
}

/// A snapshot that is not whole, or of an asset that is not observed, changes nothing
/// and publishes nothing.
pub proof fn law_unusable_snapshot_is_ignored<B: OrderbookLike>(
    assets: Seq<AssetConfig>,
    before: Map<Seq<char>, B>,
    message: JsonModel,
    after: Map<Seq<char>, B>,
    anew: bool,
)
    requires
        book_message_gives(assets, before, message, after, anew),
        match parsed_snapshot(message) {
            Some(snapshot) => !observed(assets, snapshot.asset_id),
            None => true,
        },
    ensures
        after == before,
        !anew,
{
}

/// A snapshot touches the book of its asset alone. That book lists what any other book
/// lists after the same snapshot, a new one say: nothing is left of what it listed before.
/// Where the snapshot names no price twice and no empty level, it lists its levels in
/// order, and nothing else.
pub proof fn law_snapshot_is_kept<B: OrderbookLike>(
    assets: Seq<AssetConfig>,
    before: Map<Seq<char>, B>,
    message: JsonModel,
    after: Map<Seq<char>, B>,
    anew: bool,
    id: Seq<char>,
    fresh: B,
)
    requires
        book_message_gives(assets, before, message, after, anew),
        parsed_snapshot(message) is Some,
        observed(assets, parsed_snapshot(message)->0.asset_id),
    ensures
        ({
            let snapshot = parsed_snapshot(message)->0;
            let asset_id = snapshot.asset_id;
            &&& after.contains_key(asset_id)
            &&& B::snapshot_gives(snapshot.bids, snapshot.asks, &fresh) ==> {
                &&& after[asset_id].alike(&fresh)
                &&& after[asset_id].bid_levels() == fresh.bid_levels()
                &&& after[asset_id].ask_levels() == fresh.ask_levels()
            }
            &&& id != asset_id ==> after.contains_key(id) == before.contains_key(id)
            &&& id != asset_id && before.contains_key(id) ==> after[id] == before[id]
            &&& distinct_prices(snapshot.bids) && no_empty_level(snapshot.bids)
                && snapshot.bids.len() <= pool_limit() ==> after[asset_id].bid_levels()
                == sorted_ladder(true, snapshot.bids)
            &&& distinct_prices(snapshot.asks) && no_empty_level(snapshot.asks)
                && snapshot.asks.len() <= pool_limit() ==> after[asset_id].ask_levels()
                == sorted_ladder(false, snapshot.asks)
        }),
{
    let snapshot = parsed_snapshot(message)->0;
    let book = after[snapshot.asset_id];
    B::law_snapshot(snapshot.bids, snapshot.asks, &book);
    if B::snapshot_gives(snapshot.bids, snapshot.asks, &fresh) {
        B::law_same_snapshot(snapshot.bids, snapshot.asks, &book, &fresh);
        B::law_alike(&book, &fresh, &fresh);
    }
}

/// One message is warned of, and after it the books are published once if the levels
/// that are shown changed.
pub proof fn law_single_message<B: OrderbookLike>(
    assets: Seq<AssetConfig>,
    verbose: bool,
    before: Map<Seq<char>, B>,
    message: JsonModel,
    after: Map<Seq<char>, B>,
    reports: Seq<ReportModel>,
)
    ensures
        messages_give(assets, verbose, before, seq![message], after, reports) <==> exists|
            anew: bool,
        | #[trigger]
            message_gives(assets, before, message, after, anew) && (anew ==> books_fit(
                assets,
                after,
            )) && reports == told(
                assets,
                verbose,
                message_warnings(assets, before, message),
                after,
                anew,
            ),
{
    let messages = seq![message];
    let warnings = message_warnings(assets, before, message);
    reveal_with_fuel(reports_of, 2);
    if messages_give(assets, verbose, before, messages, after, reports) {
        let (course, anew) = choose|course: Seq<Map<Seq<char>, B>>, anew: Seq<bool>| #[trigger]
            messages_take(assets, messages, course, anew) && course[0] == before && course.last()
                == after && course_fits(assets, course, anew) && reports == reports_of(
                assets,
                verbose,
                messages,
                course,
                anew,
                messages.len(),
            );
        assert(message_gives(assets, course[0], messages[0], course[0int + 1], anew[0]));
        assert(reports =~= told(assets, verbose, warnings, after, anew[0]));
    }
    if exists|anew: bool| #[trigger]
        message_gives(assets, before, message, after, anew) && (anew ==> books_fit(assets, after))
            && reports == told(assets, verbose, warnings, after, anew) {
        let last = choose|anew: bool| #[trigger]
            message_gives(assets, before, message, after, anew) && (anew ==> books_fit(
                assets,
                after,
            )) && reports == told(assets, verbose, warnings, after, anew);
        let course = seq![before, after];
        let anew = seq![last];
        assert(messages_take(assets, messages, course, anew));
        assert(reports =~= reports_of(assets, verbose, messages, course, anew, 1));
    }
}

/// A snapshot that can be used is published once if it changes the levels that are shown
/// of its asset, and else not.
pub proof fn law_snapshot_is_published<B: OrderbookLike>(
    assets: Seq<AssetConfig>,
    verbose: bool,
    before: Map<Seq<char>, B>,
    message: JsonModel,
    after: Map<Seq<char>, B>,
    reports: Seq<ReportModel>,
)
    requires
        messages_give(assets, verbose, before, seq![message], after, reports),
        json_text(message, "event_type"@) == Some("book"@),
        parsed_snapshot(message) is Some,
        observed(assets, parsed_snapshot(message)->0.asset_id),
    ensures
        ({
            let id = parsed_snapshot(message)->0.asset_id;
            let same = same_levels(
                shown(asset_levels(before, id, Side::Bid)),
                shown(asset_levels(after, id, Side::Bid)),
            ) && same_levels(
                shown(asset_levels(before, id, Side::Ask)),
                shown(asset_levels(after, id, Side::Ask)),
            );
            reports == (if same {
                seq![]
            } else {
                seq![ReportModel::Published(published(assets, verbose, after))]
            })
        }),
{
    law_single_message(assets, verbose, before, message, after, reports);
    reveal_strlit("book");
    reveal_strlit("price_change");
    assert("book"@.len() != "price_change"@.len());
    let anew = choose|anew: bool| #[trigger]
        message_gives(assets, before, message, after, anew) && (anew ==> books_fit(assets, after))
            && reports == told(
            assets,
            verbose,
            message_warnings(assets, before, message),
            after,
            anew,
        );
    assert(reports =~= (if anew {
        seq![ReportModel::Published(published(assets, verbose, after))]
    } else {
        seq![]
    }));
}

/// The same snapshot twice running publishes nothing the second time.
pub proof fn law_repeated_snapshot_is_silent<B: OrderbookLike>(
    assets: Seq<AssetConfig>,
    before: Map<Seq<char>, B>,
    message: JsonModel,
    between: Map<Seq<char>, B>,
    first: bool,
    after: Map<Seq<char>, B>,
    second: bool,
)
    requires
        book_message_gives(assets, before, message, between, first),
        book_message_gives(assets, between, message, after, second),
    ensures
        !second,
        alike_books(between, after),
{
    lemma_alike_books(between);
    if let Some(snapshot) = parsed_snapshot(message) {
        if observed(assets, snapshot.asset_id) {
            let id = snapshot.asset_id;
            B::law_same_snapshot(snapshot.bids, snapshot.asks, &between[id], &after[id]);
            B::law_alike(&between[id], &after[id], &after[id]);
            assert(between.insert(id, between[id]) =~= between);
            assert(alike_books(between.insert(id, between[id]), between.insert(id, after[id])));
        }
    }
}

/// A first snapshot without levels creates the book of its asset, and publishes nothing.
pub proof fn law_first_empty_snapshot_is_silent<B: OrderbookLike>(
    assets: Seq<AssetConfig>,
    before: Map<Seq<char>, B>,
    message: JsonModel,
    after: Map<Seq<char>, B>,
    anew: bool,
)
    requires
        book_message_gives(assets, before, message, after, anew),
        parsed_snapshot(message) is Some,
        observed(assets, parsed_snapshot(message)->0.asset_id),
        !before.contains_key(parsed_snapshot(message)->0.asset_id),
        parsed_snapshot(message)->0.bids.len() == 0,
        parsed_snapshot(message)->0.asks.len() == 0,
    ensures
        after.contains_key(parsed_snapshot(message)->0.asset_id),
        after[parsed_snapshot(message)->0.asset_id].bid_levels().len() == 0,
        after[parsed_snapshot(message)->0.asset_id].ask_levels().len() == 0,
        !anew,
{
    let snapshot = parsed_snapshot(message)->0;
    B::law_snapshot(snapshot.bids, snapshot.asks, &after[snapshot.asset_id]);
}

// ---------------------------------------------------------------------------
// Changes that cannot be used
// ---------------------------------------------------------------------------

pub proof fn lemma_warnings_joined<B: OrderbookLike>(
    assets: Seq<AssetConfig>,
    books: Map<Seq<char>, B>,
    first: Seq<JsonModel>,
    second: Seq<JsonModel>,
)
    ensures
        change_warnings(assets, books, first + second) == change_warnings(assets, books, first)
            + change_warnings(assets, books, second),
    decreases second.len(),
{
    let all = first + second;
    if second.len() == 0 {
        assert(all =~= first);
    } else {
        assert(all.drop_last() =~= first + second.drop_last());
        lemma_warnings_joined(assets, books, first, second.drop_last());
    }
    assert(change_warnings(assets, books, all) =~= change_warnings(assets, books, first)
        + change_warnings(assets, books, second));
}

proof fn lemma_unusable_left_out<B: OrderbookLike>(
    assets: Seq<AssetConfig>,
    before: Map<Seq<char>, B>,
    entries: Seq<JsonModel>,
    k: int,
    after: Map<Seq<char>, B>,
    anew: bool,
)
    requires
        0 <= k < entries.len(),
        !usable_change(assets, before, entries[k]),
        change_entries_give(assets, before, entries, after, anew),
    ensures
        change_entries_give(assets, before, entries.remove(k), after, anew),
{
    let (course, touched) = choose|course: Seq<Map<Seq<char>, B>>, touched: Seq<bool>| #[trigger]
        changes_take(assets, entries, course, touched) && course[0] == before && course.last()
            == after && anew == touched.contains(true);
    let rest = entries.remove(k);
    let c = course.remove(k);
    let t = touched.remove(k);
    lemma_warnings_kept(assets, entries, course, touched, entries[k], k);
    assert(change_entry_gives(assets, course[k], entries[k], course[k + 1], touched[k]));
    assert(course[k + 1] == course[k] && !touched[k]);
    assert forall|i: int| 0 <= i < rest.len() implies #[trigger] change_entry_gives(
        assets,
        c[i],
        rest[i],
        c[i + 1],
        t[i],
    ) by {
        let j = if i < k {
            i
        } else {
            i + 1
        };
        assert(change_entry_gives(assets, course[j], entries[j], course[j + 1], touched[j]));
    }
    if touched.contains(true) {
        let i = choose|i: int| 0 <= i < touched.len() && touched[i];
        assert(t[if i < k {
            i
        } else {
            i - 1
        }]);
    }
    if t.contains(true) {
        let i = choose|i: int| 0 <= i < t.len() && t[i];
        assert(touched[if i < k {
            i
        } else {
            i + 1
        }]);
    }
    assert(changes_take(assets, rest, c, t));
}

proof fn lemma_unusable_put_in<B: OrderbookLike>(
    assets: Seq<AssetConfig>,
    before: Map<Seq<char>, B>,
    entries: Seq<JsonModel>,
    k: int,
    after: Map<Seq<char>, B>,
    anew: bool,
)
    requires
        0 <= k < entries.len(),
        !usable_change(assets, before, entries[k]),
        change_entries_give(assets, before, entries.remove(k), after, anew),
    ensures
        change_entries_give(assets, before, entries, after, anew),
{
    let rest = entries.remove(k);
    let (course, touched) = choose|course: Seq<Map<Seq<char>, B>>, touched: Seq<bool>| #[trigger]
        changes_take(assets, rest, course, touched) && course[0] == before && course.last()
            == after && anew == touched.contains(true);
    let c = course.insert(k, course[k]);
    let t = touched.insert(k, false);
    lemma_warnings_kept(assets, rest, course, touched, entries[k], k);
    assert forall|i: int| 0 <= i < entries.len() implies #[trigger] change_entry_gives(
        assets,
        c[i],
        entries[i],
        c[i + 1],
        t[i],
    ) by {
        if i < k {
            assert(change_entry_gives(assets, course[i], rest[i], course[i + 1], touched[i]));
        } else if i > k {
            let j = i - 1;
            assert(change_entry_gives(assets, course[j], rest[j], course[j + 1], touched[j]));
        }
    }
    if touched.contains(true) {
        let i = choose|i: int| 0 <= i < touched.len() && touched[i];
        assert(t[if i < k {
            i
        } else {
            i + 1
        }]);
    }
    if t.contains(true) {
        let i = choose|i: int| 0 <= i < t.len() && t[i];
        assert(touched[if i < k {
            i
        } else {
            i - 1
        }]);
    }
    assert(changes_take(assets, entries, c, t));
}

/// A change that cannot be used is skipped alone: the books, and whether they are
/// published, are as if it were left out, and so are the warnings but for its own.
pub proof fn law_unusable_change_is_skipped<B: OrderbookLike>(
    assets: Seq<AssetConfig>,
    before: Map<Seq<char>, B>,
    message: JsonModel,
    k: int,
    shorter: JsonModel,
    after: Map<Seq<char>, B>,
    anew: bool,
)
    requires
        json_items(message, "price_changes"@) is Some,
        0 <= k < json_items(message, "price_changes"@)->0.len(),
        json_items(shorter, "price_changes"@) == Some(
            json_items(message, "price_changes"@)->0.remove(k),
        ),
        !usable_change(assets, before, json_items(message, "price_changes"@)->0[k]),
    ensures
        price_change_gives(assets, before, message, after, anew) <==> price_change_gives(
            assets,
            before,
            shorter,
            after,
            anew,
        ),
        ({
            let entries = json_items(message, "price_changes"@)->0;
            let early = change_warnings(assets, before, entries.take(k));
            let late = change_warnings(assets, before, entries.skip(k + 1));
            &&& price_change_warnings(assets, before, message) == early + entry_warnings(
                assets,
                before,
                entries[k],
            ) + late
            &&& price_change_warnings(assets, before, shorter) == early + late
        }),
{
    let entries = json_items(message, "price_changes"@)->0;
    if change_entries_give(assets, before, entries, after, anew) {
        lemma_unusable_left_out(assets, before, entries, k, after, anew);
    }
    if change_entries_give(assets, before, entries.remove(k), after, anew) {
        lemma_unusable_put_in(assets, before, entries, k, after, anew);
    }
    let first = entries.take(k);
    let one = seq![entries[k]];
    let rest = entries.skip(k + 1);
    lemma_warnings_joined(assets, before, first, rest);
    lemma_warnings_joined(assets, before, first, one);
    lemma_warnings_joined(assets, before, first + one, rest);
    assert(entries.remove(k) =~= first + rest);
    assert(entries =~= first + one + rest);
    reveal_with_fuel(change_warnings, 2);
    assert(one.drop_last() =~= seq![]);
    assert(one.last() == entries[k]);
    assert(change_warnings(assets, before, one) =~= entry_warnings(assets, before, entries[k]));
}

/// Changes leave alone the books of the assets that they do not name.
pub proof fn law_unnamed_books_stay<B: OrderbookLike>(
    assets: Seq<AssetConfig>,
    before: Map<Seq<char>, B>,
    message: JsonModel,
    after: Map<Seq<char>, B>,
    anew: bool,
    id: Seq<char>,
)
    requires
        price_change_gives(assets, before, message, after, anew),
        json_items(message, "price_changes"@) matches Some(entries) ==> forall|i: int|
            0 <= i < entries.len() ==> json_text(#[trigger] entries[i], "asset_id"@) != Some(id),
    ensures
        after.contains_key(id) == before.contains_key(id),
        before.contains_key(id) ==> after[id] == before[id],
{
    if let Some(entries) = json_items(message, "price_changes"@) {
        let (course, touched) = choose|course: Seq<Map<Seq<char>, B>>, touched: Seq<bool>|
            #[trigger]
            changes_take(assets, entries, course, touched) && course[0] == before && course.last()
                == after && anew == touched.contains(true);
        lemma_unnamed_stay(assets, entries, course, touched, id, course.len() - 1);
    }
}

proof fn lemma_unnamed_stay<B: OrderbookLike>(
    assets: Seq<AssetConfig>,
    entries: Seq<JsonModel>,
    course: Seq<Map<Seq<char>, B>>,
    touched: Seq<bool>,
    id: Seq<char>,
    n: int,
)
    requires
        changes_take(assets, entries, course, touched),
        0 <= n < course.len(),
        forall|i: int|
            0 <= i < entries.len() ==> json_text(#[trigger] entries[i], "asset_id"@) != Some(id),
    ensures
        course[n].contains_key(id) == course[0].contains_key(id),
        course[0].contains_key(id) ==> course[n][id] == course[0][id],
    decreases n,
{
    if n > 0 {
        lemma_unnamed_stay(assets, entries, course, touched, id, n - 1);
        assert(change_entry_gives(
            assets,
            course[n - 1],
            entries[n - 1],
            course[n - 1 + 1],
            touched[n - 1],
        ));
        assert(json_text(entries[n - 1], "asset_id"@) != Some(id));
    }
}

// ---------------------------------------------------------------------------
// The same messages do the same
// ---------------------------------------------------------------------------

/// The same assets have books, and each has books that are alike.
pub open spec fn alike_books<B: OrderbookLike>(
    a: Map<Seq<char>, B>,
    b: Map<Seq<char>, B>,
) -> bool {
    &&& a.dom() == b.dom()
    &&& forall|id: Seq<char>| #[trigger] a.contains_key(id) ==> a[id].alike(&b[id])
}

pub proof fn lemma_alike_books<B: OrderbookLike>(a: Map<Seq<char>, B>)
    ensures
        alike_books(a, a),
        forall|b: Map<Seq<char>, B>, id: Seq<char>, x: B, y: B|
            alike_books(a, b) && x.alike(&y) ==> #[trigger] alike_books(
                a.insert(id, x),
                b.insert(id, y),
            ),
{
    assert forall|id: Seq<char>| #[trigger] a.contains_key(id) implies a[id].alike(&a[id]) by {
        B::law_alike(&a[id], &a[id], &a[id]);
    }
    assert forall|b: Map<Seq<char>, B>, id: Seq<char>, x: B, y: B|
        alike_books(a, b) && x.alike(&y) implies #[trigger] alike_books(
        a.insert(id, x),
        b.insert(id, y),
    ) by {
        let a2 = a.insert(id, x);
        let b2 = b.insert(id, y);
        assert(a2.dom() =~= b2.dom());
        assert forall|other: Seq<char>| #[trigger]
            a2.contains_key(other) implies a2[other].alike(&b2[other]) by {
            if other != id {
                assert(a.contains_key(other));
            }
        }
    }
}

/// Books that are alike list the same levels.
pub proof fn lemma_alike_levels<B: OrderbookLike>(
    a: Map<Seq<char>, B>,
    b: Map<Seq<char>, B>,
    id: Seq<char>,
)
    requires
        alike_books(a, b),
    ensures
        a.contains_key(id) == b.contains_key(id),
        a.contains_key(id) ==> a[id].bid_levels() == b[id].bid_levels() && a[id].ask_levels()
            == b[id].ask_levels(),
        asset_levels(a, id, Side::Bid) == asset_levels(b, id, Side::Bid),
        asset_levels(a, id, Side::Ask) == asset_levels(b, id, Side::Ask),
{
    assert(a.dom().contains(id) == b.dom().contains(id));
    if a.contains_key(id) {
        B::law_alike(&a[id], &b[id], &b[id]);
    }
}

proof fn lemma_change_determined<B: OrderbookLike>(
    assets: Seq<AssetConfig>,
    a: Map<Seq<char>, B>,
    b: Map<Seq<char>, B>,
    entry: JsonModel,
    after_a: Map<Seq<char>, B>,
    anew_a: bool,
    after_b: Map<Seq<char>, B>,
    anew_b: bool,
)
    requires
        alike_books(a, b),
        change_entry_gives(assets, a, entry, after_a, anew_a),
        change_entry_gives(assets, b, entry, after_b, anew_b),
    ensures
        alike_books(after_a, after_b),
        anew_a == anew_b,
{
    lemma_alike_books(a);
    if let Some(change) = parsed_change(entry) {
        let id = change.asset_id;
        lemma_alike_levels(a, b, id);
        if observed(assets, id) && a.contains_key(id) {
            B::law_same_change(
                &a[id],
                &b[id],
                change.side,
                change.price,
                change.size,
                &after_a[id],
                &after_b[id],
            );
            assert(alike_books(a.insert(id, after_a[id]), b.insert(id, after_b[id])));
            lemma_alike_levels(after_a, after_b, id);
        }
    }
}

proof fn lemma_changes_determined<B: OrderbookLike>(
    assets: Seq<AssetConfig>,
    entries: Seq<JsonModel>,
    course_a: Seq<Map<Seq<char>, B>>,
    touched_a: Seq<bool>,
    course_b: Seq<Map<Seq<char>, B>>,
    touched_b: Seq<bool>,
    n: int,
)
    requires
        changes_take(assets, entries, course_a, touched_a),
        changes_take(assets, entries, course_b, touched_b),
        alike_books(course_a[0], course_b[0]),
        0 <= n < course_a.len(),
    ensures
        alike_books(course_a[n], course_b[n]),
        forall|i: int| 0 <= i < n ==> touched_a[i] == touched_b[i],
    decreases n,
{
    if n > 0 {
        let i = n - 1;
        lemma_changes_determined(assets, entries, course_a, touched_a, course_b, touched_b, i);
        assert(change_entry_gives(
            assets,
            course_a[i],
            entries[i],
            course_a[i + 1],
            touched_a[i],
        ));
        assert(change_entry_gives(
            assets,
            course_b[i],
            entries[i],
            course_b[i + 1],
            touched_b[i],
        ));
        lemma_change_determined(
            assets,
            course_a[i],
            course_b[i],
            entries[i],
            course_a[n],
            touched_a[i],
            course_b[n],
            touched_b[i],
        );
    }
}

/// The same snapshot does the same to books that are alike.
pub proof fn law_snapshot_is_determined<B: OrderbookLike>(
    assets: Seq<AssetConfig>,
    a: Map<Seq<char>, B>,
    b: Map<Seq<char>, B>,
    message: JsonModel,
    after_a: Map<Seq<char>, B>,
    anew_a: bool,
    after_b: Map<Seq<char>, B>,
    anew_b: bool,
)
    requires
        alike_books(a, b),
        book_message_gives(assets, a, message, after_a, anew_a),
        book_message_gives(assets, b, message, after_b, anew_b),
    ensures
        alike_books(after_a, after_b),
        anew_a == anew_b,
{
    lemma_alike_books(a);
    if let Some(snapshot) = parsed_snapshot(message) {
        let id = snapshot.asset_id;
        if observed(assets, id) {
            lemma_alike_levels(a, b, id);
            B::law_same_snapshot(snapshot.bids, snapshot.asks, &after_a[id], &after_b[id]);
            assert(alike_books(a.insert(id, after_a[id]), b.insert(id, after_b[id])));
            lemma_alike_levels(after_a, after_b, id);
        }
    }
}

/// The same list of changes does the same to books that are alike.
pub proof fn law_price_change_is_determined<B: OrderbookLike>(
    assets: Seq<AssetConfig>,
    a: Map<Seq<char>, B>,
    b: Map<Seq<char>, B>,
    message: JsonModel,
    after_a: Map<Seq<char>, B>,
    anew_a: bool,
    after_b: Map<Seq<char>, B>,
    anew_b: bool,
)
    requires
        alike_books(a, b),
        price_change_gives(assets, a, message, after_a, anew_a),
        price_change_gives(assets, b, message, after_b, anew_b),
    ensures
        alike_books(after_a, after_b),
        anew_a == anew_b,
        price_change_warnings(assets, a, message) == price_change_warnings(assets, b, message),
{
    if let Some(entries) = json_items(message, "price_changes"@) {
        lemma_warnings_determined(assets, a, b, entries);
        let (course_a, touched_a) = choose|course: Seq<Map<Seq<char>, B>>, touched: Seq<bool>|
            #[trigger]
            changes_take(assets, entries, course, touched) && course[0] == a && course.last()
                == after_a && anew_a == touched.contains(true);
        let (course_b, touched_b) = choose|course: Seq<Map<Seq<char>, B>>, touched: Seq<bool>|
            #[trigger]
            changes_take(assets, entries, course, touched) && course[0] == b && course.last()
                == after_b && anew_b == touched.contains(true);
        lemma_changes_determined(
            assets,
            entries,
            course_a,
            touched_a,
            course_b,
            touched_b,
            entries.len() as int,
        );
        assert(touched_a =~= touched_b);
    }
}

/// The same message does the same to books that are alike.
pub proof fn law_message_is_determined<B: OrderbookLike>(
    assets: Seq<AssetConfig>,
    a: Map<Seq<char>, B>,
    b: Map<Seq<char>, B>,
    message: JsonModel,
    after_a: Map<Seq<char>, B>,
    anew_a: bool,
    after_b: Map<Seq<char>, B>,
    anew_b: bool,
)
    requires
        alike_books(a, b),
        message_gives(assets, a, message, after_a, anew_a),
        message_gives(assets, b, message, after_b, anew_b),
    ensures
        alike_books(after_a, after_b),
        anew_a == anew_b,
        message_warnings(assets, a, message) == message_warnings(assets, b, message),
{
    law_message_goes_by_its_kind(assets, a, message, after_a, anew_a);
    law_message_goes_by_its_kind(assets, b, message, after_b, anew_b);
    if json_text(message, "event_type"@) == Some("book"@) {
        law_snapshot_is_determined(assets, a, b, message, after_a, anew_a, after_b, anew_b);
    } else if json_text(message, "event_type"@) == Some("price_change"@) {
        law_price_change_is_determined(assets, a, b, message, after_a, anew_a, after_b, anew_b);
    }
}

proof fn lemma_warnings_determined<B: OrderbookLike>(
    assets: Seq<AssetConfig>,
    a: Map<Seq<char>, B>,
    b: Map<Seq<char>, B>,
    entries: Seq<JsonModel>,
)
    requires
        alike_books(a, b),
    ensures
        change_warnings(assets, a, entries) == change_warnings(assets, b, entries),
    decreases entries.len(),
{
    if entries.len() > 0 {
        lemma_warnings_determined(assets, a, b, entries.drop_last());
        if let Some(change) = parsed_change(entries.last()) {
            lemma_alike_levels(a, b, change.asset_id);
        }
    }
}

/// Of books that are alike a message is warned of in the same way.
pub proof fn lemma_warnings_alike<B: OrderbookLike>(
    assets: Seq<AssetConfig>,
    a: Map<Seq<char>, B>,
    b: Map<Seq<char>, B>,
    message: JsonModel,
)
    requires
        alike_books(a, b),
    ensures
        message_warnings(assets, a, message) == message_warnings(assets, b, message),
{
    if let Some(entries) = json_items(message, "price_changes"@) {
        lemma_warnings_determined(assets, a, b, entries);
    }
}

/// Of books that are alike the same is published.
pub proof fn law_publication_is_determined<B: OrderbookLike>(
    assets: Seq<AssetConfig>,
    verbose: bool,
    a: Map<Seq<char>, B>,
    b: Map<Seq<char>, B>,
)
    requires
        alike_books(a, b),
    ensures
        published(assets, verbose, a) == published(assets, verbose, b),
        books_fit(assets, a) == books_fit(assets, b),
{
    lemma_shown_determined(assets, a, b);
    assert forall|k: int| 0 <= k < assets.len() implies ({
        let id = (#[trigger] assets[k]).id@;
        &&& a.contains_key(id) == b.contains_key(id)
        &&& a.contains_key(id) ==> a[id].bid_levels() == b[id].bid_levels()
        &&& a.contains_key(id) ==> a[id].ask_levels() == b[id].ask_levels()
    }) by {
        lemma_alike_levels(a, b, assets[k].id@);
    }
}

proof fn lemma_shown_determined<B: OrderbookLike>(
    assets: Seq<AssetConfig>,
    a: Map<Seq<char>, B>,
    b: Map<Seq<char>, B>,
)
    requires
        alike_books(a, b),
    ensures
        printed_books(assets, a) == printed_books(assets, b),
        shown_books(assets, a) == shown_books(assets, b),
    decreases assets.len(),
{
    if assets.len() > 0 {
        lemma_shown_determined(assets.drop_last(), a, b);
        lemma_alike_levels(a, b, assets.last().id@);
    }
}

/// The same messages do the same to books that are alike: a feed that is replayed leaves
/// the books that it left live, and the same is told of it.
pub proof fn law_handling_is_determined<B: OrderbookLike>(
    assets: Seq<AssetConfig>,
    verbose: bool,
    messages: Seq<JsonModel>,
    a: Map<Seq<char>, B>,
    after_a: Map<Seq<char>, B>,
    reports_a: Seq<ReportModel>,
    b: Map<Seq<char>, B>,
    after_b: Map<Seq<char>, B>,
    reports_b: Seq<ReportModel>,
)
    requires
        alike_books(a, b),
        messages_give(assets, verbose, a, messages, after_a, reports_a),
        messages_give(assets, verbose, b, messages, after_b, reports_b),
    ensures
        alike_books(after_a, after_b),
        reports_a == reports_b,
{
    let (course_a, anew_a) = choose|course: Seq<Map<Seq<char>, B>>, anew: Seq<bool>| #[trigger]
        messages_take(assets, messages, course, anew) && course[0] == a && course.last() == after_a
            && course_fits(assets, course, anew) && reports_a == reports_of(
            assets,
            verbose,
            messages,
            course,
            anew,
            messages.len(),
        );
    let (course_b, anew_b) = choose|course: Seq<Map<Seq<char>, B>>, anew: Seq<bool>| #[trigger]
        messages_take(assets, messages, course, anew) && course[0] == b && course.last() == after_b
            && course_fits(assets, course, anew) && reports_b == reports_of(
            assets,
            verbose,
            messages,
            course,
            anew,
            messages.len(),
        );
    lemma_course_determined(
        assets,
        verbose,
        messages,
        course_a,
        anew_a,
        course_b,
        anew_b,
        messages.len(),
    );
}

pub proof fn lemma_course_determined<B: OrderbookLike>(
    assets: Seq<AssetConfig>,
    verbose: bool,
    messages: Seq<JsonModel>,
    course_a: Seq<Map<Seq<char>, B>>,
    anew_a: Seq<bool>,
    course_b: Seq<Map<Seq<char>, B>>,
    anew_b: Seq<bool>,
    n: nat,
)
    requires
        messages_take(assets, messages, course_a, anew_a),
        messages_take(assets, messages, course_b, anew_b),
        alike_books(course_a[0], course_b[0]),
        n <= messages.len(),
    ensures
        alike_books(course_a[n as int], course_b[n as int]),
        reports_of(assets, verbose, messages, course_a, anew_a, n) == reports_of(
            assets,
            verbose,
            messages,
            course_b,
            anew_b,
            n,
        ),
    decreases n,
{
    if n > 0 {
        let i = n - 1;
        lemma_course_determined(
            assets,
            verbose,
            messages,
            course_a,
            anew_a,
            course_b,
            anew_b,
            i as nat,
        );
        assert(message_gives(assets, course_a[i], messages[i], course_a[i + 1], anew_a[i]));
        assert(message_gives(assets, course_b[i], messages[i], course_b[i + 1], anew_b[i]));
        law_message_is_determined(
            assets,
            course_a[i],
            course_b[i],
            messages[i],
            course_a[i + 1],
            anew_a[i],
            course_b[i + 1],
            anew_b[i],
        );
        law_publication_is_determined(assets, verbose, course_a[i + 1], course_b[i + 1]);
    }
}

/// An array of messages does what its parts do one after the other.
pub proof fn law_array_is_sequential<B: OrderbookLike>(
    assets: Seq<AssetConfig>,
    verbose: bool,
    before: Map<Seq<char>, B>,
    first: Seq<JsonModel>,
    between: Map<Seq<char>, B>,
    early: Seq<ReportModel>,
    second: Seq<JsonModel>,
    after: Map<Seq<char>, B>,
    late: Seq<ReportModel>,
)
    requires
        messages_give(assets, verbose, before, first, between, early),
        messages_give(assets, verbose, between, second, after, late),
    ensures
        messages_give(assets, verbose, before, first + second, after, early + late),
{
    let (c1, a1) = choose|course: Seq<Map<Seq<char>, B>>, anew: Seq<bool>| #[trigger]
        messages_take(assets, first, course, anew) && course[0] == before && course.last()
            == between && course_fits(assets, course, anew) && early == reports_of(
            assets,
            verbose,
            first,
            course,
            anew,
            first.len(),
        );
    let (c2, a2) = choose|course: Seq<Map<Seq<char>, B>>, anew: Seq<bool>| #[trigger]
        messages_take(assets, second, course, anew) && course[0] == between && course.last()
            == after && course_fits(assets, course, anew) && late == reports_of(
            assets,
            verbose,
            second,
            course,
            anew,
            second.len(),
        );
    let course = c1 + c2.drop_first();
    let anew = a1 + a2;
    let messages = first + second;
    let n = first.len() as int;
    assert(forall|i: int| 0 <= i < c2.len() ==> #[trigger] course[n + i] == c2[i]);
    assert(forall|i: int| 0 <= i < c1.len() ==> #[trigger] course[i] == c1[i]);
    assert forall|i: int| 0 <= i < messages.len() implies #[trigger] message_gives(
        assets,
        course[i],
        messages[i],
        course[i + 1],
        anew[i],
    ) by {
        if i < n {
            assert(message_gives(assets, c1[i], first[i], c1[i + 1], a1[i]));
        } else {
            let j = i - n;
            assert(message_gives(assets, c2[j], second[j], c2[j + 1], a2[j]));
            assert(course[n + j] == c2[j] && course[n + (j + 1)] == c2[j + 1]);
        }
    }
    assert forall|i: int| 0 <= i < anew.len() && #[trigger] anew[i] implies books_fit(
        assets,
        course[i + 1],
    ) by {
        if i < n {
            assert(a1[i]);
        } else {
            assert(a2[i - n]);
            assert(course[n + (i - n + 1)] == c2[i - n + 1]);
        }
    }
    lemma_reports_kept(assets, verbose, first, c1, a1, messages, course, anew, first.len());
    lemma_reports_joined(
        assets,
        verbose,
        second,
        c2,
        a2,
        messages,
        course,
        anew,
        first.len(),
        second.len(),
    );
    assert(messages_take(assets, messages, course, anew));
}

pub proof fn lemma_reports_joined<B: OrderbookLike>(
    assets: Seq<AssetConfig>,
    verbose: bool,
    messages: Seq<JsonModel>,
    course: Seq<Map<Seq<char>, B>>,
    anew: Seq<bool>,
    whole_messages: Seq<JsonModel>,
    whole_course: Seq<Map<Seq<char>, B>>,
    whole_anew: Seq<bool>,
    n: nat,
    k: nat,
)
    requires
        k <= anew.len() == messages.len(),
        course.len() == anew.len() + 1,
        whole_messages.len() == whole_anew.len() == n + anew.len(),
        whole_course.len() == n + course.len(),
        forall|i: int| 0 <= i < messages.len() ==> #[trigger] messages[i] == whole_messages[n + i],
        forall|i: int| 0 <= i < anew.len() ==> #[trigger] anew[i] == whole_anew[n + i],
        forall|i: int| 0 <= i < course.len() ==> #[trigger] course[i] == whole_course[n + i],
    ensures
        reports_of(assets, verbose, whole_messages, whole_course, whole_anew, n + k) == reports_of(
            assets,
            verbose,
            whole_messages,
            whole_course,
            whole_anew,
            n,
        ) + reports_of(assets, verbose, messages, course, anew, k),
    decreases k,
{
    let early = reports_of(assets, verbose, whole_messages, whole_course, whole_anew, n);
    let late = reports_of(assets, verbose, messages, course, anew, k);
    if k > 0 {
        lemma_reports_joined(
            assets,
            verbose,
            messages,
            course,
            anew,
            whole_messages,
            whole_course,
            whole_anew,
            n,
            (k - 1) as nat,
        );
        assert(messages[k - 1] == whole_messages[n + (k - 1)]);
        assert(anew[k - 1] == whole_anew[n + (k - 1)]);
        assert(course[k - 1] == whole_course[n + (k - 1)]);
        assert(course[k as int] == whole_course[(n + k) as int]);
    }
    assert(reports_of(assets, verbose, whole_messages, whole_course, whole_anew, n + k) =~= early
        + late);
}

} // verus!
