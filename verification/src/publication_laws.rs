//! What is shown, exported and printed of the books, said of the books themselves.

use crate::basic_orderbook::{Level, OrderbookLike, Overflow};
use crate::decimal::{decimal_difference, decimal_sum, lemma_zero_decimal, lemma_zero_is, Decimal};
use crate::display::{
    book_fits, can_show, columns, cumulative, larger, lemma_cumulative_none, level_models,
    print_book, printed_book, printed_heading, printed_rows, show_book, shown, shown_book,
    shown_level, shown_levels, shown_row, shown_rows, shown_spread, sums_fit, text_model, AssetBook,
    BookLevel, TopBookSnapshot,
};
use crate::observer::{
    book_models, books_fit, printed_books, published, shown_books, AssetConfig, OrderbookObserver,
    Publication,
};
use crate::text::right_aligned;
use vstd::prelude::*;

verus! {

// ---------------------------------------------------------------------------
// What a book shows
// ---------------------------------------------------------------------------

/// How many of so many levels are shown: five at most.
pub open spec fn at_most_five(n: nat) -> nat {
    if n < 5 {
        n
    } else {
        5
    }
}

/// The sums begin with zero, and each is the one before it and the size of a level more.
pub open spec fn sums_up(sums: Seq<Decimal>, levels: Seq<Level>, n: nat) -> bool {
    &&& sums.len() == n + 1
    &&& sums[0].magnitude() == 0 && sums[0].scale() == 0 && !sums[0].negative()
    &&& forall|k: int|
        0 <= k < n ==> #[trigger] decimal_sum(sums[k], levels[k].size.0) == Some(sums[k + 1])
}

/// There are sums of the sizes of the levels that are shown.
pub open spec fn has_sums(levels: Seq<Level>) -> bool {
    exists|sums: Seq<Decimal>| #[trigger] sums_up(sums, levels, at_most_five(levels.len()))
}

/// The best prices are apart by a number that a decimal can hold, if at all.
pub open spec fn has_spread(bids: Seq<Level>, asks: Seq<Level>) -> bool {
    bids.len() > 0 && asks.len() > 0 && bids[0].price.0.value() < asks[0].price.0.value()
        ==> decimal_difference(asks[0].price.0, bids[0].price.0) is Some
}

/// Everything that is shown of the book is a number that a decimal can hold.
pub open spec fn showable<B: OrderbookLike>(book: &B) -> bool {
    &&& has_sums(book.bid_levels())
    &&& has_sums(book.ask_levels())
    &&& has_spread(book.bid_levels(), book.ask_levels())
}

/// A line shows the level, with the sum of the sizes up to it.
pub open spec fn line_shows(line: BookLevel, level: Level, sum: Decimal) -> bool {
    &&& line.price@ == level.price.0.text()
    &&& line.size@ == level.size.0.text()
    &&& line.cumulative@ == sum.text()
}

/// The lines show the best levels, one each, five at most.
pub open spec fn lines_show(lines: Seq<BookLevel>, levels: Seq<Level>) -> bool {
    &&& lines.len() == at_most_five(levels.len())
    &&& exists|sums: Seq<Decimal>| #[trigger]
        sums_up(sums, levels, lines.len()) && forall|k: int|
            0 <= k < lines.len() ==> line_shows(#[trigger] lines[k], levels[k], sums[k + 1])
}

/// The best prices and what is between them are shown where both sides have a level, and
/// nothing of them otherwise. Prices that meet or cross have nothing between them.
pub open spec fn prices_show(shown: AssetBook, bids: Seq<Level>, asks: Seq<Level>) -> bool {
    let both = bids.len() > 0 && asks.len() > 0;
    &&& shown.spread is Some == both
    &&& shown.best_bid is Some == both
    &&& shown.best_ask is Some == both
    &&& both ==> {
        let bid = bids[0].price.0;
        let ask = asks[0].price.0;
        &&& shown.best_bid->0@ == bid.text()
        &&& shown.best_ask->0@ == ask.text()
        &&& bid.value() >= ask.value() ==> shown.spread->0@ == seq!['0']
        &&& bid.value() < ask.value() ==> decimal_difference(ask, bid) is Some
            && shown.spread->0@ == (decimal_difference(ask, bid)->0).text()
    }
}

/// What is shown is the book of the asset.
pub open spec fn shows<B: OrderbookLike>(
    shown: AssetBook,
    id: Seq<char>,
    label: Seq<char>,
    book: &B,
) -> bool {
    &&& shown.asset_id@ == id
    &&& shown.label@ == label
    &&& lines_show(shown.bids@, book.bid_levels())
    &&& lines_show(shown.asks@, book.ask_levels())
    &&& prices_show(shown, book.bid_levels(), book.ask_levels())
}

pub proof fn lemma_sums(levels: Seq<Level>)
    ensures
        sums_fit(levels) <==> has_sums(levels),
        sums_fit(levels) ==> sums_up(
            Seq::new(at_most_five(levels.len()) + 1, |k: int| cumulative(levels, k as nat)->0),
            levels,
            at_most_five(levels.len()),
        ),
{
    let n = at_most_five(levels.len());
    lemma_zero_decimal();
    if sums_fit(levels) {
        let sums = Seq::new(n + 1, |k: int| cumulative(levels, k as nat)->0);
        assert forall|k: int| 0 <= k < n implies #[trigger] decimal_sum(
            sums[k],
            levels[k].size.0,
        ) == Some(sums[k + 1]) by {
            if cumulative(levels, (k + 1) as nat) is None {
                lemma_cumulative_none(levels, (k + 1) as nat, n);
            }
            assert(cumulative(levels, (k + 1) as nat) is Some);
            assert(cumulative(levels, k as nat) is Some);
        }
        assert(sums_up(sums, levels, n));
    }
    if has_sums(levels) {
        let sums = choose|sums: Seq<Decimal>| #[trigger] sums_up(sums, levels, n);
        lemma_sums_are(sums, levels, n, n);
    }
}

proof fn lemma_sums_are(sums: Seq<Decimal>, levels: Seq<Level>, n: nat, k: nat)
    requires
        sums_up(sums, levels, n),
        k <= n,
    ensures
        cumulative(levels, k) == Some(sums[k as int]),
    decreases k,
{
    if k == 0 {
        lemma_zero_is(sums[0]);
    } else {
        lemma_sums_are(sums, levels, n, (k - 1) as nat);
        assert(decimal_sum(sums[k - 1], levels[k - 1].size.0) == Some(sums[k as int]));
    }
}

pub proof fn lemma_lines(lines: Seq<BookLevel>, levels: Seq<Level>)
    requires
        sums_fit(levels),
        level_models(lines) == shown_levels(levels),
    ensures
        lines_show(lines, levels),
{
    let n = at_most_five(levels.len());
    let sums = Seq::new(n + 1, |k: int| cumulative(levels, k as nat)->0);
    lemma_sums(levels);
    assert(lines.len() == level_models(lines).len());
    assert forall|k: int| 0 <= k < lines.len() implies line_shows(
        #[trigger] lines[k],
        levels[k],
        sums[k + 1],
    ) by {
        assert(level_models(lines)[k] == lines[k]@);
        assert(shown_levels(levels)[k] == shown_level(levels, k));
    }
    assert(sums_up(sums, levels, lines.len()));
}

proof fn lemma_shows<B: OrderbookLike>(
    shown: AssetBook,
    id: Seq<char>,
    label: Seq<char>,
    book: &B,
)
    requires
        book_fits(book.bid_levels(), book.ask_levels()),
        shown@ == shown_book(id, label, book.bid_levels(), book.ask_levels()),
    ensures
        shows(shown, id, label, book),
{
    lemma_lines(shown.bids@, book.bid_levels());
    lemma_lines(shown.asks@, book.ask_levels());
    lemma_zero_decimal();
    assert(text_model(shown.spread) == shown@.spread);
    assert(text_model(shown.best_bid) == shown@.best_bid);
    assert(text_model(shown.best_ask) == shown@.best_ask);
}

/// `can_show` says whether everything that is shown of a book is a number that a decimal
/// can hold.
pub proof fn law_can_show<B: OrderbookLike>(book: &B, r: bool)
    requires
        call_ensures(can_show::<B>, (book,), r),
    ensures
        r == showable(book),
{
    lemma_sums(book.bid_levels());
    lemma_sums(book.ask_levels());
}

/// `show_book` shows the book under the names that it is given.
pub proof fn law_show_book<B: OrderbookLike>(asset_id: &str, label: &str, book: &B, r: AssetBook)
    requires
        showable(book),
        call_ensures(show_book::<B>, (asset_id, label, book), r),
    ensures
        shows(r, asset_id@, label@, book),
{
    lemma_sums(book.bid_levels());
    lemma_sums(book.ask_levels());
    lemma_shows(r, asset_id@, label@, book);
}

// ---------------------------------------------------------------------------
// What is exported
// ---------------------------------------------------------------------------

/// The assets that have a book, in the order in which they are observed.
pub open spec fn with_book<B: OrderbookLike>(
    assets: Seq<AssetConfig>,
    books: Map<Seq<char>, B>,
) -> Seq<AssetConfig> {
    assets.filter(|asset: AssetConfig| books.contains_key(asset.id@))
}

/// Everything that is shown of the books is a number that a decimal can hold.
pub open spec fn all_showable<B: OrderbookLike>(
    assets: Seq<AssetConfig>,
    books: Map<Seq<char>, B>,
) -> bool {
    forall|k: int|
        0 <= k < assets.len() && books.contains_key((#[trigger] assets[k]).id@) ==> showable(
            &books[assets[k].id@],
        )
}

/// The entries show the books of the assets that have one, each once and in order.
pub open spec fn export_shows<B: OrderbookLike>(
    entries: Seq<AssetBook>,
    assets: Seq<AssetConfig>,
    books: Map<Seq<char>, B>,
) -> bool {
    let listed = with_book(assets, books);
    &&& entries.len() == listed.len()
    &&& forall|k: int|
        0 <= k < entries.len() ==> shows(
            #[trigger] entries[k],
            listed[k].id@,
            listed[k].label@,
            &books[listed[k].id@],
        )
}

pub proof fn lemma_all_showable<B: OrderbookLike>(
    assets: Seq<AssetConfig>,
    books: Map<Seq<char>, B>,
)
    ensures
        books_fit(assets, books) <==> all_showable(assets, books),
{
    assert forall|k: int|
        0 <= k < assets.len() && books.contains_key((#[trigger] assets[k]).id@) implies book_fits(
        books[assets[k].id@].bid_levels(),
        books[assets[k].id@].ask_levels(),
    ) == showable(&books[assets[k].id@]) by {
        lemma_sums(books[assets[k].id@].bid_levels());
        lemma_sums(books[assets[k].id@].ask_levels());
    }
}

proof fn lemma_export<B: OrderbookLike>(
    entries: Seq<AssetBook>,
    assets: Seq<AssetConfig>,
    books: Map<Seq<char>, B>,
)
    requires
        books_fit(assets, books),
        book_models(entries) == shown_books(assets, books),
    ensures
        export_shows(entries, assets, books),
    decreases assets.len(),
{
    reveal(Seq::filter);
    assert(entries.len() == book_models(entries).len());
    if assets.len() > 0 {
        let front = assets.drop_last();
        let asset = assets.last();
        assert(assets[assets.len() - 1] == asset);
        assert(books_fit(front, books)) by {
            assert forall|k: int|
                0 <= k < front.len() && books.contains_key((#[trigger] front[k]).id@) implies
                book_fits(
                books[front[k].id@].bid_levels(),
                books[front[k].id@].ask_levels(),
            ) by {
                assert(assets[k] == front[k]);
            }
        }
        if books.contains_key(asset.id@) {
            let n = entries.len() - 1;
            let rest = entries.drop_last();
            let book = books[asset.id@];
            let last = shown_book(asset.id@, asset.label@, book.bid_levels(), book.ask_levels());
            assert(shown_books(assets, books) == shown_books(front, books).push(last));
            assert(book_models(rest) =~= book_models(entries).drop_last());
            assert(book_models(rest) =~= shown_books(front, books));
            lemma_export(rest, front, books);
            assert(book_models(entries)[n] == entries[n]@);
            assert(entries[n]@ == last);
            lemma_shows(entries[n], asset.id@, asset.label@, &book);
            let listed = with_book(assets, books);
            assert(listed == with_book(front, books).push(asset));
            assert forall|k: int| 0 <= k < entries.len() implies shows(
                #[trigger] entries[k],
                listed[k].id@,
                listed[k].label@,
                &books[listed[k].id@],
            ) by {
                if k < n {
                    assert(rest[k] == entries[k]);
                }
            }
        } else {
            lemma_export(entries, front, books);
        }
    }
}

/// `can_publish` says whether everything that is shown of the books is a number that a
/// decimal can hold.
pub proof fn law_can_publish<B: OrderbookLike>(observer: &OrderbookObserver<B>, r: bool)
    requires
        call_ensures(OrderbookObserver::<B>::can_publish, (observer,), r),
    ensures
        r == all_showable(observer.assets(), observer.kept()),
{
    lemma_all_showable(observer.assets(), observer.kept());
}

/// What is exported has one entry for each observed asset that has a book, in the order in
/// which the assets are observed, and no other: under its id and its label the levels of
/// that book.
pub proof fn law_build_top_snapshot<B: OrderbookLike>(
    observer: &OrderbookObserver<B>,
    r: TopBookSnapshot,
)
    requires
        observer.inv(),
        all_showable(observer.assets(), observer.kept()),
        call_ensures(OrderbookObserver::<B>::build_top_snapshot, (observer,), r),
    ensures
        export_shows(r.assets@, observer.assets(), observer.kept()),
        forall|i: int|
            0 <= i < observer.assets().len() ==> (observer.kept().contains_key(
                (#[trigger] observer.assets()[i]).id@,
            ) <==> exists|k: int|
                0 <= k < r.assets@.len() && shows(
                    #[trigger] r.assets@[k],
                    observer.assets()[i].id@,
                    observer.assets()[i].label@,
                    &observer.kept()[observer.assets()[i].id@],
                )),
{
    let assets = observer.assets();
    let books = observer.kept();
    let entries = r.assets@;
    lemma_all_showable(assets, books);
    lemma_export(entries, assets, books);
    let listed = with_book(assets, books);
    let has = |asset: AssetConfig| books.contains_key(asset.id@);
    assert(listed == assets.filter(has));
    assert forall|i: int| 0 <= i < assets.len() implies (books.contains_key(
        (#[trigger] assets[i]).id@,
    ) <==> exists|k: int|
        0 <= k < entries.len() && shows(
            #[trigger] entries[k],
            assets[i].id@,
            assets[i].label@,
            &books[assets[i].id@],
        )) by {
        if books.contains_key(assets[i].id@) {
            assets.lemma_filter_contains(has, i);
            let k = choose|k: int| 0 <= k < listed.len() && listed[k] == assets[i];
            assert(shows(entries[k], assets[i].id@, assets[i].label@, &books[assets[i].id@]));
        }
        if exists|k: int|
            0 <= k < entries.len() && shows(
                #[trigger] entries[k],
                assets[i].id@,
                assets[i].label@,
                &books[assets[i].id@],
            ) {
            let k = choose|k: int|
                0 <= k < entries.len() && shows(
                    #[trigger] entries[k],
                    assets[i].id@,
                    assets[i].label@,
                    &books[assets[i].id@],
                );
            assert(listed[k].id@ == entries[k].asset_id@);
            lemma_filtered(assets, has, k);
        }
    }
}

/// What a filter keeps is what it is to keep.
proof fn lemma_filtered(s: Seq<AssetConfig>, keep: spec_fn(AssetConfig) -> bool, k: int)
    requires
        0 <= k < s.filter(keep).len(),
    ensures
        keep(s.filter(keep)[k]),
    decreases s.len(),
{
    reveal(Seq::filter);
    if s.len() > 0 && k < s.drop_last().filter(keep).len() {
        lemma_filtered(s.drop_last(), keep, k);
    }
}

// ---------------------------------------------------------------------------
// What is printed
// ---------------------------------------------------------------------------

/// A text at the right end of so many columns.
pub open spec fn cell(text: Seq<char>, width: int) -> Seq<char> {
    if text.len() < width {
        Seq::new((width - text.len()) as nat, |i: int| ' ') + text
    } else {
        text
    }
}

/// Three cells beside each other.
pub open spec fn cells(price: Seq<char>, size: Seq<char>, sum: Seq<char>) -> Seq<char> {
    cell(price, 7) + seq![' ', '|', ' '] + cell(size, 15) + seq![' ', '|', ' '] + cell(sum, 15)
}

/// The three cells of a line.
pub open spec fn line_cells(line: BookLevel) -> Seq<char> {
    cells(line.price@, line.size@, line.cumulative@)
}

/// A row has the `i`-th bid on the left and the `i`-th ask on the right.
pub open spec fn row_of(shown: AssetBook, i: int) -> Seq<char> {
    let bid = if i < shown.bids@.len() {
        line_cells(shown.bids@[i])
    } else {
        cells(seq![], seq![], seq![])
    };
    let ask = if i < shown.asks@.len() {
        "      "@ + line_cells(shown.asks@[i])
    } else {
        seq![]
    };
    "  "@ + bid + ask
}

/// Lines, each with its end.
pub open spec fn ended(lines: Seq<Seq<char>>) -> Seq<char>
    decreases lines.len(),
{
    if lines.len() == 0 {
        seq![]
    } else {
        ended(lines.drop_last()) + lines.last().push('\n')
    }
}

/// The lines are those of what is shown: a title, two headings, as many rows as the longer
/// side has lines, the best prices if they are shown, and an empty line.
pub open spec fn lines_of(lines: Seq<Seq<char>>, shown: AssetBook) -> bool {
    let rows = if shown.bids@.len() < shown.asks@.len() {
        shown.asks@.len()
    } else {
        shown.bids@.len()
    };
    let titles = cells("Price"@, "Size"@, "Cumul."@);
    &&& lines.len() == 4 + rows + (if shown.spread is Some {
        1int
    } else {
        0
    })
    &&& lines[0] == "=== "@ + shown.label@ + " Orderbook ==="@
    &&& lines[1] == "        BIDS                          ASKS"@
    &&& lines[2] == "  "@ + titles + "      "@ + titles
    &&& forall|i: int| 0 <= i < rows ==> #[trigger] lines[3 + i] == row_of(shown, i)
    &&& shown.spread is Some ==> lines[3 + rows as int] == "  Spread: "@ + shown.spread->0@
        + " | Best Bid: "@ + shown.best_bid->0@ + " | Best Ask: "@ + shown.best_ask->0@
    &&& lines.last() == Seq::<char>::empty()
}

/// The text is what is shown, line by line.
pub open spec fn prints(text: Seq<char>, shown: AssetBook) -> bool {
    exists|lines: Seq<Seq<char>>| #[trigger] lines_of(lines, shown) && text == ended(lines)
}

/// The text consists of what each entry is printed as, one after the other.
pub open spec fn prints_all(text: Seq<char>, entries: Seq<AssetBook>) -> bool
    decreases entries.len(),
{
    if entries.len() == 0 {
        text.len() == 0
    } else {
        exists|k: int|
            #![trigger text.take(k)]
            0 <= k <= text.len() && prints_all(text.take(k), entries.drop_last()) && prints(
                text.skip(k),
                entries.last(),
            )
    }
}

proof fn lemma_cells(price: Seq<char>, size: Seq<char>, sum: Seq<char>)
    ensures
        columns(price, size, sum) == cells(price, size, sum),
{
    reveal_strlit(" | ");
    assert(" | "@ =~= seq![' ', '|', ' ']);
    assert(right_aligned(price, 7) =~= cell(price, 7));
    assert(right_aligned(size, 15) =~= cell(size, 15));
    assert(right_aligned(sum, 15) =~= cell(sum, 15));
}

proof fn lemma_row(shown: AssetBook, i: int)
    requires
        0 <= i,
    ensures
        shown_row(level_models(shown.bids@), level_models(shown.asks@), i) == row_of(
            shown,
            i,
        ).push('\n'),
{
    reveal_strlit("\n");
    reveal_strlit("");
    assert(""@ =~= seq![]);
    let bids = shown.bids@;
    let asks = shown.asks@;
    lemma_cells(seq![], seq![], seq![]);
    if i < bids.len() {
        assert(level_models(bids)[i] == bids[i]@);
        lemma_cells(bids[i].price@, bids[i].size@, bids[i].cumulative@);
    }
    if i < asks.len() {
        assert(level_models(asks)[i] == asks[i]@);
        lemma_cells(asks[i].price@, asks[i].size@, asks[i].cumulative@);
    }
    assert(shown_row(level_models(bids), level_models(asks), i) =~= row_of(shown, i).push('\n'));
}

proof fn lemma_rows(shown: AssetBook, front: Seq<Seq<char>>, n: nat)
    ensures
        ended(front + Seq::new(n, |i: int| row_of(shown, i))) == ended(front) + shown_rows(
            level_models(shown.bids@),
            level_models(shown.asks@),
            n,
        ),
    decreases n,
{
    let rows = Seq::new(n, |i: int| row_of(shown, i));
    if n == 0 {
        assert(front + rows =~= front);
        assert(ended(front) + seq![] =~= ended(front));
    } else {
        let fewer = Seq::new((n - 1) as nat, |i: int| row_of(shown, i));
        lemma_rows(shown, front, (n - 1) as nat);
        lemma_row(shown, n - 1);
        assert((front + rows).drop_last() =~= front + fewer);
        assert((front + rows).last() == row_of(shown, n - 1));
        assert(ended(front + rows) =~= ended(front) + shown_rows(
            level_models(shown.bids@),
            level_models(shown.asks@),
            n,
        ));
    }
}

proof fn lemma_ended_push(lines: Seq<Seq<char>>, line: Seq<char>)
    ensures
        ended(lines.push(line)) == ended(lines) + line.push('\n'),
{
    assert(lines.push(line).drop_last() =~= lines);
}

proof fn lemma_heading(label: Seq<char>) -> (lines: Seq<Seq<char>>)
    ensures
        lines.len() == 3,
        lines[0] == "=== "@ + label + " Orderbook ==="@,
        lines[1] == "        BIDS                          ASKS"@,
        lines[2] == "  "@ + cells("Price"@, "Size"@, "Cumul."@) + "      "@ + cells(
            "Price"@,
            "Size"@,
            "Cumul."@,
        ),
        ended(lines) == printed_heading(label),
{
    let titles = cells("Price"@, "Size"@, "Cumul."@);
    let first = "=== "@ + label + " Orderbook ==="@;
    let second = "        BIDS                          ASKS"@;
    let third = "  "@ + titles + "      "@ + titles;
    lemma_cells("Price"@, "Size"@, "Cumul."@);
    reveal_strlit(" Orderbook ===");
    reveal_strlit(" Orderbook ===\n");
    reveal_strlit("        BIDS                          ASKS");
    reveal_strlit("        BIDS                          ASKS\n");
    reveal_strlit("\n");
    assert(" Orderbook ===\n"@ =~= " Orderbook ==="@.push('\n'));
    assert("        BIDS                          ASKS\n"@ =~= second.push('\n'));
    assert("\n"@ =~= seq!['\n']);
    let none = Seq::<Seq<char>>::empty();
    lemma_ended_push(none, first);
    lemma_ended_push(none.push(first), second);
    lemma_ended_push(none.push(first).push(second), third);
    let lines = none.push(first).push(second).push(third);
    assert(ended(lines) =~= printed_heading(label));
    lines
}

proof fn lemma_prints<B: OrderbookLike>(shown: AssetBook, id: Seq<char>, book: &B)
    requires
        shown@ == shown_book(id, shown.label@, book.bid_levels(), book.ask_levels()),
    ensures
        prints(printed_book(shown.label@, book.bid_levels(), book.ask_levels()), shown),
{
    let bids = book.bid_levels();
    let asks = book.ask_levels();
    let text = printed_book(shown.label@, bids, asks);
    let n = larger(shown.bids@.len(), shown.asks@.len());
    let head = lemma_heading(shown.label@);
    let body = head + Seq::new(n, |i: int| row_of(shown, i));
    lemma_rows(shown, head, n);
    assert(level_models(shown.bids@) == shown@.bids);
    assert(level_models(shown.asks@) == shown@.asks);
    assert(shown_levels(bids) == level_models(shown.bids@));
    assert(shown_levels(asks) == level_models(shown.asks@));
    assert(text_model(shown.spread) == shown@.spread);
    assert(text_model(shown.best_bid) == shown@.best_bid);
    assert(text_model(shown.best_ask) == shown@.best_ask);
    assert(ended(body) == printed_heading(shown.label@) + printed_rows(bids, asks));
    reveal_strlit("\n");
    assert("\n"@ =~= seq!['\n']);
    let none = Seq::<char>::empty();
    let lines = if shown.spread is Some {
        let spread = "  Spread: "@ + shown.spread->0@ + " | Best Bid: "@ + shown.best_bid->0@
            + " | Best Ask: "@ + shown.best_ask->0@;
        lemma_ended_push(body, spread);
        lemma_ended_push(body.push(spread), none);
        assert(shown_spread(bids, asks) =~= spread.push('\n'));
        body.push(spread).push(none)
    } else {
        lemma_ended_push(body, none);
        body.push(none)
    };
    assert(ended(lines) =~= text);
    assert forall|i: int| 0 <= i < n implies #[trigger] lines[3 + i] == row_of(shown, i) by {
        assert(body[3 + i] == row_of(shown, i));
    }
    assert(lines[0] == head[0] && lines[1] == head[1] && lines[2] == head[2]);
    assert(lines_of(lines, shown));
}

/// `print_book` adds to a text what `show_book` shows of the book, line by line.
pub proof fn law_print_book<B: OrderbookLike>(
    out: &mut String,
    label: &str,
    book: &B,
    done: (),
    asset_id: &str,
    shown: AssetBook,
)
    requires
        showable(book),
        call_ensures(print_book::<B>, (out, label, book), done),
        call_ensures(show_book::<B>, (asset_id, label, book), shown),
    ensures
        old(out)@.len() <= final(out)@.len(),
        final(out)@.take(old(out)@.len() as int) == old(out)@,
        prints(final(out)@.skip(old(out)@.len() as int), shown),
{
    lemma_sums(book.bid_levels());
    lemma_sums(book.ask_levels());
    let text = printed_book(label@, book.bid_levels(), book.ask_levels());
    assert(shown.label@ == shown@.label);
    lemma_prints(shown, asset_id@, book);
    assert(final(out)@.take(old(out)@.len() as int) =~= old(out)@);
    assert(final(out)@.skip(old(out)@.len() as int) =~= text);
}

proof fn lemma_prints_all<B: OrderbookLike>(
    entries: Seq<AssetBook>,
    assets: Seq<AssetConfig>,
    books: Map<Seq<char>, B>,
)
    requires
        book_models(entries) == shown_books(assets, books),
    ensures
        prints_all(printed_books(assets, books), entries),
    decreases assets.len(),
{
    let text = printed_books(assets, books);
    assert(entries.len() == book_models(entries).len());
    if assets.len() > 0 {
        let front = assets.drop_last();
        let asset = assets.last();
        if books.contains_key(asset.id@) {
            let n = entries.len() - 1;
            let rest = entries.drop_last();
            let book = books[asset.id@];
            let last = shown_book(asset.id@, asset.label@, book.bid_levels(), book.ask_levels());
            assert(shown_books(assets, books) == shown_books(front, books).push(last));
            assert(book_models(rest) =~= book_models(entries).drop_last());
            assert(book_models(rest) =~= shown_books(front, books));
            lemma_prints_all(rest, front, books);
            assert(book_models(entries)[n] == entries[n]@);
            assert(entries[n]@ == last);
            assert(entries[n].label@ == entries[n]@.label);
            lemma_prints(entries[n], asset.id@, &book);
            let k = printed_books(front, books).len() as int;
            let section = printed_book(asset.label@, book.bid_levels(), book.ask_levels());
            assert(text.take(k) =~= printed_books(front, books));
            assert(text.skip(k) =~= section);
        } else {
            lemma_prints_all(entries, front, books);
        }
    }
}

/// The text of the books is what each entry of the export is printed as, all of them and in
/// the same order.
pub proof fn law_format_books_text<B: OrderbookLike>(
    observer: &OrderbookObserver<B>,
    text: String,
    exported: TopBookSnapshot,
)
    requires
        all_showable(observer.assets(), observer.kept()),
        call_ensures(OrderbookObserver::<B>::format_books_text, (observer,), text),
        call_ensures(OrderbookObserver::<B>::build_top_snapshot, (observer,), exported),
    ensures
        prints_all(text@, exported.assets@),
{
    lemma_all_showable(observer.assets(), observer.kept());
    lemma_prints_all(exported.assets@, observer.assets(), observer.kept());
}

/// The text of the books of some assets and of others is that of the first followed by that
/// of the second, and so is what is exported of them.
pub proof fn law_books_are_shown_one_after_the_other<B: OrderbookLike>(
    first: Seq<AssetConfig>,
    second: Seq<AssetConfig>,
    books: Map<Seq<char>, B>,
)
    ensures
        printed_books(first + second, books) == printed_books(first, books) + printed_books(
            second,
            books,
        ),
        shown_books(first + second, books) == shown_books(first, books) + shown_books(
            second,
            books,
        ),
    decreases second.len(),
{
    if second.len() == 0 {
        assert(first + second =~= first);
        assert(printed_books(first, books) + seq![] =~= printed_books(first, books));
        assert(shown_books(first, books) + seq![] =~= shown_books(first, books));
    } else {
        law_books_are_shown_one_after_the_other(first, second.drop_last(), books);
        assert((first + second).drop_last() =~= first + second.drop_last());
        assert((first + second).last() == second.last());
        assert(printed_books(first + second, books) =~= printed_books(first, books)
            + printed_books(second, books));
        assert(shown_books(first + second, books) =~= shown_books(first, books) + shown_books(
            second,
            books,
        ));
    }
}

// ---------------------------------------------------------------------------
// What is published
// ---------------------------------------------------------------------------

/// What is published are the books, and their text where that is asked for.
pub open spec fn publishes<B: OrderbookLike>(
    publication: Publication,
    verbose: bool,
    assets: Seq<AssetConfig>,
    books: Map<Seq<char>, B>,
) -> bool {
    &&& export_shows(publication.snapshot.assets@, assets, books)
    &&& publication.text is Some == verbose
    &&& verbose ==> prints_all(publication.text->0@, publication.snapshot.assets@)
}

pub proof fn lemma_publishes<B: OrderbookLike>(
    publication: Publication,
    verbose: bool,
    assets: Seq<AssetConfig>,
    books: Map<Seq<char>, B>,
)
    requires
        books_fit(assets, books),
        publication@ == published(assets, verbose, books),
    ensures
        all_showable(assets, books),
        publishes(publication, verbose, assets, books),
{
    let entries = publication.snapshot.assets@;
    assert(book_models(entries) == publication@.assets);
    assert(text_model(publication.text) == publication@.text);
    lemma_all_showable(assets, books);
    lemma_export(entries, assets, books);
    lemma_prints_all(entries, assets, books);
}

/// The books are published exactly where everything that is shown of them is a number that
/// a decimal can hold.
pub proof fn law_publish_and_print_books<B: OrderbookLike>(
    observer: &OrderbookObserver<B>,
    r: Result<Publication, Overflow>,
)
    requires
        call_ensures(OrderbookObserver::<B>::publish_and_print_books, (observer,), r),
    ensures
        r is Ok <==> all_showable(observer.assets(), observer.kept()),
        r is Ok ==> publishes(r->Ok_0, observer.verbose(), observer.assets(), observer.kept()),
{
    lemma_all_showable(observer.assets(), observer.kept());
    if r is Ok {
        lemma_publishes(r->Ok_0, observer.verbose(), observer.assets(), observer.kept());
    }
}

} // verus!
