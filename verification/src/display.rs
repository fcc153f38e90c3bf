//! The top of a book as it is shown: as text, and as strings for export.

use crate::basic_orderbook::{spread_fits, spread_of, Level, OrderbookLike, Overflow, Quantity};
use crate::decimal::{decimal_sum, zero_decimal, Decimal};
use crate::text::{align_right, right_aligned};
use vstd::prelude::*;
use vstd::std_specs::iter::IteratorSpec;
use vstd::string::StringExecFns;

verus! {

/// How many levels of a side are shown.
pub const DISPLAY_DEPTH: usize = 5;

#[derive(Debug, Clone)]
pub struct BookLevel {
    pub price: String,
    pub size: String,
    pub cumulative: String,
}

#[derive(Debug, Clone)]
pub struct AssetBook {
    pub asset_id: String,
    pub label: String,
    pub bids: Vec<BookLevel>,
    pub asks: Vec<BookLevel>,
    pub spread: Option<String>,
    pub best_bid: Option<String>,
    pub best_ask: Option<String>,
}

#[derive(Debug, Clone)]
pub struct TopBookSnapshot {
    pub assets: Vec<AssetBook>,
}

// ---------------------------------------------------------------------------
// What is shown
// ---------------------------------------------------------------------------

/// The levels of a side that are shown: the best of them.
pub open spec fn shown(levels: Seq<Level>) -> Seq<Level> {
    if levels.len() < DISPLAY_DEPTH {
        levels
    } else {
        levels.take(DISPLAY_DEPTH as int)
    }
}

/// The sum of the sizes of the first `k` levels, if a decimal can hold it and the
/// sums on the way to it.
pub open spec fn cumulative(levels: Seq<Level>, k: nat) -> Option<Decimal>
    decreases k,
{
    if k == 0 {
        Some(zero_decimal())
    } else {
        match cumulative(levels, (k - 1) as nat) {
            Some(sum) => decimal_sum(sum, levels[k - 1].size.0),
            None => None,
        }
    }
}

/// Every sum that is shown is a number that a decimal can hold.
pub open spec fn sums_fit(levels: Seq<Level>) -> bool {
    cumulative(levels, shown(levels).len()) is Some
}

/// Every number that is shown of a book is one that a decimal can hold.
pub open spec fn book_fits(bids: Seq<Level>, asks: Seq<Level>) -> bool {
    &&& sums_fit(bids)
    &&& sums_fit(asks)
    &&& spread_fits(bids, asks)
}

/// A level as text.
pub struct BookLevelModel {
    pub price: Seq<char>,
    pub size: Seq<char>,
    pub cumulative: Seq<char>,
}

impl View for BookLevel {
    type V = BookLevelModel;

    open spec fn view(&self) -> BookLevelModel {
        BookLevelModel {
            price: self.price@,
            size: self.size@,
            cumulative: self.cumulative@,
        }
    }
}

/// The `k`-th level of a side as text, with the sum of the sizes up to it.
pub open spec fn shown_level(levels: Seq<Level>, k: int) -> BookLevelModel {
    BookLevelModel {
        price: levels[k].price.0.text(),
        size: levels[k].size.0.text(),
        cumulative: (cumulative(levels, (k + 1) as nat)->0).text(),
    }
}

/// The levels of a side that are shown, as text.
pub open spec fn shown_levels(levels: Seq<Level>) -> Seq<BookLevelModel> {
    Seq::new(shown(levels).len(), |k: int| shown_level(levels, k))
}

/// Levels, each as text.
pub open spec fn level_models(levels: Seq<BookLevel>) -> Seq<BookLevelModel> {
    levels.map_values(|level: BookLevel| level@)
}

/// A text, if there is one.
pub open spec fn text_model(text: Option<String>) -> Option<Seq<char>> {
    match text {
        Some(text) => Some(text@),
        None => None,
    }
}

/// A book as text.
pub struct AssetBookModel {
    pub asset_id: Seq<char>,
    pub label: Seq<char>,
    pub bids: Seq<BookLevelModel>,
    pub asks: Seq<BookLevelModel>,
    pub spread: Option<Seq<char>>,
    pub best_bid: Option<Seq<char>>,
    pub best_ask: Option<Seq<char>>,
}

impl View for AssetBook {
    type V = AssetBookModel;

    open spec fn view(&self) -> AssetBookModel {
        AssetBookModel {
            asset_id: self.asset_id@,
            label: self.label@,
            bids: level_models(self.bids@),
            asks: level_models(self.asks@),
            spread: text_model(self.spread),
            best_bid: text_model(self.best_bid),
            best_ask: text_model(self.best_ask),
        }
    }
}

/// The book of an asset as text. The best prices stand beside the spread only.
pub open spec fn shown_book(
    asset_id: Seq<char>,
    label: Seq<char>,
    bids: Seq<Level>,
    asks: Seq<Level>,
) -> AssetBookModel {
    let spread = spread_of(bids, asks);
    AssetBookModel {
        asset_id,
        label,
        bids: shown_levels(bids),
        asks: shown_levels(asks),
        spread: match spread {
            Some(price) => Some(price.0.text()),
            None => None,
        },
        best_bid: match spread {
            Some(_) => Some(bids[0].price.0.text()),
            None => None,
        },
        best_ask: match spread {
            Some(_) => Some(asks[0].price.0.text()),
            None => None,
        },
    }
}

/// Three columns, each with its text on the right.
pub open spec fn columns(price: Seq<char>, size: Seq<char>, cumul: Seq<char>) -> Seq<char> {
    right_aligned(price, 7) + " | "@ + right_aligned(size, 15) + " | "@ + right_aligned(cumul, 15)
}

/// One row: a bid on the left, an ask on the right, blank where there is none.
pub open spec fn shown_row(
    bids: Seq<BookLevelModel>,
    asks: Seq<BookLevelModel>,
    i: int,
) -> Seq<char> {
    let bid = if i < bids.len() {
        columns(bids[i].price, bids[i].size, bids[i].cumulative)
    } else {
        columns(""@, ""@, ""@)
    };
    let ask = if i < asks.len() {
        "      "@ + columns(asks[i].price, asks[i].size, asks[i].cumulative)
    } else {
        ""@
    };
    "  "@ + bid + ask + "\n"@
}

/// The first `n` rows.
pub open spec fn shown_rows(
    bids: Seq<BookLevelModel>,
    asks: Seq<BookLevelModel>,
    n: nat,
) -> Seq<char>
    decreases n,
{
    if n == 0 {
        seq![]
    } else {
        shown_rows(bids, asks, (n - 1) as nat) + shown_row(bids, asks, n - 1)
    }
}

/// The line with the spread and the best prices, if both sides have a level.
pub open spec fn shown_spread(bids: Seq<Level>, asks: Seq<Level>) -> Seq<char> {
    match spread_of(bids, asks) {
        Some(spread) => "  Spread: "@ + spread.0.text() + " | Best Bid: "@ + bids[0].price.0.text()
            + " | Best Ask: "@ + asks[0].price.0.text() + "\n"@,
        None => seq![],
    }
}

/// The larger of two numbers.
pub open spec fn larger(a: nat, b: nat) -> nat {
    if a < b {
        b
    } else {
        a
    }
}

/// The lines above the rows.
pub open spec fn printed_heading(label: Seq<char>) -> Seq<char> {
    let titles = columns("Price"@, "Size"@, "Cumul."@);
    "=== "@ + label + " Orderbook ===\n"@ + "        BIDS                          ASKS\n"@ + "  "@
        + titles + "      "@ + titles + "\n"@
}

/// The rows, as many as the longer side has.
pub open spec fn printed_rows(bids: Seq<Level>, asks: Seq<Level>) -> Seq<char> {
    let bid_lines = shown_levels(bids);
    let ask_lines = shown_levels(asks);
    shown_rows(bid_lines, ask_lines, larger(bid_lines.len(), ask_lines.len()))
}

/// A book as it is printed.
pub open spec fn printed_book(label: Seq<char>, bids: Seq<Level>, asks: Seq<Level>) -> Seq<char> {
    printed_heading(label) + printed_rows(bids, asks) + shown_spread(bids, asks) + "\n"@
}

// ---------------------------------------------------------------------------
// Showing
// ---------------------------------------------------------------------------

/// The levels of a side that are shown.
pub fn top_levels<I: Iterator<Item = Level>>(levels: I) -> (r: Vec<Level>)
    requires
        levels.obeys_prophetic_iter_laws(),
    ensures
        r@ == shown(levels.remaining()),
{
    let ghost all = levels.remaining();
    let mut levels = levels;
    let mut r: Vec<Level> = Vec::new();
    assert(all.skip(0) =~= all);
    assert(r@ =~= all.take(0));
    while r.len() < DISPLAY_DEPTH
        invariant_except_break
            levels.obeys_prophetic_iter_laws(),
            r@.len() <= all.len(),
            r@.len() <= DISPLAY_DEPTH,
            r@ == all.take(r@.len() as int),
            levels.remaining() == all.skip(r@.len() as int),
        ensures
            r@ == shown(all),
        decreases DISPLAY_DEPTH - r@.len(),
    {
        let ghost k = r@.len() as int;
        match levels.next() {
            Some(level) => {
                r.push(level);
                proof {
                    assert(all.skip(k).drop_first() =~= all.skip(k + 1));
                    assert(all.take(k).push(all[k]) =~= all.take(k + 1));
                }
            },
            None => {
                proof {
                    assert(all.take(k) =~= all);
                }
                break ;
            },
        }
    }
    r
}

pub proof fn lemma_cumulative_none(levels: Seq<Level>, j: nat, k: nat)
    requires
        j <= k,
        cumulative(levels, j) is None,
    ensures
        cumulative(levels, k) is None,
    decreases k,
{
    if j < k {
        lemma_cumulative_none(levels, j, (k - 1) as nat);
    }
}

/// The levels of a side as text, if every sum is a number that a decimal can hold.
pub fn show_levels<I: Iterator<Item = Level>>(levels: I) -> (r: Result<Vec<BookLevel>, Overflow>)
    requires
        levels.obeys_prophetic_iter_laws(),
    ensures
        match r {
            Ok(lines) => sums_fit(levels.remaining()) && level_models(lines@) == shown_levels(
                levels.remaining(),
            ),
            Err(_) => !sums_fit(levels.remaining()),
        },
{
    let ghost all = levels.remaining();
    let top = top_levels(levels);
    let mut lines: Vec<BookLevel> = Vec::new();
    let mut cumul = Decimal::zero();
    let mut i: usize = 0;
    while i < top.len()
        invariant
            i <= top@.len(),
            top@ == shown(all),
            all == levels.remaining(),
            cumulative(all, i as nat) == Some(cumul),
            lines@.len() == i,
            forall|k: int| 0 <= k < i ==> (#[trigger] lines@[k])@ == shown_level(all, k),
        decreases top@.len() - i,
    {
        let level = top[i];
        assert(level == all[i as int]);
        match cumul.checked_add(level.size.0) {
            Some(sum) => cumul = sum,
            None => {
                proof {
                    lemma_cumulative_none(all, (i + 1) as nat, shown(all).len());
                }
                return Err(Overflow);
            },
        }
        lines.push(
            BookLevel {
                price: level.price.to_string(),
                size: level.size.to_string(),
                cumulative: Quantity(cumul).to_string(),
            },
        );
        assert(cumulative(all, (i + 1) as nat) == Some(cumul));
        i = i + 1;
    }
    assert(level_models(lines@) =~= shown_levels(all));
    Ok(lines)
}

fn push_columns(out: &mut String, price: &str, size: &str, cumul: &str)
    ensures
        final(out)@ == old(out)@ + columns(price@, size@, cumul@),
{
    out.append(align_right(price, 7).as_str());
    out.append(" | ");
    out.append(align_right(size, 15).as_str());
    out.append(" | ");
    out.append(align_right(cumul, 15).as_str());
    assert(out@ =~= old(out)@ + columns(price@, size@, cumul@));
}

fn push_row(out: &mut String, bids: &Vec<BookLevel>, asks: &Vec<BookLevel>, i: usize)
    ensures
        final(out)@ == old(out)@ + shown_row(level_models(bids@), level_models(asks@), i as int),
{
    out.append("  ");
    if i < bids.len() {
        push_columns(
            out,
            bids[i].price.as_str(),
            bids[i].size.as_str(),
            bids[i].cumulative.as_str(),
        );
    } else {
        push_columns(out, "", "", "");
    }
    let ghost left = out@;
    if i < asks.len() {
        out.append("      ");
        push_columns(
            out,
            asks[i].price.as_str(),
            asks[i].size.as_str(),
            asks[i].cumulative.as_str(),
        );
    } else {
        out.append("");
    }
    out.append("\n");
    assert(out@ =~= old(out)@ + shown_row(level_models(bids@), level_models(asks@), i as int));
}

fn push_heading(out: &mut String, label: &str)
    ensures
        final(out)@ == old(out)@ + printed_heading(label@),
{
    out.append("=== ");
    out.append(label);
    out.append(" Orderbook ===\n");
    out.append("        BIDS                          ASKS\n");
    out.append("  ");
    push_columns(out, "Price", "Size", "Cumul.");
    out.append("      ");
    push_columns(out, "Price", "Size", "Cumul.");
    out.append("\n");
    assert(out@ =~= old(out)@ + printed_heading(label@));
}

fn push_rows<B: OrderbookLike>(out: &mut String, book: &B)
    requires
        book.wf(),
        book_fits(book.bid_levels(), book.ask_levels()),
    ensures
        final(out)@ == old(out)@ + printed_rows(book.bid_levels(), book.ask_levels()),
{
    let ghost head = out@;
    let (bids, asks) = match (show_levels(book.bids()), show_levels(book.asks())) {
        (Ok(bids), Ok(asks)) => (bids, asks),
        _ => (Vec::new(), Vec::new()),
    };
    let ghost bid_lines = level_models(bids@);
    let ghost ask_lines = level_models(asks@);
    let rows: usize = if bids.len() < asks.len() {
        asks.len()
    } else {
        bids.len()
    };
    let mut i: usize = 0;
    assert(out@ =~= head + shown_rows(bid_lines, ask_lines, 0));
    while i < rows
        invariant
            i <= rows,
            bid_lines == level_models(bids@),
            ask_lines == level_models(asks@),
            out@ == head + shown_rows(bid_lines, ask_lines, i as nat),
        decreases rows - i,
    {
        push_row(out, &bids, &asks, i);
        i = i + 1;
        assert(out@ =~= head + shown_rows(bid_lines, ask_lines, i as nat));
    }
}

fn push_spread<B: OrderbookLike>(out: &mut String, book: &B)
    requires
        book.wf(),
        spread_fits(book.bid_levels(), book.ask_levels()),
    ensures
        final(out)@ == old(out)@ + shown_spread(book.bid_levels(), book.ask_levels()),
{
    if let Some(spread) = book.spread() {
        if let (Some(best_bid), Some(best_ask)) = (book.best_bid(), book.best_ask()) {
            out.append("  Spread: ");
            out.append(spread.to_string().as_str());
            out.append(" | Best Bid: ");
            out.append(best_bid.price.to_string().as_str());
            out.append(" | Best Ask: ");
            out.append(best_ask.price.to_string().as_str());
            out.append("\n");
        }
    }
    assert(out@ =~= old(out)@ + shown_spread(book.bid_levels(), book.ask_levels()));
}

/// Prints a book.
pub fn print_book<B: OrderbookLike>(out: &mut String, label: &str, book: &B)
    requires
        book.wf(),
        book_fits(book.bid_levels(), book.ask_levels()),
    ensures
        final(out)@ == old(out)@ + printed_book(label@, book.bid_levels(), book.ask_levels()),
{
    push_heading(out, label);
    push_rows(out, book);
    push_spread(out, book);
    out.append("\n");
    assert(out@ =~= old(out)@ + printed_book(label@, book.bid_levels(), book.ask_levels()));
}

/// The book of an asset as text.
pub fn show_book<B: OrderbookLike>(asset_id: &str, label: &str, book: &B) -> (r: AssetBook)
    requires
        book.wf(),
        book_fits(book.bid_levels(), book.ask_levels()),
    ensures
        r@ == shown_book(asset_id@, label@, book.bid_levels(), book.ask_levels()),
{
    let (bids, asks) = match (show_levels(book.bids()), show_levels(book.asks())) {
        (Ok(bids), Ok(asks)) => (bids, asks),
        _ => (Vec::new(), Vec::new()),
    };
    let (spread, best_bid, best_ask) = if let Some(spread) = book.spread() {
        let best_bid = match book.best_bid() {
            Some(level) => Some(level.price.to_string()),
            None => None,
        };
        let best_ask = match book.best_ask() {
            Some(level) => Some(level.price.to_string()),
            None => None,
        };
        (Some(spread.to_string()), best_bid, best_ask)
    } else {
        (None, None, None)
    };
    AssetBook {
        asset_id: asset_id.to_string(),
        label: label.to_string(),
        bids,
        asks,
        spread,
        best_bid,
        best_ask,
    }
}

/// Whether every number that is shown of a book is one that a decimal can hold.
pub fn can_show<B: OrderbookLike>(book: &B) -> (r: bool)
    requires
        book.wf(),
    ensures
        r == book_fits(book.bid_levels(), book.ask_levels()),
{
    show_levels(book.bids()).is_ok() && show_levels(book.asks()).is_ok()
        && book.checked_spread().is_ok()
}

} // verus!
