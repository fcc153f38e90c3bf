//! What numbers, levels and books under their ids give, said by what two calls have in
//! common.

use crate::basic_orderbook::{
    equal_levels, same_level, same_levels, BasicOrderbook, Level, OrderbookLike, Overflow, Price,
    Quantity,
};
use crate::decimal::{
    difference_is_exact, digits_of, lemma_pow10_adds, lemma_tick_injective, lemma_zero_decimal,
    padded_digits, pow10, sum_is_exact, Decimal,
};
use crate::display::{show_levels, top_levels, BookLevel};
use crate::orderbooks::{listed, Orderbooks};
use crate::publication_laws::{at_most_five, has_sums, lemma_lines, lemma_sums, lines_show};
use crate::text_laws::{lemma_digits, number_in};
use core::cmp::Ordering;
use vstd::prelude::*;
use vstd::std_specs::iter::IteratorSpec;

verus! {

// ---------------------------------------------------------------------------
// Numbers
// ---------------------------------------------------------------------------

/// Numbers have the same tick exactly where they are equal, however they are written.
pub proof fn law_ticks_tell_numbers_apart(a: &Decimal, tick_a: u128, b: &Decimal, tick_b: u128)
    requires
        call_ensures(Decimal::tick, (a,), tick_a),
        call_ensures(Decimal::tick, (b,), tick_b),
    ensures
        tick_a == tick_b <==> a.value() == b.value(),
{
    lemma_tick_injective(a.value(), b.value());
}

/// Of two numbers one is less than the other, or they are equal; and only zero is zero.
pub proof fn law_numbers_are_ordered(
    a: &Decimal,
    b: &Decimal,
    less: bool,
    greater: bool,
    zero: bool,
)
    requires
        call_ensures(Decimal::less_than, (a, b), less),
        call_ensures(Decimal::less_than, (b, a), greater),
        call_ensures(Decimal::is_zero, (a,), zero),
    ensures
        !(less && greater),
        !less && !greater <==> a.value() == b.value(),
        less <==> b.value() - a.value() > 0,
        zero <==> a.value() == 0,
        zero <==> a.magnitude() == 0,
{
}

/// Where nothing is rounded, a sum less one of its parts is the other one.
pub proof fn law_difference_undoes_sum(
    a: Decimal,
    b: Decimal,
    sum: Option<Decimal>,
    difference: Option<Decimal>,
)
    requires
        sum_is_exact(a, b),
        call_ensures(Decimal::checked_add, (a, b), sum),
        sum is Some ==> difference_is_exact(sum->0, b) && call_ensures(
            Decimal::checked_sub,
            (sum->0, b),
            difference,
        ),
    ensures
        sum is Some,
        difference is Some,
        difference->0.value() == a.value(),
        sum->0.value() - b.value() == a.value(),
{
}

/// A whole number is that number, without a fraction, and zero is the whole number zero.
pub proof fn law_whole_numbers(n: u32, d: Decimal, zero: Decimal)
    requires
        call_ensures(Decimal::from, (n,), d),
        call_ensures(Decimal::zero, (), zero),
    ensures
        d.value() == n * pow10(28),
        d.scale() == 0,
        zero.value() == 0,
        zero.scale() == 0,
        zero.text() == seq!['0'],
{
    lemma_zero_decimal();
}

/// The number that is denoted is the one that the digits with their sign are, divided by
/// ten as often as the scale says.
pub proof fn law_number_denoted(d: Decimal)
    requires
        d.wf(),
    ensures
        d.value() * pow10(d.scale()) == d.signed() * pow10(28),
        d.signed() == d.magnitude() || d.signed() == -d.magnitude(),
        d.negative() && d.magnitude() > 0 <==> d.signed() < 0,
        pow10(0) == 1,
        forall|n: nat| #[trigger] pow10(n + 1) == 10 * pow10(n),
{
    let m = (28 - d.scale()) as nat;
    lemma_pow10_adds(m, d.scale());
    assert(m + d.scale() == 28);
    assert((d.signed() * pow10(m)) * pow10(d.scale()) == d.signed() * (pow10(m) * pow10(
        d.scale(),
    ))) by (nonlinear_arith);
}

/// A number in decimal notation: a minus sign where it has one, its whole part, and behind a
/// point as many digits as its scale says; all of its digits read as its magnitude.
pub open spec fn writes(text: Seq<char>, d: Decimal) -> bool {
    exists|whole: Seq<char>, fraction: Seq<char>|
        #![trigger whole + fraction]
        {
            &&& whole.len() > 0
            &&& fraction.len() == d.scale()
            &&& whole.len() > 1 ==> whole[0] != '0'
            &&& forall|i: int|
                0 <= i < (whole + fraction).len() ==> '0' <= #[trigger] (whole + fraction)[i]
                    <= '9'
            &&& number_in(whole + fraction) == d.magnitude()
            &&& text == (if d.negative() {
                seq!['-']
            } else {
                seq![]
            }) + whole + (if d.scale() == 0 {
                seq![]
            } else {
                seq!['.'] + fraction
            })
        }
}

proof fn lemma_zeros_in_front(n: nat, digits: Seq<char>)
    ensures
        number_in(Seq::new(n, |i: int| '0') + digits) == number_in(digits),
    decreases digits.len(),
{
    let zeros = Seq::new(n, |i: int| '0');
    let all = zeros + digits;
    if digits.len() == 0 {
        assert(all =~= zeros);
        lemma_only_zeros(n);
    } else {
        lemma_zeros_in_front(n, digits.drop_last());
        assert(all.drop_last() =~= zeros + digits.drop_last());
        assert(all.last() == digits.last());
    }
}

proof fn lemma_only_zeros(n: nat)
    ensures
        number_in(Seq::new(n, |i: int| '0')) == 0,
    decreases n,
{
    let zeros = Seq::new(n, |i: int| '0');
    if n > 0 {
        lemma_only_zeros((n - 1) as nat);
        assert(zeros.drop_last() =~= Seq::new((n - 1) as nat, |i: int| '0'));
        assert(zeros.last() == '0');
    }
}

proof fn lemma_writes(d: Decimal)
    ensures
        writes(d.text(), d),
{
    let width = d.scale() + 1;
    let short = digits_of(d.magnitude());
    let digits = padded_digits(d.magnitude(), width);
    lemma_digits(d.magnitude());
    if short.len() < width {
        lemma_zeros_in_front((width - short.len()) as nat, short);
    }
    let n = digits.len() - d.scale();
    let whole = digits.take(n);
    let fraction = digits.skip(n);
    assert(whole + fraction =~= digits);
    assert(number_in(whole + fraction) == d.magnitude());
    if whole.len() > 1 {
        assert(digits == short);
    }
    assert(d.text() =~= (if d.negative() {
        seq!['-']
    } else {
        seq![]
    }) + whole + (if d.scale() == 0 {
        seq![]
    } else {
        seq!['.'] + fraction
    }));
}

/// A number is written in decimal notation, and what is written is read as it.
pub proof fn law_numbers_are_read_as_written(
    d: &Decimal,
    text: String,
    copy: &str,
    r: Option<Decimal>,
)
    requires
        d.wf(),
        !(d.negative() && d.magnitude() == 0),
        call_ensures(Decimal::to_string, (d,), text),
        copy@ == text@,
        call_ensures(Decimal::from_str, (copy,), r),
    ensures
        writes(text@, *d),
        r == Some(*d),
{
    lemma_writes(*d);
}

/// Prices and quantities are read and written as their numbers are.
pub proof fn law_prices_and_quantities_are_numbers(
    text: &str,
    d: Option<Decimal>,
    price: Option<Price>,
    size: Option<Quantity>,
    written: String,
    price_text: String,
    size_text: String,
)
    requires
        call_ensures(Decimal::from_str, (text,), d),
        call_ensures(Price::from_str, (text,), price),
        call_ensures(Quantity::from_str, (text,), size),
        d is Some ==> call_ensures(Decimal::to_string, (&d->0,), written),
        price is Some ==> call_ensures(Price::to_string, (&price->0,), price_text),
        size is Some ==> call_ensures(Quantity::to_string, (&size->0,), size_text),
    ensures
        d is Some <==> price is Some,
        d is Some <==> size is Some,
        d is Some ==> (price->0).0 == d->0 && (size->0).0 == d->0 && price_text@ == written@
            && size_text@ == written@,
{
}

/// Levels are equal where their prices and sizes are, one by one.
pub proof fn law_equal_levels(a: &Vec<Level>, b: &Vec<Level>, r: bool)
    requires
        call_ensures(equal_levels, (a, b), r),
    ensures
        r <==> same_listed(a@, b@),
{
    lemma_same_listed(a@, b@);
}

/// Numbers, prices and quantities are equal where the numbers are, however they are written,
/// and levels where both are.
pub proof fn law_equality(
    a: Level,
    b: Level,
    same_level: bool,
    same_price: bool,
    same_size: bool,
    same_number: bool,
)
    requires
        call_ensures(Level::eq, (&a, &b), same_level),
        call_ensures(Price::eq, (&a.price, &b.price), same_price),
        call_ensures(Quantity::eq, (&a.size, &b.size), same_size),
        call_ensures(Decimal::eq, (&a.price.0, &b.price.0), same_number),
    ensures
        same_level <==> same_price && same_size,
        same_price <==> a.price.0.value() == b.price.0.value(),
        same_size <==> a.size.0.value() == b.size.0.value(),
        same_number <==> same_price,
{
}

/// Numbers, prices and quantities are in the order of the numbers.
pub proof fn law_order(
    a: Decimal,
    b: Decimal,
    numbers: Option<Ordering>,
    prices: Option<Ordering>,
    quantities: Option<Ordering>,
)
    requires
        call_ensures(Decimal::partial_cmp, (&a, &b), numbers),
        call_ensures(Price::partial_cmp, (&Price(a), &Price(b)), prices),
        call_ensures(Quantity::partial_cmp, (&Quantity(a), &Quantity(b)), quantities),
    ensures
        numbers == Some(Ordering::Less) <==> a.value() < b.value(),
        numbers == Some(Ordering::Equal) <==> a.value() == b.value(),
        numbers == Some(Ordering::Greater) <==> a.value() > b.value(),
        prices == numbers,
        quantities == numbers,
{
}

/// Books of the reference kind are equal where they list equal levels.
pub proof fn law_equal_books(a: &BasicOrderbook, b: &BasicOrderbook, r: bool)
    requires
        call_ensures(BasicOrderbook::eq, (a, b), r),
    ensures
        r <==> same_listed(a.bid_levels(), b.bid_levels()) && same_listed(
            a.ask_levels(),
            b.ask_levels(),
        ),
{
    lemma_same_listed(a.bid_levels(), b.bid_levels());
    lemma_same_listed(a.ask_levels(), b.ask_levels());
}

/// The levels have the same prices and sizes, one by one.
pub open spec fn same_listed(a: Seq<Level>, b: Seq<Level>) -> bool {
    a.len() == b.len() && forall|i: int|
        0 <= i < a.len() ==> (#[trigger] a[i]).price.0.value() == b[i].price.0.value()
            && a[i].size.0.value() == b[i].size.0.value()
}

proof fn lemma_same_listed(a: Seq<Level>, b: Seq<Level>)
    ensures
        same_levels(a, b) <==> same_listed(a, b),
{
    if same_listed(a, b) {
        assert forall|i: int| 0 <= i < a.len() implies same_level(#[trigger] a[i], b[i]) by {}
    }
    if same_levels(a, b) {
        assert forall|i: int| 0 <= i < a.len() implies (#[trigger] a[i]).price.0.value()
            == b[i].price.0.value() && a[i].size.0.value() == b[i].size.0.value() by {
            assert(same_level(a[i], b[i]));
        }
    }
}

// ---------------------------------------------------------------------------
// What is shown of a side
// ---------------------------------------------------------------------------

/// Of a side the first levels are taken, five at most.
pub proof fn law_top_levels<I: Iterator<Item = Level>>(levels: I, r: Vec<Level>)
    requires
        levels.obeys_prophetic_iter_laws(),
        call_ensures(top_levels::<I>, (levels,), r),
    ensures
        r@.len() == at_most_five(levels.remaining().len()),
        forall|i: int| 0 <= i < r@.len() ==> #[trigger] r@[i] == levels.remaining()[i],
{
}

/// The first levels of a side are shown, five at most, each with the sum of the sizes up to
/// it; or none where a sum is a number that no decimal can hold.
pub proof fn law_show_levels<I: Iterator<Item = Level>>(
    levels: I,
    r: Result<Vec<BookLevel>, Overflow>,
)
    requires
        levels.obeys_prophetic_iter_laws(),
        call_ensures(show_levels::<I>, (levels,), r),
    ensures
        r is Ok <==> has_sums(levels.remaining()),
        r is Ok ==> lines_show(r->Ok_0@, levels.remaining()),
{
    lemma_sums(levels.remaining());
    if r is Ok {
        lemma_lines(r->Ok_0@, levels.remaining());
    }
}

// ---------------------------------------------------------------------------
// Books under their ids
// ---------------------------------------------------------------------------

/// A new collection has no book.
pub proof fn law_no_books<B: Default>(books: &Orderbooks<B>, id: &str, r: Option<&B>)
    requires
        call_ensures(Orderbooks::<B>::new, (), *books),
        call_ensures(Orderbooks::<B>::get, (books, id), r),
    ensures
        r is None,
{
}

/// The book that `book_mut` gives is the one that was there, or a new one, and what becomes
/// of it is what is found under its id; every other id finds what it did.
pub proof fn law_book_mut<B: Default>(
    books: &mut Orderbooks<B>,
    id: &str,
    book: &mut B,
    other: &str,
    before: &Orderbooks<B>,
    found: Option<&B>,
    other_found: Option<&B>,
    after: &Orderbooks<B>,
    now: Option<&B>,
    other_now: Option<&B>,
)
    requires
        call_ensures(Orderbooks::<B>::book_mut, (books, id), book),
        *before == *old(books),
        *after == *final(books),
        other@ != id@,
        call_ensures(Orderbooks::<B>::get, (before, id), found),
        call_ensures(Orderbooks::<B>::get, (before, other), other_found),
        call_ensures(Orderbooks::<B>::get, (after, id), now),
        call_ensures(Orderbooks::<B>::get, (after, other), other_now),
    ensures
        found is Some ==> *old(book) == *(found->0),
        found is None ==> call_ensures(B::default, (), *old(book)),
        now is Some,
        *(now->0) == *final(book),
        other_now is Some == other_found is Some,
        other_found is Some ==> *(other_now->0) == *(other_found->0),
{
}

/// The assets are those under whose ids a book is found, each once and with that book.
pub proof fn law_assets<B: Default>(
    books: &Orderbooks<B>,
    r: Vec<(&String, &B)>,
    id: &str,
    found: Option<&B>,
)
    requires
        call_ensures(Orderbooks::<B>::assets, (books,), r),
        call_ensures(Orderbooks::<B>::get, (books, id), found),
    ensures
        found is None ==> forall|i: int| 0 <= i < r@.len() ==> (#[trigger] r@[i]).0@ != id@,
        found is Some ==> exists|i: int|
            0 <= i < r@.len() && (#[trigger] r@[i]).0@ == id@ && *r@[i].1 == *(found->0)
                && forall|j: int|
                0 <= j < r@.len() && j != i ==> (#[trigger] r@[j]).0@ != id@,
{
    if found is Some {
        assert(books@.contains_key(id@));
        assert(listed(r@, id@));
        let i = choose|i: int| 0 <= i < r@.len() && (#[trigger] r@[i]).0@ == id@;
        assert forall|j: int| 0 <= j < r@.len() && j != i implies (#[trigger] r@[j]).0@
            != id@ by {
            if i < j {
                assert(r@[i].0@ != r@[j].0@);
            } else {
                assert(r@[j].0@ != r@[i].0@);
            }
        }
        assert(r@[i].0@ == id@);
    }
}

/// The book that `get_mut` gives is the one that was there, if there was one, and what
/// becomes of it is what is found under its id; every other id finds what it did.
pub proof fn law_get_mut<B: Default>(
    books: &mut Orderbooks<B>,
    id: &str,
    book: Option<&mut B>,
    other: &str,
    before: &Orderbooks<B>,
    found: Option<&B>,
    other_found: Option<&B>,
    after: &Orderbooks<B>,
    now: Option<&B>,
    other_now: Option<&B>,
)
    requires
        call_ensures(Orderbooks::<B>::get_mut, (books, id), book),
        *before == *old(books),
        *after == *final(books),
        other@ != id@,
        call_ensures(Orderbooks::<B>::get, (before, id), found),
        call_ensures(Orderbooks::<B>::get, (before, other), other_found),
        call_ensures(Orderbooks::<B>::get, (after, id), now),
        call_ensures(Orderbooks::<B>::get, (after, other), other_now),
    ensures
        book is Some <==> found is Some,
        now is Some <==> found is Some,
        found is Some ==> *(book->0) == *(found->0) && *(now->0) == *final(book->0),
        other_now is Some == other_found is Some,
        other_found is Some ==> *(other_now->0) == *(other_found->0),
{
}

} // verus!
