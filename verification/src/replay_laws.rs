//! What a captured feed is read as, said of its lines.

use crate::array_laws::{handles, lemma_outcome, told_by};
use crate::basic_orderbook::OrderbookLike;
use crate::json::Json;
use crate::message_laws::{lemma_same_reports, same_outcome, same_watch};
use crate::observer::{messages_in, report_models, Interrupted, OrderbookObserver, Report};
use crate::observer_laws::lemma_alike_books;
use crate::replay::{
    capture_line, record_in, records, records_in, replay_record, texts_of, Replayed,
};
use crate::text::{lemma_line_end, line_end, trimmed};
use crate::text_laws::{all_blank, lemma_trimmed, padded, tight};
use vstd::prelude::*;

verus! {

/// The texts are the same, one by one.
pub open spec fn same_texts(a: Seq<&str>, b: Seq<&str>) -> bool {
    &&& a.len() == b.len()
    &&& forall|i: int| 0 <= i < a.len() ==> (#[trigger] a[i])@ == b[i]@
}

proof fn lemma_same_texts(a: Seq<&str>, b: Seq<&str>)
    requires
        texts_of(a) == texts_of(b),
    ensures
        same_texts(a, b),
{
    assert(a.len() == texts_of(a).len());
    assert(b.len() == texts_of(b).len());
    assert forall|i: int| 0 <= i < a.len() implies (#[trigger] a[i])@ == b[i]@ by {
        assert(texts_of(a)[i] == a[i]@);
        assert(texts_of(b)[i] == b[i]@);
    }
}

/// A line is one record, without the white space around it; a blank one is none.
pub proof fn law_records_of_a_line(text: &str, r: Vec<&str>)
    requires
        !text@.contains('\n'),
        call_ensures(records, (text,), r),
    ensures
        all_blank(text@) ==> r@.len() == 0,
        !all_blank(text@) ==> r@.len() == 1 && r@[0]@.len() > 0 && tight(r@[0]@) && padded(
            text@,
            r@[0]@,
        ),
{
    lemma_line_end(text@);
    if line_end(text@) < text@.len() {
        assert(text@.contains(text@[line_end(text@)]));
    }
    let word = trimmed(text@);
    lemma_trimmed(text@, word);
    assert(r@.len() == texts_of(r@).len());
    if all_blank(text@) {
        let none = Seq::<char>::empty();
        assert(text@ =~= none + none + text@);
        assert(padded(text@, none));
        lemma_trimmed(text@, none);
    } else {
        if word.len() == 0 {
            let (f, b) = choose|f: Seq<char>, b: Seq<char>|
                #![trigger f + word + b]
                text@ == f + word + b && all_blank(f) && all_blank(b);
            assert(all_blank(text@));
        }
        assert(texts_of(r@)[0] == r@[0]@);
    }
}

proof fn lemma_records_join(a: Seq<char>, b: Seq<char>)
    ensures
        records_in(a + seq!['\n'] + b) == records_in(a) + records_in(b),
    decreases a.len(),
{
    let all = a + seq!['\n'] + b;
    let n = line_end(a);
    lemma_line_end(a);
    lemma_line_end(all);
    assert forall|i: int| 0 <= i < n implies all[i] != '\n' by {
        assert(all[i] == a[i]);
    }
    assert(all[n] == '\n');
    assert(line_end(all) == n);
    assert(all.take(n) =~= a.take(n));
    if n == a.len() {
        assert(a.take(n) =~= a);
        assert(all.skip(n + 1) =~= b);
    } else {
        let rest = a.skip(n + 1);
        lemma_records_join(rest, b);
        assert(all.skip(n + 1) =~= rest + seq!['\n'] + b);
        assert(records_in(all) =~= record_in(a.take(n)) + records_in(rest) + records_in(b));
    }
}

/// The records of two texts with a line feed between them are those of the first and then
/// those of the second.
pub proof fn law_records_line_after_line(
    text: &str,
    r: Vec<&str>,
    first: &str,
    first_r: Vec<&str>,
    second: &str,
    second_r: Vec<&str>,
)
    requires
        text@ == first@ + seq!['\n'] + second@,
        call_ensures(records, (text,), r),
        call_ensures(records, (first,), first_r),
        call_ensures(records, (second,), second_r),
    ensures
        same_texts(r@, first_r@ + second_r@),
{
    lemma_records_join(first@, second@);
    assert(texts_of(first_r@ + second_r@) =~= texts_of(first_r@) + texts_of(second_r@));
    lemma_same_texts(r@, first_r@ + second_r@);
}

/// A value is captured as its text and a line feed.
pub proof fn law_capture_line(value: &Json, line: String, text: String)
    requires
        call_ensures(capture_line, (value,), line),
        call_ensures(Json::to_text, (value,), text),
    ensures
        line@ == text@.push('\n'),
{
    assert(line@ =~= text@.push('\n'));
}

/// A record that reads as a value is handled as the value is.
pub proof fn law_replay_record<B: OrderbookLike>(
    observer: &mut OrderbookObserver<B>,
    record: &str,
    r: Replayed,
    other: &mut OrderbookObserver<B>,
    read: Result<Json, String>,
    other_r: Result<Vec<Report>, Interrupted>,
)
    requires
        old(observer).inv(),
        *old(other) == *old(observer),
        call_ensures(replay_record::<B>, (observer, record), r),
        call_ensures(Json::parse, (record,), read),
        read is Ok,
        call_ensures(OrderbookObserver::<B>::on_json_message, (other, read->Ok_0), other_r),
    ensures
        other_r is Ok ==> r is Handled && same_outcome(
            final(observer),
            r->Handled_0@,
            final(other),
            told_by(other_r),
        ),
        other_r is Err ==> r is Interrupted && same_outcome(
            final(observer),
            r->Interrupted_0@,
            final(other),
            told_by(other_r),
        ),
{
    let assets = old(observer).assets();
    let verbose = old(observer).verbose();
    let before = old(observer).kept();
    let messages = messages_in(read->Ok_0@);
    let told = match r {
        Replayed::Handled(reports) => reports@,
        Replayed::Interrupted(reports) => reports@,
        Replayed::Unreadable(_) => seq![],
    };
    lemma_alike_books(before);
    assert(handles(
        assets,
        verbose,
        before,
        messages,
        final(observer).kept(),
        report_models(told),
        r is Handled,
    ));
    lemma_outcome(
        assets,
        verbose,
        messages,
        before,
        final(observer).kept(),
        report_models(told),
        r is Handled,
        before,
        final(other).kept(),
        report_models(told_by(other_r)),
        other_r is Ok,
    );
    lemma_same_reports(told, told_by(other_r));
}

/// A record that does not read as a value is told to be unreadable, for the reason that
/// reading it gives, and changes nothing.
pub proof fn law_replay_unreadable<B: OrderbookLike>(
    observer: &mut OrderbookObserver<B>,
    record: &str,
    r: Replayed,
    read: Result<Json, String>,
)
    requires
        old(observer).inv(),
        call_ensures(replay_record::<B>, (observer, record), r),
        call_ensures(Json::parse, (record,), read),
        read is Err,
    ensures
        r is Unreadable,
        r->Unreadable_0@ == read->Err_0@,
        same_watch(old(observer), final(observer)),
        final(observer).kept() == old(observer).kept(),
{
}

} // verus!
