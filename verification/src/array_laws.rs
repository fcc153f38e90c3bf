//! What a value of the feed does, whether it is a message or an array of messages.

use crate::basic_orderbook::{OrderbookLike, Overflow};
use crate::json::{Json, JsonModel};
use crate::message_laws::{lemma_same_reports, same_outcome, same_watch};
use crate::observer::{
    books_fit, course_fits, lemma_reports_kept, message_gives, message_warnings, messages_give,
    messages_in, messages_overflow, messages_take, report_models, reports_of, told, AssetConfig,
    Interrupted, OrderbookObserver, Report, ReportModel,
};
use crate::observer_laws::{
    alike_books, law_array_is_sequential, law_handling_is_determined, law_message_is_determined,
    law_publication_is_determined, law_single_message, lemma_alike_books, lemma_course_determined,
    lemma_reports_joined, lemma_warnings_alike,
};
use vstd::prelude::*;

verus! {

/// What was told, whether or not the handling was interrupted.
pub open spec fn told_by(r: Result<Vec<Report>, Interrupted>) -> Seq<Report> {
    match r {
        Ok(reports) => reports@,
        Err(interrupted) => interrupted.reports@,
    }
}

/// The messages are handled, all of them or up to one that interrupts.
pub open spec fn handles<B: OrderbookLike>(
    assets: Seq<AssetConfig>,
    verbose: bool,
    before: Map<Seq<char>, B>,
    messages: Seq<JsonModel>,
    after: Map<Seq<char>, B>,
    reports: Seq<ReportModel>,
    all: bool,
) -> bool {
    if all {
        messages_give(assets, verbose, before, messages, after, reports)
    } else {
        messages_overflow(assets, verbose, before, messages, after, reports)
    }
}

/// The messages are handled as far as one that interrupts, the `k`-th.
spec fn stops_at<B: OrderbookLike>(
    assets: Seq<AssetConfig>,
    verbose: bool,
    before: Map<Seq<char>, B>,
    messages: Seq<JsonModel>,
    after: Map<Seq<char>, B>,
    reports: Seq<ReportModel>,
    k: int,
    course: Seq<Map<Seq<char>, B>>,
    anew: Seq<bool>,
) -> bool {
    0 < k <= messages.len() && messages_take(assets, messages.take(k), course, anew) && course[0]
        == before && course.last() == after && course_fits(
        assets,
        course.drop_last(),
        anew.drop_last(),
    ) && anew.last() && !books_fit(assets, after) && reports == reports_of(
        assets,
        verbose,
        messages,
        course,
        anew,
        (k - 1) as nat,
    ) + message_warnings(assets, course[k - 1], messages[k - 1])
}

/// The first part of a course.
proof fn lemma_course_take<B: OrderbookLike>(
    assets: Seq<AssetConfig>,
    messages: Seq<JsonModel>,
    course: Seq<Map<Seq<char>, B>>,
    anew: Seq<bool>,
    k: int,
)
    requires
        messages_take(assets, messages, course, anew),
        0 <= k <= messages.len(),
    ensures
        messages_take(assets, messages.take(k), course.take(k + 1), anew.take(k)),
{
    let c = course.take(k + 1);
    let a = anew.take(k);
    let m = messages.take(k);
    assert forall|i: int| 0 <= i < m.len() implies #[trigger] message_gives(
        assets,
        c[i],
        m[i],
        c[i + 1],
        a[i],
    ) by {
        assert(message_gives(assets, course[i], messages[i], course[i + 1], anew[i]));
    }
}

/// Two courses of the same messages agree as far as both go, and so does what is told.
proof fn lemma_agree<B: OrderbookLike>(
    assets: Seq<AssetConfig>,
    verbose: bool,
    messages: Seq<JsonModel>,
    m: int,
    course_a: Seq<Map<Seq<char>, B>>,
    anew_a: Seq<bool>,
    n: int,
    course_b: Seq<Map<Seq<char>, B>>,
    anew_b: Seq<bool>,
    k: int,
)
    requires
        messages_take(assets, messages.take(m), course_a, anew_a),
        messages_take(assets, messages.take(n), course_b, anew_b),
        alike_books(course_a[0], course_b[0]),
        0 <= k <= m <= messages.len(),
        k <= n <= messages.len(),
    ensures
        alike_books(course_a[k], course_b[k]),
        books_fit(assets, course_a[k]) == books_fit(assets, course_b[k]),
        k > 0 ==> anew_a[k - 1] == anew_b[k - 1],
        k < messages.len() ==> message_warnings(assets, course_a[k], messages[k])
            == message_warnings(assets, course_b[k], messages[k]),
        reports_of(assets, verbose, messages, course_a, anew_a, k as nat) == reports_of(
            assets,
            verbose,
            messages,
            course_b,
            anew_b,
            k as nat,
        ),
{
    let part = messages.take(k);
    let ca = course_a.take(k + 1);
    let aa = anew_a.take(k);
    let cb = course_b.take(k + 1);
    let ab = anew_b.take(k);
    assert(messages.take(m).take(k) =~= part);
    assert(messages.take(n).take(k) =~= part);
    lemma_course_take(assets, messages.take(m), course_a, anew_a, k);
    lemma_course_take(assets, messages.take(n), course_b, anew_b, k);
    lemma_course_determined(assets, verbose, part, ca, aa, cb, ab, k as nat);
    lemma_reports_kept(assets, verbose, part, ca, aa, messages, course_a, anew_a, k as nat);
    lemma_reports_kept(assets, verbose, part, cb, ab, messages, course_b, anew_b, k as nat);
    law_publication_is_determined(assets, verbose, course_a[k], course_b[k]);
    if k > 0 {
        let i = k - 1;
        lemma_course_determined(assets, verbose, part, ca, aa, cb, ab, i as nat);
        assert(message_gives(assets, ca[i], part[i], ca[i + 1], aa[i]));
        assert(message_gives(assets, cb[i], part[i], cb[i + 1], ab[i]));
        law_message_is_determined(
            assets,
            ca[i],
            cb[i],
            part[i],
            ca[i + 1],
            aa[i],
            cb[i + 1],
            ab[i],
        );
    }
    if k < messages.len() {
        lemma_warnings_alike(assets, course_a[k], course_b[k], messages[k]);
    }
}

/// The same is warned of whether the messages interrupt or not.
pub proof fn lemma_outcome<B: OrderbookLike>(
    assets: Seq<AssetConfig>,
    verbose: bool,
    messages: Seq<JsonModel>,
    a: Map<Seq<char>, B>,
    after_a: Map<Seq<char>, B>,
    reports_a: Seq<ReportModel>,
    all_a: bool,
    b: Map<Seq<char>, B>,
    after_b: Map<Seq<char>, B>,
    reports_b: Seq<ReportModel>,
    all_b: bool,
)
    requires
        alike_books(a, b),
        handles(assets, verbose, a, messages, after_a, reports_a, all_a),
        handles(assets, verbose, b, messages, after_b, reports_b, all_b),
    ensures
        all_a == all_b,
        alike_books(after_a, after_b),
        reports_a == reports_b,
{
    if all_a && all_b {
        law_handling_is_determined(
            assets,
            verbose,
            messages,
            a,
            after_a,
            reports_a,
            b,
            after_b,
            reports_b,
        );
    } else if all_a {
        lemma_no_stop(assets, verbose, messages, a, after_a, reports_a, b, after_b, reports_b);
    } else if all_b {
        lemma_alike_back(a, b);
        lemma_no_stop(assets, verbose, messages, b, after_b, reports_b, a, after_a, reports_a);
    } else {
        let (k, ca, na) = choose|k: int, course: Seq<Map<Seq<char>, B>>, anew: Seq<bool>|
            stops_at(assets, verbose, a, messages, after_a, reports_a, k, course, anew);
        let (l, cb, nb) = choose|k: int, course: Seq<Map<Seq<char>, B>>, anew: Seq<bool>|
            stops_at(assets, verbose, b, messages, after_b, reports_b, k, course, anew);
        lemma_stops(assets, verbose, a, messages, after_a, reports_a);
        lemma_stops(assets, verbose, b, messages, after_b, reports_b);
        let least = if k < l {
            k
        } else {
            l
        };
        lemma_agree(assets, verbose, messages, k, ca, na, l, cb, nb, least);
        if k < l {
            assert(nb.drop_last()[k - 1]);
            assert(cb.drop_last()[k] == cb[k]);
            assert(false);
        }
        if l < k {
            assert(na.drop_last()[l - 1]);
            assert(ca.drop_last()[l] == ca[l]);
            assert(false);
        }
        lemma_agree(assets, verbose, messages, k, ca, na, l, cb, nb, k - 1);
    }
}

proof fn lemma_stops<B: OrderbookLike>(
    assets: Seq<AssetConfig>,
    verbose: bool,
    before: Map<Seq<char>, B>,
    messages: Seq<JsonModel>,
    after: Map<Seq<char>, B>,
    reports: Seq<ReportModel>,
)
    ensures
        messages_overflow(assets, verbose, before, messages, after, reports) <==> exists|
            k: int,
            course: Seq<Map<Seq<char>, B>>,
            anew: Seq<bool>,
        |
            stops_at(assets, verbose, before, messages, after, reports, k, course, anew),
{
    if messages_overflow(assets, verbose, before, messages, after, reports) {
        let (k, course, anew) = choose|
            k: int,
            course: Seq<Map<Seq<char>, B>>,
            anew: Seq<bool>,
        |
            0 < k <= messages.len() && #[trigger] messages_take(
                assets,
                messages.take(k),
                course,
                anew,
            ) && course[0] == before && course.last() == after && course_fits(
                assets,
                course.drop_last(),
                anew.drop_last(),
            ) && anew.last() && !books_fit(assets, after) && reports == reports_of(
                assets,
                verbose,
                messages,
                course,
                anew,
                (k - 1) as nat,
            ) + message_warnings(assets, course[k - 1], messages[k - 1]);
        assert(stops_at(assets, verbose, before, messages, after, reports, k, course, anew));
    }
    if exists|k: int, course: Seq<Map<Seq<char>, B>>, anew: Seq<bool>|
        stops_at(assets, verbose, before, messages, after, reports, k, course, anew) {
        let (k, course, anew) = choose|
            k: int,
            course: Seq<Map<Seq<char>, B>>,
            anew: Seq<bool>,
        |
            stops_at(assets, verbose, before, messages, after, reports, k, course, anew);
        assert(messages_take(assets, messages.take(k), course, anew));
    }
}

/// Messages that are all handled interrupt nowhere.
proof fn lemma_no_stop<B: OrderbookLike>(
    assets: Seq<AssetConfig>,
    verbose: bool,
    messages: Seq<JsonModel>,
    a: Map<Seq<char>, B>,
    after_a: Map<Seq<char>, B>,
    reports_a: Seq<ReportModel>,
    b: Map<Seq<char>, B>,
    after_b: Map<Seq<char>, B>,
    reports_b: Seq<ReportModel>,
)
    requires
        alike_books(a, b),
        messages_give(assets, verbose, a, messages, after_a, reports_a),
    ensures
        !messages_overflow(assets, verbose, b, messages, after_b, reports_b),
{
    let (ca, na) = choose|course: Seq<Map<Seq<char>, B>>, anew: Seq<bool>| #[trigger]
        messages_take(assets, messages, course, anew) && course[0] == a && course.last()
            == after_a && course_fits(assets, course, anew) && reports_a == reports_of(
            assets,
            verbose,
            messages,
            course,
            anew,
            messages.len(),
        );
    if messages_overflow(assets, verbose, b, messages, after_b, reports_b) {
        lemma_stops(assets, verbose, b, messages, after_b, reports_b);
        let (k, cb, nb) = choose|k: int, course: Seq<Map<Seq<char>, B>>, anew: Seq<bool>|
            stops_at(assets, verbose, b, messages, after_b, reports_b, k, course, anew);
        let n = messages.len() as int;
        assert(messages.take(n) =~= messages);
        lemma_agree(assets, verbose, messages, n, ca, na, k, cb, nb, k);
        assert(nb[k - 1]);
        assert(na[k - 1]);
        assert(books_fit(assets, ca[k - 1 + 1]));
    }
}

proof fn lemma_alike_back<B: OrderbookLike>(a: Map<Seq<char>, B>, b: Map<Seq<char>, B>)
    requires
        alike_books(a, b),
    ensures
        alike_books(b, a),
{
    assert forall|id: Seq<char>| #[trigger] b.contains_key(id) implies b[id].alike(&a[id]) by {
        assert(a.dom().contains(id));
        assert(a.contains_key(id));
        B::law_alike(&a[id], &b[id], &b[id]);
    }
}

/// Messages that are handled after others are handled with them, and so is what
/// interrupts them.
proof fn lemma_joined<B: OrderbookLike>(
    assets: Seq<AssetConfig>,
    verbose: bool,
    before: Map<Seq<char>, B>,
    first: Seq<JsonModel>,
    between: Map<Seq<char>, B>,
    early: Seq<ReportModel>,
    second: Seq<JsonModel>,
    after: Map<Seq<char>, B>,
    late: Seq<ReportModel>,
    all: bool,
)
    requires
        messages_give(assets, verbose, before, first, between, early),
        handles(assets, verbose, between, second, after, late, all),
    ensures
        handles(assets, verbose, before, first + second, after, early + late, all),
{
    if all {
        law_array_is_sequential(
            assets,
            verbose,
            before,
            first,
            between,
            early,
            second,
            after,
            late,
        );
    } else {
        lemma_stops(assets, verbose, between, second, after, late);
        let (k, c2, a2) = choose|k: int, course: Seq<Map<Seq<char>, B>>, anew: Seq<bool>|
            stops_at(assets, verbose, between, second, after, late, k, course, anew);
        let (c1, a1) = choose|course: Seq<Map<Seq<char>, B>>, anew: Seq<bool>| #[trigger]
            messages_take(assets, first, course, anew) && course[0] == before && course.last()
                == between && course_fits(assets, course, anew) && early == reports_of(
                assets,
                verbose,
                first,
                course,
                anew,
                first.len(),
            );
        let course = c1 + c2.drop_first();
        let anew = a1 + a2;
        let messages = first + second;
        let n = first.len() as int;
        let part = messages.take(n + k);
        assert(part =~= first + second.take(k));
        assert(forall|i: int| 0 <= i < c2.len() ==> #[trigger] course[n + i] == c2[i]);
        assert(forall|i: int| 0 <= i < c1.len() ==> #[trigger] course[i] == c1[i]);
        assert forall|i: int| 0 <= i < part.len() implies #[trigger] message_gives(
            assets,
            course[i],
            part[i],
            course[i + 1],
            anew[i],
        ) by {
            if i < n {
                assert(message_gives(assets, c1[i], first[i], c1[i + 1], a1[i]));
            } else {
                let j = i - n;
                assert(message_gives(assets, c2[j], second.take(k)[j], c2[j + 1], a2[j]));
                assert(course[n + j] == c2[j] && course[n + (j + 1)] == c2[j + 1]);
            }
        }
        let c = course.drop_last();
        let a = anew.drop_last();
        assert forall|i: int| 0 <= i < a.len() && #[trigger] a[i] implies books_fit(
            assets,
            c[i + 1],
        ) by {
            if i < n {
                assert(a1[i]);
            } else {
                assert(a2.drop_last()[i - n]);
                assert(course[n + (i - n + 1)] == c2[i - n + 1]);
                assert(c2.drop_last()[i - n + 1] == c2[i - n + 1]);
            }
        }
        lemma_reports_kept(assets, verbose, first, c1, a1, part, course, anew, first.len());
        lemma_reports_joined(
            assets,
            verbose,
            second.take(k),
            c2,
            a2,
            part,
            course,
            anew,
            first.len(),
            (k - 1) as nat,
        );
        lemma_reports_kept(
            assets,
            verbose,
            part,
            course,
            anew,
            messages,
            course,
            anew,
            (n + k - 1) as nat,
        );
        lemma_reports_kept(
            assets,
            verbose,
            second.take(k),
            c2,
            a2,
            second,
            c2,
            a2,
            (k - 1) as nat,
        );
        assert(course[n + (k - 1)] == c2[k - 1]);
        assert(messages[n + k - 1] == second[k - 1]);
        assert(course.last() == c2.last());
        let warnings = message_warnings(assets, c2[k - 1], second[k - 1]);
        assert(early + late =~= reports_of(
            assets,
            verbose,
            messages,
            course,
            anew,
            (n + k - 1) as nat,
        ) + warnings);
        assert(stops_at(
            assets,
            verbose,
            before,
            messages,
            after,
            early + late,
            n + k,
            course,
            anew,
        ));
        lemma_stops(assets, verbose, before, messages, after, early + late);
    }
}

/// What interrupts some messages interrupts them and more.
proof fn lemma_stop_stays<B: OrderbookLike>(
    assets: Seq<AssetConfig>,
    verbose: bool,
    before: Map<Seq<char>, B>,
    first: Seq<JsonModel>,
    second: Seq<JsonModel>,
    after: Map<Seq<char>, B>,
    reports: Seq<ReportModel>,
)
    requires
        messages_overflow(assets, verbose, before, first, after, reports),
    ensures
        messages_overflow(assets, verbose, before, first + second, after, reports),
{
    lemma_stops(assets, verbose, before, first, after, reports);
    let (k, course, anew) = choose|k: int, course: Seq<Map<Seq<char>, B>>, anew: Seq<bool>|
        stops_at(assets, verbose, before, first, after, reports, k, course, anew);
    let all = first + second;
    assert(all.take(k) =~= first.take(k));
    lemma_reports_kept(
        assets,
        verbose,
        first.take(k),
        course,
        anew,
        all,
        course,
        anew,
        (k - 1) as nat,
    );
    lemma_reports_kept(
        assets,
        verbose,
        first.take(k),
        course,
        anew,
        first,
        course,
        anew,
        (k - 1) as nat,
    );
    assert(stops_at(assets, verbose, before, all, after, reports, k, course, anew));
    lemma_stops(assets, verbose, before, all, after, reports);
}

/// An array of messages does what its parts do one after the other: the books are alike in
/// the end, and the reports are those about the first part and then those about the second.
/// Where the first part interrupts, the second is not handled.
pub proof fn law_messages_one_after_the_other<B: OrderbookLike>(
    whole: &mut OrderbookObserver<B>,
    value: Json,
    r: Result<Vec<Report>, Interrupted>,
    first: &mut OrderbookObserver<B>,
    first_value: Json,
    first_r: Result<Vec<Report>, Interrupted>,
    second: &mut OrderbookObserver<B>,
    second_value: Json,
    second_r: Result<Vec<Report>, Interrupted>,
    a: Seq<JsonModel>,
    b: Seq<JsonModel>,
)
    requires
        old(whole).inv(),
        *old(first) == *old(whole),
        *old(second) == *final(first),
        value@ == JsonModel::Array(a + b),
        first_value@ == JsonModel::Array(a),
        second_value@ == JsonModel::Array(b),
        call_ensures(OrderbookObserver::<B>::on_json_message, (whole, value), r),
        call_ensures(OrderbookObserver::<B>::on_json_message, (first, first_value), first_r),
        call_ensures(OrderbookObserver::<B>::on_json_message, (second, second_value), second_r),
    ensures
        first_r is Err ==> r is Err && same_outcome(
            final(whole),
            told_by(r),
            final(first),
            told_by(first_r),
        ),
        first_r is Ok ==> r is Ok == second_r is Ok && same_outcome(
            final(whole),
            told_by(r),
            final(second),
            told_by(first_r) + told_by(second_r),
        ),
{
    let assets = old(whole).assets();
    let verbose = old(whole).verbose();
    let before = old(whole).kept();
    let between = final(first).kept();
    let after = final(second).kept();
    let early = report_models(told_by(first_r));
    let late = report_models(told_by(second_r));
    let reports = report_models(told_by(r));
    lemma_alike_books(before);
    assert(handles(assets, verbose, before, a + b, final(whole).kept(), reports, r is Ok));
    if first_r is Err {
        lemma_stop_stays(assets, verbose, before, a, b, between, early);
        lemma_outcome(
            assets,
            verbose,
            a + b,
            before,
            final(whole).kept(),
            reports,
            r is Ok,
            before,
            between,
            early,
            false,
        );
        lemma_same_reports(told_by(r), told_by(first_r));
    } else {
        lemma_joined(
            assets,
            verbose,
            before,
            a,
            between,
            early,
            b,
            after,
            late,
            second_r is Ok,
        );
        lemma_outcome(
            assets,
            verbose,
            a + b,
            before,
            final(whole).kept(),
            reports,
            r is Ok,
            before,
            after,
            early + late,
            second_r is Ok,
        );
        assert(report_models(told_by(first_r) + told_by(second_r)) =~= early + late);
        lemma_same_reports(told_by(r), told_by(first_r) + told_by(second_r));
    }
}

/// An empty array does nothing.
pub proof fn law_no_messages<B: OrderbookLike>(
    observer: &mut OrderbookObserver<B>,
    value: Json,
    r: Result<Vec<Report>, Interrupted>,
)
    requires
        old(observer).inv(),
        value@ == JsonModel::Array(seq![]),
        call_ensures(OrderbookObserver::<B>::on_json_message, (observer, value), r),
    ensures
        r is Ok,
        told_by(r).len() == 0,
        same_watch(old(observer), final(observer)),
        final(observer).kept() == old(observer).kept(),
{
    let assets = old(observer).assets();
    let verbose = old(observer).verbose();
    let before = old(observer).kept();
    let after = final(observer).kept();
    let reports = report_models(told_by(r));
    let messages = Seq::<JsonModel>::empty();
    assert(messages_in(value@) =~= messages);
    assert(told_by(r).len() == reports.len());
    if r is Err {
        lemma_stops(assets, verbose, before, messages, after, reports);
    } else {
        let (course, anew) = choose|course: Seq<Map<Seq<char>, B>>, anew: Seq<bool>| #[trigger]
            messages_take(assets, messages, course, anew) && course[0] == before && course.last()
                == after && course_fits(assets, course, anew) && reports == reports_of(
                assets,
                verbose,
                messages,
                course,
                anew,
                messages.len(),
            );
        assert(course.last() == course[0]);
    }
}

/// A value that is one message, alone or in an array, is handled as that message.
pub proof fn law_one_message<B: OrderbookLike>(
    observer: &mut OrderbookObserver<B>,
    value: Json,
    r: Result<Vec<Report>, Interrupted>,
    other: &mut OrderbookObserver<B>,
    message: &Json,
    reports: &mut Vec<Report>,
    other_r: Result<bool, Overflow>,
)
    requires
        old(observer).inv(),
        *old(other) == *old(observer),
        old(reports)@.len() == 0,
        value@ == JsonModel::Array(seq![message@]) || (value@ == message@ && !(value@ is Array)),
        call_ensures(OrderbookObserver::<B>::on_json_message, (observer, value), r),
        call_ensures(
            OrderbookObserver::<B>::handle_single_message,
            (other, message, reports),
            other_r,
        ),
    ensures
        r is Ok == other_r is Ok,
        same_outcome(final(observer), told_by(r), final(other), final(reports)@),
{
    let assets = old(observer).assets();
    let verbose = old(observer).verbose();
    let before = old(observer).kept();
    let after = final(other).kept();
    let messages = seq![message@];
    assert(messages_in(value@) =~= messages);
    let told_models = report_models(final(reports)@);
    let warnings = message_warnings(assets, before, message@);
    let anew = other_r is Err || other_r->Ok_0;
    assert(report_models(old(reports)@) =~= seq![]);
    assert(told_models =~= told(assets, verbose, warnings, after, other_r is Ok && other_r->Ok_0));
    assert(message_gives(assets, before, message@, after, anew));
    if other_r is Ok {
        law_single_message(assets, verbose, before, message@, after, told_models);
    } else {
        let course = seq![before, after];
        let flags = seq![true];
        assert(messages.take(1) =~= messages);
        assert(messages_take(assets, messages, course, flags));
        assert(flags.drop_last() =~= seq![]);
        assert(told_models =~= reports_of(assets, verbose, messages, course, flags, 0) + warnings);
        assert(stops_at(
            assets,
            verbose,
            before,
            messages,
            after,
            told_models,
            1,
            course,
            flags,
        ));
        lemma_stops(assets, verbose, before, messages, after, told_models);
    }
    lemma_alike_books(before);
    lemma_outcome(
        assets,
        verbose,
        messages,
        before,
        final(observer).kept(),
        report_models(told_by(r)),
        r is Ok,
        before,
        after,
        told_models,
        other_r is Ok,
    );
    lemma_same_reports(told_by(r), final(reports)@);
}

} // verus!
