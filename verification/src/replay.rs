//! Captured feeds: one value on each line.

use crate::basic_orderbook::OrderbookLike;
use crate::json::{
    integer_json, json_opens, law_printed_on_one_line, parsed_json, printed_json, readable,
    solid_json, well_read, Json, JsonModel,
};
use crate::observer::{
    messages_give, messages_in, messages_overflow, report_models, OrderbookObserver, Report,
};
use crate::text::{
    lemma_line_end, line_end, next_line, trim, trimmed, trimmed_back, trimmed_front,
};
use vstd::prelude::*;
use vstd::string::StringExecFns;

verus! {

/// A line without the white space around it, unless nothing is left of it.
pub open spec fn record_in(line: Seq<char>) -> Seq<Seq<char>> {
    if trimmed(line).len() == 0 {
        seq![]
    } else {
        seq![trimmed(line)]
    }
}

/// The records of a captured feed: its lines without the white space around them,
/// the blank ones left out.
pub open spec fn records_in(text: Seq<char>) -> Seq<Seq<char>>
    decreases text.len(),
{
    let n = line_end(text);
    if n == text.len() {
        record_in(text)
    } else {
        proof {
            lemma_line_end(text);
        }
        record_in(text.take(n)) + records_in(text.skip(n + 1))
    }
}

/// Texts as sequences of characters.
pub open spec fn texts_of(texts: Seq<&str>) -> Seq<Seq<char>> {
    texts.map_values(|text: &str| text@)
}

/// The records of a captured feed.
pub fn records(text: &str) -> (r: Vec<&str>)
    ensures
        texts_of(r@) == records_in(text@),
{
    let mut found: Vec<&str> = Vec::new();
    let mut current: &str = text;
    assert(texts_of(found@) + records_in(text@) =~= records_in(text@));
    loop
        invariant
            texts_of(found@) + records_in(current@) == records_in(text@),
        decreases current@.len(),
    {
        let (line, more) = next_line(current);
        let ghost done = texts_of(found@);
        proof {
            lemma_line_end(current@);
            assert(current@.take(current@.len() as int) =~= current@);
        }
        let record = trim(line);
        if !record.is_empty() {
            found.push(record);
        }
        assert(texts_of(found@) =~= done + record_in(line@));
        match more {
            Some(tail) => {
                assert(texts_of(found@) + records_in(tail@) =~= done + records_in(current@));
                current = tail;
            },
            None => return found,
        }
    }
}

/// What became of a record.
pub enum Replayed {
    /// The record is no value, for this reason.
    Unreadable(String),
    /// The value was handled, and this is to be told of it.
    Handled(Vec<Report>),
    /// The value made a book show a number that no decimal can hold, after this was told.
    Interrupted(Vec<Report>),
}

/// Feeds one record to an observer. The record of a `readable` value is handled as the
/// value is.
pub fn replay_record<B: OrderbookLike>(observer: &mut OrderbookObserver<B>, record: &str) -> (r:
    Replayed)
    requires
        old(observer).inv(),
    ensures
        final(observer).inv(),
        final(observer).assets() == old(observer).assets(),
        final(observer).verbose() == old(observer).verbose(),
        match parsed_json(record@) {
            Err(reason) => r is Unreadable && r->Unreadable_0@ == reason && final(observer).kept()
                == old(observer).kept(),
            Ok(value) => match r {
                Replayed::Unreadable(_) => false,
                Replayed::Handled(reports) => messages_give(
                    old(observer).assets(),
                    old(observer).verbose(),
                    old(observer).kept(),
                    messages_in(value),
                    final(observer).kept(),
                    report_models(reports@),
                ),
                Replayed::Interrupted(reports) => messages_overflow(
                    old(observer).assets(),
                    old(observer).verbose(),
                    old(observer).kept(),
                    messages_in(value),
                    final(observer).kept(),
                    report_models(reports@),
                ),
            },
        },
        !json_opens(record@) ==> r is Unreadable,
        forall|model: JsonModel|
            readable(model) && record@ == #[trigger] printed_json(model) ==> parsed_json(record@)
                == Ok::<JsonModel, Seq<char>>(model) && match r {
                Replayed::Unreadable(_) => false,
                Replayed::Handled(reports) => messages_give(
                    old(observer).assets(),
                    old(observer).verbose(),
                    old(observer).kept(),
                    messages_in(model),
                    final(observer).kept(),
                    report_models(reports@),
                ),
                Replayed::Interrupted(reports) => messages_overflow(
                    old(observer).assets(),
                    old(observer).verbose(),
                    old(observer).kept(),
                    messages_in(model),
                    final(observer).kept(),
                    report_models(reports@),
                ),
            },
{
    match Json::parse(record) {
        Ok(value) => match observer.on_json_message(value) {
            Ok(reports) => Replayed::Handled(reports),
            Err(interrupted) => Replayed::Interrupted(interrupted.reports),
        },
        Err(reason) => Replayed::Unreadable(reason),
    }
}

/// A value as it stands in a captured feed: on one line, whatever its texts hold.
pub fn capture_line(value: &Json) -> (r: String)
    ensures
        r@ == printed_json(value@) + seq!['\n'],
        solid_json(value@) ==> line_end(r@) == r@.len() - 1,
{
    let mut line = value.to_text();
    line.append("\n");
    proof {
        reveal_strlit("\n");
        assert("\n"@ =~= seq!['\n']);
        if solid_json(value@) {
            lemma_first_line(value@, seq![]);
            assert(line@ =~= printed_json(value@) + seq!['\n'] + seq![]);
        }
    }
    line
}

/// The first line of a feed that begins with a value is that value.
proof fn lemma_first_line(value: JsonModel, rest: Seq<char>)
    requires
        solid_json(value),
    ensures
        ({
            let text = printed_json(value) + seq!['\n'] + rest;
            let n = line_end(text);
            &&& n == printed_json(value).len()
            &&& text.take(n) == printed_json(value)
            &&& text.skip(n + 1) == rest
        }),
{
    let line = printed_json(value);
    let text = line + seq!['\n'] + rest;
    let n = line.len() as int;
    law_printed_on_one_line(value);
    lemma_line_end(text);
    assert(text[n] == '\n');
    assert forall|i: int| 0 <= i < n implies text[i] != '\n' by {
        assert(text[i] == line[i]);
        assert(line.contains(line[i]));
    }
    assert(line_end(text) == n);
    assert(text.take(n) =~= line);
    assert(text.skip(n + 1) =~= rest);
}

/// A captured feed: each value on a line of its own.
pub open spec fn captured(values: Seq<JsonModel>) -> Seq<char>
    decreases values.len(),
{
    if values.len() == 0 {
        seq![]
    } else {
        printed_json(values[0]) + seq!['\n'] + captured(values.drop_first())
    }
}

/// The values as they are printed.
pub open spec fn printed_values(values: Seq<JsonModel>) -> Seq<Seq<char>> {
    values.map_values(|value: JsonModel| printed_json(value))
}

/// Capturing one more value adds its line, and leaves what was captured before.
pub proof fn law_capture_appends(values: Seq<JsonModel>, value: JsonModel)
    ensures
        captured(values.push(value)) == captured(values) + printed_json(value) + seq!['\n'],
    decreases values.len(),
{
    let more = values.push(value);
    if values.len() == 0 {
        assert(more.drop_first() =~= values);
    } else {
        law_capture_appends(values.drop_first(), value);
        assert(more.drop_first() =~= values.drop_first().push(value));
    }
    assert(captured(more) =~= captured(values) + printed_json(value) + seq!['\n']);
}

/// The lines of a text, without their line feeds. A last line may lack its line feed.
pub open spec fn lines_in(text: Seq<char>) -> Seq<Seq<char>>
    decreases text.len(),
{
    let n = line_end(text);
    if text.len() == 0 {
        seq![]
    } else if n == text.len() {
        seq![text]
    } else {
        proof {
            lemma_line_end(text);
        }
        seq![text.take(n)] + lines_in(text.skip(n + 1))
    }
}

/// What was captured is what is replayed: a captured feed has one line for each value
/// that was written, in the same order, and its records are those lines. (The record of
/// a `readable` value is then read back as the value: see `replay_record`.)
pub proof fn law_replay_reads_capture(values: Seq<JsonModel>)
    requires
        forall|i: int| 0 <= i < values.len() ==> solid_json(#[trigger] values[i]),
    ensures
        lines_in(captured(values)) == printed_values(values),
        records_in(captured(values)) == printed_values(values),
    decreases values.len(),
{
    let text = captured(values);
    lemma_line_end(text);
    if values.len() == 0 {
        assert(record_in(text) =~= printed_values(values));
        assert(lines_in(text) =~= printed_values(values));
    } else {
        let rest = values.drop_first();
        assert forall|i: int| 0 <= i < rest.len() implies solid_json(#[trigger] rest[i]) by {
            assert(solid_json(values[i + 1]));
        }
        law_replay_reads_capture(rest);
        let line = printed_json(values[0]);
        assert(solid_json(values[0]));
        law_printed_on_one_line(values[0]);
        lemma_first_line(values[0], captured(rest));
        assert(trimmed_front(line) == line && trimmed_back(line) == line);
        assert(record_in(line) =~= seq![line]);
        assert(seq![line] + printed_values(rest) =~= printed_values(values));
    }
}

/// Values that were read from a feed, with integers for numbers, are replayed as they
/// were live: they are `readable`, and the records of the captured feed are theirs, so
/// that `replay_record` handles each record as the value was handled.
pub proof fn law_live_values_are_replayed(values: Seq<JsonModel>)
    requires
        forall|i: int|
            0 <= i < values.len() ==> well_read(#[trigger] values[i]) && integer_json(values[i]),
    ensures
        forall|i: int| 0 <= i < values.len() ==> readable(#[trigger] values[i]),
        records_in(captured(values)) == printed_values(values),
{
    law_replay_reads_capture(values);
}

} // verus!
