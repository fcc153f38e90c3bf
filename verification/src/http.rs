//! The small HTTP server of the dashboard: what is answered to a request.

use crate::decimal::digits_of;
use crate::page::ORDERBOOK_PAGE;
use crate::text::{is_white, line_end, next_line, number_text, same_text, trimmed_front, white};
use vstd::prelude::*;
use vstd::string::{StrSliceExecFns, StringExecFns};
use vstd::utf8::{encode_utf8, valid_utf8};

verus! {

/// How many characters at the front are no white space.
pub open spec fn word_len(s: Seq<char>) -> int
    decreases s.len(),
{
    if s.len() == 0 || white(s[0]) {
        0
    } else {
        1 + word_len(s.drop_first())
    }
}

/// The first word of a text; empty where there is none.
pub open spec fn first_word(s: Seq<char>) -> Seq<char> {
    let t = trimmed_front(s);
    t.take(word_len(t))
}

/// The text behind its first word.
pub open spec fn behind_word(s: Seq<char>) -> Seq<char> {
    let t = trimmed_front(s);
    t.skip(word_len(t))
}

/// The path that a request asks for: the second word of its first line, or the
/// root where there is none.
pub open spec fn requested_path(request: Seq<char>) -> Seq<char> {
    let line = request.take(line_end(request));
    let word = first_word(behind_word(line));
    if word.len() == 0 {
        "/"@
    } else {
        word
    }
}

pub proof fn lemma_word_len(s: Seq<char>)
    ensures
        0 <= word_len(s) <= s.len(),
        forall|i: int| 0 <= i < word_len(s) ==> !white(#[trigger] s[i]),
        word_len(s) < s.len() ==> white(s[word_len(s)]),
    decreases s.len(),
{
    if s.len() > 0 && !white(s[0]) {
        let t = s.drop_first();
        lemma_word_len(t);
        assert(forall|i: int| 0 < i < s.len() ==> #[trigger] s[i] == t[i - 1]);
    }
}

/// Where the white space at `from` ends.
fn skip_white(chars: &Vec<char>, from: usize) -> (to: usize)
    requires
        from <= chars@.len(),
    ensures
        from <= to <= chars@.len(),
        trimmed_front(chars@.skip(from as int)) == chars@.skip(to as int),
{
    let mut to: usize = from;
    while to < chars.len() && is_white(chars[to])
        invariant
            from <= to <= chars@.len(),
            trimmed_front(chars@.skip(to as int)) == trimmed_front(chars@.skip(from as int)),
        decreases chars@.len() - to,
    {
        assert(chars@.skip(to as int).drop_first() =~= chars@.skip(to + 1));
        to = to + 1;
    }
    to
}

/// Where the word at `from` ends.
fn skip_word(chars: &Vec<char>, from: usize) -> (to: usize)
    requires
        from <= chars@.len(),
    ensures
        from <= to <= chars@.len(),
        to == from + word_len(chars@.skip(from as int)),
{
    proof {
        lemma_word_len(chars@.skip(from as int));
    }
    let ghost s = chars@.skip(from as int);
    let mut to: usize = from;
    while to < chars.len() && !is_white(chars[to])
        invariant
            from <= to <= chars@.len(),
            s == chars@.skip(from as int),
            0 <= word_len(s) <= s.len(),
            forall|i: int| 0 <= i < word_len(s) ==> !white(#[trigger] s[i]),
            word_len(s) < s.len() ==> white(s[word_len(s)]),
            to - from <= word_len(s),
        decreases chars@.len() - to,
    {
        assert(s[to - from] == chars@[to as int]);
        to = to + 1;
    }
    assert(to < chars@.len() ==> s[to - from] == chars@[to as int]);
    to
}

/// The path that a request asks for.
pub fn request_path(request: &str) -> (r: &str)
    ensures
        r@ == requested_path(request@),
{
    let line = next_line(request).0;
    let mut chars: Vec<char> = Vec::new();
    for c in iter: line.chars()
        invariant
            iter.seq() == line@,
            chars@ == line@.take(iter.index()),
    {
        chars.push(c);
        assert(chars@ =~= line@.take(iter.index() + 1));
    }
    assert(chars@ =~= line@);
    let start: usize = skip_white(&chars, 0);
    let end: usize = skip_word(&chars, start);
    let from: usize = skip_white(&chars, end);
    let to: usize = skip_word(&chars, from);
    proof {
        assert(chars@.skip(0) =~= line@);
        assert(behind_word(line@) =~= chars@.skip(end as int));
        assert(first_word(behind_word(line@)) =~= line@.subrange(from as int, to as int));
    }
    if from < to {
        line.substring_char(from, to)
    } else {
        "/"
    }
}

/// The text that bytes are read as, where what is no UTF-8 is replaced.
pub uninterp spec fn lossy_text(bytes: Seq<u8>) -> Seq<char>;

/// `String::from_utf8_lossy`: its result is a function of the bytes, and the text
/// that they encode where they do encode one.
#[verifier::external_body]
fn read_lossy(bytes: &[u8]) -> (r: String)
    ensures
        r@ == lossy_text(bytes@),
        valid_utf8(bytes@) ==> encode_utf8(r@) == bytes@,
{
    String::from_utf8_lossy(bytes).into_owned()
}

/// The head of a response and its body. The length counts bytes.
pub open spec fn response_text(content_type: Seq<char>, body: Seq<char>) -> Seq<char> {
    "HTTP/1.1 200 OK"@ + "\r\nContent-Type: "@ + content_type + "\r\nContent-Length: "@
        + digits_of(encode_utf8(body).len()) + "\r\nConnection: close\r\n\r\n"@ + body
}

/// What is answered to a request for a path, where `books` is the latest snapshot.
pub open spec fn answer(path: Seq<char>, books: Option<Seq<char>>) -> Seq<char> {
    if path == "/api/books"@ {
        response_text(
            "application/json; charset=utf-8"@,
            match books {
                Some(json) => json,
                None => "{\"assets\":[]}"@,
            },
        )
    } else {
        response_text("text/html; charset=utf-8"@, ORDERBOOK_PAGE@)
    }
}

fn build_response(content_type: &str, body: &str) -> (r: String)
    ensures
        r@ == response_text(content_type@, body@),
{
    let mut response = String::new();
    response.append("HTTP/1.1 200 OK");
    response.append("\r\nContent-Type: ");
    response.append(content_type);
    response.append("\r\nContent-Length: ");
    response.append(number_text(body.as_bytes().len()).as_str());
    response.append("\r\nConnection: close\r\n\r\n");
    response.append(body);
    assert(response@ =~= response_text(content_type@, body@));
    response
}

pub fn build_orderbook_html_page() -> (r: String)
    ensures
        r@ == ORDERBOOK_PAGE@,
{
    ORDERBOOK_PAGE.to_string()
}

/// What the server is told of the books.
#[derive(Debug, Clone, PartialEq, Eq)]
pub enum Notice {
    /// A new snapshot as JSON, if it could be written as such.
    Snapshot(Option<String>),
    /// Snapshots were missed.
    Lagged,
    /// No more snapshots will come.
    Closed,
}

/// The server of the dashboard, with the latest snapshot.
#[derive(Debug, Clone, PartialEq, Eq)]
pub struct Dashboard {
    pub latest: Option<String>,
}

impl Dashboard {
    pub fn new() -> (r: Self)
        ensures
            r.latest is None,
    {
        Dashboard { latest: None }
    }

    /// Takes a notice, and says whether the server goes on.
    pub fn on_notice(&mut self, notice: Notice) -> (r: bool)
        ensures
            r == (notice !is Closed),
            final(self).latest == (match notice {
                Notice::Snapshot(json) => json,
                _ => old(self).latest,
            }),
    {
        match notice {
            Notice::Snapshot(json) => {
                self.latest = json;
                true
            },
            Notice::Lagged => true,
            // If all senders are dropped, there is no point in continuing.
            Notice::Closed => false,
        }
    }

    /// The response for a path.
    pub fn respond(&self, path: &str) -> (r: String)
        ensures
            r@ == answer(path@, text_of(self.latest)),
    {
        if same_text(path, "/api/books") {
            match &self.latest {
                Some(json) => build_response("application/json; charset=utf-8", json.as_str()),
                None => build_response("application/json; charset=utf-8", "{\"assets\":[]}"),
            }
        } else {
            let html = build_orderbook_html_page();
            build_response("text/html; charset=utf-8", html.as_str())
        }
    }

    /// The response to the bytes of a request. A connection on which nothing was
    /// sent gets none.
    pub fn on_request(&self, bytes: &[u8]) -> (r: Option<String>)
        ensures
            match r {
                Some(response) => bytes@.len() > 0 && response@ == answer(
                    requested_path(lossy_text(bytes@)),
                    text_of(self.latest),
                ),
                None => bytes@.len() == 0,
            },
            r is Some && valid_utf8(bytes@) ==> encode_utf8(lossy_text(bytes@)) == bytes@,
    {
        if bytes.len() == 0 {
            return None;
        }
        let request = read_lossy(bytes);
        Some(self.respond(request_path(request.as_str())))
    }
}

/// A text, if there is one.
pub open spec fn text_of(text: Option<String>) -> Option<Seq<char>> {
    match text {
        Some(text) => Some(text@),
        None => None,
    }
}

} // verus!
