//! What the dashboard answers, said of the request and of the latest snapshot.

use crate::decimal::digits_of;
use crate::http::{
    behind_word, build_orderbook_html_page, first_word, lemma_word_len, lossy_text, request_path,
    response_text, word_len, Dashboard, Notice,
};
use crate::text::{lemma_line_end, line_end, trimmed_front};
use crate::text_laws::{
    all_blank, blank, lemma_blank, lemma_digits, lemma_trimmed_front, number_in, numeral,
};
use vstd::prelude::*;
use vstd::utf8::{encode_utf8, encode_utf8_decode_utf8, encode_utf8_valid_utf8};

verus! {

/// The line is the first one of the text.
pub open spec fn first_line(text: Seq<char>, line: Seq<char>) -> bool {
    &&& !line.contains('\n')
    &&& text == line || exists|rest: Seq<char>| text == #[trigger] (line + seq!['\n'] + rest)
}

/// The characters are some, and none of them is white space.
pub open spec fn word(s: Seq<char>) -> bool {
    s.len() > 0 && forall|i: int| 0 <= i < s.len() ==> !blank(#[trigger] s[i])
}

/// The line has two words at least, and the second is this one.
pub open spec fn second_word(line: Seq<char>, second: Seq<char>) -> bool {
    word(second) && exists|front: Seq<char>, first: Seq<char>, gap: Seq<char>, back: Seq<char>|
        #![trigger front + first + gap + second + back]
        line == front + first + gap + second + back && all_blank(front) && word(first)
            && all_blank(gap) && gap.len() > 0 && (back.len() > 0 ==> blank(back[0]))
}

/// The line has one word or none.
pub open spec fn one_word_at_most(line: Seq<char>) -> bool {
    exists|front: Seq<char>, first: Seq<char>, back: Seq<char>|
        #![trigger front + first + back]
        line == front + first + back && all_blank(front) && (first.len() == 0 || word(first))
            && all_blank(back)
}

proof fn lemma_first_line_is(text: Seq<char>, line: Seq<char>)
    requires
        first_line(text, line),
    ensures
        text.take(line_end(text)) == line,
{
    lemma_line_end(text);
    let n = line.len() as int;
    assert forall|i: int| 0 <= i < n implies line[i] != '\n' by {
        assert(line.contains(line[i]));
    }
    if text != line {
        let rest = choose|rest: Seq<char>| text == #[trigger] (line + seq!['\n'] + rest);
        assert(text[n] == '\n');
        assert forall|i: int| 0 <= i < n implies text[i] != '\n' by {
            assert(text[i] == line[i]);
        }
    }
    assert(line_end(text) == n);
    assert(text.take(n) =~= line);
}

proof fn lemma_word(s: Seq<char>)
    ensures
        ({
            let t = trimmed_front(s);
            let n = word_len(t);
            &&& 0 <= n <= t.len()
            &&& n > 0 ==> word(t.take(n))
            &&& n == 0 ==> t.len() == 0
            &&& n < t.len() ==> blank(t[n])
        }),
{
    let t = trimmed_front(s);
    let n = word_len(t);
    lemma_word_len(t);
    lemma_trimmed_front(s);
    assert forall|i: int| 0 <= i < n implies !blank(#[trigger] t.take(n)[i]) by {
        lemma_blank(t[i]);
    }
    if n < t.len() {
        lemma_blank(t[n]);
    }
}

/// `request_path` is the second word of the first line, or a slash where that line has not
/// so many words.
pub proof fn law_request_path(request: &str, r: &str, line: Seq<char>)
    requires
        first_line(request@, line),
        call_ensures(request_path, (request,), r),
    ensures
        second_word(line, r@) || (one_word_at_most(line) && r@ == seq!['/']),
{
    lemma_first_line_is(request@, line);
    reveal_strlit("/");
    assert("/"@ =~= seq!['/']);
    lemma_word(line);
    lemma_trimmed_front(line);
    let t = trimmed_front(line);
    let front = line.take(line.len() - t.len());
    let n = word_len(t);
    let first = t.take(n);
    let rest = behind_word(line);
    assert(line =~= front + first + rest);
    lemma_word(rest);
    lemma_trimmed_front(rest);
    let u = trimmed_front(rest);
    let gap = rest.take(rest.len() - u.len());
    let m = word_len(u);
    let second = u.take(m);
    let back = u.skip(m);
    assert(second == first_word(rest));
    if m > 0 {
        assert(line =~= front + first + gap + second + back);
        assert(rest[0] == t[n]);
        assert(blank(rest[0]));
        if gap.len() == 0 {
            assert(rest =~= u);
            assert(false);
        }
        assert(second_word(line, second));
    } else {
        assert(u =~= seq![]);
        assert(rest =~= gap);
        assert(line == front + first + rest);
        assert(one_word_at_most(line));
    }
}

/// The text is a response of this type with this body: it says that all is well, and of how
/// many bytes the body is.
pub open spec fn responds(text: Seq<char>, content_type: Seq<char>, body: Seq<char>) -> bool {
    exists|length: Seq<char>| #[trigger]
        numeral(length) && number_in(length) == encode_utf8(body).len() && text
            == "HTTP/1.1 200 OK\r\nContent-Type: "@ + content_type + "\r\nContent-Length: "@
            + length + "\r\nConnection: close\r\n\r\n"@ + body
}

proof fn lemma_responds(content_type: Seq<char>, body: Seq<char>)
    ensures
        responds(response_text(content_type, body), content_type, body),
{
    reveal_strlit("HTTP/1.1 200 OK\r\nContent-Type: ");
    reveal_strlit("HTTP/1.1 200 OK");
    reveal_strlit("\r\nContent-Type: ");
    assert("HTTP/1.1 200 OK\r\nContent-Type: "@ =~= "HTTP/1.1 200 OK"@ + "\r\nContent-Type: "@);
    let length = digits_of(encode_utf8(body).len());
    lemma_digits(encode_utf8(body).len());
    assert(numeral(length));
}

/// The path of the books gets the latest snapshot as JSON, or one without assets where there
/// is none yet. Every other path gets the page.
pub proof fn law_respond(dashboard: &Dashboard, path: &str, r: String, page: String)
    requires
        call_ensures(Dashboard::respond, (dashboard, path), r),
        call_ensures(build_orderbook_html_page, (), page),
    ensures
        path@ == "/api/books"@ ==> responds(
            r@,
            "application/json; charset=utf-8"@,
            if dashboard.latest is Some {
                dashboard.latest->0@
            } else {
                "{\"assets\":[]}"@
            },
        ),
        path@ != "/api/books"@ ==> responds(r@, "text/html; charset=utf-8"@, page@),
{
    let body = if dashboard.latest is Some {
        dashboard.latest->0@
    } else {
        "{\"assets\":[]}"@
    };
    lemma_responds("application/json; charset=utf-8"@, body);
    lemma_responds("text/html; charset=utf-8"@, page@);
}

/// A request gets the response for the path in the text that its bytes are, or are read as
/// where they are none; and no bytes get none.
pub proof fn law_on_request(
    dashboard: &Dashboard,
    bytes: &[u8],
    r: Option<String>,
    text: &str,
    path: &str,
    response: String,
)
    requires
        call_ensures(Dashboard::on_request, (dashboard, bytes), r),
        encode_utf8(text@) == bytes@ || text@ == lossy_text(bytes@),
        call_ensures(request_path, (text,), path),
        call_ensures(Dashboard::respond, (dashboard, path), response),
    ensures
        r is Some <==> bytes@.len() > 0,
        r is Some ==> r->0@ == response@,
{
    if r is Some && encode_utf8(text@) == bytes@ {
        encode_utf8_valid_utf8(text@);
        encode_utf8_decode_utf8(text@);
        encode_utf8_decode_utf8(lossy_text(bytes@));
    }
}

/// A new snapshot takes the place of the latest, also one that could not be written; missed
/// ones leave it; and the server goes on until no more will come.
pub proof fn law_on_notice(dashboard: &mut Dashboard, notice: Notice, r: bool)
    requires
        call_ensures(Dashboard::on_notice, (dashboard, notice), r),
    ensures
        notice is Snapshot ==> r && final(dashboard).latest == notice->Snapshot_0,
        notice is Lagged ==> r && final(dashboard).latest == old(dashboard).latest,
        notice is Closed ==> !r && final(dashboard).latest == old(dashboard).latest,
{
}

/// A new server has no snapshot.
pub proof fn law_new_dashboard(dashboard: Dashboard)
    requires
        call_ensures(Dashboard::new, (), dashboard),
    ensures
        dashboard.latest is None,
{
}

} // verus!
