//! Text as sequences of characters.

use crate::decimal::{digit_char, digits_of};
use vstd::prelude::*;
use vstd::string::{StrSliceExecFns, StringExecFns, StringSliceAdditionalSpecFns};
use vstd::utf8::{
    decode_utf8_split, encode_scalar, encode_utf8, encode_utf8_decode_utf8,
    encode_utf8_valid_utf8, is_char_boundary, is_char_boundary_iff_not_is_continuation_byte,
    is_continuation_byte, is_leading_byte_width_1, length_of_first_scalar,
};

verus! {

/// White space, as Unicode has it.
pub open spec fn white(c: char) -> bool {
    let n = c as u32;
    ||| 0x9 <= n <= 0xd
    ||| n == 0x20
    ||| n == 0x85
    ||| n == 0xa0
    ||| n == 0x1680
    ||| 0x2000 <= n <= 0x200a
    ||| n == 0x2028
    ||| n == 0x2029
    ||| n == 0x202f
    ||| n == 0x205f
    ||| n == 0x3000
}

/// The text without white space at its front.
pub open spec fn trimmed_front(s: Seq<char>) -> Seq<char>
    decreases s.len(),
{
    if s.len() > 0 && white(s[0]) {
        trimmed_front(s.drop_first())
    } else {
        s
    }
}

/// The text without white space at its end.
pub open spec fn trimmed_back(s: Seq<char>) -> Seq<char>
    decreases s.len(),
{
    if s.len() > 0 && white(s.last()) {
        trimmed_back(s.drop_last())
    } else {
        s
    }
}

/// The text without white space at either end.
pub open spec fn trimmed(s: Seq<char>) -> Seq<char> {
    trimmed_back(trimmed_front(s))
}

/// `n` blanks.
pub open spec fn blanks(n: nat) -> Seq<char> {
    Seq::new(n, |i: int| ' ')
}

/// The text with blanks in front of it, up to `width` characters.
pub open spec fn right_aligned(s: Seq<char>, width: nat) -> Seq<char> {
    if s.len() < width {
        blanks((width - s.len()) as nat) + s
    } else {
        s
    }
}

/// Whether the two texts have the same characters.
pub(crate) fn same_text(a: &str, b: &str) -> (r: bool)
    ensures
        r == (a@ == b@),
{
    let x = a.as_bytes();
    let y = b.as_bytes();
    proof {
        encode_utf8_decode_utf8(a@);
        encode_utf8_decode_utf8(b@);
    }
    if x.len() != y.len() {
        return false;
    }
    let mut i: usize = 0;
    while i < x.len()
        invariant
            i <= x@.len() == y@.len(),
            x@ == encode_utf8(a@),
            y@ == encode_utf8(b@),
            forall|j: int| 0 <= j < i ==> x@[j] == y@[j],
        decreases x@.len() - i,
    {
        if x[i] != y[i] {
            return false;
        }
        i = i + 1;
    }
    assert(x@ =~= y@);
    true
}

/// Whether the character is white space.
pub fn is_white(c: char) -> (r: bool)
    ensures
        r == white(c),
{
    let n: u32 = c as u32;
    (0x9 <= n && n <= 0xd) || n == 0x20 || n == 0x85 || n == 0xa0 || n == 0x1680 || (0x2000 <= n
        && n <= 0x200a) || n == 0x2028 || n == 0x2029 || n == 0x202f || n == 0x205f || n == 0x3000
}

/// The text without white space at either end.
pub fn trim(s: &str) -> (r: &str)
    ensures
        r@ == trimmed(s@),
{
    let n: usize = s.unicode_len();
    let mut from: usize = 0;
    assert(s@.skip(0) =~= s@);
    while from < n && is_white(s.get_char(from))
        invariant
            from <= n == s@.len(),
            trimmed_front(s@.skip(from as int)) == trimmed_front(s@),
        decreases n - from,
    {
        assert(s@.skip(from as int).drop_first() =~= s@.skip(from + 1));
        from = from + 1;
    }
    let ghost t = s@.skip(from as int);
    assert(trimmed_front(s@) == t);
    let mut to: usize = n;
    assert(t.take(t.len() as int) =~= t);
    while to > from && is_white(s.get_char(to - 1))
        invariant
            from <= to <= n == s@.len(),
            t == s@.skip(from as int),
            trimmed_back(t.take(to - from)) == trimmed_back(t),
        decreases to,
    {
        assert(t.take(to - from).drop_last() =~= t.take(to - from - 1));
        assert(t.take(to - from).last() == s@[to - 1]);
        to = to - 1;
    }
    proof {
        if to > from {
            assert(t.take(to - from).last() == s@[to - 1]);
        }
        assert(s@.subrange(from as int, to as int) =~= t.take(to - from));
    }
    s.substring_char(from, to)
}

/// The text with blanks in front of it, up to `width` characters.
pub fn align_right(s: &str, width: usize) -> (r: String)
    ensures
        r@ == right_aligned(s@, width as nat),
{
    let mut r = String::new();
    let mut n: usize = s.unicode_len();
    let ghost len = s@.len();
    proof {
        reveal_strlit(" ");
    }
    assert(r@ =~= blanks(0));
    while n < width
        invariant
            len <= n,
            n <= width || n == len,
            r@ == blanks((n - len) as nat),
            " "@ == seq![' '],
        decreases width - n,
    {
        r.append(" ");
        n = n + 1;
        assert(r@ =~= blanks((n - len) as nat));
    }
    r.append(s);
    assert(r@ =~= right_aligned(s@, width as nat));
    r
}

/// The character of a digit, as a text.
fn digit_text(d: usize) -> (r: &'static str)
    requires
        d < 10,
    ensures
        r@ == seq![digit_char(d as nat)],
{
    proof {
        reveal_strlit("0");
        reveal_strlit("1");
        reveal_strlit("2");
        reveal_strlit("3");
        reveal_strlit("4");
        reveal_strlit("5");
        reveal_strlit("6");
        reveal_strlit("7");
        reveal_strlit("8");
        reveal_strlit("9");
    }
    let r = match d {
        0 => "0",
        1 => "1",
        2 => "2",
        3 => "3",
        4 => "4",
        5 => "5",
        6 => "6",
        7 => "7",
        8 => "8",
        _ => "9",
    };
    assert(r@ =~= seq![digit_char(d as nat)]);
    r
}

/// A number in decimal notation.
pub fn number_text(n: usize) -> (r: String)
    ensures
        r@ == digits_of(n as nat),
    decreases n,
{
    let mut r = if n < 10 {
        String::new()
    } else {
        number_text(n / 10)
    };
    r.append(digit_text(n % 10));
    assert(r@ =~= digits_of(n as nat));
    r
}

/// The index of the first line feed, or the length of the text.
pub open spec fn line_end(s: Seq<char>) -> int
    decreases s.len(),
{
    if s.len() == 0 {
        0
    } else if s[0] == '\n' {
        0
    } else {
        1 + line_end(s.drop_first())
    }
}

pub proof fn lemma_line_end(s: Seq<char>)
    ensures
        0 <= line_end(s) <= s.len(),
        forall|i: int| 0 <= i < line_end(s) ==> s[i] != '\n',
        line_end(s) < s.len() ==> s[line_end(s)] == '\n',
    decreases s.len(),
{
    if s.len() > 0 && s[0] != '\n' {
        let t = s.drop_first();
        lemma_line_end(t);
        assert(forall|i: int| 0 < i < s.len() ==> s[i] == t[i - 1]);
    }
}

/// The line feed is one byte, and stands among the bytes of a text that holds it.
proof fn lemma_line_feed_byte(s: Seq<char>)
    ensures
        encode_utf8(seq!['\n']) == seq![0xau8],
        s.contains('\n') ==> encode_utf8(s).contains(0xau8),
    decreases s.len(),
{
    reveal_with_fuel(encode_utf8, 2);
    assert((0xau32 & 0x7f) as u8 == 0xau8) by (bit_vector);
    assert(encode_scalar('\n' as u32) =~= seq![0xau8]);
    assert(seq!['\n'].drop_first() =~= Seq::<char>::empty());
    assert(encode_utf8(seq!['\n']) =~= seq![0xau8]);
    if s.contains('\n') {
        let i = choose|i: int| 0 <= i < s.len() && s[i] == '\n';
        let first = encode_scalar(s[0] as u32);
        let rest = encode_utf8(s.drop_first());
        if i == 0 {
            assert(encode_utf8(s)[0] == 0xau8);
        } else {
            assert(s.drop_first()[i - 1] == '\n');
            lemma_line_feed_byte(s.drop_first());
            let k = choose|k: int| 0 <= k < rest.len() && rest[k] == 0xau8;
            assert(encode_utf8(s)[first.len() + k] == 0xau8);
        }
    }
}

/// A character ends behind a first byte that is a line feed.
proof fn lemma_boundary_behind_line_feed(s: Seq<char>)
    requires
        encode_utf8(s).len() > 0,
        encode_utf8(s)[0] == 0xau8,
    ensures
        is_char_boundary(encode_utf8(s), 1),
{
    let bytes = encode_utf8(s);
    encode_utf8_valid_utf8(s);
    assert(is_leading_byte_width_1(0xau8)) by (bit_vector);
    assert(length_of_first_scalar(bytes) == 1);
    reveal_with_fuel(is_char_boundary, 2);
}

/// The text before the first line feed and the text behind it.
fn split_line(text: &str) -> (r: Option<(&str, &str)>)
    ensures
        match r {
            Some((line, rest)) => {
                &&& text@ == line@ + seq!['\n'] + rest@
                &&& !line@.contains('\n')
            },
            None => !text@.contains('\n'),
        },
{
    let bytes = text.as_bytes();
    let mut i: usize = 0;
    while i < bytes.len() && bytes[i] != 0xa
        invariant
            i <= bytes@.len(),
            forall|j: int| 0 <= j < i ==> bytes@[j] != 0xa,
        decreases bytes@.len() - i,
    {
        i = i + 1;
    }
    if i == bytes.len() {
        proof {
            lemma_line_feed_byte(text@);
        }
        return None;
    }
    proof {
        encode_utf8_valid_utf8(text@);
        assert(!is_continuation_byte(0xau8)) by (bit_vector);
        is_char_boundary_iff_not_is_continuation_byte(bytes@, i as int);
    }
    let (line, tail) = text.split_at(i);
    proof {
        encode_utf8_decode_utf8(text@);
        encode_utf8_decode_utf8(line@);
        encode_utf8_decode_utf8(tail@);
        decode_utf8_split(bytes@, i as int);
        lemma_line_feed_byte(line@);
        assert(tail.spec_bytes()[0] == 0xau8);
        encode_utf8_valid_utf8(tail@);
        lemma_boundary_behind_line_feed(tail@);
    }
    let (feed, rest) = tail.split_at(1);
    proof {
        encode_utf8_decode_utf8(feed@);
        encode_utf8_decode_utf8(rest@);
        decode_utf8_split(tail.spec_bytes(), 1);
        lemma_line_feed_byte(seq![]);
        assert(feed.spec_bytes() =~= seq![0xau8]);
        encode_utf8_decode_utf8(seq!['\n']);
    }
    Some((line, rest))
}

/// The text up to the first line feed, and the text behind it.
pub fn next_line(text: &str) -> (r: (&str, Option<&str>))
    ensures
        r.0@ == text@.take(line_end(text@)),
        match r.1 {
            Some(rest) => line_end(text@) < text@.len() && rest@ == text@.skip(
                line_end(text@) + 1,
            ),
            None => line_end(text@) == text@.len(),
        },
{
    proof {
        lemma_line_end(text@);
    }
    match split_line(text) {
        Some((line, rest)) => {
            proof {
                let n = line@.len() as int;
                assert(text@[n] == '\n');
                assert forall|i: int| 0 <= i < n implies text@[i] != '\n' by {
                    assert(text@[i] == line@[i]);
                    assert(line@.contains(line@[i]));
                }
                assert(line_end(text@) == n);
                assert(text@.take(n) =~= line@);
                assert(text@.skip(n + 1) =~= rest@);
            }
            (line, Some(rest))
        },
        None => {
            proof {
                if line_end(text@) < text@.len() {
                    assert(text@.contains(text@[line_end(text@)]));
                }
                assert(text@.take(text@.len() as int) =~= text@);
            }
            (text, None)
        },
    }
}

} // verus!
