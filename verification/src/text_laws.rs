//! What the operations on texts give, said of the characters.

use crate::decimal::{digit_char, digits_of};
use crate::text::{
    align_right, is_white, lemma_line_end, line_end, next_line, number_text, right_aligned, trim,
    trimmed, trimmed_back, trimmed_front, white,
};
use vstd::prelude::*;

verus! {

/// The code points of white space.
pub open spec fn white_points() -> Seq<int> {
    seq![
        0x9,
        0xa,
        0xb,
        0xc,
        0xd,
        0x20,
        0x85,
        0xa0,
        0x1680,
        0x2000,
        0x2001,
        0x2002,
        0x2003,
        0x2004,
        0x2005,
        0x2006,
        0x2007,
        0x2008,
        0x2009,
        0x200a,
        0x2028,
        0x2029,
        0x202f,
        0x205f,
        0x3000,
    ]
}

/// The character is white space.
pub open spec fn blank(c: char) -> bool {
    white_points().contains(c as int)
}

/// All characters are white space.
pub open spec fn all_blank(s: Seq<char>) -> bool {
    forall|i: int| 0 <= i < s.len() ==> blank(#[trigger] s[i])
}

/// No white space is at either end.
pub open spec fn tight(s: Seq<char>) -> bool {
    s.len() > 0 ==> !blank(s[0]) && !blank(s.last())
}

/// The text is the other one with white space around it.
pub open spec fn padded(text: Seq<char>, word: Seq<char>) -> bool {
    exists|front: Seq<char>, back: Seq<char>|
        #![trigger front + word + back]
        text == front + word + back && all_blank(front) && all_blank(back)
}

pub proof fn lemma_blank(c: char)
    ensures
        white(c) <==> blank(c),
{
    let n = c as int;
    let points = white_points();
    if white(c) {
        assert(points[0] == 0x9 && points[1] == 0xa && points[2] == 0xb && points[3] == 0xc
            && points[4] == 0xd && points[5] == 0x20 && points[6] == 0x85 && points[7] == 0xa0
            && points[8] == 0x1680 && points[9] == 0x2000 && points[10] == 0x2001 && points[11]
            == 0x2002 && points[12] == 0x2003 && points[13] == 0x2004 && points[14] == 0x2005
            && points[15] == 0x2006 && points[16] == 0x2007 && points[17] == 0x2008 && points[18]
            == 0x2009 && points[19] == 0x200a && points[20] == 0x2028 && points[21] == 0x2029
            && points[22] == 0x202f && points[23] == 0x205f && points[24] == 0x3000);
        assert(points.contains(n));
    }
}

/// `is_white` knows the white space.
pub proof fn law_is_white(c: char, r: bool)
    requires
        call_ensures(is_white, (c,), r),
    ensures
        r == blank(c),
{
    lemma_blank(c);
}

pub proof fn lemma_trimmed_front(s: Seq<char>)
    ensures
        trimmed_front(s).len() <= s.len(),
        s == s.take(s.len() - trimmed_front(s).len()) + trimmed_front(s),
        all_blank(s.take(s.len() - trimmed_front(s).len())),
        trimmed_front(s).len() > 0 ==> !blank(trimmed_front(s)[0]),
    decreases s.len(),
{
    if s.len() > 0 {
        lemma_blank(s[0]);
    }
    if s.len() > 0 && white(s[0]) {
        let t = s.drop_first();
        lemma_trimmed_front(t);
        let n = t.len() - trimmed_front(t).len();
        let front = s.take(n + 1);
        assert forall|i: int| 0 <= i < front.len() implies blank(#[trigger] front[i]) by {
            if i > 0 {
                assert(front[i] == t.take(n)[i - 1]);
            }
        }
        assert(s =~= front + trimmed_front(t)) by {
            assert(t == t.take(n) + trimmed_front(t));
            assert forall|i: int| 0 <= i < s.len() implies s[i] == (front + trimmed_front(
                t,
            ))[i] by {
                if i > 0 {
                    assert(s[i] == t[i - 1]);
                    assert(t[i - 1] == (t.take(n) + trimmed_front(t))[i - 1]);
                }
            }
        }
    } else {
        assert(s =~= s.take(0) + s);
    }
}

pub proof fn lemma_trimmed_back(s: Seq<char>)
    ensures
        trimmed_back(s).len() <= s.len(),
        s == trimmed_back(s) + s.skip(trimmed_back(s).len() as int),
        all_blank(s.skip(trimmed_back(s).len() as int)),
        trimmed_back(s).len() > 0 ==> !blank(trimmed_back(s).last()) && trimmed_back(s)[0]
            == s[0],
    decreases s.len(),
{
    if s.len() > 0 {
        lemma_blank(s.last());
    }
    if s.len() > 0 && white(s.last()) {
        let t = s.drop_last();
        lemma_trimmed_back(t);
        let n = trimmed_back(t).len() as int;
        let back = s.skip(n);
        assert forall|i: int| 0 <= i < back.len() implies blank(#[trigger] back[i]) by {
            if i < back.len() - 1 {
                assert(back[i] == t.skip(n)[i]);
            }
        }
        assert(s =~= trimmed_back(t) + back) by {
            assert forall|i: int| 0 <= i < s.len() implies s[i] == (trimmed_back(t) + back)[i] by {
                if i < t.len() {
                    assert(t[i] == (trimmed_back(t) + t.skip(n))[i]);
                }
            }
        }
    } else {
        assert(s =~= s + s.skip(s.len() as int));
    }
}

/// A text in white space, trimmed, is the text that was to be found in it.
pub proof fn lemma_trimmed(s: Seq<char>, word: Seq<char>)
    ensures
        trimmed(s) == word <==> tight(word) && padded(s, word),
{
    let t = trimmed_front(s);
    let r = trimmed(s);
    lemma_trimmed_front(s);
    lemma_trimmed_back(t);
    let front = s.take(s.len() - t.len());
    let back = t.skip(r.len() as int);
    assert(s =~= front + r + back);
    assert(tight(r) && padded(s, r));
    if tight(word) && padded(s, word) {
        let (f, b) = choose|f: Seq<char>, b: Seq<char>|
            #![trigger f + word + b]
            s == f + word + b && all_blank(f) && all_blank(b);
        lemma_padded_once(s, f, word, b, front, r, back);
    }
}

/// A text without white space at its ends is found in white space at one place only.
proof fn lemma_padded_once(
    s: Seq<char>,
    f: Seq<char>,
    a: Seq<char>,
    b: Seq<char>,
    g: Seq<char>,
    c: Seq<char>,
    d: Seq<char>,
)
    requires
        s == f + a + b,
        s == g + c + d,
        all_blank(f),
        all_blank(b),
        all_blank(g),
        all_blank(d),
        tight(a),
        tight(c),
    ensures
        a == c,
{
    assert(s.len() == f.len() + a.len() + b.len());
    assert(s.len() == g.len() + c.len() + d.len());
    if a.len() > 0 && c.len() > 0 {
        if f.len() < g.len() {
            assert(s[f.len() as int] == a[0]);
            assert(s[f.len() as int] == g[f.len() as int]);
            assert(false);
        }
        if g.len() < f.len() {
            assert(s[g.len() as int] == c[0]);
            assert(s[g.len() as int] == f[g.len() as int]);
            assert(false);
        }
        let i = f.len() + a.len() - 1;
        let j = g.len() + c.len() - 1;
        if i < j {
            assert(s[j] == c[c.len() - 1]);
            assert(s[j] == b[j - i - 1]);
            assert(false);
        }
        if j < i {
            assert(s[i] == a[a.len() - 1]);
            assert(s[i] == d[i - j - 1]);
            assert(false);
        }
        assert forall|k: int| 0 <= k < a.len() implies a[k] == c[k] by {
            assert(s[f.len() + k] == a[k]);
            assert(s[g.len() + k] == c[k]);
        }
        assert(a =~= c);
    } else if a.len() > 0 {
        let k = f.len() as int;
        assert(s[k] == a[0]);
        if k < g.len() {
            assert(s[k] == g[k]);
        } else {
            assert(s[k] == d[k - g.len()]);
        }
        assert(false);
    } else if c.len() > 0 {
        let k = g.len() as int;
        assert(s[k] == c[0]);
        if k < f.len() {
            assert(s[k] == f[k]);
        } else {
            assert(s[k] == b[k - f.len()]);
        }
        assert(false);
    } else {
        assert(a =~= c);
    }
}

/// `trim` takes the white space from both ends, and nothing else.
pub proof fn law_trim(s: &str, r: &str)
    requires
        call_ensures(trim, (s,), r),
    ensures
        tight(r@),
        padded(s@, r@),
{
    lemma_trimmed(s@, r@);
}

/// `align_right` puts blanks in front of a text, as many as it needs to be so wide.
pub proof fn law_align_right(s: &str, width: usize, r: String)
    requires
        call_ensures(align_right, (s, width), r),
    ensures
        r@.len() == (if s@.len() < width {
            width as nat
        } else {
            s@.len()
        }),
        r@.skip(r@.len() - s@.len()) == s@,
        forall|i: int| 0 <= i < r@.len() - s@.len() ==> #[trigger] r@[i] == ' ',
{
    assert(r@ == right_aligned(s@, width as nat));
    assert(r@.skip(r@.len() - s@.len()) =~= s@);
}

/// The number that digits stand for.
pub open spec fn number_in(digits: Seq<char>) -> int
    decreases digits.len(),
{
    if digits.len() == 0 {
        0
    } else {
        10 * number_in(digits.drop_last()) + (digits.last() as int - '0' as int)
    }
}

/// The text is a number in decimal notation: digits, and no zero in front of others.
pub open spec fn numeral(text: Seq<char>) -> bool {
    &&& text.len() > 0
    &&& forall|i: int| 0 <= i < text.len() ==> '0' <= #[trigger] text[i] <= '9'
    &&& text.len() > 1 ==> text[0] != '0'
}

pub proof fn lemma_digits(n: nat)
    ensures
        numeral(digits_of(n)),
        number_in(digits_of(n)) == n,
        n > 0 ==> digits_of(n)[0] != '0',
    decreases n,
{
    let digits = digits_of(n);
    reveal_with_fuel(number_in, 2);
    if n < 10 {
        assert(digits.drop_last() =~= seq![]);
    } else {
        lemma_digits(n / 10);
        assert(digits.drop_last() =~= digits_of(n / 10));
        assert(digits.last() == digit_char(n % 10));
    }
}

/// `number_text` writes the number in decimal notation.
pub proof fn law_number_text(n: usize, r: String)
    requires
        call_ensures(number_text, (n,), r),
    ensures
        numeral(r@),
        number_in(r@) == n,
{
    lemma_digits(n as nat);
}

/// `next_line` parts a text at its first line feed, if it has one.
pub proof fn law_next_line(text: &str, r: (&str, Option<&str>))
    requires
        call_ensures(next_line, (text,), r),
    ensures
        !r.0@.contains('\n'),
        match r.1 {
            Some(rest) => text@ == r.0@ + seq!['\n'] + rest@,
            None => text@ == r.0@,
        },
{
    lemma_line_end(text@);
    let n = line_end(text@);
    if r.0@.contains('\n') {
        let i = choose|i: int| 0 <= i < r.0@.len() && r.0@[i] == '\n';
        assert(text@[i] == '\n');
    }
    match r.1 {
        Some(rest) => {
            assert(text@ =~= r.0@ + seq!['\n'] + rest@);
        },
        None => {
            assert(text@ =~= r.0@);
        },
    }
}

} // verus!
