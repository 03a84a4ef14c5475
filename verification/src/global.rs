use crate::text::{chars_of, is_digit};
use vstd::prelude::*;

pub mod default;

verus! {

/// The characters that count as white space.
pub open spec fn is_blank(c: char) -> bool {
    c == ' ' || ('\u{9}' <= c && c <= '\u{d}') || c == '\u{85}' || c == '\u{a0}' || c == '\u{1680}'
        || ('\u{2000}' <= c && c <= '\u{200a}') || c == '\u{2028}' || c == '\u{2029}' || c
        == '\u{202f}' || c == '\u{205f}' || c == '\u{3000}'
}

/// Tells whether a character counts as white space.
pub fn blank(c: char) -> (r: bool)
    ensures
        r == is_blank(c),
{
    c == ' ' || ('\u{9}' <= c && c <= '\u{d}') || c == '\u{85}' || c == '\u{a0}' || c == '\u{1680}'
        || ('\u{2000}' <= c && c <= '\u{200a}') || c == '\u{2028}' || c == '\u{2029}' || c
        == '\u{202f}' || c == '\u{205f}' || c == '\u{3000}'
}

/// The number of white-space characters at the start of a text.
pub open spec fn lead(s: Seq<char>) -> nat
    decreases s.len(),
{
    if s.len() > 0 && is_blank(s[0]) {
        1 + lead(s.skip(1))
    } else {
        0
    }
}

/// The number of white-space characters at the end of a text.
pub open spec fn trail(s: Seq<char>) -> nat
    decreases s.len(),
{
    if s.len() > 0 && is_blank(s.last()) {
        1 + trail(s.drop_last())
    } else {
        0
    }
}

/// A text without the white space at its start and at its end.
pub open spec fn trimmed(s: Seq<char>) -> Seq<char> {
    if lead(s) >= s.len() {
        Seq::empty()
    } else {
        s.subrange(lead(s) as int, s.len() - trail(s))
    }
}

/// The number that a row of decimal digits stands for.
pub open spec fn digits_value(s: Seq<char>) -> nat
    decreases s.len(),
{
    if s.len() == 0 {
        0
    } else {
        digits_value(s.drop_last()) * 10 + (s.last() as u32 - '0' as u32) as nat
    }
}

/// Whether a text is made of decimal digits alone.
pub open spec fn only_digits(s: Seq<char>) -> bool {
    forall|i: int| 0 <= i < s.len() ==> is_digit(#[trigger] s[i])
}

/// The number that a text stands for: decimal digits, at least one, after a plus sign or
/// none, and no more than 32 bits hold.
pub open spec fn number(s: Seq<char>) -> Option<u32> {
    let digits = if s.len() > 0 && s[0] == '+' {
        s.skip(1)
    } else {
        s
    };
    if digits.len() > 0 && only_digits(digits) && digits_value(digits) <= u32::MAX {
        Some(digits_value(digits) as u32)
    } else {
        None
    }
}

/// The place of the first `x` in a text.
pub open spec fn cross(s: Seq<char>) -> Option<int>
    decreases s.len(),
{
    if s.len() == 0 {
        None
    } else if s[0] == 'x' {
        Some(0)
    } else {
        match cross(s.skip(1)) {
            Some(i) => Some(i + 1),
            None => None,
        }
    }
}

/// The two measures that a text like `1024 x 768` names: what stands before the first `x`
/// and what stands after it, each without the white space around it.
pub open spec fn measures(s: Seq<char>) -> Option<(Seq<char>, Seq<char>)> {
    match cross(s) {
        Some(i) => Some((trimmed(s.subrange(0, i)), trimmed(s.subrange(i + 1, s.len() as int)))),
        None => None,
    }
}

/// The width and the height that a text like `1024 x 768` names.
pub open spec fn window_size_of(s: Seq<char>) -> Option<(u32, u32)> {
    match measures(s) {
        Some((w, h)) => if number(w) is Some && number(h) is Some {
            Some((number(w)->0, number(h)->0))
        } else {
            None
        },
        None => None,
    }
}

proof fn lemma_lead(s: Seq<char>, k: int)
    requires
        0 <= k <= s.len(),
        forall|i: int| 0 <= i < k ==> is_blank(#[trigger] s[i]),
        k == s.len() || !is_blank(s[k]),
    ensures
        lead(s) == k,
    decreases k,
{
    if k > 0 {
        assert(is_blank(s[0]));
        assert forall|i: int| 0 <= i < k - 1 implies is_blank(#[trigger] s.skip(1)[i]) by {
            assert(s.skip(1)[i] == s[i + 1]);
        }
        lemma_lead(s.skip(1), k - 1);
    }
}

proof fn lemma_trail(s: Seq<char>, k: int)
    requires
        0 <= k <= s.len(),
        forall|i: int| s.len() - k <= i < s.len() ==> is_blank(#[trigger] s[i]),
        k == s.len() || !is_blank(s[s.len() - k - 1]),
    ensures
        trail(s) == k,
    decreases k,
{
    if k > 0 {
        assert(is_blank(s[s.len() - 1]));
        assert forall|i: int|
            s.drop_last().len() - (k - 1) <= i < s.drop_last().len() implies is_blank(
            #[trigger] s.drop_last()[i],
        ) by {
            assert(s.drop_last()[i] == s[i]);
        }
        lemma_trail(s.drop_last(), k - 1);
    }
}

proof fn lemma_cross(s: Seq<char>, k: int)
    requires
        0 <= k <= s.len(),
        forall|i: int| 0 <= i < k ==> #[trigger] s[i] != 'x',
        k == s.len() || s[k] == 'x',
    ensures
        cross(s) == if k == s.len() {
            None
        } else {
            Some(k)
        },
    decreases k,
{
    if k > 0 {
        assert(s[0] != 'x');
        assert forall|i: int| 0 <= i < k - 1 implies #[trigger] s.skip(1)[i] != 'x' by {
            assert(s.skip(1)[i] == s[i + 1]);
        }
        lemma_cross(s.skip(1), k - 1);
    }
}

proof fn lemma_digits_grow(s: Seq<char>, k: int)
    requires
        0 <= k <= s.len(),
    ensures
        digits_value(s.take(k)) <= digits_value(s),
    decreases s.len() - k,
{
    if k < s.len() {
        lemma_digits_grow(s, k + 1);
        assert(s.take(k + 1).drop_last() =~= s.take(k));
    } else {
        assert(s.take(k) =~= s);
    }
}

/// Reads the number that the characters from `from` up to `to` stand for.
#[verifier::loop_isolation(false)]
fn read_number(cs: &Vec<char>, from: usize, to: usize) -> (r: Option<u32>)
    requires
        from <= to <= cs.len(),
    ensures
        r == number(cs@.subrange(from as int, to as int)),
{
    let ghost s = cs@.subrange(from as int, to as int);
    let start: usize = if from < to && cs[from] == '+' {
        from + 1
    } else {
        from
    };
    let ghost digits = cs@.subrange(start as int, to as int);
    assert(digits =~= if s.len() > 0 && s[0] == '+' {
        s.skip(1)
    } else {
        s
    });
    if start == to {
        return None;
    }
    let mut value: u64 = 0;
    let mut i: usize = start;
    while i < to
        invariant
            start <= i <= to,
            to <= cs.len(),
            digits == cs@.subrange(start as int, to as int),
            forall|j: int| 0 <= j < i - start ==> is_digit(#[trigger] digits[j]),
            value == digits_value(digits.take(i - start)),
            value <= u32::MAX,
        decreases to - i,
    {
        let c = cs[i];
        assert(c == digits[i - start]);
        if !('0' <= c && c <= '9') {
            proof {
                let d = if s.len() > 0 && s[0] == '+' {
                    s.skip(1)
                } else {
                    s
                };
                assert(d =~= digits);
                assert(!is_digit(d[i - start]));
                assert(!only_digits(d));
                assert(number(s) is None);
            }
            return None;
        }
        proof {
            assert(digits.take(i - start + 1).drop_last() =~= digits.take(i - start));
            assert(digits.take(i - start + 1).last() == c);
        }
        let d: u64 = (c as u32 - '0' as u32) as u64;
        value = value * 10 + d;
        assert(value == digits_value(digits.take(i - start + 1)));
        if value > 0xffff_ffff {
            proof {
                let d = if s.len() > 0 && s[0] == '+' {
                    s.skip(1)
                } else {
                    s
                };
                assert(d =~= digits);
                lemma_digits_grow(digits, i - start + 1);
                assert(number(s) is None);
            }
            return None;
        }
        i += 1;
    }
    proof {
        assert(digits.take(digits.len() as int) =~= digits);
    }
    Some(value as u32)
}

/// Finds where the text between `from` and `to` begins and ends once the white space
/// around it is left out.
fn trim(cs: &Vec<char>, from: usize, to: usize) -> (r: (usize, usize))
    requires
        from <= to <= cs.len(),
    ensures
        from <= r.0 <= r.1 <= to,
        cs@.subrange(r.0 as int, r.1 as int) == trimmed(cs@.subrange(from as int, to as int)),
{
    let ghost s = cs@.subrange(from as int, to as int);
    let mut a: usize = from;
    while a < to && blank(cs[a])
        invariant
            from <= a <= to,
            to <= cs.len(),
            forall|i: int| from <= i < a ==> is_blank(#[trigger] cs@[i]),
        decreases to - a,
    {
        a += 1;
    }
    proof {
        assert forall|i: int| 0 <= i < a - from implies is_blank(#[trigger] s[i]) by {
            assert(s[i] == cs@[from + i]);
        }
        lemma_lead(s, a - from);
    }
    if a == to {
        assert(cs@.subrange(a as int, a as int) =~= Seq::empty());
        return (a, a);
    }
    let mut b: usize = to;
    while b > a && blank(cs[b - 1])
        invariant
            a <= b <= to,
            to <= cs.len(),
            a < to,
            !is_blank(cs@[a as int]),
            forall|i: int| b <= i < to ==> is_blank(#[trigger] cs@[i]),
        decreases b - a,
    {
        b -= 1;
    }
    proof {
        assert(b > a);
        assert forall|i: int| s.len() - (to - b) <= i < s.len() implies is_blank(#[trigger] s[i]) by {
            assert(s[i] == cs@[from + i]);
        }
        assert(s[s.len() - (to - b) - 1] == cs@[b - 1]);
        lemma_trail(s, to - b);
        assert(cs@.subrange(a as int, b as int) =~= s.subrange(a - from, s.len() - (to - b)));
    }
    (a, b)
}

/// Reads a width and a height from a text like `1024 x 768`: two numbers with an `x` between
/// them and any white space around them.
pub fn parse_window_size(text: &str) -> (r: Option<(u32, u32)>)
    ensures
        r == window_size_of(text@),
{
    let cs = chars_of(text);
    let mut k: usize = 0;
    while k < cs.len() && cs[k] != 'x'
        invariant
            k <= cs.len(),
            forall|i: int| 0 <= i < k ==> #[trigger] cs@[i] != 'x',
        decreases cs.len() - k,
    {
        k += 1;
    }
    proof {
        lemma_cross(cs@, k as int);
    }
    if k == cs.len() {
        return None;
    }
    let (a, b) = trim(&cs, 0, k);
    let (c, d) = trim(&cs, k + 1, cs.len());
    let width = read_number(&cs, a, b);
    let height = read_number(&cs, c, d);
    match (width, height) {
        (Some(w), Some(h)) => Some((w, h)),
        _ => None,
    }
}

/// Reads the two measures of a text like `0.8 x 600`: what stands before the first `x` and
/// what stands after it, each without the white space around it.
pub fn split_measures(text: &str) -> (r: Option<(String, String)>)
    ensures
        match r {
            Some((w, h)) => measures(text@) == Some((w@, h@)),
            None => measures(text@) is None,
        },
{
    let cs = chars_of(text);
    let mut k: usize = 0;
    while k < cs.len() && cs[k] != 'x'
        invariant
            k <= cs.len(),
            forall|i: int| 0 <= i < k ==> #[trigger] cs@[i] != 'x',
        decreases cs.len() - k,
    {
        k += 1;
    }
    proof {
        lemma_cross(cs@, k as int);
    }
    if k == cs.len() {
        return None;
    }
    let (a, b) = trim(&cs, 0, k);
    let (c, d) = trim(&cs, k + 1, cs.len());
    let w = String::from_str(text.substring_char(a, b));
    let h = String::from_str(text.substring_char(c, d));
    Some((w, h))
}

/// Reads a whole number of 32 bits from a text: digits, at least one, after a plus sign or
/// none.
pub fn parse_number(text: &str) -> (r: Option<u32>)
    ensures
        r == number(text@),
{
    let cs = chars_of(text);
    let r = read_number(&cs, 0, cs.len());
    assert(cs@.subrange(0, cs@.len() as int) =~= text@);
    r
}

/// Whether a measure of so many pixels fits a window of so many: it is positive and no
/// larger than the window.
pub fn fits(content: u32, window: u32) -> (r: bool)
    ensures
        r == (0 < content <= window),
{
    content != 0 && content <= window
}

/// How text is laid out across the width.
#[derive(Debug, Clone, Copy, PartialEq, Eq, Structural)]
pub enum Alignment {
    Start,
    Center,
    End,
}

/// The alignment that a word in capital letters names.
pub open spec fn alignment_named(upper: Seq<char>) -> Option<Alignment> {
    if upper == "START"@ || upper == "LEFT"@ {
        Some(Alignment::Start)
    } else if upper == "CENTER"@ {
        Some(Alignment::Center)
    } else if upper == "END"@ || upper == "RIGHT"@ {
        Some(Alignment::End)
    } else {
        None
    }
}

/// The alignment that a word in capital letters names, if it names one.
pub fn alignment_of(upper: &str) -> (r: Option<Alignment>)
    ensures
        r == alignment_named(upper@),
{
    if crate::text::same(upper, "START") || crate::text::same(upper, "LEFT") {
        Some(Alignment::Start)
    } else if crate::text::same(upper, "CENTER") {
        Some(Alignment::Center)
    } else if crate::text::same(upper, "END") || crate::text::same(upper, "RIGHT") {
        Some(Alignment::End)
    } else {
        None
    }
}

/// The size of text, in points before scaling, that a word in capital letters names.
pub open spec fn size_named(upper: Seq<char>) -> Option<u16> {
    if upper == "TINY"@ {
        Some(16u16)
    } else if upper == "SMALL"@ {
        Some(20u16)
    } else if upper == "NORMAL"@ {
        Some(24u16)
    } else if upper == "LARGE"@ {
        Some(28u16)
    } else if upper == "XLARGE"@ {
        Some(32u16)
    } else if upper == "XXLARGE"@ {
        Some(36u16)
    } else {
        None
    }
}

/// The size of text, in points before scaling, that a word in capital letters names, if it
/// names one.
pub fn size_of(upper: &str) -> (r: Option<u16>)
    ensures
        r == size_named(upper@),
{
    if crate::text::same(upper, "TINY") {
        Some(16)
    } else if crate::text::same(upper, "SMALL") {
        Some(20)
    } else if crate::text::same(upper, "NORMAL") {
        Some(24)
    } else if crate::text::same(upper, "LARGE") {
        Some(28)
    } else if crate::text::same(upper, "XLARGE") {
        Some(32)
    } else if crate::text::same(upper, "XXLARGE") {
        Some(36)
    } else {
        None
    }
}

/// What the standard library makes of a text when it turns it into capital letters.
pub uninterp spec fn upper_text(s: Seq<char>) -> Seq<char>;

/// Turns a text into capital letters with `str::to_uppercase`. The result is a function of
/// the text alone and goes by the name `upper_text`.
#[verifier::external_body]
fn to_upper(s: &str) -> (r: String)
    ensures
        r@ == upper_text(s@),
{
    s.to_uppercase()
}

/// The alignment that a word names, in capital or in small letters.
pub fn alignment(word: &str) -> (r: Option<Alignment>)
    ensures
        r == alignment_named(upper_text(word@)),
{
    alignment_of(to_upper(word).as_str())
}

/// The size of text, in points before scaling, that a word names, in capital or in small
/// letters.
pub fn base_size(word: &str) -> (r: Option<u16>)
    ensures
        r == size_named(upper_text(word@)),
{
    size_of(to_upper(word).as_str())
}

} // verus!
