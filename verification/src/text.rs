//! Small operations on text: trimming, which is taken on trust from the
//! standard library, fingerprints, and decimal numbers.

use vstd::prelude::*;
use std::collections::hash_map::DefaultHasher;
use std::hash::Hasher;
use vstd::std_specs::hash::DefaultHasherAdditionalSpecFns;

verus! {

/// Whether a character is white space: the characters to which Unicode
/// gives the property `White_Space`.
pub open spec fn is_space(c: char) -> bool {
    let n = c as u32;
    ||| 0x09 <= n <= 0x0d
    ||| n == 0x20
    ||| n == 0x85
    ||| n == 0xa0
    ||| n == 0x1680
    ||| 0x2000 <= n <= 0x200a
    ||| n == 0x2028
    ||| n == 0x2029
    ||| n == 0x202f
    ||| n == 0x205f
    ||| n == 0x3000
}

/// A text without the white space at its end.
pub open spec fn trim_end(text: Seq<char>) -> Seq<char>
    decreases text.len(),
{
    if text.len() > 0 && is_space(text.last()) {
        trim_end(text.drop_last())
    } else {
        text
    }
}

/// A text without the white space at its start.
pub open spec fn trim_start(text: Seq<char>) -> Seq<char>
    decreases text.len(),
{
    if text.len() > 0 && is_space(text.first()) {
        trim_start(text.drop_first())
    } else {
        text
    }
}

/// A text without the white space at its two ends.
pub open spec fn trimmed(text: Seq<char>) -> Seq<char> {
    trim_start(trim_end(text))
}

/// The 64-bit fingerprint of a text: what a fresh `DefaultHasher` makes of
/// the bytes of the text, written to it in one piece.
pub open spec fn fingerprint_of(text: Seq<char>) -> u64 {
    DefaultHasher::spec_finish(seq![vstd::utf8::encode_utf8(text)])
}

/// The character of a decimal digit.
pub open spec fn digit_char(d: nat) -> char {
    if d == 0 {
        '0'
    } else if d == 1 {
        '1'
    } else if d == 2 {
        '2'
    } else if d == 3 {
        '3'
    } else if d == 4 {
        '4'
    } else if d == 5 {
        '5'
    } else if d == 6 {
        '6'
    } else if d == 7 {
        '7'
    } else if d == 8 {
        '8'
    } else {
        '9'
    }
}

/// A number in decimal, without leading zeros.
pub open spec fn digits(n: nat) -> Seq<char>
    decreases n,
{
    if n < 10 {
        seq![digit_char(n)]
    } else {
        digits(n / 10).push(digit_char(n % 10))
    }
}

/// `str::trim`: the text without the white space at its two ends, where
/// white space is what Unicode gives the property `White_Space`.
#[verifier::external_body]
pub(crate) fn trim<'a>(text: &'a str) -> (r: &'a str)
    ensures
        r@ == trimmed(text@),
{
    text.trim()
}

/// The 64-bit fingerprint of a text. Two texts may share a fingerprint.
pub fn fingerprint(text: &str) -> (r: u64)
    ensures
        r == fingerprint_of(text@),
{
    let mut hasher: DefaultHasher = DefaultHasher::new();
    hasher.write(text.as_bytes());
    let r: u64 = hasher.finish();
    proof {
        assert(hasher@ =~= seq![vstd::utf8::encode_utf8(text@)]);
    }
    r
}

/// Ends a line: appends a line feed.
pub fn end_line(text: &mut String)
    ensures
        final(text)@ == old(text)@.push('\n'),
{
    text.append("\n");
    proof {
        reveal_strlit("\n");
        assert(text@ =~= old(text)@.push('\n'));
    }
}

/// Appends a dot.
pub fn push_dot(text: &mut String)
    ensures
        final(text)@ == old(text)@.push('.'),
{
    text.append(".");
    proof {
        reveal_strlit(".");
        assert(text@ =~= old(text)@.push('.'));
    }
}

/// Appends a slash.
pub fn push_slash(text: &mut String)
    ensures
        final(text)@ == old(text)@.push('/'),
{
    text.append("/");
    proof {
        reveal_strlit("/");
        assert(text@ =~= old(text)@.push('/'));
    }
}

/// The text of one decimal digit.
pub fn digit_text(d: usize) -> (r: &'static str)
    requires
        d < 10,
    ensures
        r@ == seq![digit_char(d as nat)],
{
    proof {
        reveal_strlit("0");
        reveal_strlit("1");
        reveal_strlit("2");
        reveal_strlit("3");
        reveal_strlit("4");
        reveal_strlit("5");
        reveal_strlit("6");
        reveal_strlit("7");
        reveal_strlit("8");
        reveal_strlit("9");
    }
    let r: &'static str = if d == 0 {
        "0"
    } else if d == 1 {
        "1"
    } else if d == 2 {
        "2"
    } else if d == 3 {
        "3"
    } else if d == 4 {
        "4"
    } else if d == 5 {
        "5"
    } else if d == 6 {
        "6"
    } else if d == 7 {
        "7"
    } else if d == 8 {
        "8"
    } else {
        "9"
    };
    assert(r@ =~= seq![digit_char(d as nat)]);
    r
}

/// A number in decimal, without leading zeros.
pub fn decimal(n: usize) -> (r: String)
    ensures
        r@ == digits(n as nat),
    decreases n,
{
    if n < 10 {
        let mut r: String = String::new();
        r.append(digit_text(n));
        assert(r@ =~= digits(n as nat));
        r
    } else {
        let mut r: String = decimal(n / 10);
        r.append(digit_text(n % 10));
        assert(r@ =~= digits(n as nat));
        r
    }
}

/// What is left at the end of a text once the white space is gone is no
/// white space, and nothing is added to the text.
pub proof fn lemma_trim_end(text: Seq<char>)
    ensures
        trim_end(text).len() == 0 || !is_space(trim_end(text).last()),
        trim_end(text).len() <= text.len(),
        forall|i: int| 0 <= i < trim_end(text).len() ==> trim_end(text)[i] == text[i],
    decreases text.len(),
{
    if text.len() > 0 && is_space(text.last()) {
        let before = text.drop_last();
        lemma_trim_end(before);
        assert forall|i: int| 0 <= i < trim_end(text).len() implies trim_end(text)[i]
            == text[i] by {
            assert(trim_end(before)[i] == before[i]);
        }
    }
}

/// What is left at the start of a text once the white space is gone is no
/// white space; the end of the text stays as it is, and nothing is added.
pub proof fn lemma_trim_start(text: Seq<char>)
    ensures
        trim_start(text).len() == 0 || (!is_space(trim_start(text).first()) && trim_start(
            text,
        ).last() == text.last()),
        trim_start(text).len() <= text.len(),
        forall|i: int|
            0 <= i < trim_start(text).len() ==> trim_start(text)[i] == text[i + text.len()
                - trim_start(text).len()],
    decreases text.len(),
{
    if text.len() > 0 && is_space(text.first()) {
        let after = text.drop_first();
        lemma_trim_start(after);
        let left = trim_start(text);
        assert forall|i: int| 0 <= i < left.len() implies left[i] == text[i + text.len()
            - left.len()] by {
            assert(left[i] == after[i + after.len() - left.len()]);
        }
        if left.len() > 0 {
            assert(left.last() == after.last());
            assert(after.last() == text.last());
        }
    }
}

/// A trimmed text has no white space at its ends, so that trimming it again
/// changes nothing; and it holds no character that the text did not hold.
pub proof fn lemma_trimmed(text: Seq<char>)
    ensures
        trimmed(trimmed(text)) == trimmed(text),
        forall|i: int|
            0 <= i < trimmed(text).len() ==> text.contains(#[trigger] trimmed(text)[i]),
        text.len() == 0 ==> trimmed(text).len() == 0,
{
    let cut = trim_end(text);
    let t = trimmed(text);
    lemma_trim_end(text);
    lemma_trim_start(cut);
    assert forall|i: int| 0 <= i < t.len() implies text.contains(#[trigger] t[i]) by {
        let j = i + cut.len() - t.len();
        assert(t[i] == cut[j]);
        assert(cut[j] == text[j]);
    }
    if t.len() > 0 {
        assert(t.last() == cut.last());
        assert(trim_end(t) == t);
        assert(trim_start(t) == t);
    } else {
        assert(trim_end(t) == t);
        assert(trim_start(t) == t);
    }
}

} // verus!
