//! Characters and strings: the few primitives the tokenizer is built on.

use vstd::prelude::*;

verus! {

/// The characters that count as whitespace: the code points that carry the
/// Unicode `White_Space` property.
pub open spec fn is_whitespace(ch: char) -> bool {
    ||| ch == ' '
    ||| ('\u{9}' <= ch && ch <= '\u{d}')
    ||| ch == '\u{85}'
    ||| ch == '\u{a0}'
    ||| ch == '\u{1680}'
    ||| ('\u{2000}' <= ch && ch <= '\u{200a}')
    ||| ch == '\u{2028}'
    ||| ch == '\u{2029}'
    ||| ch == '\u{202f}'
    ||| ch == '\u{205f}'
    ||| ch == '\u{3000}'
}

/// Decides [`is_whitespace`].
pub fn char_is_whitespace(ch: char) -> (b: bool)
    ensures
        b == is_whitespace(ch),
{
    ch == ' ' || ('\u{9}' <= ch && ch <= '\u{d}') || ch == '\u{85}' || ch == '\u{a0}' || ch
        == '\u{1680}' || ('\u{2000}' <= ch && ch <= '\u{200a}') || ch == '\u{2028}' || ch
        == '\u{2029}' || ch == '\u{202f}' || ch == '\u{205f}' || ch == '\u{3000}'
}

/// `String::push` appends one character to the end of the string.
pub assume_specification[ String::push ](s: &mut String, ch: char)
    ensures
        final(s)@ == old(s)@.push(ch),
;

/// The characters of `s`, in order.
pub fn chars_of(s: &str) -> (v: Vec<char>)
    ensures
        v@ == s@,
{
    let mut v: Vec<char> = Vec::new();
    for ch in it: s.chars()
        invariant
            it.seq() == s@,
            v@ == it.seq().take(it.index()),
    {
        v.push(ch);
    }
    v
}

/// The string made of the characters `c[from..to]`.
pub fn string_of(c: &[char], from: usize, to: usize) -> (s: String)
    requires
        from <= to <= c.len(),
    ensures
        s@ == c@.subrange(from as int, to as int),
{
    let mut s = String::new();
    let mut i: usize = from;
    while i < to
        invariant
            from <= i <= to <= c.len(),
            s@ == c@.subrange(from as int, i as int),
        decreases to - i,
    {
        s.push(c[i]);
        i += 1;
    }
    s
}

} // verus!
