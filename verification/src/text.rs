//! Characters and strings: what the standard library decides about them, and
//! the conversions between `str` and the `Vec<char>` that the rest works on.

use vstd::prelude::*;
use vstd::std_specs::iter::IteratorSpec;

verus! {

/// Whether `char::is_whitespace` holds of `c`.
pub uninterp spec fn white_space(c: char) -> bool;

/// The chars of `str::to_lowercase` of the string whose chars are `s`.
pub uninterp spec fn lowercase(s: Seq<char>) -> Seq<char>;

/// The chars that `char::to_uppercase` yields for `c`.
pub uninterp spec fn uppercase(c: char) -> Seq<char>;

/// `char::is_whitespace`: the answer is the Unicode `White_Space` property
/// of `c`, which the contract only names.
#[verifier::external_body]
pub(crate) fn is_whitespace(c: char) -> (b: bool)
    ensures
        b == white_space(c),
{
    c.is_whitespace()
}

/// `str::to_lowercase`: the result depends on the chars of `s` alone, and the
/// contract only names it.
#[verifier::external_body]
pub(crate) fn to_lowercase(s: &str) -> (r: String)
    ensures
        r@ == lowercase(s@),
{
    s.to_lowercase()
}

/// `char::to_uppercase`: the chars it yields, in order, depend on `c` alone,
/// and the contract only names them.
#[verifier::external_body]
pub(crate) fn to_uppercase(c: char) -> (r: Vec<char>)
    ensures
        r@ == uppercase(c),
{
    c.to_uppercase().collect()
}

/// `String::push`: appends one char.
#[verifier::external_body]
pub(crate) fn push_char(s: &mut String, c: char)
    ensures
        final(s)@ == old(s)@.push(c),
{
    s.push(c)
}

/// `s` without the white space at its front.
pub open spec fn skip_leading(s: Seq<char>) -> Seq<char>
    decreases s.len(),
{
    if s.len() > 0 && white_space(s[0]) {
        skip_leading(s.drop_first())
    } else {
        s
    }
}

/// `s` without the white space at its end.
pub open spec fn skip_trailing(s: Seq<char>) -> Seq<char>
    decreases s.len(),
{
    if s.len() > 0 && white_space(s.last()) {
        skip_trailing(s.drop_last())
    } else {
        s
    }
}

/// `s` without the white space at either end, as `str::trim` gives it.
pub open spec fn trimmed(s: Seq<char>) -> Seq<char> {
    skip_trailing(skip_leading(s))
}

/// A training string as the chain sees it: trimmed, then in lower case.
pub open spec fn normalized(s: Seq<char>) -> Seq<char> {
    lowercase(trimmed(s))
}

/// `s` with its first char replaced by the upper case of that char, which
/// may be more than one char.
pub open spec fn capitalized(s: Seq<char>) -> Seq<char> {
    if s.len() == 0 {
        s
    } else {
        uppercase(s[0]) + s.drop_first()
    }
}

/// The chars of a string, in order.
pub fn chars_of(s: &str) -> (r: Vec<char>)
    ensures
        r@ == s@,
{
    let mut r: Vec<char> = Vec::new();
    let mut it = s.chars();
    loop
        invariant
            r@ + it.remaining() == s@,
            it.decrease() is Some,
        ensures
            r@ == s@,
        decreases it.decrease()->0,
    {
        match it.next() {
            Some(c) => {
                r.push(c);
            },
            None => {
                break;
            },
        }
    }
    r
}

/// The string made of the given chars.
pub fn string_of(chars: &Vec<char>) -> (r: String)
    ensures
        r@ == chars@,
{
    let mut r = String::new();
    let mut i: usize = 0;
    while i < chars.len()
        invariant
            i <= chars.len(),
            r@ == chars@.take(i as int),
        decreases chars.len() - i,
    {
        push_char(&mut r, chars[i]);
        i += 1;
    }
    r
}

/// The chars of `s` from `start` up to `end`.
pub fn slice_of(s: &Vec<char>, start: usize, end: usize) -> (r: Vec<char>)
    requires
        start <= end <= s.len(),
    ensures
        r@ == s@.subrange(start as int, end as int),
{
    let mut r: Vec<char> = Vec::new();
    let mut i: usize = start;
    while i < end
        invariant
            start <= i <= end <= s.len(),
            r@ == s@.subrange(start as int, i as int),
        decreases end - i,
    {
        r.push(s[i]);
        i += 1;
    }
    r
}

/// Removes the white space at both ends.
pub fn trim(s: &Vec<char>) -> (r: Vec<char>)
    ensures
        r@ == trimmed(s@),
{
    let mut start: usize = 0;
    assert(s@.skip(0) =~= s@);
    while start < s.len() && is_whitespace(s[start])
        invariant
            start <= s.len(),
            skip_leading(s@) == skip_leading(s@.skip(start as int)),
        decreases s.len() - start,
    {
        assert(s@.skip(start as int).drop_first() =~= s@.skip(start + 1));
        start += 1;
    }
    let mut end: usize = s.len();
    assert(s@.skip(start as int) =~= s@.subrange(start as int, end as int));
    while end > start && is_whitespace(s[end - 1])
        invariant
            start <= end <= s.len(),
            trimmed(s@) == skip_trailing(s@.subrange(start as int, end as int)),
        decreases end - start,
    {
        assert(s@.subrange(start as int, end as int).drop_last() =~= s@.subrange(
            start as int,
            end - 1,
        ));
        end -= 1;
    }
    slice_of(s, start, end)
}

/// Trims a training string and puts it in lower case.
pub fn normalize(token: &str) -> (r: Vec<char>)
    ensures
        r@ == normalized(token@),
{
    let chars = chars_of(token);
    let kept = string_of(&trim(&chars));
    let lowered = to_lowercase(kept.as_str());
    chars_of(lowered.as_str())
}

/// The chars of a text in lower case.
pub fn lowered(text: &Vec<char>) -> (r: Vec<char>)
    ensures
        r@ == lowercase(text@),
{
    let text = string_of(text);
    let lowered = to_lowercase(text.as_str());
    chars_of(lowered.as_str())
}

/// Puts the first char in upper case and leaves the rest as it is.
pub fn uppercase_first_letter(s: &Vec<char>) -> (r: Vec<char>)
    ensures
        r@ == capitalized(s@),
{
    if s.len() == 0 {
        return Vec::new();
    }
    let mut r = to_uppercase(s[0]);
    let ghost head = r@;
    let mut i: usize = 1;
    while i < s.len()
        invariant
            1 <= i <= s.len(),
            r@ == head + s@.subrange(1, i as int),
        decreases s.len() - i,
    {
        r.push(s[i]);
        i += 1;
    }
    assert(s@.subrange(1, s.len() as int) =~= s@.drop_first());
    r
}

/// Whether `context` is `text` from `start` on.
pub fn same_from(context: &Vec<char>, text: &Vec<char>, start: usize) -> (b: bool)
    requires
        start <= text.len(),
    ensures
        b == (context@ == text@.skip(start as int)),
{
    if context.len() != text.len() - start {
        return false;
    }
    let mut i: usize = 0;
    while i < context.len()
        invariant
            start <= text.len(),
            context.len() == text.len() - start,
            i <= context.len(),
            forall|j: int| 0 <= j < i ==> context@[j] == text@[start + j],
        decreases context.len() - i,
    {
        if context[i] != text[start + i] {
            assert(context@[i as int] != text@.skip(start as int)[i as int]);
            return false;
        }
        i += 1;
    }
    assert(context@ =~= text@.skip(start as int));
    true
}

/// Whether two texts are the same.
pub fn same_text(a: &Vec<char>, b: &Vec<char>) -> (same: bool)
    ensures
        same == (a@ == b@),
{
    assert(b@.skip(0) =~= b@);
    same_from(a, b, 0)
}

/// The chars of each string.
pub open spec fn texts(strings: Seq<String>) -> Seq<Seq<char>> {
    strings.map_values(|s: String| s@)
}

} // verus!
