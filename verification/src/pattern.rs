//! The template language: one char of a pattern asks for one piece of the
//! password.

use vstd::prelude::*;

verus! {

/// What one place of a pattern asks for.
#[derive(Clone, Copy, Debug, PartialEq, Eq, Structural)]
pub enum Item {
    /// `w`: a word in lower case.
    Word,
    /// `W`: a word whose first letter is in upper case.
    CapitalWord,
    /// `c`: one token of the chain.
    Char,
    /// `C`: one token whose first letter is in upper case.
    CapitalChar,
    /// `d`: a digit.
    Digit,
    /// `s`: a symbol.
    Symbol,
    /// Any other char, which stands for itself.
    Literal(char),
    /// A backslash and the char after it, which stands for itself whatever
    /// it is.
    Escape(char),
}

impl Item {
    /// `w` or `W`.
    pub open spec fn is_word(self) -> bool {
        self is Word || self is CapitalWord
    }

    /// An item that takes nothing from the random source.
    pub open spec fn is_fixed(self) -> bool {
        self is Literal || self is Escape
    }
}

/// What a char asks for where no backslash stands before it.
pub open spec fn class_of(c: char) -> Item {
    if c == 'w' {
        Item::Word
    } else if c == 'W' {
        Item::CapitalWord
    } else if c == 'c' {
        Item::Char
    } else if c == 'C' {
        Item::CapitalChar
    } else if c == 'd' {
        Item::Digit
    } else if c == 's' {
        Item::Symbol
    } else {
        Item::Literal(c)
    }
}

/// What the char after a backslash asks for: itself.
pub open spec fn escaped(c: char) -> Item {
    Item::Escape(c)
}

/// The items of a pattern, read from the left. A backslash takes the char
/// after it with it; a backslash that ends the pattern has nothing to take
/// and asks for nothing.
pub open spec fn items_of(pattern: Seq<char>) -> Seq<Item>
    decreases pattern.len(),
{
    if pattern.len() == 0 {
        Seq::empty()
    } else if pattern[0] != '\\' {
        seq![class_of(pattern[0])] + items_of(pattern.skip(1))
    } else if pattern.len() == 1 {
        Seq::empty()
    } else {
        seq![escaped(pattern[1])] + items_of(pattern.skip(2))
    }
}

/// Whether every backslash of the pattern has a char to take: whether the
/// pattern does not end in a backslash that nothing escapes.
pub open spec fn complete(pattern: Seq<char>) -> bool
    decreases pattern.len(),
{
    if pattern.len() == 0 {
        true
    } else if pattern[0] != '\\' {
        complete(pattern.skip(1))
    } else if pattern.len() == 1 {
        false
    } else {
        complete(pattern.skip(2))
    }
}

/// Reads one char that no backslash precedes.
pub fn class(c: char) -> (item: Item)
    ensures
        item == class_of(c),
{
    if c == 'w' {
        Item::Word
    } else if c == 'W' {
        Item::CapitalWord
    } else if c == 'c' {
        Item::Char
    } else if c == 'C' {
        Item::CapitalChar
    } else if c == 'd' {
        Item::Digit
    } else if c == 's' {
        Item::Symbol
    } else {
        Item::Literal(c)
    }
}

/// What the items of a pattern are from place `i` on, by the char that
/// stands there.
proof fn lemma_items_from(pattern: Seq<char>, i: int)
    requires
        0 <= i < pattern.len(),
    ensures
        pattern[i] != '\\' ==> items_of(pattern.skip(i)) == seq![class_of(pattern[i])] + items_of(
            pattern.skip(i + 1),
        ),
        pattern[i] == '\\' && i + 1 == pattern.len() ==> items_of(pattern.skip(i))
            == Seq::<Item>::empty(),
        pattern[i] == '\\' && i + 1 < pattern.len() ==> items_of(pattern.skip(i)) == seq![
            escaped(pattern[i + 1]),
        ] + items_of(pattern.skip(i + 2)),
{
    let rest = pattern.skip(i);
    assert(rest[0] == pattern[i]);
    assert(rest.skip(1) =~= pattern.skip(i + 1));
    if i + 1 < pattern.len() {
        assert(rest[1] == pattern[i + 1]);
        assert(rest.skip(2) =~= pattern.skip(i + 2));
    }
}

/// Reads the char after a backslash.
pub fn escape(c: char) -> (item: Item)
    ensures
        item == escaped(c),
{
    Item::Escape(c)
}

/// Reads a pattern in one pass.
pub fn classify(pattern: &Vec<char>) -> (items: Vec<Item>)
    ensures
        items@ == items_of(pattern@),
        items@.len() <= pattern@.len(),
{
    let mut items: Vec<Item> = Vec::new();
    let mut i: usize = 0;
    assert(pattern@.skip(0) =~= pattern@);
    while i < pattern.len()
        invariant
            i <= pattern.len(),
            items@.len() <= i,
            items_of(pattern@) =~= items@ + items_of(pattern@.skip(i as int)),
        decreases pattern.len() - i,
    {
        proof {
            lemma_items_from(pattern@, i as int);
        }
        let c = pattern[i];
        if c != '\\' {
            items.push(class(c));
            i += 1;
        } else if i + 1 == pattern.len() {
            i += 1;
        } else {
            items.push(escape(pattern[i + 1]));
            i += 2;
        }
    }
    items
}

/// Tells whether every backslash of the pattern has a char to take. Where
/// one has none, the pattern is malformed; generation then goes as if that
/// last backslash were not there.
pub fn is_complete(pattern: &Vec<char>) -> (b: bool)
    ensures
        b == complete(pattern@),
{
    let mut i: usize = 0;
    assert(pattern@.skip(0) =~= pattern@);
    while i < pattern.len()
        invariant
            i <= pattern.len(),
            complete(pattern@) == complete(pattern@.skip(i as int)),
        decreases pattern.len() - i,
    {
        let ghost rest = pattern@.skip(i as int);
        proof {
            assert(rest[0] == pattern@[i as int]);
            assert(rest.skip(1) =~= pattern@.skip(i + 1));
        }
        if pattern[i] != '\\' {
            i += 1;
        } else if i + 1 == pattern.len() {
            return false;
        } else {
            proof {
                assert(rest.skip(2) =~= pattern@.skip(i + 2));
            }
            i += 2;
        }
    }
    true
}

} // verus!
