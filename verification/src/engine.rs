//! What a pattern generates, as a function of the table, the chain depth and
//! the numbers drawn: the text, and the odds of each draw.

use crate::distribution::DistributionView;
use crate::jump_table::TableView;
use crate::jump_table::longest_match;
use crate::odds::Odds;
use crate::pattern::Item;
use crate::text::capitalized;
use crate::text::chars_of;
use crate::text::lowercase;
use vstd::prelude::*;

verus! {

/// The ten digits, in the order in which a draw indexes them.
pub open spec fn digits() -> Seq<char> {
    seq!['0', '9', '8', '7', '6', '5', '4', '3', '2', '1']
}

/// The thirteen symbols, in the order in which a draw indexes them.
pub open spec fn symbols() -> Seq<char> {
    seq!['@', '#', '!', '$', '%', '&', '=', '?', '^', '+', '-', '*', '"']
}

/// The digits or the symbols.
pub open spec fn alphabet(digit: bool) -> Seq<char> {
    if digit {
        digits()
    } else {
        symbols()
    }
}

/// Char number `n` of the digits or of the symbols.
pub fn symbol_at(digit: bool, n: usize) -> (c: char)
    requires
        n < alphabet(digit).len(),
    ensures
        c == alphabet(digit)[n as int],
{
    let chars = if digit {
        chars_of("0987654321")
    } else {
        chars_of("@#!$%&=?^+-*\"")
    };
    proof {
        reveal_strlit("0987654321");
        reveal_strlit("@#!$%&=?^+-*\"");
        if digit {
            assert(chars@ =~= digits());
        } else {
            assert(chars@ =~= symbols());
        }
    }
    chars[n]
}

/// How many tokens make a word: the least number of steps of `depth` that
/// reach 8.
pub open spec fn tokens_per_word(depth: nat) -> nat {
    if depth >= 8 {
        1
    } else if depth == 0 {
        0
    } else {
        (7 + depth) / depth
    }
}

/// The context to try first for a seed: the last `depth` chars of the seed in
/// lower case, or all of them where there are fewer.
pub open spec fn candidate(seed: Seq<char>, depth: nat) -> Seq<char> {
    let lowered = lowercase(seed);
    lowered.skip(
        if lowered.len() > depth {
            lowered.len() - depth
        } else {
            0
        },
    )
}

/// The distribution that a seed leads to: that of the longest suffix of its
/// candidate that the table knows.
pub open spec fn distribution_for(table: TableView, depth: nat, seed: Seq<char>) -> Option<
    DistributionView,
> {
    match longest_match(table, candidate(seed, depth)) {
        Some(context) => Some(table[context]),
        None => None,
    }
}

/// What has been generated so far: the text, the odds of the draws made for
/// it, and whether every draw was below the bound it was drawn for and every
/// item got as many draws as it takes.
pub struct Output {
    pub text: Seq<char>,
    pub entropy: Seq<Odds>,
    pub in_range: bool,
}

impl Output {
    /// The given text with the given odds, every draw in range.
    pub open spec fn of(text: Seq<char>, entropy: Seq<Odds>) -> Output {
        Output { text, entropy, in_range: true }
    }

    /// Nothing generated yet.
    pub open spec fn start() -> Output {
        Output::of(Seq::empty(), Seq::empty())
    }

    /// The same output, in range only if `condition` holds too.
    pub open spec fn checked(self, condition: bool) -> Output {
        Output { text: self.text, entropy: self.entropy, in_range: self.in_range && condition }
    }

    /// A char that stands for itself: no draw, no entropy.
    pub open spec fn literal(self, c: char) -> Output {
        Output { text: self.text.push(c), entropy: self.entropy, in_range: self.in_range }
    }

    /// A dot, where `separate` asks for one.
    pub open spec fn separated(self, separate: bool) -> Output {
        if separate {
            self.literal('.')
        } else {
            self
        }
    }

    /// Char number `n` of `alphabet`, each char being equally likely.
    pub open spec fn symbol(self, alphabet: Seq<char>, n: nat) -> Output {
        Output {
            text: self.text.push(alphabet[n as int]),
            entropy: self.entropy.push(Odds::one_in(alphabet.len())),
            in_range: self.in_range && n < alphabet.len(),
        }
    }

    /// One token of the chain, seeded with the text so far: the entry that
    /// `n` falls on in the distribution that the text leads to, with its
    /// odds. `capital` puts its first char in upper case.
    pub open spec fn token(self, table: TableView, depth: nat, capital: bool, n: nat) -> Output {
        match distribution_for(table, depth, self.text) {
            Some(d) => {
                let i = d.pick(n);
                Output {
                    text: self.text + (if capital {
                        capitalized(d.tokens[i])
                    } else {
                        d.tokens[i]
                    }),
                    entropy: self.entropy.push(d.entropies[i]),
                    in_range: self.in_range && n < d.total,
                }
            },
            None => self.checked(false),
        }
    }

    /// A word: one token for each number of `draws`, each seeded with the
    /// text before it. `capital` puts the first char of the first token in
    /// upper case.
    pub open spec fn word(self, table: TableView, depth: nat, capital: bool, draws: Seq<nat>)
        -> Output
        decreases draws.len(),
    {
        if draws.len() == 0 {
            self
        } else {
            self.word(table, depth, capital, draws.drop_last()).token(
                table,
                depth,
                capital && draws.len() == 1,
                draws.last(),
            )
        }
    }

    /// One item of a pattern with the numbers drawn for it. `separate` says
    /// that the item before it was a word too.
    pub open spec fn item(
        self,
        table: TableView,
        depth: nat,
        separate: bool,
        item: Item,
        draws: Seq<nat>,
    ) -> Output {
        match item {
            Item::Word => self.separated(separate).word(table, depth, false, draws).checked(
                draws.len() == tokens_per_word(depth),
            ),
            Item::CapitalWord => self.separated(separate).word(table, depth, true, draws).checked(
                draws.len() == tokens_per_word(depth),
            ),
            Item::Char => self.token(table, depth, false, draws[0]).checked(draws.len() == 1),
            Item::CapitalChar => self.token(table, depth, true, draws[0]).checked(
                draws.len() == 1,
            ),
            Item::Digit => self.symbol(digits(), draws[0]).checked(draws.len() == 1),
            Item::Symbol => self.symbol(symbols(), draws[0]).checked(draws.len() == 1),
            Item::Literal(c) => self.literal(c).checked(draws.len() == 0),
            Item::Escape(c) => self.literal(c).checked(draws.len() == 0),
        }
    }
}

/// Whether the last two of `items` are both words, so that a dot goes
/// between what they generate.
pub open spec fn adjoining_words(items: Seq<Item>) -> bool {
    items.len() >= 2 && items[items.len() - 2].is_word() && items.last().is_word()
}

/// What `items` generate from `table` at the given chain depth, where
/// `draws[k]` are the numbers drawn for item `k`, in the order drawn.
pub open spec fn generated(table: TableView, depth: nat, items: Seq<Item>, draws: Seq<Seq<nat>>)
    -> Output
    decreases items.len(),
{
    if items.len() == 0 {
        Output::start()
    } else {
        generated(table, depth, items.drop_last(), draws.drop_last()).item(
            table,
            depth,
            adjoining_words(items),
            items.last(),
            draws.last(),
        )
    }
}

/// `text` with `entropy` is what `items` generate for some draws in range:
/// for these.
pub open spec fn generates(
    table: TableView,
    depth: nat,
    items: Seq<Item>,
    draws: Seq<Seq<nat>>,
    text: Seq<char>,
    entropy: Seq<Odds>,
) -> bool {
    &&& draws.len() == items.len()
    &&& generated(table, depth, items, draws) == Output::of(text, entropy)
}

/// `token` with `odds` is the entry of `d` that the number `n` falls on, and
/// `n` is below the total.
pub open spec fn falls_on(d: DistributionView, n: nat, token: Seq<char>, odds: Odds) -> bool {
    &&& n < d.total
    &&& token == d.tokens[d.pick(n)]
    &&& odds == d.entropies[d.pick(n)]
}

/// No item of the pattern draws from the chain: each is a digit, a symbol or
/// a char that stands for itself.
pub open spec fn chain_free(items: Seq<Item>) -> bool {
    forall|k: int|
        0 <= k < items.len() ==> {
            ||| (#[trigger] items[k]).is_fixed()
            ||| items[k] is Digit
            ||| items[k] is Symbol
        }
}

/// One in ten for each digit and one in thirteen for each symbol, in the
/// order of the items.
pub open spec fn alphabet_odds(items: Seq<Item>) -> Seq<Odds>
    decreases items.len(),
{
    if items.len() == 0 {
        Seq::empty()
    } else {
        let before = alphabet_odds(items.drop_last());
        match items.last() {
            Item::Digit => before.push(Odds::one_in(10)),
            Item::Symbol => before.push(Odds::one_in(13)),
            _ => before,
        }
    }
}

/// How many of the items are digits.
pub open spec fn digits_in(items: Seq<Item>) -> nat
    decreases items.len(),
{
    if items.len() == 0 {
        0
    } else {
        digits_in(items.drop_last()) + if items.last() is Digit {
            1nat
        } else {
            0nat
        }
    }
}

/// How many of the items are symbols.
pub open spec fn symbols_in(items: Seq<Item>) -> nat
    decreases items.len(),
{
    if items.len() == 0 {
        0
    } else {
        symbols_in(items.drop_last()) + if items.last() is Symbol {
            1nat
        } else {
            0nat
        }
    }
}

} // verus!
