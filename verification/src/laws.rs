//! What holds of the library as a whole, beyond the contract of any one
//! function.

use crate::distribution::lemma_distribution_of;
use crate::distribution::lemma_running_sums;
use crate::distribution::odds_of;
use crate::engine::Output;
use crate::engine::alphabet_odds;
use crate::engine::candidate;
use crate::engine::chain_free;
use crate::engine::digits_in;
use crate::engine::distribution_for;
use crate::engine::generated;
use crate::engine::symbols_in;
use crate::engine::tokens_per_word;
use crate::generator::Generator;
use crate::generator::trained;
use crate::jump_table::TableView;
use crate::jump_table::dropped;
use crate::jump_table::entry_reaches;
use crate::jump_table::entry_within;
use crate::jump_table::is_max_depth;
use crate::jump_table::lemma_longest_match;
use crate::jump_table::valid_table;
use crate::jump_table::within_depth;
use crate::odds::Odds;
use crate::odds::chances;
use crate::odds::space;
use crate::pattern::Item;
use crate::pattern::escaped;
use crate::pattern::items_of;
use crate::text::capitalized;
use crate::text::normalized;
use crate::transitions::barren;
use crate::transitions::Transition;
use crate::transitions::corpus_transitions;
use crate::transitions::count_in;
use crate::transitions::occurrences;
use crate::transitions::lemma_corpus_bootstrap;
use crate::transitions::at_most;
use crate::transitions::lemma_corpus_narrow;
use crate::transitions::lemma_corpus_reaches;
use crate::transitions::lemma_occurrence;
use crate::transitions::longest;
use crate::transitions::lemma_corpus_proper;
use crate::transitions::lemma_matrix_valid;
use crate::transitions::lemma_outcomes;
use crate::transitions::matrix_of;
use crate::transitions::outcomes;
use vstd::arithmetic::power::pow;
use vstd::prelude::*;

verus! {

/// In the table trained on any corpus, every context has a distribution whose
/// running sums strictly increase and end at the total, and in which the odds
/// of each token are its own occurrences, the difference of two neighbouring
/// running sums, out of the total.
pub proof fn lemma_trained_table_is_valid(corpus: Seq<Seq<char>>, depth: nat, c: Seq<char>)
    requires
        corpus_transitions(corpus, depth).len() <= u128::MAX,
        trained(corpus, depth).contains_key(c),
    ensures
        valid_table(trained(corpus, depth)),
        trained(corpus, depth)[c].wf(),
        forall|i: int, j: int|
            0 <= i < j < trained(corpus, depth)[c].cumulative.len() ==> trained(
                corpus,
                depth,
            )[c].cumulative[i] < trained(corpus, depth)[c].cumulative[j],
        trained(corpus, depth)[c].cumulative.last() == trained(corpus, depth)[c].total,
        forall|i: int|
            0 <= i < trained(corpus, depth)[c].entropies.len() ==> #[trigger] trained(
                corpus,
                depth,
            )[c].entropies[i] == odds_of(
                (trained(corpus, depth)[c].cumulative[i] - trained(corpus, depth)[c].below(i)) as nat,
                trained(corpus, depth)[c].total,
            ),
{
    let trans = corpus_transitions(corpus, depth);
    let matrix = matrix_of(trans);
    let table = trained(corpus, depth);
    lemma_corpus_proper(corpus, depth);
    lemma_matrix_valid(trans);
    assert forall|k: Seq<char>| table.contains_key(k) implies (#[trigger] table[k]).wf() by {
        assert(matrix.contains_key(k));
        lemma_distribution_of(matrix[k]);
    }
    let d = table[c];
    assert forall|i: int, j: int| 0 <= i < j < d.cumulative.len() implies d.cumulative[i]
        < d.cumulative[j] by {
        lemma_running_sums(d, i, j);
    }
}

/// The matrix counts exactly the occurrences: nothing is added to what was
/// seen, and what was not seen counts 0.
pub proof fn lemma_matrix_counts(trans: Seq<Transition>, context: Seq<char>, outcome: Seq<char>)
    ensures
        count_in(matrix_of(trans), context, outcome) == occurrences(trans, context, outcome),
{
    lemma_outcomes(trans, context);
    let outs = outcomes(trans, context);
    if outs.contains(outcome) {
        let j = outs.index_of(outcome);
        assert(outs[j] == outcome);
        assert(outs.len() > 0);
    }
}

/// With a chain depth of at least 1, a corpus has no transition, so that
/// training on it gives no generator, exactly if every training string is
/// empty once it is normalized. The empty corpus is one such.
pub proof fn lemma_training_fails_on_barren_corpus(corpus: Seq<Seq<char>>, depth: nat)
    requires
        depth >= 1,
    ensures
        corpus_transitions(corpus, depth).len() == 0 <==> barren(corpus),
        corpus.len() == 0 ==> corpus_transitions(corpus, depth).len() == 0,
{
    lemma_corpus_bootstrap(corpus, depth);
    if !barren(corpus) {
        let i = choose|i: int|
            !(0 <= i < corpus.len() ==> normalized(#[trigger] corpus[i]).len() == 0);
        assert(normalized(corpus[i]).len() > 0);
    }
}

/// A table has one greatest depth.
pub proof fn lemma_max_depth_is_unique(table: TableView, a: nat, b: nat)
    requires
        is_max_depth(table, a),
        is_max_depth(table, b),
    ensures
        a == b,
{
    reveal(is_max_depth);
    if a < b {
        let c = choose|c: Seq<char>| #[trigger]
            table.contains_key(c) && entry_reaches(c, table[c], b);
        assert(entry_within(c, table[c], a));
    }
    if b < a {
        let c = choose|c: Seq<char>| #[trigger]
            table.contains_key(c) && entry_reaches(c, table[c], a);
        assert(entry_within(c, table[c], b));
    }
}

/// Two generators trained on the same corpus with the same depth hold the same
/// table and the same chain depth, so that the same pattern with the same
/// numbers drawn gives the same text with the same odds. (That a random source
/// seeded twice alike draws the same numbers is the random source's own
/// promise.)
pub proof fn lemma_reproducible(
    a: Generator,
    b: Generator,
    corpus: Seq<Seq<char>>,
    depth: nat,
    pattern: Seq<char>,
    draws: Seq<Seq<nat>>,
)
    requires
        a.wf(),
        b.wf(),
        a.table() == trained(corpus, depth),
        b.table() == trained(corpus, depth),
    ensures
        a.chain_depth() == b.chain_depth(),
        generated(a.table(), a.chain_depth(), items_of(pattern), draws) == generated(
            b.table(),
            b.chain_depth(),
            items_of(pattern),
            draws,
        ),
{
    a.lemma_wf();
    b.lemma_wf();
    lemma_max_depth_is_unique(a.table(), a.chain_depth(), b.chain_depth());
}

/// Whatever the seed and the table, the search for a context makes at most
/// `depth + 1` lookups: it drops at most `depth` chars.
pub proof fn lemma_backoff_is_bounded(table: TableView, depth: nat, seed: Seq<char>)
    ensures
        candidate(seed, depth).len() <= depth,
        dropped(table, candidate(seed, depth)) + 1 <= depth + 1,
        table.contains_key(Seq::<char>::empty()) ==> distribution_for(table, depth, seed) is Some,
{
    lemma_longest_match(table, candidate(seed, depth));
}

/// For a pattern of literals, digits and symbols alone, the entropy does not
/// depend on what is drawn: it holds one in ten for each digit and one in
/// thirteen for each symbol, so that the password is one of `10^digits *
/// 13^symbols` equally likely ones. In bits: the sum, over the digits and
/// symbols, of the binary logarithm of the size of the alphabet.
pub proof fn lemma_entropy_is_additive(
    table: TableView,
    depth: nat,
    items: Seq<Item>,
    draws: Seq<Seq<nat>>,
)
    requires
        chain_free(items),
    ensures
        generated(table, depth, items, draws).entropy == alphabet_odds(items),
        generated(table, depth, items, draws).text.len() == items.len(),
        chances(alphabet_odds(items)) == 1,
        space(alphabet_odds(items)) == pow(10, digits_in(items)) * pow(13, symbols_in(items)),
    decreases items.len(),
{
    reveal(pow);
    if items.len() > 0 {
        let rest = items.drop_last();
        assert forall|k: int| 0 <= k < rest.len() implies {
            ||| (#[trigger] rest[k]).is_fixed()
            ||| rest[k] is Digit
            ||| rest[k] is Symbol
        } by {
            assert(rest[k] == items[k]);
        }
        lemma_entropy_is_additive(table, depth, rest, draws.drop_last());
        let before = alphabet_odds(rest);
        let d = digits_in(rest);
        let s = symbols_in(rest);
        assert(items.last() == items[items.len() - 1]);
        match items.last() {
            Item::Digit => {
                assert(before.push(Odds::one_in(10)).drop_last() =~= before);
                assert(before.push(Odds::one_in(10)).last() == Odds::one_in(10));
                assert(chances(alphabet_odds(items)) == chances(before) * 1);
                assert(space(alphabet_odds(items)) == space(before) * 10);
                assert(pow(10, d + 1) * pow(13, s) == pow(10, d) * pow(13, s) * 10)
                    by (nonlinear_arith)
                    requires
                        pow(10, d + 1) == 10 * pow(10, d),
                ;
            },
            Item::Symbol => {
                assert(before.push(Odds::one_in(13)).drop_last() =~= before);
                assert(before.push(Odds::one_in(13)).last() == Odds::one_in(13));
                assert(chances(alphabet_odds(items)) == chances(before) * 1);
                assert(space(alphabet_odds(items)) == space(before) * 13);
                assert(pow(10, d) * pow(13, s + 1) == pow(10, d) * pow(13, s) * 13)
                    by (nonlinear_arith)
                    requires
                        pow(13, s + 1) == 13 * pow(13, s),
                ;
            },
            _ => {},
        }
    }
}

/// A backslash and a char generate that char, whatever it is, with no entropy:
/// nothing is drawn for it.
pub proof fn lemma_escape_is_literal(table: TableView, depth: nat, c: char, draws: Seq<Seq<nat>>)
    ensures
        items_of(seq!['\\', c]) == seq![escaped(c)],
        generated(table, depth, items_of(seq!['\\', c]), draws).text == seq![c],
        generated(table, depth, items_of(seq!['\\', c]), draws).entropy == Seq::<Odds>::empty(),
{
    let pattern = seq!['\\', c];
    assert(pattern.skip(2) =~= Seq::<char>::empty());
    assert(items_of(pattern.skip(2)) =~= Seq::<Item>::empty());
    assert(items_of(pattern) =~= seq![escaped(c)]);
    let items = seq![escaped(c)];
    assert(items.drop_last() =~= Seq::<Item>::empty());
    assert(generated(table, depth, items.drop_last(), draws.drop_last()) == Output::start());
    assert(generated(table, depth, items, draws).text =~= seq![c]);
}

/// For the same numbers drawn, a token with a capital and the token without
/// have the same odds, and their texts differ in the first char alone, which
/// the one has in upper case.
pub proof fn lemma_capital_changes_the_first_char_only(
    table: TableView,
    depth: nat,
    draws: Seq<Seq<nat>>,
)
    ensures
        generated(table, depth, seq![Item::CapitalChar], draws).entropy == generated(
            table,
            depth,
            seq![Item::Char],
            draws,
        ).entropy,
        generated(table, depth, seq![Item::CapitalChar], draws).text == capitalized(
            generated(table, depth, seq![Item::Char], draws).text,
        ),
{
    let lower = seq![Item::Char];
    let upper = seq![Item::CapitalChar];
    assert(lower.drop_last() =~= Seq::<Item>::empty());
    assert(upper.drop_last() =~= Seq::<Item>::empty());
    let start = Output::start();
    assert(generated(table, depth, lower.drop_last(), draws.drop_last()) == start);
    assert(generated(table, depth, upper.drop_last(), draws.drop_last()) == start);
    match distribution_for(table, depth, start.text) {
        Some(d) => {
            let token = d.tokens[d.pick(draws.last()[0])];
            assert(start.text + token =~= token);
            assert(start.text + capitalized(token) =~= capitalized(token));
        },
        None => {},
    }
}

/// The same anywhere in a pattern: after the same items with the same numbers
/// drawn, a token with a capital and the token without have the same odds;
/// what they add to the text differs in the first char alone.
pub proof fn lemma_capital_after(
    table: TableView,
    depth: nat,
    items: Seq<Item>,
    draws: Seq<Seq<nat>>,
)
    ensures
        generated(table, depth, items.push(Item::CapitalChar), draws).entropy == generated(
            table,
            depth,
            items.push(Item::Char),
            draws,
        ).entropy,
        generated(table, depth, items.push(Item::CapitalChar), draws).text == generated(
            table,
            depth,
            items,
            draws.drop_last(),
        ).text + capitalized(
            generated(table, depth, items.push(Item::Char), draws).text.skip(
                generated(table, depth, items, draws.drop_last()).text.len() as int,
            ),
        ),
{
    let lower = items.push(Item::Char);
    let upper = items.push(Item::CapitalChar);
    assert(lower.drop_last() =~= items);
    assert(upper.drop_last() =~= items);
    let base = generated(table, depth, items, draws.drop_last());
    match distribution_for(table, depth, base.text) {
        Some(d) => {
            let token = d.tokens[d.pick(draws.last()[0])];
            assert((base.text + token).skip(base.text.len() as int) =~= token);
        },
        None => {
            assert(base.text.skip(base.text.len() as int) =~= Seq::<char>::empty());
            assert(base.text + Seq::<char>::empty() =~= base.text);
        },
    }
}

/// A word is made of the least number of tokens whose steps of `depth` reach
/// 8: eight tokens at depth 1, four at depth 2, three at depth 3, one from
/// depth 8 on.
pub proof fn lemma_tokens_per_word(depth: nat)
    requires
        depth >= 1,
    ensures
        1 <= tokens_per_word(depth) <= 8,
        tokens_per_word(depth) * depth >= 8,
        (tokens_per_word(depth) - 1) * depth < 8,
{
    let n = tokens_per_word(depth);
    if depth == 1 {
        assert(n == 8);
    } else if depth == 2 {
        assert(n == 4);
    } else if depth == 3 {
        assert(n == 3);
    } else if depth == 4 {
        assert(n == 2);
    } else if depth == 5 {
        assert(n == 2);
    } else if depth == 6 {
        assert(n == 2);
    } else if depth == 7 {
        assert(n == 2);
    } else {
        assert(n == 1);
    }
    assert(n * depth >= 8 && (n - 1) * depth < 8) by (nonlinear_arith)
        requires
            (depth == 1 && n == 8) || (depth == 2 && n == 4) || (depth == 3 && n == 3) || (4
                <= depth < 8 && n == 2) || (depth >= 8 && n == 1),
    ;
}

/// The chain is as deep as asked for, or as deep as the longest training
/// string is long where that is less: no context and no token of a trained
/// table is longer, and some token is as long.
pub proof fn lemma_depth_reached(g: Generator, corpus: Seq<Seq<char>>, depth: nat)
    requires
        depth >= 1,
        g.wf(),
        g.table() == trained(corpus, depth),
    ensures
        within_depth(trained(corpus, depth), at_most(depth, longest(corpus))),
        g.chain_depth() == at_most(depth, longest(corpus)),
        g.chain_depth() <= depth,
{
    let trans = corpus_transitions(corpus, depth);
    let table = trained(corpus, depth);
    let width = at_most(depth, longest(corpus));
    let start = Seq::<char>::empty();
    lemma_corpus_narrow(corpus, depth);
    assert forall|c: Seq<char>| #[trigger] table.contains_key(c) implies entry_within(
        c,
        table[c],
        width,
    ) by {
        lemma_outcomes(trans, c);
        let k = choose|k: int| 0 <= k < trans.len() && (#[trigger] trans[k]).0 == c;
        assert(trans[k].0.len() <= width);
        let d = table[c];
        assert forall|i: int| 0 <= i < d.tokens.len() implies (#[trigger] d.tokens[i]).len()
            <= width by {
            let x = d.tokens[i];
            assert(outcomes(trans, c).contains(x));
            let at = choose|at: int| 0 <= at < trans.len() && #[trigger] trans[at] == (c, x);
            assert(trans[at].1.len() <= width);
        }
    }
    g.lemma_wf();
    reveal(is_max_depth);
    if g.chain_depth() > width {
        let c = choose|c: Seq<char>| #[trigger]
            table.contains_key(c) && entry_reaches(c, table[c], g.chain_depth());
        assert(entry_within(c, table[c], width));
    }
    assert(longest(corpus) > 0) by {
        lemma_outcomes(trans, start);
        let k = choose|k: int| 0 <= k < trans.len() && (#[trigger] trans[k]).0 == start;
        let x = table[start].tokens[0];
        assert(x.len() > 0) by {
            g.lemma_wf();
        }
        assert(entry_within(start, table[start], width));
    }
    lemma_corpus_reaches(corpus, depth);
    let k = choose|k: int|
        0 <= k < trans.len() && (#[trigger] trans[k]).0 == start && trans[k].1.len() == width;
    lemma_occurrence(trans, k);
    lemma_outcomes(trans, start);
    let token = trans[k].1;
    assert(outcomes(trans, start).contains(token));
    let i = outcomes(trans, start).index_of(token);
    assert(table[start].tokens[i] == token);
    assert(entry_within(start, table[start], g.chain_depth()));
}

} // verus!
