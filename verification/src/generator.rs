//! The generator: a trained jump table, the chain depth that the training
//! reached, and a random source.

use crate::assoc::lemma_entry;
use crate::distribution::lemma_pick;
use crate::engine::Output;
use crate::engine::adjoining_words;
use crate::engine::alphabet;
use crate::engine::alphabet_odds;
use crate::engine::candidate;
use crate::engine::chain_free;
use crate::engine::distribution_for;
use crate::engine::falls_on;
use crate::engine::generated;
use crate::engine::generates;
use crate::engine::symbol_at;
use crate::engine::tokens_per_word;
use crate::jump_table::JumpTable;
use crate::jump_table::TableView;
use crate::jump_table::entry_within;
use crate::jump_table::is_max_depth;
use crate::jump_table::jump_table_from_transition_matrix;
use crate::jump_table::lemma_longest_match;
use crate::jump_table::max_depth;
use crate::jump_table::table_of;
use crate::jump_table::valid_table;
use crate::laws::lemma_entropy_is_additive;
use crate::matrix::transition_matrix_from_tokens;
use crate::odds::Entropy;
use crate::odds::Odds;
use crate::odds::all_valid;
use crate::pattern::Item;
use crate::pattern::classify;
use crate::pattern::items_of;
use crate::random::draw_below;
use crate::random::fresh_rng;
use crate::text::chars_of;
use crate::text::lowered;
use crate::text::normalized;
use crate::text::slice_of;
use crate::text::string_of;
use crate::text::texts;
use crate::text::uppercase_first_letter;
use crate::transitions::barren;
use crate::transitions::corpus_transitions;
use crate::transitions::lemma_corpus_bootstrap;
use crate::transitions::lemma_matrix_empty;
use crate::transitions::matrix_of;
use rand_chacha::ChaCha8Rng;
use vstd::prelude::*;

verus! {

/// The chain depth asked for, 1 where 0 is asked for.
pub open spec fn at_least_one(depth: usize) -> nat {
    if depth == 0 {
        1
    } else {
        depth as nat
    }
}

/// The table that training on a corpus gives: the distributions of the matrix
/// of its transitions.
pub open spec fn trained(corpus: Seq<Seq<char>>, depth: nat) -> TableView {
    table_of(matrix_of(corpus_transitions(corpus, depth)))
}

/// Generates pronounceable passwords and the odds they had.
pub struct Generator {
    pub rng: ChaCha8Rng,
    depth: usize,
    jump_table: JumpTable,
}

impl Generator {
    /// The trained table, as a mapping.
    pub closed spec fn table(&self) -> TableView {
        self.jump_table@
    }

    /// The random source.
    pub closed spec fn source(&self) -> ChaCha8Rng {
        self.rng
    }

    /// The chain depth that the training reached.
    pub closed spec fn chain_depth(&self) -> nat {
        self.depth as nat
    }

    /// The table is well formed and knows the empty context, and the chain
    /// depth is the greatest length of a context or a token, at least 1.
    pub closed spec fn wf(&self) -> bool {
        &&& self.jump_table.wf()
        &&& self.jump_table@.contains_key(Seq::<char>::empty())
        &&& is_max_depth(self.jump_table@, self.depth as nat)
        &&& self.depth >= 1
    }

    /// What well-formedness means for the table and the depth.
    pub proof fn lemma_wf(&self)
        requires
            self.wf(),
        ensures
            valid_table(self.table()),
            self.table().contains_key(Seq::<char>::empty()),
            is_max_depth(self.table(), self.chain_depth()),
            self.chain_depth() >= 1,
    {
        self.jump_table.lemma_valid();
    }

    /// Trains a generator on a corpus, with the random source given. The
    /// chain is `depth` deep, 1 where `depth` is 0, and less where no
    /// training string is that long. There is no generator where the corpus
    /// has no transition: where every training string is empty once it is
    /// normalized.
    pub fn with_rng(tokens: Vec<String>, depth: usize, rng: ChaCha8Rng) -> (r: Option<Generator>)
        ensures
            r is None <==> barren(texts(tokens@)),
            match r {
                Some(g) => {
                    &&& g.wf()
                    &&& g.source() == rng
                    &&& g.table() == trained(texts(tokens@), at_least_one(depth))
                    &&& valid_table(g.table())
                    &&& is_max_depth(g.table(), g.chain_depth())
                },
                None => true,
            },
    {
        let ghost corpus = texts(tokens@);
        let ghost trans = corpus_transitions(corpus, at_least_one(depth));
        let depth = if depth == 0 {
            1
        } else {
            depth
        };
        let transition_matrix = transition_matrix_from_tokens(tokens, depth);
        proof {
            lemma_matrix_empty(trans);
            lemma_corpus_bootstrap(corpus, depth as nat);
            if !barren(corpus) {
                let i = choose|i: int|
                    !(0 <= i < corpus.len() ==> normalized(#[trigger] corpus[i]).len() == 0);
                assert(normalized(corpus[i]).len() > 0);
            }
        }
        if transition_matrix.len() == 0 {
            proof {
                if trans.len() > 0 {
                    assert(transition_matrix@.contains_key(trans[0].0));
                }
            }
            return None;
        }
        proof {
            lemma_entry(transition_matrix.rows(), 0);
            assert(trans.len() > 0);
            assert(matrix_of(trans).contains_key(Seq::<char>::empty()));
        }
        let jump_table = jump_table_from_transition_matrix(transition_matrix);
        let resolved = max_depth(&jump_table);
        proof {
            reveal(is_max_depth);
            let start = Seq::<char>::empty();
            assert(jump_table@.contains_key(start));
            jump_table.lemma_valid();
            assert(jump_table@[start].tokens[0].len() > 0);
            assert(entry_within(start, jump_table@[start], resolved as nat));
        }
        Some(Generator { rng, depth: resolved, jump_table })
    }

    /// Trains a generator on a corpus, with a random source that the
    /// operating system seeds.
    pub fn new_custom(tokens: Vec<String>, depth: usize) -> (r: Option<Generator>)
        ensures
            r is None <==> barren(texts(tokens@)),
            match r {
                Some(g) => {
                    &&& g.wf()
                    &&& g.table() == trained(texts(tokens@), at_least_one(depth))
                    &&& valid_table(g.table())
                    &&& is_max_depth(g.table(), g.chain_depth())
                },
                None => true,
            },
    {
        let rng = fresh_rng();
        Generator::with_rng(tokens, depth, rng)
    }

    /// The chain depth that the training reached: the greatest length of a
    /// context or a token of the table.
    pub fn depth(&self) -> (depth: usize)
        ensures
            depth == self.chain_depth(),
    {
        self.depth
    }

    /// The trained table.
    pub fn jump_table(&self) -> (table: &JumpTable)
        ensures
            table@ == self.table(),
            self.wf() ==> table.wf(),
    {
        &self.jump_table
    }

    /// Draws one token for the seed. Beside it, the number drawn.
    fn draw_token(&mut self, seed: &Vec<char>) -> (r: (Option<(Vec<char>, Odds)>, Ghost<nat>))
        requires
            old(self).jump_table.wf(),
        ensures
            final(self).jump_table == old(self).jump_table,
            final(self).depth == old(self).depth,
            match distribution_for(old(self).jump_table@, old(self).depth as nat, seed@) {
                Some(d) => match r.0 {
                    Some(t) => falls_on(d, r.1@, t.0@, t.1),
                    None => false,
                },
                None => r.0 is None,
            },
    {
        let lowered = lowered(seed);
        let start = if lowered.len() > self.depth {
            lowered.len() - self.depth
        } else {
            0
        };
        let (found, _) = self.jump_table.backoff(&lowered, start);
        match found {
            None => (None, Ghost(0)),
            Some(d) => {
                proof {
                    self.jump_table.lemma_valid();
                    lemma_longest_match(self.jump_table@, candidate(seed@, self.depth as nat));
                }
                let n = draw_below(&mut self.rng, d.total());
                let i = d.pick(n);
                let token = d.token(i);
                let copy = slice_of(token, 0, token.len());
                assert(copy@ =~= token@);
                (Some((copy, d.odds(i))), Ghost(n as nat))
            },
        }
    }

    /// Appends one token of the chain, seeded with the text so far.
    fn put_token(
        &mut self,
        text: &mut Vec<char>,
        terms: &mut Vec<Odds>,
        capital: bool,
    ) -> (n: Ghost<nat>)
        requires
            old(self).wf(),
            all_valid(old(terms)@),
        ensures
            final(self).wf(),
            final(self).jump_table == old(self).jump_table,
            final(self).depth == old(self).depth,
            all_valid(final(terms)@),
            Output::of(final(text)@, final(terms)@) == Output::of(old(text)@, old(terms)@).token(
                old(self).jump_table@,
                old(self).depth as nat,
                capital,
                n@,
            ),
    {
        proof {
            self.jump_table.lemma_valid();
            lemma_longest_match(self.jump_table@, candidate(text@, self.depth as nat));
        }
        let ghost d = distribution_for(self.jump_table@, self.depth as nat, text@)->0;
        let (drawn, n) = self.draw_token(text);
        let (token, odds) = drawn.unwrap();
        proof {
            lemma_pick(d, n@);
        }
        let token = if capital {
            uppercase_first_letter(&token)
        } else {
            token
        };
        let mut i: usize = 0;
        let ghost before = text@;
        while i < token.len()
            invariant
                i <= token.len(),
                text@ == before + token@.take(i as int),
            decreases token.len() - i,
        {
            text.push(token[i]);
            i += 1;
        }
        assert(token@.take(token.len() as int) =~= token@);
        terms.push(odds);
        n
    }

    /// Appends a word: as many tokens as a word takes.
    fn put_word(
        &mut self,
        text: &mut Vec<char>,
        terms: &mut Vec<Odds>,
        capital: bool,
    ) -> (draws: Ghost<Seq<nat>>)
        requires
            old(self).wf(),
            all_valid(old(terms)@),
        ensures
            final(self).wf(),
            final(self).jump_table == old(self).jump_table,
            final(self).depth == old(self).depth,
            all_valid(final(terms)@),
            draws@.len() == tokens_per_word(old(self).depth as nat),
            Output::of(final(text)@, final(terms)@) == Output::of(old(text)@, old(terms)@).word(
                old(self).jump_table@,
                old(self).depth as nat,
                capital,
                draws@,
            ),
    {
        let count: usize = if self.depth >= 8 {
            1
        } else {
            (7 + self.depth) / self.depth
        };
        let ghost begin = Output::of(text@, terms@);
        let ghost table = self.jump_table@;
        let ghost mut draws: Seq<nat> = Seq::empty();
        let mut j: usize = 0;
        while j < count
            invariant
                self.wf(),
                self.jump_table == old(self).jump_table,
                self.depth == old(self).depth,
                table == self.jump_table@,
                all_valid(terms@),
                j <= count,
                draws.len() == j,
                Output::of(text@, terms@) == begin.word(table, self.depth as nat, capital, draws),
            decreases count - j,
        {
            let n = self.put_token(text, terms, capital && j == 0);
            proof {
                assert(draws.push(n@).drop_last() =~= draws);
                draws = draws.push(n@);
            }
            j += 1;
        }
        Ghost(draws)
    }

    /// Appends a digit or a symbol, each one of its alphabet being equally
    /// likely.
    fn put_symbol(
        &mut self,
        text: &mut Vec<char>,
        terms: &mut Vec<Odds>,
        digit: bool,
    ) -> (n: Ghost<nat>)
        requires
            all_valid(old(terms)@),
        ensures
            final(self).jump_table == old(self).jump_table,
            final(self).depth == old(self).depth,
            all_valid(final(terms)@),
            Output::of(final(text)@, final(terms)@) == Output::of(old(text)@, old(terms)@).symbol(
                alphabet(digit),
                n@,
            ),
    {
        let size: u128 = if digit {
            10
        } else {
            13
        };
        let n = draw_below(&mut self.rng, size);
        text.push(symbol_at(digit, n as usize));
        terms.push(Odds { count: 1, total: size });
        Ghost(n as nat)
    }

    /// Generates a password after a pattern, with the odds of every draw
    /// that went into it.
    ///
    /// In a pattern `w` stands for a word of the chain in lower case, `W` for
    /// one with a capital, `c` for a single token, `C` for one with a
    /// capital, `d` for a digit and `s` for a symbol; a backslash makes the
    /// char after it stand for itself, as every other char does. A backslash
    /// that ends the pattern has no char to take and adds nothing. Where two
    /// words adjoin, a dot goes between them.
    pub fn gen_from_pattern(&mut self, pattern: &str) -> (r: (String, Entropy))
        requires
            old(self).wf(),
        ensures
            final(self).wf(),
            final(self).table() == old(self).table(),
            final(self).chain_depth() == old(self).chain_depth(),
            all_valid(r.1@),
            chain_free(items_of(pattern@)) ==> r.1@ == alphabet_odds(items_of(pattern@)),
            (exists|draws: Seq<Seq<nat>>|
                generates(
                    old(self).table(),
                    old(self).chain_depth(),
                    items_of(pattern@),
                    draws,
                    r.0@,
                    r.1@,
                )),
    {
        let chars = chars_of(pattern);
        let items = classify(&chars);
        let mut text: Vec<char> = Vec::new();
        let mut terms: Vec<Odds> = Vec::new();
        let mut after_word = false;
        let ghost table = self.jump_table@;
        let ghost depth = self.depth as nat;
        let ghost mut draws: Seq<Seq<nat>> = Seq::empty();
        let mut k: usize = 0;
        assert(items@.take(0) =~= Seq::<Item>::empty());
        while k < items.len()
            invariant
                self.wf(),
                self.jump_table == old(self).jump_table,
                self.depth == old(self).depth,
                table == self.jump_table@,
                depth == self.depth as nat,
                all_valid(terms@),
                k <= items.len(),
                draws.len() == k,
                after_word == (k > 0 && items@[k - 1].is_word()),
                generated(table, depth, items@.take(k as int), draws) == Output::of(text@, terms@),
            decreases items.len() - k,
        {
            let item = items[k];
            let ghost drawn: Seq<nat>;
            match item {
                Item::Word => {
                    if after_word {
                        text.push('.');
                    }
                    let d = self.put_word(&mut text, &mut terms, false);
                    proof {
                        drawn = d@;
                    }
                },
                Item::CapitalWord => {
                    if after_word {
                        text.push('.');
                    }
                    let d = self.put_word(&mut text, &mut terms, true);
                    proof {
                        drawn = d@;
                    }
                },
                Item::Char => {
                    let n = self.put_token(&mut text, &mut terms, false);
                    proof {
                        drawn = seq![n@];
                    }
                },
                Item::CapitalChar => {
                    let n = self.put_token(&mut text, &mut terms, true);
                    proof {
                        drawn = seq![n@];
                    }
                },
                Item::Digit => {
                    let n = self.put_symbol(&mut text, &mut terms, true);
                    proof {
                        drawn = seq![n@];
                    }
                },
                Item::Symbol => {
                    let n = self.put_symbol(&mut text, &mut terms, false);
                    proof {
                        drawn = seq![n@];
                    }
                },
                Item::Literal(c) => {
                    text.push(c);
                    proof {
                        drawn = Seq::empty();
                    }
                },
                Item::Escape(c) => {
                    text.push(c);
                    proof {
                        drawn = Seq::empty();
                    }
                },
            }
            proof {
                let upto = items@.take(k + 1);
                assert(upto.drop_last() =~= items@.take(k as int));
                assert(upto.last() == item);
                assert(draws.push(drawn).drop_last() =~= draws);
                assert(adjoining_words(upto) == (after_word && item.is_word()));
                draws = draws.push(drawn);
            }
            after_word = match item {
                Item::Word => true,
                Item::CapitalWord => true,
                _ => false,
            };
            k += 1;
        }
        assert(items@.take(items.len() as int) =~= items@);
        let password = string_of(&text);
        let entropy = Entropy { terms };
        let r = (password, entropy);
        proof {
            if chain_free(items@) {
                lemma_entropy_is_additive(table, depth, items@, draws);
            }
        }
        assert(generates(
            old(self).table(),
            old(self).chain_depth(),
            items_of(pattern@),
            draws,
            r.0@,
            r.1@,
        ));
        r
    }

    /// Draws the token that follows a seed, with the odds it had: looks for
    /// the last chars of the seed, in lower case and as many as the chain is
    /// deep, among the contexts, drops the leftmost while that fails, and
    /// draws from the distribution found.
    pub fn gen_next_token(&mut self, seed: &str) -> (r: Option<(String, Odds)>)
        requires
            old(self).wf(),
        ensures
            final(self).wf(),
            final(self).table() == old(self).table(),
            final(self).chain_depth() == old(self).chain_depth(),
            r is Some,
            r.unwrap().1.valid(),
            distribution_for(old(self).table(), old(self).chain_depth(), seed@) is Some,
            (exists|n: nat|
                falls_on(
                    distribution_for(old(self).table(), old(self).chain_depth(), seed@).unwrap(),
                    n,
                    r.unwrap().0@,
                    r.unwrap().1,
                )),
    {
        let chars = chars_of(seed);
        proof {
            self.jump_table.lemma_valid();
            lemma_longest_match(self.jump_table@, candidate(seed@, self.depth as nat));
        }
        let ghost d = distribution_for(self.jump_table@, self.depth as nat, seed@)->0;
        let (drawn, n) = self.draw_token(&chars);
        let (token, odds) = drawn.unwrap();
        let token = string_of(&token);
        proof {
            lemma_pick(d, n@);
        }
        let r = Some((token, odds));
        proof {
            let t = r->0;
            assert(falls_on(d, n@, t.0@, t.1));
        }
        r
    }
}

} // verus!
