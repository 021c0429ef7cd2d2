//! What distillation records: the transitions of a corpus, and the matrix
//! that counts them.

use crate::text::normalized;
use vstd::prelude::*;

verus! {

/// One observation: this context was followed by this outcome.
pub type Transition = (Seq<char>, Seq<char>);

/// The window before place `i` of a word: up to `depth` chars, fewer near the
/// start.
pub open spec fn window_before(word: Seq<char>, i: int, depth: nat) -> Seq<char> {
    word.subrange(
        if i > depth {
            i - depth
        } else {
            0
        },
        i,
    )
}

/// The window from place `i` of a word on: up to `depth` chars, fewer near
/// the end.
pub open spec fn window_after(word: Seq<char>, i: int, depth: nat) -> Seq<char> {
    word.subrange(
        i,
        if i + depth < word.len() {
            i + depth
        } else {
            word.len() as int
        },
    )
}

/// The transitions of a word at the places below `upto`, in order: at each
/// place the window before it is followed by the window from it on, unless
/// that one is empty or the two are equal.
pub open spec fn word_transitions(word: Seq<char>, depth: nat, upto: int) -> Seq<Transition>
    decreases upto,
{
    if upto <= 0 {
        Seq::empty()
    } else {
        let before = word_transitions(word, depth, upto - 1);
        let from = window_before(word, upto - 1, depth);
        let to = window_after(word, upto - 1, depth);
        if to.len() == 0 || from == to {
            before
        } else {
            before.push((from, to))
        }
    }
}

/// The transitions of a corpus: those of each training string, normalized, in
/// the order of the corpus. A string that is empty once normalized has none.
pub open spec fn corpus_transitions(corpus: Seq<Seq<char>>, depth: nat) -> Seq<Transition>
    decreases corpus.len(),
{
    if corpus.len() == 0 {
        Seq::empty()
    } else {
        let word = normalized(corpus.last());
        corpus_transitions(corpus.drop_last(), depth) + word_transitions(
            word,
            depth,
            word.len() as int,
        )
    }
}

/// Every outcome has at least one char.
pub open spec fn proper(trans: Seq<Transition>) -> bool {
    forall|k: int| 0 <= k < trans.len() ==> (#[trigger] trans[k]).1.len() > 0
}

/// The context occurs in some transition.
pub open spec fn occurs(trans: Seq<Transition>, context: Seq<char>) -> bool {
    exists|k: int| 0 <= k < trans.len() && (#[trigger] trans[k]).0 == context
}

/// The outcomes that follow the context, each once, in the order in which
/// they first occur.
pub open spec fn outcomes(trans: Seq<Transition>, context: Seq<char>) -> Seq<Seq<char>>
    decreases trans.len(),
{
    if trans.len() == 0 {
        Seq::empty()
    } else {
        let before = outcomes(trans.drop_last(), context);
        if trans.last().0 == context && !before.contains(trans.last().1) {
            before.push(trans.last().1)
        } else {
            before
        }
    }
}

/// How often the context is followed by the outcome.
pub open spec fn occurrences(trans: Seq<Transition>, context: Seq<char>, outcome: Seq<char>)
    -> nat
    decreases trans.len(),
{
    if trans.len() == 0 {
        0
    } else {
        occurrences(trans.drop_last(), context, outcome) + if trans.last() == (context, outcome) {
            1nat
        } else {
            0nat
        }
    }
}

/// The sum of the counts.
pub open spec fn total(counts: Seq<nat>) -> nat
    decreases counts.len(),
{
    if counts.len() == 0 {
        0
    } else {
        total(counts.drop_last()) + counts.last()
    }
}

/// What the matrix holds for one context: its outcomes in the order of first
/// occurrence, and how often each occurred.
pub struct RowView {
    pub outcomes: Seq<Seq<char>>,
    pub counts: Seq<nat>,
}

impl RowView {
    /// The row that the two vectors stand for.
    pub open spec fn of(outcomes: Seq<Vec<char>>, counts: Seq<u128>) -> RowView {
        RowView {
            outcomes: outcomes.map_values(|o: Vec<char>| o@),
            counts: counts.map_values(|c: u128| c as nat),
        }
    }

    /// At least one outcome, no outcome twice, no empty outcome, and every
    /// outcome counted at least once; the counts add up without overflow.
    pub open spec fn wf(self) -> bool {
        &&& self.outcomes.len() > 0
        &&& self.counts.len() == self.outcomes.len()
        &&& self.outcomes.no_duplicates()
        &&& forall|j: int| 0 <= j < self.outcomes.len() ==> (#[trigger] self.outcomes[j]).len() > 0
        &&& forall|j: int| 0 <= j < self.counts.len() ==> #[trigger] self.counts[j] >= 1
        &&& total(self.counts) <= u128::MAX
    }

    /// The row with one more occurrence of the outcome: its count goes up by
    /// one, or it comes last with a count of one where it is new.
    pub open spec fn bumped(self, outcome: Seq<char>) -> RowView {
        if self.outcomes.contains(outcome) {
            let j = self.outcomes.index_of(outcome);
            RowView {
                outcomes: self.outcomes,
                counts: self.counts.update(j, (self.counts[j] + 1) as nat),
            }
        } else {
            RowView { outcomes: self.outcomes.push(outcome), counts: self.counts.push(1) }
        }
    }
}

/// The row of a context: empty where the context does not occur.
pub open spec fn row_of(trans: Seq<Transition>, context: Seq<char>) -> RowView {
    let outs = outcomes(trans, context);
    RowView {
        outcomes: outs,
        counts: Seq::new(outs.len(), |j: int| occurrences(trans, context, outs[j])),
    }
}

/// A transition matrix as a mapping, from context to row.
pub type MatrixView = Map<Seq<char>, RowView>;

/// The matrix of the transitions: a row for each context that occurs. Nothing
/// is smoothed: what was not seen is not there.
pub open spec fn matrix_of(trans: Seq<Transition>) -> MatrixView {
    Map::new(|c: Seq<char>| occurs(trans, c), |c: Seq<char>| row_of(trans, c))
}

/// How often the matrix has seen the context followed by the outcome: 0
/// where it has no such row or no such outcome in it.
pub open spec fn count_in(matrix: MatrixView, context: Seq<char>, outcome: Seq<char>) -> nat {
    if matrix.contains_key(context) && matrix[context].outcomes.contains(outcome) {
        matrix[context].counts[matrix[context].outcomes.index_of(outcome)]
    } else {
        0
    }
}

/// Every row of the matrix is well formed.
pub open spec fn valid_matrix(matrix: MatrixView) -> bool {
    forall|c: Seq<char>| matrix.contains_key(c) ==> (#[trigger] matrix[c]).wf()
}

/// The outcomes of a context hold no outcome twice, and hold exactly the
/// outcomes that follow the context at least once.
pub proof fn lemma_outcomes(trans: Seq<Transition>, context: Seq<char>)
    ensures
        outcomes(trans, context).no_duplicates(),
        forall|x: Seq<char>| #[trigger]
            outcomes(trans, context).contains(x) <==> occurrences(trans, context, x) > 0,
        forall|x: Seq<char>| #[trigger]
            outcomes(trans, context).contains(x) ==> exists|k: int|
                0 <= k < trans.len() && #[trigger] trans[k] == (context, x),
        occurs(trans, context) <==> outcomes(trans, context).len() > 0,
    decreases trans.len(),
{
    if trans.len() > 0 {
        let rest = trans.drop_last();
        let last = trans.last();
        lemma_outcomes(rest, context);
        let before = outcomes(rest, context);
        let now = outcomes(trans, context);
        assert forall|x: Seq<char>| #[trigger]
            now.contains(x) <==> occurrences(trans, context, x) > 0 by {
            if now.contains(x) {
                let j = choose|j: int| 0 <= j < now.len() && now[j] == x;
                if j < before.len() {
                    assert(before[j] == x);
                    assert(before.contains(x));
                }
            }
            if occurrences(trans, context, x) > 0 {
                if occurrences(rest, context, x) > 0 {
                    assert(before.contains(x));
                    let j = choose|j: int| 0 <= j < before.len() && before[j] == x;
                    assert(now[j] == x);
                } else {
                    assert(last == (context, x));
                    assert(!before.contains(x));
                    assert(now[before.len() as int] == x);
                }
            }
        }
        assert forall|x: Seq<char>| #[trigger] now.contains(x) implies exists|k: int|
            0 <= k < trans.len() && #[trigger] trans[k] == (context, x) by {
            if before.contains(x) {
                let k = choose|k: int| 0 <= k < rest.len() && #[trigger] rest[k] == (context, x);
                assert(trans[k] == (context, x));
            } else {
                let j = choose|j: int| 0 <= j < now.len() && now[j] == x;
                if j < before.len() {
                    assert(before[j] == x);
                }
                assert(trans[trans.len() - 1] == (context, x));
            }
        }
        if occurs(trans, context) {
            let k = choose|k: int| 0 <= k < trans.len() && (#[trigger] trans[k]).0 == context;
            if k < rest.len() {
                assert(rest[k].0 == context);
                assert(occurs(rest, context));
            }
        }
        if now.len() > 0 {
            if before.len() > 0 {
                let k = choose|k: int| 0 <= k < rest.len() && (#[trigger] rest[k]).0 == context;
                assert(trans[k].0 == context);
            } else {
                assert(trans[trans.len() - 1].0 == context);
            }
        }
    }
}

/// One more transition bumps the row of its context and leaves the other
/// rows as they are.
pub proof fn lemma_row_step(
    trans: Seq<Transition>,
    from: Seq<char>,
    to: Seq<char>,
    context: Seq<char>,
)
    ensures
        context == from ==> row_of(trans.push((from, to)), context) == row_of(
            trans,
            from,
        ).bumped(to),
        context != from ==> row_of(trans.push((from, to)), context) == row_of(trans, context),
{
    let more = trans.push((from, to));
    assert(more.drop_last() =~= trans);
    assert(more.last() == (from, to));
    if context != from {
        assert(row_of(more, context).counts =~= row_of(trans, context).counts);
    } else {
        lemma_outcomes(trans, from);
        let before = outcomes(trans, from);
        let row = row_of(trans, from);
        if before.contains(to) {
            let j = before.index_of(to);
            assert forall|i: int| 0 <= i < before.len() implies row_of(more, from).counts[i]
                == row.bumped(to).counts[i] by {
                if before[i] == to && i != j {
                    assert(before[i] == before[j]);
                }
            }
            assert(row_of(more, from).counts =~= row.bumped(to).counts);
        } else {
            assert(occurrences(trans, from, to) == 0);
            assert forall|i: int| 0 <= i < before.len() + 1 implies row_of(more, from).counts[i]
                == row.bumped(to).counts[i] by {
                if i < before.len() {
                    assert(before.contains(before[i]));
                }
            }
            assert(row_of(more, from).counts =~= row.bumped(to).counts);
        }
    }
}

/// Recording one more transition inserts the bumped row of its context.
pub proof fn lemma_record(trans: Seq<Transition>, from: Seq<char>, to: Seq<char>)
    ensures
        matrix_of(trans.push((from, to))) == matrix_of(trans).insert(
            from,
            row_of(trans, from).bumped(to),
        ),
{
    let more = trans.push((from, to));
    assert forall|c: Seq<char>| occurs(more, c) <==> (occurs(trans, c) || c == from) by {
        if occurs(more, c) {
            let k = choose|k: int| 0 <= k < more.len() && (#[trigger] more[k]).0 == c;
            if k < trans.len() {
                assert(trans[k].0 == c);
            }
        }
        if occurs(trans, c) {
            let k = choose|k: int| 0 <= k < trans.len() && (#[trigger] trans[k]).0 == c;
            assert(more[k].0 == c);
        }
        if c == from {
            assert(more[trans.len() as int].0 == c);
        }
    }
    assert forall|c: Seq<char>| occurs(more, c) implies row_of(more, c) == matrix_of(
        trans,
    ).insert(from, row_of(trans, from).bumped(to))[c] by {
        lemma_row_step(trans, from, to, c);
    }
    assert(matrix_of(more) =~= matrix_of(trans).insert(from, row_of(trans, from).bumped(to)));
}

/// A count is at most the sum of all, and one more of a count is one more in
/// the sum.
pub proof fn lemma_total(counts: Seq<nat>, j: int)
    requires
        0 <= j < counts.len(),
    ensures
        counts[j] <= total(counts),
        total(counts.update(j, (counts[j] + 1) as nat)) == total(counts) + 1,
        total(counts.push(1)) == total(counts) + 1,
    decreases counts.len(),
{
    assert(counts.push(1).drop_last() =~= counts);
    let changed = counts.update(j, (counts[j] + 1) as nat);
    if j < counts.len() - 1 {
        lemma_total(counts.drop_last(), j);
        assert(changed.drop_last() =~= counts.drop_last().update(j, (counts[j] + 1) as nat));
    } else {
        assert(changed.drop_last() =~= counts.drop_last());
    }
}

/// The counts of a row add up to no more than the number of transitions.
pub proof fn lemma_row_total(trans: Seq<Transition>, context: Seq<char>)
    ensures
        total(row_of(trans, context).counts) <= trans.len(),
    decreases trans.len(),
{
    if trans.len() == 0 {
        assert(row_of(trans, context).counts =~= Seq::<nat>::empty());
    } else {
        let rest = trans.drop_last();
        let last = trans.last();
        assert(rest.push((last.0, last.1)) =~= trans);
        lemma_row_total(rest, context);
        lemma_row_step(rest, last.0, last.1, context);
        let row = row_of(rest, context);
        if context == last.0 {
            if row.outcomes.contains(last.1) {
                lemma_total(row.counts, row.outcomes.index_of(last.1));
            } else {
                assert(row.counts.push(1).drop_last() =~= row.counts);
            }
        }
    }
}

/// The row of a context that occurs is well formed, where no outcome is empty
/// and the transitions are few enough to count.
pub proof fn lemma_row_valid(trans: Seq<Transition>, context: Seq<char>)
    requires
        proper(trans),
        trans.len() <= u128::MAX,
        occurs(trans, context),
    ensures
        row_of(trans, context).wf(),
{
    lemma_outcomes(trans, context);
    lemma_row_total(trans, context);
    let row = row_of(trans, context);
    assert forall|j: int| 0 <= j < row.outcomes.len() implies (#[trigger] row.outcomes[j]).len()
        > 0 && row.counts[j] >= 1 by {
        let x = row.outcomes[j];
        assert(row.outcomes.contains(x));
        let k = choose|k: int| 0 <= k < trans.len() && #[trigger] trans[k] == (context, x);
        assert(trans[k].1.len() > 0);
    }
}

/// The matrix of transitions without empty outcomes is valid.
pub proof fn lemma_matrix_valid(trans: Seq<Transition>)
    requires
        proper(trans),
        trans.len() <= u128::MAX,
    ensures
        valid_matrix(matrix_of(trans)),
{
    assert forall|c: Seq<char>| matrix_of(trans).contains_key(c) implies (#[trigger] matrix_of(
        trans,
    )[c]).wf() by {
        lemma_row_valid(trans, c);
    }
}

/// The matrix has no row exactly if there is no transition.
pub proof fn lemma_matrix_empty(trans: Seq<Transition>)
    ensures
        trans.len() == 0 <==> (forall|c: Seq<char>| !matrix_of(trans).contains_key(c)),
{
    if trans.len() > 0 {
        assert(occurs(trans, trans[0].0));
        assert(matrix_of(trans).contains_key(trans[0].0));
    }
}

/// A word that is not empty has a transition, and its first one starts from
/// the empty context: this is what lets generation begin.
pub proof fn lemma_word_bootstrap(word: Seq<char>, depth: nat, upto: int)
    requires
        depth >= 1,
        1 <= upto <= word.len(),
    ensures
        word_transitions(word, depth, upto).len() >= 1,
        word_transitions(word, depth, upto)[0].0 == Seq::<char>::empty(),
        word_transitions(word, depth, upto)[0].1 == window_after(word, 0, depth),
    decreases upto,
{
    if upto == 1 {
        assert(word_transitions(word, depth, 0) =~= Seq::<Transition>::empty());
        assert(window_before(word, 0, depth) =~= Seq::<char>::empty());
        assert(window_after(word, 0, depth).len() >= 1);
    } else {
        lemma_word_bootstrap(word, depth, upto - 1);
    }
}

/// A corpus has transitions exactly if some training string is not empty once
/// normalized, and then the empty context occurs.
pub proof fn lemma_corpus_bootstrap(corpus: Seq<Seq<char>>, depth: nat)
    requires
        depth >= 1,
    ensures
        corpus_transitions(corpus, depth).len() > 0 <==> exists|i: int|
            0 <= i < corpus.len() && normalized(#[trigger] corpus[i]).len() > 0,
        corpus_transitions(corpus, depth).len() > 0 ==> occurs(
            corpus_transitions(corpus, depth),
            Seq::<char>::empty(),
        ),
    decreases corpus.len(),
{
    if corpus.len() > 0 {
        let rest = corpus.drop_last();
        let word = normalized(corpus.last());
        let before = corpus_transitions(rest, depth);
        let here = word_transitions(word, depth, word.len() as int);
        let all = corpus_transitions(corpus, depth);
        lemma_corpus_bootstrap(rest, depth);
        if word.len() > 0 {
            lemma_word_bootstrap(word, depth, word.len() as int);
            assert(normalized(corpus[corpus.len() - 1]).len() > 0);
            assert(all[before.len() as int] == here[0]);
        }
        if before.len() > 0 {
            let i = choose|i: int| 0 <= i < rest.len() && normalized(#[trigger] rest[i]).len() > 0;
            assert(normalized(corpus[i]).len() > 0);
            let k = choose|k: int|
                0 <= k < before.len() && (#[trigger] before[k]).0 == Seq::<char>::empty();
            assert(all[k] == before[k]);
        }
        if exists|i: int| 0 <= i < corpus.len() && normalized(#[trigger] corpus[i]).len() > 0 {
            let i = choose|i: int|
                0 <= i < corpus.len() && normalized(#[trigger] corpus[i]).len() > 0;
            if i < rest.len() {
                assert(normalized(rest[i]).len() > 0);
            }
        }
    }
}

/// No transition of a word has an empty outcome.
pub proof fn lemma_word_proper(word: Seq<char>, depth: nat, upto: int)
    ensures
        proper(word_transitions(word, depth, upto)),
    decreases upto,
{
    if upto > 0 {
        lemma_word_proper(word, depth, upto - 1);
    }
}

/// No transition of a corpus has an empty outcome.
pub proof fn lemma_corpus_proper(corpus: Seq<Seq<char>>, depth: nat)
    ensures
        proper(corpus_transitions(corpus, depth)),
    decreases corpus.len(),
{
    if corpus.len() > 0 {
        let word = normalized(corpus.last());
        lemma_corpus_proper(corpus.drop_last(), depth);
        lemma_word_proper(word, depth, word.len() as int);
    }
}

/// Every training string is empty once it is normalized.
pub open spec fn barren(corpus: Seq<Seq<char>>) -> bool {
    forall|i: int| 0 <= i < corpus.len() ==> normalized(#[trigger] corpus[i]).len() == 0
}

/// Neither side of a transition is longer than `width`.
pub open spec fn narrow(trans: Seq<Transition>, width: nat) -> bool {
    forall|k: int|
        0 <= k < trans.len() ==> (#[trigger] trans[k]).0.len() <= width && trans[k].1.len()
            <= width
}

/// The length of the longest training string, once normalized.
pub open spec fn longest(corpus: Seq<Seq<char>>) -> nat
    decreases corpus.len(),
{
    if corpus.len() == 0 {
        0
    } else {
        let before = longest(corpus.drop_last());
        let here = normalized(corpus.last()).len();
        if here > before {
            here
        } else {
            before
        }
    }
}

/// The lesser of the depth and a length.
pub open spec fn at_most(depth: nat, length: nat) -> nat {
    if depth < length {
        depth
    } else {
        length
    }
}

/// The windows of a word are no wider than the depth and than the word.
pub proof fn lemma_word_narrow(word: Seq<char>, depth: nat, upto: int)
    requires
        upto <= word.len(),
    ensures
        narrow(word_transitions(word, depth, upto), at_most(depth, word.len())),
    decreases upto,
{
    if upto > 0 {
        lemma_word_narrow(word, depth, upto - 1);
    }
}

/// The windows of a corpus are no wider than the depth and than its longest
/// string.
pub proof fn lemma_corpus_narrow(corpus: Seq<Seq<char>>, depth: nat)
    ensures
        narrow(corpus_transitions(corpus, depth), at_most(depth, longest(corpus))),
    decreases corpus.len(),
{
    if corpus.len() > 0 {
        let word = normalized(corpus.last());
        lemma_corpus_narrow(corpus.drop_last(), depth);
        lemma_word_narrow(word, depth, word.len() as int);
    }
}

/// What occurs is counted.
pub proof fn lemma_occurrence(trans: Seq<Transition>, k: int)
    requires
        0 <= k < trans.len(),
    ensures
        occurrences(trans, trans[k].0, trans[k].1) > 0,
    decreases trans.len(),
{
    if k < trans.len() - 1 {
        lemma_occurrence(trans.drop_last(), k);
    }
}

/// With a depth of at least 1, some transition of a corpus that is not barren
/// leads from the empty context to an outcome as long as the depth, or as
/// long as the longest string where that is shorter.
pub proof fn lemma_corpus_reaches(corpus: Seq<Seq<char>>, depth: nat)
    requires
        depth >= 1,
        longest(corpus) > 0,
    ensures
        exists|k: int|
            0 <= k < corpus_transitions(corpus, depth).len() && (#[trigger] corpus_transitions(
                corpus,
                depth,
            )[k]).0 == Seq::<char>::empty() && corpus_transitions(corpus, depth)[k].1.len()
                == at_most(depth, longest(corpus)),
    decreases corpus.len(),
{
    let rest = corpus.drop_last();
    let word = normalized(corpus.last());
    let before = corpus_transitions(rest, depth);
    let here = word_transitions(word, depth, word.len() as int);
    let all = corpus_transitions(corpus, depth);
    if word.len() == longest(corpus) {
        lemma_word_bootstrap(word, depth, word.len() as int);
        assert(all[before.len() as int] == here[0]);
    } else {
        lemma_corpus_reaches(rest, depth);
        let k = choose|k: int|
            0 <= k < before.len() && (#[trigger] before[k]).0 == Seq::<char>::empty()
                && before[k].1.len() == at_most(depth, longest(rest));
        assert(all[k] == before[k]);
    }
}

} // verus!
