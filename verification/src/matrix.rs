//! Distillation: from a corpus to the matrix that counts how often each
//! context is followed by each outcome.

use crate::assoc::as_map;
use crate::assoc::distinct_keys;
use crate::assoc::has_key;
use crate::assoc::lemma_entry;
use crate::assoc::lemma_push;
use crate::assoc::lemma_update;
use crate::text::chars_of;
use crate::text::normalize;
use crate::text::same_text;
use crate::text::slice_of;
use crate::text::texts;
use crate::transitions::MatrixView;
use crate::transitions::RowView;
use crate::transitions::Transition;
use crate::transitions::corpus_transitions;
use crate::transitions::count_in;
use crate::transitions::lemma_matrix_valid;
use crate::transitions::lemma_outcomes;
use crate::transitions::lemma_record;
use crate::transitions::lemma_row_total;
use crate::transitions::lemma_total;
use crate::transitions::matrix_of;
use crate::transitions::occurs;
use crate::transitions::proper;
use crate::transitions::row_of;
use crate::transitions::valid_matrix;
use crate::transitions::window_after;
use crate::transitions::window_before;
use crate::transitions::word_transitions;
use vstd::prelude::*;

verus! {

/// One context with the outcomes that followed it and how often each did.
#[derive(Debug)]
pub struct Row {
    context: Vec<char>,
    outcomes: Vec<Vec<char>>,
    counts: Vec<u128>,
}

impl View for Row {
    type V = RowView;

    closed spec fn view(&self) -> RowView {
        RowView::of(self.outcomes@, self.counts@)
    }
}

/// The raw counts of a corpus: for each context a row, in the order in which
/// the contexts first occur.
#[derive(Debug)]
pub struct TransitionMatrix {
    rows: Vec<Row>,
}

impl View for TransitionMatrix {
    type V = MatrixView;

    open spec fn view(&self) -> MatrixView {
        as_map(self.rows())
    }
}

/// The place of `outcome` among `outcomes`.
fn find_outcome(outcomes: &Vec<Vec<char>>, outcome: &Vec<char>) -> (r: Option<usize>)
    ensures
        match r {
            Some(j) => j < outcomes.len() && outcomes[j as int]@ == outcome@,
            None => forall|j: int| 0 <= j < outcomes.len() ==> outcomes[j]@ != outcome@,
        },
{
    let mut j: usize = 0;
    while j < outcomes.len()
        invariant
            j <= outcomes.len(),
            forall|k: int| 0 <= k < j ==> outcomes[k]@ != outcome@,
        decreases outcomes.len() - j,
    {
        if same_text(&outcomes[j], outcome) {
            return Some(j);
        }
        j += 1;
    }
    None
}

impl TransitionMatrix {
    /// The rows in their order, each a context with what the matrix holds for
    /// it.
    pub closed spec fn rows(&self) -> Seq<(Seq<char>, RowView)> {
        Seq::new(self.rows.len() as nat, |i: int| (self.rows[i].context@, self.rows[i]@))
    }

    /// No context has two rows, and every row is well formed.
    pub open spec fn wf(&self) -> bool {
        &&& distinct_keys(self.rows())
        &&& forall|i: int| 0 <= i < self.rows().len() ==> (#[trigger] self.rows()[i]).1.wf()
    }

    /// A well-formed matrix is valid as a mapping.
    pub proof fn lemma_valid(&self)
        requires
            self.wf(),
        ensures
            valid_matrix(self@),
    {
        assert forall|c: Seq<char>| self@.contains_key(c) implies (#[trigger] self@[c]).wf() by {
            let i = crate::assoc::position(self.rows(), c);
            lemma_entry(self.rows(), i);
        }
    }

    /// The number of contexts.
    pub fn len(&self) -> (n: usize)
        ensures
            n == self.rows().len(),
    {
        self.rows.len()
    }

    /// Row `i`: its context, its outcomes in the order in which they first
    /// occurred, and their counts in the same order.
    pub fn row(&self, i: usize) -> (r: (&Vec<char>, &Vec<Vec<char>>, &Vec<u128>))
        requires
            i < self.rows().len(),
        ensures
            r.0@ == self.rows()[i as int].0,
            RowView::of(r.1@, r.2@) == self.rows()[i as int].1,
    {
        (&self.rows[i].context, &self.rows[i].outcomes, &self.rows[i].counts)
    }

    /// How often the context was followed by the outcome.
    pub fn count(&self, context: &str, outcome: &str) -> (n: u128)
        requires
            self.wf(),
        ensures
            n == count_in(self@, context@, outcome@),
    {
        let context = chars_of(context);
        let outcome = chars_of(outcome);
        match self.find(&context) {
            Some(i) => {
                proof {
                    lemma_entry(self.rows(), i as int);
                }
                let ghost row = self.rows[i as int]@;
                match find_outcome(&self.rows[i].outcomes, &outcome) {
                    Some(j) => {
                        proof {
                            assert(row.outcomes[j as int] == outcome@);
                            let at = row.outcomes.index_of(outcome@);
                            assert(row.outcomes[at] == row.outcomes[j as int]);
                        }
                        self.rows[i].counts[j]
                    },
                    None => {
                        proof {
                            if row.outcomes.contains(outcome@) {
                                let at = row.outcomes.index_of(outcome@);
                                assert(self.rows[i as int].outcomes[at]@ == outcome@);
                            }
                        }
                        0
                    },
                }
            },
            None => 0,
        }
    }

    /// The row of the context.
    fn find(&self, context: &Vec<char>) -> (r: Option<usize>)
        ensures
            match r {
                Some(i) => i < self.rows.len() && self.rows()[i as int].0 == context@,
                None => !has_key(self.rows(), context@),
            },
    {
        let mut i: usize = 0;
        while i < self.rows.len()
            invariant
                i <= self.rows.len(),
                forall|k: int| 0 <= k < i ==> (#[trigger] self.rows()[k]).0 != context@,
            decreases self.rows.len() - i,
        {
            if same_text(&self.rows[i].context, context) {
                return Some(i);
            }
            i += 1;
        }
        None
    }

    /// Counts one more occurrence of `from` followed by `to`.
    fn record(&mut self, from: Vec<char>, to: Vec<char>, Ghost(trans): Ghost<Seq<Transition>>)
        requires
            old(self).wf(),
            old(self)@ == matrix_of(trans),
            proper(trans),
            trans.len() < u128::MAX,
            to@.len() > 0,
        ensures
            final(self).wf(),
            final(self)@ == matrix_of(trans.push((from@, to@))),
    {
        let ghost before = self.rows();
        let ghost more = trans.push((from@, to@));
        proof {
            lemma_record(trans, from@, to@);
            lemma_outcomes(trans, from@);
            lemma_row_total(trans, from@);
            assert(proper(more));
            lemma_matrix_valid(more);
        }
        match self.find(&from) {
            Some(i) => {
                let ghost row = self.rows[i as int]@;
                proof {
                    lemma_entry(before, i as int);
                    assert(row == row_of(trans, from@));
                }
                match find_outcome(&self.rows[i].outcomes, &to) {
                    Some(j) => {
                        proof {
                            assert(row.outcomes[j as int] == to@);
                            assert(row.outcomes.contains(to@));
                            let at = row.outcomes.index_of(to@);
                            assert(row.outcomes[at] == row.outcomes[j as int]);
                            assert(at == j);
                            lemma_total(row.counts, j as int);
                        }
                        let count = self.rows[i].counts[j];
                        self.rows[i].counts[j] = count + 1;
                        proof {
                            assert(self.rows[i as int]@.counts =~= row.bumped(to@).counts);
                            assert(self.rows[i as int]@.outcomes =~= row.bumped(to@).outcomes);
                        }
                    },
                    None => {
                        proof {
                            assert(!row.outcomes.contains(to@)) by {
                                if row.outcomes.contains(to@) {
                                    let at = row.outcomes.index_of(to@);
                                    assert(self.rows[i as int].outcomes[at]@ == to@);
                                }
                            }
                        }
                        self.rows[i].outcomes.push(to);
                        self.rows[i].counts.push(1);
                        proof {
                            assert(self.rows[i as int]@.counts =~= row.bumped(to@).counts);
                            assert(self.rows[i as int]@.outcomes =~= row.bumped(to@).outcomes);
                        }
                    },
                }
                proof {
                    assert(self.rows() =~= before.update(i as int, (from@, row.bumped(to@))));
                    lemma_update(before, i as int, row.bumped(to@));
                }
            },
            None => {
                let ghost row = row_of(trans, from@);
                proof {
                    assert(!as_map(before).contains_key(from@));
                    assert(matrix_of(trans).contains_key(from@) == occurs(trans, from@));
                    assert(!occurs(trans, from@));
                    assert(row.outcomes =~= Seq::<Seq<char>>::empty());
                    assert(row.counts =~= Seq::<nat>::empty());
                }
                let mut outcomes: Vec<Vec<char>> = Vec::new();
                outcomes.push(to);
                let mut counts: Vec<u128> = Vec::new();
                counts.push(1);
                let fresh = Row { context: from, outcomes, counts };
                proof {
                    assert(fresh@.outcomes =~= row.bumped(to@).outcomes);
                    assert(fresh@.counts =~= row.bumped(to@).counts);
                }
                self.rows.push(fresh);
                proof {
                    assert(self.rows() =~= before.push((from@, row.bumped(to@))));
                    lemma_push(before, from@, row.bumped(to@));
                }
            },
        }
        proof {
            assert forall|i: int| 0 <= i < self.rows().len() implies (
            #[trigger] self.rows()[i]).1.wf() by {
                lemma_entry(self.rows(), i);
            }
        }
    }
}

/// The transitions of the corpus fit in a count.
proof fn lemma_fits(words: int, chars: int)
    requires
        0 <= words < usize::MAX,
        0 <= chars <= usize::MAX,
    ensures
        words * usize::MAX + chars < u128::MAX,
        (words + 1) * usize::MAX == words * usize::MAX + usize::MAX,
{
    assert(words * usize::MAX + chars <= 0xffff_ffff_ffff_fffe * 0xffff_ffff_ffff_ffff
        + 0xffff_ffff_ffff_ffff) by (nonlinear_arith)
        requires
            0 <= words <= 0xffff_ffff_ffff_fffe,
            0 <= chars <= 0xffff_ffff_ffff_ffff,
            usize::MAX <= 0xffff_ffff_ffff_ffff,
    ;
    assert((words + 1) * usize::MAX == words * usize::MAX + usize::MAX) by (nonlinear_arith);
}

/// Distils a corpus: normalizes each training string and, at each place of
/// it, counts the window before the place as followed by the window from the
/// place on, both up to `depth` chars wide.
pub fn transition_matrix_from_tokens(tokens: Vec<String>, depth: usize) -> (matrix:
    TransitionMatrix)
    ensures
        matrix.wf(),
        valid_matrix(matrix@),
        matrix@ == matrix_of(corpus_transitions(texts(tokens@), depth as nat)),
{
    let mut matrix = TransitionMatrix { rows: Vec::new() };
    let ghost corpus = texts(tokens@);
    let ghost mut trans: Seq<Transition> = Seq::empty();
    let mut w: usize = 0;
    proof {
        assert(matrix.rows() =~= Seq::empty());
        assert(matrix@ =~= matrix_of(trans));
        assert(corpus.take(0) =~= Seq::empty());
    }
    while w < tokens.len()
        invariant
            w <= tokens.len(),
            corpus == texts(tokens@),
            matrix.wf(),
            matrix@ == matrix_of(trans),
            proper(trans),
            trans == corpus_transitions(corpus.take(w as int), depth as nat),
            trans.len() <= w * usize::MAX,
        decreases tokens.len() - w,
    {
        let word = normalize(tokens[w].as_str());
        let ghost base = trans;
        let mut i: usize = 0;
        while i < word.len()
            invariant
                w < tokens.len(),
                i <= word.len(),
                matrix.wf(),
                matrix@ == matrix_of(trans),
                proper(trans),
                trans == base + word_transitions(word@, depth as nat, i as int),
                base.len() <= w * usize::MAX,
                trans.len() <= w * usize::MAX + i,
            decreases word.len() - i,
        {
            let start = if i > depth {
                i - depth
            } else {
                0
            };
            let end = if depth < word.len() - i {
                i + depth
            } else {
                word.len()
            };
            let from = slice_of(&word, start, i);
            let to = slice_of(&word, i, end);
            let ghost step = (from@, to@);
            proof {
                assert(from@ == window_before(word@, i as int, depth as nat));
                assert(to@ == window_after(word@, i as int, depth as nat));
                lemma_fits(w as int, i as int);
            }
            if to.len() != 0 && !same_text(&from, &to) {
                matrix.record(from, to, Ghost(trans));
                proof {
                    assert(base + word_transitions(word@, depth as nat, i as int).push(step)
                        =~= trans.push(step));
                    trans = trans.push(step);
                }
            }
            i += 1;
        }
        proof {
            let upto = corpus.take(w + 1);
            assert(upto.drop_last() =~= corpus.take(w as int));
            assert(upto.last() == tokens@[w as int]@);
            lemma_fits(w as int, i as int);
        }
        w += 1;
    }
    proof {
        assert(corpus.take(tokens.len() as int) =~= corpus);
        matrix.lemma_valid();
    }
    matrix
}

} // verus!
