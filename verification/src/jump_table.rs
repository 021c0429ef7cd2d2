//! The trained model: for each context, the weighted choice among its
//! continuations, and the search for the longest context that was seen.

use crate::assoc::as_map;
use crate::assoc::distinct_keys;
use crate::assoc::lemma_entry;
use crate::assoc::lemma_with_values;
use crate::assoc::position;
use crate::assoc::with_values;
use crate::distribution::Distribution;
use crate::distribution::DistributionView;
use crate::distribution::distribution_of;
use crate::matrix::TransitionMatrix;
use crate::text::chars_of;
use crate::text::same_from;
use crate::text::slice_of;
use crate::transitions::MatrixView;
use crate::transitions::RowView;
use vstd::prelude::*;

verus! {

/// A jump table as a mapping, from context to distribution.
pub type TableView = Map<Seq<char>, DistributionView>;

/// Every distribution of the table is well formed.
pub open spec fn valid_table(table: TableView) -> bool {
    forall|c: Seq<char>| table.contains_key(c) ==> (#[trigger] table[c]).wf()
}

/// The table that a matrix of counts becomes: for each context the
/// distribution of its row.
pub open spec fn table_of(matrix: MatrixView) -> TableView {
    matrix.map_values(builder())
}

/// [`distribution_of`] as a value.
pub open spec fn builder() -> spec_fn(RowView) -> DistributionView {
    |row: RowView| distribution_of(row)
}

/// The longest suffix of `candidate` that is a context of `table`, the empty
/// one included; `None` where no suffix is.
pub open spec fn longest_match(table: TableView, candidate: Seq<char>) -> Option<Seq<char>>
    decreases candidate.len(),
{
    if table.contains_key(candidate) {
        Some(candidate)
    } else if candidate.len() == 0 {
        None
    } else {
        longest_match(table, candidate.drop_first())
    }
}

/// How many chars the search drops from the front of `candidate` before it
/// ends: one less than the number of lookups it makes.
pub open spec fn dropped(table: TableView, candidate: Seq<char>) -> nat
    decreases candidate.len(),
{
    if table.contains_key(candidate) || candidate.len() == 0 {
        0
    } else {
        1 + dropped(table, candidate.drop_first())
    }
}

/// The context and the tokens of one entry are at most `depth` long.
pub open spec fn entry_within(context: Seq<char>, d: DistributionView, depth: nat) -> bool {
    &&& context.len() <= depth
    &&& forall|i: int| 0 <= i < d.tokens.len() ==> (#[trigger] d.tokens[i]).len() <= depth
}

/// The context or some token of one entry is `depth` long.
pub open spec fn entry_reaches(context: Seq<char>, d: DistributionView, depth: nat) -> bool {
    ||| context.len() == depth
    ||| exists|i: int| 0 <= i < d.tokens.len() && (#[trigger] d.tokens[i]).len() == depth
}

/// No context and no token of the table is longer than `depth`.
pub open spec fn within_depth(table: TableView, depth: nat) -> bool {
    forall|c: Seq<char>| #[trigger] table.contains_key(c) ==> entry_within(c, table[c], depth)
}

/// Some context or some token of the table is `depth` long.
pub open spec fn reaches_depth(table: TableView, depth: nat) -> bool {
    exists|c: Seq<char>| #[trigger] table.contains_key(c) && entry_reaches(c, table[c], depth)
}

/// `depth` is the greatest length of a context or a token of the table; 0
/// for the empty table.
#[verifier::opaque]
pub open spec fn is_max_depth(table: TableView, depth: nat) -> bool {
    &&& within_depth(table, depth)
    &&& depth > 0 ==> reaches_depth(table, depth)
}

/// The search looks at no more suffixes than the candidate has, and what it
/// finds is the candidate without the chars it dropped.
pub proof fn lemma_longest_match(table: TableView, candidate: Seq<char>)
    ensures
        dropped(table, candidate) <= candidate.len(),
        forall|k: int|
            0 <= k < dropped(table, candidate) ==> !table.contains_key(
                #[trigger] candidate.skip(k),
            ),
        match longest_match(table, candidate) {
            Some(context) => {
                &&& table.contains_key(context)
                &&& context == candidate.skip(dropped(table, candidate) as int)
            },
            None => {
                &&& dropped(table, candidate) == candidate.len()
                &&& !table.contains_key(Seq::<char>::empty())
            },
        },
    decreases candidate.len(),
{
    assert(candidate.skip(0) =~= candidate);
    if table.contains_key(candidate) {
    } else if candidate.len() == 0 {
        assert(candidate =~= Seq::<char>::empty());
    } else {
        let rest = candidate.drop_first();
        lemma_longest_match(table, rest);
        let d = dropped(table, candidate);
        assert forall|k: int| 0 <= k < d implies !table.contains_key(
            #[trigger] candidate.skip(k),
        ) by {
            if k > 0 {
                assert(candidate.skip(k) =~= rest.skip(k - 1));
            }
        }
        assert(candidate.skip(d as int) =~= rest.skip(d - 1));
    }
}

/// One context with its distribution.
#[derive(Debug)]
pub struct Entry {
    context: Vec<char>,
    distribution: Distribution,
}

/// The mapping from context to distribution, fixed once it is built.
#[derive(Debug)]
pub struct JumpTable {
    entries: Vec<Entry>,
}

impl View for JumpTable {
    type V = TableView;

    closed spec fn view(&self) -> TableView {
        as_map(self.entries())
    }
}

impl JumpTable {
    /// The entries in their order, each a context with its distribution.
    pub closed spec fn entries(&self) -> Seq<(Seq<char>, DistributionView)> {
        Seq::new(
            self.entries.len() as nat,
            |i: int| (self.entries[i].context@, self.entries[i].distribution@),
        )
    }

    /// No context stands twice, and every distribution is well formed.
    pub closed spec fn wf(&self) -> bool {
        &&& distinct_keys(self.entries())
        &&& forall|i: int| 0 <= i < self.entries().len() ==> (#[trigger] self.entries()[i]).1.wf()
    }

    /// A well-formed table is valid as a mapping.
    pub proof fn lemma_valid(&self)
        requires
            self.wf(),
        ensures
            valid_table(self@),
    {
        assert forall|c: Seq<char>| self@.contains_key(c) implies (#[trigger] self@[c]).wf() by {
            lemma_entry(self.entries(), position(self.entries(), c));
        }
    }

    /// The number of contexts.
    pub fn len(&self) -> (n: usize)
        ensures
            n == self.entries().len(),
    {
        self.entries.len()
    }

    /// Entry `i`: its context and its distribution.
    pub fn entry(&self, i: usize) -> (r: (&Vec<char>, &Distribution))
        requires
            i < self.entries().len(),
        ensures
            r.0@ == self.entries()[i as int].0,
            r.1@ == self.entries()[i as int].1,
    {
        (&self.entries[i].context, &self.entries[i].distribution)
    }

    /// The distribution of the context, where the table has it.
    pub fn get(&self, context: &str) -> (r: Option<&Distribution>)
        requires
            self.wf(),
        ensures
            match r {
                Some(d) => self@.contains_key(context@) && d@ == self@[context@],
                None => !self@.contains_key(context@),
            },
    {
        let context = chars_of(context);
        assert(context@.skip(0) =~= context@);
        match self.find(&context, 0) {
            Some(i) => {
                proof {
                    lemma_entry(self.entries(), i as int);
                }
                Some(&self.entries[i].distribution)
            },
            None => None,
        }
    }

    /// The entry whose context is `text` from `start` on.
    fn find(&self, text: &Vec<char>, start: usize) -> (r: Option<usize>)
        requires
            start <= text.len(),
        ensures
            match r {
                Some(i) => {
                    &&& i < self.entries.len()
                    &&& self.entries()[i as int].0 == text@.skip(start as int)
                },
                None => !self@.contains_key(text@.skip(start as int)),
            },
    {
        let mut i: usize = 0;
        while i < self.entries.len()
            invariant
                start <= text.len(),
                i <= self.entries.len(),
                forall|j: int|
                    0 <= j < i ==> (#[trigger] self.entries()[j]).0 != text@.skip(start as int),
            decreases self.entries.len() - i,
        {
            if same_from(&self.entries[i].context, text, start) {
                return Some(i);
            }
            i += 1;
        }
        None
    }

    /// Longest match, then backoff: looks for `text` from `start` on among
    /// the contexts, drops the leftmost char while that fails, and ends at
    /// the first hit or after the empty context. Beside the distribution
    /// found it says how many chars it dropped, which is one less than the
    /// number of lookups it made.
    pub fn backoff(&self, text: &Vec<char>, start: usize) -> (r: (Option<&Distribution>, usize))
        requires
            self.wf(),
            start <= text.len(),
        ensures
            r.1 == dropped(self@, text@.skip(start as int)),
            r.1 <= text.len() - start,
            match longest_match(self@, text@.skip(start as int)) {
                Some(context) => r.0 is Some && r.0->0@ == self@[context],
                None => r.0 is None,
            },
    {
        let ghost candidate = text@.skip(start as int);
        let mut k: usize = start;
        loop
            invariant
                self.wf(),
                candidate == text@.skip(start as int),
                start <= k <= text.len(),
                longest_match(self@, candidate) == longest_match(self@, text@.skip(k as int)),
                dropped(self@, candidate) == (k - start) + dropped(self@, text@.skip(k as int)),
            decreases text.len() - k,
        {
            match self.find(text, k) {
                Some(i) => {
                    proof {
                        lemma_entry(self.entries(), i as int);
                    }
                    return (Some(&self.entries[i].distribution), k - start);
                },
                None => {},
            }
            if k == text.len() {
                return (None, k - start);
            }
            proof {
                assert(text@.skip(k as int).drop_first() =~= text@.skip(k + 1));
            }
            k += 1;
        }
    }
}

/// Builds the jump table of a matrix: for each context the distribution of
/// its row, the tokens in the order in which the outcomes first occurred.
pub fn jump_table_from_transition_matrix(transition_matrix: TransitionMatrix) -> (table:
    JumpTable)
    requires
        transition_matrix.wf(),
    ensures
        table.wf(),
        valid_table(table@),
        table@ == table_of(transition_matrix@),
        table.entries() == with_values(transition_matrix.rows(), builder()),
{
    let ghost rows = transition_matrix.rows();
    let mut table = JumpTable { entries: Vec::new() };
    let mut i: usize = 0;
    while i < transition_matrix.len()
        invariant
            i <= rows.len(),
            rows == transition_matrix.rows(),
            transition_matrix.wf(),
            table.entries.len() == i,
            forall|k: int|
                0 <= k < i ==> #[trigger] table.entries()[k] == with_values(rows, builder())[k],
            forall|k: int| 0 <= k < i ==> (#[trigger] table.entries()[k]).1.wf(),
        decreases rows.len() - i,
    {
        let (context, outcomes, counts) = transition_matrix.row(i);
        proof {
            assert(rows[i as int].1.wf());
        }
        let distribution = Distribution::build(outcomes, counts);
        let context = slice_of(context, 0, context.len());
        let ghost before = table.entries();
        let ghost entry = (context@, distribution@);
        assert(context@ =~= rows[i as int].0);
        assert(entry == with_values(rows, builder())[i as int]);
        table.entries.push(Entry { context, distribution });
        assert(table.entries() =~= before.push(entry));
        i += 1;
    }
    proof {
        assert(table.entries() =~= with_values(rows, builder()));
        lemma_with_values(rows, builder());
        table.lemma_valid();
    }
    table
}

/// The greatest of `least`, the length of the context and the lengths of
/// the tokens.
fn entry_depth(context: &Vec<char>, distribution: &Distribution, least: usize) -> (depth: usize)
    ensures
        least <= depth,
        entry_within(context@, distribution@, depth as nat),
        depth > least ==> entry_reaches(context@, distribution@, depth as nat),
{
    let mut depth: usize = least;
    if context.len() > depth {
        depth = context.len();
    }
    let mut j: usize = 0;
    while j < distribution.len()
        invariant
            j <= distribution@.tokens.len(),
            least <= depth,
            context@.len() <= depth,
            forall|k: int| 0 <= k < j ==> (#[trigger] distribution@.tokens[k]).len() <= depth,
            depth > least ==> entry_reaches(context@, distribution@, depth as nat),
        decreases distribution@.tokens.len() - j,
    {
        let token = distribution.token(j);
        if token.len() > depth {
            depth = token.len();
            assert(distribution@.tokens[j as int].len() == depth);
        }
        j += 1;
    }
    depth
}

/// The greatest length of a context or a token.
pub fn max_depth(jump_table: &JumpTable) -> (depth: usize)
    requires
        jump_table.wf(),
    ensures
        is_max_depth(jump_table@, depth as nat),
{
    let ghost entries = jump_table.entries();
    let ghost table = jump_table@;
    let mut depth: usize = 0;
    let mut i: usize = 0;
    while i < jump_table.len()
        invariant
            i <= entries.len(),
            entries == jump_table.entries(),
            distinct_keys(entries),
            table == as_map(entries),
            forall|k: int|
                0 <= k < i ==> entry_within(
                    (#[trigger] entries[k]).0,
                    entries[k].1,
                    depth as nat,
                ),
            depth > 0 ==> reaches_depth(table, depth as nat),
        decreases entries.len() - i,
    {
        let (context, distribution) = jump_table.entry(i);
        let deeper = entry_depth(context, distribution, depth);
        proof {
            lemma_entry(entries, i as int);
            if deeper > depth {
                assert(table.contains_key(context@) && entry_reaches(
                    context@,
                    table[context@],
                    deeper as nat,
                ));
            }
        }
        depth = deeper;
        i += 1;
    }
    proof {
        reveal(is_max_depth);
        assert forall|c: Seq<char>| #[trigger] table.contains_key(c) implies entry_within(
            c,
            table[c],
            depth as nat,
        ) by {
            let k = position(entries, c);
            lemma_entry(entries, k);
            assert(entry_within(entries[k].0, entries[k].1, depth as nat));
        }
    }
    depth
}

} // verus!
