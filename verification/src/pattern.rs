//! Replacing every occurrence of any pattern of a fixed set in one pass over a
//! byte sequence, under the leftmost-longest rule.
//!
//! The matching itself is done by an automaton of the `aho_corasick` crate. What
//! the automaton is taken to compute is written down here as [`replaced`]; the
//! two functions that touch the automaton are believed to meet it, and everything
//! else in this crate is proved from that.

use aho_corasick::AhoCorasick;
use aho_corasick::AhoCorasickBuilder;
use aho_corasick::MatchKind;
use vstd::prelude::*;

verus! {

/// The non-empty `pattern` stands in `input` at index `at`.
pub open spec fn occurs_at(pattern: Seq<u8>, input: Seq<u8>, at: int) -> bool {
    &&& 0 <= at
    &&& 0 < pattern.len()
    &&& at + pattern.len() <= input.len()
    &&& input.subrange(at, at + pattern.len()) =~= pattern
}

/// Pattern `k` occurs at `at`, and no pattern that occurs there is longer.
pub open spec fn longest_at(patterns: Seq<Seq<u8>>, input: Seq<u8>, at: int, k: int) -> bool {
    &&& 0 <= k < patterns.len()
    &&& occurs_at(patterns[k], input, at)
    &&& forall|j: int|
        0 <= j < patterns.len() && occurs_at(#[trigger] patterns[j], input, at)
            ==> patterns[j].len() <= patterns[k].len()
}

/// Some pattern occurs at `at`.
pub open spec fn any_occurs_at(patterns: Seq<Seq<u8>>, input: Seq<u8>, at: int) -> bool {
    exists|k: int| 0 <= k < patterns.len() && occurs_at(#[trigger] patterns[k], input, at)
}

/// A table that a [`Replacer`] can be built from: one replacement for each
/// pattern, no pattern empty, no pattern given twice.
pub open spec fn well_formed_table(patterns: Seq<Seq<u8>>, replacements: Seq<Seq<u8>>) -> bool {
    &&& patterns.len() == replacements.len()
    &&& forall|i: int| 0 <= i < patterns.len() ==> (#[trigger] patterns[i]).len() > 0
    &&& forall|i: int, j: int|
        0 <= i < j < patterns.len() ==> #[trigger] patterns[i] != #[trigger] patterns[j]
}

/// What the scan writes from index `at` of `input` on. Where a pattern occurs at
/// `at`, the longest such pattern is consumed and its replacement written;
/// where none does, the byte at `at` is copied. Either way the scan goes on
/// behind what it consumed, so matches never overlap and the leftmost one wins.
pub open spec fn replaced_from(
    patterns: Seq<Seq<u8>>,
    replacements: Seq<Seq<u8>>,
    input: Seq<u8>,
    at: int,
) -> Seq<u8>
    decreases input.len() - at,
{
    if at < 0 || at >= input.len() {
        Seq::empty()
    } else if exists|k: int| longest_at(patterns, input, at, k) {
        let k = choose|k: int| longest_at(patterns, input, at, k);
        replacements[k] + replaced_from(patterns, replacements, input, at + patterns[k].len())
    } else {
        seq![input[at]] + replaced_from(patterns, replacements, input, at + 1)
    }
}

/// The whole of `input` with every match replaced.
pub open spec fn replaced(
    patterns: Seq<Seq<u8>>,
    replacements: Seq<Seq<u8>>,
    input: Seq<u8>,
) -> Seq<u8> {
    replaced_from(patterns, replacements, input, 0)
}

/// Leftmost-longest: where pattern `k` is the longest that occurs at `at`, the
/// scan writes the replacement of `k` there, whatever shorter patterns occur at
/// the same place, and goes on behind the match.
pub proof fn lemma_longest_wins(
    patterns: Seq<Seq<u8>>,
    replacements: Seq<Seq<u8>>,
    input: Seq<u8>,
    at: int,
    k: int,
)
    requires
        well_formed_table(patterns, replacements),
        longest_at(patterns, input, at, k),
    ensures
        replaced_from(patterns, replacements, input, at) == replacements[k] + replaced_from(
            patterns,
            replacements,
            input,
            at + patterns[k].len(),
        ),
{
    let c = choose|c: int| longest_at(patterns, input, at, c);
    assert(patterns[c].len() == patterns[k].len());
    assert(patterns[c] =~= patterns[k]);
    assert(c == k);
}

/// Where no pattern occurs at `at`, the scan copies the byte there and goes on
/// with the next.
pub proof fn lemma_unmatched_is_copied(
    patterns: Seq<Seq<u8>>,
    replacements: Seq<Seq<u8>>,
    input: Seq<u8>,
    at: int,
)
    requires
        0 <= at < input.len(),
        !any_occurs_at(patterns, input, at),
    ensures
        replaced_from(patterns, replacements, input, at) == seq![input[at]] + replaced_from(
            patterns,
            replacements,
            input,
            at + 1,
        ),
{
    assert forall|k: int| !longest_at(patterns, input, at, k) by {
        if 0 <= k < patterns.len() && occurs_at(patterns[k], input, at) {
            assert(any_occurs_at(patterns, input, at));
        }
    }
}

/// An automaton of the `aho_corasick` crate, compiled by [`compile`] and so
/// always one that matches leftmost-longest. Nothing inside it is visible to the
/// verifier; [`searcher_patterns`] names what it was compiled from.
#[verifier::external_body]
pub struct Searcher {
    automaton: AhoCorasick,
}

/// The patterns that a searcher was compiled from, in the order given.
pub uninterp spec fn searcher_patterns(searcher: Searcher) -> Seq<Seq<u8>>;

/// `AhoCorasickBuilder::build`, on a builder set to a dense automaton (`dfa(true)`)
/// and to `MatchKind::LeftmostLongest`. Believed: the automaton holds exactly the
/// patterns handed in, in their order.
#[verifier::external_body]
fn compile(patterns: &Vec<Vec<u8>>) -> (searcher: Searcher)
    ensures
        searcher_patterns(searcher) == patterns.deep_view(),
{
    Searcher {
        automaton: AhoCorasickBuilder::new().dfa(true).match_kind(
            MatchKind::LeftmostLongest,
        ).build(patterns),
    }
}

/// `AhoCorasick::replace_all_bytes`. Believed: on an automaton with
/// leftmost-longest matching, whose patterns are non-empty and distinct, it
/// replaces the non-overlapping matches that a left-to-right scan finds, each by
/// the replacement at the index of its pattern, and copies every other byte;
/// that is, it returns [`replaced`]. It panics where the number of replacements
/// differs from the number of patterns, which the precondition rules out.
#[verifier::external_body]
fn replace_matches(
    searcher: &Searcher,
    input: &[u8],
    replacements: &Vec<Vec<u8>>,
) -> (output: Vec<u8>)
    requires
        well_formed_table(searcher_patterns(*searcher), replacements.deep_view()),
    ensures
        output@ == replaced(searcher_patterns(*searcher), replacements.deep_view(), input@),
{
    searcher.automaton.replace_all_bytes(input, replacements)
}

/// Whether pattern `i` differs from each pattern before it.
fn differs_from_earlier(patterns: &Vec<Vec<u8>>, i: usize) -> (ok: bool)
    requires
        i < patterns.len(),
    ensures
        ok == (forall|j: int|
            0 <= j < i ==> patterns.deep_view()[j] != patterns.deep_view()[i as int]),
{
    let mut j: usize = 0;
    while j < i
        invariant
            j <= i < patterns.len(),
            forall|h: int| 0 <= h < j ==> patterns.deep_view()[h] != patterns.deep_view()[i as int],
        decreases i - j,
    {
        if patterns[j] == patterns[i] {
            proof {
                assert(patterns.deep_view()[j as int] =~= patterns.deep_view()[i as int]);
            }
            return false;
        }
        proof {
            assert(patterns.deep_view()[j as int] == patterns@[j as int]@);
            assert(patterns.deep_view()[i as int] == patterns@[i as int]@);
        }
        j += 1;
    }
    true
}

/// Decides [`well_formed_table`].
pub fn is_well_formed_table(patterns: &Vec<Vec<u8>>, replacements: &Vec<Vec<u8>>) -> (ok: bool)
    ensures
        ok == well_formed_table(patterns.deep_view(), replacements.deep_view()),
{
    if patterns.len() != replacements.len() {
        return false;
    }
    let mut i: usize = 0;
    while i < patterns.len()
        invariant
            i <= patterns.len(),
            patterns.len() == replacements.len(),
            forall|h: int| 0 <= h < i ==> (#[trigger] patterns.deep_view()[h]).len() > 0,
            forall|g: int, h: int|
                0 <= g < h < i ==> #[trigger] patterns.deep_view()[g]
                    != #[trigger] patterns.deep_view()[h],
        decreases patterns.len() - i,
    {
        proof {
            assert(patterns.deep_view()[i as int] == patterns@[i as int]@);
        }
        if patterns[i].len() == 0 {
            return false;
        }
        if !differs_from_earlier(patterns, i) {
            return false;
        }
        i += 1;
    }
    true
}

/// A set of patterns, compiled once, with the replacement for each.
pub struct Replacer {
    searcher: Searcher,
    replacements: Vec<Vec<u8>>,
}

impl Replacer {
    #[verifier::type_invariant]
    spec fn well_formed(&self) -> bool {
        well_formed_table(searcher_patterns(self.searcher), self.replacements.deep_view())
    }

    /// The patterns, in the order they were given.
    pub closed spec fn patterns(&self) -> Seq<Seq<u8>> {
        searcher_patterns(self.searcher)
    }

    /// The replacements: the one at index `i` belongs to pattern `i`.
    pub closed spec fn replacements(&self) -> Seq<Seq<u8>> {
        self.replacements.deep_view()
    }

    /// Compiles `patterns`. `None` for a table that is not well formed, and for
    /// no other.
    pub fn new(patterns: Vec<Vec<u8>>, replacements: Vec<Vec<u8>>) -> (made: Option<Replacer>)
        ensures
            made is Some <==> well_formed_table(patterns.deep_view(), replacements.deep_view()),
            made matches Some(replacer) ==> {
                &&& replacer.patterns() == patterns.deep_view()
                &&& replacer.replacements() == replacements.deep_view()
            },
    {
        if !is_well_formed_table(&patterns, &replacements) {
            return None;
        }
        let searcher = compile(&patterns);
        Some(Replacer { searcher, replacements })
    }

    /// Replaces every match in `input`, leftmost first and the longest of those
    /// that start at one place.
    pub fn replace_all(&self, input: &[u8]) -> (output: Vec<u8>)
        ensures
            output@ == replaced(self.patterns(), self.replacements(), input@),
    {
        proof {
            use_type_invariant(self);
        }
        replace_matches(&self.searcher, input, &self.replacements)
    }
}

} // verus!
