//! From a puzzle description to its best layouts: check the description,
//! derive the candidates, search.
use vstd::prelude::*;
use crate::derive::{
    cands_view, derive_candidates, derived, formed, lemma_derived_formed, max_fill,
    sizes_ok, clue_defined, CandidateModel,
};
use crate::input::{error_message, validation, InputError, PuzzleInput};
use crate::text::{chars_of, string_of};
use crate::render::{all_printable, duration_millis, elapsed_millis, printable, render_puzzles, report_text};
use crate::search::{
    anchors_fit, cand_ready, drawn_from, start_anchors, no_anchor_fits, search_best_n, slice_view, solutions_ok,
    SearchConfig, Solution,
};

verus! {

/// Why no layout was produced.
#[derive(Debug, Clone, Copy, PartialEq, Eq, Structural)]
pub enum GenerateError {
    /// The description was refused.
    Invalid(InputError),
    /// No phrase of the description can be an answer.
    NoCandidates,
    /// No candidate could start a layout.
    NoSolution,
}

impl GenerateError {
    /// The message for the error.
    pub fn message(&self) -> (r: String)
        ensures
            r@ == generate_message(*self),
    {
        match self {
            GenerateError::Invalid(e) => e.message(),
            GenerateError::NoCandidates => text_of("no viable answer candidates were derived from the input"),
            GenerateError::NoSolution => text_of("search did not produce any valid crossword candidate"),
        }
    }
}

/// The message of each error.
pub open spec fn generate_message(e: GenerateError) -> Seq<char> {
    match e {
        GenerateError::Invalid(i) => error_message(i),
        GenerateError::NoCandidates => "no viable answer candidates were derived from the input"@,
        GenerateError::NoSolution => "search did not produce any valid crossword candidate"@,
    }
}

fn text_of(s: &str) -> (r: String)
    ensures
        r@ == s@,
{
    let v = chars_of(s);
    string_of(&v)
}

/// A formed candidate is one the search can take.
proof fn lemma_formed_ready(c: CandidateModel, n: nat, max_len: nat)
    requires
        formed(c, n, max_len),
    ensures
        cand_ready(c),
        clue_defined(c),
{
}

/// Checks the description, derives its candidates and searches for the
/// best layouts (see `search_best_n`).
pub fn generate_puzzles(input: &PuzzleInput, config: &SearchConfig) -> (r: Result<Vec<Solution>, GenerateError>)
    requires
        input.width * input.height <= usize::MAX,
        sizes_ok(input@),
        config.branch_limit * 12 <= usize::MAX,
    ensures
        validation(input@) matches Err(e) ==> r == Err::<Vec<Solution>, GenerateError>(GenerateError::Invalid(e)),
        validation(input@) is Ok && derived(input@).len() == 0 ==> r == Err::<Vec<Solution>, GenerateError>(
            GenerateError::NoCandidates,
        ),
        validation(input@) is Ok && derived(input@).len() > 0 ==> (r == Err::<Vec<Solution>, GenerateError>(
            GenerateError::NoSolution,
        ) <==> start_anchors(
            derived(input@),
            config.branch_limit as int,
            config.seed,
            input.width as int,
            input.height as int,
        ).len() == 0),
        r matches Ok(v) ==> solutions_ok(
            input.width as int,
            input.height as int,
            derived(input@),
            config.branch_limit as int,
            config.top_n as int,
            config.seed,
            v@,
        ),
        r matches Err(e) && e is NoSolution ==> validation(input@) is Ok && derived(input@).len() > 0 && !(1 <= config.branch_limit && anchors_fit(derived(input@), config.branch_limit as int, input.width as int)),
        validation(input@) is Ok && derived(input@).len() > 0
            && no_anchor_fits(derived(input@), config.branch_limit as int, input.width as int) ==> r
            == Err::<Vec<Solution>, GenerateError>(GenerateError::NoSolution),
        validation(input@) is Ok && derived(input@).len() > 0
            && 1 <= config.branch_limit && anchors_fit(derived(input@), config.branch_limit as int, input.width as int)
            ==> r is Ok,
{
    match input.validate() {
        Err(e) => {
            return Err(GenerateError::Invalid(e));
        },
        Ok(()) => {},
    }
    let candidates = match derive_candidates(input) {
        Ok(v) => v,
        Err(e) => {
            return Err(GenerateError::Invalid(e));
        },
    };
    let ghost cs = cands_view(candidates@);
    if candidates.len() == 0 {
        return Err(GenerateError::NoCandidates);
    }
    let slice = candidates.as_slice();
    proof {
        lemma_derived_formed(input@);
        assert(slice_view(slice@) =~= cs);
        assert forall|i: int| 0 <= i < cs.len() implies cand_ready(#[trigger] cs[i]) by {
            assert(formed(cs[i], input@.tracks.len(), max_fill(input@)));
            lemma_formed_ready(cs[i], input@.tracks.len(), max_fill(input@));
        }
    }
    match search_best_n(input, slice, config) {
        Some(v) => Ok(v),
        None => Err(GenerateError::NoSolution),
    }
}


/// Every layout the search returns, from candidates whose clues can be
/// written, can be printed.
pub proof fn lemma_solutions_printable(
    width: int,
    height: int,
    cs: Seq<CandidateModel>,
    branch_limit: int,
    top_n: int,
    seed: u64,
    v: Seq<Solution>,
)
    requires
        solutions_ok(width, height, cs, branch_limit, top_n, seed, v),
        forall|i: int| 0 <= i < cs.len() ==> clue_defined(#[trigger] cs[i]),
    ensures
        all_printable(v),
{
    assert forall|i: int| 0 <= i < v.len() implies printable((#[trigger] v[i]).grid) by {
        let g = v[i].grid;
        assert(drawn_from(g, cs));
        assert forall|k: int| 0 <= k < g.entries_model().len() implies clue_defined(
            (#[trigger] g.entries_model()[k]).candidate,
        ) by {
            let c = g.entries_model()[k].candidate;
            assert(cs.contains(c));
            let j = choose|j: int| 0 <= j < cs.len() && cs[j] == c;
            assert(clue_defined(cs[j]));
        }
    }
}

/// The printed report of the best layouts of the puzzle, or why there is
/// none (see `generate_puzzles` and `render_puzzles`).
pub fn generate_report(input: &PuzzleInput, config: &SearchConfig) -> (r: Result<String, GenerateError>)
    requires
        input.width * input.height <= usize::MAX,
        sizes_ok(input@),
        config.branch_limit * 12 <= usize::MAX,
    ensures
        validation(input@) matches Err(e) ==> r == Err::<String, GenerateError>(GenerateError::Invalid(e)),
        validation(input@) is Ok && derived(input@).len() == 0 ==> r == Err::<String, GenerateError>(
            GenerateError::NoCandidates,
        ),
        validation(input@) is Ok && derived(input@).len() > 0 ==> (r == Err::<String, GenerateError>(
            GenerateError::NoSolution,
        ) <==> start_anchors(
            derived(input@),
            config.branch_limit as int,
            config.seed,
            input.width as int,
            input.height as int,
        ).len() == 0),
        r matches Ok(text) ==> exists|v: Seq<Solution>|
            solutions_ok(
                input.width as int,
                input.height as int,
                derived(input@),
                config.branch_limit as int,
                config.top_n as int,
                config.seed,
                v,
            ) && text@ == report_text(v, *config, elapsed_millis(v), duration_millis(config.time_limit) as nat),
        validation(input@) is Ok && derived(input@).len() > 0
            && no_anchor_fits(derived(input@), config.branch_limit as int, input.width as int) ==> r
            == Err::<String, GenerateError>(GenerateError::NoSolution),
        validation(input@) is Ok && derived(input@).len() > 0
            && 1 <= config.branch_limit && anchors_fit(derived(input@), config.branch_limit as int, input.width as int)
            ==> r is Ok,
{
    match generate_puzzles(input, config) {
        Ok(solutions) => {
            proof {
                lemma_derived_formed(input@);
                assert forall|i: int| 0 <= i < derived(input@).len() implies clue_defined(
                    #[trigger] derived(input@)[i],
                ) by {
                    assert(formed(derived(input@)[i], input@.tracks.len(), max_fill(input@)));
                    lemma_formed_ready(derived(input@)[i], input@.tracks.len(), max_fill(input@));
                }
                lemma_solutions_printable(
                    input.width as int,
                    input.height as int,
                    derived(input@),
                    config.branch_limit as int,
                    config.top_n as int,
                    config.seed,
                    solutions@,
                );
            }
            let slice = solutions.as_slice();
            assert(slice@ == solutions@);
            let text = render_puzzles(slice, config);
            Ok(text)
        },
        Err(e) => Err(e),
    }
}

} // verus!
