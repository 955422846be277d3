//! Scoring grids and the depth-first search for dense layouts.
use vstd::prelude::*;
use crate::derive::{
    blank_defined, metadata_blank, CandidateAnswer, CandidateModel, SourceKind,
};
use crate::grid::{
    all_placements, built, distinct_entries, lemma_index_in_range, empty_grid, ends_clear, entry_conflict, extends, filled,
    fits, lemma_built_prepend, lemma_built_refl, lemma_built_well_laid, lemma_empty_well_laid,
    lemma_placement_same, lemma_placements_valid, lemma_step_well_laid, letters_ok, path_x, path_y,
    placed, placement, placement_listed_ok, placements_view, same_grid, sat_sub,
    side_touching, step, well_laid, Direction, EntryModel, Grid,
};
use crate::input::PuzzleInput;
use crate::order::{lemma_insert_pos_by, lemma_stable_sort_members, stable_sort};
use crate::ranking::{
    all_ranked_ok, distinct_signatures, grid_signature, grids_of, insert_top_grid,
    lemma_top_insert_distinct, lemma_top_insert_members, lemma_top_insert_ranked, ranked_desc,
    ranked_ok, top_insert, Ranked,
};
use crate::runtime::{
    clock_now, deadline_after, elapsed_since, is_index_order, out_of_time, reorder, seeded_rng, shuffle_order,
    shuffle_vec, Generator,
};
use crate::text::{byte_len, str_byte_len};
use rayon::iter::{IndexedParallelIterator, IntoParallelIterator, ParallelIterator};
use std::time::{Duration, Instant};

verus! {

/// How good a grid is; compared field by field, in this order.
#[derive(Debug, Clone, Copy, PartialEq, Eq, PartialOrd, Ord, Structural)]
pub struct Score {
    pub filled_cells: usize,
    pub crossings: usize,
    pub hub_entries: usize,
    pub title_entries: usize,
    pub snippet_entries: usize,
    pub metadata_blank_entries: usize,
    pub clue_quality: i32,
}

/// `a` is a worse score than `b` (the order `derive(Ord)` gives `Score`).
pub open spec fn score_less(a: Score, b: Score) -> bool {
    ||| a.filled_cells < b.filled_cells
    ||| a.filled_cells == b.filled_cells && a.crossings < b.crossings
    ||| a.filled_cells == b.filled_cells && a.crossings == b.crossings && a.hub_entries
        < b.hub_entries
    ||| a.filled_cells == b.filled_cells && a.crossings == b.crossings && a.hub_entries
        == b.hub_entries && a.title_entries < b.title_entries
    ||| a.filled_cells == b.filled_cells && a.crossings == b.crossings && a.hub_entries
        == b.hub_entries && a.title_entries == b.title_entries && a.snippet_entries
        < b.snippet_entries
    ||| a.filled_cells == b.filled_cells && a.crossings == b.crossings && a.hub_entries
        == b.hub_entries && a.title_entries == b.title_entries && a.snippet_entries
        == b.snippet_entries && a.metadata_blank_entries < b.metadata_blank_entries
    ||| a.filled_cells == b.filled_cells && a.crossings == b.crossings && a.hub_entries
        == b.hub_entries && a.title_entries == b.title_entries && a.snippet_entries
        == b.snippet_entries && a.metadata_blank_entries == b.metadata_blank_entries
        && a.clue_quality < b.clue_quality
}

/// `score_less` is a strict total order.
pub proof fn lemma_score_order(a: Score, b: Score, c: Score)
    ensures
        !score_less(a, a),
        score_less(a, b) ==> !score_less(b, a),
        score_less(a, b) && score_less(b, c) ==> score_less(a, c),
        !score_less(a, b) && !score_less(b, a) ==> a == b,
{
}

/// Whether score `a` is worse than score `b`, field by field.
pub fn score_is_less(a: &Score, b: &Score) -> (r: bool)
    ensures
        r == score_less(*a, *b),
{
    if a.filled_cells != b.filled_cells {
        return a.filled_cells < b.filled_cells;
    }
    if a.crossings != b.crossings {
        return a.crossings < b.crossings;
    }
    if a.hub_entries != b.hub_entries {
        return a.hub_entries < b.hub_entries;
    }
    if a.title_entries != b.title_entries {
        return a.title_entries < b.title_entries;
    }
    if a.snippet_entries != b.snippet_entries {
        return a.snippet_entries < b.snippet_entries;
    }
    if a.metadata_blank_entries != b.metadata_blank_entries {
        return a.metadata_blank_entries < b.metadata_blank_entries;
    }
    a.clue_quality < b.clue_quality
}

// ---------------------------------------------------------------------------
// Counting over entries
// ---------------------------------------------------------------------------

pub open spec fn count_kind(es: Seq<EntryModel>, k: SourceKind) -> nat
    decreases es.len(),
{
    if es.len() == 0 {
        0
    } else {
        count_kind(es.drop_last(), k) + (if es.last().candidate.source_kind == k {
            1nat
        } else {
            0nat
        })
    }
}

pub open spec fn count_hubs(es: Seq<EntryModel>) -> nat
    decreases es.len(),
{
    if es.len() == 0 {
        0
    } else {
        count_hubs(es.drop_last()) + (if es.last().crossings > 1 {
            1nat
        } else {
            0nat
        })
    }
}

pub open spec fn count_blanks(es: Seq<EntryModel>) -> nat
    decreases es.len(),
{
    if es.len() == 0 {
        0
    } else {
        count_blanks(es.drop_last()) + (if metadata_blank(es.last().candidate) {
            1nat
        } else {
            0nat
        })
    }
}

pub open spec fn count_blank_kind(es: Seq<EntryModel>, k: SourceKind) -> nat
    decreases es.len(),
{
    if es.len() == 0 {
        0
    } else {
        count_blank_kind(es.drop_last(), k) + (if metadata_blank(es.last().candidate)
            && es.last().candidate.source_kind == k {
            1nat
        } else {
            0nat
        })
    }
}

pub open spec fn sum_crossings(es: Seq<EntryModel>) -> nat
    decreases es.len(),
{
    if es.len() == 0 {
        0
    } else {
        sum_crossings(es.drop_last()) + es.last().crossings
    }
}

pub open spec fn sum_quality(es: Seq<EntryModel>) -> int
    decreases es.len(),
{
    if es.len() == 0 {
        0
    } else {
        sum_quality(es.drop_last()) + es.last().candidate.quality_score
    }
}

/// Bonus for entries that cross more than one other entry, and for every
/// crossing beyond one per such entry.
pub open spec fn hub_bonus(hubs: int, total: int) -> int {
    hubs * 60 + sat_sub(total, hubs) * 20
}

/// Penalty for lyric entries: the second and later ones cost more.
pub open spec fn snippet_layout(n: int) -> int {
    if n <= 1 {
        n * 10
    } else {
        10 + (n - 1) * 45
    }
}

/// Penalty for several fill-in-the-blank metadata entries, more when they
/// come from the same kind of source.
pub open spec fn blank_layout(es: Seq<EntryModel>) -> int {
    let b = count_blanks(es) as int;
    if b <= 1 {
        0
    } else {
        (b - 1) * 28 + (sat_sub(count_blank_kind(es, SourceKind::Title) as int, 1) + sat_sub(
            count_blank_kind(es, SourceKind::Artist) as int,
            1,
        ) + sat_sub(count_blank_kind(es, SourceKind::Album) as int, 1)) * 24
    }
}

pub open spec fn clue_quality_of(es: Seq<EntryModel>) -> int {
    sum_quality(es) + hub_bonus(count_hubs(es) as int, (sum_crossings(es) as usize) as int) - blank_layout(es)
        - snippet_layout(count_kind(es, SourceKind::Snippet) as int)
}

/// The score of a grid.
pub open spec fn grid_score(g: Grid) -> Score {
    let es = g.entries_model();
    Score {
        filled_cells: filled(g.cells_view()) as usize,
        crossings: sum_crossings(es) as usize,
        hub_entries: count_hubs(es) as usize,
        title_entries: count_kind(es, SourceKind::Title) as usize,
        snippet_entries: count_kind(es, SourceKind::Snippet) as usize,
        metadata_blank_entries: count_blanks(es) as usize,
        clue_quality: clue_quality_of(es) as i32,
    }
}

// ---------------------------------------------------------------------------
// What the scoring reads
// ---------------------------------------------------------------------------

/// A candidate whose span the fill-in-the-blank test can read: that test
/// slices the source text at the span, which must fall on char boundaries.
pub open spec fn cand_ready(c: CandidateModel) -> bool {
    blank_defined(c)
}

pub open spec fn entry_ready(e: EntryModel) -> bool {
    cand_ready(e.candidate)
}

/// A grid the scoring can read: every entry's span is readable.
pub open spec fn grid_ready(g: Grid) -> bool {
    forall|i: int| 0 <= i < g.entries_model().len() ==> entry_ready(#[trigger] g.entries_model()[i])
}

pub open spec fn track_ints(es: Seq<EntryModel>) -> Seq<int> {
    es.map_values(|e: EntryModel| e.candidate.track_index as int)
}

pub open spec fn cand_track_ints(cs: Seq<CandidateModel>) -> Seq<int> {
    cs.map_values(|c: CandidateModel| c.track_index as int)
}

/// Entries of distinct tracks, each one of the candidates `cs`, are at most
/// as many as the candidates.
pub proof fn lemma_entry_count(es: Seq<EntryModel>, cs: Seq<CandidateModel>)
    requires
        distinct_entries(es),
        forall|i: int| 0 <= i < es.len() ==> cs.contains((#[trigger] es[i]).candidate),
    ensures
        es.len() <= cs.len(),
{
    let t = track_ints(es);
    let u = cand_track_ints(cs);
    assert(t.no_duplicates()) by {
        assert forall|i: int, j: int| 0 <= i < t.len() && 0 <= j < t.len() && i != j implies t[i]
            != t[j] by {
            if i < j {
                assert(es[i].candidate.track_index != es[j].candidate.track_index);
            } else {
                assert(es[j].candidate.track_index != es[i].candidate.track_index);
            }
        }
    }
    t.unique_seq_to_set();
    u.lemma_cardinality_of_set();
    assert(t.to_set().subset_of(u.to_set())) by {
        assert forall|x: int| t.to_set().contains(x) implies u.to_set().contains(x) by {
            let i = choose|i: int| 0 <= i < t.len() && t[i] == x;
            assert(cs.contains(es[i].candidate));
            let j = choose|j: int| 0 <= j < cs.len() && cs[j] == es[i].candidate;
            assert(u[j] == x);
        }
    }
    vstd::set_lib::lemma_len_subset(t.to_set(), u.to_set());
}

// ---------------------------------------------------------------------------
// Scoring functions
// ---------------------------------------------------------------------------
//
// The scores are `i32` values. They are computed exactly, in wider integers,
// and brought to `i32` by two's-complement wrap-around (`as i32`), which is
// the value that `i32` arithmetic on the same terms gives when it wraps.

/// `x` wrapped to `i32`.
fn wrap_i32(x: i128) -> (r: i32)
    ensures
        r == x as i32,
{
    #[verifier::truncate]
    (x as i32)
}

/// Bonus for a move that crosses several entries.
pub open spec fn crossing_bonus(c: int) -> int {
    if c <= 1 {
        0
    } else {
        40 + (c - 1) * 35
    }
}

pub fn multi_crossing_move_bonus(crossings: usize) -> (r: i32)
    ensures
        r == crossing_bonus(crossings as int) as i32,
{
    if crossings <= 1 {
        return 0;
    }
    let extra = (crossings - 1) as i128;
    wrap_i32(40 + extra * 35)
}

pub fn hub_entry_bonus(hub_entries: usize, total_crossings: usize) -> (r: i32)
    ensures
        r == hub_bonus(hub_entries as int, total_crossings as int) as i32,
{
    let extra = if total_crossings >= hub_entries {
        total_crossings - hub_entries
    } else {
        0
    };
    wrap_i32((hub_entries as i128) * 60 + (extra as i128) * 20)
}

pub fn snippet_layout_penalty(snippet_entries: usize) -> (r: i32)
    ensures
        r == snippet_layout(snippet_entries as int) as i32,
{
    if snippet_entries <= 1 {
        return wrap_i32((snippet_entries as i128) * 10);
    }
    wrap_i32(10 + ((snippet_entries - 1) as i128) * 45)
}

fn entry_is_blank(e: &crate::grid::PlacedEntry) -> (r: bool)
    requires
        blank_defined(e@.candidate),
    ensures
        r == metadata_blank(e@.candidate),
{
    e.candidate.is_metadata_fill_in_blank()
}

/// Counts over the entries of a grid.
struct EntryTotals {
    pub snippets: usize,
    pub blanks: usize,
    pub hubs: usize,
    pub titles: usize,
    pub crossings: u128,
    pub quality: i128,
    pub blank_titles: usize,
    pub blank_artists: usize,
    pub blank_albums: usize,
}

fn entry_totals(g: &Grid) -> (t: EntryTotals)
    requires
        grid_ready(*g),
    ensures
        t.snippets == count_kind(g.entries_model(), SourceKind::Snippet),
        t.blanks == count_blanks(g.entries_model()),
        t.hubs == count_hubs(g.entries_model()),
        t.titles == count_kind(g.entries_model(), SourceKind::Title),
        t.crossings == sum_crossings(g.entries_model()),
        t.quality == sum_quality(g.entries_model()),
        t.blank_titles == count_blank_kind(g.entries_model(), SourceKind::Title),
        t.blank_artists == count_blank_kind(g.entries_model(), SourceKind::Artist),
        t.blank_albums == count_blank_kind(g.entries_model(), SourceKind::Album),
        t.blanks <= g.entries@.len() && t.hubs <= g.entries@.len() && t.snippets <= g.entries@.len(),
        t.blank_titles <= g.entries@.len() && t.blank_artists <= g.entries@.len() && t.blank_albums
            <= g.entries@.len(),
        t.crossings <= g.entries@.len() * 0x1_0000_0000_0000_0000,
        -0x8000_0000 * g.entries@.len() <= t.quality <= 0x8000_0000 * g.entries@.len(),
{
    let ghost es = g.entries_model();
    let mut t = EntryTotals {
        snippets: 0,
        blanks: 0,
        hubs: 0,
        titles: 0,
        crossings: 0,
        quality: 0,
        blank_titles: 0,
        blank_artists: 0,
        blank_albums: 0,
    };
    let mut i: usize = 0;
    assert(es.take(0) =~= Seq::<EntryModel>::empty());
    while i < g.entries.len()
        invariant
            i <= g.entries@.len(),
            es == g.entries_model(),
            grid_ready(*g),
            t.snippets == count_kind(es.take(i as int), SourceKind::Snippet),
            t.blanks == count_blanks(es.take(i as int)),
            t.hubs == count_hubs(es.take(i as int)),
            t.titles == count_kind(es.take(i as int), SourceKind::Title),
            t.crossings == sum_crossings(es.take(i as int)),
            t.quality == sum_quality(es.take(i as int)),
            t.blank_titles == count_blank_kind(es.take(i as int), SourceKind::Title),
            t.blank_artists == count_blank_kind(es.take(i as int), SourceKind::Artist),
            t.blank_albums == count_blank_kind(es.take(i as int), SourceKind::Album),
            t.snippets <= i && t.blanks <= i && t.hubs <= i && t.titles <= i,
            t.blank_titles <= i && t.blank_artists <= i && t.blank_albums <= i,
            t.crossings <= i * 0x1_0000_0000_0000_0000,
            -0x8000_0000 * i <= t.quality <= 0x8000_0000 * i,
        decreases g.entries.len() - i,
    {
        let e = &g.entries[i];
        assert(es[i as int] == e@);
        assert(entry_ready(es[i as int]));
        assert(es.take(i + 1).drop_last() =~= es.take(i as int));
        assert(es.take(i + 1).last() == es[i as int]);
        let blank = entry_is_blank(e);
        if e.candidate.source_kind == SourceKind::Snippet {
            t.snippets = t.snippets + 1;
        }
        if blank {
            t.blanks = t.blanks + 1;
            if e.candidate.source_kind == SourceKind::Title {
                t.blank_titles = t.blank_titles + 1;
            } else if e.candidate.source_kind == SourceKind::Artist {
                t.blank_artists = t.blank_artists + 1;
            } else if e.candidate.source_kind == SourceKind::Album {
                t.blank_albums = t.blank_albums + 1;
            }
        }
        if e.crossings > 1 {
            t.hubs = t.hubs + 1;
        }
        if e.candidate.source_kind == SourceKind::Title {
            t.titles = t.titles + 1;
        }
        t.crossings = t.crossings + e.crossings as u128;
        t.quality = t.quality + e.candidate.quality_score as i128;
        i = i + 1;
    }
    assert(es.take(i as int) =~= es);
    t
}

/// How many entries come from lyric snippets.
fn snippet_count(g: &Grid) -> (n: usize)
    ensures
        n == count_kind(g.entries_model(), SourceKind::Snippet),
        n <= g.entries@.len(),
{
    let ghost es = g.entries_model();
    let mut n: usize = 0;
    let mut i: usize = 0;
    assert(es.take(0) =~= Seq::<EntryModel>::empty());
    while i < g.entries.len()
        invariant
            i <= g.entries@.len(),
            es == g.entries_model(),
            n == count_kind(es.take(i as int), SourceKind::Snippet),
            n <= i,
        decreases g.entries.len() - i,
    {
        assert(es[i as int] == g.entries@[i as int]@);
        assert(es.take(i + 1).drop_last() =~= es.take(i as int));
        if g.entries[i].candidate.source_kind == SourceKind::Snippet {
            n = n + 1;
        }
        i = i + 1;
    }
    assert(es.take(i as int) =~= es);
    n
}

/// The layout penalty for repeated fill-in-the-blank metadata entries.
pub fn metadata_blank_layout_penalty(grid: &Grid) -> (r: i32)
    requires
        grid_ready(*grid),
    ensures
        r == blank_layout(grid.entries_model()) as i32,
{
    let t = entry_totals(grid);
    wrap_i32(blank_penalty_from(&t))
}

fn blank_penalty_from(t: &EntryTotals) -> (r: i128)
    requires
        t.blanks <= usize::MAX,
    ensures
        r == (if t.blanks <= 1 {
            0
        } else {
            (t.blanks - 1) * 28 + (sat_sub(t.blank_titles as int, 1) + sat_sub(t.blank_artists as int, 1)
                + sat_sub(t.blank_albums as int, 1)) * 24
        }),
{
    if t.blanks <= 1 {
        return 0;
    }
    let repeated_total = ((t.blanks - 1) as i128) * 28;
    let a = if t.blank_titles >= 1 { t.blank_titles - 1 } else { 0 };
    let b = if t.blank_artists >= 1 { t.blank_artists - 1 } else { 0 };
    let c = if t.blank_albums >= 1 { t.blank_albums - 1 } else { 0 };
    let repeated_same_kind = (a as i128) + (b as i128) + (c as i128);
    repeated_total + repeated_same_kind * 24
}

/// The score of a grid (see `grid_score`).
#[verifier::rlimit(40)]
pub fn score_grid(grid: &Grid) -> (s: Score)
    requires
        grid_ready(*grid),
    ensures
        s == grid_score(*grid),
{
    let t = entry_totals(grid);
    let n = grid.entries.len();
    let filled_cells = grid.filled_count();
    let crossings: usize = #[verifier::truncate] (t.crossings as usize);
    let extra: usize = if crossings >= t.hubs {
        crossings - t.hubs
    } else {
        0
    };
    let hub = (t.hubs as i128) * 60 + (extra as i128) * 20;
    let layout = blank_penalty_from(&t);
    let snip: i128 = if t.snippets <= 1 {
        (t.snippets as i128) * 10
    } else {
        10 + ((t.snippets - 1) as i128) * 45
    };
    proof {
        assert(0x8000_0000 * n <= 0x8000_0000 * 0x1_0000_0000_0000_0000) by (nonlinear_arith)
            requires
                n < 0x1_0000_0000_0000_0000,
        ;
    }
    let quality = t.quality + hub - layout - snip;
    Score {
        filled_cells,
        crossings,
        hub_entries: t.hubs,
        title_entries: t.titles,
        snippet_entries: t.snippets,
        metadata_blank_entries: t.blanks,
        clue_quality: wrap_i32(quality),
    }
}

// ---------------------------------------------------------------------------
// Weighing moves
// ---------------------------------------------------------------------------

/// Penalty for one more lyric entry.
pub open spec fn snippet_move(c: CandidateModel, es: Seq<EntryModel>) -> int {
    if c.source_kind != SourceKind::Snippet {
        0
    } else {
        35 + (count_kind(es, SourceKind::Snippet) as int) * 18
    }
}

/// Penalty for one more fill-in-the-blank metadata entry.
pub open spec fn blank_repeat(c: CandidateModel, es: Seq<EntryModel>) -> int {
    if !metadata_blank(c) {
        0
    } else {
        20 + (count_blanks(es) as int) * 16 + (count_blank_kind(es, c.source_kind) as int) * 24
    }
}

/// How attractive a move is: the candidate's score, its crossings, its
/// length, less the penalties for repeating lyric or blank entries.
pub open spec fn move_weight(c: CandidateModel, es: Seq<EntryModel>, crossings: int) -> int {
    c.quality_score + crossings * 25 + crossing_bonus(crossings) + byte_len(c.normalized) * 5
        - blank_repeat(c, es) - snippet_move(c, es)
}

pub fn snippet_move_penalty(candidate: &CandidateAnswer, grid: &Grid) -> (r: i32)
    ensures
        r == snippet_move(candidate@, grid.entries_model()) as i32,
{
    if candidate.source_kind != SourceKind::Snippet {
        return 0;
    }
    let n = snippet_count(grid);
    wrap_i32(35 + (n as i128) * 18)
}

pub fn metadata_blank_repeat_penalty(candidate: &CandidateAnswer, grid: &Grid) -> (r: i32)
    requires
        grid_ready(*grid),
        blank_defined(candidate@),
    ensures
        r == blank_repeat(candidate@, grid.entries_model()) as i32,
{
    if !candidate.is_metadata_fill_in_blank() {
        return 0;
    }
    let t = entry_totals(grid);
    let same_kind = match candidate.source_kind {
        SourceKind::Title => t.blank_titles,
        SourceKind::Artist => t.blank_artists,
        SourceKind::Album => t.blank_albums,
        _ => 0,
    };
    wrap_i32(20 + (t.blanks as i128) * 16 + (same_kind as i128) * 24)
}

/// A possible next placement: candidate position, start cell, direction,
/// weight.
pub type Move = (usize, usize, usize, Direction, i32);

pub open spec fn move_view(m: Move) -> (int, int, int, Direction, int) {
    (m.0 as int, m.1 as int, m.2 as int, m.3, m.4 as int)
}

pub open spec fn move_view_fn() -> spec_fn(Move) -> (int, int, int, Direction, int) {
    |m: Move| move_view(m)
}

pub open spec fn moves_view(v: Seq<Move>) -> Seq<(int, int, int, Direction, int)> {
    v.map_values(move_view_fn())
}

/// The moves of candidate `k`: each valid placement with its weight.
pub open spec fn candidate_moves(g: Grid, cs: Seq<CandidateModel>, k: int) -> Seq<(int, int, int, Direction, int)> {
    all_placements(g, cs[k]).map_values(
        |p: (int, int, Direction, nat)|
            (k, p.0, p.1, p.2, (move_weight(cs[k], g.entries_model(), p.3 as int) as i32) as int),
    )
}

pub open spec fn moves_from(g: Grid, cs: Seq<CandidateModel>, k: int, limit: int) -> Seq<(int, int, int, Direction, int)>
    decreases limit - k,
{
    if k < 0 || k >= limit || k >= cs.len() {
        Seq::empty()
    } else {
        candidate_moves(g, cs, k) + moves_from(g, cs, k + 1, limit)
    }
}

/// Every move of the first `12 * branch_limit` candidates.
pub open spec fn all_moves(g: Grid, cs: Seq<CandidateModel>, branch_limit: int) -> Seq<(int, int, int, Direction, int)> {
    moves_from(g, cs, 0, branch_limit * 12)
}

pub open spec fn slice_view(cs: Seq<CandidateAnswer>) -> Seq<CandidateModel> {
    cs.map_values(|c: CandidateAnswer| c@)
}

/// The first `n` candidates are ready (see `cand_ready`): the search reads
/// no others.
pub open spec fn ready_prefix(cs: Seq<CandidateModel>, n: int) -> bool {
    forall|i: int| 0 <= i < cs.len() && i < n ==> cand_ready(#[trigger] cs[i])
}

/// Move `m` places an available candidate inside the grid by the rules.
pub open spec fn move_ok(g: Grid, cs: Seq<CandidateAnswer>, m: Move) -> bool {
    &&& m.0 < cs.len()
    &&& m.1 < g.width
    &&& m.2 < g.height
    &&& byte_len(cs[m.0 as int]@.normalized) <= usize::MAX
    &&& cand_ready(cs[m.0 as int]@)
    &&& placement(g, cs[m.0 as int]@, m.1 as int, m.2 as int, m.3) is Some
}

fn enumerate_moves(grid: &Grid, candidates: &[CandidateAnswer], branch_limit: usize) -> (r: Vec<Move>)
    requires
        grid.wf(),
        grid.width > 0,
        grid.height > 0,
        grid_ready(*grid),
        ready_prefix(slice_view(candidates@), branch_limit * 12),
        branch_limit * 12 <= usize::MAX,
    ensures
        moves_view(r@) == all_moves(*grid, slice_view(candidates@), branch_limit as int),
        forall|i: int| 0 <= i < r@.len() ==> move_ok(*grid, candidates@, #[trigger] r@[i]),
{
    let ghost cs = slice_view(candidates@);
    let limit = branch_limit * 12;
    let mut moves: Vec<Move> = Vec::new();
    let ghost target = all_moves(*grid, cs, branch_limit as int);
    let mut k: usize = 0;
    let t = entry_totals(grid);
    while k < candidates.len() && k < limit
        invariant
            k <= candidates@.len(),
            cs == slice_view(candidates@),
            grid.wf(),
            grid.width > 0,
            grid.height > 0,
            grid_ready(*grid),
            ready_prefix(cs, limit as int),
            limit == branch_limit * 12,
            t.snippets == count_kind(grid.entries_model(), SourceKind::Snippet),
            t.blanks == count_blanks(grid.entries_model()),
            t.blank_titles == count_blank_kind(grid.entries_model(), SourceKind::Title),
            t.blank_artists == count_blank_kind(grid.entries_model(), SourceKind::Artist),
            t.blank_albums == count_blank_kind(grid.entries_model(), SourceKind::Album),
            moves_view(moves@) + moves_from(*grid, cs, k as int, limit as int) == target,
            forall|i: int| 0 <= i < moves@.len() ==> move_ok(*grid, candidates@, #[trigger] moves@[i]),
        decreases candidates.len() - k,
    {
        let candidate = &candidates[k];
        assert(cs[k as int] == candidate@);
        assert(cand_ready(cs[k as int]));
        let len = str_byte_len(candidate.normalized.as_str());
        let places = grid.placements_for(candidate);
        proof {
            lemma_placements_valid(*grid, candidate@);
        }
        let ghost pl = all_placements(*grid, candidate@);
        let blank_pen: i128 = if candidate.is_metadata_fill_in_blank() {
            let same_kind = match candidate.source_kind {
                SourceKind::Title => t.blank_titles,
                SourceKind::Artist => t.blank_artists,
                SourceKind::Album => t.blank_albums,
                _ => 0,
            };
            20 + (t.blanks as i128) * 16 + (same_kind as i128) * 24
        } else {
            0
        };
        let snip_pen: i128 = if candidate.source_kind == SourceKind::Snippet {
            35 + (t.snippets as i128) * 18
        } else {
            0
        };
        let ghost before = moves_view(moves@);
        let mut j: usize = 0;
        while j < places.len()
            invariant
                j <= places@.len(),
                k < candidates@.len(),
                cs == slice_view(candidates@),
                cs[k as int] == candidate@,
                cand_ready(candidate@),
                placements_view(places@) == pl,
                pl == all_placements(*grid, candidate@),
                forall|i: int| 0 <= i < pl.len() ==> placement_listed_ok(*grid, candidate@, #[trigger] pl[i]),
                blank_pen == blank_repeat(candidate@, grid.entries_model()),
                snip_pen == snippet_move(candidate@, grid.entries_model()),
                0 <= blank_pen <= 20 + usize::MAX * 40,
                0 <= snip_pen <= 35 + usize::MAX * 18,
                len == byte_len(candidate@.normalized),
                moves_view(moves@) == before + candidate_moves(*grid, cs, k as int).take(j as int),
                forall|i: int| 0 <= i < moves@.len() ==> move_ok(*grid, candidates@, #[trigger] moves@[i]),
            decreases places.len() - j,
        {
            let (x, y, direction, crossings) = places[j];
            assert(pl[j as int] == (x as int, y as int, direction, crossings as nat));
            assert(placement_listed_ok(*grid, candidate@, pl[j as int]));
            let bonus: i128 = if crossings <= 1 {
                0
            } else {
                40 + ((crossings - 1) as i128) * 35
            };
            let exact = (candidate.quality_score as i128) + (crossings as i128) * 25 + bonus + (len as i128) * 5
                - blank_pen - snip_pen;
            assert(exact == move_weight(candidate@, grid.entries_model(), crossings as int));
            let weight = wrap_i32(exact);
            let ghost mv = (k, x, y, direction, weight);
            assert(candidate_moves(*grid, cs, k as int)[j as int] == move_view(mv));
            assert(candidate_moves(*grid, cs, k as int).take(j + 1) =~= candidate_moves(*grid, cs, k as int).take(j as int).push(move_view(mv)));
            let ghost mv_before = moves_view(moves@);
            moves.push((k, x, y, direction, weight));
            assert(moves_view(moves@) =~= mv_before.push(move_view(mv)));
            assert(moves_view(moves@) =~= before + candidate_moves(*grid, cs, k as int).take(j + 1));
            assert(move_ok(*grid, candidates@, mv));
            j = j + 1;
        }
        assert(candidate_moves(*grid, cs, k as int).take(j as int) =~= candidate_moves(*grid, cs, k as int));
        assert(moves_view(moves@) + moves_from(*grid, cs, k + 1, limit as int) =~= before + (candidate_moves(*grid, cs, k as int) + moves_from(*grid, cs, k + 1, limit as int)));
        k = k + 1;
    }
    assert(moves_from(*grid, cs, k as int, limit as int) =~= Seq::<(int, int, int, Direction, int)>::empty());
    assert(moves_view(moves@) =~= target);
    moves
}

// ---------------------------------------------------------------------------
// Search state
// ---------------------------------------------------------------------------

/// Search settings: time budget, seed, how widely to branch, how many
/// layouts to keep.
#[derive(Debug)]
pub struct SearchConfig {
    pub time_limit: Duration,
    pub seed: u64,
    pub branch_limit: usize,
    pub top_n: usize,
}

/// One layout found, with its score and the statistics of the search.
#[derive(Debug)]
pub struct Solution {
    pub grid: Grid,
    pub score: Score,
    pub elapsed: Duration,
    pub explored_nodes: usize,
}

impl Clone for SearchConfig {
    fn clone(&self) -> (r: Self)
        ensures
            r == *self,
    {
        SearchConfig {
            time_limit: self.time_limit,
            seed: self.seed,
            branch_limit: self.branch_limit,
            top_n: self.top_n,
        }
    }
}

impl Clone for Solution {
    fn clone(&self) -> (r: Self)
        ensures
            r.grid.width == self.grid.width,
            r.grid.height == self.grid.height,
            r.grid.cells@ == self.grid.cells@,
            r.grid.entries@ == self.grid.entries@,
            r.score == self.score,
            r.elapsed == self.elapsed,
            r.explored_nodes == self.explored_nodes,
    {
        Solution {
            grid: self.grid.clone(),
            score: self.score,
            elapsed: self.elapsed,
            explored_nodes: self.explored_nodes,
        }
    }
}

struct SearchContext<'a> {
    candidates: &'a [CandidateAnswer],
    branch_limit: usize,
    top_n: usize,
}

/// A grid the search may hold: a well-laid layout (see `well_laid`) whose
/// entries the scoring can read.
pub open spec fn layout_ok(g: Grid) -> bool {
    &&& well_laid(g)
    &&& g.width > 0
    &&& g.height > 0
    &&& grid_ready(g)
}

/// Every entry of `g` places one of the candidates `cs`.
pub open spec fn drawn_from(g: Grid, cs: Seq<CandidateModel>) -> bool {
    forall|i: int| 0 <= i < g.entries_model().len() ==> cs.contains((#[trigger] g.entries_model()[i]).candidate)
}

spec fn ctx_ok(ctx: &SearchContext) -> bool {
    &&& ready_prefix(slice_view(ctx.candidates@), ctx.branch_limit * 12)
    &&& 1 <= ctx.branch_limit
    &&& ctx.branch_limit * 12 <= usize::MAX
    &&& 1 <= ctx.top_n
}

/// What the search keeps from a start grid: one to `top_n` grids (see
/// `kept_ok`).
pub open spec fn results_ok(start: Grid, top_n: int, v: Seq<Ranked>, cs: Seq<CandidateModel>) -> bool {
    &&& 1 <= v.len()
    &&& kept_ok(start, top_n, v, cs)
}

/// A top list of at most `top_n` grids, best first, with distinct
/// signatures, each a valid layout built from `start` by placing
/// candidates of `cs`.
pub open spec fn kept_ok(start: Grid, top_n: int, v: Seq<Ranked>, cs: Seq<CandidateModel>) -> bool {
    &&& v.len() <= top_n
    &&& all_ranked_ok(v)
    &&& ranked_desc(grids_of(v))
    &&& distinct_signatures(grids_of(v))
    &&& forall|i: int|
        0 <= i < v.len() ==> layout_ok((#[trigger] v[i]).grid) && drawn_from(v[i].grid, cs) && built(
            start,
            v[i].grid,
            cs,
        )
}

/// Placing a ready candidate of `cs` on a well-laid, readable grid drawn
/// from `cs` gives a valid layout drawn from `cs`, one entry longer.
pub proof fn lemma_step_ready(g: Grid, g2: Grid, c: CandidateModel, x: int, y: int, d: Direction, cs: Seq<CandidateModel>)
    requires
        well_laid(g),
        grid_ready(g),
        drawn_from(g, cs),
        cs.contains(c),
        cand_ready(c),
        step(g, g2, c, x, y, d),
    ensures
        layout_ok(g2),
        drawn_from(g2, cs),
        extends(g, g2),
        g2.entries_model().len() == g.entries_model().len() + 1,
{
    lemma_step_well_laid(g, g2, c, x, y, d);
    let k = placement(g, c, x, y, d)->0;
    let es = g.entries_model();
    let ne = EntryModel { candidate: c, x: x as nat, y: y as nat, direction: d, crossings: k };
    let es2 = g2.entries_model();
    assert(es2 == es.push(ne));
    assert forall|i: int| 0 <= i < es2.len() implies entry_ready(#[trigger] es2[i]) && cs.contains(
        es2[i].candidate,
    ) by {
        if i < es.len() {
            assert(es2[i] == es[i]);
        }
    }
}

fn rank(grid: Grid) -> (r: Ranked)
    requires
        grid_ready(grid),
    ensures
        ranked_ok(r),
        r.grid == grid,
{
    let score = score_grid(&grid);
    let signature = grid_signature(&grid);
    Ranked { grid, score, signature }
}

/// The top list after offering each grid of `s`, in turn, to `best`.
pub open spec fn fold_in(best: Seq<Grid>, s: Seq<Grid>, limit: int) -> Seq<Grid>
    decreases s.len(),
{
    if s.len() == 0 {
        best
    } else {
        top_insert(fold_in(best, s.drop_last(), limit), s.last(), limit)
    }
}

/// The top list after offering each list of `subs`, in turn, to `best`.
pub open spec fn fold_subs(best: Seq<Grid>, subs: Seq<Seq<Grid>>, limit: int) -> Seq<Grid>
    decreases subs.len(),
{
    if subs.len() == 0 {
        best
    } else {
        fold_in(fold_subs(best, subs.drop_last(), limit), subs.last(), limit)
    }
}

/// Offers every grid of `results` (each built from `start`), in order, to
/// the top list.
fn absorb(
    best: &mut Vec<Ranked>,
    results: Vec<Ranked>,
    Ghost(start): Ghost<Grid>,
    limit: usize,
    Ghost(cs): Ghost<Seq<CandidateModel>>,
)
    requires
        1 <= limit,
        kept_ok(start, limit as int, old(best)@, cs),
        forall|i: int|
            0 <= i < results@.len() ==> ranked_ok(#[trigger] results@[i]) && layout_ok(results@[i].grid)
                && drawn_from(results@[i].grid, cs) && built(start, results@[i].grid, cs),
    ensures
        kept_ok(start, limit as int, final(best)@, cs),
        grids_of(final(best)@) == fold_in(grids_of(old(best)@), grids_of(results@), limit as int),
        old(best)@.len() >= 1 || results@.len() >= 1 ==> final(best)@.len() >= 1,
        forall|i: int|
            0 <= i < final(best)@.len() ==> grids_of(old(best)@).contains((#[trigger] final(best)@[i]).grid)
                || grids_of(results@).contains(final(best)@[i].grid),
{
    let ghost orig = results@;
    let ghost first = best@;
    let ghost og = grids_of(orig);
    assert forall|i: int| 0 <= i < best@.len() implies grids_of(first).contains((#[trigger] best@[i]).grid) by {
        assert(grids_of(first)[i] == best@[i].grid);
    }
    assert(og.take(0) =~= Seq::<Grid>::empty());
    let mut rest = results;
    let ghost mut t: int = 0;
    while rest.len() > 0
        invariant
            0 <= t <= orig.len(),
            rest@ == orig.skip(t),
            og == grids_of(orig),
            1 <= limit,
            kept_ok(start, limit as int, best@, cs),
            grids_of(best@) == fold_in(grids_of(first), og.take(t), limit as int),
            first.len() >= 1 || t >= 1 ==> best@.len() >= 1,
            forall|i: int|
                0 <= i < orig.len() ==> ranked_ok(#[trigger] orig[i]) && layout_ok(orig[i].grid) && drawn_from(
                    orig[i].grid,
                    cs,
                ) && built(start, orig[i].grid, cs),
            forall|i: int|
                0 <= i < best@.len() ==> grids_of(first).contains((#[trigger] best@[i]).grid)
                    || grids_of(orig).contains(best@[i].grid),
        decreases rest.len(),
    {
        let item = rest.remove(0);
        let ghost before = best@;
        let ghost g = item.grid;
        proof {
            assert(item == orig[t]);
            assert(orig.skip(t).drop_first() =~= orig.skip(t + 1));
            lemma_top_insert_ranked(grids_of(before), g, limit as int);
            lemma_top_insert_distinct(grids_of(before), g, limit as int);
            lemma_top_insert_members(grids_of(before), g, limit as int);
            assert(og[t] == g);
            assert(og.take(t + 1).drop_last() =~= og.take(t));
            assert(og.take(t + 1).last() == g);
        }
        insert_top_grid(best, item, limit);
        proof {
            assert forall|i: int| 0 <= i < best@.len() implies layout_ok((#[trigger] best@[i]).grid) && drawn_from(
                best@[i].grid,
                cs,
            ) && built(start, best@[i].grid, cs) && (grids_of(first).contains(best@[i].grid) || grids_of(
                orig,
            ).contains(best@[i].grid)) by {
                assert(grids_of(best@)[i] == best@[i].grid);
                if best@[i].grid != g {
                    assert(grids_of(before).contains(best@[i].grid));
                    let j = choose|j: int| 0 <= j < grids_of(before).len() && grids_of(before)[j] == best@[i].grid;
                    assert(before[j].grid == best@[i].grid);
                }
            }
            t = t + 1;
        }
    }
    assert(og.take(t) =~= og);
}

// ---------------------------------------------------------------------------
// Depth-first search
// ---------------------------------------------------------------------------

/// How many moves to try at a depth: all allowed at the top, about half
/// one level down, six below.
pub open spec fn branch_cap(depth: int, branch_limit: int) -> int {
    if depth <= 1 {
        branch_limit
    } else if depth == 2 {
        branch_limit / 2 + 1
    } else {
        6
    }
}

pub fn branching_cap(depth: usize, branch_limit: usize) -> (r: usize)
    ensures
        r == branch_cap(depth as int, branch_limit as int),
{
    if depth <= 1 {
        branch_limit
    } else if depth == 2 {
        branch_limit / 2 + 1
    } else {
        6
    }
}

/// Heavier moves first; moves of equal weight keep their order.
pub open spec fn weight_order() -> spec_fn(Move, Move) -> bool {
    |a: Move, b: Move| a.4 > b.4
}

/// Sorts moves by weight, heaviest first, keeping the order of equal ones.
pub fn order_moves(moves: &Vec<Move>) -> (r: Vec<Move>)
    ensures
        r@ == stable_sort(moves@, weight_order()),
{
    let mut sorted: Vec<Move> = Vec::new();
    let mut i: usize = 0;
    assert(moves@.take(0) =~= Seq::<Move>::empty());
    while i < moves.len()
        invariant
            i <= moves.len(),
            sorted@ == stable_sort(moves@.take(i as int), weight_order()),
        decreases moves.len() - i,
    {
        let x = moves[i];
        let mut p: usize = 0;
        let mut found = false;
        while p < sorted.len() && !found
            invariant
                p <= sorted.len(),
                found ==> p < sorted.len() && (weight_order())(x, sorted@[p as int]),
                forall|q: int| 0 <= q < p ==> !(weight_order())(x, #[trigger] sorted@[q]),
            decreases (sorted.len() - p) as int + (if found { 0int } else { 1int }),
        {
            if x.4 > sorted[p].4 {
                found = true;
            } else {
                p = p + 1;
            }
        }
        proof {
            lemma_insert_pos_by(sorted@, x, weight_order(), p as int);
            assert(moves@.take(i + 1).drop_last() =~= moves@.take(i as int));
            assert(moves@.take(i + 1).last() == x);
        }
        sorted.insert(p, x);
        i = i + 1;
    }
    assert(moves@.take(moves.len() as int) =~= moves@);
    sorted
}

/// The moves tried from a grid at `depth`, given its moves shuffled as
/// `perm`: ordered by weight, heaviest first (equal weights keep the
/// shuffled order), and at most `branch_cap` of them.
pub open spec fn tried_moves(perm: Seq<Move>, depth: int, branch_limit: int) -> Seq<Move> {
    let s = stable_sort(perm, weight_order());
    if s.len() <= branch_cap(depth, branch_limit) {
        s
    } else {
        s.take(branch_cap(depth, branch_limit))
    }
}

/// `next` is `g` after move `m` (of candidate `cs[m.0]`).
pub open spec fn move_next(g: Grid, cs: Seq<CandidateModel>, m: Move, next: Grid) -> bool {
    step(g, next, cs[m.0 as int], m.1 as int, m.2 as int, m.3)
}

// ---------------------------------------------------------------------------
// Time checks
// ---------------------------------------------------------------------------

/// What ends the search. `Clock(d)`: each time check reads the clock
/// against the deadline `d` (none: never). `Checks(k)`: the first `k` time
/// checks answer "not yet" and every later one "time is up" (none: never).
#[derive(Debug, Clone, Copy)]
pub enum Timer {
    Clock(Option<Instant>),
    Checks(Option<usize>),
}

/// The time checks a timer still answers "not yet", where that is known
/// without the clock: `Some(None)` for never stopping, `Some(Some(k))` for
/// `k` more checks; `None` when the clock decides.
pub open spec fn known_budget(t: Timer) -> Option<Option<nat>> {
    match t {
        Timer::Clock(d) => if d is None {
            Some(None)
        } else {
            None
        },
        Timer::Checks(c) => match c {
            Some(k) => Some(Some(k as nat)),
            None => Some(None),
        },
    }
}

/// A time check with budget `b` answers "time is up".
pub open spec fn up(b: Option<nat>) -> bool {
    b == Some(0nat)
}

/// The budget after a time check that answered "not yet" (or after one
/// that answered "time is up", which leaves it at zero).
pub open spec fn tick(b: Option<nat>) -> Option<nat> {
    match b {
        Some(k) => if k > 0 {
            Some((k - 1) as nat)
        } else {
            b
        },
        None => None,
    }
}

/// One time check: whether the search must stop now.
pub fn time_up(timer: &mut Timer) -> (r: bool)
    ensures
        known_budget(*old(timer)) is Some ==> known_budget(*final(timer)) is Some && r == up(
            known_budget(*old(timer))->0,
        ) && known_budget(*final(timer))->0 == tick(known_budget(*old(timer))->0),
        (*old(timer)) is Clock ==> *final(timer) == *old(timer),
{
    match *timer {
        Timer::Clock(d) => out_of_time(&d),
        Timer::Checks(c) => match c {
            None => false,
            Some(k) => {
                if k == 0 {
                    true
                } else {
                    *timer = Timer::Checks(Some(k - 1));
                    false
                }
            },
        },
    }
}

/// The moves from `g` in the order a shuffle drawn from a generator with
/// seed `seed` and history `h` gives them.
pub open spec fn shuffled_moves(
    g: Grid,
    cs: Seq<CandidateModel>,
    branch_limit: int,
    seed: u64,
    h: Seq<nat>,
) -> Seq<(int, int, int, Direction, int)> {
    let all = all_moves(g, cs, branch_limit);
    reorder(all, shuffle_order(seed, h, all.len()))
}

/// The entries placed over a run of tried moves: each move's own, and
/// those `ks[i]` placed by the search after it.
pub open spec fn node_total(ks: Seq<nat>) -> nat
    decreases ks.len(),
{
    if ks.len() == 0 {
        0
    } else {
        node_total(ks.drop_last()) + 1 + ks.last()
    }
}

/// `x`, or `usize::MAX` where it is larger: what adding to a `usize`
/// counter with `saturating_add` gives.
pub open spec fn sat(x: int) -> int {
    if x > usize::MAX {
        usize::MAX as int
    } else {
        x
    }
}

/// Saturating twice is saturating once.
pub proof fn lemma_sat_add(x: int, y: int)
    requires
        0 <= x,
        0 <= y,
    ensures
        sat(sat(x) + y) == sat(x + y),
        sat(sat(x) + sat(y)) == sat(x + y),
{
}

/// The search from `g` places some number of entries `k` (see
/// `search_from`), and a counter at `before` ends at `after`, `k` more,
/// saturating.
pub open spec fn from_counted(
    g: Grid,
    cs: Seq<CandidateModel>,
    branch_limit: int,
    top_n: int,
    depth: int,
    seed: u64,
    h: Seq<nat>,
    b: Option<nat>,
    r: Seq<Grid>,
    b2: Option<nat>,
    h2: Seq<nat>,
    n: nat,
    before: int,
    after: int,
) -> bool {
    exists|k: nat|
        #![trigger search_from(g, cs, branch_limit, top_n, depth, seed, h, b, r, b2, h2, k, n)]
        search_from(g, cs, branch_limit, top_n, depth, seed, h, b, r, b2, h2, k, n) && after == sat(before + k)
}

/// As `from_counted`, for `search_with`.
pub open spec fn with_counted(
    g: Grid,
    cs: Seq<CandidateModel>,
    branch_limit: int,
    top_n: int,
    depth: int,
    perm: Seq<Move>,
    seed: u64,
    h: Seq<nat>,
    b: Option<nat>,
    r: Seq<Grid>,
    b2: Option<nat>,
    h2: Seq<nat>,
    n: nat,
    before: int,
    after: int,
) -> bool {
    exists|k: nat|
        #![trigger search_with(g, cs, branch_limit, top_n, depth, perm, seed, h, b, r, b2, h2, k, n)]
        search_with(g, cs, branch_limit, top_n, depth, perm, seed, h, b, r, b2, h2, k, n) && after == sat(
            before + k,
        )
}

/// The search from `g` at `depth`, with the generator at seed `seed` and
/// history `h`, where the time checks answer "not yet" `b` more times
/// (none: always): returns the grids `r`, leaves the budget `b2` and the
/// history `h2`, and places `nodes` entries along the way. If the first check says "time is up", `r` is `g`
/// alone; otherwise the moves from `g` are shuffled (`shuffled_moves`) and
/// explored as `search_with` says. (`n` counts the entries that can still
/// be added.)
pub open spec fn search_from(
    g: Grid,
    cs: Seq<CandidateModel>,
    branch_limit: int,
    top_n: int,
    depth: int,
    seed: u64,
    h: Seq<nat>,
    b: Option<nat>,
    r: Seq<Grid>,
    b2: Option<nat>,
    h2: Seq<nat>,
    nodes: nat,
    n: nat,
) -> bool
    decreases n, 2int,
{
    if up(b) {
        r == seq![g] && b2 == b && h2 == h && nodes == 0
    } else {
        exists|perm: Seq<Move>|
            #![trigger moves_view(perm)]
            moves_view(perm) == shuffled_moves(g, cs, branch_limit, seed, h) && search_with(
                g,
                cs,
                branch_limit,
                top_n,
                depth,
                perm,
                seed,
                h.push(all_moves(g, cs, branch_limit).len()),
                tick(b),
                r,
                b2,
                h2,
                nodes,
                n,
            )
    }
}

/// With the moves from `g` in the order `perm`, the generator history `h`
/// and the budget `b`: the top list that starts as `g` alone and is
/// offered, in turn, the grids the search returns from each tried move
/// (see `tried_moves`), until the moves run out or a time check before a
/// move says "time is up".
pub open spec fn search_with(
    g: Grid,
    cs: Seq<CandidateModel>,
    branch_limit: int,
    top_n: int,
    depth: int,
    perm: Seq<Move>,
    seed: u64,
    h: Seq<nat>,
    b: Option<nat>,
    r: Seq<Grid>,
    b2: Option<nat>,
    h2: Seq<nat>,
    nodes: nat,
    n: nat,
) -> bool
    decreases n, 1int,
{
    exists|nexts: Seq<Grid>, subs: Seq<Seq<Grid>>, bs: Seq<Option<nat>>, hs: Seq<Seq<nat>>, ks: Seq<nat>|
        #![trigger fold_subs(seq![g], subs, top_n), nexts.len(), bs.len(), hs.len(), ks.len()]
        tried_results(
            g,
            cs,
            branch_limit,
            top_n,
            depth,
            tried_moves(perm, depth, branch_limit),
            seed,
            h,
            b,
            nexts,
            subs,
            bs,
            hs,
            ks,
            n,
        ) && (subs.len() == tried_moves(perm, depth, branch_limit).len() || up(bs.last())) && r == fold_subs(
            seq![g],
            subs,
            top_n,
        ) && b2 == bs.last() && h2 == hs.last() && nodes == node_total(ks)
}

/// The first `subs.len()` tried moves `t`: before move `i` the budget is
/// `bs[i]` (starting at `b`) and its time check says "not yet", and the
/// generator history is `hs[i]` (starting at `h`); `nexts[i]` is `g` after
/// the move, and the search from it, one level deeper, returns `subs[i]`,
/// leaves the budget `bs[i + 1]` and the history `hs[i + 1]`, and places
/// `ks[i]` entries.
pub open spec fn tried_results(
    g: Grid,
    cs: Seq<CandidateModel>,
    branch_limit: int,
    top_n: int,
    depth: int,
    t: Seq<Move>,
    seed: u64,
    h: Seq<nat>,
    b: Option<nat>,
    nexts: Seq<Grid>,
    subs: Seq<Seq<Grid>>,
    bs: Seq<Option<nat>>,
    hs: Seq<Seq<nat>>,
    ks: Seq<nat>,
    n: nat,
) -> bool
    decreases n, 0int,
{
    &&& subs.len() <= t.len()
    &&& nexts.len() == subs.len()
    &&& ks.len() == subs.len()
    &&& bs.len() == subs.len() + 1
    &&& hs.len() == subs.len() + 1
    &&& bs[0] == b
    &&& hs[0] == h
    &&& forall|i: int|
        0 <= i < subs.len() ==> !up(bs[i]) && move_next(g, cs, #[trigger] t[i], nexts[i]) && n >= 1 && search_from(
            nexts[i],
            cs,
            branch_limit,
            top_n,
            depth + 1,
            seed,
            hs[i],
            tick(bs[i]),
            subs[i],
            bs[i + 1],
            hs[i + 1],
            ks[i],
            (n - 1) as nat,
        )
}

/// Adding the result of the next tried move.
proof fn lemma_tried_push(
    g: Grid,
    cs: Seq<CandidateModel>,
    bl: int,
    top: int,
    depth: int,
    t: Seq<Move>,
    seed: u64,
    h: Seq<nat>,
    b: Option<nat>,
    nexts: Seq<Grid>,
    subs: Seq<Seq<Grid>>,
    bs: Seq<Option<nat>>,
    hs: Seq<Seq<nat>>,
    ks: Seq<nat>,
    nx: Grid,
    sg: Seq<Grid>,
    b2: Option<nat>,
    h2: Seq<nat>,
    k2: nat,
    n: nat,
)
    requires
        tried_results(g, cs, bl, top, depth, t, seed, h, b, nexts, subs, bs, hs, ks, n),
        subs.len() < t.len(),
        !up(bs.last()),
        move_next(g, cs, t[subs.len() as int], nx),
        n >= 1,
        search_from(nx, cs, bl, top, depth + 1, seed, hs.last(), tick(bs.last()), sg, b2, h2, k2, (n - 1) as nat),
    ensures
        tried_results(
            g,
            cs,
            bl,
            top,
            depth,
            t,
            seed,
            h,
            b,
            nexts.push(nx),
            subs.push(sg),
            bs.push(b2),
            hs.push(h2),
            ks.push(k2),
            n,
        ),
        fold_subs(seq![g], subs.push(sg), top) == fold_in(fold_subs(seq![g], subs, top), sg, top),
        node_total(ks.push(k2)) == node_total(ks) + 1 + k2,
{
    reveal_with_fuel(search_from, 2);
    let i = subs.len() as int;
    assert(move_next(g, cs, t[i], nx));
    let n2 = nexts.push(nx);
    let s2 = subs.push(sg);
    let b3 = bs.push(b2);
    let h3 = hs.push(h2);
    let k3 = ks.push(k2);
    assert forall|j: int| 0 <= j < s2.len() implies !up(#[trigger] b3[j]) by {
        if j < i {
            assert(b3[j] == bs[j]);
            let _ = t[j];
        } else {
            assert(b3[j] == bs.last());
        }
    }
    assert forall|j: int| 0 <= j < s2.len() implies !up(b3[j]) && move_next(g, cs, #[trigger] t[j], n2[j]) && n >= 1
        && search_from(
        n2[j],
        cs,
        bl,
        top,
        depth + 1,
        seed,
        h3[j],
        tick(b3[j]),
        s2[j],
        b3[j + 1],
        h3[j + 1],
        k3[j],
        (n - 1) as nat,
    ) by {
        if j < i {
            assert(n2[j] == nexts[j]);
            assert(s2[j] == subs[j]);
            assert(b3[j] == bs[j]);
            assert(b3[j + 1] == bs[j + 1]);
            assert(h3[j] == hs[j]);
            assert(h3[j + 1] == hs[j + 1]);
            assert(k3[j] == ks[j]);
            let _ = t[j];
        } else {
            assert(j == i);
            assert(n2[j] == nx);
            assert(s2[j] == sg);
            assert(b3[j] == bs.last());
            assert(b3[j + 1] == b2);
            assert(h3[j] == hs.last());
            assert(h3[j + 1] == h2);
            assert(k3[j] == k2);
        }
    }
    assert(b3[0] == b);
    assert(h3[0] == h);
    assert(s2.drop_last() =~= subs);
    assert(k3.drop_last() =~= ks);
}

/// Tries move `m` from `grid` (held as `work`): places it, searches from
/// the new grid one level deeper, and offers what that search returns to
/// `best`. Gives back the new grid and that search's grids.
fn try_move(
    work: &Grid,
    Ghost(grid): Ghost<Grid>,
    ctx: &SearchContext,
    depth: usize,
    m: Move,
    best: &mut Vec<Ranked>,
    timer: &mut Timer,
    explored: &mut usize,
    rng: &mut Generator,
) -> (r: Ghost<(Grid, Seq<Grid>)>)
    requires
        ctx_ok(ctx),
        layout_ok(grid),
        drawn_from(grid, slice_view(ctx.candidates@)),
        1 <= depth <= grid.entries@.len(),
        same_grid(grid, *work),
        move_ok(grid, ctx.candidates@, m),
        kept_ok(grid, ctx.top_n as int, old(best)@, slice_view(ctx.candidates@)),
        old(best)@.len() >= 1,
    ensures
        kept_ok(grid, ctx.top_n as int, final(best)@, slice_view(ctx.candidates@)),
        final(best)@.len() >= 1,
        *final(explored) >= *old(explored),
        move_next(grid, slice_view(ctx.candidates@), m, r@.0),
        grids_of(final(best)@) == fold_in(grids_of(old(best)@), r@.1, ctx.top_n as int),
        ctx.candidates@.len() - grid.entries@.len() >= 1,
        known_budget(*old(timer)) is Some ==> known_budget(*final(timer)) is Some && from_counted(
            r@.0,
            slice_view(ctx.candidates@),
            ctx.branch_limit as int,
            ctx.top_n as int,
            depth + 1,
            old(rng).seed(),
            old(rng).history(),
            known_budget(*old(timer))->0,
            r@.1,
            known_budget(*final(timer))->0,
            final(rng).history(),
            (ctx.candidates@.len() - grid.entries@.len() - 1) as nat,
            sat(*old(explored) + 1),
            *final(explored) as int,
        ),
        final(rng).seed() == old(rng).seed(),
    decreases ctx.candidates@.len() - grid.entries@.len(), 0int,
{
    let ghost cs = slice_view(ctx.candidates@);
    let (k, x, y, direction, _weight) = m;
    let candidate = &ctx.candidates[k];
    let ghost c = candidate@;
    proof {
        lemma_entry_count(grid.entries_model(), cs);
        assert(cs[k as int] == c);
        lemma_placement_same(grid, *work, c, x as int, y as int, direction);
    }
    match work.place(candidate, x, y, direction) {
        Some(next) => {
            proof {
                assert(step(grid, next, c, x as int, y as int, direction));
                assert(cs.contains(c));
                assert(cand_ready(cs[k as int]));
                lemma_step_ready(grid, next, c, x as int, y as int, direction, cs);
                lemma_entry_count(next.entries_model(), cs);
                assert(next.entries@.len() == next.entries_model().len());
                assert(grid.entries@.len() == grid.entries_model().len());
            }
            *explored = explored.saturating_add(1);
            assert(*explored == sat(*old(explored) + 1));
            let ghost nx = next;
            let sub = dfs(next, ctx, depth + 1, timer, explored, rng);
            let ghost sg = grids_of(sub@);
            proof {
                assert forall|q: int| 0 <= q < sub@.len() implies ranked_ok(#[trigger] sub@[q]) && layout_ok(
                    sub@[q].grid,
                ) && drawn_from(sub@[q].grid, cs) && built(grid, sub@[q].grid, cs) by {
                    lemma_built_prepend(grid, nx, sub@[q].grid, c, x as int, y as int, direction, cs);
                }
            }
            absorb(best, sub, Ghost(grid), ctx.top_n, Ghost(cs));
            Ghost((nx, sg))
        },
        None => {
            proof {
                assert(false);
            }
            Ghost((grid, Seq::empty()))
        },
    }
}

/// From `grid` at `depth`, tries the moves `moves` (already shuffled) as
/// the search does, each after a time check that says "not yet": the best
/// layouts found, starting with `grid` itself (see `search_with`).
fn explore_moves(
    grid: Grid,
    ctx: &SearchContext,
    depth: usize,
    moves: Vec<Move>,
    Ghost(n): Ghost<nat>,
    timer: &mut Timer,
    explored: &mut usize,
    rng: &mut Generator,
) -> (r: Vec<Ranked>)
    requires
        n == ctx.candidates@.len() - grid.entries@.len(),
        ctx_ok(ctx),
        layout_ok(grid),
        drawn_from(grid, slice_view(ctx.candidates@)),
        1 <= depth <= grid.entries@.len(),
        forall|q: int| 0 <= q < moves@.len() ==> move_ok(grid, ctx.candidates@, #[trigger] moves@[q]),
    ensures
        results_ok(grid, ctx.top_n as int, r@, slice_view(ctx.candidates@)),
        *final(explored) >= *old(explored),
        known_budget(*old(timer)) is Some ==> known_budget(*final(timer)) is Some && with_counted(
            grid,
            slice_view(ctx.candidates@),
            ctx.branch_limit as int,
            ctx.top_n as int,
            depth as int,
            moves@,
            old(rng).seed(),
            old(rng).history(),
            known_budget(*old(timer))->0,
            grids_of(r@),
            known_budget(*final(timer))->0,
            final(rng).history(),
            n,
            *old(explored) as int,
            *final(explored) as int,
        ),
        final(rng).seed() == old(rng).seed(),
    decreases n, 1int,
{
    let ghost cs = slice_view(ctx.candidates@);
    let ghost g0 = grid;
    let ghost bl = ctx.branch_limit as int;
    let ghost top = ctx.top_n as int;
    let ghost known = known_budget(*timer) is Some;
    let ghost b0 = known_budget(*timer)->0;
    let ghost seed = rng.seed();
    let ghost h0 = rng.history();
    proof {
        lemma_entry_count(grid.entries_model(), cs);
        lemma_built_refl(grid, cs);
    }
    let work = grid.clone();
    assert(same_grid(g0, work));
    let first = rank(grid);
    let mut best: Vec<Ranked> = Vec::new();
    best.push(first);
    assert(grids_of(best@) =~= seq![g0]);
    let ordered = order_moves(&moves);
    proof {
        lemma_stable_sort_members(moves@, weight_order());
        crate::order::lemma_stable_sort_len(moves@, weight_order());
        assert forall|q: int| 0 <= q < ordered@.len() implies move_ok(g0, ctx.candidates@, #[trigger] ordered@[q]) by {
            assert(moves@.contains(ordered@[q]));
            let j = choose|j: int| 0 <= j < moves@.len() && moves@[j] == ordered@[q];
            assert(move_ok(g0, ctx.candidates@, moves@[j]));
        }
    }
    let cap = branching_cap(depth, ctx.branch_limit);
    let ghost t = tried_moves(moves@, depth as int, bl);
    let ghost mut nexts: Seq<Grid> = Seq::empty();
    let ghost mut subs: Seq<Seq<Grid>> = Seq::empty();
    let ghost mut bs: Seq<Option<nat>> = seq![b0];
    let ghost mut hs: Seq<Seq<nat>> = seq![h0];
    let ghost mut ks: Seq<nat> = Seq::empty();
    let ghost a0: int = *explored as int;
    assert(tried_results(g0, cs, bl, top, depth as int, t, seed, h0, b0, nexts, subs, bs, hs, ks, n));
    let mut i: usize = 0;
    let mut stopped = false;
    while !stopped && i < ordered.len() && i < cap
        invariant
            ctx_ok(ctx),
            cs == slice_view(ctx.candidates@),
            bl == ctx.branch_limit as int,
            top == ctx.top_n as int,
            layout_ok(g0),
            drawn_from(g0, cs),
            1 <= depth <= g0.entries@.len(),
            n == ctx.candidates@.len() - g0.entries@.len(),
            same_grid(g0, work),
            ordered@ == stable_sort(moves@, weight_order()),
            ordered@.len() == moves@.len(),
            forall|q: int| 0 <= q < ordered@.len() ==> move_ok(g0, ctx.candidates@, #[trigger] ordered@[q]),
            cap == branch_cap(depth as int, bl),
            t == tried_moves(moves@, depth as int, bl),
            i <= ordered.len(),
            i <= cap,
            kept_ok(g0, top, best@, cs),
            best@.len() >= 1,
            *explored >= *old(explored),
            known == (known_budget(*old(timer)) is Some),
            b0 == known_budget(*old(timer))->0,
            seed == old(rng).seed(),
            h0 == old(rng).history(),
            rng.seed() == seed,
            known ==> known_budget(*timer) is Some && tried_results(
                g0,
                cs,
                bl,
                top,
                depth as int,
                t,
                seed,
                h0,
                b0,
                nexts,
                subs,
                bs,
                hs,
                ks,
                n,
            ) && subs.len() == i && bs.last() == known_budget(*timer)->0 && hs.last() == rng.history() && (stopped
                ==> up(bs.last())) && grids_of(best@) == fold_subs(seq![g0], subs, top) && *explored == sat(
                a0 + node_total(ks),
            ),
            a0 == *old(explored),
        decreases ordered.len() - i + (if stopped { 0int } else { 1int }),
    {
        let ghost before = *timer;
        if time_up(timer) {
            stopped = true;
        } else {
            let m = ordered[i];
            proof {
                assert(move_ok(g0, ctx.candidates@, m));
            }
            let ghost mid = *timer;
            let ghost e_before: int = *explored as int;
            let Ghost(res) = try_move(&work, Ghost(g0), ctx, depth, m, &mut best, timer, explored, rng);
            let ghost mut kk: nat = 0;
            proof {
                if known {
                    kk = choose|k: nat|
                        #![trigger search_from(res.0, cs, bl, top, depth + 1, seed, hs.last(), tick(bs.last()), res.1, known_budget(*timer)->0, rng.history(), k, (n - 1) as nat)]
                        search_from(
                            res.0,
                            cs,
                            bl,
                            top,
                            depth + 1,
                            seed,
                            hs.last(),
                            tick(bs.last()),
                            res.1,
                            known_budget(*timer)->0,
                            rng.history(),
                            k,
                            (n - 1) as nat,
                        ) && *explored == sat(sat(e_before + 1) + k);
                    lemma_sat_add(a0 + node_total(ks), 1);
                    lemma_sat_add(a0 + node_total(ks) + 1, kk as int);
                    assert(t[i as int] == m) by {
                        if !(ordered@.len() <= cap) {
                            assert(t[i as int] == ordered@.take(cap as int)[i as int]);
                        }
                    }
                    lemma_tried_push(
                        g0,
                        cs,
                        bl,
                        top,
                        depth as int,
                        t,
                        seed,
                        h0,
                        b0,
                        nexts,
                        subs,
                        bs,
                        hs,
                        ks,
                        res.0,
                        res.1,
                        known_budget(*timer)->0,
                        rng.history(),
                        kk,
                        n,
                    );
                }
                nexts = nexts.push(res.0);
                subs = subs.push(res.1);
                bs = bs.push(known_budget(*timer)->0);
                hs = hs.push(rng.history());
                ks = ks.push(kk);
            }
            i = i + 1;
        }
    }
    proof {
        if known {
            if !stopped {
                assert(t.len() == i);
            }
            assert(search_with(
                g0,
                cs,
                bl,
                top,
                depth as int,
                moves@,
                seed,
                h0,
                b0,
                grids_of(best@),
                known_budget(*timer)->0,
                rng.history(),
                node_total(ks),
                n,
            ));
        }
    }
    best
}

/// The depth-first search from `grid`: the best layouts found from it
/// until a time check says "time is up"; where the timer's answers are
/// known without the clock, exactly `search_from`'s.
fn dfs(
    grid: Grid,
    ctx: &SearchContext,
    depth: usize,
    timer: &mut Timer,
    explored: &mut usize,
    rng: &mut Generator,
) -> (r: Vec<Ranked>)
    requires
        ctx_ok(ctx),
        layout_ok(grid),
        drawn_from(grid, slice_view(ctx.candidates@)),
        1 <= depth <= grid.entries@.len(),
    ensures
        results_ok(grid, ctx.top_n as int, r@, slice_view(ctx.candidates@)),
        *final(explored) >= *old(explored),
        known_budget(*old(timer)) is Some ==> known_budget(*final(timer)) is Some && from_counted(
            grid,
            slice_view(ctx.candidates@),
            ctx.branch_limit as int,
            ctx.top_n as int,
            depth as int,
            old(rng).seed(),
            old(rng).history(),
            known_budget(*old(timer))->0,
            grids_of(r@),
            known_budget(*final(timer))->0,
            final(rng).history(),
            (ctx.candidates@.len() - grid.entries@.len()) as nat,
            *old(explored) as int,
            *final(explored) as int,
        ),
        final(rng).seed() == old(rng).seed(),
    decreases ctx.candidates@.len() - grid.entries@.len(), 2int,
{
    let ghost cs = slice_view(ctx.candidates@);
    let ghost g0 = grid;
    proof {
        lemma_entry_count(grid.entries_model(), cs);
        lemma_built_refl(grid, cs);
    }
    let ghost b0 = known_budget(*timer)->0;
    if time_up(timer) {
        let mut v: Vec<Ranked> = Vec::new();
        v.push(rank(grid));
        assert(grids_of(v@) =~= seq![g0]);
        proof {
            if known_budget(*old(timer)) is Some {
                assert(search_from(
                    g0,
                    cs,
                    ctx.branch_limit as int,
                    ctx.top_n as int,
                    depth as int,
                    rng.seed(),
                    rng.history(),
                    b0,
                    grids_of(v@),
                    known_budget(*timer)->0,
                    rng.history(),
                    0,
                    (ctx.candidates@.len() - g0.entries@.len()) as nat,
                ));
            }
        }
        return v;
    }
    let moves = enumerate_moves(&grid, ctx.candidates, ctx.branch_limit);
    let ghost listed = moves@;
    let ghost seed = rng.seed();
    let ghost h0 = rng.history();
    let mut shuffled = moves;
    shuffle_vec(&mut shuffled, rng);
    let ghost perm = shuffled@;
    proof {
        let o = shuffle_order(seed, h0, listed.len());
        let mv = moves_view(listed);
        assert(mv == all_moves(g0, cs, ctx.branch_limit as int));
        assert(moves_view(perm) =~= reorder(mv, o)) by {
            assert forall|k: int| 0 <= k < perm.len() implies moves_view(perm)[k] == reorder(mv, o)[k] by {
                assert(o[k] < listed.len());
                assert(perm[k] == listed[o[k] as int]);
            }
        }
        assert(moves_view(perm) == shuffled_moves(g0, cs, ctx.branch_limit as int, seed, h0));
        assert forall|q: int| 0 <= q < perm.len() implies move_ok(g0, ctx.candidates@, #[trigger] perm[q]) by {
            let m = perm[q];
            vstd::seq_lib::to_multiset_contains(perm, m);
            vstd::seq_lib::to_multiset_contains(listed, m);
            let j = choose|j: int| 0 <= j < listed.len() && listed[j] == m;
            assert(listed[j] == m);
        }
        crate::order::lemma_map_multiset(perm, listed, move_view_fn());
    }
    let ghost n0: nat = (ctx.candidates@.len() - g0.entries@.len()) as nat;
    let ghost mid = *timer;
    let ghost h1 = rng.history();
    let ghost e0: int = *explored as int;
    let r = explore_moves(grid, ctx, depth, shuffled, Ghost(n0), timer, explored, rng);
    proof {
        if known_budget(mid) is Some {
            assert(moves_view(perm) == shuffled_moves(g0, cs, ctx.branch_limit as int, seed, h0));
            assert(all_moves(g0, cs, ctx.branch_limit as int).len() == listed.len());
            let k = choose|k: nat|
                #![trigger search_with(g0, cs, ctx.branch_limit as int, ctx.top_n as int, depth as int, perm, seed, h1, known_budget(mid)->0, grids_of(r@), known_budget(*timer)->0, rng.history(), k, n0)]
                search_with(
                    g0,
                    cs,
                    ctx.branch_limit as int,
                    ctx.top_n as int,
                    depth as int,
                    perm,
                    seed,
                    h1,
                    known_budget(mid)->0,
                    grids_of(r@),
                    known_budget(*timer)->0,
                    rng.history(),
                    k,
                    n0,
                ) && *explored == sat(e0 + k);
            assert(search_from(
                g0,
                cs,
                ctx.branch_limit as int,
                ctx.top_n as int,
                depth as int,
                seed,
                h0,
                b0,
                grids_of(r@),
                known_budget(*timer)->0,
                rng.history(),
                k,
                n0,
            ));
        }
    }
    r
}

// ---------------------------------------------------------------------------
// Start grids
// ---------------------------------------------------------------------------

/// How many of the best candidates may start a layout.
pub open spec fn anchor_count(n: int, branch_limit: int) -> int {
    if n < branch_limit * 3 {
        n
    } else {
        branch_limit * 3
    }
}

/// Higher score first; equal scores keep their order.
pub open spec fn quality_order(cs: Seq<CandidateModel>) -> spec_fn(usize, usize) -> bool {
    |a: usize, b: usize| cs[a as int].quality_score > cs[b as int].quality_score
}

/// Orders candidate positions by score, best first, keeping the given order
/// among equal scores.
pub fn order_anchors(candidates: &[CandidateAnswer], shuffled: &Vec<usize>) -> (r: Vec<usize>)
    requires
        forall|i: int| 0 <= i < shuffled@.len() ==> #[trigger] shuffled@[i] < candidates@.len(),
    ensures
        r@ == stable_sort(shuffled@, quality_order(slice_view(candidates@))),
{
    let ghost cs = slice_view(candidates@);
    let mut sorted: Vec<usize> = Vec::new();
    let mut i: usize = 0;
    assert(shuffled@.take(0) =~= Seq::<usize>::empty());
    while i < shuffled.len()
        invariant
            i <= shuffled.len(),
            cs == slice_view(candidates@),
            forall|q: int| 0 <= q < shuffled@.len() ==> #[trigger] shuffled@[q] < candidates@.len(),
            sorted@ == stable_sort(shuffled@.take(i as int), quality_order(cs)),
            forall|q: int| 0 <= q < sorted@.len() ==> #[trigger] sorted@[q] < candidates@.len(),
        decreases shuffled.len() - i,
    {
        let x = shuffled[i];
        assert(x < candidates@.len());
        let mut p: usize = 0;
        let mut found = false;
        while p < sorted.len() && !found
            invariant
                p <= sorted.len(),
                x < candidates@.len(),
                cs == slice_view(candidates@),
                forall|q: int| 0 <= q < sorted@.len() ==> #[trigger] sorted@[q] < candidates@.len(),
                found ==> p < sorted.len() && (quality_order(cs))(x, sorted@[p as int]),
                forall|q: int| 0 <= q < p ==> !(quality_order(cs))(x, #[trigger] sorted@[q]),
            decreases (sorted.len() - p) as int + (if found { 0int } else { 1int }),
        {
            let b = sorted[p];
            assert(cs[x as int] == candidates@[x as int]@);
            assert(cs[b as int] == candidates@[b as int]@);
            if candidates[x].quality_score > candidates[b].quality_score {
                found = true;
            } else {
                p = p + 1;
            }
        }
        proof {
            lemma_insert_pos_by(sorted@, x, quality_order(cs), p as int);
            assert(shuffled@.take(i + 1).drop_last() =~= shuffled@.take(i as int));
            assert(shuffled@.take(i + 1).last() == x);
        }
        let ghost before = sorted@;
        sorted.insert(p, x);
        assert forall|q: int| 0 <= q < sorted@.len() implies #[trigger] sorted@[q] < candidates@.len() by {
            if q < p {
                assert(sorted@[q] == before[q]);
            } else if q > p {
                assert(sorted@[q] == before[q - 1]);
            }
        }
        i = i + 1;
    }
    assert(shuffled@.take(shuffled.len() as int) =~= shuffled@);
    sorted
}

/// The column where a start entry goes: centred across the grid.
pub open spec fn root_x(g: Grid, c: CandidateModel) -> int {
    sat_sub(g.width as int, byte_len(c.normalized) as int) / 2
}

/// Placing `c` as a start entry: centred, across the middle row.
pub open spec fn root_placement(g: Grid, c: CandidateModel) -> Option<nat> {
    placement(g, c, root_x(g, c), g.height as int / 2, Direction::Across)
}

/// The positions of `order` whose candidates can start a layout.
pub open spec fn fitting_anchors(g: Grid, cs: Seq<CandidateModel>, order: Seq<usize>) -> Seq<usize>
    decreases order.len(),
{
    if order.len() == 0 {
        Seq::empty()
    } else {
        let rest = fitting_anchors(g, cs, order.drop_last());
        if root_placement(g, cs[order.last() as int]) is Some {
            rest.push(order.last())
        } else {
            rest
        }
    }
}

pub open spec fn tried(order: Seq<usize>, branch_limit: int) -> Seq<usize> {
    if order.len() < branch_limit {
        order
    } else {
        order.take(branch_limit)
    }
}

/// `r` is `g` with candidate `a` placed as a start entry.
pub open spec fn root_of(g: Grid, cs: Seq<CandidateModel>, a: usize, r: Grid) -> bool {
    step(g, r, cs[a as int], root_x(g, cs[a as int]), g.height as int / 2, Direction::Across)
}

/// The grid form of `c` is not empty and fits in a row of `width` cells.
pub open spec fn fits_row(c: CandidateModel, width: int) -> bool {
    1 <= byte_len(c.normalized) <= width
}

/// The start grids: each of the first `branch_limit` positions of `order`
/// whose candidate fits, placed centred across the middle row of `grid`.
pub fn root_grids(grid: &Grid, candidates: &[CandidateAnswer], order: &Vec<usize>, branch_limit: usize) -> (r: Vec<Grid>)
    requires
        grid.wf(),
        forall|i: int| 0 <= i < order@.len() ==> #[trigger] order@[i] < candidates@.len(),
        forall|i: int|
            0 <= i < order@.len() && i < branch_limit ==> grid.height > 0 || !fits_row(
                candidates@[#[trigger] order@[i] as int]@,
                grid.width as int,
            ),
    ensures
        r@.len() == fitting_anchors(*grid, slice_view(candidates@), tried(order@, branch_limit as int)).len(),
        forall|i: int|
            0 <= i < r@.len() ==> root_of(
                *grid,
                slice_view(candidates@),
                fitting_anchors(*grid, slice_view(candidates@), tried(order@, branch_limit as int))[i],
                #[trigger] r@[i],
            ),
{
    let ghost cs = slice_view(candidates@);
    let mut roots: Vec<Grid> = Vec::new();
    let mut i: usize = 0;
    while i < order.len() && i < branch_limit
        invariant
            i <= order@.len(),
            i <= branch_limit,
            grid.wf(),
            cs == slice_view(candidates@),
            forall|q: int| 0 <= q < order@.len() ==> #[trigger] order@[q] < candidates@.len(),
            forall|q: int|
                0 <= q < order@.len() && q < branch_limit ==> grid.height > 0 || !fits_row(
                    candidates@[#[trigger] order@[q] as int]@,
                    grid.width as int,
                ),
            roots@.len() <= i,
            roots@.len() == fitting_anchors(*grid, cs, order@.take(i as int)).len(),
            forall|q: int|
                0 <= q < roots@.len() ==> root_of(
                    *grid,
                    cs,
                    fitting_anchors(*grid, cs, order@.take(i as int))[q],
                    #[trigger] roots@[q],
                ),
        ensures
            !(i < order@.len() && i < branch_limit),
        decreases order.len() - i,
    {
        let a = order[i];
        let candidate = &candidates[a];
        assert(cs[a as int] == candidate@);
        let len = str_byte_len(candidate.normalized.as_str());
        let start_x = if grid.width >= len {
            (grid.width - len) / 2
        } else {
            0
        };
        let row = grid.height / 2;
        let ghost c = cs[a as int];
        let ghost prev = fitting_anchors(*grid, cs, order@.take(i as int));
        let ghost next = fitting_anchors(*grid, cs, order@.take(i + 1));
        proof {
            assert(order@.take(i + 1).drop_last() =~= order@.take(i as int));
            assert(order@.take(i + 1).last() == a);
            assert(start_x as int == root_x(*grid, c));
            assert(row as int == grid.height as int / 2);
            if root_placement(*grid, c) is Some {
                assert(next == prev.push(a));
            } else {
                assert(next == prev);
            }
        }
        match grid.place(candidate, start_x, row, Direction::Across) {
            Some(g2) => {
                let ghost before = roots@;
                roots.push(g2);
                assert(root_of(*grid, cs, a, g2));
                assert forall|q: int| 0 <= q < roots@.len() implies root_of(
                    *grid,
                    cs,
                    next[q],
                    #[trigger] roots@[q],
                ) by {
                    if q < before.len() {
                        assert(roots@[q] == before[q]);
                        assert(next[q] == prev[q]);
                    }
                }
            },
            None => {
                assert(root_placement(*grid, c) is None);
            },
        }
        i = i + 1;
        if roots.len() >= branch_limit {
            break;
        }
    }
    assert(tried(order@, branch_limit as int) =~= order@.take(i as int));
    roots
}


/// The fitting positions are positions of `order`; all of them where every
/// candidate fits, none where none does.
pub proof fn lemma_fitting(g: Grid, cs: Seq<CandidateModel>, order: Seq<usize>)
    ensures
        fitting_anchors(g, cs, order).len() <= order.len(),
        forall|i: int|
            0 <= i < fitting_anchors(g, cs, order).len() ==> order.contains(
                #[trigger] fitting_anchors(g, cs, order)[i],
            ),
        (forall|j: int| 0 <= j < order.len() ==> root_placement(g, cs[#[trigger] order[j] as int]) is Some)
            ==> fitting_anchors(g, cs, order).len() == order.len(),
        (forall|j: int| 0 <= j < order.len() ==> root_placement(g, cs[#[trigger] order[j] as int]) is None)
            ==> fitting_anchors(g, cs, order).len() == 0,
    decreases order.len(),
{
    if order.len() > 0 {
        let p = order.drop_last();
        lemma_fitting(g, cs, p);
        let f = fitting_anchors(g, cs, p);
        assert forall|i: int| 0 <= i < fitting_anchors(g, cs, order).len() implies order.contains(
            #[trigger] fitting_anchors(g, cs, order)[i],
        ) by {
            if i < f.len() {
                assert(fitting_anchors(g, cs, order)[i] == f[i]);
                assert(p.contains(f[i]));
                let j = choose|j: int| 0 <= j < p.len() && p[j] == f[i];
                assert(order[j] == f[i]);
            } else {
                assert(order[order.len() - 1] == order.last());
            }
        }
        if forall|j: int| 0 <= j < order.len() ==> root_placement(g, cs[#[trigger] order[j] as int]) is Some {
            assert forall|j: int| 0 <= j < p.len() implies root_placement(g, cs[#[trigger] p[j] as int]) is Some by {
                assert(p[j] == order[j]);
            }
            assert(root_placement(g, cs[order[order.len() - 1] as int]) is Some);
        }
        if forall|j: int| 0 <= j < order.len() ==> root_placement(g, cs[#[trigger] order[j] as int]) is None {
            assert forall|j: int| 0 <= j < p.len() implies root_placement(g, cs[#[trigger] p[j] as int]) is None by {
                assert(p[j] == order[j]);
            }
            assert(root_placement(g, cs[order[order.len() - 1] as int]) is None);
        }
    }
}

/// `g`'s first entry is candidate `c` placed as a start entry.
pub open spec fn starts_with(g: Grid, c: CandidateModel) -> bool {
    &&& g.entries_model().len() >= 1
    &&& g.entries_model()[0].candidate == c
    &&& g.entries_model()[0].x == root_x(g, c)
    &&& g.entries_model()[0].y == g.height as int / 2
    &&& g.entries_model()[0].direction == Direction::Across
}

/// A start grid placed on an empty grid is a valid layout with one entry,
/// built from the empty grid.
pub proof fn lemma_root_ready(g: Grid, cs: Seq<CandidateModel>, a: usize, r: Grid)
    requires
        empty_grid(g, g.width as int, g.height as int),
        a < cs.len(),
        cand_ready(cs[a as int]),
        root_of(g, cs, a, r),
    ensures
        layout_ok(r),
        drawn_from(r, cs),
        built(g, r, cs),
        r.entries@.len() == 1,
        starts_with(r, cs[a as int]),
{
    let c = cs[a as int];
    let x = root_x(g, c);
    let y = g.height as int / 2;
    let k = root_placement(g, c)->0;
    lemma_empty_well_laid(g, g.width as int, g.height as int);
    assert(cs.contains(c));
    lemma_step_ready(g, r, c, x, y, Direction::Across, cs);
    lemma_built_refl(r, cs);
    lemma_built_prepend(g, r, r, c, x, y, Direction::Across, cs);
    assert(r.entries_model() == g.entries_model().push(
        EntryModel { candidate: c, x: x as nat, y: y as nat, direction: Direction::Across, crossings: k },
    ));
    assert(r.entries_model()[0].candidate == c);
}

/// On an empty grid a candidate can start a layout exactly when its grid
/// form is not empty and fits in a row (and there is a row).
pub proof fn lemma_root_on_empty(g: Grid, c: CandidateModel)
    requires
        g.wf(),
        g.entries_model().len() == 0,
        forall|x: int, y: int| 0 <= x < g.width && 0 <= y < g.height ==> #[trigger] g.cell_at(x, y) is None,
        g.height > 0 || !fits_row(c, g.width as int),
    ensures
        root_placement(g, c) is Some <==> (fits_row(c, g.width as int) && g.height > 0),
{
    let len = byte_len(c.normalized) as int;
    let x = root_x(g, c);
    let y = g.height as int / 2;
    let word = c.normalized;
    crate::text::lemma_byte_len_ge_len(word);
    if fits_row(c, g.width as int) && g.height > 0 {
        assert(fits(g, len, x, y, Direction::Across));
        assert(!entry_conflict(g, c, x, y, Direction::Across));
        assert(ends_clear(g, x, y, Direction::Across, len));
        assert forall|s: int| 0 <= s < word.len() implies match #[trigger] g.cell_at(
            path_x(x, Direction::Across, s),
            path_y(y, Direction::Across, s),
        ) {
            Some(e) => e == word[s],
            None => !side_touching(g, path_x(x, Direction::Across, s), path_y(y, Direction::Across, s), Direction::Across),
        } by {
            assert(g.cell_at(x + s, y) is None);
            if y > 0 {
                assert(g.cell_at(x + s, y - 1) is None);
            }
            if y + 1 < g.height {
                assert(g.cell_at(x + s, y + 1) is None);
            }
        }
        assert(letters_ok(g, word, x, y, Direction::Across));
    }
}

/// `r` is `g` with one of the first `m` candidates placed as a start entry.
pub open spec fn rooted_in(g: Grid, cs: Seq<CandidateModel>, m: int, r: Grid) -> bool {
    exists|a: usize| a < m && root_of(g, cs, a, r)
}

/// The positions `0..m`.
pub open spec fn anchor_indices(m: int) -> Seq<usize> {
    Seq::new(m as nat, |k: int| k as usize)
}

/// The candidates tried as start entries, as positions: the first
/// `3 * branch_limit` in the order a generator seeded with `seed` shuffles
/// them, then by score (best first, equal scores in the shuffled order),
/// and the first `branch_limit` of those.
pub open spec fn chosen_order(cs: Seq<CandidateModel>, branch_limit: int, seed: u64) -> Seq<usize> {
    let m = anchor_count(cs.len() as int, branch_limit);
    tried(
        stable_sort(
            reorder(anchor_indices(m), shuffle_order(seed, Seq::<nat>::empty(), m as nat)),
            quality_order(cs),
        ),
        branch_limit,
    )
}

/// The positions of `order` whose candidates fit in a row of a `width` by
/// `height` grid.
pub open spec fn fitting_by_size(cs: Seq<CandidateModel>, order: Seq<usize>, width: int, height: int) -> Seq<usize>
    decreases order.len(),
{
    if order.len() == 0 {
        Seq::empty()
    } else {
        let rest = fitting_by_size(cs, order.drop_last(), width, height);
        if fits_row(cs[order.last() as int], width) && height > 0 {
            rest.push(order.last())
        } else {
            rest
        }
    }
}

/// The candidates (as positions) that start the layouts: those of
/// `chosen_order` that fit, in that order.
pub open spec fn start_anchors(cs: Seq<CandidateModel>, branch_limit: int, seed: u64, width: int, height: int) -> Seq<
    usize,
> {
    fitting_by_size(cs, chosen_order(cs, branch_limit, seed), width, height)
}

/// On an empty grid, the positions whose candidates can start a layout are
/// those whose candidates fit in a row.
pub proof fn lemma_fitting_by_size(g: Grid, cs: Seq<CandidateModel>, order: Seq<usize>)
    requires
        empty_grid(g, g.width as int, g.height as int),
        forall|j: int|
            0 <= j < order.len() ==> g.height > 0 || !fits_row(cs[#[trigger] order[j] as int], g.width as int),
    ensures
        fitting_anchors(g, cs, order) == fitting_by_size(cs, order, g.width as int, g.height as int),
    decreases order.len(),
{
    if order.len() > 0 {
        let p = order.drop_last();
        assert forall|j: int| 0 <= j < p.len() implies g.height > 0 || !fits_row(
            cs[#[trigger] p[j] as int],
            g.width as int,
        ) by {
            assert(p[j] == order[j]);
        }
        lemma_fitting_by_size(g, cs, p);
        assert forall|x: int, y: int| 0 <= x < g.width && 0 <= y < g.height implies #[trigger] g.cell_at(
            x,
            y,
        ) is None by {
            lemma_index_in_range(x, y, g.width as int, g.height as int);
            assert(g.cells_view()[y * g.width + x] is None);
        }
        let c = cs[order.last() as int];
        assert(g.height > 0 || !fits_row(cs[order[order.len() - 1] as int], g.width as int));
        lemma_root_on_empty(g, c);
    }
}

/// `g` starts with one of the candidates at the positions `anchors`,
/// placed centred across the middle row.
pub open spec fn anchored_in(g: Grid, cs: Seq<CandidateModel>, anchors: Seq<usize>) -> bool {
    exists|j: int| 0 <= j < anchors.len() && starts_with(g, cs[#[trigger] anchors[j] as int])
}

/// A grid that extends one starting with `c` starts with `c` too.
pub proof fn lemma_starts_with_extends(g: Grid, g2: Grid, c: CandidateModel)
    requires
        starts_with(g, c),
        extends(g, g2),
    ensures
        starts_with(g2, c),
{
    let n = g.entries_model().len() as int;
    assert(g2.entries_model().take(n)[0] == g2.entries_model()[0]);
}

/// The start grids of the search: the first `3 * branch_limit` candidates in
/// random order, then by score, best first; the first `branch_limit` of
/// them that fit, placed centred across the middle row.
fn initial_branches(grid: &Grid, candidates: &[CandidateAnswer], branch_limit: usize, seed: u64) -> (r: Vec<Grid>)
    requires
        grid.wf(),
        branch_limit * 12 <= usize::MAX,
        forall|i: int|
            0 <= i < anchor_count(candidates@.len() as int, branch_limit as int) ==> grid.height > 0
                || !fits_row((#[trigger] candidates@[i])@, grid.width as int),
    ensures
        r@.len() <= branch_limit,
        forall|i: int|
            0 <= i < r@.len() ==> rooted_in(
                *grid,
                slice_view(candidates@),
                anchor_count(candidates@.len() as int, branch_limit as int),
                #[trigger] r@[i],
            ),
        (1 <= branch_limit && 1 <= candidates@.len() && forall|a: int|
            0 <= a < anchor_count(candidates@.len() as int, branch_limit as int) ==> root_placement(
                *grid,
                #[trigger] slice_view(candidates@)[a],
            ) is Some) ==> r@.len() >= 1,
        (forall|a: int|
            0 <= a < anchor_count(candidates@.len() as int, branch_limit as int) ==> root_placement(
                *grid,
                #[trigger] slice_view(candidates@)[a],
            ) is None) ==> r@.len() == 0,
        r@.len() == fitting_anchors(
            *grid,
            slice_view(candidates@),
            chosen_order(slice_view(candidates@), branch_limit as int, seed),
        ).len(),
        forall|i: int|
            0 <= i < r@.len() ==> root_of(
                *grid,
                slice_view(candidates@),
                fitting_anchors(*grid, slice_view(candidates@), chosen_order(slice_view(candidates@), branch_limit as int, seed))[i],
                #[trigger] r@[i],
            ),
        forall|j: int|
            0 <= j < chosen_order(slice_view(candidates@), branch_limit as int, seed).len() ==> #[trigger] chosen_order(
                slice_view(candidates@),
                branch_limit as int,
                seed,
            )[j] < anchor_count(candidates@.len() as int, branch_limit as int),
{
    let ghost cs = slice_view(candidates@);
    let m = if candidates.len() < branch_limit * 3 {
        candidates.len()
    } else {
        branch_limit * 3
    };
    let mut anchors: Vec<usize> = Vec::new();
    let mut i: usize = 0;
    while i < m
        invariant
            i <= m,
            anchors@.len() == i,
            forall|k: int| 0 <= k < i ==> #[trigger] anchors@[k] == k,
        decreases m - i,
    {
        anchors.push(i);
        i = i + 1;
    }
    let ghost listed = anchors@;
    let mut rng = seeded_rng(seed);
    shuffle_vec(&mut anchors, &mut rng);
    proof {
        vstd::seq_lib::to_multiset_len(anchors@);
        vstd::seq_lib::to_multiset_len(listed);
        assert(anchors@.len() == m) by {
            assert(anchors@.to_multiset().len() == listed.to_multiset().len());
        }
        assert forall|q: int| 0 <= q < anchors@.len() implies #[trigger] anchors@[q] < m by {
            let v = anchors@[q];
            vstd::seq_lib::to_multiset_contains(anchors@, v);
            vstd::seq_lib::to_multiset_contains(listed, v);
            assert(anchors@.contains(v));
            let j = choose|j: int| 0 <= j < listed.len() && listed[j] == v;
        }
    }
    let order = order_anchors(candidates, &anchors);
    proof {
        lemma_stable_sort_members(anchors@, quality_order(cs));
        assert forall|q: int| 0 <= q < order@.len() implies #[trigger] order@[q] < m by {
            assert(anchors@.contains(order@[q]));
            let j = choose|j: int| 0 <= j < anchors@.len() && anchors@[j] == order@[q];
            assert(anchors@[j] < m);
        }
    }
    let roots = root_grids(grid, candidates, &order, branch_limit);
    proof {
        assert(listed =~= anchor_indices(m as int));
        assert(chosen_order(cs, branch_limit as int, seed) == tried(order@, branch_limit as int));
        let t = tried(order@, branch_limit as int);
        lemma_fitting(*grid, cs, t);
        assert forall|j: int| 0 <= j < t.len() implies #[trigger] t[j] < m by {
            assert(t[j] == order@[j]);
        }
        assert forall|i: int| 0 <= i < roots@.len() implies rooted_in(
            *grid,
            slice_view(candidates@),
            anchor_count(candidates@.len() as int, branch_limit as int),
            #[trigger] roots@[i],
        ) by {
            let f = fitting_anchors(*grid, cs, t);
            assert(t.contains(f[i]));
            let j = choose|j: int| 0 <= j < t.len() && t[j] == f[i];
            assert(t[j] < m);
            assert(f[i] < anchor_count(candidates@.len() as int, branch_limit as int));
            assert(root_of(*grid, slice_view(candidates@), f[i], roots@[i]));
        }
        if 1 <= branch_limit && 1 <= candidates@.len() && forall|a: int|
            0 <= a < anchor_count(candidates@.len() as int, branch_limit as int) ==> root_placement(
                *grid,
                #[trigger] cs[a],
            ) is Some {
            assert forall|j: int| 0 <= j < t.len() implies root_placement(*grid, cs[#[trigger] t[j] as int]) is Some by {
                assert(t[j] < m);
            }
            assert(t.len() >= 1);
        }
        if forall|a: int|
            0 <= a < anchor_count(candidates@.len() as int, branch_limit as int) ==> root_placement(
                *grid,
                #[trigger] cs[a],
            ) is None {
            assert forall|j: int| 0 <= j < t.len() implies root_placement(*grid, cs[#[trigger] t[j] as int]) is None by {
                assert(t[j] < m);
            }
        }
    }
    roots
}


// ---------------------------------------------------------------------------
// The search over all start grids
// ---------------------------------------------------------------------------

/// The search seed plus `index + 1`, wrapping around at 2^64.
pub open spec fn root_seed_of(seed: u64, index: int) -> u64 {
    ((seed as int + index + 1) % 0x1_0000_0000_0000_0000) as u64
}

/// The seed of the generator for the start grid at `index`: the search
/// seed plus `index + 1`, wrapping around at 2^64.
pub fn root_seed(seed: u64, index: usize) -> (r: u64)
    ensures
        r == root_seed_of(seed, index as int),
{
    let total: u128 = seed as u128 + index as u128 + 1;
    (total % 0x1_0000_0000_0000_0000u128) as u64
}

/// What the search from start grid `root` returns with `timer`: results
/// that `results_ok` allows, and, where the timer's answers are known
/// without the clock, the grids `search_from` gives and the timer it
/// leaves.
pub open spec fn root_result(
    root: Grid,
    cs: Seq<CandidateModel>,
    branch_limit: int,
    top_n: int,
    timer: Timer,
    seed: u64,
    found: Seq<Ranked>,
    explored: int,
    left: Timer,
) -> bool {
    &&& results_ok(root, top_n, found, cs)
    &&& known_budget(timer) is Some ==> known_budget(left) is Some && exists|h2: Seq<nat>, k: nat|
        #![trigger search_from(root, cs, branch_limit, top_n, 1, seed, Seq::<nat>::empty(), known_budget(timer)->0, grids_of(found), known_budget(left)->0, h2, k, (cs.len() - root.entries@.len()) as nat)]
        search_from(
            root,
            cs,
            branch_limit,
            top_n,
            1,
            seed,
            Seq::<nat>::empty(),
            known_budget(timer)->0,
            grids_of(found),
            known_budget(left)->0,
            h2,
            k,
            (cs.len() - root.entries@.len()) as nat,
        ) && explored == sat(1 + k as int)
}

/// Searches from one start grid with its own generator, seeded with
/// `root_seed(seed, index)`, and its own copy of `timer`; gives back the
/// grids found, the nodes explored and the timer left.
fn explore_root(root: Grid, ctx: &SearchContext, seed: u64, index: usize, timer: Timer) -> (r: (
    Vec<Ranked>,
    usize,
    Timer,
))
    requires
        ctx_ok(ctx),
        layout_ok(root),
        drawn_from(root, slice_view(ctx.candidates@)),
        root.entries@.len() >= 1,
    ensures
        root_result(
            root,
            slice_view(ctx.candidates@),
            ctx.branch_limit as int,
            ctx.top_n as int,
            timer,
            root_seed_of(seed, index as int),
            r.0@,
            r.1 as int,
            r.2,
        ),
{
    let mut rng = seeded_rng(root_seed(seed, index));
    let mut explored: usize = 1;
    let mut left = timer;
    let ghost g0 = root;
    let best = dfs(root, ctx, 1, &mut left, &mut explored, &mut rng);
    proof {
        if known_budget(timer) is Some {
            let cs = slice_view(ctx.candidates@);
            let k = choose|k: nat|
                #![trigger search_from(g0, cs, ctx.branch_limit as int, ctx.top_n as int, 1, root_seed_of(seed, index as int), Seq::<nat>::empty(), known_budget(timer)->0, grids_of(best@), known_budget(left)->0, rng.history(), k, (cs.len() - g0.entries@.len()) as nat)]
                search_from(
                    g0,
                    cs,
                    ctx.branch_limit as int,
                    ctx.top_n as int,
                    1,
                    root_seed_of(seed, index as int),
                    Seq::<nat>::empty(),
                    known_budget(timer)->0,
                    grids_of(best@),
                    known_budget(left)->0,
                    rng.history(),
                    k,
                    (cs.len() - g0.entries@.len()) as nat,
                ) && explored == sat(1 + k as int);
        }
    }
    (best, explored, left)
}

/// rayon's `into_par_iter().enumerate().map(..).collect()` on a `Vec`: runs
/// `explore_root` on every start grid (in parallel) and collects the
/// results; an indexed parallel iterator collects into a `Vec` in order, so
/// result `i` is `explore_root`'s result for start grid `i`.
#[verifier::external_body]
fn explore_roots(roots: Vec<Grid>, ctx: &SearchContext, seed: u64, timer: Timer) -> (r: Vec<
    (Vec<Ranked>, usize, Timer),
>)
    requires
        ctx_ok(ctx),
        forall|i: int|
            0 <= i < roots@.len() ==> layout_ok(#[trigger] roots@[i]) && drawn_from(
                roots@[i],
                slice_view(ctx.candidates@),
            ) && roots@[i].entries@.len() >= 1,
    ensures
        r@.len() == roots@.len(),
        forall|i: int|
            0 <= i < r@.len() ==> root_result(
                roots@[i],
                slice_view(ctx.candidates@),
                ctx.branch_limit as int,
                ctx.top_n as int,
                timer,
                root_seed_of(seed, i),
                (#[trigger] r@[i]).0@,
                r@[i].1 as int,
                r@[i].2,
            ),
{
    roots.into_par_iter().enumerate().map(|(index, root)| explore_root(root, ctx, seed, index, timer)).collect()
}

/// The grids of each start grid's search results.
pub open spec fn found_grids(res: Seq<(Vec<Ranked>, usize, Timer)>) -> Seq<Seq<Grid>> {
    res.map_values(|x: (Vec<Ranked>, usize, Timer)| grids_of(x.0@))
}

/// The budget each start grid's search leaves.
pub open spec fn left_budgets(res: Seq<(Vec<Ranked>, usize, Timer)>) -> Seq<Option<nat>> {
    res.map_values(|x: (Vec<Ranked>, usize, Timer)| known_budget(x.2)->0)
}

pub open spec fn solution_grids(v: Seq<Solution>) -> Seq<Grid> {
    v.map_values(|s: Solution| s.grid)
}

/// `g` is an empty `width` by `height` grid followed by successful
/// placements of candidates of `cs`.
pub open spec fn laid_out(g: Grid, width: int, height: int, cs: Seq<CandidateModel>) -> bool {
    exists|start: Grid| #![trigger built(start, g, cs)] empty_grid(start, width, height) && built(start, g, cs)
}

/// What the search returns: one to `top_n` (at least one) layouts of the
/// puzzle's size, best first, with distinct signatures, each scored, valid,
/// made by placing candidates on an empty grid, and started from one of
/// the candidates `start_anchors` chooses with `seed`, placed across the
/// middle row;
/// all report the same nodes explored and time taken.
pub open spec fn solutions_ok(
    width: int,
    height: int,
    cs: Seq<CandidateModel>,
    branch_limit: int,
    top_n: int,
    seed: u64,
    v: Seq<Solution>,
) -> bool {
    &&& 1 <= v.len()
    &&& v.len() <= top_n || v.len() == 1
    &&& ranked_desc(solution_grids(v))
    &&& distinct_signatures(solution_grids(v))
    &&& forall|i: int|
        0 <= i < v.len() ==> {
            &&& (#[trigger] v[i]).score == grid_score(v[i].grid)
            &&& layout_ok(v[i].grid)
            &&& drawn_from(v[i].grid, cs)
            &&& laid_out(v[i].grid, width, height, cs)
            &&& v[i].grid.width == width
            &&& v[i].grid.height == height
            &&& anchored_in(v[i].grid, cs, start_anchors(cs, branch_limit, seed, width, height))
            &&& v[i].explored_nodes == v[0].explored_nodes
            &&& v[i].elapsed == v[0].elapsed
        }
}

/// Every candidate among the first `3 * branch_limit` has a grid form that
/// fits in a row.
pub open spec fn anchors_fit(cs: Seq<CandidateModel>, branch_limit: int, width: int) -> bool {
    forall|a: int| 0 <= a < anchor_count(cs.len() as int, branch_limit) ==> fits_row(#[trigger] cs[a], width)
}

/// No candidate among the first `3 * branch_limit` has a grid form that
/// fits in a row.
pub open spec fn no_anchor_fits(cs: Seq<CandidateModel>, branch_limit: int, width: int) -> bool {
    forall|a: int| 0 <= a < anchor_count(cs.len() as int, branch_limit) ==> !fits_row(#[trigger] cs[a], width)
}

/// The best `top_n` distinct layouts found within the time limit, best first.
///
/// Each start grid places one of the first `3 * branch_limit` candidates
/// (taken in a seeded random order, then by score) centred across the
/// middle row; from each, a depth-first search adds entries, trying the
/// heaviest moves first, until the time is up.
pub fn search_best_n(input: &PuzzleInput, candidates: &[CandidateAnswer], config: &SearchConfig) -> (r: Option<Vec<Solution>>)
    requires
        input.width * input.height <= usize::MAX,
        ready_prefix(slice_view(candidates@), 12 * at_least_one(config.branch_limit)),
        config.branch_limit * 12 <= usize::MAX,
        input.height > 0 || no_anchor_fits(slice_view(candidates@), config.branch_limit as int, input.width as int),
    ensures
        r matches Some(v) ==> solutions_ok(
            input.width as int,
            input.height as int,
            slice_view(candidates@),
            config.branch_limit as int,
            config.top_n as int,
            config.seed,
            v@,
        ),
        (1 <= config.branch_limit && 1 <= candidates@.len() && input.height > 0 && anchors_fit(
            slice_view(candidates@),
            config.branch_limit as int,
            input.width as int,
        )) ==> r is Some,
        no_anchor_fits(slice_view(candidates@), config.branch_limit as int, input.width as int) ==> r is None,
        r is None <==> start_anchors(
            slice_view(candidates@),
            config.branch_limit as int,
            config.seed,
            input.width as int,
            input.height as int,
        ).len() == 0,
{
    let start = clock_now();
    let deadline = deadline_after(&start, config.time_limit);
    search_best_n_with_timer(input, candidates, config, &start, Timer::Clock(deadline))
}

/// `x`, or one if `x` is zero.
pub open spec fn at_least_one(x: usize) -> int {
    if x > 1 {
        x as int
    } else {
        1
    }
}

/// The empty grid `start`, the start grids `rv` (each candidate of
/// `start_anchors`, in order, placed on `start`), the grids `res[i]` the
/// search from `rv[i]` returns with its own generator (seeded with
/// `root_seed_of(seed, i)`) and the budget `b` (see `search_from`), the
/// budget it leaves `left[i]`, and the layouts `v`: the top list offered,
/// in turn, every grid of every `res[i]`.
pub open spec fn searched_exactly(
    width: int,
    height: int,
    cs: Seq<CandidateModel>,
    anchor_limit: int,
    branch_limit: int,
    top_n: int,
    seed: u64,
    b: Option<nat>,
    start: Grid,
    rv: Seq<Grid>,
    res: Seq<Seq<Grid>>,
    left: Seq<Option<nat>>,
    ks: Seq<nat>,
    v: Seq<Grid>,
    explored: int,
) -> bool {
    let anchors = start_anchors(cs, anchor_limit, seed, width, height);
    &&& empty_grid(start, width, height)
    &&& rv.len() == anchors.len()
    &&& rv.len() == res.len()
    &&& rv.len() == left.len()
    &&& rv.len() == ks.len()
    &&& forall|i: int|
        0 <= i < rv.len() ==> {
            &&& root_of(start, cs, anchors[i], #[trigger] rv[i])
            &&& exists|h2: Seq<nat>|
                #![trigger search_from(rv[i], cs, branch_limit, top_n, 1, root_seed_of(seed, i), Seq::<nat>::empty(), b, res[i], left[i], h2, ks[i], (cs.len() - rv[i].entries@.len()) as nat)]
                search_from(
                    rv[i],
                    cs,
                    branch_limit,
                    top_n,
                    1,
                    root_seed_of(seed, i),
                    Seq::<nat>::empty(),
                    b,
                    res[i],
                    left[i],
                    h2,
                    ks[i],
                    (cs.len() - rv[i].entries@.len()) as nat,
                )
        }
    &&& v == fold_subs(Seq::empty(), res, top_n)
    &&& explored == sat(node_total(ks) as int)
}

/// The layouts `v` are what the search gives with the seed `seed` and the
/// budget `b`, and `explored` the entries it placed (see
/// `searched_exactly`).
pub open spec fn found_exactly(
    width: int,
    height: int,
    cs: Seq<CandidateModel>,
    anchor_limit: int,
    branch_limit: int,
    top_n: int,
    seed: u64,
    b: Option<nat>,
    v: Seq<Grid>,
    explored: int,
) -> bool {
    exists|start: Grid, rv: Seq<Grid>, res: Seq<Seq<Grid>>, left: Seq<Option<nat>>, ks: Seq<nat>|
        #![trigger searched_exactly(width, height, cs, anchor_limit, branch_limit, top_n, seed, b, start, rv, res, left, ks, v, explored)]
        searched_exactly(width, height, cs, anchor_limit, branch_limit, top_n, seed, b, start, rv, res, left, ks, v, explored)
}

proof fn lemma_searched_exactly(
    width: int,
    height: int,
    cs: Seq<CandidateModel>,
    anchor_limit: int,
    branch_limit: int,
    top_n: int,
    seed: u64,
    b: Option<nat>,
    start: Grid,
    rv: Seq<Grid>,
    res: Seq<Seq<Grid>>,
    left: Seq<Option<nat>>,
    ks: Seq<nat>,
    v: Seq<Grid>,
    explored: int,
)
    requires
        empty_grid(start, width, height),
        rv.len() == start_anchors(cs, anchor_limit, seed, width, height).len(),
        rv.len() == res.len(),
        rv.len() == left.len(),
        rv.len() == ks.len(),
        forall|i: int|
            0 <= i < rv.len() ==> {
                &&& root_of(start, cs, start_anchors(cs, anchor_limit, seed, width, height)[i], #[trigger] rv[i])
                &&& exists|h2: Seq<nat>|
                    #![trigger search_from(rv[i], cs, branch_limit, top_n, 1, root_seed_of(seed, i), Seq::<nat>::empty(), b, res[i], left[i], h2, ks[i], (cs.len() - rv[i].entries@.len()) as nat)]
                    search_from(
                        rv[i],
                        cs,
                        branch_limit,
                        top_n,
                        1,
                        root_seed_of(seed, i),
                        Seq::<nat>::empty(),
                        b,
                        res[i],
                        left[i],
                        h2,
                        ks[i],
                        (cs.len() - rv[i].entries@.len()) as nat,
                    )
            },
        v == fold_subs(Seq::empty(), res, top_n),
        explored == sat(node_total(ks) as int),
    ensures
        found_exactly(width, height, cs, anchor_limit, branch_limit, top_n, seed, b, v, explored),
{
    assert(searched_exactly(width, height, cs, anchor_limit, branch_limit, top_n, seed, b, start, rv, res, left, ks, v, explored));
}

/// The sum of `e`.
pub open spec fn int_sum(e: Seq<int>) -> int
    decreases e.len(),
{
    if e.len() == 0 {
        0
    } else {
        int_sum(e.drop_last()) + e.last()
    }
}

/// The nodes each start grid's search reports.
pub open spec fn explored_counts(res: Seq<(Vec<Ranked>, usize, Timer)>) -> Seq<int> {
    res.map_values(|x: (Vec<Ranked>, usize, Timer)| x.1 as int)
}

/// Adding counts of `1 + ks[i]`, each saturated, with saturation, is
/// saturating `node_total(ks)`.
proof fn lemma_sum_of_sats(e: Seq<int>, ks: Seq<nat>)
    requires
        e.len() == ks.len(),
        forall|i: int| 0 <= i < e.len() ==> #[trigger] e[i] == sat(1 + ks[i] as int),
    ensures
        sat(int_sum(e)) == sat(node_total(ks) as int),
        int_sum(e) >= 0,
    decreases e.len(),
{
    if e.len() > 0 {
        let e1 = e.drop_last();
        let k1 = ks.drop_last();
        assert forall|i: int| 0 <= i < e1.len() implies #[trigger] e1[i] == sat(1 + k1[i] as int) by {
            assert(e1[i] == e[i]);
            assert(k1[i] == ks[i]);
        }
        lemma_sum_of_sats(e1, k1);
        let y = ks.last() as int + 1;
        assert(e.last() == sat(y));
        lemma_sat_add(node_total(k1) as int, y);
        if int_sum(e1) > usize::MAX {
        } else {
        }
    }
}

/// The search of `search_best_n`, begun at `start`, with its time checks
/// answered by `timer`. Where the timer's answers are known without the
/// clock (no deadline, or a count of checks), the layouts returned are
/// exactly those of `searched_exactly`.
#[verifier::rlimit(80)]
pub fn search_best_n_with_timer(
    input: &PuzzleInput,
    candidates: &[CandidateAnswer],
    config: &SearchConfig,
    start: &Instant,
    timer: Timer,
) -> (r: Option<Vec<Solution>>)
    requires
        input.width * input.height <= usize::MAX,
        ready_prefix(slice_view(candidates@), 12 * at_least_one(config.branch_limit)),
        config.branch_limit * 12 <= usize::MAX,
        input.height > 0 || no_anchor_fits(slice_view(candidates@), config.branch_limit as int, input.width as int),
    ensures
        r matches Some(v) ==> solutions_ok(
            input.width as int,
            input.height as int,
            slice_view(candidates@),
            config.branch_limit as int,
            config.top_n as int,
            config.seed,
            v@,
        ),
        (1 <= config.branch_limit && 1 <= candidates@.len() && input.height > 0 && anchors_fit(
            slice_view(candidates@),
            config.branch_limit as int,
            input.width as int,
        )) ==> r is Some,
        no_anchor_fits(slice_view(candidates@), config.branch_limit as int, input.width as int) ==> r is None,
        r is None <==> start_anchors(
            slice_view(candidates@),
            config.branch_limit as int,
            config.seed,
            input.width as int,
            input.height as int,
        ).len() == 0,
        known_budget(timer) is Some ==> (r matches Some(v) ==> found_exactly(
            input.width as int,
            input.height as int,
            slice_view(candidates@),
            config.branch_limit as int,
            at_least_one(config.branch_limit),
            at_least_one(config.top_n),
            config.seed,
            known_budget(timer)->0,
            solution_grids(v@),
            v@[0].explored_nodes as int,
        )),
{
    let ghost cs = slice_view(candidates@);
    let ghost m = anchor_count(candidates@.len() as int, config.branch_limit as int);
    let branch_limit = if config.branch_limit > 1 {
        config.branch_limit
    } else {
        1
    };
    let top_n = if config.top_n > 1 {
        config.top_n
    } else {
        1
    };
    let context = SearchContext { candidates, branch_limit, top_n };
    let root_grid = Grid::new(input.width, input.height);
    proof {
        assert(root_grid.entries_model().len() == 0);
        assert(empty_grid(root_grid, input.width as int, input.height as int));
        assert forall|a: int| 0 <= a < m implies root_grid.height > 0 || !fits_row(
            (#[trigger] candidates@[a])@,
            root_grid.width as int,
        ) by {
            assert(cs[a] == candidates@[a]@);
        }
        assert forall|a: int| 0 <= a < m implies (root_placement(root_grid, #[trigger] cs[a]) is Some <==> (fits_row(
            cs[a],
            root_grid.width as int,
        ) && root_grid.height > 0)) by {
            assert(cs[a] == candidates@[a]@);
            lemma_root_on_empty(root_grid, cs[a]);
        }
    }
    let roots = initial_branches(&root_grid, candidates, config.branch_limit, config.seed);
    let ghost anchors = start_anchors(cs, config.branch_limit as int, config.seed, input.width as int, input.height as int);
    proof {
        let co = chosen_order(cs, config.branch_limit as int, config.seed);
        assert forall|j: int| 0 <= j < co.len() implies root_grid.height > 0 || !fits_row(
            cs[#[trigger] co[j] as int],
            root_grid.width as int,
        ) by {
            assert(co[j] < m);
            assert(cs[co[j] as int] == candidates@[co[j] as int]@);
        }
        lemma_fitting_by_size(root_grid, cs, co);
        lemma_fitting(root_grid, cs, co);
        assert(fitting_anchors(root_grid, cs, co) == anchors);
        assert forall|i: int| 0 <= i < anchors.len() implies #[trigger] anchors[i] < m by {
            assert(co.contains(anchors[i]));
            let j = choose|j: int| 0 <= j < co.len() && co[j] == anchors[i];
            assert(co[j] < m);
        }
    }
    if roots.len() == 0 {
        return None;
    }
    let ghost rv = roots@;
    proof {
        assert forall|i: int| 0 <= i < rv.len() implies layout_ok(#[trigger] rv[i]) && drawn_from(rv[i], cs)
            && rv[i].entries@.len() == 1 && built(root_grid, rv[i], cs) && root_of(root_grid, cs, anchors[i], rv[i])
            && starts_with(rv[i], cs[anchors[i] as int]) by {
            let a = anchors[i];
            assert(a < m);
            assert(a < 12 * at_least_one(config.branch_limit));
            assert(cand_ready(cs[a as int]));
            lemma_root_ready(root_grid, cs, a, rv[i]);
        }
    }
    let results = explore_roots(roots, &context, config.seed, timer);
    let ghost res = results@;
    let mut total_nodes: usize = 0;
    let mut best: Vec<Ranked> = Vec::new();
    assert(found_grids(res).take(0) =~= Seq::<Seq<Grid>>::empty());
    assert(grids_of(best@) =~= Seq::<Grid>::empty());
    let mut rest = results;
    let ghost mut t: int = 0;
    while rest.len() > 0
        invariant
            0 <= t <= res.len(),
            res.len() == rv.len(),
            rv.len() >= 1,
            rest@ == res.skip(t),
            1 <= top_n,
            top_n == context.top_n,
            cs == slice_view(context.candidates@),
            context.top_n == (if config.top_n > 1 { config.top_n } else { 1 }),
            m <= cs.len(),
            rv.len() == anchors.len(),
            forall|i: int| 0 <= i < anchors.len() ==> #[trigger] anchors[i] < m,
            forall|i: int|
                0 <= i < rv.len() ==> layout_ok(#[trigger] rv[i]) && root_of(root_grid, cs, anchors[i], rv[i])
                    && starts_with(rv[i], cs[anchors[i] as int]) && rv[i].entries@.len() == 1 && built(
                    root_grid,
                    rv[i],
                    cs,
                ),
            empty_grid(root_grid, input.width as int, input.height as int),
            forall|i: int|
                0 <= i < res.len() ==> root_result(
                    rv[i],
                    cs,
                    branch_limit as int,
                    top_n as int,
                    timer,
                    root_seed_of(config.seed, i),
                    (#[trigger] res[i]).0@,
                    res[i].1 as int,
                    res[i].2,
                ),
            branch_limit == context.branch_limit,
            kept_ok(root_grid, top_n as int, best@, cs),
            grids_of(best@) == fold_subs(Seq::empty(), found_grids(res).take(t), top_n as int),
            total_nodes == sat(int_sum(explored_counts(res).take(t))),
            int_sum(explored_counts(res).take(t)) >= 0,
            t >= 1 ==> best@.len() >= 1,
            forall|i: int| 0 <= i < best@.len() ==> anchored_in((#[trigger] best@[i]).grid, cs, anchors),
        decreases rest.len(),
    {
        let (found, explored, _left) = rest.remove(0);
        proof {
            assert(res.skip(t).drop_first() =~= res.skip(t + 1));
            assert(res[t] == (found, explored, _left));
            assert(results_ok(rv[t], top_n as int, found@, cs));
            assert(found_grids(res).take(t + 1).drop_last() =~= found_grids(res).take(t));
            assert(found_grids(res).take(t + 1).last() == grids_of(found@));
        }
        proof {
            assert(explored_counts(res).take(t + 1).drop_last() =~= explored_counts(res).take(t));
            assert(explored_counts(res).take(t + 1).last() == explored as int);
            lemma_sat_add(int_sum(explored_counts(res).take(t)), explored as int);
        }
        total_nodes = total_nodes.saturating_add(explored);
        let ghost before = best@;
        let ghost fv = found@;
        let ghost root = rv[t];
        proof {
            assert(layout_ok(root) && root_of(root_grid, cs, anchors[t], root));
            let a = anchors[t];
            assert(a < m);
            let c = cs[a as int];
            assert(cs.contains(c));
            assert forall|q: int| 0 <= q < fv.len() implies ranked_ok(#[trigger] fv[q]) && layout_ok(fv[q].grid)
                && drawn_from(fv[q].grid, cs) && built(root_grid, fv[q].grid, cs) && extends(root, fv[q].grid) by {
                lemma_built_well_laid(root, fv[q].grid, cs);
                lemma_built_prepend(
                    root_grid,
                    root,
                    fv[q].grid,
                    c,
                    root_x(root_grid, c),
                    root_grid.height as int / 2,
                    Direction::Across,
                    cs,
                );
            }
        }
        absorb(&mut best, found, Ghost(root_grid), top_n, Ghost(cs));
        proof {
            assert forall|i: int| 0 <= i < best@.len() implies anchored_in((#[trigger] best@[i]).grid, cs, anchors) by {
                let g = best@[i].grid;
                if grids_of(before).contains(g) {
                    let j = choose|j: int| 0 <= j < grids_of(before).len() && grids_of(before)[j] == g;
                    assert(before[j].grid == g);
                } else {
                    assert(grids_of(fv).contains(g));
                    let j = choose|j: int| 0 <= j < grids_of(fv).len() && grids_of(fv)[j] == g;
                    assert(fv[j].grid == g);
                    assert(extends(root, g));
                    lemma_starts_with_extends(root, g, cs[anchors[t] as int]);
                }
            }
            t = t + 1;
        }
    }
    if best.len() == 0 {
        return None;
    }
    let ghost exact_grids = grids_of(best@);
    proof {
        assert(found_grids(res).take(res.len() as int) =~= found_grids(res));
        assert(explored_counts(res).take(res.len() as int) =~= explored_counts(res));
    }
    let elapsed = elapsed_since(start);
    let ghost bv = best@;
    let mut solutions: Vec<Solution> = Vec::new();
    let mut k: usize = 0;
    while best.len() > 0
        invariant
            best@ == bv.skip(k as int),
            k <= bv.len(),
            solutions@.len() == k,
            kept_ok(root_grid, top_n as int, bv, cs),
            forall|i: int| 0 <= i < bv.len() ==> anchored_in((#[trigger] bv[i]).grid, cs, anchors),
            forall|i: int|
                0 <= i < k ==> {
                    &&& (#[trigger] solutions@[i]).grid == bv[i].grid
                    &&& solutions@[i].score == bv[i].score
                    &&& solutions@[i].elapsed == elapsed
                    &&& solutions@[i].explored_nodes == total_nodes
                },
        decreases best.len(),
    {
        let item = best.remove(0);
        proof {
            assert(bv.skip(k as int).drop_first() =~= bv.skip(k + 1));
            assert(item == bv[k as int]);
        }
        solutions.push(Solution { grid: item.grid, score: item.score, elapsed, explored_nodes: total_nodes });
        k = k + 1;
    }
    proof {
        assert(solution_grids(solutions@) =~= grids_of(bv));
        assert forall|i: int| 0 <= i < solutions@.len() implies {
            &&& (#[trigger] solutions@[i]).score == grid_score(solutions@[i].grid)
            &&& layout_ok(solutions@[i].grid)
            &&& laid_out(solutions@[i].grid, input.width as int, input.height as int, cs)
            &&& solutions@[i].grid.width == input.width
            &&& solutions@[i].grid.height == input.height
        } by {
            assert(ranked_ok(bv[i]));
            let g = bv[i].grid;
            assert(built(root_grid, g, cs));
            lemma_empty_well_laid(root_grid, input.width as int, input.height as int);
            lemma_built_well_laid(root_grid, g, cs);
        }
        if known_budget(timer) is Some {
            let b = known_budget(timer)->0;
            let fg = found_grids(res);
            let lb = left_budgets(res);
            let ks = Seq::new(
                rv.len(),
                |i: int|
                    (choose|h2: Seq<nat>, k: nat|
                        #![trigger search_from(rv[i], cs, branch_limit as int, top_n as int, 1, root_seed_of(config.seed, i), Seq::<nat>::empty(), b, fg[i], lb[i], h2, k, (cs.len() - rv[i].entries@.len()) as nat)]
                        search_from(
                            rv[i],
                            cs,
                            branch_limit as int,
                            top_n as int,
                            1,
                            root_seed_of(config.seed, i),
                            Seq::<nat>::empty(),
                            b,
                            fg[i],
                            lb[i],
                            h2,
                            k,
                            (cs.len() - rv[i].entries@.len()) as nat,
                        ) && res[i].1 == sat(1 + k as int)).1,
            );
            let e = explored_counts(res);
            assert forall|i: int| 0 <= i < rv.len() implies {
                &&& root_of(root_grid, cs, anchors[i], #[trigger] rv[i])
                &&& exists|h2: Seq<nat>|
                    #![trigger search_from(rv[i], cs, branch_limit as int, top_n as int, 1, root_seed_of(config.seed, i), Seq::<nat>::empty(), b, fg[i], lb[i], h2, ks[i], (cs.len() - rv[i].entries@.len()) as nat)]
                    search_from(
                        rv[i],
                        cs,
                        branch_limit as int,
                        top_n as int,
                        1,
                        root_seed_of(config.seed, i),
                        Seq::<nat>::empty(),
                        b,
                        fg[i],
                        lb[i],
                        h2,
                        ks[i],
                        (cs.len() - rv[i].entries@.len()) as nat,
                    )
                &&& e[i] == sat(1 + ks[i] as int)
            } by {
                assert(root_result(
                    rv[i],
                    cs,
                    branch_limit as int,
                    top_n as int,
                    timer,
                    root_seed_of(config.seed, i),
                    res[i].0@,
                    res[i].1 as int,
                    res[i].2,
                ));
                assert(fg[i] == grids_of(res[i].0@));
                assert(lb[i] == known_budget(res[i].2)->0);
                assert(e[i] == res[i].1 as int);
                let pair = choose|h2: Seq<nat>, k: nat|
                    #![trigger search_from(rv[i], cs, branch_limit as int, top_n as int, 1, root_seed_of(config.seed, i), Seq::<nat>::empty(), b, fg[i], lb[i], h2, k, (cs.len() - rv[i].entries@.len()) as nat)]
                    search_from(
                        rv[i],
                        cs,
                        branch_limit as int,
                        top_n as int,
                        1,
                        root_seed_of(config.seed, i),
                        Seq::<nat>::empty(),
                        b,
                        fg[i],
                        lb[i],
                        h2,
                        k,
                        (cs.len() - rv[i].entries@.len()) as nat,
                    ) && res[i].1 == sat(1 + k as int);
                assert(ks[i] == pair.1);
            }
            lemma_sum_of_sats(e, ks);
            assert(solutions@[0].explored_nodes == total_nodes);
            assert(at_least_one(config.branch_limit) == branch_limit as int);
            assert(at_least_one(config.top_n) == top_n as int);
            lemma_searched_exactly(
                input.width as int,
                input.height as int,
                slice_view(candidates@),
                config.branch_limit as int,
                at_least_one(config.branch_limit),
                at_least_one(config.top_n),
                config.seed,
                known_budget(timer)->0,
                root_grid,
                rv,
                fg,
                lb,
                ks,
                solution_grids(solutions@),
                solutions@[0].explored_nodes as int,
            );
        }
    }
    Some(solutions)
}

} // verus!
