//! The text report: each solution's grid, its clue lists and its statistics.
use vstd::prelude::*;
use crate::grid::{all_clue_defined, numbered_view, numbering, Direction, Grid, NumberedEntry, NumberedModel};
use crate::search::{Score, SearchConfig, Solution};
use crate::text::{decimal, push_decimal, push_signed_decimal, push_str, signed_decimal, string_of};
use std::time::Duration;

verus! {

/// What `Duration::as_millis` gives for `d`.
pub uninterp spec fn duration_millis(d: Duration) -> u128;

/// `Duration::as_millis`: the whole milliseconds of `d`, a function of `d`
/// alone.
#[verifier::external_body]
fn millis(d: &Duration) -> (r: u128)
    ensures
        r == duration_millis(*d),
{
    d.as_millis()
}

// ---------------------------------------------------------------------------
// The text, stated
// ---------------------------------------------------------------------------

/// A cell as printed: its letter, or a filled square when empty.
pub open spec fn cell_char(c: Option<char>) -> char {
    match c {
        Some(ch) => ch,
        None => '■',
    }
}

/// The first `n` cells of row `y`, separated by spaces.
pub open spec fn row_text(g: Grid, y: int, n: int) -> Seq<char>
    decreases n,
{
    if n <= 0 {
        Seq::empty()
    } else {
        row_text(g, y, n - 1) + seq![cell_char(g.cell_at(n - 1, y))] + (if n < g.width {
            seq![' ']
        } else {
            Seq::empty()
        })
    }
}

/// The first `n` rows of the grid, one line each.
pub open spec fn grid_text(g: Grid, n: int) -> Seq<char>
    decreases n,
{
    if n <= 0 {
        Seq::empty()
    } else {
        grid_text(g, n - 1) + row_text(g, n - 1, g.width as int) + seq!['\n']
    }
}

pub open spec fn dir_tag(d: Direction) -> Seq<char> {
    match d {
        Direction::Across => seq!['A'],
        Direction::Down => seq!['D'],
    }
}

/// `N. (x,y) [A] clue | answer=ANSWER | source=Title - Artist`, with the
/// start cell counted from 1.
pub open spec fn entry_line(e: NumberedModel) -> Seq<char> {
    decimal(e.number) + ". ("@ + decimal(e.x + 1) + ","@ + decimal(e.y + 1) + ") ["@ + dir_tag(
        e.direction,
    ) + "] "@ + e.clue + " | answer="@ + e.answer + " | source="@ + e.source + seq!['\n']
}

/// The length of a clue line up to its direction tag: the number, `. (`,
/// the start cell counted from 1 and `) [`.
pub open spec fn tag_position(e: NumberedModel) -> int {
    (decimal(e.number) + ". ("@ + decimal(e.x + 1) + ","@ + decimal(e.y + 1) + ") ["@).len() as int
}

/// A clue line carries `[D]` for a down entry and `[A]` for an across
/// entry, after the number and the start cell.
pub proof fn lemma_entry_line_tag(e: NumberedModel)
    ensures
        e.direction == Direction::Down ==> entry_line(e)[tag_position(e)] == 'D',
        e.direction == Direction::Across ==> entry_line(e)[tag_position(e)] == 'A',
        entry_line(e)[tag_position(e) - 1] == '[',
        entry_line(e)[tag_position(e) + 1] == ']',
{
    reveal_strlit(") [");
    reveal_strlit("] ");
    let pre = decimal(e.number) + ". ("@ + decimal(e.x + 1) + ","@ + decimal(e.y + 1) + ") ["@;
    let p = pre.len() as int;
    let t = dir_tag(e.direction);
    let rest = "] "@ + e.clue + " | answer="@ + e.answer + " | source="@ + e.source + seq!['\n'];
    assert(entry_line(e) =~= pre + t + rest);
    assert(t.len() == 1);
    assert((pre + t + rest)[p] == t[0]);
    assert((pre + t + rest)[p - 1] == pre[p - 1]);
    assert(pre[p - 1] == ") ["@[2]);
    assert((pre + t + rest)[p + 1] == rest[0]);
    assert(rest[0] == "] "@[0]);
}

/// The entries listed under a direction are those of that direction:
/// every line of the down section is tagged `[D]`, every line of the
/// across section `[A]`.
pub proof fn lemma_sections_tagged(es: Seq<NumberedModel>)
    ensures
        forall|i: int|
            0 <= i < in_direction(es, Direction::Down).len() ==> {
                &&& (#[trigger] in_direction(es, Direction::Down)[i]).direction == Direction::Down
                &&& entry_line(in_direction(es, Direction::Down)[i])[tag_position(
                    in_direction(es, Direction::Down)[i],
                )] == 'D'
            },
        forall|i: int|
            0 <= i < in_direction(es, Direction::Across).len() ==> {
                &&& (#[trigger] in_direction(es, Direction::Across)[i]).direction == Direction::Across
                &&& entry_line(in_direction(es, Direction::Across)[i])[tag_position(
                    in_direction(es, Direction::Across)[i],
                )] == 'A'
            },
{
    lemma_in_direction_only(es, Direction::Down);
    lemma_in_direction_only(es, Direction::Across);
    assert forall|i: int| 0 <= i < in_direction(es, Direction::Down).len() implies entry_line(
        #[trigger] in_direction(es, Direction::Down)[i],
    )[tag_position(in_direction(es, Direction::Down)[i])] == 'D' by {
        lemma_entry_line_tag(in_direction(es, Direction::Down)[i]);
    }
    assert forall|i: int| 0 <= i < in_direction(es, Direction::Across).len() implies entry_line(
        #[trigger] in_direction(es, Direction::Across)[i],
    )[tag_position(in_direction(es, Direction::Across)[i])] == 'A' by {
        lemma_entry_line_tag(in_direction(es, Direction::Across)[i]);
    }
}

/// Every clue line goes to exactly one of the two sections: the across
/// and down sections together list as many entries as the clue list.
pub proof fn lemma_sections_cover(es: Seq<NumberedModel>)
    ensures
        in_direction(es, Direction::Across).len() + in_direction(es, Direction::Down).len() == es.len(),
    decreases es.len(),
{
    if es.len() > 0 {
        lemma_sections_cover(es.drop_last());
    }
}

proof fn lemma_in_direction_only(es: Seq<NumberedModel>, d: Direction)
    ensures
        forall|i: int| 0 <= i < in_direction(es, d).len() ==> (#[trigger] in_direction(es, d)[i]).direction == d,
    decreases es.len(),
{
    if es.len() > 0 {
        lemma_in_direction_only(es.drop_last(), d);
    }
}

pub open spec fn lines_text(es: Seq<NumberedModel>) -> Seq<char>
    decreases es.len(),
{
    if es.len() == 0 {
        Seq::empty()
    } else {
        lines_text(es.drop_last()) + entry_line(es.last())
    }
}

pub open spec fn section_text(title: Seq<char>, es: Seq<NumberedModel>) -> Seq<char> {
    title + seq!['\n'] + lines_text(es)
}

/// The entries of direction `d`, in order.
pub open spec fn in_direction(es: Seq<NumberedModel>, d: Direction) -> Seq<NumberedModel>
    decreases es.len(),
{
    if es.len() == 0 {
        Seq::empty()
    } else if es.last().direction == d {
        in_direction(es.drop_last(), d).push(es.last())
    } else {
        in_direction(es.drop_last(), d)
    }
}

/// `name` followed by `v` in decimal.
pub open spec fn field(name: Seq<char>, v: nat) -> Seq<char> {
    name + decimal(v)
}

pub open spec fn score_text(s: Score) -> Seq<char> {
    field("filled_cells="@, s.filled_cells as nat) + field(" crossings="@, s.crossings as nat) + field(
        " hub_entries="@,
        s.hub_entries as nat,
    ) + field(" title_entries="@, s.title_entries as nat) + field(" snippet_entries="@, s.snippet_entries as nat)
        + field(" metadata_blank_entries="@, s.metadata_blank_entries as nat) + " clue_quality="@
        + signed_decimal(s.clue_quality as int)
}

pub open spec fn run_text(explored: nat, elapsed_ms: nat, seed: nat, branch_limit: nat, limit_ms: nat) -> Seq<char> {
    field(" explored_nodes="@, explored) + field(" elapsed_ms="@, elapsed_ms) + field(" seed="@, seed) + field(
        " branch_limit="@,
        branch_limit,
    ) + field(" time_limit_ms="@, limit_ms)
}

/// The statistics line: the score's fields, the nodes explored, the time
/// taken and the settings.
pub open spec fn stats_text(
    s: Score,
    explored: nat,
    elapsed_ms: nat,
    seed: nat,
    branch_limit: nat,
    limit_ms: nat,
) -> Seq<char> {
    "Stats\n"@ + score_text(s) + run_text(explored, elapsed_ms, seed, branch_limit, limit_ms) + seq!['\n']
}

pub open spec fn header_text(i: int) -> Seq<char> {
    (if i > 0 {
        seq!['\n']
    } else {
        Seq::empty()
    }) + "Solution "@ + decimal((i + 1) as nat) + seq!['\n'] + "Grid\n"@
}

pub open spec fn clues_text(es: Seq<NumberedModel>) -> Seq<char> {
    seq!['\n'] + section_text("Across"@, in_direction(es, Direction::Across)) + seq!['\n'] + section_text(
        "Down"@,
        in_direction(es, Direction::Down),
    ) + seq!['\n']
}

/// Solution `i` (counted from 0) as printed.
pub open spec fn solution_text(i: int, sol: Solution, config: SearchConfig, elapsed_ms: nat, limit_ms: nat) -> Seq<char> {
    header_text(i) + grid_text(sol.grid, sol.grid.height as int) + clues_text(numbering(sol.grid.entries_model()))
        + stats_text(
        sol.score,
        sol.explored_nodes as nat,
        elapsed_ms,
        config.seed as nat,
        config.branch_limit as nat,
        limit_ms,
    )
}

/// The whole report, given each solution's elapsed milliseconds and the
/// time limit in milliseconds.
pub open spec fn report_text(sols: Seq<Solution>, config: SearchConfig, elapsed_ms: Seq<u128>, limit_ms: nat) -> Seq<char>
    decreases sols.len(),
{
    if sols.len() == 0 {
        Seq::empty()
    } else {
        report_text(sols.drop_last(), config, elapsed_ms, limit_ms) + solution_text(
            sols.len() - 1,
            sols.last(),
            config,
            elapsed_ms[sols.len() - 1] as nat,
            limit_ms,
        )
    }
}

/// A grid that can be printed: one cell per position, every clue readable.
pub open spec fn printable(g: Grid) -> bool {
    g.wf() && all_clue_defined(g.entries_model())
}

pub open spec fn all_printable(sols: Seq<Solution>) -> bool {
    forall|i: int| 0 <= i < sols.len() ==> printable((#[trigger] sols[i]).grid)
}

// ---------------------------------------------------------------------------
// Building the text
// ---------------------------------------------------------------------------

fn push_row(out: &mut Vec<char>, g: &Grid, y: usize)
    requires
        g.wf(),
        y < g.height,
    ensures
        final(out)@ == old(out)@ + row_text(*g, y as int, g.width as int),
{
    let ghost start = old(out)@;
    let mut x: usize = 0;
    while x < g.width
        invariant
            g.wf(),
            y < g.height,
            x <= g.width,
            out@ == start + row_text(*g, y as int, x as int),
        decreases g.width - x,
    {
        proof {
            crate::grid::lemma_index_in_range(x as int, y as int, g.width as int, g.height as int);
        }
        let c = match g.cell(x, y) {
            Some(ch) => ch,
            None => '■',
        };
        out.push(c);
        if x + 1 < g.width {
            out.push(' ');
        }
        assert(out@ =~= start + row_text(*g, y as int, x + 1));
        x = x + 1;
    }
}

fn push_grid(out: &mut Vec<char>, g: &Grid)
    requires
        g.wf(),
    ensures
        final(out)@ == old(out)@ + grid_text(*g, g.height as int),
{
    let ghost start = old(out)@;
    let mut y: usize = 0;
    while y < g.height
        invariant
            g.wf(),
            y <= g.height,
            out@ == start + grid_text(*g, y as int),
        decreases g.height - y,
    {
        let ghost before = out@;
        push_row(out, g, y);
        out.push('\n');
        assert(out@ =~= start + grid_text(*g, y + 1));
        y = y + 1;
    }
}

fn push_entry_line(out: &mut Vec<char>, e: &NumberedEntry)
    ensures
        final(out)@ == old(out)@ + entry_line(e@),
{
    let ghost start = old(out)@;
    push_decimal(out, e.number as u128);
    push_str(out, ". (");
    push_decimal(out, e.x as u128 + 1);
    push_str(out, ",");
    push_decimal(out, e.y as u128 + 1);
    push_str(out, ") [");
    match e.direction {
        Direction::Across => out.push('A'),
        Direction::Down => out.push('D'),
    }
    push_str(out, "] ");
    push_str(out, e.clue.as_str());
    push_str(out, " | answer=");
    push_str(out, e.answer.as_str());
    push_str(out, " | source=");
    push_str(out, e.source.as_str());
    out.push('\n');
    assert(out@ =~= start + entry_line(e@));
}

fn push_section(out: &mut Vec<char>, title: &str, entries: &Vec<NumberedEntry>)
    ensures
        final(out)@ == old(out)@ + section_text(title@, numbered_view(entries@)),
{
    let ghost start = old(out)@;
    let ghost es = numbered_view(entries@);
    push_str(out, title);
    out.push('\n');
    let ghost head = out@;
    let mut i: usize = 0;
    assert(es.take(0) =~= Seq::<NumberedModel>::empty());
    while i < entries.len()
        invariant
            i <= entries@.len(),
            es == numbered_view(entries@),
            out@ == head + lines_text(es.take(i as int)),
        decreases entries.len() - i,
    {
        push_entry_line(out, &entries[i]);
        assert(es.take(i + 1).drop_last() =~= es.take(i as int));
        assert(es.take(i + 1).last() == entries@[i as int]@);
        assert(out@ =~= head + lines_text(es.take(i + 1)));
        i = i + 1;
    }
    assert(es.take(entries.len() as int) =~= es);
    assert(out@ =~= start + section_text(title@, es));
}

/// Splits the clue list into the across and the down entries, each in order.
fn split_directions(entries: Vec<NumberedEntry>) -> (r: (Vec<NumberedEntry>, Vec<NumberedEntry>))
    ensures
        numbered_view(r.0@) == in_direction(numbered_view(entries@), Direction::Across),
        numbered_view(r.1@) == in_direction(numbered_view(entries@), Direction::Down),
{
    let ghost es = numbered_view(entries@);
    let mut across: Vec<NumberedEntry> = Vec::new();
    let mut down: Vec<NumberedEntry> = Vec::new();
    let mut rest = entries;
    let ghost mut t: int = 0;
    assert(es.take(0) =~= Seq::<NumberedModel>::empty());
    while rest.len() > 0
        invariant
            0 <= t <= es.len(),
            rest@.len() == es.len() - t,
            numbered_view(rest@) == es.skip(t),
            numbered_view(across@) == in_direction(es.take(t), Direction::Across),
            numbered_view(down@) == in_direction(es.take(t), Direction::Down),
        decreases rest.len(),
    {
        let ghost rv = numbered_view(rest@);
        let ghost old_rest = rest@;
        let e = rest.remove(0);
        proof {
            assert(rv[0] == e@);
            assert(es.skip(t)[0] == es[t]);
            assert forall|k: int| 0 <= k < rest@.len() implies numbered_view(rest@)[k] == es.skip(t + 1)[k] by {
                assert(rest@[k] == old_rest[k + 1]);
                assert(rv[k + 1] == es.skip(t)[k + 1]);
            }
            assert(numbered_view(rest@) =~= es.skip(t + 1));
            assert(es.take(t + 1).drop_last() =~= es.take(t));
            assert(es.take(t + 1).last() == e@);
        }
        let ghost ev = e@;
        let ghost a0 = numbered_view(across@);
        let ghost d0 = numbered_view(down@);
        match e.direction {
            Direction::Across => {
                across.push(e);
                assert(numbered_view(across@) =~= a0.push(ev));
            },
            Direction::Down => {
                down.push(e);
                assert(numbered_view(down@) =~= d0.push(ev));
            },
        }
        proof {
            t = t + 1;
        }
    }
    assert(es.take(t) =~= es);
    (across, down)
}

fn push_field(out: &mut Vec<char>, name: &str, v: u128)
    ensures
        final(out)@ == old(out)@ + field(name@, v as nat),
{
    let ghost start = old(out)@;
    push_str(out, name);
    push_decimal(out, v);
    assert(out@ =~= start + field(name@, v as nat));
}

fn push_score(out: &mut Vec<char>, s: Score)
    ensures
        final(out)@ == old(out)@ + score_text(s),
{
    let ghost start = old(out)@;
    push_field(out, "filled_cells=", s.filled_cells as u128);
    push_field(out, " crossings=", s.crossings as u128);
    let ghost a = field("filled_cells="@, s.filled_cells as nat) + field(" crossings="@, s.crossings as nat);
    assert(out@ =~= start + a);
    push_field(out, " hub_entries=", s.hub_entries as u128);
    push_field(out, " title_entries=", s.title_entries as u128);
    let ghost b = a + field(" hub_entries="@, s.hub_entries as nat) + field(" title_entries="@, s.title_entries as nat);
    assert(out@ =~= start + b);
    push_field(out, " snippet_entries=", s.snippet_entries as u128);
    push_field(out, " metadata_blank_entries=", s.metadata_blank_entries as u128);
    let ghost c = b + field(" snippet_entries="@, s.snippet_entries as nat) + field(
        " metadata_blank_entries="@,
        s.metadata_blank_entries as nat,
    );
    assert(out@ =~= start + c);
    push_str(out, " clue_quality=");
    push_signed_decimal(out, s.clue_quality as i64);
    assert(out@ =~= start + score_text(s));
}

fn push_run(out: &mut Vec<char>, explored: usize, elapsed_ms: u128, config: &SearchConfig, limit_ms: u128)
    ensures
        final(out)@ == old(out)@ + run_text(
            explored as nat,
            elapsed_ms as nat,
            config.seed as nat,
            config.branch_limit as nat,
            limit_ms as nat,
        ),
{
    let ghost start = old(out)@;
    push_field(out, " explored_nodes=", explored as u128);
    push_field(out, " elapsed_ms=", elapsed_ms);
    let ghost a = field(" explored_nodes="@, explored as nat) + field(" elapsed_ms="@, elapsed_ms as nat);
    assert(out@ =~= start + a);
    push_field(out, " seed=", config.seed as u128);
    push_field(out, " branch_limit=", config.branch_limit as u128);
    let ghost b = a + field(" seed="@, config.seed as nat) + field(" branch_limit="@, config.branch_limit as nat);
    assert(out@ =~= start + b);
    push_field(out, " time_limit_ms=", limit_ms);
    assert(out@ =~= start + run_text(
        explored as nat,
        elapsed_ms as nat,
        config.seed as nat,
        config.branch_limit as nat,
        limit_ms as nat,
    ));
}

fn push_stats(out: &mut Vec<char>, score: Score, explored_nodes: usize, elapsed_ms: u128, config: &SearchConfig, limit_ms: u128)
    ensures
        final(out)@ == old(out)@ + stats_text(
            score,
            explored_nodes as nat,
            elapsed_ms as nat,
            config.seed as nat,
            config.branch_limit as nat,
            limit_ms as nat,
        ),
{
    let ghost start = old(out)@;
    push_str(out, "Stats\n");
    push_score(out, score);
    push_run(out, explored_nodes, elapsed_ms, config, limit_ms);
    out.push('\n');
    assert(out@ =~= start + stats_text(
        score,
        explored_nodes as nat,
        elapsed_ms as nat,
        config.seed as nat,
        config.branch_limit as nat,
        limit_ms as nat,
    ));
}

fn push_header(out: &mut Vec<char>, index: usize)
    ensures
        final(out)@ == old(out)@ + header_text(index as int),
{
    let ghost start = old(out)@;
    if index > 0 {
        out.push('\n');
    }
    push_str(out, "Solution ");
    push_decimal(out, index as u128 + 1);
    out.push('\n');
    push_str(out, "Grid\n");
    assert(out@ =~= start + header_text(index as int));
}

fn push_clues(out: &mut Vec<char>, g: &Grid)
    requires
        all_clue_defined(g.entries_model()),
    ensures
        final(out)@ == old(out)@ + clues_text(numbering(g.entries_model())),
{
    let ghost start = old(out)@;
    let entries = g.numbered_entries();
    let (across, down) = split_directions(entries);
    out.push('\n');
    push_section(out, "Across", &across);
    let ghost es = numbering(g.entries_model());
    let ghost a = seq!['\n'] + section_text("Across"@, in_direction(es, Direction::Across));
    assert(out@ =~= start + a);
    out.push('\n');
    push_section(out, "Down", &down);
    out.push('\n');
    assert(out@ =~= start + clues_text(es));
}

fn push_solution(out: &mut Vec<char>, index: usize, sol: &Solution, config: &SearchConfig, elapsed_ms: u128, limit_ms: u128)
    requires
        printable(sol.grid),
    ensures
        final(out)@ == old(out)@ + solution_text(index as int, *sol, *config, elapsed_ms as nat, limit_ms as nat),
{
    let ghost start = old(out)@;
    push_header(out, index);
    push_grid(out, &sol.grid);
    let ghost a = header_text(index as int) + grid_text(sol.grid, sol.grid.height as int);
    assert(out@ =~= start + a);
    push_clues(out, &sol.grid);
    push_stats(out, sol.score, sol.explored_nodes, elapsed_ms, config, limit_ms);
    assert(out@ =~= start + solution_text(index as int, *sol, *config, elapsed_ms as nat, limit_ms as nat));
}

/// The report, given each solution's elapsed time and the time limit in
/// milliseconds.
pub fn render_report(solutions: &[Solution], config: &SearchConfig, elapsed_ms: &Vec<u128>, time_limit_ms: u128) -> (r: String)
    requires
        elapsed_ms@.len() == solutions@.len(),
        all_printable(solutions@),
    ensures
        r@ == report_text(solutions@, *config, elapsed_ms@, time_limit_ms as nat),
{
    let ghost sols = solutions@;
    let mut out: Vec<char> = Vec::new();
    let mut i: usize = 0;
    assert(sols.take(0) =~= Seq::<Solution>::empty());
    while i < solutions.len()
        invariant
            i <= sols.len(),
            sols == solutions@,
            elapsed_ms@.len() == sols.len(),
            all_printable(sols),
            out@ == report_text(sols.take(i as int), *config, elapsed_ms@, time_limit_ms as nat),
        decreases solutions.len() - i,
    {
        assert(printable(sols[i as int].grid));
        push_solution(&mut out, i, &solutions[i], config, elapsed_ms[i], time_limit_ms);
        assert(sols.take(i + 1).drop_last() =~= sols.take(i as int));
        assert(sols.take(i + 1).last() == sols[i as int]);
        i = i + 1;
    }
    assert(sols.take(i as int) =~= sols);
    string_of(&out)
}

pub open spec fn elapsed_millis(sols: Seq<Solution>) -> Seq<u128> {
    sols.map_values(|s: Solution| duration_millis(s.elapsed))
}

/// The printed report of the solutions: for each, its number, the grid
/// (a filled square for an empty cell), the across and down clues and the
/// statistics line.
pub fn render_puzzles(solutions: &[Solution], config: &SearchConfig) -> (r: String)
    requires
        all_printable(solutions@),
    ensures
        r@ == report_text(
            solutions@,
            *config,
            elapsed_millis(solutions@),
            duration_millis(config.time_limit) as nat,
        ),
{
    let mut ms: Vec<u128> = Vec::new();
    let mut i: usize = 0;
    while i < solutions.len()
        invariant
            i <= solutions@.len(),
            ms@ == elapsed_millis(solutions@).take(i as int),
        decreases solutions.len() - i,
    {
        let m = millis(&solutions[i].elapsed);
        ms.push(m);
        assert(ms@ =~= elapsed_millis(solutions@).take(i + 1));
        i = i + 1;
    }
    assert(ms@ =~= elapsed_millis(solutions@));
    let limit = millis(&config.time_limit);
    render_report(solutions, config, &ms, limit)
}

} // verus!
