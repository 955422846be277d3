//! The crossword grid: letters in cells and the entries placed on them.
use vstd::prelude::*;
use crate::derive::{CandidateAnswer, CandidateModel, clue_defined, clue_of};
use crate::order::{first_appearances, index_in, lemma_first_appearances_no_dup, lemma_first_appearances_prefix, lemma_index_in, lemma_insert_pos_by, lemma_stable_sort_members, stable_sort};
use crate::text::{byte_len, chars_of, str_byte_len};

verus! {

/// Orientation of an entry.
#[derive(Debug, Clone, Copy, PartialEq, Eq, Hash, Structural)]
pub enum Direction {
    Across,
    Down,
}

/// An answer placed at a start cell, with how many letters it shares.
#[derive(Debug)]
pub struct PlacedEntry {
    pub candidate: CandidateAnswer,
    pub x: usize,
    pub y: usize,
    pub direction: Direction,
    pub crossings: usize,
}

pub struct EntryModel {
    pub candidate: CandidateModel,
    pub x: nat,
    pub y: nat,
    pub direction: Direction,
    pub crossings: nat,
}

impl View for PlacedEntry {
    type V = EntryModel;

    open spec fn view(&self) -> EntryModel {
        EntryModel {
            candidate: self.candidate@,
            x: self.x as nat,
            y: self.y as nat,
            direction: self.direction,
            crossings: self.crossings as nat,
        }
    }
}

impl Clone for PlacedEntry {
    fn clone(&self) -> (r: Self)
        ensures
            r == *self,
    {
        PlacedEntry {
            candidate: self.candidate.clone(),
            x: self.x,
            y: self.y,
            direction: self.direction,
            crossings: self.crossings,
        }
    }
}

pub open spec fn entries_view(v: Seq<PlacedEntry>) -> Seq<EntryModel> {
    v.map_values(|e: PlacedEntry| e@)
}

/// A `width` by `height` grid of letters (row by row) and the entries on it.
#[derive(Debug)]
pub struct Grid {
    pub width: usize,
    pub height: usize,
    pub cells: Vec<Option<char>>,
    pub entries: Vec<PlacedEntry>,
}

/// A clue line: number, start cell, direction, clue, answer and source.
#[derive(Debug, Clone)]
pub struct NumberedEntry {
    pub number: usize,
    pub x: usize,
    pub y: usize,
    pub direction: Direction,
    pub clue: String,
    pub answer: String,
    pub source: String,
}

// ---------------------------------------------------------------------------
// Cell arithmetic
// ---------------------------------------------------------------------------

pub proof fn lemma_index_in_range(x: int, y: int, w: int, h: int)
    requires
        0 <= x < w,
        0 <= y < h,
    ensures
        0 <= y * w + x < w * h,
{
    assert(y * w + x < w * h) by (nonlinear_arith)
        requires
            0 <= x < w,
            0 <= y < h,
    ;
    assert(0 <= y * w) by (nonlinear_arith)
        requires
            0 <= y,
            0 <= w,
    ;
}

pub proof fn lemma_index_injective(x1: int, y1: int, x2: int, y2: int, w: int)
    requires
        0 <= x1 < w,
        0 <= x2 < w,
        0 <= y1,
        0 <= y2,
        y1 * w + x1 == y2 * w + x2,
    ensures
        x1 == x2,
        y1 == y2,
{
    if y1 < y2 {
        assert(y1 * w + w <= y2 * w) by (nonlinear_arith)
            requires
                y1 < y2,
                0 <= w,
        ;
    } else if y2 < y1 {
        assert(y2 * w + w <= y1 * w) by (nonlinear_arith)
            requires
                y2 < y1,
                0 <= w,
        ;
    }
}

impl Grid {
    /// The cells, row by row.
    pub open spec fn cells_view(&self) -> Seq<Option<char>> {
        self.cells@
    }

    /// The grid holds one cell per position.
    pub open spec fn wf(&self) -> bool {
        self.cells_view().len() == self.width * self.height
    }

    /// The cell in column `x` of row `y`.
    pub open spec fn cell_at(&self, x: int, y: int) -> Option<char> {
        self.cells_view()[y * self.width + x]
    }

    pub open spec fn entries_model(&self) -> Seq<EntryModel> {
        entries_view(self.entries@)
    }
}

// ---------------------------------------------------------------------------
// Placement rules
// ---------------------------------------------------------------------------

/// The cell of step `s` of a word that starts at `(x, y)`.
pub open spec fn path_x(x: int, d: Direction, s: int) -> int {
    match d {
        Direction::Across => x + s,
        Direction::Down => x,
    }
}

pub open spec fn path_y(y: int, d: Direction, s: int) -> int {
    match d {
        Direction::Across => y,
        Direction::Down => y + s,
    }
}

/// The word (whose grid form is `len` bytes long) lies inside the grid.
pub open spec fn fits(g: Grid, len: int, x: int, y: int, d: Direction) -> bool {
    &&& len > 0
    &&& d == Direction::Across ==> x + len <= g.width
    &&& d == Direction::Down ==> y + len <= g.height
}

/// An entry of the grid comes from the same track or has the same answer.
pub open spec fn entry_conflict(g: Grid, c: CandidateModel, x: int, y: int, d: Direction) -> bool {
    exists|i: int|
        0 <= i < g.entries_model().len() && {
            let e = #[trigger] g.entries_model()[i];
            ||| e.candidate.track_index == c.track_index
            ||| e.candidate.normalized == c.normalized
            ||| (e.x == x && e.y == y && e.direction == d && e.candidate.normalized
                == c.normalized)
        }
}

/// The cells just before the first letter and just after the last are empty
/// (or outside the grid).
pub open spec fn ends_clear(g: Grid, x: int, y: int, d: Direction, len: int) -> bool {
    match d {
        Direction::Across => {
            &&& x > 0 ==> g.cell_at(x - 1, y) is None
            &&& x + len < g.width ==> g.cell_at(x + len, y) is None
        },
        Direction::Down => {
            &&& y > 0 ==> g.cell_at(x, y - 1) is None
            &&& y + len < g.height ==> g.cell_at(x, y + len) is None
        },
    }
}

/// A filled cell beside `(x, y)`, across the word's direction.
pub open spec fn side_touching(g: Grid, x: int, y: int, d: Direction) -> bool {
    match d {
        Direction::Across => (y > 0 && g.cell_at(x, y - 1) is Some) || (y + 1 < g.height
            && g.cell_at(x, y + 1) is Some),
        Direction::Down => (x > 0 && g.cell_at(x - 1, y) is Some) || (x + 1 < g.width
            && g.cell_at(x + 1, y) is Some),
    }
}

/// Each letter either matches the letter already in its cell, or goes into
/// an empty cell with no letter beside it.
pub open spec fn letters_ok(g: Grid, word: Seq<char>, x: int, y: int, d: Direction) -> bool {
    forall|s: int|
        0 <= s < word.len() ==> match #[trigger] g.cell_at(path_x(x, d, s), path_y(y, d, s)) {
            Some(e) => e == word[s],
            None => !side_touching(g, path_x(x, d, s), path_y(y, d, s), d),
        }
}

/// The number of the first `n` letters whose cells are already filled.
pub open spec fn crossing_count(g: Grid, x: int, y: int, d: Direction, n: int) -> nat
    decreases n,
{
    if n <= 0 {
        0
    } else {
        crossing_count(g, x, y, d, n - 1) + (if g.cell_at(path_x(x, d, n - 1), path_y(y, d, n - 1))
            is Some {
            1nat
        } else {
            0nat
        })
    }
}

/// Whether the candidate can go at `(x, y)` in direction `d`, and with how
/// many crossings: inside the grid, no entry of the same track or answer,
/// clear ends, matching letters, nothing touching its new letters sideways,
/// and at least one crossing once the grid has an entry.
pub open spec fn placement(g: Grid, c: CandidateModel, x: int, y: int, d: Direction) -> Option<nat> {
    let len = byte_len(c.normalized) as int;
    let word = c.normalized;
    if !fits(g, len, x, y, d) {
        None
    } else if entry_conflict(g, c, x, y, d) {
        None
    } else if !ends_clear(g, x, y, d, len) {
        None
    } else if !letters_ok(g, word, x, y, d) {
        None
    } else if g.entries_model().len() > 0 && crossing_count(g, x, y, d, word.len() as int) == 0 {
        None
    } else {
        Some(crossing_count(g, x, y, d, word.len() as int))
    }
}

/// The placement rules read only cells inside the grid: the start cell is
/// inside, or the rules refuse the placement before reading any cell.
pub open spec fn placement_defined(g: Grid, c: CandidateModel, x: int, y: int, d: Direction) -> bool {
    &&& g.wf()
    &&& byte_len(c.normalized) <= usize::MAX
    &&& (x < g.width && y < g.height) || !fits(g, byte_len(c.normalized) as int, x, y, d)
        || entry_conflict(g, c, x, y, d)
}

/// Cell `(cx, cy)` is on the word placed at `(x, y)`.
pub open spec fn on_path(x: int, y: int, d: Direction, n: int, cx: int, cy: int) -> bool {
    match d {
        Direction::Across => cy == y && x <= cx < x + n,
        Direction::Down => cx == x && y <= cy < y + n,
    }
}

pub open spec fn step_of(x: int, y: int, d: Direction, cx: int, cy: int) -> int {
    match d {
        Direction::Across => cx - x,
        Direction::Down => cy - y,
    }
}

/// `g2` is `g` with the word written at `(x, y)` and the entry recorded.
pub open spec fn placed(g: Grid, g2: Grid, c: CandidateModel, x: int, y: int, d: Direction, k: nat) -> bool {
    let word = c.normalized;
    &&& g2.width == g.width
    &&& g2.height == g.height
    &&& g2.wf()
    &&& forall|cx: int, cy: int|
        0 <= cx < g.width && 0 <= cy < g.height ==> #[trigger] g2.cell_at(cx, cy) == if on_path(
            x,
            y,
            d,
            word.len() as int,
            cx,
            cy,
        ) {
            Some(word[step_of(x, y, d, cx, cy)])
        } else {
            g.cell_at(cx, cy)
        }
    &&& g2.entries_model() == g.entries_model().push(
        EntryModel { candidate: c, x: x as nat, y: y as nat, direction: d, crossings: k },
    )
    &&& filled(g2.cells_view()) + k == filled(g.cells_view()) + word.len()
}

/// Number of filled cells.
pub open spec fn filled(s: Seq<Option<char>>) -> nat
    decreases s.len(),
{
    if s.len() == 0 {
        0
    } else {
        filled(s.drop_last()) + (if s.last() is Some {
            1nat
        } else {
            0nat
        })
    }
}

/// Writing a letter into a cell fills one more cell if it was empty.
pub proof fn lemma_filled_update(s: Seq<Option<char>>, i: int, c: char)
    requires
        0 <= i < s.len(),
    ensures
        filled(s.update(i, Some(c))) == filled(s) + (if s[i] is None {
            1int
        } else {
            0int
        }),
    decreases s.len(),
{
    let u = s.update(i, Some(c));
    if i == s.len() - 1 {
        assert(u.drop_last() =~= s.drop_last());
    } else {
        lemma_filled_update(s.drop_last(), i, c);
        assert(u.drop_last() =~= s.drop_last().update(i, Some(c)));
    }
}

fn advance(x: usize, y: usize, direction: Direction, step: usize) -> (r: (usize, usize))
    requires
        direction == Direction::Across ==> x + step <= usize::MAX,
        direction == Direction::Down ==> y + step <= usize::MAX,
    ensures
        r.0 == path_x(x as int, direction, step as int),
        r.1 == path_y(y as int, direction, step as int),
{
    match direction {
        Direction::Across => (x + step, y),
        Direction::Down => (x, y + step),
    }
}

impl Grid {
    /// An empty grid.
    pub fn new(width: usize, height: usize) -> (g: Self)
        requires
            width * height <= usize::MAX,
        ensures
            g.wf(),
            g.width == width,
            g.height == height,
            g.entries@.len() == 0,
            forall|x: int, y: int|
                0 <= x < width && 0 <= y < height ==> #[trigger] g.cell_at(x, y) is None,
            forall|k: int| 0 <= k < g.cells@.len() ==> #[trigger] g.cells@[k] is None,
            empty_grid(g, width as int, height as int),
    {
        let n = width * height;
        let mut cells: Vec<Option<char>> = Vec::new();
        let mut i: usize = 0;
        while i < n
            invariant
                i <= n,
                cells@.len() == i,
                forall|k: int| 0 <= k < i ==> #[trigger] cells@[k] is None,
            decreases n - i,
        {
            cells.push(None);
            i = i + 1;
        }
        let g = Grid { width, height, cells, entries: Vec::new() };
        assert forall|x: int, y: int| 0 <= x < width && 0 <= y < height implies #[trigger] g.cell_at(
            x,
            y,
        ) is None by {
            lemma_index_in_range(x, y, width as int, height as int);
        }
        g
    }

    /// The letter in column `x` of row `y`.
    pub fn cell(&self, x: usize, y: usize) -> (r: Option<char>)
        requires
            self.wf(),
            y * self.width + x < self.width * self.height,
        ensures
            r == self.cell_at(x as int, y as int),
    {
        self.cells[self.index(x, y)]
    }

    fn index(&self, x: usize, y: usize) -> (i: usize)
        requires
            self.wf(),
            y * self.width + x < self.width * self.height,
        ensures
            i == y * self.width + x,
    {
        let _n = self.cells.len();
        y * self.width + x
    }

    /// How many cells hold a letter.
    pub fn filled_count(&self) -> (n: usize)
        ensures
            n == filled(self.cells_view()),
    {
        let mut n: usize = 0;
        let mut i: usize = 0;
        assert(self.cells@.take(0) =~= Seq::<Option<char>>::empty());
        while i < self.cells.len()
            invariant
                i <= self.cells@.len(),
                n == filled(self.cells@.take(i as int)),
                n <= i,
            decreases self.cells.len() - i,
        {
            assert(self.cells@.take(i + 1).drop_last() =~= self.cells@.take(i as int));
            if self.cells[i].is_some() {
                n = n + 1;
            }
            i = i + 1;
        }
        assert(self.cells@.take(self.cells@.len() as int) =~= self.cells@);
        n
    }

    fn has_entry_conflict(&self, candidate: &CandidateAnswer, x: usize, y: usize, direction: Direction) -> (r: bool)
        ensures
            r == entry_conflict(*self, candidate@, x as int, y as int, direction),
    {
        let ghost es = self.entries_model();
        let mut i: usize = 0;
        while i < self.entries.len()
            invariant
                i <= self.entries.len(),
                es == self.entries_model(),
                forall|k: int|
                    0 <= k < i ==> {
                        let e = #[trigger] es[k];
                        !(e.candidate.track_index == candidate@.track_index
                            || e.candidate.normalized == candidate@.normalized || (e.x == x
                            && e.y == y && e.direction == direction && e.candidate.normalized
                            == candidate@.normalized))
                    },
            decreases self.entries.len() - i,
        {
            let e = &self.entries[i];
            assert(es[i as int] == e@);
            if e.candidate.track_index == candidate.track_index
                || e.candidate.normalized == candidate.normalized || (e.x == x && e.y == y
                && e.direction == direction && e.candidate.normalized == candidate.normalized) {
                return true;
            }
            i = i + 1;
        }
        false
    }

    fn before_or_after_filled(&self, x: usize, y: usize, direction: Direction, len: usize) -> (r: bool)
        requires
            self.wf(),
            x < self.width,
            y < self.height,
            direction == Direction::Across ==> x + len <= self.width,
            direction == Direction::Down ==> y + len <= self.height,
        ensures
            r == !ends_clear(*self, x as int, y as int, direction, len as int),
    {
        match direction {
            Direction::Across => {
                if x > 0 {
                    proof {
                        lemma_index_in_range(x - 1, y as int, self.width as int, self.height as int);
                    }
                    if self.cell(x - 1, y).is_some() {
                        return true;
                    }
                }
                if x + len < self.width {
                    proof {
                        lemma_index_in_range(x + len, y as int, self.width as int, self.height as int);
                    }
                    if self.cell(x + len, y).is_some() {
                        return true;
                    }
                }
                false
            },
            Direction::Down => {
                if y > 0 {
                    proof {
                        lemma_index_in_range(x as int, y - 1, self.width as int, self.height as int);
                    }
                    if self.cell(x, y - 1).is_some() {
                        return true;
                    }
                }
                if y + len < self.height {
                    proof {
                        lemma_index_in_range(x as int, y + len, self.width as int, self.height as int);
                    }
                    if self.cell(x, y + len).is_some() {
                        return true;
                    }
                }
                false
            },
        }
    }

    fn side_touching(&self, x: usize, y: usize, direction: Direction) -> (r: bool)
        requires
            self.wf(),
            x < self.width,
            y < self.height,
        ensures
            r == side_touching(*self, x as int, y as int, direction),
    {
        match direction {
            Direction::Across => {
                if y > 0 {
                    proof {
                        lemma_index_in_range(x as int, y - 1, self.width as int, self.height as int);
                    }
                    if self.cell(x, y - 1).is_some() {
                        return true;
                    }
                }
                if y + 1 < self.height {
                    proof {
                        lemma_index_in_range(x as int, y + 1, self.width as int, self.height as int);
                    }
                    if self.cell(x, y + 1).is_some() {
                        return true;
                    }
                }
                false
            },
            Direction::Down => {
                if x > 0 {
                    proof {
                        lemma_index_in_range(x - 1, y as int, self.width as int, self.height as int);
                    }
                    if self.cell(x - 1, y).is_some() {
                        return true;
                    }
                }
                if x + 1 < self.width {
                    proof {
                        lemma_index_in_range(x + 1, y as int, self.width as int, self.height as int);
                    }
                    if self.cell(x + 1, y).is_some() {
                        return true;
                    }
                }
                false
            },
        }
    }

    /// Whether the candidate can be placed, and with how many crossings
    /// (see `placement`).
    fn can_place(&self, candidate: &CandidateAnswer, x: usize, y: usize, direction: Direction) -> (r: Option<usize>)
        requires
            placement_defined(*self, candidate@, x as int, y as int, direction),
        ensures
            r matches Some(k) ==> placement(*self, candidate@, x as int, y as int, direction) == Some(k as nat),
            r is None ==> placement(*self, candidate@, x as int, y as int, direction) is None,
    {
        let len = str_byte_len(candidate.normalized.as_str());
        if len == 0 {
            return None;
        }
        match direction {
            Direction::Across => {
                if x > self.width || len > self.width - x {
                    return None;
                }
            },
            Direction::Down => {
                if y > self.height || len > self.height - y {
                    return None;
                }
            },
        }
        if self.has_entry_conflict(candidate, x, y, direction) {
            return None;
        }
        if self.before_or_after_filled(x, y, direction, len) {
            return None;
        }
        let word = chars_of(candidate.normalized.as_str());
        proof {
            crate::text::lemma_byte_len_ge_len(word@);
        }
        let mut crossings: usize = 0;
        let mut step: usize = 0;
        while step < word.len()
            invariant
                self.wf(),
                step <= word@.len(),
                word@ == candidate@.normalized,
                word@.len() <= len,
                len == byte_len(candidate@.normalized),
                x < self.width,
                y < self.height,
                direction == Direction::Across ==> x + len <= self.width,
                direction == Direction::Down ==> y + len <= self.height,
                crossings == crossing_count(*self, x as int, y as int, direction, step as int),
                crossings <= step,
                forall|s: int|
                    0 <= s < step ==> match #[trigger] self.cell_at(
                        path_x(x as int, direction, s),
                        path_y(y as int, direction, s),
                    ) {
                        Some(e) => e == word@[s],
                        None => !side_touching(
                            *self,
                            path_x(x as int, direction, s),
                            path_y(y as int, direction, s),
                            direction,
                        ),
                    },
            decreases word.len() - step,
        {
            let (cx, cy) = advance(x, y, direction, step);
            proof {
                lemma_index_in_range(cx as int, cy as int, self.width as int, self.height as int);
            }
            let ch = word[step];
            match self.cell(cx, cy) {
                Some(existing) => {
                    if existing != ch {
                        return None;
                    }
                    crossings = crossings + 1;
                },
                None => {
                    if self.side_touching(cx, cy, direction) {
                        return None;
                    }
                },
            }
            step = step + 1;
        }
        if self.entries.len() > 0 && crossings == 0 {
            return None;
        }
        Some(crossings)
    }
}

// ---------------------------------------------------------------------------
// Placing and listing placements
// ---------------------------------------------------------------------------

impl Clone for Grid {
    fn clone(&self) -> (r: Self)
        ensures
            r.width == self.width,
            r.height == self.height,
            r.cells@ == self.cells@,
            r.entries@ == self.entries@,
    {
        let mut cells: Vec<Option<char>> = Vec::new();
        let mut i: usize = 0;
        while i < self.cells.len()
            invariant
                i <= self.cells@.len(),
                cells@ == self.cells@.take(i as int),
            decreases self.cells.len() - i,
        {
            cells.push(self.cells[i]);
            assert(self.cells@.take(i + 1) =~= self.cells@.take(i as int).push(self.cells@[i as int]));
            i = i + 1;
        }
        assert(self.cells@.take(i as int) =~= self.cells@);
        let mut entries: Vec<PlacedEntry> = Vec::new();
        let mut j: usize = 0;
        while j < self.entries.len()
            invariant
                j <= self.entries@.len(),
                entries@ == self.entries@.take(j as int),
            decreases self.entries.len() - j,
        {
            entries.push(self.entries[j].clone());
            assert(self.entries@.take(j + 1) =~= self.entries@.take(j as int).push(self.entries@[j as int]));
            j = j + 1;
        }
        assert(self.entries@.take(j as int) =~= self.entries@);
        Grid { width: self.width, height: self.height, cells, entries }
    }
}

pub open spec fn sat_sub(a: int, b: int) -> int {
    if a >= b {
        a - b
    } else {
        0
    }
}

/// Placements in row `y` from column `x` up to `max_x`.
pub open spec fn row_placements(g: Grid, c: CandidateModel, d: Direction, y: int, x: int, max_x: int) -> Seq<(int, int, Direction, nat)>
    decreases max_x + 1 - x,
{
    if x > max_x || x < 0 {
        Seq::empty()
    } else {
        (match placement(g, c, x, y, d) {
            Some(k) => seq![(x, y, d, k)],
            None => Seq::empty(),
        }) + row_placements(g, c, d, y, x + 1, max_x)
    }
}

pub open spec fn rows_placements(g: Grid, c: CandidateModel, d: Direction, y: int, max_x: int, max_y: int) -> Seq<(int, int, Direction, nat)>
    decreases max_y + 1 - y,
{
    if y > max_y || y < 0 {
        Seq::empty()
    } else {
        row_placements(g, c, d, y, 0, max_x) + rows_placements(g, c, d, y + 1, max_x, max_y)
    }
}

/// Every valid start cell in one direction, row by row: the start columns
/// and rows that leave room for the word.
pub open spec fn direction_placements(g: Grid, c: CandidateModel, d: Direction) -> Seq<(int, int, Direction, nat)> {
    let len = byte_len(c.normalized) as int;
    if (d == Direction::Across && len > g.width) || (d == Direction::Down && len > g.height) {
        Seq::empty()
    } else {
        let max_x = if d == Direction::Across {
            sat_sub(g.width as int, len)
        } else {
            sat_sub(g.width as int, 1)
        };
        let max_y = if d == Direction::Down {
            sat_sub(g.height as int, len)
        } else {
            sat_sub(g.height as int, 1)
        };
        rows_placements(g, c, d, 0, max_x, max_y)
    }
}

/// Every valid placement of a candidate: across first, then down.
pub open spec fn all_placements(g: Grid, c: CandidateModel) -> Seq<(int, int, Direction, nat)> {
    direction_placements(g, c, Direction::Across) + direction_placements(g, c, Direction::Down)
}

pub open spec fn placements_view(v: Seq<(usize, usize, Direction, usize)>) -> Seq<(int, int, Direction, nat)> {
    v.map_values(|p: (usize, usize, Direction, usize)| (p.0 as int, p.1 as int, p.2, p.3 as nat))
}

/// Listing placements reads only cells inside the grid.
pub open spec fn placements_defined(g: Grid, c: CandidateModel) -> bool {
    let len = byte_len(c.normalized) as int;
    &&& g.wf()
    &&& byte_len(c.normalized) <= usize::MAX
    &&& (g.width > 0 && g.height > 0) || len == 0 || (len > g.width && len > g.height)
        || entry_conflict(g, c, 0, 0, Direction::Across)
}

proof fn lemma_conflict_anywhere(g: Grid, c: CandidateModel, x: int, y: int, d: Direction)
    requires
        entry_conflict(g, c, 0, 0, Direction::Across),
    ensures
        entry_conflict(g, c, x, y, d),
{
    let i = choose|i: int|
        0 <= i < g.entries_model().len() && {
            let e = #[trigger] g.entries_model()[i];
            ||| e.candidate.track_index == c.track_index
            ||| e.candidate.normalized == c.normalized
            ||| (e.x == 0 && e.y == 0 && e.direction == Direction::Across
                && e.candidate.normalized == c.normalized)
        };
    let e = g.entries_model()[i];
    assert(e.candidate.track_index == c.track_index || e.candidate.normalized == c.normalized);
}

proof fn lemma_row_empty(g: Grid, c: CandidateModel, d: Direction, y: int, x: int, max_x: int)
    requires
        byte_len(c.normalized) == 0,
    ensures
        row_placements(g, c, d, y, x, max_x) == Seq::<(int, int, Direction, nat)>::empty(),
    decreases max_x + 1 - x,
{
    if x <= max_x && x >= 0 {
        lemma_row_empty(g, c, d, y, x + 1, max_x);
        assert(row_placements(g, c, d, y, x, max_x) =~= Seq::<(int, int, Direction, nat)>::empty());
    }
}

proof fn lemma_rows_empty(g: Grid, c: CandidateModel, d: Direction, y: int, max_x: int, max_y: int)
    requires
        byte_len(c.normalized) == 0,
    ensures
        rows_placements(g, c, d, y, max_x, max_y) == Seq::<(int, int, Direction, nat)>::empty(),
    decreases max_y + 1 - y,
{
    if y <= max_y && y >= 0 {
        lemma_row_empty(g, c, d, y, 0, max_x);
        lemma_rows_empty(g, c, d, y + 1, max_x, max_y);
        assert(rows_placements(g, c, d, y, max_x, max_y) =~= Seq::<(int, int, Direction, nat)>::empty());
    }
}

impl Grid {
    /// The grid with the candidate placed at `(x, y)`, if the placement
    /// rules allow it (see `placement`).
    pub fn place(&self, candidate: &CandidateAnswer, x: usize, y: usize, direction: Direction) -> (r: Option<Self>)
        requires
            placement_defined(*self, candidate@, x as int, y as int, direction),
        ensures
            r is None <==> placement(*self, candidate@, x as int, y as int, direction) is None,
            r matches Some(g2) ==> (placement(*self, candidate@, x as int, y as int, direction) matches Some(k)
                && placed(*self, g2, candidate@, x as int, y as int, direction, k)),
            r matches Some(g2) ==> step(*self, g2, candidate@, x as int, y as int, direction),
    {
        let crossings = match self.can_place(candidate, x, y, direction) {
            Some(k) => k,
            None => {
                return None;
            },
        };
        let ghost k = crossings as nat;
        let mut next = self.clone();
        let word = chars_of(candidate.normalized.as_str());
        let len = str_byte_len(candidate.normalized.as_str());
        proof {
            crate::text::lemma_byte_len_ge_len(word@);
        }
        let ghost n = word@.len() as int;
        let mut step: usize = 0;
        while step < word.len()
            invariant
                self.wf(),
                next.wf(),
                next.width == self.width,
                next.height == self.height,
                next.entries@ == self.entries@,
                step <= word@.len(),
                word@ == candidate@.normalized,
                word@.len() <= len,
                x < self.width,
                y < self.height,
                direction == Direction::Across ==> x + len <= self.width,
                direction == Direction::Down ==> y + len <= self.height,
                forall|cx: int, cy: int|
                    0 <= cx < self.width && 0 <= cy < self.height ==> #[trigger] next.cell_at(cx, cy)
                        == if on_path(x as int, y as int, direction, step as int, cx, cy) {
                        Some(word@[step_of(x as int, y as int, direction, cx, cy)])
                    } else {
                        self.cell_at(cx, cy)
                    },
                filled(next.cells_view()) + crossing_count(*self, x as int, y as int, direction, step as int)
                    == filled(self.cells_view()) + step,
            decreases word.len() - step,
        {
            let (cx, cy) = advance(x, y, direction, step);
            proof {
                lemma_index_in_range(cx as int, cy as int, self.width as int, self.height as int);
            }
            let idx = next.index(cx, cy);
            let ghost before = next;
            proof {
                assert(!on_path(x as int, y as int, direction, step as int, cx as int, cy as int));
                assert(before.cell_at(cx as int, cy as int) == self.cell_at(cx as int, cy as int));
                lemma_filled_update(before.cells@, idx as int, word@[step as int]);
            }
            next.cells[idx] = Some(word[step]);
            proof {
                assert forall|px: int, py: int|
                    0 <= px < self.width && 0 <= py < self.height implies #[trigger] next.cell_at(px, py)
                        == if on_path(x as int, y as int, direction, step + 1, px, py) {
                        Some(word@[step_of(x as int, y as int, direction, px, py)])
                    } else {
                        self.cell_at(px, py)
                    } by {
                    lemma_index_in_range(px, py, self.width as int, self.height as int);
                    if py * self.width + px == idx {
                        lemma_index_injective(px, py, cx as int, cy as int, self.width as int);
                    } else {
                        assert(before.cell_at(px, py) == next.cell_at(px, py));
                    }
                }
            }
            step = step + 1;
        }
        assert(step == word@.len());
        assert(forall|cx: int, cy: int|
            0 <= cx < self.width && 0 <= cy < self.height ==> #[trigger] next.cell_at(cx, cy) == if on_path(
                x as int,
                y as int,
                direction,
                candidate@.normalized.len() as int,
                cx,
                cy,
            ) {
                Some(candidate@.normalized[step_of(x as int, y as int, direction, cx, cy)])
            } else {
                self.cell_at(cx, cy)
            });
        let ghost cells_before_push = next.cells@;
        let ghost next_before_push = next;
        let ghost before_push = next.entries@;
        next.entries.push(
            PlacedEntry { candidate: candidate.clone(), x, y, direction, crossings },
        );
        assert(next.entries_model() =~= self.entries_model().push(
            EntryModel { candidate: candidate@, x: x as nat, y: y as nat, direction, crossings: k },
        ));
        assert(next.cells@ == cells_before_push);
        assert forall|cx: int, cy: int| 0 <= cx < self.width && 0 <= cy < self.height implies #[trigger] next.cell_at(cx, cy) == next_before_push.cell_at(cx, cy) by {}
        assert(next.width == self.width && next.height == self.height);
        assert(next.wf());
        assert(placement(*self, candidate@, x as int, y as int, direction) == Some(k));
        assert(forall|cx: int, cy: int|
            0 <= cx < self.width && 0 <= cy < self.height ==> #[trigger] next.cell_at(cx, cy) == if on_path(
                x as int,
                y as int,
                direction,
                candidate@.normalized.len() as int,
                cx,
                cy,
            ) {
                Some(candidate@.normalized[step_of(x as int, y as int, direction, cx, cy)])
            } else {
                self.cell_at(cx, cy)
            });
        Some(next)
    }

    fn row_scan(&self, candidate: &CandidateAnswer, direction: Direction, y: usize, max_x: usize, out: &mut Vec<(usize, usize, Direction, usize)>)
        requires
            placements_defined(*self, candidate@),
            max_x < usize::MAX,
            forall|x: int| 0 <= x <= max_x ==> placement_defined(*self, candidate@, x, y as int, direction),
        ensures
            placements_view(final(out)@) == placements_view(old(out)@) + row_placements(*self, candidate@, direction, y as int, 0, max_x as int),
    {
        let ghost start = placements_view(out@);
        let mut x: usize = 0;
        while x <= max_x
            invariant
                x <= max_x + 1,
                max_x < usize::MAX,
                forall|xx: int| 0 <= xx <= max_x ==> placement_defined(*self, candidate@, xx, y as int, direction),
                placements_view(out@) + row_placements(*self, candidate@, direction, y as int, x as int, max_x as int)
                    == start + row_placements(*self, candidate@, direction, y as int, 0, max_x as int),
            decreases max_x + 1 - x,
        {
            let ghost rest = row_placements(*self, candidate@, direction, y as int, x + 1, max_x as int);
            let ghost before = placements_view(out@);
            let found = self.can_place(candidate, x, y, direction);
            if let Some(c) = found {
                out.push((x, y, direction, c));
                assert(placements_view(out@) =~= before.push((x as int, y as int, direction, c as nat)));
                assert(placements_view(out@) + rest =~= before + (seq![(x as int, y as int, direction, c as nat)] + rest));
            } else {
                assert(before + rest =~= before + (Seq::<(int, int, Direction, nat)>::empty() + rest));
            }
            x = x + 1;
        }
        assert(row_placements(*self, candidate@, direction, y as int, x as int, max_x as int) =~= Seq::<(int, int, Direction, nat)>::empty());
        assert(placements_view(out@) =~= placements_view(out@) + Seq::<(int, int, Direction, nat)>::empty());
    }

    fn direction_scan(&self, candidate: &CandidateAnswer, direction: Direction, out: &mut Vec<(usize, usize, Direction, usize)>)
        requires
            placements_defined(*self, candidate@),
        ensures
            placements_view(final(out)@) == placements_view(old(out)@) + direction_placements(*self, candidate@, direction),
    {
        let len = str_byte_len(candidate.normalized.as_str());
        if len == 0 {
            proof {
                let g = *self;
                let c = candidate@;
                let lx = byte_len(c.normalized) as int;
                let max_x = if direction == Direction::Across { sat_sub(g.width as int, lx) } else { sat_sub(g.width as int, 1) };
                let max_y = if direction == Direction::Down { sat_sub(g.height as int, lx) } else { sat_sub(g.height as int, 1) };
                lemma_rows_empty(g, c, direction, 0, max_x, max_y);
            }
            assert(placements_view(out@) =~= placements_view(out@) + Seq::<(int, int, Direction, nat)>::empty());
            return;
        }
        if (direction == Direction::Across && len > self.width) || (direction == Direction::Down
            && len > self.height) {
            assert(placements_view(out@) =~= placements_view(out@) + Seq::<(int, int, Direction, nat)>::empty());
            return;
        }
        let max_x = if direction == Direction::Across {
            if self.width >= len { self.width - len } else { 0 }
        } else {
            if self.width >= 1 { self.width - 1 } else { 0 }
        };
        let max_y = if direction == Direction::Down {
            if self.height >= len { self.height - len } else { 0 }
        } else {
            if self.height >= 1 { self.height - 1 } else { 0 }
        };
        let ghost start = placements_view(out@);
        let mut y: usize = 0;
        while y <= max_y
            invariant
                y <= max_y + 1,
                max_y < usize::MAX,
                max_x < usize::MAX,
                placements_defined(*self, candidate@),
                len == byte_len(candidate@.normalized),
                direction == Direction::Across ==> len <= self.width && max_x == sat_sub(self.width as int, len as int) && max_y == sat_sub(self.height as int, 1),
                direction == Direction::Down ==> len <= self.height && max_y == sat_sub(self.height as int, len as int) && max_x == sat_sub(self.width as int, 1),
                placements_view(out@) + rows_placements(*self, candidate@, direction, y as int, max_x as int, max_y as int)
                    == start + rows_placements(*self, candidate@, direction, 0, max_x as int, max_y as int),
            decreases max_y + 1 - y,
        {
            proof {
                assert forall|x: int| 0 <= x <= max_x implies placement_defined(*self, candidate@, x, y as int, direction) by {
                    if entry_conflict(*self, candidate@, 0, 0, Direction::Across) {
                        lemma_conflict_anywhere(*self, candidate@, x, y as int, direction);
                    }
                }
            }
            let ghost before = placements_view(out@);
            self.row_scan(candidate, direction, y, max_x, out);
            assert(placements_view(out@) + rows_placements(*self, candidate@, direction, y + 1, max_x as int, max_y as int)
                =~= before + (row_placements(*self, candidate@, direction, y as int, 0, max_x as int)
                + rows_placements(*self, candidate@, direction, y + 1, max_x as int, max_y as int)));
            y = y + 1;
        }
        assert(rows_placements(*self, candidate@, direction, y as int, max_x as int, max_y as int) =~= Seq::<(int, int, Direction, nat)>::empty());
        assert(placements_view(out@) =~= placements_view(out@) + Seq::<(int, int, Direction, nat)>::empty());
    }

    /// Every start cell and direction where the candidate can be placed,
    /// with its crossings (see `all_placements`).
    pub fn placements_for(&self, candidate: &CandidateAnswer) -> (r: Vec<(usize, usize, Direction, usize)>)
        requires
            placements_defined(*self, candidate@),
        ensures
            placements_view(r@) == all_placements(*self, candidate@),
    {
        let mut out: Vec<(usize, usize, Direction, usize)> = Vec::new();
        assert(placements_view(out@) =~= Seq::<(int, int, Direction, nat)>::empty());
        self.direction_scan(candidate, Direction::Across, &mut out);
        self.direction_scan(candidate, Direction::Down, &mut out);
        assert(placements_view(out@) =~= all_placements(*self, candidate@));
        out
    }
}

// ---------------------------------------------------------------------------
// Numbering
// ---------------------------------------------------------------------------

pub struct NumberedModel {
    pub number: nat,
    pub x: nat,
    pub y: nat,
    pub direction: Direction,
    pub clue: Seq<char>,
    pub answer: Seq<char>,
    pub source: Seq<char>,
}

impl View for NumberedEntry {
    type V = NumberedModel;

    open spec fn view(&self) -> NumberedModel {
        NumberedModel {
            number: self.number as nat,
            x: self.x as nat,
            y: self.y as nat,
            direction: self.direction,
            clue: self.clue@,
            answer: self.answer@,
            source: self.source@,
        }
    }
}

/// Reading order of entries: by row, then column, across before down.
pub open spec fn reading_before(a: EntryModel, b: EntryModel) -> bool {
    ||| a.y < b.y
    ||| a.y == b.y && a.x < b.x
    ||| a.y == b.y && a.x == b.x && a.direction == Direction::Across && b.direction
        == Direction::Down
}

pub open spec fn reading_order(es: Seq<EntryModel>) -> Seq<EntryModel> {
    stable_sort(es, |a: EntryModel, b: EntryModel| reading_before(a, b))
}

pub open spec fn start_cells(es: Seq<EntryModel>) -> Seq<(nat, nat)> {
    es.map_values(|e: EntryModel| (e.x, e.y))
}

/// Entry `i` of the reading order with its number: start cells are numbered
/// 1, 2, ... in the order in which they first appear.
pub open spec fn numbered_at(sorted: Seq<EntryModel>, i: int) -> NumberedModel {
    let e = sorted[i];
    NumberedModel {
        number: (index_in(first_appearances(start_cells(sorted)), (e.x, e.y)) + 1) as nat,
        x: e.x,
        y: e.y,
        direction: e.direction,
        clue: clue_of(e.candidate),
        answer: e.candidate.normalized,
        source: e.candidate.track_name + " - "@ + e.candidate.track_artist,
    }
}

/// The clue list of the grid, in reading order.
pub open spec fn numbering(es: Seq<EntryModel>) -> Seq<NumberedModel> {
    let sorted = reading_order(es);
    Seq::new(sorted.len(), |i: int| numbered_at(sorted, i))
}

pub open spec fn numbered_view(v: Seq<NumberedEntry>) -> Seq<NumberedModel> {
    v.map_values(|n: NumberedEntry| n@)
}

pub open spec fn all_clue_defined(es: Seq<EntryModel>) -> bool {
    forall|i: int| 0 <= i < es.len() ==> clue_defined((#[trigger] es[i]).candidate)
}

fn reading_before_exec(a: &PlacedEntry, b: &PlacedEntry) -> (r: bool)
    ensures
        r == reading_before(a@, b@),
{
    a.y < b.y || (a.y == b.y && a.x < b.x) || (a.y == b.y && a.x == b.x && a.direction
        == Direction::Across && b.direction == Direction::Down)
}

proof fn lemma_index_in_contains<T>(s: Seq<T>, x: T)
    requires
        s.contains(x),
    ensures
        0 <= index_in(s, x) < s.len(),
        s[index_in(s, x)] == x,
    decreases s.len(),
{
    if s[0] != x {
        let i = choose|i: int| 0 <= i < s.len() && s[i] == x;
        assert(s.drop_first()[i - 1] == x);
        lemma_index_in_contains(s.drop_first(), x);
    }
}

/// Start cell `p` comes before start cell `q` on the page: on an earlier
/// row, or further left on the same row (cells are `(x, y)`).
pub open spec fn cell_earlier(p: (nat, nat), q: (nat, nat)) -> bool {
    p.1 < q.1 || (p.1 == q.1 && p.0 < q.0)
}

proof fn lemma_first_appearances_increasing(s: Seq<(nat, nat)>)
    requires
        forall|i: int, j: int| 0 <= i < j < s.len() ==> !cell_earlier(#[trigger] s[j], #[trigger] s[i]),
    ensures
        forall|i: int, j: int|
            0 <= i < j < first_appearances(s).len() ==> cell_earlier(
                #[trigger] first_appearances(s)[i],
                #[trigger] first_appearances(s)[j],
            ),
    decreases s.len(),
{
    if s.len() > 0 {
        let p = s.drop_last();
        let l = s.last();
        assert forall|i: int, j: int| 0 <= i < j < p.len() implies !cell_earlier(#[trigger] p[j], #[trigger] p[i]) by {
            assert(p[i] == s[i] && p[j] == s[j]);
        }
        lemma_first_appearances_increasing(p);
        lemma_first_appearances_no_dup(p);
        let d = first_appearances(p);
        if !d.contains(l) {
            let f = d.push(l);
            assert forall|i: int, j: int| 0 <= i < j < f.len() implies cell_earlier(#[trigger] f[i], #[trigger] f[j]) by {
                if j == d.len() {
                    assert(f[i] == d[i] && f[j] == l);
                    assert(d.contains(d[i]));
                    assert(p.contains(d[i]));
                    let m = choose|m: int| 0 <= m < p.len() && p[m] == d[i];
                    assert(s[m] == d[i] && s[s.len() - 1] == l);
                    assert(!cell_earlier(l, d[i]));
                    assert(d[i] != l);
                } else {
                    assert(f[i] == d[i] && f[j] == d[j]);
                }
            }
        }
    }
}

proof fn lemma_reading_strict()
    ensures
        crate::order::strict_order(|a: EntryModel, b: EntryModel| reading_before(a, b)),
{
}

/// The clue list is in reading order: row by row from the top, left to
/// right within a row, the across entry of a start cell before its down
/// entry; and the numbers follow the start cells in that order: an entry
/// starting on an earlier row, or further left on the same row, has a
/// smaller number, entries sharing a start cell share a number, and
/// numbering starts at 1.
pub proof fn lemma_numbering_reading_order(es: Seq<EntryModel>)
    ensures
        numbering(es).len() == es.len(),
        forall|i: int, j: int|
            0 <= i < j < numbering(es).len() ==> {
                let a = #[trigger] numbering(es)[i];
                let b = #[trigger] numbering(es)[j];
                &&& a.y <= b.y
                &&& a.y == b.y ==> a.x <= b.x
                &&& (a.y == b.y && a.x == b.x && a.direction == Direction::Down) ==> b.direction
                    == Direction::Down
            },
        forall|i: int, j: int|
            0 <= i < numbering(es).len() && 0 <= j < numbering(es).len() ==> {
                let a = #[trigger] numbering(es)[i];
                let b = #[trigger] numbering(es)[j];
                &&& (a.y < b.y || (a.y == b.y && a.x < b.x)) ==> a.number < b.number
                &&& (a.y == b.y && a.x == b.x) ==> a.number == b.number
            },
        forall|i: int| 0 <= i < numbering(es).len() ==> (#[trigger] numbering(es)[i]).number >= 1,
{
    let before = |a: EntryModel, b: EntryModel| reading_before(a, b);
    let sorted = reading_order(es);
    crate::order::lemma_stable_sort_len(es, before);
    lemma_reading_strict();
    crate::order::lemma_stable_sort_sorted(es, before);
    let n = numbering(es);
    assert forall|i: int, j: int| 0 <= i < j < n.len() implies {
        let a = #[trigger] n[i];
        let b = #[trigger] n[j];
        &&& a.y <= b.y
        &&& a.y == b.y ==> a.x <= b.x
        &&& (a.y == b.y && a.x == b.x && a.direction == Direction::Down) ==> b.direction == Direction::Down
    } by {
        assert(!before(sorted[j], sorted[i]));
    }
    let cells = start_cells(sorted);
    let fa = first_appearances(cells);
    assert forall|i: int, j: int| 0 <= i < j < cells.len() implies !cell_earlier(#[trigger] cells[j], #[trigger] cells[i]) by {
        assert(!before(sorted[j], sorted[i]));
    }
    lemma_first_appearances_increasing(cells);
    lemma_first_appearances_no_dup(cells);
    assert forall|i: int, j: int| 0 <= i < n.len() && 0 <= j < n.len() implies {
        let a = #[trigger] n[i];
        let b = #[trigger] n[j];
        &&& (a.y < b.y || (a.y == b.y && a.x < b.x)) ==> a.number < b.number
        &&& (a.y == b.y && a.x == b.x) ==> a.number == b.number
    } by {
        let ca = cells[i];
        let cb = cells[j];
        assert(cells.contains(ca) && cells.contains(cb));
        lemma_index_in_contains(fa, ca);
        lemma_index_in_contains(fa, cb);
        let ia = index_in(fa, ca);
        let ib = index_in(fa, cb);
        if cell_earlier(ca, cb) && ib <= ia {
            if ib < ia {
                assert(cell_earlier(fa[ib], fa[ia]));
            }
        }
    }
    assert forall|i: int| 0 <= i < n.len() implies (#[trigger] n[i]).number >= 1 by {
        assert(cells.contains(cells[i]));
        lemma_index_in_contains(fa, cells[i]);
    }
}

fn sort_reading(entries: &Vec<PlacedEntry>) -> (r: Vec<PlacedEntry>)
    ensures
        entries_view(r@) == reading_order(entries_view(entries@)),
{
    let ghost es = entries_view(entries@);
    let ghost before = |a: EntryModel, b: EntryModel| reading_before(a, b);
    let mut sorted: Vec<PlacedEntry> = Vec::new();
    let mut i: usize = 0;
    assert(es.take(0) =~= Seq::<EntryModel>::empty());
    while i < entries.len()
        invariant
            i <= entries.len(),
            es == entries_view(entries@),
            before == (|a: EntryModel, b: EntryModel| reading_before(a, b)),
            entries_view(sorted@) == stable_sort(es.take(i as int), before),
        decreases entries.len() - i,
    {
        let x = entries[i].clone();
        assert(x@ == es[i as int]);
        let mut p: usize = 0;
        let mut found = false;
        while p < sorted.len() && !found
            invariant
                p <= sorted.len(),
                before == (|a: EntryModel, b: EntryModel| reading_before(a, b)),
                found ==> p < sorted.len() && before(x@, entries_view(sorted@)[p as int]),
                forall|q: int| 0 <= q < p ==> !before(x@, #[trigger] entries_view(sorted@)[q]),
            decreases (sorted.len() - p) as int + (if found { 0int } else { 1int }),
        {
            assert(entries_view(sorted@)[p as int] == sorted@[p as int]@);
            if reading_before_exec(&x, &sorted[p]) {
                found = true;
            } else {
                p = p + 1;
            }
        }
        proof {
            lemma_insert_pos_by(entries_view(sorted@), x@, before, p as int);
            assert(es.take(i + 1).drop_last() =~= es.take(i as int));
            assert(es.take(i + 1).last() == es[i as int]);
        }
        let ghost old_view = entries_view(sorted@);
        let ghost xv = x@;
        sorted.insert(p, x);
        assert(entries_view(sorted@) =~= old_view.insert(p as int, xv));
        i = i + 1;
    }
    assert(es.take(entries.len() as int) =~= es);
    sorted
}

fn source_line(name: &String, artist: &String) -> (r: String)
    ensures
        r@ == name@ + " - "@ + artist@,
{
    let mut out: Vec<char> = Vec::new();
    crate::text::push_str(&mut out, name.as_str());
    crate::text::push_str(&mut out, " - ");
    crate::text::push_str(&mut out, artist.as_str());
    crate::text::string_of(&out)
}

impl Grid {
    /// The clue list: entries in reading order, each start cell numbered in
    /// the order it first appears.
    pub fn numbered_entries(&self) -> (r: Vec<NumberedEntry>)
        requires
            all_clue_defined(self.entries_model()),
        ensures
            numbered_view(r@) == numbering(self.entries_model()),
            forall|i: int, j: int|
                0 <= i < j < r@.len() ==> (#[trigger] r@[i]).y <= (#[trigger] r@[j]).y && (r@[i].y == r@[j].y
                    ==> r@[i].x <= r@[j].x),
            forall|i: int, j: int|
                0 <= i < r@.len() && 0 <= j < r@.len() && ((#[trigger] r@[i]).y < (#[trigger] r@[j]).y || (
                r@[i].y == r@[j].y && r@[i].x < r@[j].x)) ==> r@[i].number < r@[j].number,
    {
        let sorted = sort_reading(&self.entries);
        let ghost ord = entries_view(sorted@);
        let ghost cells = start_cells(ord);
        let ghost full = first_appearances(cells);
        proof {
            lemma_first_appearances_no_dup(cells);
        }
        let mut seen: Vec<(usize, usize)> = Vec::new();
        let mut numbers: Vec<usize> = Vec::new();
        let mut i: usize = 0;
        assert(cells.take(0) =~= Seq::<(nat, nat)>::empty());
        while i < sorted.len()
            invariant
                i <= sorted.len(),
                ord == entries_view(sorted@),
                cells == start_cells(ord),
                full == first_appearances(cells),
                full.no_duplicates(),
                seen@.map_values(|p: (usize, usize)| (p.0 as nat, p.1 as nat)) == first_appearances(cells.take(i as int)),
                seen@.len() <= i,
                numbers@.len() == i,
                forall|q: int| 0 <= q < i ==> #[trigger] numbers@[q] == index_in(full, cells[q]) + 1,
            decreases sorted.len() - i,
        {
            let ghost sv = seen@.map_values(|p: (usize, usize)| (p.0 as nat, p.1 as nat));
            let ex = sorted[i].x;
            let ey = sorted[i].y;
            assert(cells[i as int] == (ex as nat, ey as nat));
            let mut k: usize = 0;
            let mut hit = false;
            while k < seen.len() && !hit
                invariant
                    k <= seen@.len(),
                    sv == seen@.map_values(|p: (usize, usize)| (p.0 as nat, p.1 as nat)),
                    hit ==> k < seen@.len() && sv[k as int] == (ex as nat, ey as nat),
                    forall|q: int| 0 <= q < k ==> sv[q] != (ex as nat, ey as nat),
                decreases (seen.len() - k) as int + (if hit { 0int } else { 1int }),
            {
                assert(sv[k as int] == (seen@[k as int].0 as nat, seen@[k as int].1 as nat));
                if seen[k].0 == ex && seen[k].1 == ey {
                    hit = true;
                } else {
                    k = k + 1;
                }
            }
            proof {
                lemma_first_appearances_prefix(cells, i as int, cells.len() as int);
                lemma_first_appearances_prefix(cells, i + 1, cells.len() as int);
                assert(cells.take(cells.len() as int) =~= cells);
                assert(cells.take(i + 1).drop_last() =~= cells.take(i as int));
                assert(cells.take(i + 1).last() == cells[i as int]);
            }
            if hit {
                proof {
                    assert(full[k as int] == sv[k as int]);
                    assert forall|q: int| 0 <= q < k implies full[q] != cells[i as int] by {
                        assert(full[q] == sv[q]);
                    }
                    lemma_index_in(full, cells[i as int], k as int);
                    assert(sv.contains(cells[i as int]));
                }
                numbers.push(k + 1);
            } else {
                let m = seen.len();
                proof {
                    assert(!sv.contains(cells[i as int]));
                    let nv = first_appearances(cells.take(i + 1));
                    assert(nv == sv.push(cells[i as int]));
                    assert(full[m as int] == nv[m as int]);
                    assert forall|q: int| 0 <= q < m implies full[q] != cells[i as int] by {
                        assert(full[q] == nv[q]);
                        assert(nv[q] == sv[q]);
                    }
                    lemma_index_in(full, cells[i as int], m as int);
                }
                seen.push((ex, ey));
                numbers.push(m + 1);
                assert(seen@.map_values(|p: (usize, usize)| (p.0 as nat, p.1 as nat)) =~= sv.push(
                    cells[i as int],
                ));
            }
            i = i + 1;
        }
        proof {
            let es = self.entries_model();
            lemma_stable_sort_members(es, |a: EntryModel, b: EntryModel| reading_before(a, b));
            assert forall|q: int| 0 <= q < ord.len() implies clue_defined((#[trigger] ord[q]).candidate) by {
                assert(es.contains(ord[q]));
                let t = choose|t: int| 0 <= t < es.len() && es[t] == ord[q];
                assert(clue_defined(es[t].candidate));
            }
        }
        let mut out: Vec<NumberedEntry> = Vec::new();
        let mut j: usize = 0;
        assert(numbered_view(out@) =~= Seq::new(0nat, |q: int| numbered_at(ord, q)));
        while j < sorted.len()
            invariant
                j <= sorted.len(),
                ord == entries_view(sorted@),
                ord == reading_order(self.entries_model()),
                cells == start_cells(ord),
                full == first_appearances(cells),
                numbers@.len() == sorted@.len(),
                forall|q: int| 0 <= q < sorted@.len() ==> #[trigger] numbers@[q] == index_in(full, cells[q]) + 1,
                all_clue_defined(ord),
                numbered_view(out@) == Seq::new(j as nat, |q: int| numbered_at(ord, q)),
            decreases sorted.len() - j,
        {
            let e = &sorted[j];
            assert(ord[j as int] == e@);
            assert(clue_defined(ord[j as int].candidate));
            let item = NumberedEntry {
                number: numbers[j],
                x: e.x,
                y: e.y,
                direction: e.direction,
                clue: e.candidate.clue_text(),
                answer: e.candidate.normalized.clone(),
                source: source_line(&e.candidate.track_name, &e.candidate.track_artist),
            };
            assert(item@ == numbered_at(ord, j as int));
            let ghost before = numbered_view(out@);
            let ghost iv = item@;
            out.push(item);
            assert(numbered_view(out@) =~= before.push(iv));
            assert(numbered_view(out@) =~= Seq::new((j + 1) as nat, |q: int| numbered_at(ord, q)));
            j = j + 1;
        }
        proof {
            let n = numbering(self.entries_model());
            lemma_numbering_reading_order(self.entries_model());
            assert(numbered_view(out@) == n);
            assert forall|i: int, j: int| 0 <= i < j < out@.len() implies (#[trigger] out@[i]).y <= (
            #[trigger] out@[j]).y && (out@[i].y == out@[j].y ==> out@[i].x <= out@[j].x) by {
                assert(n[i] == out@[i]@ && n[j] == out@[j]@);
            }
            assert forall|i: int, j: int|
                0 <= i < out@.len() && 0 <= j < out@.len() && ((#[trigger] out@[i]).y < (
                #[trigger] out@[j]).y || (out@[i].y == out@[j].y && out@[i].x < out@[j].x)) implies out@[i].number
                < out@[j].number by {
                assert(n[i] == out@[i]@ && n[j] == out@[j]@);
            }
        }
        out
    }
}

// ---------------------------------------------------------------------------
// Facts about listed placements
// ---------------------------------------------------------------------------

pub proof fn lemma_crossing_count_le(g: Grid, x: int, y: int, d: Direction, n: int)
    requires
        n >= 0,
    ensures
        crossing_count(g, x, y, d, n) <= n,
    decreases n,
{
    if n > 0 {
        lemma_crossing_count_le(g, x, y, d, n - 1);
    }
}

/// Every listed placement is valid and starts inside the grid.
pub open spec fn placement_listed_ok(g: Grid, c: CandidateModel, p: (int, int, Direction, nat)) -> bool {
    &&& 0 <= p.0 < g.width
    &&& 0 <= p.1 < g.height
    &&& placement(g, c, p.0, p.1, p.2) == Some(p.3)
}

proof fn lemma_row_members(g: Grid, c: CandidateModel, d: Direction, y: int, x: int, max_x: int)
    requires
        0 <= y < g.height,
        max_x < g.width,
    ensures
        forall|i: int|
            0 <= i < row_placements(g, c, d, y, x, max_x).len() ==> placement_listed_ok(
                g,
                c,
                #[trigger] row_placements(g, c, d, y, x, max_x)[i],
            ),
    decreases max_x + 1 - x,
{
    if x <= max_x && x >= 0 {
        lemma_row_members(g, c, d, y, x + 1, max_x);
        let head = match placement(g, c, x, y, d) {
            Some(k) => seq![(x, y, d, k)],
            None => Seq::<(int, int, Direction, nat)>::empty(),
        };
        let rest = row_placements(g, c, d, y, x + 1, max_x);
        assert forall|i: int| 0 <= i < (head + rest).len() implies placement_listed_ok(
            g,
            c,
            #[trigger] (head + rest)[i],
        ) by {
            if i >= head.len() {
                assert((head + rest)[i] == rest[i - head.len()]);
            }
        }
    }
}

proof fn lemma_rows_members(g: Grid, c: CandidateModel, d: Direction, y: int, max_x: int, max_y: int)
    requires
        0 <= y,
        max_x < g.width,
        max_y < g.height,
    ensures
        forall|i: int|
            0 <= i < rows_placements(g, c, d, y, max_x, max_y).len() ==> placement_listed_ok(
                g,
                c,
                #[trigger] rows_placements(g, c, d, y, max_x, max_y)[i],
            ),
    decreases max_y + 1 - y,
{
    if y <= max_y {
        lemma_row_members(g, c, d, y, 0, max_x);
        lemma_rows_members(g, c, d, y + 1, max_x, max_y);
        let head = row_placements(g, c, d, y, 0, max_x);
        let rest = rows_placements(g, c, d, y + 1, max_x, max_y);
        assert forall|i: int| 0 <= i < (head + rest).len() implies placement_listed_ok(
            g,
            c,
            #[trigger] (head + rest)[i],
        ) by {
            if i >= head.len() {
                assert((head + rest)[i] == rest[i - head.len()]);
            } else {
                assert((head + rest)[i] == head[i]);
            }
        }
    }
}

/// Every placement that `placements_for` lists is a valid placement inside
/// the grid.
pub proof fn lemma_placements_valid(g: Grid, c: CandidateModel)
    requires
        g.width > 0,
        g.height > 0,
    ensures
        forall|i: int|
            0 <= i < all_placements(g, c).len() ==> placement_listed_ok(g, c, #[trigger] all_placements(g, c)[i]),
{
    let len = byte_len(c.normalized) as int;
    let a = direction_placements(g, c, Direction::Across);
    let b = direction_placements(g, c, Direction::Down);
    if len == 0 {
        lemma_rows_empty(g, c, Direction::Across, 0, sat_sub(g.width as int, len), sat_sub(g.height as int, 1));
        lemma_rows_empty(g, c, Direction::Down, 0, sat_sub(g.width as int, 1), sat_sub(g.height as int, len));
        assert(all_placements(g, c) =~= Seq::<(int, int, Direction, nat)>::empty());
    } else {
        if !(len > g.width) {
            lemma_rows_members(g, c, Direction::Across, 0, sat_sub(g.width as int, len), sat_sub(g.height as int, 1));
        }
        if !(len > g.height) {
            lemma_rows_members(g, c, Direction::Down, 0, sat_sub(g.width as int, 1), sat_sub(g.height as int, len));
        }
        assert forall|i: int| 0 <= i < (a + b).len() implies placement_listed_ok(g, c, #[trigger] (a + b)[i]) by {
            if i >= a.len() {
                assert((a + b)[i] == b[i - a.len()]);
            } else {
                assert((a + b)[i] == a[i]);
            }
        }
    }
}


// ---------------------------------------------------------------------------
// Layout invariants
// ---------------------------------------------------------------------------

/// Every letter of entry `e` lies inside the grid, in the cell that holds it.
pub open spec fn entry_written(g: Grid, e: EntryModel) -> bool {
    forall|s: int|
        0 <= s < e.candidate.normalized.len() ==> {
            &&& 0 <= path_x(e.x as int, e.direction, s) < g.width
            &&& 0 <= path_y(e.y as int, e.direction, s) < g.height
            &&& #[trigger] g.cell_at(path_x(e.x as int, e.direction, s), path_y(e.y as int, e.direction, s))
                == Some(e.candidate.normalized[s])
        }
}

/// The letters of every entry are in the grid.
pub open spec fn letters_consistent(g: Grid) -> bool {
    forall|i: int| 0 <= i < g.entries_model().len() ==> entry_written(g, #[trigger] g.entries_model()[i])
}

/// Every entry after the first crosses at least one entry placed before it.
pub open spec fn linked(g: Grid) -> bool {
    forall|i: int| 1 <= i < g.entries_model().len() ==> (#[trigger] g.entries_model()[i]).crossings >= 1
}

/// `g2` has the size of `g`, keeps its entries (in order, first) and every
/// letter already written.
pub open spec fn extends(g: Grid, g2: Grid) -> bool {
    &&& g2.width == g.width
    &&& g2.height == g.height
    &&& g.entries_model().len() <= g2.entries_model().len()
    &&& g2.entries_model().take(g.entries_model().len() as int) == g.entries_model()
    &&& forall|cx: int, cy: int|
        0 <= cx < g.width && 0 <= cy < g.height && (#[trigger] g.cell_at(cx, cy)) is Some ==> g2.cell_at(cx, cy)
            == g.cell_at(cx, cy)
}

pub proof fn lemma_extends_refl(g: Grid)
    ensures
        extends(g, g),
{
    assert(g.entries_model().take(g.entries_model().len() as int) =~= g.entries_model());
}

pub proof fn lemma_extends_trans(a: Grid, b: Grid, c: Grid)
    requires
        extends(a, b),
        extends(b, c),
    ensures
        extends(a, c),
{
    let n = a.entries_model().len() as int;
    let m = b.entries_model().len() as int;
    assert(c.entries_model().take(n) =~= c.entries_model().take(m).take(n));
    assert forall|cx: int, cy: int|
        0 <= cx < a.width && 0 <= cy < a.height && (#[trigger] a.cell_at(cx, cy)) is Some implies c.cell_at(cx, cy)
            == a.cell_at(cx, cy) by {
        assert(b.cell_at(cx, cy) == a.cell_at(cx, cy));
    }
}

/// Placing an entry keeps every letter in the grid consistent with every
/// entry, writes the new entry's letters, never changes a letter already
/// written, and (once the grid has an entry) links the new entry to an old one.
pub proof fn lemma_place_keeps_layout(g: Grid, g2: Grid, c: CandidateModel, x: int, y: int, d: Direction, k: nat)
    requires
        0 <= x,
        0 <= y,
        letters_consistent(g),
        linked(g),
        placement_defined(g, c, x, y, d),
        placement(g, c, x, y, d) == Some(k),
        placed(g, g2, c, x, y, d, k),
    ensures
        letters_consistent(g2),
        linked(g2),
        extends(g, g2),
        k <= c.normalized.len(),
        g.entries_model().len() > 0 ==> k >= 1,
        x < g.width,
        y < g.height,
{
    let word = c.normalized;
    let n = word.len() as int;
    let len = byte_len(word) as int;
    crate::text::lemma_byte_len_ge_len(word);
    lemma_crossing_count_le(g, x, y, d, n);
    assert(fits(g, len, x, y, d));
    assert(!entry_conflict(g, c, x, y, d));
    assert(letters_ok(g, word, x, y, d));
    assert(0 <= x < g.width && 0 <= y < g.height);
    let es = g.entries_model();
    let new_e = EntryModel { candidate: c, x: x as nat, y: y as nat, direction: d, crossings: k };
    assert(g2.entries_model() == es.push(new_e));
    assert(entry_written(g2, new_e)) by {
        assert forall|s: int| 0 <= s < n implies {
            &&& 0 <= path_x(x, d, s) < g2.width
            &&& 0 <= path_y(y, d, s) < g2.height
            &&& #[trigger] g2.cell_at(path_x(x, d, s), path_y(y, d, s)) == Some(word[s])
        } by {
            let cx = path_x(x, d, s);
            let cy = path_y(y, d, s);
            assert(on_path(x, y, d, n, cx, cy));
            assert(step_of(x, y, d, cx, cy) == s);
            assert(g2.cell_at(cx, cy) == Some(word[s]));
        }
    }
    assert forall|cx: int, cy: int|
        0 <= cx < g.width && 0 <= cy < g.height && (#[trigger] g.cell_at(cx, cy)) is Some implies g2.cell_at(cx, cy)
            == g.cell_at(cx, cy) by {
        if on_path(x, y, d, n, cx, cy) {
            let t = step_of(x, y, d, cx, cy);
            assert(path_x(x, d, t) == cx && path_y(y, d, t) == cy);
            assert(0 <= t < n);
            let _ = g.cell_at(path_x(x, d, t), path_y(y, d, t));
        }
    }
    assert forall|i: int| 0 <= i < g2.entries_model().len() implies entry_written(
        g2,
        #[trigger] g2.entries_model()[i],
    ) by {
        if i < es.len() {
            let e = es[i];
            assert(g2.entries_model()[i] == e);
            assert(entry_written(g, e));
            assert forall|s: int| 0 <= s < e.candidate.normalized.len() implies {
                &&& 0 <= path_x(e.x as int, e.direction, s) < g2.width
                &&& 0 <= path_y(e.y as int, e.direction, s) < g2.height
                &&& #[trigger] g2.cell_at(path_x(e.x as int, e.direction, s), path_y(e.y as int, e.direction, s))
                    == Some(e.candidate.normalized[s])
            } by {
                let cx = path_x(e.x as int, e.direction, s);
                let cy = path_y(e.y as int, e.direction, s);
                assert(g.cell_at(cx, cy) == Some(e.candidate.normalized[s]));
            }
        } else {
            assert(g2.entries_model()[i] == new_e);
        }
    }
    assert forall|i: int| 1 <= i < g2.entries_model().len() implies (#[trigger] g2.entries_model()[i]).crossings >= 1 by {
        if i < es.len() {
            assert(g2.entries_model()[i] == es[i]);
        }
    }
    assert(g2.entries_model().take(es.len() as int) =~= es);
}


proof fn lemma_row_complete(g: Grid, c: CandidateModel, d: Direction, y: int, x0: int, max_x: int, x: int)
    requires
        0 <= x0 <= x <= max_x,
        placement(g, c, x, y, d) is Some,
    ensures
        row_placements(g, c, d, y, x0, max_x).contains((x, y, d, placement(g, c, x, y, d)->0)),
    decreases x - x0,
{
    let head = match placement(g, c, x0, y, d) {
        Some(k) => seq![(x0, y, d, k)],
        None => Seq::<(int, int, Direction, nat)>::empty(),
    };
    let rest = row_placements(g, c, d, y, x0 + 1, max_x);
    assert(row_placements(g, c, d, y, x0, max_x) == head + rest);
    let item = (x, y, d, placement(g, c, x, y, d)->0);
    if x == x0 {
        assert((head + rest)[0] == item);
    } else {
        lemma_row_complete(g, c, d, y, x0 + 1, max_x, x);
        let j = choose|j: int| 0 <= j < rest.len() && rest[j] == item;
        assert((head + rest)[head.len() + j] == item);
    }
}

proof fn lemma_rows_complete(g: Grid, c: CandidateModel, d: Direction, y0: int, max_x: int, max_y: int, x: int, y: int)
    requires
        0 <= y0 <= y <= max_y,
        0 <= x <= max_x,
        placement(g, c, x, y, d) is Some,
    ensures
        rows_placements(g, c, d, y0, max_x, max_y).contains((x, y, d, placement(g, c, x, y, d)->0)),
    decreases y - y0,
{
    let head = row_placements(g, c, d, y0, 0, max_x);
    let rest = rows_placements(g, c, d, y0 + 1, max_x, max_y);
    assert(rows_placements(g, c, d, y0, max_x, max_y) == head + rest);
    let item = (x, y, d, placement(g, c, x, y, d)->0);
    if y == y0 {
        lemma_row_complete(g, c, d, y, 0, max_x, x);
        let j = choose|j: int| 0 <= j < head.len() && head[j] == item;
        assert((head + rest)[j] == item);
    } else {
        lemma_rows_complete(g, c, d, y0 + 1, max_x, max_y, x, y);
        let j = choose|j: int| 0 <= j < rest.len() && rest[j] == item;
        assert((head + rest)[head.len() + j] == item);
    }
}

/// Every valid placement that starts inside the grid is listed by
/// `placements_for` (with its crossings).
pub proof fn lemma_placements_complete(g: Grid, c: CandidateModel, x: int, y: int, d: Direction)
    requires
        0 <= x < g.width,
        0 <= y < g.height,
        placement(g, c, x, y, d) is Some,
    ensures
        all_placements(g, c).contains((x, y, d, placement(g, c, x, y, d)->0)),
{
    let len = byte_len(c.normalized) as int;
    let item = (x, y, d, placement(g, c, x, y, d)->0);
    assert(fits(g, len, x, y, d));
    let a = direction_placements(g, c, Direction::Across);
    let b = direction_placements(g, c, Direction::Down);
    match d {
        Direction::Across => {
            lemma_rows_complete(g, c, d, 0, sat_sub(g.width as int, len), sat_sub(g.height as int, 1), x, y);
            let j = choose|j: int| 0 <= j < a.len() && a[j] == item;
            assert((a + b)[j] == item);
        },
        Direction::Down => {
            lemma_rows_complete(g, c, d, 0, sat_sub(g.width as int, 1), sat_sub(g.height as int, len), x, y);
            let j = choose|j: int| 0 <= j < b.len() && b[j] == item;
            assert((a + b)[a.len() + j] == item);
        },
    }
}


// ---------------------------------------------------------------------------
// Layouts built by placing entries on an empty grid
// ---------------------------------------------------------------------------

/// A `w` by `h` grid with no entry and no letter (what `Grid::new` makes).
pub open spec fn empty_grid(g: Grid, w: int, h: int) -> bool {
    &&& g.wf()
    &&& g.width == w
    &&& g.height == h
    &&& g.entries_model().len() == 0
    &&& forall|k: int| 0 <= k < g.cells_view().len() ==> #[trigger] g.cells_view()[k] is None
}

/// `b` is `a` after a successful `place` of `c` at `(x, y)` in direction `d`.
pub open spec fn step(a: Grid, b: Grid, c: CandidateModel, x: int, y: int, d: Direction) -> bool {
    &&& 0 <= x
    &&& 0 <= y
    &&& placement_defined(a, c, x, y, d)
    &&& placement(a, c, x, y, d) matches Some(k) && placed(a, b, c, x, y, d, k)
}

/// `gs` are the grids of successive placements `steps`.
pub open spec fn chain(gs: Seq<Grid>, steps: Seq<(CandidateModel, int, int, Direction)>) -> bool {
    &&& gs.len() == steps.len() + 1
    &&& forall|i: int|
        0 <= i < steps.len() ==> step(gs[i], gs[i + 1], (#[trigger] steps[i]).0, steps[i].1, steps[i].2, steps[i].3)
}

/// `g` is `start` followed by successful placements of candidates of `cs`.
pub open spec fn built(start: Grid, g: Grid, cs: Seq<CandidateModel>) -> bool {
    exists|gs: Seq<Grid>, steps: Seq<(CandidateModel, int, int, Direction)>|
        #![trigger chain(gs, steps), gs.last()]
        chain(gs, steps) && gs[0] == start && gs.last() == g && forall|i: int|
            0 <= i < steps.len() ==> cs.contains((#[trigger] steps[i]).0)
}

pub proof fn lemma_built_refl(g: Grid, cs: Seq<CandidateModel>)
    ensures
        built(g, g, cs),
{
    let gs = seq![g];
    let steps = Seq::<(CandidateModel, int, int, Direction)>::empty();
    assert(chain(gs, steps));
    assert(gs.last() == g);
}

/// A placement followed by a built layout is a built layout.
pub proof fn lemma_built_prepend(
    a: Grid,
    b: Grid,
    g: Grid,
    c: CandidateModel,
    x: int,
    y: int,
    d: Direction,
    cs: Seq<CandidateModel>,
)
    requires
        step(a, b, c, x, y, d),
        cs.contains(c),
        built(b, g, cs),
    ensures
        built(a, g, cs),
{
    let (gs, steps) = choose|gs: Seq<Grid>, steps: Seq<(CandidateModel, int, int, Direction)>|
        #![trigger chain(gs, steps), gs.last()]
        chain(gs, steps) && gs[0] == b && gs.last() == g && forall|i: int|
            0 <= i < steps.len() ==> cs.contains((#[trigger] steps[i]).0);
    let gs2 = seq![a] + gs;
    let steps2 = seq![(c, x, y, d)] + steps;
    assert forall|i: int| 0 <= i < steps2.len() implies step(
        gs2[i],
        gs2[i + 1],
        (#[trigger] steps2[i]).0,
        steps2[i].1,
        steps2[i].2,
        steps2[i].3,
    ) by {
        if i == 0 {
            assert(gs2[0] == a && gs2[1] == gs[0] && steps2[0] == (c, x, y, d));
        } else {
            assert(gs2[i] == gs[i - 1] && gs2[i + 1] == gs[i] && steps2[i] == steps[i - 1]);
            let _ = steps[i - 1];
        }
    }
    assert(chain(gs2, steps2));
    assert forall|i: int| 0 <= i < steps2.len() implies cs.contains((#[trigger] steps2[i]).0) by {
        if i > 0 {
            assert(steps2[i] == steps[i - 1]);
        }
    }
    assert(gs2.last() == gs.last());
    assert(gs2[0] == a);
}

/// The first `n` entries' lengths (in letters).
pub open spec fn sum_lengths(es: Seq<EntryModel>) -> nat
    decreases es.len(),
{
    if es.len() == 0 {
        0
    } else {
        sum_lengths(es.drop_last()) + es.last().candidate.normalized.len()
    }
}

pub open spec fn total_crossings(es: Seq<EntryModel>) -> nat
    decreases es.len(),
{
    if es.len() == 0 {
        0
    } else {
        total_crossings(es.drop_last()) + es.last().crossings
    }
}

/// No two entries share a track or an answer.
pub open spec fn distinct_entries(es: Seq<EntryModel>) -> bool {
    forall|i: int, j: int|
        0 <= i < j < es.len() ==> (#[trigger] es[i]).candidate.track_index != (#[trigger] es[j]).candidate.track_index
            && es[i].candidate.normalized != es[j].candidate.normalized
}

/// Every filled cell lies on some entry.
pub open spec fn covered(g: Grid) -> bool {
    forall|cx: int, cy: int|
        0 <= cx < g.width && 0 <= cy < g.height && (#[trigger] g.cell_at(cx, cy)) is Some ==> exists|i: int|
            0 <= i < g.entries_model().len() && on_path(
                (#[trigger] g.entries_model()[i]).x as int,
                g.entries_model()[i].y as int,
                g.entries_model()[i].direction,
                g.entries_model()[i].candidate.normalized.len() as int,
                cx,
                cy,
            )
}

/// What every layout built on an empty grid keeps: one cell per position;
/// entries of distinct tracks and answers; each entry's letters in its
/// cells; every filled cell on an entry; the first entry crossing nothing
/// and every later one crossing an earlier one; and as many filled cells as
/// the entries have letters, less their crossings.
pub open spec fn well_laid(g: Grid) -> bool {
    let es = g.entries_model();
    &&& g.wf()
    &&& distinct_entries(es)
    &&& letters_consistent(g)
    &&& covered(g)
    &&& (es.len() > 0 ==> es[0].crossings == 0)
    &&& linked(g)
    &&& filled(g.cells_view()) + total_crossings(es) == sum_lengths(es)
}

proof fn lemma_filled_none(s: Seq<Option<char>>)
    requires
        forall|k: int| 0 <= k < s.len() ==> #[trigger] s[k] is None,
    ensures
        filled(s) == 0,
    decreases s.len(),
{
    if s.len() > 0 {
        assert forall|k: int| 0 <= k < s.drop_last().len() implies #[trigger] s.drop_last()[k] is None by {
            assert(s.drop_last()[k] == s[k]);
        }
        lemma_filled_none(s.drop_last());
        assert(s[s.len() - 1] is None);
    }
}

/// An empty grid is well laid.
pub proof fn lemma_empty_well_laid(g: Grid, w: int, h: int)
    requires
        empty_grid(g, w, h),
    ensures
        well_laid(g),
{
    lemma_filled_none(g.cells_view());
    assert forall|cx: int, cy: int|
        0 <= cx < g.width && 0 <= cy < g.height implies !((#[trigger] g.cell_at(cx, cy)) is Some) by {
        lemma_index_in_range(cx, cy, g.width as int, g.height as int);
        assert(g.cells_view()[cy * g.width + cx] is None);
    }
}

proof fn lemma_crossing_count_zero(g: Grid, x: int, y: int, d: Direction, n: int)
    requires
        forall|s: int| 0 <= s < n ==> (#[trigger] g.cell_at(path_x(x, d, s), path_y(y, d, s))) is None,
    ensures
        crossing_count(g, x, y, d, n) == 0,
    decreases n,
{
    if n > 0 {
        lemma_crossing_count_zero(g, x, y, d, n - 1);
        assert(g.cell_at(path_x(x, d, n - 1), path_y(y, d, n - 1)) is None);
    }
}

/// A successful placement keeps a layout well laid.
pub proof fn lemma_step_well_laid(a: Grid, b: Grid, c: CandidateModel, x: int, y: int, d: Direction)
    requires
        well_laid(a),
        step(a, b, c, x, y, d),
    ensures
        well_laid(b),
        extends(a, b),
        x < a.width,
        y < a.height,
{
    let k = placement(a, c, x, y, d)->0;
    lemma_place_keeps_layout(a, b, c, x, y, d, k);
    let es = a.entries_model();
    let word = c.normalized;
    let n = word.len() as int;
    let len = byte_len(word) as int;
    crate::text::lemma_byte_len_ge_len(word);
    let ne = EntryModel { candidate: c, x: x as nat, y: y as nat, direction: d, crossings: k };
    let es2 = b.entries_model();
    assert(es2 == es.push(ne));
    assert(!entry_conflict(a, c, x, y, d));
    assert(fits(a, len, x, y, d));
    assert(distinct_entries(es2)) by {
        assert forall|i: int, j: int| 0 <= i < j < es2.len() implies (#[trigger] es2[i]).candidate.track_index
            != (#[trigger] es2[j]).candidate.track_index && es2[i].candidate.normalized
            != es2[j].candidate.normalized by {
            assert(es2[i] == es[i]);
            if j < es.len() {
                assert(es2[j] == es[j]);
            } else {
                let _ = a.entries_model()[i];
            }
        }
    }
    assert(covered(b)) by {
        assert forall|cx: int, cy: int|
            0 <= cx < b.width && 0 <= cy < b.height && (#[trigger] b.cell_at(cx, cy)) is Some implies exists|i: int|
                0 <= i < es2.len() && on_path(
                    (#[trigger] es2[i]).x as int,
                    es2[i].y as int,
                    es2[i].direction,
                    es2[i].candidate.normalized.len() as int,
                    cx,
                    cy,
                ) by {
            if on_path(x, y, d, n, cx, cy) {
                assert(es2[es.len() as int] == ne);
            } else {
                assert(a.cell_at(cx, cy) is Some);
                let i = choose|i: int|
                    0 <= i < es.len() && on_path(
                        (#[trigger] es[i]).x as int,
                        es[i].y as int,
                        es[i].direction,
                        es[i].candidate.normalized.len() as int,
                        cx,
                        cy,
                    );
                assert(es2[i] == es[i]);
            }
        }
    }
    if es.len() == 0 {
        assert forall|s: int| 0 <= s < n implies (#[trigger] a.cell_at(path_x(x, d, s), path_y(y, d, s))) is None by {
            let cx = path_x(x, d, s);
            let cy = path_y(y, d, s);
            assert(0 <= cx < a.width && 0 <= cy < a.height);
            if a.cell_at(cx, cy) is Some {
                let i = choose|i: int|
                    0 <= i < es.len() && on_path(
                        (#[trigger] es[i]).x as int,
                        es[i].y as int,
                        es[i].direction,
                        es[i].candidate.normalized.len() as int,
                        cx,
                        cy,
                    );
            }
        }
        lemma_crossing_count_zero(a, x, y, d, n);
        assert(es2[0] == ne);
    } else {
        assert(es2[0] == es[0]);
    }
    assert(es2.drop_last() == es);
    assert(es2.last() == ne);
}

/// A layout built by successful placements on an empty grid is well laid:
/// whatever the placements, its entries have distinct tracks and answers,
/// their letters are in their cells, every filled cell is on an entry, the
/// first entry crosses nothing and each later one crosses an earlier one,
/// and the filled cells number the entries' letters less their crossings.
pub proof fn lemma_built_well_laid(start: Grid, g: Grid, cs: Seq<CandidateModel>)
    requires
        well_laid(start),
        built(start, g, cs),
    ensures
        well_laid(g),
        extends(start, g),
{
    let (gs, steps) = choose|gs: Seq<Grid>, steps: Seq<(CandidateModel, int, int, Direction)>|
        #![trigger chain(gs, steps), gs.last()]
        chain(gs, steps) && gs[0] == start && gs.last() == g && forall|i: int|
            0 <= i < steps.len() ==> cs.contains((#[trigger] steps[i]).0);
    lemma_chain_well_laid(gs, steps, steps.len() as int);
}

/// The layout law from a new grid: whatever successful placements follow
/// `Grid::new(w, h)`, the layout is well laid (see `well_laid`).
pub proof fn lemma_new_grid_well_laid(start: Grid, g: Grid, w: int, h: int, cs: Seq<CandidateModel>)
    requires
        empty_grid(start, w, h),
        built(start, g, cs),
    ensures
        well_laid(g),
        g.width == w,
        g.height == h,
{
    lemma_empty_well_laid(start, w, h);
    lemma_built_well_laid(start, g, cs);
}

proof fn lemma_chain_well_laid(gs: Seq<Grid>, steps: Seq<(CandidateModel, int, int, Direction)>, n: int)
    requires
        chain(gs, steps),
        well_laid(gs[0]),
        0 <= n <= steps.len(),
    ensures
        well_laid(gs[n]),
        extends(gs[0], gs[n]),
    decreases n,
{
    if n == 0 {
        lemma_extends_refl(gs[0]);
    } else {
        lemma_chain_well_laid(gs, steps, n - 1);
        let st = steps[n - 1];
        assert(step(gs[n - 1], gs[n], st.0, st.1, st.2, st.3));
        lemma_step_well_laid(gs[n - 1], gs[n], st.0, st.1, st.2, st.3);
        lemma_extends_trans(gs[0], gs[n - 1], gs[n]);
    }
}


/// Two grids with the same size, cells and entries.
pub open spec fn same_grid(a: Grid, b: Grid) -> bool {
    &&& a.width == b.width
    &&& a.height == b.height
    &&& a.cells_view() == b.cells_view()
    &&& a.entries_model() == b.entries_model()
}

proof fn lemma_crossing_count_same(a: Grid, b: Grid, x: int, y: int, d: Direction, n: int)
    requires
        same_grid(a, b),
    ensures
        crossing_count(a, x, y, d, n) == crossing_count(b, x, y, d, n),
    decreases n,
{
    if n > 0 {
        lemma_crossing_count_same(a, b, x, y, d, n - 1);
    }
}

/// The placement rules read a grid only through its size, cells and
/// entries.
pub proof fn lemma_placement_same(a: Grid, b: Grid, c: CandidateModel, x: int, y: int, d: Direction)
    requires
        same_grid(a, b),
    ensures
        placement(a, c, x, y, d) == placement(b, c, x, y, d),
        placement_defined(a, c, x, y, d) == placement_defined(b, c, x, y, d),
        forall|n: Grid, k: nat| #[trigger] placed(a, n, c, x, y, d, k) == placed(b, n, c, x, y, d, k),
{
    assert forall|cx: int, cy: int| #[trigger] a.cell_at(cx, cy) == b.cell_at(cx, cy) by {}
    lemma_crossing_count_same(a, b, x, y, d, c.normalized.len() as int);
    let len = byte_len(c.normalized) as int;
    assert(letters_ok(a, c.normalized, x, y, d) == letters_ok(b, c.normalized, x, y, d)) by {
        if letters_ok(a, c.normalized, x, y, d) {
            assert forall|s: int| 0 <= s < c.normalized.len() implies match #[trigger] b.cell_at(
                path_x(x, d, s),
                path_y(y, d, s),
            ) {
                Some(e) => e == c.normalized[s],
                None => !side_touching(b, path_x(x, d, s), path_y(y, d, s), d),
            } by {
                assert(a.cell_at(path_x(x, d, s), path_y(y, d, s)) == b.cell_at(path_x(x, d, s), path_y(y, d, s)));
            }
        }
        if letters_ok(b, c.normalized, x, y, d) {
            assert forall|s: int| 0 <= s < c.normalized.len() implies match #[trigger] a.cell_at(
                path_x(x, d, s),
                path_y(y, d, s),
            ) {
                Some(e) => e == c.normalized[s],
                None => !side_touching(a, path_x(x, d, s), path_y(y, d, s), d),
            } by {
                assert(a.cell_at(path_x(x, d, s), path_y(y, d, s)) == b.cell_at(path_x(x, d, s), path_y(y, d, s)));
            }
        }
    }
    assert(entry_conflict(a, c, x, y, d) == entry_conflict(b, c, x, y, d));
    assert(ends_clear(a, x, y, d, len) == ends_clear(b, x, y, d, len));
    assert forall|n: Grid, k: nat| #[trigger] placed(a, n, c, x, y, d, k) == placed(b, n, c, x, y, d, k) by {
        if placed(a, n, c, x, y, d, k) {
            assert forall|cx: int, cy: int|
                0 <= cx < b.width && 0 <= cy < b.height implies #[trigger] n.cell_at(cx, cy) == if on_path(
                    x,
                    y,
                    d,
                    c.normalized.len() as int,
                    cx,
                    cy,
                ) {
                    Some(c.normalized[step_of(x, y, d, cx, cy)])
                } else {
                    b.cell_at(cx, cy)
                } by {
                assert(a.cell_at(cx, cy) == b.cell_at(cx, cy));
            }
        }
        if placed(b, n, c, x, y, d, k) {
            assert forall|cx: int, cy: int|
                0 <= cx < a.width && 0 <= cy < a.height implies #[trigger] n.cell_at(cx, cy) == if on_path(
                    x,
                    y,
                    d,
                    c.normalized.len() as int,
                    cx,
                    cy,
                ) {
                    Some(c.normalized[step_of(x, y, d, cx, cy)])
                } else {
                    a.cell_at(cx, cy)
                } by {
                assert(a.cell_at(cx, cy) == b.cell_at(cx, cy));
            }
        }
    }
}

} // verus!
