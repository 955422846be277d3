//! Answer candidates: phrases taken from titles, artists, albums, lyric
//! snippets and custom clues, normalised, scored and ranked.
use vstd::prelude::*;
use crate::input::{CustomClue, CustomModel, InputError, InputModel, PuzzleInput, Track, TrackModel};
use crate::text::{
    ascii_lower, byte_len, byte_len_capped, byte_offsets, chars_eq, chars_of,
    char_is_alphanumeric, filler_word, has_informative_context, informative_context,
    is_filler_word, lemma_byte_len_ge_len, lemma_byte_len_take_strict, lemma_spans_from_well_placed,
    lower_chars, normalize, normalize_chars, push_all, slice_chars, spans_view, spans_well_placed,
    str_byte_len, string_of, word_spans, word_spans_of,
};

pub use crate::text::normalize_for_grid;

verus! {

/// Shortest answer that is worth placing.
pub const MIN_FILL_LEN: usize = 3;

/// Longest answer that is ever placed.
pub const MAX_FILL_LEN: usize = 15;

/// Where an answer comes from.
#[derive(Debug, Clone, Copy, PartialEq, Eq, Hash, Structural)]
pub enum SourceKind {
    Title,
    Artist,
    Album,
    Snippet,
    Custom,
}

/// A phrase that may be placed in the grid, with what the clue needs.
#[derive(Debug)]
pub struct CandidateAnswer {
    pub normalized: String,
    pub original_phrase: String,
    pub source_text: String,
    pub source_kind: SourceKind,
    pub track_index: usize,
    pub track_name: String,
    pub track_artist: String,
    pub span: std::ops::Range<usize>,
    pub quality_score: i32,
    pub custom_clue: Option<String>,
    pub ambiguity_count: usize,
}

pub struct CandidateModel {
    pub normalized: Seq<char>,
    pub original_phrase: Seq<char>,
    pub source_text: Seq<char>,
    pub source_kind: SourceKind,
    pub track_index: nat,
    pub track_name: Seq<char>,
    pub track_artist: Seq<char>,
    pub span_start: nat,
    pub span_end: nat,
    pub quality_score: int,
    pub custom_clue: Option<Seq<char>>,
    pub ambiguity_count: nat,
}

impl View for CandidateAnswer {
    type V = CandidateModel;

    open spec fn view(&self) -> CandidateModel {
        CandidateModel {
            normalized: self.normalized@,
            original_phrase: self.original_phrase@,
            source_text: self.source_text@,
            source_kind: self.source_kind,
            track_index: self.track_index as nat,
            track_name: self.track_name@,
            track_artist: self.track_artist@,
            span_start: self.span.start as nat,
            span_end: self.span.end as nat,
            quality_score: self.quality_score as int,
            custom_clue: crate::input::opt_string_view(self.custom_clue),
            ambiguity_count: self.ambiguity_count as nat,
        }
    }
}

fn clone_opt_string(s: &Option<String>) -> (r: Option<String>)
    ensures
        r == *s,
{
    match s {
        Some(t) => Some(t.clone()),
        None => None,
    }
}

impl Clone for CandidateAnswer {
    fn clone(&self) -> (r: Self)
        ensures
            r == *self,
    {
        CandidateAnswer {
            normalized: self.normalized.clone(),
            original_phrase: self.original_phrase.clone(),
            source_text: self.source_text.clone(),
            source_kind: self.source_kind,
            track_index: self.track_index,
            track_name: self.track_name.clone(),
            track_artist: self.track_artist.clone(),
            span: std::ops::Range { start: self.span.start, end: self.span.end },
            quality_score: self.quality_score,
            custom_clue: clone_opt_string(&self.custom_clue),
            ambiguity_count: self.ambiguity_count,
        }
    }
}

pub open spec fn cands_view(v: Seq<CandidateAnswer>) -> Seq<CandidateModel> {
    v.map_values(|c: CandidateAnswer| c@)
}

// ---------------------------------------------------------------------------
// Scoring
// ---------------------------------------------------------------------------

/// The number of distinct values in `s`.
pub open spec fn distinct_count<A>(s: Seq<A>) -> nat
    decreases s.len(),
{
    if s.len() == 0 {
        0
    } else {
        distinct_count(s.drop_last()) + (if s.drop_last().contains(s.last()) {
            0nat
        } else {
            1nat
        })
    }
}

pub proof fn lemma_distinct_count_le<A>(s: Seq<A>)
    ensures
        distinct_count(s) <= s.len(),
    decreases s.len(),
{
    if s.len() > 0 {
        lemma_distinct_count_le(s.drop_last());
    }
}

pub open spec fn kind_weight(k: SourceKind) -> int {
    match k {
        SourceKind::Title => 12,
        SourceKind::Artist => 9,
        SourceKind::Album => 7,
        SourceKind::Snippet => 5,
        SourceKind::Custom => 18,
    }
}

/// The quality of a phrase: ten points per byte of its grid form, two per
/// distinct letter, a bonus for single words and for whole texts, and a
/// weight for its source.
pub open spec fn phrase_score(
    k: SourceKind,
    normalized: Seq<char>,
    word_count: int,
    start_word: int,
    end_word: int,
    total_words: int,
) -> int {
    byte_len(normalized) * 10 + distinct_count(normalized) * 2 + (if word_count == 1 {
        8
    } else {
        4 - word_count
    }) + (if start_word == 0 && end_word + 1 == total_words {
        8int
    } else {
        0int
    }) + kind_weight(k)
}

fn count_distinct_chars(v: &Vec<char>) -> (n: usize)
    ensures
        n == distinct_count(v@),
{
    let mut n: usize = 0;
    let mut i: usize = 0;
    assert(v@.take(0) =~= Seq::<char>::empty());
    while i < v.len()
        invariant
            i <= v.len(),
            n == distinct_count(v@.take(i as int)),
            n <= i,
        decreases v.len() - i,
    {
        let c = v[i];
        let mut seen = false;
        let mut j: usize = 0;
        while j < i
            invariant
                j <= i < v.len(),
                seen == (exists|k: int| 0 <= k < j && v@[k] == c),
                c == v@[i as int],
            decreases i - j,
        {
            if v[j] == c {
                seen = true;
            }
            j = j + 1;
        }
        let ghost pre = v@.take(i as int);
        assert(v@.take(i + 1).drop_last() =~= pre);
        assert(v@.take(i + 1).last() == c);
        assert(seen == pre.contains(c)) by {
            if seen {
                let k = choose|k: int| 0 <= k < i && v@[k] == c;
                assert(pre[k] == c);
            }
        }
        if !seen {
            n = n + 1;
        }
        i = i + 1;
    }
    assert(v@.take(v.len() as int) =~= v@);
    n
}

/// Quality of a phrase (see `phrase_score`), wrapped to `i32` as `i32`
/// arithmetic on the same terms wraps.
pub fn score_phrase(
    source_kind: SourceKind,
    normalized: &str,
    word_count: usize,
    start_word: usize,
    end_word: usize,
    total_words: usize,
) -> (r: i32)
    ensures
        r == phrase_score(
            source_kind,
            normalized@,
            word_count as int,
            start_word as int,
            end_word as int,
            total_words as int,
        ) as i32,
{
    let len = str_byte_len(normalized);
    let v = chars_of(normalized);
    score_chars(source_kind, &v, len, word_count, start_word, end_word, total_words)
}

fn score_chars(
    source_kind: SourceKind,
    v: &Vec<char>,
    len: usize,
    word_count: usize,
    start_word: usize,
    end_word: usize,
    total_words: usize,
) -> (r: i32)
    requires
        len == byte_len(v@),
    ensures
        r == phrase_score(
            source_kind,
            v@,
            word_count as int,
            start_word as int,
            end_word as int,
            total_words as int,
        ) as i32,
{
    let distinct = count_distinct_chars(v);
    let count = v.len();
    proof {
        lemma_distinct_count_le(v@);
    }
    let words_part: i128 = if word_count == 1 {
        8
    } else {
        4 - word_count as i128
    };
    let whole: i128 = if start_word == 0 && end_word < usize::MAX && end_word + 1 == total_words {
        8
    } else {
        0
    };
    let w: i128 = match source_kind {
        SourceKind::Title => 12,
        SourceKind::Artist => 9,
        SourceKind::Album => 7,
        SourceKind::Snippet => 5,
        SourceKind::Custom => 18,
    };
    let exact: i128 = (len as i128) * 10 + (distinct as i128) * 2 + words_part + whole + w;
    #[verifier::truncate]
    (exact as i32)
}

pub open spec fn source_priority(k: SourceKind) -> int {
    match k {
        SourceKind::Custom => 120,
        SourceKind::Title => 30,
        SourceKind::Album => 6,
        SourceKind::Artist => -6,
        SourceKind::Snippet => -22,
    }
}

pub fn source_priority_bonus(source_kind: SourceKind) -> (r: i32)
    ensures
        r == source_priority(source_kind),
{
    match source_kind {
        SourceKind::Custom => 120,
        SourceKind::Title => 30,
        SourceKind::Album => 6,
        SourceKind::Artist => -6,
        SourceKind::Snippet => -22,
    }
}

/// The penalty for an answer shared by several tracks. With more than two
/// tracks it depends on the share `a / t` of tracks that have the answer:
/// none below 3/5, full at 19/20 or more, a bit more than half from 4/5, a
/// quarter otherwise (rounded).
pub open spec fn ambiguity(k: SourceKind, a: int, t: int) -> int {
    if a <= 1 {
        0
    } else if t <= 2 {
        match k {
            SourceKind::Artist => 18,
            SourceKind::Album => 4,
            SourceKind::Snippet => 8,
            SourceKind::Title => 0,
            SourceKind::Custom => 0,
        }
    } else if 5 * a < 3 * t {
        0
    } else if 20 * a >= 19 * t {
        match k {
            SourceKind::Artist => 60,
            SourceKind::Album => 18,
            SourceKind::Snippet => 28,
            SourceKind::Title => 8,
            SourceKind::Custom => 4,
        }
    } else if 5 * a >= 4 * t {
        match k {
            SourceKind::Artist => 36,
            SourceKind::Album => 11,
            SourceKind::Snippet => 17,
            SourceKind::Title => 5,
            SourceKind::Custom => 2,
        }
    } else {
        match k {
            SourceKind::Artist => 15,
            SourceKind::Album => 5,
            SourceKind::Snippet => 7,
            SourceKind::Title => 2,
            SourceKind::Custom => 1,
        }
    }
}

pub fn ambiguity_penalty(source_kind: SourceKind, ambiguity_count: usize, total_tracks: usize) -> (r: i32)
    ensures
        r == ambiguity(source_kind, ambiguity_count as int, total_tracks as int),
        0 <= r <= 60,
{
    if ambiguity_count <= 1 {
        return 0;
    }
    if total_tracks <= 2 {
        return match source_kind {
            SourceKind::Artist => 18,
            SourceKind::Album => 4,
            SourceKind::Snippet => 8,
            SourceKind::Title => 0,
            SourceKind::Custom => 0,
        };
    }
    let a = ambiguity_count as u128;
    let t = total_tracks as u128;
    if 5 * a < 3 * t {
        0
    } else if 20 * a >= 19 * t {
        match source_kind {
            SourceKind::Artist => 60,
            SourceKind::Album => 18,
            SourceKind::Snippet => 28,
            SourceKind::Title => 8,
            SourceKind::Custom => 4,
        }
    } else if 5 * a >= 4 * t {
        match source_kind {
            SourceKind::Artist => 36,
            SourceKind::Album => 11,
            SourceKind::Snippet => 17,
            SourceKind::Title => 5,
            SourceKind::Custom => 2,
        }
    } else {
        match source_kind {
            SourceKind::Artist => 15,
            SourceKind::Album => 5,
            SourceKind::Snippet => 7,
            SourceKind::Title => 2,
            SourceKind::Custom => 1,
        }
    }
}

// ---------------------------------------------------------------------------
// Proposals: every phrase that a source offers, in order
// ---------------------------------------------------------------------------

/// One text that phrases are taken from.
pub struct SourceModel {
    pub track_index: nat,
    pub track: TrackModel,
    pub kind: SourceKind,
    pub text: Seq<char>,
    pub max_len: nat,
}

pub open spec fn is_metadata(k: SourceKind) -> bool {
    k == SourceKind::Title || k == SourceKind::Artist || k == SourceKind::Album
}

pub open spec fn word_at(text: Seq<char>, ws: Seq<(int, int)>, k: int) -> Seq<char> {
    text.subrange(ws[k].0, ws[k].1)
}

/// Words `start..=end` joined by single spaces.
pub open spec fn phrase_of(text: Seq<char>, ws: Seq<(int, int)>, start: int, end: int) -> Seq<
    char,
>
    decreases end - start,
{
    if end <= start {
        word_at(text, ws, start)
    } else {
        phrase_of(text, ws, start, end - 1) + seq![' '] + word_at(text, ws, end)
    }
}

/// A part of a title, artist or album name must be a single word; a part of
/// a lyric must hold a word that is not a filler word.
pub open spec fn skips_fill_blank(
    kind: SourceKind,
    text: Seq<char>,
    phrase: Seq<char>,
    ws: Seq<(int, int)>,
    start: int,
    end: int,
) -> bool {
    if phrase == text {
        false
    } else {
        match kind {
            SourceKind::Title | SourceKind::Artist | SourceKind::Album => end - start + 1 > 1,
            SourceKind::Snippet => forall|k: int|
                start <= k <= end ==> is_filler_word(ascii_lower(#[trigger] word_at(text, ws, k))),
            SourceKind::Custom => false,
        }
    }
}

/// A part of a title, artist or album name is only kept where the rest of
/// the name gives a hint (a word around it that is not a filler word).
pub open spec fn skips_partial(
    kind: SourceKind,
    text: Seq<char>,
    phrase: Seq<char>,
    a: int,
    b: int,
) -> bool {
    if !is_metadata(kind) {
        false
    } else if phrase == text {
        false
    } else {
        !informative_context(text.take(a), text.skip(b))
    }
}

pub open spec fn source_candidate(src: SourceModel, ws: Seq<(int, int)>, start: int, end: int) -> CandidateModel {
    let phrase = phrase_of(src.text, ws, start, end);
    let n = normalize(phrase);
    CandidateModel {
        normalized: n,
        original_phrase: phrase,
        source_text: src.text,
        source_kind: src.kind,
        track_index: src.track_index,
        track_name: src.track.name,
        track_artist: src.track.artist,
        span_start: byte_len(src.text.take(ws[start].0)),
        span_end: byte_len(src.text.take(ws[end].1)),
        quality_score: (phrase_score(src.kind, n, end - start + 1, start, end, ws.len() as int) as i32) as int,
        custom_clue: None,
        ambiguity_count: 1,
    }
}

pub open spec fn phrase_accepted(src: SourceModel, ws: Seq<(int, int)>, start: int, end: int) -> bool {
    let phrase = phrase_of(src.text, ws, start, end);
    &&& MIN_FILL_LEN <= byte_len(normalize(phrase))
    &&& !skips_fill_blank(src.kind, src.text, phrase, ws, start, end)
    &&& !skips_partial(src.kind, src.text, phrase, ws[start].0, ws[end].1)
}

/// Phrases that start at word `start` and end at word `end` or later; the
/// first one whose grid form is longer than allowed ends the run.
pub open spec fn props_ends(src: SourceModel, ws: Seq<(int, int)>, start: int, end: int) -> Seq<
    CandidateModel,
>
    decreases ws.len() - end,
{
    if start < 0 || end < start || end >= ws.len() {
        Seq::empty()
    } else if byte_len(normalize(phrase_of(src.text, ws, start, end))) > src.max_len {
        Seq::empty()
    } else {
        (if phrase_accepted(src, ws, start, end) {
            seq![source_candidate(src, ws, start, end)]
        } else {
            Seq::empty()
        }) + props_ends(src, ws, start, end + 1)
    }
}

pub open spec fn props_starts(src: SourceModel, ws: Seq<(int, int)>, start: int) -> Seq<
    CandidateModel,
>
    decreases ws.len() - start,
{
    if start < 0 || start >= ws.len() {
        Seq::empty()
    } else {
        props_ends(src, ws, start, start) + props_starts(src, ws, start + 1)
    }
}

/// Every phrase of consecutive words of a text that may become an answer.
pub open spec fn source_proposals(src: SourceModel) -> Seq<CandidateModel> {
    props_starts(src, word_spans(src.text), 0)
}

pub open spec fn custom_candidate(ti: nat, track: TrackModel, c: CustomModel) -> CandidateModel {
    let n = normalize(c.answer);
    CandidateModel {
        normalized: n,
        original_phrase: c.answer,
        source_text: c.answer,
        source_kind: SourceKind::Custom,
        track_index: ti,
        track_name: track.name,
        track_artist: track.artist,
        span_start: 0,
        span_end: byte_len(c.answer),
        quality_score: phrase_score(SourceKind::Custom, n, 1, 0, 0, 1) + 20,
        custom_clue: Some(c.clue),
        ambiguity_count: 1,
    }
}

pub open spec fn custom_fits(c: CustomModel, max_len: nat) -> bool {
    MIN_FILL_LEN <= byte_len(normalize(c.answer)) <= max_len
}

pub open spec fn custom_props(ti: nat, track: TrackModel, max_len: nat, j: int) -> Seq<
    CandidateModel,
>
    decreases track.custom.len() - j,
{
    if j < 0 || j >= track.custom.len() {
        Seq::empty()
    } else {
        (if custom_fits(track.custom[j], max_len) {
            seq![custom_candidate(ti, track, track.custom[j])]
        } else {
            Seq::empty()
        }) + custom_props(ti, track, max_len, j + 1)
    }
}

pub open spec fn source_of(ti: nat, track: TrackModel, kind: SourceKind, text: Seq<char>, max_len: nat) -> SourceModel {
    SourceModel { track_index: ti, track, kind, text, max_len }
}

pub open spec fn snippet_props(ti: nat, track: TrackModel, max_len: nat, j: int) -> Seq<
    CandidateModel,
>
    decreases track.snippets.len() - j,
{
    if j < 0 || j >= track.snippets.len() {
        Seq::empty()
    } else {
        source_proposals(source_of(ti, track, SourceKind::Snippet, track.snippets[j], max_len))
            + snippet_props(ti, track, max_len, j + 1)
    }
}

pub open spec fn album_props(ti: nat, track: TrackModel, max_len: nat) -> Seq<CandidateModel> {
    match track.album {
        Some(a) => source_proposals(source_of(ti, track, SourceKind::Album, a, max_len)),
        None => Seq::empty(),
    }
}

/// The proposals of one track: custom answers, then title, artist, album
/// and snippets.
pub open spec fn track_props(ti: nat, track: TrackModel, max_len: nat) -> Seq<CandidateModel> {
    custom_props(ti, track, max_len, 0) + source_proposals(
        source_of(ti, track, SourceKind::Title, track.name, max_len),
    ) + source_proposals(source_of(ti, track, SourceKind::Artist, track.artist, max_len))
        + album_props(ti, track, max_len) + snippet_props(ti, track, max_len, 0)
}

pub open spec fn all_props(ts: Seq<TrackModel>, max_len: nat, i: int) -> Seq<CandidateModel>
    decreases ts.len() - i,
{
    if i < 0 || i >= ts.len() {
        Seq::empty()
    } else {
        track_props(i as nat, ts[i], max_len) + all_props(ts, max_len, i + 1)
    }
}

/// Longest answer for a grid: the larger side, at most `MAX_FILL_LEN`.
pub open spec fn max_fill(m: InputModel) -> nat {
    let big = if m.width >= m.height {
        m.width
    } else {
        m.height
    };
    if big < MAX_FILL_LEN {
        big
    } else {
        MAX_FILL_LEN as nat
    }
}

// ---------------------------------------------------------------------------
// Keeping the first proposal of each (track, answer)
// ---------------------------------------------------------------------------

pub open spec fn has_key_of(d: Seq<CandidateModel>, ti: nat, n: Seq<char>) -> bool {
    exists|i: int| 0 <= i < d.len() && (#[trigger] d[i]).track_index == ti && d[i].normalized == n
}

pub open spec fn has_key(d: Seq<CandidateModel>, c: CandidateModel) -> bool {
    has_key_of(d, c.track_index, c.normalized)
}

pub open spec fn keep_first(d: Seq<CandidateModel>, c: CandidateModel) -> Seq<CandidateModel> {
    if has_key(d, c) {
        d
    } else {
        d.push(c)
    }
}

/// `d` extended by the proposals of `s` whose track and answer are not yet
/// present.
pub open spec fn dedup_into(d: Seq<CandidateModel>, s: Seq<CandidateModel>) -> Seq<CandidateModel>
    decreases s.len(),
{
    if s.len() == 0 {
        d
    } else {
        keep_first(dedup_into(d, s.drop_last()), s.last())
    }
}

pub proof fn lemma_dedup_concat(d: Seq<CandidateModel>, a: Seq<CandidateModel>, b: Seq<CandidateModel>)
    ensures
        dedup_into(d, a + b) == dedup_into(dedup_into(d, a), b),
    decreases b.len(),
{
    if b.len() == 0 {
        assert(a + b =~= a);
    } else {
        assert((a + b).drop_last() =~= a + b.drop_last());
        assert((a + b).last() == b.last());
        lemma_dedup_concat(d, a, b.drop_last());
    }
}

pub proof fn lemma_dedup_cons(d: Seq<CandidateModel>, c: CandidateModel, r: Seq<CandidateModel>)
    ensures
        dedup_into(d, seq![c] + r) == dedup_into(keep_first(d, c), r),
{
    lemma_dedup_concat(d, seq![c], r);
    assert(seq![c].drop_last() =~= Seq::<CandidateModel>::empty());
    assert(seq![c].last() == c);
    assert(dedup_into(d, seq![c]) == keep_first(dedup_into(d, seq![c].drop_last()), c));
}

pub proof fn lemma_dedup_empty(d: Seq<CandidateModel>, r: Seq<CandidateModel>)
    ensures
        dedup_into(d, Seq::<CandidateModel>::empty() + r) == dedup_into(d, r),
{
    assert(Seq::<CandidateModel>::empty() + r =~= r);
}

/// Candidates fresh from the sources: a grid form of allowed length.
pub open spec fn fresh(c: CandidateModel) -> bool {
    MIN_FILL_LEN <= byte_len(c.normalized) <= MAX_FILL_LEN
}

pub open spec fn all_fresh(s: Seq<CandidateModel>) -> bool {
    forall|i: int| 0 <= i < s.len() ==> fresh(#[trigger] s[i])
}

pub proof fn lemma_dedup_fresh(d: Seq<CandidateModel>, s: Seq<CandidateModel>)
    requires
        all_fresh(d),
        all_fresh(s),
    ensures
        all_fresh(dedup_into(d, s)),
    decreases s.len(),
{
    if s.len() > 0 {
        assert(all_fresh(s.drop_last())) by {
            assert forall|i: int| 0 <= i < s.drop_last().len() implies fresh(
                #[trigger] s.drop_last()[i],
            ) by {
                assert(s.drop_last()[i] == s[i]);
            }
        }
        lemma_dedup_fresh(d, s.drop_last());
        assert(fresh(s[s.len() - 1]));
    }
}

/// A text whose every byte offset fits in a `usize`.
pub open spec fn text_ok(t: Seq<char>) -> bool {
    byte_len(t) <= usize::MAX
}

pub open spec fn track_ok(t: TrackModel) -> bool {
    &&& text_ok(t.name)
    &&& text_ok(t.artist)
    &&& (t.album matches Some(a) ==> text_ok(a))
    &&& forall|j: int| 0 <= j < t.snippets.len() ==> text_ok(#[trigger] t.snippets[j])
    &&& forall|j: int| 0 <= j < t.custom.len() ==> text_ok(#[trigger] t.custom[j].answer)
}

pub open spec fn sizes_ok(m: InputModel) -> bool {
    forall|i: int| 0 <= i < m.tracks.len() ==> track_ok(#[trigger] m.tracks[i])
}

proof fn lemma_span_count(s: Seq<char>, w: Seq<(int, int)>)
    requires
        spans_well_placed(s, w),
    ensures
        w.len() <= s.len(),
        forall|k: int| 0 <= k < w.len() ==> k <= #[trigger] w[k].0,
{
    assert forall|k: int| 0 <= k < w.len() implies k <= #[trigger] w[k].0 by {
        lemma_span_starts(s, w, k);
    }
    if w.len() > 0 {
        assert(w.len() - 1 <= w[w.len() - 1].0);
    }
}

proof fn lemma_span_starts(s: Seq<char>, w: Seq<(int, int)>, k: int)
    requires
        spans_well_placed(s, w),
        0 <= k < w.len(),
    ensures
        k <= w[k].0,
    decreases k,
{
    if k > 0 {
        lemma_span_starts(s, w, k - 1);
        assert(w[k - 1].1 <= w[k].0);
        assert(w[k - 1].0 < w[k - 1].1);
    }
}

// ---------------------------------------------------------------------------
// Generating the proposals
// ---------------------------------------------------------------------------

fn has_key_exec(out: &Vec<CandidateAnswer>, track_index: usize, normalized: &String) -> (r: bool)
    ensures
        r == has_key_of(cands_view(out@), track_index as nat, normalized@),
{
    let ghost v = cands_view(out@);
    let mut i: usize = 0;
    while i < out.len()
        invariant
            i <= out.len(),
            v == cands_view(out@),
            forall|k: int|
                0 <= k < i ==> !((#[trigger] v[k]).track_index == track_index as nat
                    && v[k].normalized == normalized@),
        decreases out.len() - i,
    {
        assert(v[i as int] == out@[i as int]@);
        if out[i].track_index == track_index && out[i].normalized == *normalized {
            return true;
        }
        i = i + 1;
    }
    false
}

/// Whether the words `start..=end` of `text` are all filler words.
fn all_filler_words(text: &Vec<char>, words: &Vec<(usize, usize)>, start: usize, end: usize) -> (r: bool)
    requires
        start <= end < words@.len(),
        end < usize::MAX,
        spans_well_placed(text@, spans_view(words@)),
    ensures
        r == (forall|k: int|
            start <= k <= end ==> is_filler_word(
                ascii_lower(#[trigger] word_at(text@, spans_view(words@), k)),
            )),
{
    let ghost ws = spans_view(words@);
    let mut k = start;
    while k <= end
        invariant
            start <= k <= end + 1,
            end < words@.len(),
            end < usize::MAX,
            ws == spans_view(words@),
            spans_well_placed(text@, ws),
            forall|j: int| start <= j < k ==> is_filler_word(ascii_lower(#[trigger] word_at(text@, ws, j))),
        decreases end + 1 - k,
    {
        let (a, b) = words[k];
        assert(ws[k as int] == (a as int, b as int));
        let w = slice_chars(text, a, b);
        let lw = lower_chars(&w);
        assert(w@ == word_at(text@, ws, k as int));
        if !filler_word(&lw) {
            return false;
        }
        k = k + 1;
    }
    true
}

fn skips_fill_blank_exec(
    kind: SourceKind,
    text: &Vec<char>,
    phrase: &Vec<char>,
    words: &Vec<(usize, usize)>,
    start: usize,
    end: usize,
) -> (r: bool)
    requires
        start <= end < words@.len(),
        end < usize::MAX,
        spans_well_placed(text@, spans_view(words@)),
    ensures
        r == skips_fill_blank(kind, text@, phrase@, spans_view(words@), start as int, end as int),
{
    if chars_eq(phrase, text) {
        return false;
    }
    match kind {
        SourceKind::Title | SourceKind::Artist | SourceKind::Album => end - start + 1 > 1,
        SourceKind::Snippet => all_filler_words(text, words, start, end),
        SourceKind::Custom => false,
    }
}

fn skips_partial_exec(kind: SourceKind, text: &Vec<char>, phrase: &Vec<char>, a: usize, b: usize) -> (r: bool)
    requires
        a <= b <= text@.len(),
    ensures
        r == skips_partial(kind, text@, phrase@, a as int, b as int),
{
    match kind {
        SourceKind::Title | SourceKind::Artist | SourceKind::Album => {},
        _ => {
            return false;
        },
    }
    if chars_eq(phrase, text) {
        return false;
    }
    let prefix = slice_chars(text, 0, a);
    let suffix = slice_chars(text, b, text.len());
    assert(prefix@ =~= text@.take(a as int));
    assert(suffix@ =~= text@.skip(b as int));
    !has_informative_context(&prefix, &suffix)
}

proof fn lemma_phrase_len(text: Seq<char>, ws: Seq<(int, int)>, start: int, end: int)
    requires
        spans_well_placed(text, ws),
        0 <= start <= end < ws.len(),
    ensures
        phrase_of(text, ws, start, end).len() >= 1,
    decreases end - start,
{
    if end > start {
        lemma_phrase_len(text, ws, start, end - 1);
    }
}

/// Facts about one source text that the generating loops carry along.
pub open spec fn source_setup(
    src: SourceModel,
    text: Seq<char>,
    ws: Seq<(int, int)>,
    words: Seq<(usize, usize)>,
    offsets: Seq<usize>,
) -> bool {
    &&& spans_view(words) == ws
    &&& ws == word_spans(text)
    &&& text == src.text
    &&& spans_well_placed(text, ws)
    &&& ws.len() <= text.len()
    &&& text_ok(text)
    &&& src.max_len <= MAX_FILL_LEN
    &&& offsets.len() == text.len() + 1
    &&& forall|k: int| 0 <= k <= text.len() ==> #[trigger] offsets[k] == byte_len(text.take(k))
}

/// Offers the phrase of words `start..=end`, whose grid form is short enough.
fn offer_phrase(
    out: &mut Vec<CandidateAnswer>,
    track_index: usize,
    track: &Track,
    source_kind: SourceKind,
    source_text: &String,
    max_len: usize,
    text: &Vec<char>,
    words: &Vec<(usize, usize)>,
    offsets: &Vec<usize>,
    phrase: &Vec<char>,
    normalized: &Vec<char>,
    start: usize,
    end: usize,
    Ghost(src): Ghost<SourceModel>,
    Ghost(ws): Ghost<Seq<(int, int)>>,
)
    requires
        src == source_of(track_index as nat, track@, source_kind, source_text@, max_len as nat),
        source_setup(src, text@, ws, words@, offsets@),
        start <= end < words@.len(),
        phrase@ == phrase_of(text@, ws, start as int, end as int),
        normalized@ == normalize(phrase@),
        byte_len(normalized@) <= max_len,
    ensures
        dedup_into(cands_view(final(out)@), props_ends(src, ws, start as int, end as int + 1))
            == dedup_into(cands_view(old(out)@), props_ends(src, ws, start as int, end as int)),
        all_fresh(cands_view(old(out)@)) ==> all_fresh(cands_view(final(out)@)),
{
    let ghost rest = props_ends(src, ws, start as int, end as int + 1);
    let ghost here = props_ends(src, ws, start as int, end as int);
    let n = words.len();
    let (a, b) = words[start];
    let (_ea, eb) = words[end];
    assert(ws[start as int] == (a as int, b as int));
    assert(ws[end as int] == (_ea as int, eb as int));
    let length = byte_len_capped(normalized, max_len);
    let mut accepted = length >= MIN_FILL_LEN;
    if accepted {
        if skips_fill_blank_exec(source_kind, text, phrase, words, start, end) {
            accepted = false;
        }
    }
    if accepted {
        if skips_partial_exec(source_kind, text, phrase, a, eb) {
            accepted = false;
        }
    }
    assert(accepted == phrase_accepted(src, ws, start as int, end as int));
    if accepted {
        let ghost c = source_candidate(src, ws, start as int, end as int);
        assert(here == seq![c] + rest);
        proof {
            lemma_dedup_cons(cands_view(out@), c, rest);
        }
        let norm_s = string_of(normalized);
        let dup = has_key_exec(out, track_index, &norm_s);
        if !dup {
            proof {
                lemma_distinct_count_le(normalized@);
                lemma_byte_len_ge_len(normalized@);
            }
            let quality = score_chars(source_kind, normalized, length, end - start + 1, start, end, n);
            let cand = CandidateAnswer {
                normalized: norm_s,
                original_phrase: string_of(phrase),
                source_text: source_text.clone(),
                source_kind,
                track_index,
                track_name: track.name.clone(),
                track_artist: track.artist.clone(),
                span: std::ops::Range { start: offsets[a], end: offsets[eb] },
                quality_score: quality,
                custom_clue: None,
                ambiguity_count: 1,
            };
            assert(cand@ == c);
            let ghost before = cands_view(out@);
            out.push(cand);
            assert(cands_view(out@) =~= before.push(c));
        }
    } else {
        assert(here == Seq::<CandidateModel>::empty() + rest);
        proof {
            lemma_dedup_empty(cands_view(out@), rest);
        }
    }
}

/// Adds the phrases of one source text (see `source_proposals`).
#[verifier::rlimit(40)]
fn add_source_candidates(
    out: &mut Vec<CandidateAnswer>,
    track_index: usize,
    track: &Track,
    source_kind: SourceKind,
    source_text: &String,
    max_len: usize,
)
    requires
        max_len <= MAX_FILL_LEN,
        text_ok(source_text@),
    ensures
        cands_view(final(out)@) == dedup_into(
            cands_view(old(out)@),
            source_proposals(
                source_of(track_index as nat, track@, source_kind, source_text@, max_len as nat),
            ),
        ),
        all_fresh(cands_view(old(out)@)) ==> all_fresh(cands_view(final(out)@)),
{
    let ghost src = source_of(track_index as nat, track@, source_kind, source_text@, max_len as nat);
    let text = chars_of(source_text.as_str());
    let words = word_spans_of(&text);
    let offsets = byte_offsets(&text);
    let ghost ws = word_spans(text@);
    proof {
        lemma_spans_from_well_placed(text@, 0);
        lemma_span_count(text@, ws);
    }
    let n = words.len();
    let ghost target = dedup_into(cands_view(out@), source_proposals(src));
    let mut start: usize = 0;
    while start < n
        invariant
            start <= n,
            n == words@.len(),
            src == source_of(track_index as nat, track@, source_kind, source_text@, max_len as nat),
            source_setup(src, text@, ws, words@, offsets@),
            dedup_into(cands_view(out@), props_starts(src, ws, start as int)) == target,
            all_fresh(cands_view(old(out)@)) ==> all_fresh(cands_view(out@)),
        decreases n - start,
    {
        let ghost out_before = cands_view(out@);
        let mut phrase: Vec<char> = Vec::new();
        let mut end: usize = start;
        let mut stop = false;
        while end < n && !stop
            invariant
                start <= end <= n,
                start < n,
                n == words@.len(),
                src == source_of(track_index as nat, track@, source_kind, source_text@, max_len as nat),
                source_setup(src, text@, ws, words@, offsets@),
                !stop && end > start ==> phrase@ == phrase_of(text@, ws, start as int, end - 1),
                !stop && end == start ==> phrase@.len() == 0,
                dedup_into(cands_view(out@), if stop {
                    Seq::<CandidateModel>::empty()
                } else {
                    props_ends(src, ws, start as int, end as int)
                }) == dedup_into(out_before, props_ends(src, ws, start as int, start as int)),
                all_fresh(cands_view(old(out)@)) ==> all_fresh(cands_view(out@)),
            decreases (n - end) as int + (if stop { 0int } else { 1int }),
        {
            if end > start {
                phrase.push(' ');
            }
            let (a, b) = words[end];
            assert(ws[end as int] == (a as int, b as int));
            let word = slice_chars(&text, a, b);
            push_all(&mut phrase, &word);
            assert(phrase@ == phrase_of(text@, ws, start as int, end as int)) by {
                if end > start {
                    assert(phrase@ =~= phrase_of(text@, ws, start as int, end - 1) + seq![' ']
                        + word_at(text@, ws, end as int));
                } else {
                    assert(phrase@ =~= word_at(text@, ws, end as int));
                }
            }
            let normalized = normalize_chars(&phrase);
            let length = byte_len_capped(&normalized, max_len);
            if length > max_len {
                stop = true;
                assert(props_ends(src, ws, start as int, end as int) =~= Seq::<CandidateModel>::empty());
            } else {
                offer_phrase(
                    out,
                    track_index,
                    track,
                    source_kind,
                    source_text,
                    max_len,
                    &text,
                    &words,
                    &offsets,
                    &phrase,
                    &normalized,
                    start,
                    end,
                    Ghost(src),
                    Ghost(ws),
                );
                end = end + 1;
            }
        }
        proof {
            if !stop {
                assert(props_ends(src, ws, start as int, end as int) =~= Seq::<CandidateModel>::empty());
            }
            lemma_dedup_concat(
                out_before,
                props_ends(src, ws, start as int, start as int),
                props_starts(src, ws, start as int + 1),
            );
        }
        start = start + 1;
    }
}

/// Adds the custom answers of a track (see `custom_props`).
fn add_custom_candidates(out: &mut Vec<CandidateAnswer>, track_index: usize, track: &Track, max_len: usize)
    requires
        max_len <= MAX_FILL_LEN,
        track_ok(track@),
    ensures
        cands_view(final(out)@) == dedup_into(
            cands_view(old(out)@),
            custom_props(track_index as nat, track@, max_len as nat, 0),
        ),
        all_fresh(cands_view(old(out)@)) ==> all_fresh(cands_view(final(out)@)),
{
    let ghost tm = track@;
    let ghost target = dedup_into(cands_view(out@), custom_props(track_index as nat, tm, max_len as nat, 0));
    let mut j: usize = 0;
    while j < track.custom.len()
        invariant
            j <= track.custom.len(),
            tm == track@,
            track_ok(tm),
            max_len <= MAX_FILL_LEN,
            dedup_into(cands_view(out@), custom_props(track_index as nat, tm, max_len as nat, j as int)) == target,
            all_fresh(cands_view(old(out)@)) ==> all_fresh(cands_view(out@)),
        decreases track.custom.len() - j,
    {
        let custom: &CustomClue = &track.custom[j];
        assert(tm.custom[j as int] == custom@);
        let ghost rest = custom_props(track_index as nat, tm, max_len as nat, j as int + 1);
        let ghost here = custom_props(track_index as nat, tm, max_len as nat, j as int);
        let answer = chars_of(custom.answer.as_str());
        let normalized = normalize_chars(&answer);
        let length = byte_len_capped(&normalized, max_len);
        if length >= MIN_FILL_LEN && length <= max_len {
            let ghost c = custom_candidate(track_index as nat, tm, custom@);
            assert(here == seq![c] + rest);
            proof {
                lemma_dedup_cons(cands_view(out@), c, rest);
            }
            let norm_s = string_of(&normalized);
            if !has_key_exec(out, track_index, &norm_s) {
                proof {
                    lemma_distinct_count_le(normalized@);
                    lemma_byte_len_ge_len(normalized@);
                    assert(text_ok(tm.custom[j as int].answer));
                }
                let base = score_chars(SourceKind::Custom, &normalized, length, 1, 0, 0, 1);
                proof {
                    assert(distinct_count(normalized@) <= normalized@.len());
                    assert(phrase_score(SourceKind::Custom, normalized@, 1, 0, 0, 1) <= 300);
                }
                let quality = base + 20;
                let cand = CandidateAnswer {
                    normalized: norm_s,
                    original_phrase: custom.answer.clone(),
                    source_text: custom.answer.clone(),
                    source_kind: SourceKind::Custom,
                    track_index,
                    track_name: track.name.clone(),
                    track_artist: track.artist.clone(),
                    span: std::ops::Range { start: 0, end: str_byte_len(custom.answer.as_str()) },
                    quality_score: quality,
                    custom_clue: Some(custom.clue.clone()),
                    ambiguity_count: 1,
                };
                assert(cand@ == c);
                let ghost before = cands_view(out@);
                out.push(cand);
                assert(cands_view(out@) =~= before.push(c));
            }
        } else {
            assert(here == Seq::<CandidateModel>::empty() + rest);
            proof {
                lemma_dedup_empty(cands_view(out@), rest);
            }
        }
        j = j + 1;
    }
}

/// Adds every proposal of one track (see `track_props`).
fn add_track_candidates(out: &mut Vec<CandidateAnswer>, track_index: usize, track: &Track, max_len: usize)
    requires
        max_len <= MAX_FILL_LEN,
        track_ok(track@),
    ensures
        cands_view(final(out)@) == dedup_into(
            cands_view(old(out)@),
            track_props(track_index as nat, track@, max_len as nat),
        ),
        all_fresh(cands_view(old(out)@)) ==> all_fresh(cands_view(final(out)@)),
{
    let ghost tm = track@;
    let ghost ti = track_index as nat;
    let ghost ml = max_len as nat;
    let ghost d0 = cands_view(out@);
    let ghost p1 = custom_props(ti, tm, ml, 0);
    let ghost p2 = source_proposals(source_of(ti, tm, SourceKind::Title, tm.name, ml));
    let ghost p3 = source_proposals(source_of(ti, tm, SourceKind::Artist, tm.artist, ml));
    let ghost p4 = album_props(ti, tm, ml);
    let ghost p5 = snippet_props(ti, tm, ml, 0);
    add_custom_candidates(out, track_index, track, max_len);
    add_source_candidates(out, track_index, track, SourceKind::Title, &track.name, max_len);
    add_source_candidates(out, track_index, track, SourceKind::Artist, &track.artist, max_len);
    let ghost d3 = cands_view(out@);
    if let Some(album) = &track.album {
        add_source_candidates(out, track_index, track, SourceKind::Album, album, max_len);
    } else {
        assert(p4 =~= Seq::<CandidateModel>::empty());
    }
    assert(cands_view(out@) == dedup_into(d3, p4));
    let ghost d4 = cands_view(out@);
    let mut j: usize = 0;
    assert(dedup_into(d4, p5) == dedup_into(cands_view(out@), snippet_props(ti, tm, ml, 0)));
    while j < track.snippets.len()
        invariant
            j <= track.snippets.len(),
            tm == track@,
            track_ok(tm),
            ti == track_index as nat,
            ml == max_len as nat,
            max_len <= MAX_FILL_LEN,
            dedup_into(cands_view(out@), snippet_props(ti, tm, ml, j as int)) == dedup_into(d4, p5),
            all_fresh(cands_view(old(out)@)) ==> all_fresh(cands_view(out@)),
        decreases track.snippets.len() - j,
    {
        assert(tm.snippets[j as int] == track.snippets@[j as int]@);
        assert(text_ok(tm.snippets[j as int]));
        let ghost before = cands_view(out@);
        add_source_candidates(out, track_index, track, SourceKind::Snippet, &track.snippets[j], max_len);
        proof {
            lemma_dedup_concat(
                before,
                source_proposals(source_of(ti, tm, SourceKind::Snippet, tm.snippets[j as int], ml)),
                snippet_props(ti, tm, ml, j as int + 1),
            );
        }
        j = j + 1;
    }
    assert(snippet_props(ti, tm, ml, j as int) =~= Seq::<CandidateModel>::empty());
    proof {
        lemma_dedup_concat(d0, p1 + p2 + p3 + p4, p5);
        lemma_dedup_concat(d0, p1 + p2 + p3, p4);
        lemma_dedup_concat(d0, p1 + p2, p3);
        lemma_dedup_concat(d0, p1, p2);
    }
}

/// Every candidate proposed by the tracks, the first of each (track, answer).
pub open spec fn raw_candidates(m: InputModel) -> Seq<CandidateModel> {
    dedup_into(Seq::empty(), all_props(m.tracks, max_fill(m), 0))
}

fn collect_candidates(input: &PuzzleInput) -> (out: Vec<CandidateAnswer>)
    requires
        sizes_ok(input@),
    ensures
        cands_view(out@) == raw_candidates(input@),
        all_fresh(cands_view(out@)),
{
    let big = if input.width >= input.height {
        input.width
    } else {
        input.height
    };
    let max_len = if big < MAX_FILL_LEN {
        big
    } else {
        MAX_FILL_LEN
    };
    let ghost m = input@;
    assert(max_len as nat == max_fill(m));
    let mut out: Vec<CandidateAnswer> = Vec::new();
    assert(cands_view(out@) =~= Seq::<CandidateModel>::empty());
    let mut i: usize = 0;
    while i < input.tracks.len()
        invariant
            i <= input.tracks.len(),
            m == input@,
            sizes_ok(m),
            max_len as nat == max_fill(m),
            max_len <= MAX_FILL_LEN,
            dedup_into(cands_view(out@), all_props(m.tracks, max_len as nat, i as int))
                == raw_candidates(m),
            all_fresh(cands_view(out@)),
        decreases input.tracks.len() - i,
    {
        assert(m.tracks[i as int] == input.tracks@[i as int]@);
        assert(track_ok(m.tracks[i as int]));
        let ghost before = cands_view(out@);
        add_track_candidates(&mut out, i, &input.tracks[i], max_len);
        proof {
            lemma_dedup_concat(
                before,
                track_props(i as nat, m.tracks[i as int], max_len as nat),
                all_props(m.tracks, max_len as nat, i as int + 1),
            );
        }
        i = i + 1;
    }
    assert(all_props(m.tracks, max_len as nat, i as int) =~= Seq::<CandidateModel>::empty());
    out
}

// ---------------------------------------------------------------------------
// Custom overrides, priorities and ranking
// ---------------------------------------------------------------------------

/// The clue of the last custom answer of a track whose grid form is `n`.
pub open spec fn last_clue(cs: Seq<CustomModel>, n: Seq<char>) -> Option<Seq<char>>
    decreases cs.len(),
{
    if cs.len() == 0 {
        None
    } else if normalize(cs.last().answer) == n {
        Some(cs.last().clue)
    } else {
        last_clue(cs.drop_last(), n)
    }
}

/// A candidate that a custom answer of its track spells out becomes a
/// custom candidate with that answer's clue.
pub open spec fn override_one(ts: Seq<TrackModel>, c: CandidateModel) -> CandidateModel {
    if c.track_index < ts.len() {
        match last_clue(ts[c.track_index as int].custom, c.normalized) {
            Some(clue) => CandidateModel {
                source_kind: SourceKind::Custom,
                custom_clue: Some(clue),
                ..c
            },
            None => c,
        }
    } else {
        c
    }
}

pub open spec fn overridden(ts: Seq<TrackModel>, cs: Seq<CandidateModel>) -> Seq<CandidateModel> {
    cs.map_values(|c: CandidateModel| override_one(ts, c))
}

fn custom_clue_for(track: &Track, normalized: &Vec<char>) -> (r: Option<String>)
    ensures
        opt_view(r) == last_clue(track@.custom, normalized@),
{
    let ghost cs = track@.custom;
    let mut found: Option<String> = None;
    let mut j: usize = 0;
    assert(cs.take(0) =~= Seq::<CustomModel>::empty());
    while j < track.custom.len()
        invariant
            j <= track.custom.len(),
            cs == track@.custom,
            opt_view(found) == last_clue(cs.take(j as int), normalized@),
        decreases track.custom.len() - j,
    {
        assert(cs[j as int] == track.custom@[j as int]@);
        assert(cs.take(j + 1).drop_last() =~= cs.take(j as int));
        assert(cs.take(j + 1).last() == cs[j as int]);
        let answer = chars_of(track.custom[j].answer.as_str());
        let n = normalize_chars(&answer);
        if chars_eq(&n, normalized) {
            found = Some(track.custom[j].clue.clone());
        }
        j = j + 1;
    }
    assert(cs.take(j as int) =~= cs);
    found
}

pub open spec fn opt_view(s: Option<String>) -> Option<Seq<char>> {
    crate::input::opt_string_view(s)
}

fn apply_custom_overrides(cands: &Vec<CandidateAnswer>, input: &PuzzleInput) -> (r: Vec<CandidateAnswer>)
    ensures
        cands_view(r@) == overridden(input@.tracks, cands_view(cands@)),
{
    let ghost ts = input@.tracks;
    let mut r: Vec<CandidateAnswer> = Vec::new();
    let mut i: usize = 0;
    while i < cands.len()
        invariant
            i <= cands.len(),
            ts == input@.tracks,
            cands_view(r@) == overridden(ts, cands_view(cands@)).take(i as int),
        decreases cands.len() - i,
    {
        let mut c = cands[i].clone();
        let ghost orig = c@;
        if c.track_index < input.tracks.len() {
            assert(ts[c.track_index as int] == input.tracks@[c.track_index as int]@);
            let n = chars_of(c.normalized.as_str());
            let clue = custom_clue_for(&input.tracks[c.track_index], &n);
            if let Some(text) = clue {
                c.source_kind = SourceKind::Custom;
                c.custom_clue = Some(text);
            }
        }
        assert(c@ == override_one(ts, orig));
        assert(cands_view(cands@)[i as int] == orig);
        let ghost before = cands_view(r@);
        let ghost cv = c@;
        r.push(c);
        assert(cands_view(r@) =~= before.push(cv));
        assert(overridden(ts, cands_view(cands@)).take(i + 1) =~= overridden(ts, cands_view(cands@)).take(i as int).push(cv));
        i = i + 1;
    }
    assert(cands_view(r@) =~= overridden(ts, cands_view(cands@)));
    r
}

pub open spec fn track_indices(cs: Seq<CandidateModel>) -> Seq<nat> {
    cs.map_values(|c: CandidateModel| c.track_index)
}

/// The tracks of the candidates whose grid form is `n`.
pub open spec fn tracks_with(cs: Seq<CandidateModel>, n: Seq<char>) -> Seq<nat>
    decreases cs.len(),
{
    if cs.len() == 0 {
        Seq::empty()
    } else {
        tracks_with(cs.drop_last(), n) + (if cs.last().normalized == n {
            seq![cs.last().track_index]
        } else {
            Seq::<nat>::empty()
        })
    }
}

/// A candidate's score after the bonus for its source and the penalty for
/// being shared with other tracks.
pub open spec fn adjust_one(cs: Seq<CandidateModel>, total: nat, c: CandidateModel) -> CandidateModel {
    let a = distinct_count(tracks_with(cs, c.normalized));
    CandidateModel {
        ambiguity_count: a,
        quality_score: ((c.quality_score + source_priority(c.source_kind) - ambiguity(
            c.source_kind,
            a as int,
            total as int,
        )) as i32) as int,
        ..c
    }
}

pub open spec fn adjusted(cs: Seq<CandidateModel>) -> Seq<CandidateModel> {
    let total = distinct_count(track_indices(cs));
    cs.map_values(|c: CandidateModel| adjust_one(cs, total, c))
}

pub open spec fn nat_seq(v: Seq<usize>) -> Seq<nat> {
    v.map_values(|x: usize| x as nat)
}

fn distinct_usize(v: &Vec<usize>) -> (n: usize)
    ensures
        n == distinct_count(nat_seq(v@)),
        n <= v@.len(),
{
    let mut n: usize = 0;
    let mut i: usize = 0;
    assert(nat_seq(v@.take(0)) =~= Seq::<nat>::empty());
    while i < v.len()
        invariant
            i <= v.len(),
            n == distinct_count(nat_seq(v@.take(i as int))),
            n <= i,
        decreases v.len() - i,
    {
        let x = v[i];
        let mut seen = false;
        let mut j: usize = 0;
        while j < i
            invariant
                j <= i < v.len(),
                seen == (exists|k: int| 0 <= k < j && v@[k] == x),
                x == v@[i as int],
            decreases i - j,
        {
            if v[j] == x {
                seen = true;
            }
            j = j + 1;
        }
        let ghost pre = nat_seq(v@.take(i as int));
        assert(nat_seq(v@.take(i + 1)).drop_last() =~= pre);
        assert(nat_seq(v@.take(i + 1)).last() == x as nat);
        assert(seen == pre.contains(x as nat)) by {
            if seen {
                let k = choose|k: int| 0 <= k < i && v@[k] == x;
                assert(pre[k] == x as nat);
            }
            if pre.contains(x as nat) {
                let k = choose|k: int| 0 <= k < pre.len() && pre[k] == x as nat;
                assert(v@[k] == x);
            }
        }
        if !seen {
            n = n + 1;
        }
        i = i + 1;
    }
    assert(v@.take(v.len() as int) =~= v@);
    n
}

fn apply_priority_adjustments(cands: &Vec<CandidateAnswer>) -> (r: Vec<CandidateAnswer>)
    ensures
        cands_view(r@) == adjusted(cands_view(cands@)),
{
    let ghost cs = cands_view(cands@);
    let mut all_tracks: Vec<usize> = Vec::new();
    let mut i: usize = 0;
    while i < cands.len()
        invariant
            i <= cands.len(),
            cs == cands_view(cands@),
            nat_seq(all_tracks@) == track_indices(cs.take(i as int)),
        decreases cands.len() - i,
    {
        let ghost before = all_tracks@;
        all_tracks.push(cands[i].track_index);
        assert(all_tracks@ == before.push(cands@[i as int].track_index));
        assert(cs[i as int] == cands@[i as int]@);
        assert(nat_seq(all_tracks@) =~= nat_seq(before).push(cs[i as int].track_index));
        assert(track_indices(cs.take(i + 1)) =~= track_indices(cs.take(i as int)).push(cs[i as int].track_index));
        i = i + 1;
    }
    assert(cs.take(cands.len() as int) =~= cs);
    let total = distinct_usize(&all_tracks);
    let mut r: Vec<CandidateAnswer> = Vec::new();
    let mut k: usize = 0;
    while k < cands.len()
        invariant
            k <= cands.len(),
            cs == cands_view(cands@),
            total == distinct_count(track_indices(cs)),
            cands_view(r@) == adjusted(cs).take(k as int),
        decreases cands.len() - k,
    {
        let mut c = cands[k].clone();
        let ghost orig = c@;
        assert(orig == cs[k as int]);
        let mut same: Vec<usize> = Vec::new();
        let mut j: usize = 0;
        assert(cs.take(0) =~= Seq::<CandidateModel>::empty());
        while j < cands.len()
            invariant
                j <= cands.len(),
                cs == cands_view(cands@),
                orig == c@,
                nat_seq(same@) == tracks_with(cs.take(j as int), orig.normalized),
                same@.len() <= j,
            decreases cands.len() - j,
        {
            assert(cs.take(j + 1).drop_last() =~= cs.take(j as int));
            assert(cs.take(j + 1).last() == cs[j as int]);
            if cands[j].normalized == c.normalized {
                same.push(cands[j].track_index);
            }
            assert(nat_seq(same@) =~= tracks_with(cs.take(j + 1), orig.normalized));
            j = j + 1;
        }
        assert(cs.take(cands.len() as int) =~= cs);
        let amb = distinct_usize(&same);
        let bonus = source_priority_bonus(c.source_kind);
        let penalty = ambiguity_penalty(c.source_kind, amb, total);
        c.ambiguity_count = amb;
        let adjusted_score: i64 = c.quality_score as i64 + bonus as i64 - penalty as i64;
        c.quality_score = #[verifier::truncate] (adjusted_score as i32);
        assert(c@ == adjust_one(cs, distinct_count(track_indices(cs)), orig));
        let ghost before = cands_view(r@);
        let ghost cv = c@;
        r.push(c);
        assert(cands_view(r@) =~= before.push(cv));
        assert(adjusted(cs).take(k + 1) =~= adjusted(cs).take(k as int).push(cv));
        k = k + 1;
    }
    assert(adjusted(cs).take(cands.len() as int) =~= adjusted(cs));
    r
}

/// Lexicographic order of char sequences by code point (the order of their
/// UTF-8 bytes, which `String` comparison uses).
pub open spec fn lex_less(a: Seq<char>, b: Seq<char>) -> bool
    decreases a.len(),
{
    if a.len() == 0 {
        b.len() > 0
    } else if b.len() == 0 {
        false
    } else if a[0] != b[0] {
        (a[0] as u32) < (b[0] as u32)
    } else {
        lex_less(a.drop_first(), b.drop_first())
    }
}

/// The ranking of candidates: higher score first, then longer grid form,
/// then alphabetical grid form.
pub open spec fn ranks_before(a: CandidateModel, b: CandidateModel) -> bool {
    ||| a.quality_score > b.quality_score
    ||| a.quality_score == b.quality_score && byte_len(a.normalized) > byte_len(b.normalized)
    ||| a.quality_score == b.quality_score && byte_len(a.normalized) == byte_len(b.normalized)
        && lex_less(a.normalized, b.normalized)
}

/// Where a stable insertion puts `x`: before the first element it ranks before.
pub open spec fn insert_pos(s: Seq<CandidateModel>, x: CandidateModel) -> int
    decreases s.len(),
{
    if s.len() == 0 {
        0
    } else if ranks_before(x, s[0]) {
        0
    } else {
        1 + insert_pos(s.drop_first(), x)
    }
}

/// The stable sort of `s` by `ranks_before` (ties keep their order).
pub open spec fn sort_ranked(s: Seq<CandidateModel>) -> Seq<CandidateModel>
    decreases s.len(),
{
    if s.len() == 0 {
        Seq::empty()
    } else {
        let sorted = sort_ranked(s.drop_last());
        sorted.insert(insert_pos(sorted, s.last()), s.last())
    }
}

proof fn lemma_insert_pos(s: Seq<CandidateModel>, x: CandidateModel, p: int)
    requires
        0 <= p <= s.len(),
        forall|q: int| 0 <= q < p ==> !ranks_before(x, #[trigger] s[q]),
        p == s.len() || ranks_before(x, s[p]),
    ensures
        insert_pos(s, x) == p,
    decreases p,
{
    if p > 0 {
        assert(!ranks_before(x, s[0]));
        assert forall|q: int| 0 <= q < p - 1 implies !ranks_before(x, #[trigger] s.drop_first()[q]) by {
            assert(s.drop_first()[q] == s[q + 1]);
        }
        if p < s.len() {
            assert(s.drop_first()[p - 1] == s[p]);
        }
        lemma_insert_pos(s.drop_first(), x, p - 1);
    }
}

proof fn lemma_lex_skip(a: Seq<char>, b: Seq<char>, i: int)
    requires
        0 <= i < a.len(),
        i < b.len(),
        a[i] == b[i],
    ensures
        lex_less(a.skip(i), b.skip(i)) == lex_less(a.skip(i + 1), b.skip(i + 1)),
{
    assert(a.skip(i).drop_first() =~= a.skip(i + 1));
    assert(b.skip(i).drop_first() =~= b.skip(i + 1));
}

pub fn chars_lex_less(a: &Vec<char>, b: &Vec<char>) -> (r: bool)
    ensures
        r == lex_less(a@, b@),
{
    let mut i: usize = 0;
    assert(a@.skip(0) =~= a@);
    assert(b@.skip(0) =~= b@);
    while i < a.len() && i < b.len() && a[i] == b[i]
        invariant
            i <= a.len(),
            i <= b.len(),
            lex_less(a@, b@) == lex_less(a@.skip(i as int), b@.skip(i as int)),
        decreases a.len() - i,
    {
        proof {
            lemma_lex_skip(a@, b@, i as int);
        }
        i = i + 1;
    }
    if i == a.len() {
        i < b.len()
    } else if i == b.len() {
        false
    } else {
        assert(a@.skip(i as int)[0] == a@[i as int]);
        assert(b@.skip(i as int)[0] == b@[i as int]);
        (a[i] as u32) < (b[i] as u32)
    }
}

fn ranks_before_exec(a: &CandidateAnswer, b: &CandidateAnswer) -> (r: bool)
    requires
        byte_len(a@.normalized) <= MAX_FILL_LEN,
        byte_len(b@.normalized) <= MAX_FILL_LEN,
    ensures
        r == ranks_before(a@, b@),
{
    if a.quality_score != b.quality_score {
        return a.quality_score > b.quality_score;
    }
    let la = str_byte_len(a.normalized.as_str());
    let lb = str_byte_len(b.normalized.as_str());
    if la != lb {
        return la > lb;
    }
    let ca = chars_of(a.normalized.as_str());
    let cb = chars_of(b.normalized.as_str());
    chars_lex_less(&ca, &cb)
}

pub open spec fn all_short(s: Seq<CandidateModel>) -> bool {
    forall|i: int| 0 <= i < s.len() ==> byte_len((#[trigger] s[i]).normalized) <= MAX_FILL_LEN
}

fn sort_candidates(cands: &Vec<CandidateAnswer>) -> (r: Vec<CandidateAnswer>)
    requires
        all_short(cands_view(cands@)),
    ensures
        cands_view(r@) == sort_ranked(cands_view(cands@)),
{
    let ghost cs = cands_view(cands@);
    let mut sorted: Vec<CandidateAnswer> = Vec::new();
    let mut i: usize = 0;
    assert(cs.take(0) =~= Seq::<CandidateModel>::empty());
    while i < cands.len()
        invariant
            i <= cands.len(),
            cs == cands_view(cands@),
            all_short(cs),
            cands_view(sorted@) == sort_ranked(cs.take(i as int)),
            all_short(cands_view(sorted@)),
        decreases cands.len() - i,
    {
        let x = cands[i].clone();
        assert(x@ == cs[i as int]);
        let mut p: usize = 0;
        let mut found = false;
        while p < sorted.len() && !found
            invariant
                p <= sorted.len(),
                i < cands.len(),
                cs == cands_view(cands@),
                x@ == cs[i as int],
                all_short(cs),
                all_short(cands_view(sorted@)),
                found ==> p < sorted.len() && ranks_before(x@, cands_view(sorted@)[p as int]),
                forall|q: int| 0 <= q < p ==> !ranks_before(x@, #[trigger] cands_view(sorted@)[q]),
            decreases (sorted.len() - p) as int + (if found { 0int } else { 1int }),
        {
            assert(cands_view(sorted@)[p as int] == sorted@[p as int]@);
            assert(byte_len(cands_view(sorted@)[p as int].normalized) <= MAX_FILL_LEN);
            if ranks_before_exec(&x, &sorted[p]) {
                found = true;
            } else {
                p = p + 1;
            }
        }
        proof {
            if p < sorted.len() {
                assert(cands_view(sorted@)[p as int] == sorted@[p as int]@);
            }
            lemma_insert_pos(cands_view(sorted@), x@, p as int);
            assert(cs.take(i + 1).drop_last() =~= cs.take(i as int));
            assert(cs.take(i + 1).last() == cs[i as int]);
        }
        let ghost before = cands_view(sorted@);
        let ghost xv = x@;
        sorted.insert(p, x);
        assert(cands_view(sorted@) =~= before.insert(p as int, xv));
        i = i + 1;
    }
    assert(cs.take(cands.len() as int) =~= cs);
    sorted
}

/// All candidates of a puzzle, ranked: proposals from every track (first of
/// each track and answer), custom clues applied, scores adjusted.
pub open spec fn derived(m: InputModel) -> Seq<CandidateModel> {
    sort_ranked(adjusted(overridden(m.tracks, raw_candidates(m))))
}

/// Derives every answer candidate of the puzzle, best first.
pub fn derive_candidates(input: &PuzzleInput) -> (r: Result<Vec<CandidateAnswer>, InputError>)
    requires
        sizes_ok(input@),
    ensures
        r matches Ok(v) && cands_view(v@) == derived(input@),
{
    let raw = collect_candidates(input);
    let over = apply_custom_overrides(&raw, input);
    assert(all_fresh(cands_view(over@))) by {
        assert forall|i: int| 0 <= i < cands_view(over@).len() implies fresh(
            #[trigger] cands_view(over@)[i],
        ) by {
            assert(fresh(cands_view(raw@)[i]));
        }
    }
    let adj = apply_priority_adjustments(&over);
    assert(all_short(cands_view(adj@))) by {
        assert forall|i: int| 0 <= i < cands_view(adj@).len() implies byte_len(
            (#[trigger] cands_view(adj@)[i]).normalized,
        ) <= MAX_FILL_LEN by {
            assert(fresh(cands_view(over@)[i]));
        }
    }
    let sorted = sort_candidates(&adj);
    Ok(sorted)
}

// ---------------------------------------------------------------------------
// Clues
// ---------------------------------------------------------------------------

/// A byte offset of `s` that falls between two chars (or at an end).
pub open spec fn is_boundary(s: Seq<char>, b: nat) -> bool {
    exists|k: int| 0 <= k <= s.len() && byte_len(s.take(k)) == b
}

/// The char position of a char boundary.
pub open spec fn char_pos(s: Seq<char>, b: nat) -> int {
    choose|k: int| 0 <= k <= s.len() && byte_len(s.take(k)) == b
}

proof fn lemma_char_pos_unique(s: Seq<char>, b: nat, k: int)
    requires
        0 <= k <= s.len(),
        byte_len(s.take(k)) == b,
    ensures
        is_boundary(s, b),
        char_pos(s, b) == k,
{
    let j = char_pos(s, b);
    if j < k {
        lemma_byte_len_take_strict(s, j, k);
    } else if k < j {
        lemma_byte_len_take_strict(s, k, j);
    }
}

fn byte_to_char(v: &Vec<char>, b: usize) -> (r: Option<usize>)
    ensures
        r matches Some(k) ==> is_boundary(v@, b as nat) && k == char_pos(v@, b as nat),
        r is None ==> !is_boundary(v@, b as nat),
{
    let mut acc: usize = 0;
    let mut i: usize = 0;
    assert(v@.take(0) =~= Seq::<char>::empty());
    while i < v.len() && acc < b
        invariant
            i <= v.len(),
            acc <= b,
            acc == byte_len(v@.take(i as int)),
        decreases v.len() - i,
    {
        let w = crate::text::width_of(v[i]);
        proof {
            assert(v@.take(i + 1) =~= v@.take(i as int).push(v@[i as int]));
            crate::text::lemma_byte_len_push(v@.take(i as int), v@[i as int]);
        }
        if w > b - acc {
            proof {
                assert forall|k: int| 0 <= k <= v@.len() implies byte_len(v@.take(k)) != b by {
                    if k <= i {
                        lemma_byte_len_take_strict(v@, k, i as int);
                    } else {
                        lemma_byte_len_take_strict(v@, i + 1, k);
                    }
                }
            }
            return None;
        }
        acc = acc + w;
        i = i + 1;
    }
    if acc == b {
        proof {
            lemma_char_pos_unique(v@, b as nat, i as int);
        }
        Some(i)
    } else {
        proof {
            assert(v@.take(i as int) =~= v@);
            assert forall|k: int| 0 <= k <= v@.len() implies byte_len(v@.take(k)) != b by {
                lemma_byte_len_take_strict(v@, k, v@.len() as int);
            }
        }
        None
    }
}

/// The text ends inside a word (apostrophes do not end a word).
pub open spec fn ends_in_word(s: Seq<char>) -> bool
    decreases s.len(),
{
    if s.len() == 0 {
        false
    } else if char_is_alphanumeric(s.last()) {
        true
    } else if crate::text::is_apostrophe(s.last()) {
        ends_in_word(s.drop_last())
    } else {
        false
    }
}

/// Each word of `s` replaced by `____`; apostrophes dropped, other chars kept.
pub open spec fn placeholder(s: Seq<char>) -> Seq<char>
    decreases s.len(),
{
    if s.len() == 0 {
        Seq::empty()
    } else {
        let p = placeholder(s.drop_last());
        let c = s.last();
        if char_is_alphanumeric(c) {
            if ends_in_word(s.drop_last()) {
                p
            } else {
                p + "____"@
            }
        } else if crate::text::is_apostrophe(c) {
            p
        } else {
            p.push(c)
        }
    }
}

fn blank_placeholder(text: &Vec<char>) -> (r: Vec<char>)
    ensures
        r@ == placeholder(text@),
{
    let mut out: Vec<char> = Vec::new();
    let mut in_word = false;
    let mut i: usize = 0;
    assert(text@.take(0) =~= Seq::<char>::empty());
    while i < text.len()
        invariant
            i <= text.len(),
            out@ == placeholder(text@.take(i as int)),
            in_word == ends_in_word(text@.take(i as int)),
        decreases text.len() - i,
    {
        let ch = text[i];
        assert(text@.take(i + 1).drop_last() =~= text@.take(i as int));
        assert(text@.take(i + 1).last() == ch);
        if crate::text::is_alphanumeric(ch) {
            if !in_word {
                crate::text::push_str(&mut out, "____");
                in_word = true;
            }
        } else if ch == '\'' || ch == '\u{2019}' {
        } else {
            in_word = false;
            out.push(ch);
        }
        i = i + 1;
    }
    assert(text@.take(text.len() as int) =~= text@);
    out
}

pub open spec fn attached_punctuation(c: char) -> bool {
    c == ',' || c == '.' || c == '!' || c == '?' || c == ';' || c == ':'
}

/// The lyric or name with the answer's words blanked out.
pub open spec fn blank_pattern(src: Seq<char>, ks: int, ke: int) -> Seq<char> {
    let p1 = crate::text::trim_end(src.take(ks));
    let p2 = if p1.len() > 0 {
        p1.push(' ')
    } else {
        p1
    };
    let p3 = p2 + placeholder(src.subrange(ks, ke));
    let ts = crate::text::trim_start(src.skip(ke));
    if ts.len() == 0 {
        p3
    } else if attached_punctuation(ts[0]) {
        p3 + ts
    } else {
        p3.push(' ') + ts
    }
}

pub open spec fn whole_fallback(k: SourceKind) -> Seq<char> {
    match k {
        SourceKind::Title => "Title of this song"@,
        SourceKind::Artist => "Song artist"@,
        SourceKind::Album => "Album containing this song"@,
        SourceKind::Snippet => "Lyric from this song"@,
        SourceKind::Custom => "Custom clue"@,
    }
}

pub open spec fn partial_fallback(k: SourceKind) -> Seq<char> {
    match k {
        SourceKind::Title => "Part of this song title"@,
        SourceKind::Artist => "Part of the artist name"@,
        SourceKind::Album => "Part of the album title"@,
        SourceKind::Snippet => "Part of this lyric"@,
        SourceKind::Custom => "Custom clue"@,
    }
}

pub open spec fn fill_in_prefix(k: SourceKind) -> Seq<char> {
    match k {
        SourceKind::Title => "Fill in the song title: "@,
        SourceKind::Artist => "Fill in the artist name: "@,
        SourceKind::Album => "Fill in the album name: "@,
        SourceKind::Snippet => "Fill in the lyric: "@,
        SourceKind::Custom => "Fill in the custom answer: "@,
    }
}

/// The clue for a candidate that has no custom clue: the whole source, a
/// part of it without context, or the source with the answer blanked out.
pub open spec fn blank_clue_of(c: CandidateModel) -> Seq<char> {
    if c.original_phrase == c.source_text {
        whole_fallback(c.source_kind)
    } else {
        let ks = char_pos(c.source_text, c.span_start);
        let ke = char_pos(c.source_text, c.span_end);
        if !informative_context(c.source_text.take(ks), c.source_text.skip(ke)) {
            partial_fallback(c.source_kind)
        } else {
            fill_in_prefix(c.source_kind) + blank_pattern(c.source_text, ks, ke)
        }
    }
}

/// The clue shown for a candidate.
pub open spec fn clue_of(c: CandidateModel) -> Seq<char> {
    match c.custom_clue {
        Some(clue) => clue,
        None => if c.source_kind == SourceKind::Custom {
            "Custom clue"@
        } else {
            blank_clue_of(c)
        },
    }
}

/// A candidate with no custom clue whose phrase is its whole source is
/// clued by the kind of its source alone.
pub proof fn lemma_whole_source_clue(c: CandidateModel)
    requires
        c.custom_clue is None,
        c.original_phrase == c.source_text,
    ensures
        c.source_kind == SourceKind::Title ==> clue_of(c) == "Title of this song"@,
        c.source_kind == SourceKind::Artist ==> clue_of(c) == "Song artist"@,
        c.source_kind == SourceKind::Album ==> clue_of(c) == "Album containing this song"@,
        c.source_kind == SourceKind::Snippet ==> clue_of(c) == "Lyric from this song"@,
        c.source_kind == SourceKind::Custom ==> clue_of(c) == "Custom clue"@,
{
}

/// A candidate with no custom clue that is only part of its source is
/// clued, where the rest of the source says too little, by what it is a
/// part of; otherwise by a fill-in-the-blank that names its source kind.
pub proof fn lemma_part_of_source_clue(c: CandidateModel)
    requires
        c.custom_clue is None,
        c.original_phrase != c.source_text,
    ensures
        !informative_context(
            c.source_text.take(char_pos(c.source_text, c.span_start)),
            c.source_text.skip(char_pos(c.source_text, c.span_end)),
        ) ==> {
            &&& c.source_kind == SourceKind::Title ==> clue_of(c) == "Part of this song title"@
            &&& c.source_kind == SourceKind::Artist ==> clue_of(c) == "Part of the artist name"@
            &&& c.source_kind == SourceKind::Album ==> clue_of(c) == "Part of the album title"@
            &&& c.source_kind == SourceKind::Snippet ==> clue_of(c) == "Part of this lyric"@
        },
        informative_context(
            c.source_text.take(char_pos(c.source_text, c.span_start)),
            c.source_text.skip(char_pos(c.source_text, c.span_end)),
        ) ==> {
            &&& c.source_kind == SourceKind::Title ==> clue_of(c).take("Fill in the song title: "@.len() as int)
                == "Fill in the song title: "@
            &&& c.source_kind == SourceKind::Artist ==> clue_of(c).take("Fill in the artist name: "@.len() as int)
                == "Fill in the artist name: "@
            &&& c.source_kind == SourceKind::Album ==> clue_of(c).take("Fill in the album name: "@.len() as int)
                == "Fill in the album name: "@
            &&& c.source_kind == SourceKind::Snippet ==> clue_of(c).take("Fill in the lyric: "@.len() as int)
                == "Fill in the lyric: "@
        },
{
    let ks = char_pos(c.source_text, c.span_start);
    let ke = char_pos(c.source_text, c.span_end);
    if c.source_kind != SourceKind::Custom && informative_context(c.source_text.take(ks), c.source_text.skip(ke)) {
        let pre = fill_in_prefix(c.source_kind);
        let rest = blank_pattern(c.source_text, ks, ke);
        assert((pre + rest).take(pre.len() as int) =~= pre);
    }
}

/// The span of the answer in its source falls on char boundaries, as far
/// as building the clue reads it.
pub open spec fn clue_defined(c: CandidateModel) -> bool {
    (c.custom_clue is None && c.source_kind != SourceKind::Custom && c.original_phrase
        != c.source_text) ==> {
        &&& is_boundary(c.source_text, c.span_start)
        &&& is_boundary(c.source_text, c.span_end)
        &&& informative_context(
            c.source_text.take(char_pos(c.source_text, c.span_start)),
            c.source_text.skip(char_pos(c.source_text, c.span_end)),
        ) ==> c.span_start <= c.span_end
    }
}

/// A title, artist or album part whose clue blanks it out of its source.
pub open spec fn metadata_blank(c: CandidateModel) -> bool {
    &&& is_metadata(c.source_kind)
    &&& c.original_phrase != c.source_text
    &&& informative_context(
        c.source_text.take(char_pos(c.source_text, c.span_start)),
        c.source_text.skip(char_pos(c.source_text, c.span_end)),
    )
}

pub open spec fn blank_defined(c: CandidateModel) -> bool {
    (is_metadata(c.source_kind) && c.original_phrase != c.source_text) ==> {
        &&& is_boundary(c.source_text, c.span_start)
        &&& is_boundary(c.source_text, c.span_end)
    }
}

fn string_from(s: &str) -> (r: String)
    ensures
        r@ == s@,
{
    let v = chars_of(s);
    string_of(&v)
}

impl CandidateAnswer {
    /// The clue: the custom clue when there is one, otherwise a clue made
    /// from the source (the whole title, a fill-in-the-blank, ...).
    pub fn clue_text(&self) -> (r: String)
        requires
            clue_defined(self@),
        ensures
            r@ == clue_of(self@),
            self@.custom_clue is None && self@.original_phrase == self@.source_text ==> {
                &&& self@.source_kind == SourceKind::Title ==> r@ == "Title of this song"@
                &&& self@.source_kind == SourceKind::Artist ==> r@ == "Song artist"@
                &&& self@.source_kind == SourceKind::Album ==> r@ == "Album containing this song"@
                &&& self@.source_kind == SourceKind::Snippet ==> r@ == "Lyric from this song"@
            },
    {
        proof {
            if self@.custom_clue is None && self@.original_phrase == self@.source_text {
                lemma_whole_source_clue(self@);
            }
        }
        if let Some(clue) = &self.custom_clue {
            return clue.clone();
        }
        match self.source_kind {
            SourceKind::Custom => string_from("Custom clue"),
            _ => self.blank_clue(),
        }
    }

    /// Whether this is a part of a title, artist or album name that the
    /// clue blanks out of its source.
    pub fn is_metadata_fill_in_blank(&self) -> (r: bool)
        requires
            blank_defined(self@),
        ensures
            r == metadata_blank(self@),
    {
        match self.source_kind {
            SourceKind::Title | SourceKind::Artist | SourceKind::Album => {},
            _ => {
                return false;
            },
        }
        if self.original_phrase == self.source_text {
            return false;
        }
        let src = chars_of(self.source_text.as_str());
        let ks = byte_to_char(&src, self.span.start).unwrap();
        let ke = byte_to_char(&src, self.span.end).unwrap();
        let prefix = slice_chars(&src, 0, ks);
        let suffix = slice_chars(&src, ke, src.len());
        assert(prefix@ =~= src@.take(ks as int));
        assert(suffix@ =~= src@.skip(ke as int));
        has_informative_context(&prefix, &suffix)
    }

    fn blank_clue(&self) -> (r: String)
        requires
            clue_defined(self@),
            self@.custom_clue is None,
            self@.source_kind != SourceKind::Custom,
        ensures
            r@ == blank_clue_of(self@),
    {
        if self.original_phrase == self.source_text {
            return match self.source_kind {
                SourceKind::Title => string_from("Title of this song"),
                SourceKind::Artist => string_from("Song artist"),
                SourceKind::Album => string_from("Album containing this song"),
                SourceKind::Snippet => string_from("Lyric from this song"),
                SourceKind::Custom => string_from("Custom clue"),
            };
        }
        let src = chars_of(self.source_text.as_str());
        let ks = byte_to_char(&src, self.span.start).unwrap();
        let ke = byte_to_char(&src, self.span.end).unwrap();
        let prefix = slice_chars(&src, 0, ks);
        let suffix = slice_chars(&src, ke, src.len());
        assert(prefix@ =~= src@.take(ks as int));
        assert(suffix@ =~= src@.skip(ke as int));
        if !has_informative_context(&prefix, &suffix) {
            return match self.source_kind {
                SourceKind::Title => string_from("Part of this song title"),
                SourceKind::Artist => string_from("Part of the artist name"),
                SourceKind::Album => string_from("Part of the album title"),
                SourceKind::Snippet => string_from("Part of this lyric"),
                SourceKind::Custom => string_from("Custom clue"),
            };
        }
        proof {
            if ke < ks {
                lemma_byte_len_take_strict(src@, ke as int, ks as int);
            }
        }
        let mut pattern: Vec<char> = Vec::new();
        let head = crate::text::trim_end_chars(&prefix);
        push_all(&mut pattern, &head);
        if pattern.len() > 0 {
            pattern.push(' ');
        }
        let middle = slice_chars(&src, ks, ke);
        let blanks = blank_placeholder(&middle);
        push_all(&mut pattern, &blanks);
        let tail = crate::text::trim_start_chars(&suffix);
        if tail.len() > 0 {
            let first = tail[0];
            if first == ',' || first == '.' || first == '!' || first == '?' || first == ';'
                || first == ':' {
                push_all(&mut pattern, &tail);
            } else {
                pattern.push(' ');
                push_all(&mut pattern, &tail);
            }
        }
        assert(pattern@ =~= blank_pattern(src@, ks as int, ke as int));
        let mut out: Vec<char> = Vec::new();
        match self.source_kind {
            SourceKind::Title => crate::text::push_str(&mut out, "Fill in the song title: "),
            SourceKind::Artist => crate::text::push_str(&mut out, "Fill in the artist name: "),
            SourceKind::Album => crate::text::push_str(&mut out, "Fill in the album name: "),
            SourceKind::Snippet => crate::text::push_str(&mut out, "Fill in the lyric: "),
            SourceKind::Custom => crate::text::push_str(&mut out, "Fill in the custom answer: "),
        }
        push_all(&mut out, &pattern);
        string_of(&out)
    }
}


// ---------------------------------------------------------------------------
// What every derived candidate is
// ---------------------------------------------------------------------------

/// A candidate as derivation makes it for a puzzle with `n` tracks and
/// answers of at most `max_len` bytes: its grid form is that of its phrase
/// and has an allowed length, its track exists, and its span marks the
/// phrase in its source on char boundaries.
pub open spec fn formed(c: CandidateModel, n: nat, max_len: nat) -> bool {
    &&& MIN_FILL_LEN <= byte_len(c.normalized) <= max_len
    &&& c.normalized == normalize(c.original_phrase)
    &&& c.track_index < n
    &&& is_boundary(c.source_text, c.span_start)
    &&& is_boundary(c.source_text, c.span_end)
    &&& c.span_start <= c.span_end
}

pub open spec fn all_formed(s: Seq<CandidateModel>, n: nat, max_len: nat) -> bool {
    forall|i: int| 0 <= i < s.len() ==> formed(#[trigger] s[i], n, max_len)
}

proof fn lemma_formed_concat(a: Seq<CandidateModel>, b: Seq<CandidateModel>, n: nat, max_len: nat)
    requires
        all_formed(a, n, max_len),
        all_formed(b, n, max_len),
    ensures
        all_formed(a + b, n, max_len),
{
    assert forall|i: int| 0 <= i < (a + b).len() implies formed(#[trigger] (a + b)[i], n, max_len) by {
        if i < a.len() {
            assert((a + b)[i] == a[i]);
        } else {
            assert((a + b)[i] == b[i - a.len()]);
        }
    }
}

proof fn lemma_boundary_at(s: Seq<char>, k: int)
    requires
        0 <= k <= s.len(),
    ensures
        is_boundary(s, byte_len(s.take(k))),
{
    let _ = byte_len(s.take(k));
}

proof fn lemma_props_ends_formed(src: SourceModel, ws: Seq<(int, int)>, start: int, end: int, n: nat)
    requires
        spans_well_placed(src.text, ws),
        src.track_index < n,
    ensures
        all_formed(props_ends(src, ws, start, end), n, src.max_len),
    decreases ws.len() - end,
{
    if start < 0 || end < start || end >= ws.len() {
    } else if byte_len(normalize(phrase_of(src.text, ws, start, end))) > src.max_len {
    } else {
        lemma_props_ends_formed(src, ws, start, end + 1, n);
        let head = if phrase_accepted(src, ws, start, end) {
            seq![source_candidate(src, ws, start, end)]
        } else {
            Seq::empty()
        };
        if phrase_accepted(src, ws, start, end) {
            let c = source_candidate(src, ws, start, end);
            let a = ws[start].0;
            let b = ws[end].1;
            assert(0 <= a < ws[start].1 <= src.text.len());
            assert(0 <= ws[end].0 < b <= src.text.len());
            if start < end {
                assert(ws[start].1 <= ws[end].0);
            }
            lemma_boundary_at(src.text, a);
            lemma_boundary_at(src.text, b);
            crate::text::lemma_byte_len_take_strict(src.text, a, b);
            assert(formed(c, n, src.max_len));
        }
        assert(all_formed(head, n, src.max_len));
        lemma_formed_concat(head, props_ends(src, ws, start, end + 1), n, src.max_len);
    }
}

proof fn lemma_props_starts_formed(src: SourceModel, ws: Seq<(int, int)>, start: int, n: nat)
    requires
        spans_well_placed(src.text, ws),
        src.track_index < n,
    ensures
        all_formed(props_starts(src, ws, start), n, src.max_len),
    decreases ws.len() - start,
{
    if start >= 0 && start < ws.len() {
        lemma_props_ends_formed(src, ws, start, start, n);
        lemma_props_starts_formed(src, ws, start + 1, n);
        lemma_formed_concat(props_ends(src, ws, start, start), props_starts(src, ws, start + 1), n, src.max_len);
    }
}

proof fn lemma_proposals_formed(src: SourceModel, n: nat)
    requires
        src.track_index < n,
    ensures
        all_formed(source_proposals(src), n, src.max_len),
{
    crate::text::lemma_spans_from_well_placed(src.text, 0);
    lemma_props_starts_formed(src, word_spans(src.text), 0, n);
}

proof fn lemma_custom_props_formed(ti: nat, track: TrackModel, max_len: nat, j: int, n: nat)
    requires
        ti < n,
    ensures
        all_formed(custom_props(ti, track, max_len, j), n, max_len),
    decreases track.custom.len() - j,
{
    if j >= 0 && j < track.custom.len() {
        lemma_custom_props_formed(ti, track, max_len, j + 1, n);
        let cc = track.custom[j];
        let head = if custom_fits(cc, max_len) {
            seq![custom_candidate(ti, track, cc)]
        } else {
            Seq::empty()
        };
        if custom_fits(cc, max_len) {
            let c = custom_candidate(ti, track, cc);
            lemma_boundary_at(cc.answer, 0);
            assert(cc.answer.take(0) =~= Seq::<char>::empty());
            lemma_boundary_at(cc.answer, cc.answer.len() as int);
            assert(cc.answer.take(cc.answer.len() as int) =~= cc.answer);
            assert(formed(c, n, max_len));
        }
        assert(all_formed(head, n, max_len));
        lemma_formed_concat(head, custom_props(ti, track, max_len, j + 1), n, max_len);
    }
}

proof fn lemma_snippet_props_formed(ti: nat, track: TrackModel, max_len: nat, j: int, n: nat)
    requires
        ti < n,
    ensures
        all_formed(snippet_props(ti, track, max_len, j), n, max_len),
    decreases track.snippets.len() - j,
{
    if j >= 0 && j < track.snippets.len() {
        lemma_proposals_formed(source_of(ti, track, SourceKind::Snippet, track.snippets[j], max_len), n);
        lemma_snippet_props_formed(ti, track, max_len, j + 1, n);
        lemma_formed_concat(
            source_proposals(source_of(ti, track, SourceKind::Snippet, track.snippets[j], max_len)),
            snippet_props(ti, track, max_len, j + 1),
            n,
            max_len,
        );
    }
}

proof fn lemma_track_props_formed(ti: nat, track: TrackModel, max_len: nat, n: nat)
    requires
        ti < n,
    ensures
        all_formed(track_props(ti, track, max_len), n, max_len),
{
    let a = custom_props(ti, track, max_len, 0);
    let b = source_proposals(source_of(ti, track, SourceKind::Title, track.name, max_len));
    let c = source_proposals(source_of(ti, track, SourceKind::Artist, track.artist, max_len));
    let d = album_props(ti, track, max_len);
    let e = snippet_props(ti, track, max_len, 0);
    lemma_custom_props_formed(ti, track, max_len, 0, n);
    lemma_proposals_formed(source_of(ti, track, SourceKind::Title, track.name, max_len), n);
    lemma_proposals_formed(source_of(ti, track, SourceKind::Artist, track.artist, max_len), n);
    match track.album {
        Some(al) => {
            lemma_proposals_formed(source_of(ti, track, SourceKind::Album, al, max_len), n);
        },
        None => {
            assert(all_formed(d, n, max_len));
        },
    }
    lemma_snippet_props_formed(ti, track, max_len, 0, n);
    lemma_formed_concat(a, b, n, max_len);
    lemma_formed_concat(a + b, c, n, max_len);
    lemma_formed_concat(a + b + c, d, n, max_len);
    lemma_formed_concat(a + b + c + d, e, n, max_len);
}

proof fn lemma_all_props_formed(ts: Seq<TrackModel>, max_len: nat, i: int)
    ensures
        all_formed(all_props(ts, max_len, i), ts.len(), max_len),
    decreases ts.len() - i,
{
    if i >= 0 && i < ts.len() {
        lemma_track_props_formed(i as nat, ts[i], max_len, ts.len());
        lemma_all_props_formed(ts, max_len, i + 1);
        lemma_formed_concat(track_props(i as nat, ts[i], max_len), all_props(ts, max_len, i + 1), ts.len(), max_len);
    }
}

proof fn lemma_dedup_formed(d: Seq<CandidateModel>, s: Seq<CandidateModel>, n: nat, max_len: nat)
    requires
        all_formed(d, n, max_len),
        all_formed(s, n, max_len),
    ensures
        all_formed(dedup_into(d, s), n, max_len),
    decreases s.len(),
{
    if s.len() > 0 {
        assert(all_formed(s.drop_last(), n, max_len)) by {
            assert forall|i: int| 0 <= i < s.drop_last().len() implies formed(
                #[trigger] s.drop_last()[i],
                n,
                max_len,
            ) by {
                assert(s.drop_last()[i] == s[i]);
            }
        }
        lemma_dedup_formed(d, s.drop_last(), n, max_len);
        assert(formed(s[s.len() - 1], n, max_len));
    }
}

/// Ranking keeps the candidates: each ranked candidate is one of `s`.
pub proof fn lemma_sort_ranked_members(s: Seq<CandidateModel>)
    ensures
        sort_ranked(s).len() == s.len(),
        forall|i: int| 0 <= i < sort_ranked(s).len() ==> s.contains(#[trigger] sort_ranked(s)[i]),
    decreases s.len(),
{
    if s.len() > 0 {
        let p = s.drop_last();
        lemma_sort_ranked_members(p);
        let sorted = sort_ranked(p);
        let pos = insert_pos(sorted, s.last());
        lemma_insert_pos_range(sorted, s.last());
        let r = sorted.insert(pos, s.last());
        assert forall|i: int| 0 <= i < r.len() implies s.contains(#[trigger] r[i]) by {
            if i < pos {
                assert(r[i] == sorted[i]);
                assert(p.contains(sorted[i]));
                let j = choose|j: int| 0 <= j < p.len() && p[j] == sorted[i];
                assert(s[j] == r[i]);
            } else if i == pos {
                assert(s[s.len() - 1] == r[i]);
            } else {
                assert(r[i] == sorted[i - 1]);
                assert(p.contains(sorted[i - 1]));
                let j = choose|j: int| 0 <= j < p.len() && p[j] == sorted[i - 1];
                assert(s[j] == r[i]);
            }
        }
    }
}

proof fn lemma_insert_pos_range(s: Seq<CandidateModel>, x: CandidateModel)
    ensures
        0 <= insert_pos(s, x) <= s.len(),
    decreases s.len(),
{
    if s.len() > 0 {
        lemma_insert_pos_range(s.drop_first(), x);
    }
}

/// Every derived candidate is the grid form of its phrase, `MIN_FILL_LEN`
/// to `max_fill` bytes long, belongs to a track of the puzzle, and marks
/// its phrase in its source text on char boundaries.
pub proof fn lemma_derived_formed(m: InputModel)
    ensures
        all_formed(derived(m), m.tracks.len(), max_fill(m)),
{
    let n = m.tracks.len();
    let mf = max_fill(m);
    lemma_all_props_formed(m.tracks, mf, 0);
    lemma_dedup_formed(Seq::empty(), all_props(m.tracks, mf, 0), n, mf);
    let raw = raw_candidates(m);
    let over = overridden(m.tracks, raw);
    assert(all_formed(over, n, mf)) by {
        assert forall|i: int| 0 <= i < over.len() implies formed(#[trigger] over[i], n, mf) by {
            assert(formed(raw[i], n, mf));
        }
    }
    let adj = adjusted(over);
    assert(all_formed(adj, n, mf)) by {
        assert forall|i: int| 0 <= i < adj.len() implies formed(#[trigger] adj[i], n, mf) by {
            assert(formed(over[i], n, mf));
        }
    }
    lemma_sort_ranked_members(adj);
    let d = derived(m);
    assert forall|i: int| 0 <= i < d.len() implies formed(#[trigger] d[i], n, mf) by {
        assert(adj.contains(d[i]));
        let j = choose|j: int| 0 <= j < adj.len() && adj[j] == d[i];
        assert(formed(adj[j], n, mf));
    }
}


// ---------------------------------------------------------------------------
// The ranking is an order, and derivation keeps one candidate per answer
// ---------------------------------------------------------------------------

pub proof fn lemma_lex_irreflexive(a: Seq<char>)
    ensures
        !lex_less(a, a),
    decreases a.len(),
{
    if a.len() > 0 {
        lemma_lex_irreflexive(a.drop_first());
    }
}

pub proof fn lemma_lex_transitive(a: Seq<char>, b: Seq<char>, c: Seq<char>)
    requires
        lex_less(a, b),
        lex_less(b, c),
    ensures
        lex_less(a, c),
    decreases a.len(),
{
    if a.len() > 0 && b.len() > 0 && c.len() > 0 && a[0] == b[0] && b[0] == c[0] {
        lemma_lex_transitive(a.drop_first(), b.drop_first(), c.drop_first());
    }
}

/// Of two different char sequences, one comes first.
pub proof fn lemma_lex_total(a: Seq<char>, b: Seq<char>)
    requires
        a != b,
    ensures
        lex_less(a, b) || lex_less(b, a),
    decreases a.len(),
{
    if a.len() > 0 && b.len() > 0 && a[0] == b[0] {
        assert(a.drop_first() != b.drop_first()) by {
            if a.drop_first() == b.drop_first() {
                assert(a.drop_first().len() == a.len() - 1);
                assert(b.drop_first().len() == b.len() - 1);
                assert(a.len() == b.len());
                assert(a =~= b) by {
                    assert forall|i: int| 0 <= i < a.len() implies a[i] == b[i] by {
                        if i > 0 {
                            assert(a[i] == a.drop_first()[i - 1]);
                            assert(b[i] == b.drop_first()[i - 1]);
                        }
                    }
                }
            }
        }
        lemma_lex_total(a.drop_first(), b.drop_first());
    } else if a.len() == 0 && b.len() == 0 {
        assert(a =~= b);
    } else if a.len() > 0 && b.len() > 0 {
        vstd::utf8::char_u32_cast(a[0], a[0] as u32);
        vstd::utf8::char_u32_cast(b[0], b[0] as u32);
        assert((a[0] as u32) != (b[0] as u32));
    }
}

/// `ranks_before` is a strict order: irreflexive and transitive.
pub proof fn lemma_ranks_before_order(a: CandidateModel, b: CandidateModel, c: CandidateModel)
    ensures
        !ranks_before(a, a),
        ranks_before(a, b) && ranks_before(b, c) ==> ranks_before(a, c),
{
    lemma_lex_irreflexive(a.normalized);
    if ranks_before(a, b) && ranks_before(b, c) {
        if a.quality_score == b.quality_score && b.quality_score == c.quality_score && byte_len(a.normalized)
            == byte_len(b.normalized) && byte_len(b.normalized) == byte_len(c.normalized) {
            lemma_lex_transitive(a.normalized, b.normalized, c.normalized);
        }
    }
}

/// Candidates in ranking order: none ranks before one placed ahead of it.
pub open spec fn in_rank_order(s: Seq<CandidateModel>) -> bool {
    forall|i: int, j: int| 0 <= i < j < s.len() ==> !ranks_before(#[trigger] s[j], #[trigger] s[i])
}

proof fn lemma_insert_pos_facts(s: Seq<CandidateModel>, x: CandidateModel)
    ensures
        0 <= insert_pos(s, x) <= s.len(),
        forall|q: int| 0 <= q < insert_pos(s, x) ==> !ranks_before(x, #[trigger] s[q]),
        insert_pos(s, x) < s.len() ==> ranks_before(x, s[insert_pos(s, x)]),
    decreases s.len(),
{
    if s.len() > 0 && !ranks_before(x, s[0]) {
        let t = s.drop_first();
        lemma_insert_pos_facts(t, x);
        let p = insert_pos(t, x);
        assert forall|q: int| 0 <= q < p + 1 implies !ranks_before(x, #[trigger] s[q]) by {
            if q > 0 {
                assert(s[q] == t[q - 1]);
            }
        }
        if p < t.len() {
            assert(t[p] == s[p + 1]);
        }
    }
}

/// Ranking puts candidates in ranking order.
pub proof fn lemma_sort_ranked_ordered(s: Seq<CandidateModel>)
    ensures
        in_rank_order(sort_ranked(s)),
    decreases s.len(),
{
    if s.len() > 0 {
        let p = s.drop_last();
        lemma_sort_ranked_ordered(p);
        let sorted = sort_ranked(p);
        let x = s.last();
        let pos = insert_pos(sorted, x);
        lemma_insert_pos_facts(sorted, x);
        let r = sorted.insert(pos, x);
        assert forall|i: int, j: int| 0 <= i < j < r.len() implies !ranks_before(#[trigger] r[j], #[trigger] r[i]) by {
            if j < pos {
                assert(r[i] == sorted[i] && r[j] == sorted[j]);
            } else if j == pos {
                assert(r[i] == sorted[i] && r[j] == x);
            } else if i == pos {
                assert(r[i] == x && r[j] == sorted[j - 1]);
                lemma_ranks_before_order(sorted[j - 1], x, sorted[pos]);
                lemma_ranks_before_order(sorted[pos], x, sorted[pos]);
                if j - 1 > pos {
                    assert(!ranks_before(sorted[j - 1], sorted[pos]));
                }
            } else if i < pos {
                assert(r[i] == sorted[i] && r[j] == sorted[j - 1]);
            } else {
                assert(r[i] == sorted[i - 1] && r[j] == sorted[j - 1]);
            }
        }
    }
}

/// No two candidates share both their track and their grid form.
pub open spec fn unique_keys(s: Seq<CandidateModel>) -> bool {
    forall|i: int, j: int|
        0 <= i < j < s.len() ==> !((#[trigger] s[i]).track_index == (#[trigger] s[j]).track_index
            && s[i].normalized == s[j].normalized)
}

proof fn lemma_dedup_unique(d: Seq<CandidateModel>, s: Seq<CandidateModel>)
    requires
        unique_keys(d),
    ensures
        unique_keys(dedup_into(d, s)),
    decreases s.len(),
{
    if s.len() > 0 {
        lemma_dedup_unique(d, s.drop_last());
        let e = dedup_into(d, s.drop_last());
        let c = s.last();
        if !has_key(e, c) {
            let r = e.push(c);
            assert forall|i: int, j: int| 0 <= i < j < r.len() implies !((#[trigger] r[i]).track_index
                == (#[trigger] r[j]).track_index && r[i].normalized == r[j].normalized) by {
                assert(r[i] == e[i]);
                if j == e.len() {
                    assert(r[j] == c);
                    if e[i].track_index == c.track_index && e[i].normalized == c.normalized {
                        assert(has_key_of(e, c.track_index, c.normalized));
                    }
                } else {
                    assert(r[j] == e[j]);
                }
            }
        }
    }
}

proof fn lemma_sort_ranked_unique(s: Seq<CandidateModel>)
    requires
        unique_keys(s),
    ensures
        unique_keys(sort_ranked(s)),
    decreases s.len(),
{
    if s.len() > 0 {
        let p = s.drop_last();
        assert(unique_keys(p)) by {
            assert forall|i: int, j: int| 0 <= i < j < p.len() implies !((#[trigger] p[i]).track_index
                == (#[trigger] p[j]).track_index && p[i].normalized == p[j].normalized) by {
                assert(p[i] == s[i] && p[j] == s[j]);
            }
        }
        lemma_sort_ranked_unique(p);
        lemma_sort_ranked_members(p);
        let sorted = sort_ranked(p);
        let x = s.last();
        let pos = insert_pos(sorted, x);
        lemma_insert_pos_range(sorted, x);
        let r = sorted.insert(pos, x);
        assert forall|q: int| 0 <= q < sorted.len() implies !((#[trigger] sorted[q]).track_index == x.track_index
            && sorted[q].normalized == x.normalized) by {
            assert(p.contains(sorted[q]));
            let k = choose|k: int| 0 <= k < p.len() && p[k] == sorted[q];
            assert(s[k] == sorted[q]);
            assert(s[s.len() - 1] == x);
        }
        assert forall|i: int, j: int| 0 <= i < j < r.len() implies !((#[trigger] r[i]).track_index
            == (#[trigger] r[j]).track_index && r[i].normalized == r[j].normalized) by {
            if j < pos {
                assert(r[i] == sorted[i] && r[j] == sorted[j]);
            } else if j == pos {
                assert(r[i] == sorted[i] && r[j] == x);
            } else if i == pos {
                assert(r[i] == x && r[j] == sorted[j - 1]);
            } else if i < pos {
                assert(r[i] == sorted[i] && r[j] == sorted[j - 1]);
            } else {
                assert(r[i] == sorted[i - 1] && r[j] == sorted[j - 1]);
            }
        }
    }
}

/// The derived candidates are in ranking order (higher score first, then
/// the longer grid form, then alphabetical), and no two share both their
/// track and their grid form.
pub proof fn lemma_derived_ranked_unique(m: InputModel)
    ensures
        in_rank_order(derived(m)),
        unique_keys(derived(m)),
{
    let raw = raw_candidates(m);
    lemma_dedup_unique(Seq::empty(), all_props(m.tracks, max_fill(m), 0));
    let over = overridden(m.tracks, raw);
    let adj = adjusted(over);
    assert(unique_keys(adj)) by {
        assert forall|i: int, j: int| 0 <= i < j < adj.len() implies !((#[trigger] adj[i]).track_index
            == (#[trigger] adj[j]).track_index && adj[i].normalized == adj[j].normalized) by {
            assert(adj[i].track_index == raw[i].track_index && adj[i].normalized == raw[i].normalized);
            assert(adj[j].track_index == raw[j].track_index && adj[j].normalized == raw[j].normalized);
        }
    }
    lemma_sort_ranked_unique(adj);
    lemma_sort_ranked_ordered(adj);
}

} // verus!
