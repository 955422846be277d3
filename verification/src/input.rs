//! The puzzle description: grid size and the tracks that answers come from.
use vstd::prelude::*;
use crate::text::{chars_of, decimal, is_blank, push_decimal, push_str, str_blank, string_of};

verus! {

/// An explicit answer with its clue.
#[derive(Debug, Clone)]
pub struct CustomClue {
    pub answer: String,
    pub clue: String,
}

/// One song: title, artist, optional album, lyric snippets and custom clues.
#[derive(Debug, Clone)]
pub struct Track {
    pub name: String,
    pub artist: String,
    pub album: Option<String>,
    pub snippets: Vec<String>,
    pub custom: Vec<CustomClue>,
}

/// The whole puzzle description.
#[derive(Debug, Clone)]
pub struct PuzzleInput {
    pub width: usize,
    pub height: usize,
    pub tracks: Vec<Track>,
}

pub struct CustomModel {
    pub answer: Seq<char>,
    pub clue: Seq<char>,
}

pub struct TrackModel {
    pub name: Seq<char>,
    pub artist: Seq<char>,
    pub album: Option<Seq<char>>,
    pub snippets: Seq<Seq<char>>,
    pub custom: Seq<CustomModel>,
}

pub struct InputModel {
    pub width: nat,
    pub height: nat,
    pub tracks: Seq<TrackModel>,
}

impl View for CustomClue {
    type V = CustomModel;

    open spec fn view(&self) -> CustomModel {
        CustomModel { answer: self.answer@, clue: self.clue@ }
    }
}

pub open spec fn opt_string_view(s: Option<String>) -> Option<Seq<char>> {
    match s {
        Some(t) => Some(t@),
        None => None,
    }
}

impl View for Track {
    type V = TrackModel;

    open spec fn view(&self) -> TrackModel {
        TrackModel {
            name: self.name@,
            artist: self.artist@,
            album: opt_string_view(self.album),
            snippets: self.snippets@.map_values(|s: String| s@),
            custom: self.custom@.map_values(|c: CustomClue| c@),
        }
    }
}

impl View for PuzzleInput {
    type V = InputModel;

    open spec fn view(&self) -> InputModel {
        InputModel {
            width: self.width as nat,
            height: self.height as nat,
            tracks: self.tracks@.map_values(|t: Track| t@),
        }
    }
}

/// Why a puzzle description is refused; track positions count from zero.
#[derive(Debug, Clone, Copy, PartialEq, Eq, Structural)]
pub enum InputError {
    NonPositiveSize,
    NoTracks,
    MissingName(usize),
    MissingArtist(usize),
    MissingAlbum(usize),
    EmptySnippet(usize),
    EmptyCustomAnswer(usize),
    EmptyCustomClue(usize),
}

/// The first custom clue with a blank answer or clue decides the error.
pub open spec fn custom_problem(cs: Seq<CustomModel>, track: usize) -> Option<InputError>
    decreases cs.len(),
{
    if cs.len() == 0 {
        None
    } else if is_blank(cs[0].answer) {
        Some(InputError::EmptyCustomAnswer(track))
    } else if is_blank(cs[0].clue) {
        Some(InputError::EmptyCustomClue(track))
    } else {
        custom_problem(cs.drop_first(), track)
    }
}

/// What is wrong with one track, checked in the order the fields are listed.
pub open spec fn track_problem(t: TrackModel, track: usize) -> Option<InputError> {
    if is_blank(t.name) {
        Some(InputError::MissingName(track))
    } else if is_blank(t.artist) {
        Some(InputError::MissingArtist(track))
    } else if t.album matches Some(a) && is_blank(a) {
        Some(InputError::MissingAlbum(track))
    } else if exists|j: int| 0 <= j < t.snippets.len() && is_blank(#[trigger] t.snippets[j]) {
        Some(InputError::EmptySnippet(track))
    } else {
        custom_problem(t.custom, track)
    }
}

/// The first problem among the tracks from position `i` on.
pub open spec fn tracks_problem(ts: Seq<TrackModel>, i: int) -> Option<InputError>
    decreases ts.len() - i,
{
    if i < 0 || i >= ts.len() {
        None
    } else if track_problem(ts[i], i as usize) is Some {
        track_problem(ts[i], i as usize)
    } else {
        tracks_problem(ts, i + 1)
    }
}

/// The outcome of validating a puzzle description.
pub open spec fn validation(m: InputModel) -> Result<(), InputError> {
    if m.width == 0 || m.height == 0 {
        Err(InputError::NonPositiveSize)
    } else if m.tracks.len() == 0 {
        Err(InputError::NoTracks)
    } else {
        match tracks_problem(m.tracks, 0) {
            Some(e) => Err(e),
            None => Ok(()),
        }
    }
}

/// The text that reports an error.
pub open spec fn error_message(e: InputError) -> Seq<char> {
    match e {
        InputError::NonPositiveSize => "width and height must both be positive"@,
        InputError::NoTracks => "at least one track is required"@,
        InputError::MissingName(i) => "track #"@ + decimal((i + 1) as nat) + " is missing a name"@,
        InputError::MissingArtist(i) => "track #"@ + decimal((i + 1) as nat) + " is missing an artist"@,
        InputError::MissingAlbum(i) => "track #"@ + decimal((i + 1) as nat) + " is missing an album"@,
        InputError::EmptySnippet(i) => "track #"@ + decimal((i + 1) as nat) + " contains an empty snippet"@,
        InputError::EmptyCustomAnswer(i) => "track #"@ + decimal((i + 1) as nat)
            + " contains a custom clue with an empty answer"@,
        InputError::EmptyCustomClue(i) => "track #"@ + decimal((i + 1) as nat)
            + " contains a custom clue with an empty clue"@,
    }
}

fn track_message(i: usize, tail: &str) -> (s: String)
    ensures
        s@ == "track #"@ + decimal((i + 1) as nat) + tail@,
{
    let mut out: Vec<char> = Vec::new();
    push_str(&mut out, "track #");
    push_decimal(&mut out, i as u128 + 1);
    push_str(&mut out, tail);
    string_of(&out)
}

impl InputError {
    /// The human-readable text of the error (`"track #2 is missing a name"`).
    pub fn message(&self) -> (s: String)
        ensures
            s@ == error_message(*self),
    {
        match *self {
            InputError::NonPositiveSize => {
                let v = chars_of("width and height must both be positive");
                string_of(&v)
            },
            InputError::NoTracks => {
                let v = chars_of("at least one track is required");
                string_of(&v)
            },
            InputError::MissingName(i) => track_message(i, " is missing a name"),
            InputError::MissingArtist(i) => track_message(i, " is missing an artist"),
            InputError::MissingAlbum(i) => track_message(i, " is missing an album"),
            InputError::EmptySnippet(i) => track_message(i, " contains an empty snippet"),
            InputError::EmptyCustomAnswer(i) => track_message(
                i,
                " contains a custom clue with an empty answer",
            ),
            InputError::EmptyCustomClue(i) => track_message(
                i,
                " contains a custom clue with an empty clue",
            ),
        }
    }
}

fn check_customs(cs: &Vec<CustomClue>, track: usize) -> (r: Option<InputError>)
    ensures
        r == custom_problem(cs@.map_values(|c: CustomClue| c@), track),
{
    let ghost m = cs@.map_values(|c: CustomClue| c@);
    let mut j: usize = 0;
    assert(m.skip(0) =~= m);
    while j < cs.len()
        invariant
            j <= cs.len(),
            m == cs@.map_values(|c: CustomClue| c@),
            custom_problem(m, track) == custom_problem(m.skip(j as int), track),
        decreases cs.len() - j,
    {
        let ghost rest = m.skip(j as int);
        assert(rest[0] == cs@[j as int]@);
        assert(rest.drop_first() =~= m.skip(j + 1));
        if str_blank(cs[j].answer.as_str()) {
            return Some(InputError::EmptyCustomAnswer(track));
        }
        if str_blank(cs[j].clue.as_str()) {
            return Some(InputError::EmptyCustomClue(track));
        }
        j = j + 1;
    }
    assert(m.skip(j as int) =~= Seq::<CustomModel>::empty());
    None
}

fn check_track(t: &Track, track: usize) -> (r: Option<InputError>)
    ensures
        r == track_problem(t@, track),
{
    if str_blank(t.name.as_str()) {
        return Some(InputError::MissingName(track));
    }
    if str_blank(t.artist.as_str()) {
        return Some(InputError::MissingArtist(track));
    }
    if let Some(a) = &t.album {
        if str_blank(a.as_str()) {
            return Some(InputError::MissingAlbum(track));
        }
    }
    assert(!is_blank(t@.name) && !is_blank(t@.artist));
    assert(!(t@.album matches Some(a) && is_blank(a)));
    let ghost snips = t.snippets@.map_values(|s: String| s@);
    let mut j: usize = 0;
    while j < t.snippets.len()
        invariant
            j <= t.snippets.len(),
            snips == t.snippets@.map_values(|s: String| s@),
            !is_blank(t@.name) && !is_blank(t@.artist),
            !(t@.album matches Some(a) && is_blank(a)),
            forall|k: int| 0 <= k < j ==> !is_blank(#[trigger] snips[k]),
        decreases t.snippets.len() - j,
    {
        if str_blank(t.snippets[j].as_str()) {
            assert(is_blank(snips[j as int]));
            assert(0 <= j < t@.snippets.len() && is_blank(t@.snippets[j as int]));
            return Some(InputError::EmptySnippet(track));
        }
        j = j + 1;
    }
    check_customs(&t.custom, track)
}

impl PuzzleInput {
    /// Checks the description: a positive size, at least one track, and no
    /// blank name, artist, album, snippet, custom answer or custom clue.
    pub fn validate(&self) -> (r: Result<(), InputError>)
        ensures
            r == validation(self@),
    {
        if self.width == 0 || self.height == 0 {
            return Err(InputError::NonPositiveSize);
        }
        if self.tracks.len() == 0 {
            return Err(InputError::NoTracks);
        }
        let ghost ts = self@.tracks;
        let mut i: usize = 0;
        while i < self.tracks.len()
            invariant
                i <= self.tracks.len(),
                ts == self.tracks@.map_values(|t: Track| t@),
                self.width != 0 && self.height != 0 && self.tracks.len() > 0,
                tracks_problem(ts, 0) == tracks_problem(ts, i as int),
            decreases self.tracks.len() - i,
        {
            let p = check_track(&self.tracks[i], i);
            assert(ts[i as int] == self.tracks@[i as int]@);
            if p.is_some() {
                assert(tracks_problem(ts, i as int) == track_problem(ts[i as int], i));
                assert(tracks_problem(self@.tracks, 0) == p);
                assert(validation(self@) == Err::<(), InputError>(p.unwrap()));
                return Err(p.unwrap());
            }
            i = i + 1;
        }
        assert(tracks_problem(ts, i as int) == None::<InputError>);
        Ok(())
    }
}

} // verus!
