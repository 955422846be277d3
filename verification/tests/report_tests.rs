use std::time::Duration;

use crosstune_generator::derive::{CandidateAnswer, SourceKind};
use crosstune_generator::generate::{generate_puzzles, generate_report, GenerateError};
use crosstune_generator::grid::{Direction, Grid};
use crosstune_generator::input::{CustomClue, InputError, PuzzleInput, Track};
use crosstune_generator::render::{render_puzzles, render_report};
use crosstune_generator::search::{score_grid, SearchConfig, Solution};

fn clued(track_index: usize, normalized: &str, clue: &str) -> CandidateAnswer {
    CandidateAnswer {
        normalized: normalized.to_string(),
        original_phrase: normalized.to_string(),
        source_text: normalized.to_string(),
        source_kind: SourceKind::Title,
        track_index,
        track_name: format!("Track {track_index}"),
        track_artist: "Artist".to_string(),
        span: 0..normalized.len(),
        quality_score: 0,
        custom_clue: Some(clue.to_string()),
        ambiguity_count: 1,
    }
}

fn track(name: &str, artist: &str, album: Option<&str>) -> Track {
    Track {
        name: name.to_string(),
        artist: artist.to_string(),
        album: album.map(|a| a.to_string()),
        snippets: Vec::new(),
        custom: Vec::new(),
    }
}

fn config() -> SearchConfig {
    SearchConfig { time_limit: Duration::from_millis(5000), seed: 1, branch_limit: 24, top_n: 1 }
}

fn one_solution() -> Solution {
    let grid = Grid::new(3, 3).place(&clued(0, "ROX", "Clue"), 0, 1, Direction::Across).unwrap();
    let score = score_grid(&grid);
    Solution { grid, score, elapsed: Duration::from_millis(12), explored_nodes: 7 }
}

const EXPECTED: &str = "Solution 1\nGrid\n■ ■ ■\nR O X\n■ ■ ■\n\nAcross\n1. (1,2) [A] Clue | answer=ROX | source=Track 0 - Artist\n\nDown\n\nStats\nfilled_cells=3 crossings=0 hub_entries=0 title_entries=1 snippet_entries=0 metadata_blank_entries=0 clue_quality=0 explored_nodes=7 elapsed_ms=12 seed=1 branch_limit=24 time_limit_ms=5000\n";

#[test]
fn report_prints_grid_clues_and_stats() {
    let solutions = vec![one_solution()];
    let text = render_report(&solutions, &config(), &vec![12], 5000);
    assert_eq!(text, EXPECTED);
}

#[test]
fn report_reads_milliseconds_from_durations() {
    let solutions = vec![one_solution()];
    assert_eq!(render_puzzles(&solutions, &config()), EXPECTED);
}

#[test]
fn later_solutions_are_separated_and_numbered() {
    let solutions = vec![one_solution(), one_solution()];
    let text = render_puzzles(&solutions, &config());
    assert_eq!(text, format!("{EXPECTED}\n{}", EXPECTED.replace("Solution 1", "Solution 2")));
}

#[test]
fn validation_reports_each_problem() {
    let ok = PuzzleInput { width: 5, height: 5, tracks: vec![track("Song", "Band", None)] };
    assert_eq!(ok.validate(), Ok(()));
    let zero = PuzzleInput { width: 0, height: 5, tracks: vec![track("Song", "Band", None)] };
    assert_eq!(zero.validate(), Err(InputError::NonPositiveSize));
    let none = PuzzleInput { width: 5, height: 5, tracks: vec![] };
    assert_eq!(none.validate(), Err(InputError::NoTracks));
    let cases: Vec<(Track, InputError)> = vec![
        (track(" ", "Band", None), InputError::MissingName(1)),
        (track("Song", "", None), InputError::MissingArtist(1)),
        (track("Song", "Band", Some("  ")), InputError::MissingAlbum(1)),
        (
            Track { snippets: vec!["fine".to_string(), " ".to_string()], ..track("Song", "Band", None) },
            InputError::EmptySnippet(1),
        ),
        (
            Track {
                custom: vec![CustomClue { answer: " ".to_string(), clue: "c".to_string() }],
                ..track("Song", "Band", None)
            },
            InputError::EmptyCustomAnswer(1),
        ),
        (
            Track {
                custom: vec![CustomClue { answer: "a".to_string(), clue: "".to_string() }],
                ..track("Song", "Band", None)
            },
            InputError::EmptyCustomClue(1),
        ),
    ];
    for (bad, error) in cases {
        let input = PuzzleInput { width: 5, height: 5, tracks: vec![track("Song", "Band", None), bad] };
        assert_eq!(input.validate(), Err(error));
    }
    assert_eq!(InputError::MissingName(1).message(), "track #2 is missing a name");
    assert_eq!(InputError::NonPositiveSize.message(), "width and height must both be positive");
    assert_eq!(
        InputError::EmptyCustomClue(0).message(),
        "track #1 contains a custom clue with an empty clue"
    );
}

#[test]
fn generate_finds_layouts_for_a_valid_puzzle() {
    let input = PuzzleInput {
        width: 8,
        height: 8,
        tracks: vec![track("Roxanne", "The Police", Some("Outlandos")), track("Message", "Police", Some("Regatta"))],
    };
    let config = SearchConfig { time_limit: Duration::from_millis(100), seed: 2, branch_limit: 6, top_n: 2 };
    let solutions = generate_puzzles(&input, &config).unwrap();
    assert!(!solutions.is_empty() && solutions.len() <= 2);
}

#[test]
fn generate_reports_each_failure() {
    let config = SearchConfig { time_limit: Duration::from_millis(50), seed: 1, branch_limit: 4, top_n: 1 };
    let invalid = PuzzleInput { width: 0, height: 4, tracks: vec![track("Roxanne", "Police", None)] };
    assert_eq!(
        generate_puzzles(&invalid, &config).err(),
        Some(GenerateError::Invalid(InputError::NonPositiveSize))
    );
    let short = PuzzleInput { width: 8, height: 8, tracks: vec![track("Go", "Me", None)] };
    assert_eq!(generate_puzzles(&short, &config).err(), Some(GenerateError::NoCandidates));
    let narrow = PuzzleInput { width: 2, height: 10, tracks: vec![track("Roxanne", "Police", None)] };
    assert_eq!(generate_puzzles(&narrow, &config).err(), Some(GenerateError::NoSolution));
    let mut long = String::new();
    for _ in 0..300 {
        long.push_str("1 ");
    }
    long.push_str("abc");
    let wordy = PuzzleInput {
        width: 8,
        height: 8,
        tracks: vec![Track { snippets: vec![long], ..track("Roxanne", "Police", None) }],
    };
    // a phrase of many letterless words scores far below zero, but the
    // search still lays out the puzzle
    assert!(generate_puzzles(&wordy, &config).is_ok());
    assert_eq!(GenerateError::NoSolution.message(), "search did not produce any valid crossword candidate");
    assert_eq!(
        GenerateError::Invalid(InputError::NoTracks).message(),
        "at least one track is required"
    );
}

#[test]
fn generate_report_prints_the_found_layout() {
    let input = PuzzleInput { width: 7, height: 3, tracks: vec![track("Roxanne", "Police", None)] };
    let config = SearchConfig { time_limit: Duration::from_millis(100), seed: 5, branch_limit: 1, top_n: 1 };
    let text = generate_report(&input, &config).unwrap();
    assert!(text.starts_with("Solution 1\nGrid\n"));
    assert!(text.contains("\nAcross\n1. (1,2) [A] "));
    assert!(text.contains("seed=5 branch_limit=1 time_limit_ms=100\n"));
    let narrow = PuzzleInput { width: 2, height: 10, tracks: vec![track("Roxanne", "Police", None)] };
    assert_eq!(generate_report(&narrow, &config).err(), Some(GenerateError::NoSolution));
}
