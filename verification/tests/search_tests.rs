use std::time::Duration;

use crosstune_generator::derive::{derive_candidates, SourceKind};
use crosstune_generator::grid::{Direction, Grid};
use crosstune_generator::input::{PuzzleInput, Track};
use crosstune_generator::search::{
    hub_entry_bonus, metadata_blank_layout_penalty, metadata_blank_repeat_penalty, multi_crossing_move_bonus,
    score_grid, search_best_n, SearchConfig,
};

#[test]
fn finds_a_solution_for_small_input() {
    let input = PuzzleInput {
        width: 7,
        height: 7,
        tracks: vec![
            Track {
                name: "Roxanne".to_string(),
                artist: "Police".to_string(),
                album: Some("Outlandos".to_string()),
                snippets: vec!["Red light".to_string()],
                custom: Vec::new(),
            },
            Track {
                name: "Message".to_string(),
                artist: "Police".to_string(),
                album: Some("Regatta".to_string()),
                snippets: vec!["Bottle".to_string()],
                custom: Vec::new(),
            },
        ],
    };
    let candidates = derive_candidates(&input).unwrap();
    let config = SearchConfig {
        time_limit: Duration::from_millis(200),
        seed: 7,
        branch_limit: 12,
        top_n: 1,
    };
    let solutions = search_best_n(&input, &candidates, &config);
    assert!(solutions.is_some());
}

#[test]
fn returns_ranked_top_n_solutions() {
    let input = PuzzleInput {
        width: 8,
        height: 8,
        tracks: vec![
            Track {
                name: "Roxanne".to_string(),
                artist: "The Police".to_string(),
                album: Some("Outlandos".to_string()),
                snippets: vec!["Red light".to_string()],
                custom: Vec::new(),
            },
            Track {
                name: "Regatta".to_string(),
                artist: "Sting".to_string(),
                album: Some("Police".to_string()),
                snippets: vec!["Bottle message".to_string()],
                custom: Vec::new(),
            },
            Track {
                name: "Synchronicity".to_string(),
                artist: "Police".to_string(),
                album: Some("Ghost".to_string()),
                snippets: vec!["Every breath".to_string()],
                custom: Vec::new(),
            },
        ],
    };
    let candidates = derive_candidates(&input).unwrap();
    let config = SearchConfig {
        time_limit: Duration::from_millis(250),
        seed: 3,
        branch_limit: 12,
        top_n: 3,
    };
    let solutions = search_best_n(&input, &candidates, &config).unwrap();
    assert!(!solutions.is_empty());
    assert!(solutions.len() <= 3);
    for pair in solutions.windows(2) {
        assert!(pair[0].score >= pair[1].score);
    }
}

#[test]
fn grid_scoring_penalizes_lyric_heavy_layouts() {
    let input = PuzzleInput {
        width: 12,
        height: 12,
        tracks: vec![
            Track {
                name: "The Modern Age".to_string(),
                artist: "The Strokes".to_string(),
                album: Some("Is This It".to_string()),
                snippets: vec!["No time to feel the breeze".to_string()],
                custom: Vec::new(),
            },
            Track {
                name: "Last Nite".to_string(),
                artist: "The Strokes".to_string(),
                album: Some("Is This It".to_string()),
                snippets: vec!["I know this for sure".to_string()],
                custom: Vec::new(),
            },
        ],
    };
    let candidates = derive_candidates(&input).unwrap();
    let title = candidates
        .iter()
        .find(|candidate| candidate.track_index == 0 && matches!(candidate.source_kind, SourceKind::Title))
        .unwrap();
    let snippet = candidates
        .iter()
        .find(|candidate| candidate.track_index == 1 && matches!(candidate.source_kind, SourceKind::Snippet))
        .unwrap();

    let title_grid = Grid::new(input.width, input.height)
        .place(title, 0, 0, Direction::Across)
        .unwrap();
    let snippet_grid = Grid::new(input.width, input.height)
        .place(snippet, 0, 0, Direction::Across)
        .unwrap();

    assert!(score_grid(&title_grid) > score_grid(&snippet_grid));
}

#[test]
fn multi_crossing_entries_get_density_bonus() {
    assert_eq!(multi_crossing_move_bonus(0), 0);
    assert_eq!(multi_crossing_move_bonus(1), 0);
    assert!(multi_crossing_move_bonus(2) > 0);
    assert!(multi_crossing_move_bonus(3) > multi_crossing_move_bonus(2));
    assert!(hub_entry_bonus(2, 5) > hub_entry_bonus(1, 2));
}

#[test]
fn repeated_metadata_fill_in_blank_gets_penalized() {
    let input = PuzzleInput {
        width: 18,
        height: 18,
        tracks: vec![
            Track {
                name: "The Modern Age".to_string(),
                artist: "The Strokes".to_string(),
                album: Some("The New Abnormal".to_string()),
                snippets: vec![],
                custom: Vec::new(),
            },
            Track {
                name: "The Adults Are Talking".to_string(),
                artist: "The Strokes".to_string(),
                album: Some("Is This It".to_string()),
                snippets: vec![],
                custom: Vec::new(),
            },
        ],
    };
    let candidates = derive_candidates(&input).unwrap();
    let first_title_blank = candidates
        .iter()
        .find(|candidate| candidate.normalized == "MODERN")
        .unwrap();
    let second_title_blank = candidates
        .iter()
        .find(|candidate| candidate.normalized == "ADULTS")
        .unwrap();

    let grid = Grid::new(input.width, input.height)
        .place(first_title_blank, 0, 2, Direction::Across)
        .unwrap();

    assert!(first_title_blank.is_metadata_fill_in_blank());
    assert!(second_title_blank.is_metadata_fill_in_blank());
    assert!(metadata_blank_repeat_penalty(second_title_blank, &grid) > 0);
    assert!(metadata_blank_layout_penalty(&grid) == 0);

    let (x, y, direction, _) = grid.placements_for(second_title_blank).into_iter().next().unwrap();
    let expanded = grid
        .place(second_title_blank, x, y, direction)
        .unwrap();
    assert!(metadata_blank_layout_penalty(&expanded) > 0);
    assert_eq!(score_grid(&expanded).metadata_blank_entries, 2);
}
