use std::time::Duration;

use crosstune_generator::derive::{derive_candidates, normalize_for_grid, CandidateAnswer, SourceKind};
use crosstune_generator::grid::{Direction, Grid};
use crosstune_generator::input::{CustomClue, PuzzleInput, Track};
use crosstune_generator::ranking::{grid_signature, insert_top_grid, Ranked};
use crosstune_generator::search::{
    branching_cap, hub_entry_bonus, metadata_blank_layout_penalty, multi_crossing_move_bonus, order_anchors,
    order_moves, root_seed, score_grid, search_best_n, search_best_n_with_timer, snippet_layout_penalty, time_up,
    SearchConfig, Timer,
};

fn candidate(track_index: usize, normalized: &str) -> CandidateAnswer {
    CandidateAnswer {
        normalized: normalized.to_string(),
        original_phrase: normalized.to_string(),
        source_text: normalized.to_string(),
        source_kind: SourceKind::Title,
        track_index,
        track_name: format!("Track {track_index}"),
        track_artist: "Artist".to_string(),
        span: 0..normalized.len(),
        quality_score: 0,
        custom_clue: None,
        ambiguity_count: 1,
    }
}

fn track(name: &str, artist: &str, album: &str, snippets: &[&str]) -> Track {
    Track {
        name: name.to_string(),
        artist: artist.to_string(),
        album: Some(album.to_string()),
        snippets: snippets.iter().map(|s| s.to_string()).collect(),
        custom: Vec::new(),
    }
}

fn ranked(grid: Grid) -> Ranked {
    let score = score_grid(&grid);
    let signature = grid_signature(&grid);
    Ranked { grid, score, signature }
}

#[test]
fn placing_a_crossing_word_keeps_the_shared_letter() {
    let grid = Grid::new(5, 5).place(&candidate(0, "ROX"), 0, 0, Direction::Across).unwrap();
    let grid = grid.place(&candidate(1, "RAN"), 0, 0, Direction::Down).unwrap();
    assert_eq!(grid.cell(0, 0), Some('R'));
    assert_eq!(grid.cell(1, 0), Some('O'));
    assert_eq!(grid.cell(2, 0), Some('X'));
    assert_eq!(grid.cell(0, 1), Some('A'));
    assert_eq!(grid.cell(0, 2), Some('N'));
    assert_eq!(grid.entries[1].crossings, 1);
    // three letters, then three more of which one is shared
    assert_eq!(grid.filled_count(), 5);
}

#[test]
fn placing_refuses_a_clashing_letter_and_a_repeated_track() {
    let grid = Grid::new(5, 5).place(&candidate(0, "ROX"), 0, 0, Direction::Across).unwrap();
    assert!(grid.place(&candidate(1, "SAN"), 0, 0, Direction::Down).is_none());
    assert!(grid.place(&candidate(0, "RAN"), 0, 0, Direction::Down).is_none());
    assert!(grid.place(&candidate(1, "ROX"), 0, 0, Direction::Down).is_none());
}

#[test]
fn placements_for_lists_exactly_the_valid_placements() {
    let grid = Grid::new(6, 6).place(&candidate(0, "ROXAN"), 0, 2, Direction::Across).unwrap();
    let word = candidate(1, "NOX");
    let listed = grid.placements_for(&word);
    for y in 0..6 {
        for x in 0..6 {
            for direction in [Direction::Across, Direction::Down] {
                let placed = grid.place(&word, x, y, direction);
                let entry = listed.iter().find(|p| p.0 == x && p.1 == y && p.2 == direction);
                assert_eq!(placed.is_some(), entry.is_some());
                if let (Some(g), Some(p)) = (placed, entry) {
                    assert_eq!(g.entries[1].crossings, p.3);
                }
            }
        }
    }
    assert!(!listed.is_empty());
}

#[test]
fn derived_candidates_are_grid_forms_ranked_and_unique() {
    let input = PuzzleInput {
        width: 10,
        height: 8,
        tracks: vec![
            track("The Modern Age", "The Strokes", "Is This It", &["No time to feel the breeze"]),
            track("Last Nite", "The Strokes", "Is This It", &["I know this for sure"]),
        ],
    };
    let candidates = derive_candidates(&input).unwrap();
    assert!(!candidates.is_empty());
    for c in &candidates {
        assert_eq!(c.normalized, normalize_for_grid(&c.original_phrase));
        assert!(c.normalized.len() >= 3 && c.normalized.len() <= 10);
        assert!(c.track_index < 2);
        assert!(c.span.start <= c.span.end && c.span.end <= c.source_text.len());
    }
    for pair in candidates.windows(2) {
        let (a, b) = (&pair[0], &pair[1]);
        let later_first = b.quality_score > a.quality_score
            || (b.quality_score == a.quality_score && b.normalized.len() > a.normalized.len())
            || (b.quality_score == a.quality_score
                && b.normalized.len() == a.normalized.len()
                && b.normalized < a.normalized);
        assert!(!later_first);
    }
    for (i, a) in candidates.iter().enumerate() {
        for b in &candidates[i + 1..] {
            assert!(!(a.track_index == b.track_index && a.normalized == b.normalized));
        }
    }
}

#[test]
fn signature_lists_sorted_entry_keys() {
    let grid = Grid::new(5, 5).place(&candidate(0, "ROX"), 0, 0, Direction::Across).unwrap();
    let grid = grid.place(&candidate(1, "RAN"), 0, 0, Direction::Down).unwrap();
    let signature: String = grid_signature(&grid).into_iter().collect();
    assert_eq!(signature, "0:0:A:0:ROX|0:0:D:1:RAN");
}

#[test]
fn top_list_keeps_one_grid_per_signature_best_first_within_limit() {
    let small = Grid::new(6, 6).place(&candidate(0, "ROX"), 0, 0, Direction::Across).unwrap();
    let large = Grid::new(6, 6).place(&candidate(1, "ROXAN"), 0, 0, Direction::Across).unwrap();
    let middle = Grid::new(6, 6).place(&candidate(2, "ROXA"), 0, 0, Direction::Across).unwrap();
    let mut best = Vec::new();
    insert_top_grid(&mut best, ranked(small.clone()), 2);
    insert_top_grid(&mut best, ranked(small.clone()), 2);
    assert_eq!(best.len(), 1);
    insert_top_grid(&mut best, ranked(large), 2);
    assert_eq!(best.len(), 2);
    assert_eq!(best[0].grid.filled_count(), 5);
    insert_top_grid(&mut best, ranked(middle), 2);
    assert_eq!(best.len(), 2);
    assert_eq!(best[0].grid.filled_count(), 5);
    assert_eq!(best[1].grid.filled_count(), 4);
    assert!(best[0].score >= best[1].score);
}

#[test]
fn scoring_formulas_give_exact_values() {
    assert_eq!(multi_crossing_move_bonus(2), 75);
    assert_eq!(multi_crossing_move_bonus(3), 110);
    assert_eq!(hub_entry_bonus(2, 5), 180);
    assert_eq!(hub_entry_bonus(3, 1), 180);
    assert_eq!(snippet_layout_penalty(0), 0);
    assert_eq!(snippet_layout_penalty(1), 10);
    assert_eq!(snippet_layout_penalty(3), 100);
    assert_eq!(branching_cap(0, 24), 24);
    assert_eq!(branching_cap(1, 24), 24);
    assert_eq!(branching_cap(2, 24), 13);
    assert_eq!(branching_cap(7, 24), 6);
}

#[test]
fn two_title_blanks_cost_exactly_their_layout_penalty() {
    let input = PuzzleInput {
        width: 18,
        height: 18,
        tracks: vec![
            track("The Modern Age", "The Strokes", "The New Abnormal", &[]),
            track("The Adults Are Talking", "The Strokes", "Is This It", &[]),
        ],
    };
    let candidates = derive_candidates(&input).unwrap();
    let first = candidates.iter().find(|c| c.normalized == "MODERN").unwrap();
    let second = candidates.iter().find(|c| c.normalized == "ADULTS").unwrap();
    let grid = Grid::new(18, 18).place(first, 0, 2, Direction::Across).unwrap();
    let (x, y, direction, _) = grid.placements_for(second).into_iter().next().unwrap();
    let both = grid.place(second, x, y, direction).unwrap();
    // (2 - 1) * 28 for the second blank, 24 for the second of the same kind
    assert_eq!(metadata_blank_layout_penalty(&both), 52);
}

#[test]
fn moves_are_ordered_heaviest_first_keeping_ties_in_order() {
    let moves = vec![
        (0usize, 0usize, 0usize, Direction::Across, 5i32),
        (1, 1, 0, Direction::Down, 9),
        (2, 2, 0, Direction::Across, 5),
        (3, 3, 0, Direction::Down, 7),
    ];
    let ordered = order_moves(&moves);
    let firsts: Vec<usize> = ordered.iter().map(|m| m.0).collect();
    assert_eq!(firsts, vec![1, 3, 0, 2]);
}

#[test]
fn anchors_are_ordered_by_score_keeping_ties_in_order() {
    let mut cands = vec![candidate(0, "AAA"), candidate(1, "BBB"), candidate(2, "CCC")];
    cands[0].quality_score = 10;
    cands[1].quality_score = 30;
    cands[2].quality_score = 10;
    let order = order_anchors(&cands, &vec![2, 0, 1]);
    assert_eq!(order, vec![1, 2, 0]);
}

#[test]
fn search_results_are_distinct_ranked_and_start_centred() {
    let input = PuzzleInput {
        width: 9,
        height: 9,
        tracks: vec![
            track("Roxanne", "The Police", "Outlandos", &["Red light"]),
            track("Regatta", "Sting", "Police", &["Bottle message"]),
            track("Synchronicity", "Police", "Ghost", &["Every breath"]),
        ],
    };
    let candidates = derive_candidates(&input).unwrap();
    let config = SearchConfig { time_limit: Duration::from_millis(150), seed: 11, branch_limit: 6, top_n: 4 };
    let solutions = search_best_n(&input, &candidates, &config).unwrap();
    assert!(!solutions.is_empty() && solutions.len() <= 4);
    for (i, s) in solutions.iter().enumerate() {
        assert_eq!(s.score, score_grid(&s.grid));
        assert_eq!(s.grid.width, 9);
        assert_eq!(s.grid.height, 9);
        let first = &s.grid.entries[0];
        assert_eq!(first.direction, Direction::Across);
        assert_eq!(first.y, 4);
        assert_eq!(first.x, (9 - first.candidate.normalized.len()) / 2);
        for later in &s.grid.entries[1..] {
            assert!(later.crossings >= 1);
        }
        for other in &solutions[i + 1..] {
            assert_ne!(grid_signature(&s.grid), grid_signature(&other.grid));
            assert!(s.score >= other.score);
        }
        assert_eq!(s.explored_nodes, solutions[0].explored_nodes);
    }
}

#[test]
fn no_anchor_that_fits_gives_no_search_result() {
    let input = PuzzleInput {
        width: 2,
        height: 10,
        tracks: vec![track("Roxanne", "Police", "Outlandos", &[])],
    };
    let candidates = derive_candidates(&input).unwrap();
    assert!(!candidates.is_empty());
    let config = SearchConfig { time_limit: Duration::from_millis(50), seed: 1, branch_limit: 4, top_n: 1 };
    assert!(search_best_n(&input, &candidates, &config).is_none());
}

#[test]
fn custom_clue_overrides_a_derived_answer() {
    let mut t = track("The Modern Age", "The Strokes", "Is This It", &[]);
    t.custom.push(CustomClue { answer: "the modern age".to_string(), clue: "A song".to_string() });
    let input = PuzzleInput { width: 15, height: 15, tracks: vec![t] };
    let candidates = derive_candidates(&input).unwrap();
    let c = candidates.iter().find(|c| c.normalized == "THEMODERNAGE").unwrap();
    assert_eq!(c.source_kind, SourceKind::Custom);
    assert_eq!(c.clue_text(), "A song");
}

#[test]
fn signature_does_not_depend_on_placement_order() {
    let a = Grid::new(5, 5).place(&candidate(0, "ROX"), 0, 0, Direction::Across).unwrap();
    let a = a.place(&candidate(1, "RAN"), 0, 0, Direction::Down).unwrap();
    let b = Grid::new(5, 5).place(&candidate(1, "RAN"), 0, 0, Direction::Down).unwrap();
    let b = b.place(&candidate(0, "ROX"), 0, 0, Direction::Across).unwrap();
    assert_eq!(grid_signature(&a), grid_signature(&b));
    let c = Grid::new(5, 5).place(&candidate(0, "ROX"), 0, 1, Direction::Across).unwrap();
    assert_ne!(grid_signature(&a), grid_signature(&c));
}

#[test]
fn a_layout_built_on_a_new_grid_counts_letters_less_crossings() {
    let grid = Grid::new(6, 6).place(&candidate(0, "ROXAN"), 0, 1, Direction::Across).unwrap();
    let grid = grid.place(&candidate(1, "SONG"), 1, 0, Direction::Down).unwrap();
    let grid = grid.place(&candidate(2, "ANEW"), 4, 0, Direction::Down).unwrap();
    let letters: usize = grid.entries.iter().map(|e| e.candidate.normalized.len()).sum();
    let crossings: usize = grid.entries.iter().map(|e| e.crossings).sum();
    assert_eq!(grid.entries[0].crossings, 0);
    assert!(grid.entries[1..].iter().all(|e| e.crossings >= 1));
    assert_eq!(letters, 13);
    assert_eq!(crossings, 2);
    assert_eq!(grid.filled_count(), letters - crossings);
    // every filled cell lies on an entry
    for y in 0..6 {
        for x in 0..6 {
            if grid.cell(x, y).is_some() {
                assert!(grid.entries.iter().any(|e| match e.direction {
                    Direction::Across => y == e.y && e.x <= x && x < e.x + e.candidate.normalized.len(),
                    Direction::Down => x == e.x && e.y <= y && y < e.y + e.candidate.normalized.len(),
                }));
            }
        }
    }
}

#[test]
fn each_start_grid_gets_the_seed_plus_its_position_plus_one() {
    assert_eq!(root_seed(5, 2), 8);
    assert_eq!(root_seed(0, 0), 1);
    assert_eq!(root_seed(u64::MAX, 0), 0);
    assert_eq!(root_seed(u64::MAX - 1, 3), 2);
}

#[test]
fn an_empty_grid_scores_zero() {
    let score = score_grid(&Grid::new(0, 0));
    assert_eq!(score.filled_cells, 0);
    assert_eq!(score.crossings, 0);
    assert_eq!(score.clue_quality, 0);
}

fn small_puzzle() -> PuzzleInput {
    PuzzleInput {
        width: 7,
        height: 5,
        tracks: vec![
            track("Roxanne", "Police", "Outlandos", &[]),
            track("Message", "Sting", "Regatta", &[]),
        ],
    }
}

#[test]
fn a_timer_that_is_up_at_once_keeps_only_start_grids() {
    let input = small_puzzle();
    let candidates = derive_candidates(&input).unwrap();
    let config = SearchConfig { time_limit: Duration::from_millis(0), seed: 3, branch_limit: 2, top_n: 3 };
    let start = std::time::Instant::now();
    let solutions = search_best_n_with_timer(&input, &candidates, &config, &start, Timer::Checks(Some(0))).unwrap();
    assert!(!solutions.is_empty());
    for s in &solutions {
        assert_eq!(s.grid.entries.len(), 1);
        assert_eq!(s.grid.entries[0].direction, Direction::Across);
        assert_eq!(s.grid.entries[0].y, 2);
    }
}

#[test]
fn a_timer_that_never_stops_gives_the_same_layouts_each_time() {
    let input = small_puzzle();
    let candidates = derive_candidates(&input).unwrap();
    let config = SearchConfig { time_limit: Duration::from_millis(0), seed: 9, branch_limit: 2, top_n: 3 };
    let start = std::time::Instant::now();
    let first = search_best_n_with_timer(&input, &candidates, &config, &start, Timer::Checks(None)).unwrap();
    let second = search_best_n_with_timer(&input, &candidates, &config, &start, Timer::Clock(None)).unwrap();
    assert_eq!(first.len(), second.len());
    for (a, b) in first.iter().zip(second.iter()) {
        assert_eq!(grid_signature(&a.grid), grid_signature(&b.grid));
        assert_eq!(a.explored_nodes, b.explored_nodes);
    }
    // the exhaustive search finds at least the layouts a cut search finds
    let cut = search_best_n_with_timer(&input, &candidates, &config, &start, Timer::Checks(Some(0))).unwrap();
    assert!(first[0].score >= cut[0].score);
}

#[test]
fn a_count_timer_answers_not_yet_that_many_times() {
    let mut timer = Timer::Checks(Some(2));
    assert!(!time_up(&mut timer));
    assert!(!time_up(&mut timer));
    assert!(time_up(&mut timer));
    assert!(time_up(&mut timer));
    let mut never = Timer::Clock(None);
    assert!(!time_up(&mut never));
}

#[test]
fn the_start_grid_is_the_best_scored_of_the_anchors() {
    let input = small_puzzle();
    let candidates = derive_candidates(&input).unwrap();
    let config = SearchConfig { time_limit: Duration::from_millis(0), seed: 4, branch_limit: 1, top_n: 1 };
    let start = std::time::Instant::now();
    let solutions = search_best_n_with_timer(&input, &candidates, &config, &start, Timer::Checks(Some(0))).unwrap();
    assert_eq!(solutions.len(), 1);
    let anchor = &solutions[0].grid.entries[0].candidate;
    let best = candidates.iter().take(3).map(|c| c.quality_score).max().unwrap();
    assert_eq!(anchor.quality_score, best);
    // the same seed gives the same start grid
    let again = search_best_n_with_timer(&input, &candidates, &config, &start, Timer::Checks(Some(0))).unwrap();
    assert_eq!(grid_signature(&again[0].grid), grid_signature(&solutions[0].grid));
}

#[test]
fn the_seed_picks_among_equally_scored_anchors() {
    let input = PuzzleInput {
        width: 7,
        height: 5,
        tracks: vec![track("Abc", "X", "Y", &[]), track("Def", "X", "Y", &[]), track("Ghi", "X", "Y", &[])],
    };
    let candidates = vec![candidate(0, "ABC"), candidate(1, "DEF"), candidate(2, "GHI")];
    let start = std::time::Instant::now();
    let mut seen: Vec<String> = Vec::new();
    for seed in 0..32u64 {
        let config = SearchConfig { time_limit: Duration::from_millis(0), seed, branch_limit: 1, top_n: 1 };
        let solutions =
            search_best_n_with_timer(&input, &candidates, &config, &start, Timer::Checks(Some(0))).unwrap();
        assert_eq!(solutions.len(), 1);
        let anchor = solutions[0].grid.entries[0].candidate.normalized.clone();
        // the same seed gives the same start entry
        let again =
            search_best_n_with_timer(&input, &candidates, &config, &start, Timer::Checks(Some(0))).unwrap();
        assert_eq!(again[0].grid.entries[0].candidate.normalized, anchor);
        if !seen.contains(&anchor) {
            seen.push(anchor);
        }
    }
    // with equal scores the shuffle decides, so the seeds do not all agree
    assert!(seen.len() > 1);
    assert!(seen.iter().all(|a| a == "ABC" || a == "DEF" || a == "GHI"));
}
