use crosstune_generator::derive::{CandidateAnswer, SourceKind};
use crosstune_generator::grid::{Direction, Grid};

fn candidate(track_index: usize, normalized: &str) -> CandidateAnswer {
    CandidateAnswer {
        normalized: normalized.to_string(),
        original_phrase: normalized.to_string(),
        source_text: normalized.to_string(),
        source_kind: SourceKind::Title,
        track_index,
        track_name: format!("Track {track_index}"),
        track_artist: "Artist".to_string(),
        span: 0..normalized.len(),
        quality_score: 0,
        custom_clue: None,
        ambiguity_count: 1,
    }
}

#[test]
fn rejects_non_crossing_second_entry() {
    let grid = Grid::new(5, 5)
        .place(&candidate(0, "ROX"), 0, 0, Direction::Across)
        .unwrap();
    assert!(grid.place(&candidate(1, "ANN"), 0, 2, Direction::Across).is_none());
}
