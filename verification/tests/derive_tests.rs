use crosstune_generator::derive::{derive_candidates, normalize_for_grid, score_phrase, SourceKind};
use crosstune_generator::input::{CustomClue, PuzzleInput, Track};

#[test]
fn normalizes_to_uppercase_letters() {
    assert_eq!(normalize_for_grid("d'Amour 123"), "DAMOUR");
}

#[test]
fn prefers_title_phrases() {
    assert!(score_phrase(SourceKind::Title, "ROXANNE", 1, 0, 0, 1)
        > score_phrase(SourceKind::Snippet, "ROXANNE", 1, 0, 0, 1));
}

#[test]
fn does_not_split_contractions_into_partial_words() {
    let input = PuzzleInput {
        width: 15,
        height: 15,
        tracks: vec![Track {
            name: "Roxanne".to_string(),
            artist: "The Police".to_string(),
            album: Some("Outlandos d'Amour".to_string()),
            snippets: vec!["You don't have to put on the red light".to_string()],
            custom: Vec::new(),
        }],
    };

    let candidates = derive_candidates(&input).unwrap();
    assert!(candidates.iter().any(|candidate| candidate.normalized == "DONTHAVETOPUTON"));
    assert!(!candidates.iter().any(|candidate| candidate.normalized == "YOU"));
    assert!(!candidates.iter().any(|candidate| candidate.normalized == "YOURENOT"));
    assert!(!candidates.iter().any(|candidate| candidate.normalized == "THAVETOPUTON"));
}

#[test]
fn includes_custom_answer_and_clue() {
    let input = PuzzleInput {
        width: 12,
        height: 12,
        tracks: vec![Track {
            name: "The Modern Age".to_string(),
            artist: "The Strokes".to_string(),
            album: Some("Is This It".to_string()),
            snippets: vec![],
            custom: vec![CustomClue {
                answer: "Modern".to_string(),
                clue: "Second word of this song title".to_string(),
            }],
        }],
    };

    let candidates = derive_candidates(&input).unwrap();
    let candidate = candidates
        .iter()
        .find(|candidate| candidate.normalized == "MODERN")
        .unwrap();
    assert!(matches!(candidate.source_kind, SourceKind::Custom));
    assert_eq!(candidate.clue_text(), "Second word of this song title");
}

#[test]
fn custom_answers_get_maximum_priority() {
    let input = PuzzleInput {
        width: 12,
        height: 12,
        tracks: vec![Track {
            name: "The Modern Age".to_string(),
            artist: "The Strokes".to_string(),
            album: Some("Is This It".to_string()),
            snippets: vec![],
            custom: vec![CustomClue {
                answer: "Modern".to_string(),
                clue: "Second word of this song title".to_string(),
            }],
        }],
    };

    let candidates = derive_candidates(&input).unwrap();
    let custom = candidates
        .iter()
        .find(|candidate| candidate.normalized == "MODERN")
        .unwrap();
    let title = candidates
        .iter()
        .find(|candidate| candidate.normalized == "THEMODERNAGE")
        .unwrap();

    assert!(matches!(custom.source_kind, SourceKind::Custom));
    assert!(custom.quality_score > title.quality_score);
}

#[test]
fn metadata_partial_phrases_get_fill_in_the_blank_clues() {
    let input = PuzzleInput {
        width: 12,
        height: 12,
        tracks: vec![Track {
            name: "The Modern Age".to_string(),
            artist: "The Strokes".to_string(),
            album: Some("First Impressions of Earth".to_string()),
            snippets: vec![],
            custom: Vec::new(),
        }],
    };

    let candidates = derive_candidates(&input).unwrap();
    assert!(!candidates
        .iter()
        .any(|candidate| candidate.normalized == "MODERNAGE"));
    assert!(!candidates
        .iter()
        .any(|candidate| candidate.normalized == "STROKES"));

    let album = candidates
        .iter()
        .find(|candidate| candidate.normalized == "IMPRESSIONS")
        .unwrap();
    assert_eq!(album.clue_text(), "Fill in the album name: First ____ of Earth");
}

#[test]
fn metadata_blanks_are_single_token_but_snippets_can_be_multi_token() {
    let input = PuzzleInput {
        width: 18,
        height: 18,
        tracks: vec![Track {
            name: "The Adults Are Talking".to_string(),
            artist: "The Strokes".to_string(),
            album: Some("First Impressions of Earth".to_string()),
            snippets: vec!["You don't have to put on the red light".to_string()],
            custom: Vec::new(),
        }],
    };

    let candidates = derive_candidates(&input).unwrap();
    assert!(candidates.iter().any(|candidate| candidate.normalized == "ADULTS"));
    assert!(!candidates
        .iter()
        .any(|candidate| candidate.normalized == "ADULTSARE"));
    assert!(candidates.iter().any(|candidate| candidate.normalized == "DONTHAVE"));
    assert!(!candidates.iter().any(|candidate| candidate.normalized == "YOU"));
}

#[test]
fn multi_token_blank_preserves_spacing_and_punctuation() {
    let input = PuzzleInput {
        width: 24,
        height: 24,
        tracks: vec![Track {
            name: "The Modern Age".to_string(),
            artist: "The Strokes".to_string(),
            album: Some("Is This It".to_string()),
            snippets: vec!["No time to feel the breeze, I took too many varieties".to_string()],
            custom: Vec::new(),
        }],
    };

    let candidates = derive_candidates(&input).unwrap();
    let candidate = candidates
        .iter()
        .find(|candidate| candidate.normalized == "FEELTHEBREEZE")
        .unwrap();
    assert_eq!(
        candidate.clue_text(),
        "Fill in the lyric: No time to ____ ____ ____, I took too many varieties"
    );
}

#[test]
fn partial_title_never_uses_full_title_clue() {
    let input = PuzzleInput {
        width: 16,
        height: 12,
        tracks: vec![Track {
            name: "You Only Live Once".to_string(),
            artist: "The Strokes".to_string(),
            album: Some("First Impressions of Earth".to_string()),
            snippets: vec![],
            custom: Vec::new(),
        }],
    };

    let candidates = derive_candidates(&input).unwrap();
    assert!(!candidates
        .iter()
        .any(|candidate| candidate.normalized == "ONLYLIVEONCE"));
}

#[test]
fn title_candidates_are_ranked_above_shared_artist_candidates() {
    let input = PuzzleInput {
        width: 12,
        height: 12,
        tracks: vec![
            Track {
                name: "Reptilia".to_string(),
                artist: "The Strokes".to_string(),
                album: Some("Room On Fire".to_string()),
                snippets: vec![],
                custom: Vec::new(),
            },
            Track {
                name: "Someday".to_string(),
                artist: "The Strokes".to_string(),
                album: Some("Is This It".to_string()),
                snippets: vec![],
                custom: Vec::new(),
            },
        ],
    };

    let candidates = derive_candidates(&input).unwrap();
    let title = candidates
        .iter()
        .find(|candidate| candidate.track_index == 0 && candidate.normalized == "REPTILIA")
        .unwrap();
    let artist = candidates
        .iter()
        .find(|candidate| candidate.track_index == 0 && candidate.normalized == "THESTROKES")
        .unwrap();

    assert_eq!(artist.ambiguity_count, 2);
    assert!(title.quality_score > artist.quality_score);
}

#[test]
fn subset_album_overlap_is_not_heavily_penalized() {
    let input = PuzzleInput {
        width: 12,
        height: 12,
        tracks: vec![
            Track {
                name: "Track One".to_string(),
                artist: "Artist A".to_string(),
                album: Some("Shared Album".to_string()),
                snippets: vec![],
                custom: Vec::new(),
            },
            Track {
                name: "Track Two".to_string(),
                artist: "Artist B".to_string(),
                album: Some("Shared Album".to_string()),
                snippets: vec![],
                custom: Vec::new(),
            },
            Track {
                name: "Track Three".to_string(),
                artist: "Artist C".to_string(),
                album: Some("Different Album".to_string()),
                snippets: vec![],
                custom: Vec::new(),
            },
            Track {
                name: "Track Four".to_string(),
                artist: "Artist D".to_string(),
                album: Some("Another Album".to_string()),
                snippets: vec![],
                custom: Vec::new(),
            },
        ],
    };

    let candidates = derive_candidates(&input).unwrap();
    let shared_album = candidates
        .iter()
        .find(|candidate| candidate.track_index == 0 && candidate.normalized == "SHAREDALBUM")
        .unwrap();
    assert_eq!(shared_album.ambiguity_count, 2);
    assert!(shared_album.quality_score > 0);
}

#[test]
fn near_global_artist_overlap_is_penalized() {
    let input = PuzzleInput {
        width: 12,
        height: 12,
        tracks: vec![
            Track {
                name: "Track One".to_string(),
                artist: "The Strokes".to_string(),
                album: Some("Album One".to_string()),
                snippets: vec![],
                custom: Vec::new(),
            },
            Track {
                name: "Track Two".to_string(),
                artist: "The Strokes".to_string(),
                album: Some("Album Two".to_string()),
                snippets: vec![],
                custom: Vec::new(),
            },
            Track {
                name: "Track Three".to_string(),
                artist: "The Strokes".to_string(),
                album: Some("Album Three".to_string()),
                snippets: vec![],
                custom: Vec::new(),
            },
            Track {
                name: "Track Four".to_string(),
                artist: "The Strokes".to_string(),
                album: Some("Album Four".to_string()),
                snippets: vec![],
                custom: Vec::new(),
            },
        ],
    };

    let candidates = derive_candidates(&input).unwrap();
    let artist = candidates
        .iter()
        .find(|candidate| candidate.track_index == 0 && candidate.normalized == "THESTROKES")
        .unwrap();
    let title = candidates
        .iter()
        .find(|candidate| candidate.track_index == 0 && candidate.normalized == "TRACKONE")
        .unwrap();

    assert_eq!(artist.ambiguity_count, 4);
    assert!(artist.quality_score < title.quality_score);
}
