use quiddler::solver::{PlayKind, SolveError, Solver};
use quiddler::trie::{KeyState, TrieSet};

/// The standard scoring table: one value per letter 'A'..='Z', then the five
/// digraph tiles CL, ER, IN, QU, TH, each worth the sum of its two letters.
fn score_table() -> Vec<u8> {
    vec![
        2, 8, 8, 5, 2, 6, 6, 7, 2, 13, 8, 3, 5, 5, 2, 6, 15, 5, 3, 3, 4, 11, 10, 12, 4, 14, 11, 7,
        7, 19, 10,
    ]
}

fn build_solver(words: &[&str]) -> Solver {
    let mut trie = TrieSet::new(score_table());
    for w in words {
        trie.add_perms(w.to_string());
    }
    Solver::new(trie)
}

#[test]
fn test_dict() {
    let solver = build_solver(&["INQUIRING", "RING", "IN"]);
    println!("{:?}", solver.dictionary.size());
    let key = "]QUIRINGXP".to_string();
    let cards = key.chars().collect::<Vec<char>>();
    let card_words = solver.find(&cards);
    for p in solver.combos(card_words, &cards).unwrap() {
        println!("{:?}", p);
    }
}

#[test]
fn finder_candidates_draw_from_the_hand() {
    let solver = build_solver(&["RING", "IN"]);
    let cards: Vec<char> = "RINGZ".chars().collect();
    let found = solver.find(&cards);
    assert_eq!(found.len(), 2);
    for cw in &found {
        // every candidate is a stored word with its trie score
        match solver.dictionary.contains(&cw.cards) {
            KeyState::STRING(s) => assert_eq!(s, cw.score),
            other => panic!("candidate is not a stored word: {:?}", other),
        }
        // and uses only tiles of the hand
        let mut hand: Vec<char> = cards.clone();
        for c in &cw.cards {
            let pos = hand.iter().position(|h| h == c);
            assert!(pos.is_some());
            hand.remove(pos.unwrap());
        }
    }
    // no two candidates carry the same tile sequence
    assert!(found[0].cards != found[1].cards);
    assert!(found.iter().any(|cw| cw.cards == vec!['R', 'I', 'N', 'G'] && cw.score == 18));
    assert!(found.iter().any(|cw| cw.cards == vec!['I', 'N'] && cw.score == 7));
}

#[test]
fn finder_empty_hand_yields_no_candidates() {
    let solver = build_solver(&["RING"]);
    let cards: Vec<char> = Vec::new();
    assert_eq!(solver.find(&cards).len(), 0);
}

#[test]
fn round_trip_scrambled_letters() {
    let solver = build_solver(&["RING"]);
    let cards: Vec<char> = "GNIR".chars().collect();
    let found = solver.find(&cards);
    assert!(found.iter().any(|cw| cw.cards == vec!['R', 'I', 'N', 'G']));
}

#[test]
fn composer_empty_input_fails() {
    let solver = build_solver(&["RING"]);
    let cards: Vec<char> = "RING".chars().collect();
    let r = solver.combos(Vec::new(), &cards);
    assert_eq!(r.unwrap_err(), SolveError::EmptyInput);
}

#[test]
fn composer_single_candidate_collapses() {
    let solver = build_solver(&["IN"]);
    let cards: Vec<char> = "INZ".chars().collect();
    let found = solver.find(&cards);
    assert_eq!(found.len(), 1);
    let plays = solver.combos(found, &cards).unwrap();
    assert_eq!(plays.len(), 4);
    assert_eq!(plays[0].kind, PlayKind::TopScore);
    assert_eq!(plays[1].kind, PlayKind::MostWords);
    assert_eq!(plays[2].kind, PlayKind::LongestWord);
    assert_eq!(plays[3].kind, PlayKind::LongestWordTopScore);
    for p in &plays {
        assert_eq!(p.words.len(), 1);
        assert_eq!(p.words[0].cards, vec!['I', 'N']);
        assert_eq!(p.words[0].score, 7);
        assert_eq!(p.remaining.cards, vec!['Z']);
        assert_eq!(p.remaining.score, 14);
        assert_eq!(p.score, 7);
    }
}

#[test]
fn play_scores_partition_the_hand_total() {
    let solver = build_solver(&["RING", "IN"]);
    let cards: Vec<char> = "RINGIN".chars().collect();
    // hand total: R5 I2 N5 G6 I2 N5 = 25
    let found = solver.find(&cards);
    let plays = solver.combos(found, &cards).unwrap();
    for p in &plays {
        assert_eq!(p.score as u32 + p.remaining.score as u32, 25);
        let used: usize = p.words.iter().map(|w| w.cards.len()).sum();
        assert_eq!(used + p.remaining.cards.len(), cards.len());
    }
    // the best play lays both words and leaves nothing
    assert_eq!(plays[0].score, 25);
    assert_eq!(plays[0].remaining.cards.len(), 0);
}

#[test]
fn composer_reuses_a_word_on_duplicate_tiles() {
    let solver = build_solver(&["IN"]);
    let cards: Vec<char> = "ININ".chars().collect();
    let found = solver.find(&cards);
    assert_eq!(found.len(), 1);
    let plays = solver.combos(found, &cards).unwrap();
    for p in &plays {
        assert_eq!(p.words.len(), 2);
        assert_eq!(p.words[0].cards, vec!['I', 'N']);
        assert_eq!(p.words[1].cards, vec!['I', 'N']);
        assert_eq!(p.remaining.cards.len(), 0);
        assert_eq!(p.score, 14);
    }
}

#[test]
fn digraph_tiles_in_the_hand_are_matched() {
    let solver = build_solver(&["INQUIRING"]);
    let cards: Vec<char> = "]QUIRINGXP".chars().collect();
    let found = solver.find(&cards);
    assert!(found.iter().any(|cw| cw.cards == "]QUIRING".chars().collect::<Vec<char>>()
        && cw.score == 46));
}
