use quiddler::trie::{KeyState, TrieSet};

/// The standard scoring table: one value per letter 'A'..='Z', then the five
/// digraph tiles CL, ER, IN, QU, TH, each worth the sum of its two letters.
fn values_table() -> Vec<u8> {
    vec![
        2, 8, 8, 5, 2, 6, 6, 7, 2, 13, 8, 3, 5, 5, 2, 6, 15, 5, 3, 3, 4, 11, 10, 12, 4, 14, 11, 7,
        7, 19, 10,
    ]
}

#[test]
fn test_perms() {
    let mut t = TrieSet::new(values_table());
    t.add_perms("INQUIRING".to_string());
    assert_eq!(t.size(), 8);
    let key: Vec<char> = "INQUIRING".to_string().chars().collect();
    assert_eq!(t.contains(&key), KeyState::STRING(46));
    let key: Vec<char> = "INQ".to_string().chars().collect();
    assert_eq!(t.contains(&key), KeyState::PREFIX);
    let key: Vec<char> = "PINQ".to_string().chars().collect();
    assert_eq!(t.contains(&key), KeyState::NEITHER);
    let key: Vec<char> = "INQP".to_string().chars().collect();
    assert_eq!(t.contains(&key), KeyState::NEITHER);
    // A-Z, CL=[, ER=\, IN=], QU=^, TH=_
    let key: Vec<char> = "]^IR]G".to_string().chars().collect();
    assert_eq!(t.contains(&key), KeyState::STRING(46));
    let key: Vec<char> = "]^IRING".to_string().chars().collect();
    assert_eq!(t.contains(&key), KeyState::STRING(46));
    let key: Vec<char> = "]QUIR]G".to_string().chars().collect();
    assert_eq!(t.contains(&key), KeyState::STRING(46));
    let key: Vec<char> = "IN^IR]G".to_string().chars().collect();
    assert_eq!(t.contains(&key), KeyState::STRING(46));
    let key: Vec<char> = "IN^IRING".to_string().chars().collect();
    assert_eq!(t.contains(&key), KeyState::STRING(46));
    let key: Vec<char> = "]QUIRING".to_string().chars().collect();
    assert_eq!(t.contains(&key), KeyState::STRING(46));
    let key: Vec<char> = "INQUIR]G".to_string().chars().collect();
    assert_eq!(t.contains(&key), KeyState::STRING(46));
}

#[test]
fn contracted_inquiring_scores_forty_six() {
    let mut t = TrieSet::new(values_table());
    t.add_perms("INQUIRING".to_string());
    let key: Vec<char> = "]^IR]G".chars().collect();
    assert_eq!(t.contains(&key), KeyState::STRING(46));
}

#[test]
fn every_encoding_scores_the_path_sum() {
    let mut t = TrieSet::new(values_table());
    t.add_perms("THE".to_string());
    // T3 + H7 + E2 = 12, and the TH tile is worth 10, so both layings score 12
    let key: Vec<char> = "THE".chars().collect();
    assert_eq!(t.contains(&key), KeyState::STRING(12));
    let key: Vec<char> = "_E".chars().collect();
    assert_eq!(t.contains(&key), KeyState::STRING(12));
}

#[test]
fn size_counts_first_time_paths_only() {
    let mut t = TrieSet::new(values_table());
    assert_eq!(t.size(), 0);
    t.add_perms("CLERK".to_string());
    // CL and ER are independent digraph spots: 4 distinct paths
    assert_eq!(t.size(), 4);
    t.add_perms("CLERK".to_string());
    assert_eq!(t.size(), 4);
    t.add_perms("THE".to_string());
    assert_eq!(t.size(), 6);
}

#[test]
fn shared_prefixes_share_paths() {
    let mut t = TrieSet::new(values_table());
    t.add_perms("RING".to_string());
    t.add_perms("RINGS".to_string());
    // each word has 2 encodings (the IN spot); prefixes are shared, terminals
    // are distinct
    assert_eq!(t.size(), 4);
    let key: Vec<char> = "RING".chars().collect();
    assert_eq!(t.contains(&key), KeyState::STRING(18));
    let key: Vec<char> = "R]G".chars().collect();
    assert_eq!(t.contains(&key), KeyState::STRING(18));
    let key: Vec<char> = "RINGS".chars().collect();
    assert_eq!(t.contains(&key), KeyState::STRING(21));
    let key: Vec<char> = "RIN".chars().collect();
    assert_eq!(t.contains(&key), KeyState::PREFIX);
}
