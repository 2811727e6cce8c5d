use localization_bank_manager::game_metadata_parser::LanguageSet;

fn entry(game: &str, langs: &[&str]) -> (String, Vec<String>) {
    (
        game.to_string(),
        langs.iter().map(|s| s.to_string()).collect(),
    )
}

#[test]
fn new_builds_sorted_sides() {
    let set = LanguageSet::new(
        vec![entry("zork", &["en", "de"]), entry("abc", &["en"])],
        vec!["free".to_string()],
    );
    assert_eq!(set.games(), vec!["abc", "zork"]);
    assert_eq!(set.languages(), vec!["de", "en", "free"]);
}

#[test]
fn games_by_language_known() {
    let set = LanguageSet::new(
        vec![entry("g1", &["en", "de"]), entry("g2", &["en"])],
        vec![],
    );
    assert_eq!(set.games_by_language("en"), vec!["g1", "g2"]);
    assert_eq!(set.games_by_language("de"), vec!["g1"]);
}

#[test]
fn unknown_language_returns_all_games() {
    let set = LanguageSet::new(
        vec![entry("g1", &["en"]), entry("g2", &["de"])],
        vec![],
    );
    assert_eq!(set.games_by_language("nonexistent"), vec!["g1", "g2"]);
}

#[test]
fn unknown_game_returns_all_languages() {
    let set = LanguageSet::new(
        vec![entry("g1", &["en"]), entry("g2", &["de"])],
        vec!["free".to_string()],
    );
    assert_eq!(set.language_by_games("nonexistent"), vec!["de", "en", "free"]);
}

#[test]
fn free_language_has_no_games() {
    let set = LanguageSet::new(vec![entry("g1", &["en"])], vec!["free".to_string()]);
    let games_of_free: Vec<String> = set.games_by_language("free");
    assert!(games_of_free.is_empty());
}

#[test]
fn load_treats_empty_key_as_free_languages() {
    let set = LanguageSet::load(vec![entry("", &["lonely"]), entry("g1", &["en"])]);
    assert_eq!(set.games(), vec!["g1"]);
    assert_eq!(set.languages(), vec!["en", "lonely"]);
    assert!(set.games_by_language("lonely").is_empty());
}

#[test]
fn add_target_creates_both_sides() {
    let mut set = LanguageSet::new(vec![], vec![]);
    set.add_target("en", "g1");
    assert_eq!(set.games(), vec!["g1"]);
    assert_eq!(set.languages(), vec!["en"]);
    assert_eq!(set.games_by_language("en"), vec!["g1"]);
    assert_eq!(set.language_by_games("g1"), vec!["en"]);
}

#[test]
fn add_target_is_idempotent() {
    let mut set = LanguageSet::new(vec![entry("g1", &["en"])], vec![]);
    set.add_target("en", "g1");
    set.add_target("en", "g1");
    assert_eq!(set.games_by_language("en"), vec!["g1"]);
    assert_eq!(set.language_by_games("g1"), vec!["en"]);
}

#[test]
fn add_target_keeps_both_sides_sorted() {
    let mut set = LanguageSet::new(vec![], vec![]);
    set.add_target("ru", "zoo");
    set.add_target("de", "alpha");
    set.add_target("en", "mid");
    set.add_target("en", "alpha");
    assert_eq!(set.games(), vec!["alpha", "mid", "zoo"]);
    assert_eq!(set.languages(), vec!["de", "en", "ru"]);
    assert_eq!(set.games_by_language("en"), vec!["alpha", "mid"]);
}

#[test]
fn add_target_extends_existing_game_entry() {
    // symmetry: the game side must list the new language as well
    let mut set = LanguageSet::new(vec![entry("g1", &["en"])], vec![]);
    set.add_target("de", "g1");
    assert_eq!(set.language_by_games("g1"), vec!["de", "en"]);
    assert_eq!(set.games_by_language("de"), vec!["g1"]);
}

#[test]
fn symmetry_after_many_adds() {
    let mut set = LanguageSet::new(vec![entry("g2", &["fr"])], vec![]);
    set.add_target("en", "g1");
    set.add_target("fr", "g1");
    set.add_target("en", "g2");
    for g in set.games() {
        for l in set.language_by_games(&g) {
            assert!(set.games_by_language(&l).contains(&g));
        }
    }
    for l in set.languages() {
        for g in set.games_by_language(&l) {
            assert!(set.language_by_games(&g).contains(&l));
        }
    }
}

#[test]
fn remove_association_removes_both_sides() {
    let mut set = LanguageSet::new(vec![entry("g1", &["de", "en"])], vec![]);
    let r = set.remove_association("g1", "de");
    assert_eq!(r, Some(0));
    assert_eq!(set.language_by_games("g1"), vec!["en"]);
    assert_eq!(set.games_by_language("de"), Vec::<String>::new());
    // both entries survive
    assert_eq!(set.games(), vec!["g1"]);
    assert_eq!(set.languages(), vec!["de", "en"]);
}

#[test]
fn remove_association_of_unknown_pair_is_none() {
    let mut set = LanguageSet::new(vec![entry("g1", &["en"])], vec![]);
    assert_eq!(set.remove_association("g1", "de"), None);
    assert_eq!(set.remove_association("gX", "en"), None);
    assert_eq!(set.games_by_language("en"), vec!["g1"]);
}

#[test]
fn remove_game_strips_all_language_lists() {
    let mut set = LanguageSet::new(
        vec![entry("g1", &["de", "en"]), entry("g2", &["en"])],
        vec![],
    );
    let hits = set.remove_game("g1");
    // "de" is at position 0, "en" at position 1 of the language side
    assert_eq!(hits, vec![0, 1]);
    assert_eq!(set.games(), vec!["g2"]);
    assert_eq!(set.languages(), vec!["de", "en"]);
    assert!(set.games_by_language("de").is_empty());
    assert_eq!(set.games_by_language("en"), vec!["g2"]);
}

#[test]
fn remove_game_of_unknown_game_is_empty() {
    let mut set = LanguageSet::new(vec![entry("g1", &["en"])], vec![]);
    assert!(set.remove_game("gX").is_empty());
    assert_eq!(set.games(), vec!["g1"]);
}

#[test]
fn remove_language_strips_all_game_lists() {
    let mut set = LanguageSet::new(
        vec![entry("g1", &["de", "en"]), entry("g2", &["en"])],
        vec![],
    );
    let hits = set.remove_language("en");
    assert_eq!(hits, vec![0, 1]);
    assert_eq!(set.languages(), vec!["de"]);
    assert_eq!(set.games(), vec!["g1", "g2"]);
    assert_eq!(set.language_by_games("g1"), vec!["de"]);
    assert!(set.language_by_games("g2").is_empty());
}

#[test]
fn remove_language_of_unknown_language_is_empty() {
    let mut set = LanguageSet::new(vec![entry("g1", &["en"])], vec![]);
    assert!(set.remove_language("xx").is_empty());
    assert_eq!(set.languages(), vec!["en"]);
}
