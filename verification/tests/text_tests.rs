use localization_bank_manager::piece::Piece;
use localization_bank_manager::raw_data::RawFragment;
use localization_bank_manager::parsing_error::ParsingError;
use localization_bank_manager::text::{ResolvedLookup, Text};

fn raw(s: &str) -> Piece {
    Piece::Raw(s.to_string())
}

fn reference(s: &str) -> Piece {
    Piece::Ref(s.to_string())
}

#[test]
fn parse_plain_string_is_raw() {
    let p = Piece::parse(&RawFragment::Str("hello".to_string())).unwrap();
    assert!(matches!(p, Piece::Raw(s) if s == "hello"));
}

#[test]
fn parse_tagged_string_is_ref() {
    let p = Piece::parse(&RawFragment::TaggedStr("key.other".to_string())).unwrap();
    assert!(matches!(p, Piece::Ref(s) if s == "key.other"));
}

#[test]
fn parse_tagged_non_string_is_mismatch() {
    let e = Piece::parse(&RawFragment::TaggedOther).unwrap_err();
    match e {
        ParsingError::MismatchType { attribute, expected } => {
            assert_eq!(attribute, "tagged value");
            assert_eq!(expected, "string");
        }
        other => panic!("unexpected error: {:?}", other),
    }
}

#[test]
fn parse_other_shape_is_mismatch() {
    let e = Piece::parse(&RawFragment::Other).unwrap_err();
    match e {
        ParsingError::MismatchType { attribute, expected } => {
            assert_eq!(attribute, "string value");
            assert_eq!(expected, "string");
        }
        other => panic!("unexpected error: {:?}", other),
    }
}

#[test]
fn cache_concatenates_in_piece_order() {
    let mut t = Text::new(vec![raw("Hello "), reference("who"), raw("!")]);
    assert!(t.actualized().is_none());
    let mut lookup = ResolvedLookup::new();
    lookup.insert("who".to_string(), "World".to_string());
    t.cache(&lookup);
    assert_eq!(t.actualized().unwrap(), "Hello World!");
}

#[test]
fn missing_reference_falls_back_to_its_key() {
    let mut t = Text::new(vec![raw("see "), reference("X")]);
    let lookup = ResolvedLookup::new();
    t.cache(&lookup);
    let shown = t.actualized().unwrap();
    assert_eq!(shown, "see X");
    assert!(shown.contains("X"));
}

#[test]
fn cache_is_idempotent() {
    let mut t = Text::new(vec![raw("a"), reference("r")]);
    let mut lookup = ResolvedLookup::new();
    lookup.insert("r".to_string(), "b".to_string());
    t.cache(&lookup);
    let first = t.actualized().unwrap().clone();
    t.cache(&lookup);
    assert_eq!(t.actualized().unwrap(), &first);
}

#[test]
fn cache_ignores_lookup_changes_until_uncache() {
    let mut t = Text::new(vec![reference("r")]);
    let mut lookup = ResolvedLookup::new();
    lookup.insert("r".to_string(), "one".to_string());
    t.cache(&lookup);
    assert_eq!(t.actualized().unwrap(), "one");
    // a second cache with a different lookup is a no-op
    let mut other = ResolvedLookup::new();
    other.insert("r".to_string(), "two".to_string());
    t.cache(&other);
    assert_eq!(t.actualized().unwrap(), "one");
    // only an explicit uncache invalidates
    t.uncache();
    assert!(t.actualized().is_none());
    t.cache(&other);
    assert_eq!(t.actualized().unwrap(), "two");
}

#[test]
fn uncache_then_cache_reproduces_result() {
    let mut t = Text::new(vec![raw("x"), reference("r"), raw("y")]);
    let mut lookup = ResolvedLookup::new();
    lookup.insert("r".to_string(), "mid".to_string());
    t.cache(&lookup);
    let first = t.actualized().unwrap().clone();
    t.uncache();
    assert!(t.actualized().is_none());
    t.cache(&lookup);
    assert_eq!(t.actualized().unwrap(), &first);
    assert_eq!(first, "xmidy");
}

#[test]
fn get_references_lists_only_refs_in_order() {
    let t = Text::new(vec![raw("a"), reference("k1"), raw("b"), reference("k2")]);
    assert_eq!(t.get_references(), vec!["k1", "k2"]);
    assert_eq!(t.pieces().len(), 4);
}

#[test]
fn lookup_last_insertion_wins() {
    let mut lookup = ResolvedLookup::new();
    lookup.insert("k".to_string(), "old".to_string());
    lookup.insert("k".to_string(), "new".to_string());
    assert_eq!(lookup.get("k").unwrap(), "new");
    assert!(lookup.get("absent").is_none());
}
