use localization_bank_manager::localized_bank::{LocalizedBank, Record};
use localization_bank_manager::text::ResolvedLookup;
use localization_bank_manager::parsing_error::ParsingError;
use localization_bank_manager::raw_data::{RawFragment, RawRecord};

fn frag(s: &str) -> RawFragment {
    RawFragment::Str(s.to_string())
}

fn tagged(s: &str) -> RawFragment {
    RawFragment::TaggedStr(s.to_string())
}

/// One language entry: (language, [(game, fragments)]).
fn language(
    lang: &str,
    games: Vec<(&str, Vec<RawFragment>)>,
) -> (String, Vec<(String, Vec<RawFragment>)>) {
    (
        lang.to_string(),
        games
            .into_iter()
            .map(|(g, fs)| (g.to_string(), fs))
            .collect(),
    )
}

#[test]
fn missing_fallback_is_rejected() {
    let raw = RawRecord {
        text: vec![language("en", vec![("gameA", vec![frag("A")])])],
        tag: None,
    };
    let e = Record::parse(&raw).unwrap_err();
    match e {
        ParsingError::MissingAttribute { attribute, reason } => {
            assert_eq!(attribute, "");
            assert_eq!(reason, "fallback");
        }
        other => panic!("unexpected error: {:?}", other),
    }
}

#[test]
fn adding_fallback_makes_it_parse() {
    let raw = RawRecord {
        text: vec![language(
            "en",
            vec![("gameA", vec![frag("A")]), ("", vec![frag("F")])],
        )],
        tag: None,
    };
    let rec = Record::parse(&raw).unwrap();
    assert_eq!(rec.text.len(), 1);
    let (lang, lrec) = &rec.text[0];
    assert_eq!(lang, "en");
    assert_eq!(lrec.games.len(), 1);
    assert_eq!(lrec.games[0].0, "gameA");
}

#[test]
fn bad_fragment_shape_fails_the_record() {
    let raw = RawRecord {
        text: vec![language(
            "en",
            vec![("", vec![frag("ok"), RawFragment::TaggedOther])],
        )],
        tag: None,
    };
    let e = Record::parse(&raw).unwrap_err();
    assert!(matches!(e, ParsingError::MismatchType { .. }));
}

#[test]
fn overrides_are_sorted_at_parse_time() {
    let raw = RawRecord {
        text: vec![language(
            "en",
            vec![
                ("zeta", vec![frag("Z")]),
                ("", vec![frag("F")]),
                ("alpha", vec![frag("A")]),
            ],
        )],
        tag: None,
    };
    let rec = Record::parse(&raw).unwrap();
    let lrec = &rec.text[0].1;
    assert_eq!(lrec.games[0].0, "alpha");
    assert_eq!(lrec.games[1].0, "zeta");
}

fn one_record_bank() -> LocalizedBank {
    // fallback "F", a per-game override for "gameA" = "A"
    let raw = vec![(
        "key".to_string(),
        RawRecord {
            text: vec![language(
                "en",
                vec![("", vec![frag("F")]), ("gameA", vec![frag("A")])],
            )],
            tag: None,
        },
    )];
    LocalizedBank::load(&raw).unwrap()
}

fn shown(t: &localization_bank_manager::text::Text) -> String {
    // texts leave the query uncached; their pieces are all literal here
    t.pieces()
        .iter()
        .map(|p| p.inner().as_str())
        .collect::<Vec<_>>()
        .join("")
}

#[test]
fn query_fan_out_with_game_filter() {
    let bank = one_record_bank();
    let mut games = vec!["gameA".to_string(), "gameB".to_string()];
    let tuples = bank.records(None, Some(&mut games), None);
    assert_eq!(tuples.len(), 2);
    assert_eq!(tuples[0].0, "key");
    assert_eq!(tuples[0].1, "en");
    assert_eq!(tuples[0].2, "gameA");
    assert_eq!(shown(&tuples[0].3), "A");
    assert_eq!(tuples[1].2, "gameB");
    assert_eq!(shown(&tuples[1].3), "F");
}

#[test]
fn query_fan_out_sorts_the_game_filter() {
    let bank = one_record_bank();
    let mut games = vec!["gameB".to_string(), "gameA".to_string()];
    let tuples = bank.records(None, Some(&mut games), None);
    // the caller-supplied list itself is sorted in place
    assert_eq!(games, vec!["gameA", "gameB"]);
    assert_eq!(tuples.len(), 2);
    assert_eq!(tuples[0].2, "gameA");
    assert_eq!(shown(&tuples[0].3), "A");
    assert_eq!(tuples[1].2, "gameB");
    assert_eq!(shown(&tuples[1].3), "F");
}

#[test]
fn query_fan_out_without_game_filter() {
    let bank = one_record_bank();
    let tuples = bank.records(None, None, None);
    // one tuple for the fallback under "", one per override; none for gameB
    assert_eq!(tuples.len(), 2);
    assert_eq!(tuples[0].2, "");
    assert_eq!(shown(&tuples[0].3), "F");
    assert_eq!(tuples[1].2, "gameA");
    assert_eq!(shown(&tuples[1].3), "A");
}

#[test]
fn language_filter_drops_other_languages() {
    let raw = vec![(
        "key".to_string(),
        RawRecord {
            text: vec![
                language("de", vec![("", vec![frag("DE")])]),
                language("en", vec![("", vec![frag("EN")])]),
            ],
            tag: None,
        },
    )];
    let bank = LocalizedBank::load(&raw).unwrap();
    let langs = vec!["en".to_string()];
    let tuples = bank.records(Some(&langs), None, None);
    assert_eq!(tuples.len(), 1);
    assert_eq!(tuples[0].1, "en");
    assert_eq!(shown(&tuples[0].3), "EN");
}

#[test]
fn tag_filter_selects_tagged_records_only() {
    let raw = vec![
        (
            "plain".to_string(),
            RawRecord {
                text: vec![language("en", vec![("", vec![frag("P")])])],
                tag: None,
            },
        ),
        (
            "tagged".to_string(),
            RawRecord {
                text: vec![language("en", vec![("", vec![frag("T")])])],
                tag: Some(vec!["ui".to_string()]),
            },
        ),
    ];
    let bank = LocalizedBank::load(&raw).unwrap();
    let tags = vec!["ui".to_string()];
    let tuples = bank.records(None, None, Some(&tags));
    assert_eq!(tuples.len(), 1);
    assert_eq!(tuples[0].0, "tagged");
    // an untagged record never passes a tag filter
    let other = vec!["art".to_string()];
    assert!(bank.records(None, None, Some(&other)).is_empty());
    // without a tag filter both records come back
    assert_eq!(bank.records(None, None, None).len(), 2);
}

#[test]
fn load_rejects_a_bank_with_a_bad_record() {
    let raw = vec![
        (
            "good".to_string(),
            RawRecord {
                text: vec![language("en", vec![("", vec![frag("ok")])])],
                tag: None,
            },
        ),
        (
            "bad".to_string(),
            RawRecord {
                text: vec![language("en", vec![("gameA", vec![frag("no fallback")])])],
                tag: None,
            },
        ),
    ];
    let e = LocalizedBank::load(&raw).unwrap_err();
    assert!(matches!(e, ParsingError::MissingAttribute { .. }));
}

#[test]
fn references_survive_parsing_and_resolve() {
    let raw = vec![(
        "greet".to_string(),
        RawRecord {
            text: vec![language(
                "en",
                vec![("", vec![frag("Hello "), tagged("who")])],
            )],
            tag: None,
        },
    )];
    let bank = LocalizedBank::load(&raw).unwrap();
    let mut tuples = bank.records(None, None, None);
    assert_eq!(tuples.len(), 1);
    let text = &mut tuples[0].3;
    assert_eq!(text.get_references(), vec!["who"]);
    let mut lookup = ResolvedLookup::new();
    lookup.insert("who".to_string(), "World".to_string());
    text.cache(&lookup);
    assert_eq!(text.actualized().unwrap(), "Hello World");
}

#[test]
fn duplicate_requested_games_emit_duplicate_tuples() {
    let bank = one_record_bank();
    let mut games = vec!["gameB".to_string(), "gameB".to_string()];
    let tuples = bank.records(None, Some(&mut games), None);
    assert_eq!(games.len(), 2);
    assert_eq!(tuples.len(), 2);
    assert_eq!(tuples[0].2, "gameB");
    assert_eq!(tuples[1].2, "gameB");
    assert_eq!(shown(&tuples[0].3), "F");
}

#[test]
fn empty_bank_emits_nothing() {
    let bank = LocalizedBank::load(&vec![]).unwrap();
    assert!(bank.records(None, None, None).is_empty());
}

#[test]
fn languages_emit_in_source_order() {
    let raw = vec![(
        "key".to_string(),
        RawRecord {
            text: vec![
                language("zz", vec![("", vec![frag("Z")])]),
                language("aa", vec![("", vec![frag("A")])]),
            ],
            tag: None,
        },
    )];
    let bank = LocalizedBank::load(&raw).unwrap();
    let tuples = bank.records(None, None, None);
    assert_eq!(tuples.len(), 2);
    assert_eq!(tuples[0].1, "zz");
    assert_eq!(tuples[1].1, "aa");
}

#[test]
fn bank_keys_order_the_output() {
    let rec = |text: &str| RawRecord {
        text: vec![language("en", vec![("", vec![frag(text)])])],
        tag: None,
    };
    let raw = vec![("zeta".to_string(), rec("Z")), ("alpha".to_string(), rec("A"))];
    let bank = LocalizedBank::load(&raw).unwrap();
    let tuples = bank.records(None, None, None);
    assert_eq!(tuples.len(), 2);
    assert_eq!(tuples[0].0, "alpha");
    assert_eq!(tuples[1].0, "zeta");
}
