//! Bank records, the record parser, the bank and its query layer.
//!
//! A record holds, per language, a mandatory fallback text plus per-game
//! overrides; the bank keeps records under strictly sorted, unique keys.
//! The query layer projects the bank into flat (key, language, game, text)
//! tuples under optional language / game / tag filters.

use vstd::prelude::*;

use crate::localized_record::LanguageRecord;
use crate::parsing_error::{ParsingError, ParsingErrorView};
use crate::piece::{spec_parse_fragment, Piece, PieceView};
use crate::raw_data::{raw_record_wf, RawFragment, RawRecord};
use crate::sorted_assoc::{
    find_key, has_key, lemma_has_key_prefix_extend, lemma_sorted_insert,
    lemma_sorted_insert_values, lemma_unique_value, sorted_keys, unique_keys, value_of,
};
use crate::str_list::{
    clone_strs, contains_str_exec, lemma_views_contains, sort_seq, sort_strs, sorted_le,
    views_of,
};
use crate::str_order::str_equal;
use crate::text::{Text, TextView};

verus! {

/// A bank entry: per language its localized texts, plus optional free-form
/// tags.
#[derive(Debug)]
pub struct Record {
    pub text: Vec<(String, LanguageRecord)>,
    pub tag: Option<Vec<String>>,
}

impl Record {
    /// Every per-language record is well-formed.
    pub open spec fn wf(self) -> bool {
        forall|i: int| 0 <= i < self.text@.len() ==> (#[trigger] self.text@[i].1).wf()
    }
}

/// Every fragment of the list parses into a piece.
pub open spec fn fragments_ok(fs: Seq<RawFragment>) -> bool {
    forall|u: int| 0 <= u < fs.len() ==> spec_parse_fragment(#[trigger] fs[u]) is Ok
}

/// The pieces a successfully parsed fragment list yields, in order.
pub open spec fn parsed_pieces(fs: Seq<RawFragment>) -> Seq<PieceView> {
    Seq::new(fs.len(), |u: int| spec_parse_fragment(fs[u])->Ok_0)
}

/// The (uncached) text a successfully parsed fragment list yields.
pub open spec fn parsed_text(fs: Seq<RawFragment>) -> TextView {
    TextView { pieces: parsed_pieces(fs), actualized: None }
}

/// Every fragment list of the language's game mapping parses.
pub open spec fn language_fragments_ok(games: Seq<(String, Vec<RawFragment>)>) -> bool {
    forall|j: int| 0 <= j < games.len() ==> fragments_ok(#[trigger] games[j].1@)
}

/// The language's game mapping carries the reserved empty-string key: its
/// mandatory fallback.
pub open spec fn language_has_fallback(games: Seq<(String, Vec<RawFragment>)>) -> bool {
    has_key(games, Seq::<char>::empty())
}

/// The language's part of the record parses successfully.
pub open spec fn language_ok(games: Seq<(String, Vec<RawFragment>)>) -> bool {
    language_fragments_ok(games) && language_has_fallback(games)
}

/// The whole raw record parses successfully.
pub open spec fn record_ok(raw: RawRecord) -> bool {
    forall|i: int| 0 <= i < raw.text@.len() ==> language_ok(#[trigger] raw.text@[i].1@)
}

/// The error a failing fallback check yields.
pub open spec fn missing_fallback_error() -> ParsingErrorView {
    ParsingErrorView::MissingAttribute { attribute: Seq::<char>::empty(), reason: "fallback"@ }
}

/// The error the language's parse hits first: the first failing fragment in
/// iteration order, else the missing fallback.
pub open spec fn language_fails_with(
    games: Seq<(String, Vec<RawFragment>)>,
    e: ParsingErrorView,
) -> bool {
    if !language_fragments_ok(games) {
        exists|j: int, u: int|
            {
                &&& 0 <= j < games.len()
                &&& 0 <= u < (#[trigger] games[j].1@).len()
                &&& !(#[trigger] spec_parse_fragment(games[j].1@[u]) is Ok)
                &&& (forall|j2: int| 0 <= j2 < j ==> fragments_ok(#[trigger] games[j2].1@))
                &&& (forall|u2: int|
                    0 <= u2 < u ==> spec_parse_fragment(#[trigger] games[j].1@[u2]) is Ok)
                &&& e == spec_parse_fragment(games[j].1@[u])->Err_0
            }
    } else {
        e == missing_fallback_error()
    }
}

/// The error the record's parse hits first: the first language, in
/// iteration order, whose part fails.
pub open spec fn record_fails_with(raw: RawRecord, e: ParsingErrorView) -> bool {
    exists|i: int|
        {
            &&& 0 <= i < raw.text@.len()
            &&& !language_ok(#[trigger] raw.text@[i].1@)
            &&& (forall|i2: int| 0 <= i2 < i ==> language_ok(#[trigger] raw.text@[i2].1@))
            &&& language_fails_with(raw.text@[i].1@, e)
        }
}

/// `lrec` holds exactly what the language's raw game mapping describes: the
/// fallback from the reserved empty key, one sorted override per other key.
pub open spec fn language_parses_to(
    games: Seq<(String, Vec<RawFragment>)>,
    lrec: LanguageRecord,
) -> bool {
    &&& lrec.wf()
    &&& lrec.fallback@ == parsed_text(value_of(games, Seq::<char>::empty())@)
    &&& (forall|g: Seq<char>| #[trigger] has_key(lrec.games@, g) == (g != Seq::<char>::empty()
        && has_key(games, g)))
    &&& (forall|j: int|
        0 <= j < games.len() && (#[trigger] games[j].0)@ != Seq::<char>::empty() ==> value_of(
            lrec.games@,
            games[j].0@,
        )@ == parsed_text(games[j].1@))
}

/// Two optional tag lists hold the same tags in the same order.
pub open spec fn tags_match(a: Option<Vec<String>>, b: Option<Vec<String>>) -> bool {
    match (a, b) {
        (None, None) => true,
        (Some(x), Some(y)) => x@ == y@,
        _ => false,
    }
}

/// `rec` holds exactly what the raw record describes, language by language
/// in source order, tags passed through unchanged.
pub open spec fn record_parses_to(raw: RawRecord, rec: Record) -> bool {
    &&& rec.text@.len() == raw.text@.len()
    &&& (forall|i: int|
        0 <= i < raw.text@.len() ==> (#[trigger] rec.text@[i].0)@ == raw.text@[i].0@)
    &&& (forall|i: int|
        0 <= i < raw.text@.len() ==> language_parses_to(
            raw.text@[i].1@,
            (#[trigger] rec.text@[i]).1,
        ))
    &&& tags_match(rec.tag, raw.tag)
}

/// Parse all fragments of one game entry into a text.
fn parse_fragments(fs: &Vec<RawFragment>) -> (r: Result<Text, ParsingError>)
    ensures
        r is Ok == fragments_ok(fs@),
        r is Ok ==> r->Ok_0@ == parsed_text(fs@),
        r is Err ==> exists|u: int|
            {
                &&& 0 <= u < fs@.len()
                &&& !(#[trigger] spec_parse_fragment(fs@[u]) is Ok)
                &&& (forall|u2: int| 0 <= u2 < u ==> spec_parse_fragment(#[trigger] fs@[u2]) is Ok)
                &&& r->Err_0@ == spec_parse_fragment(fs@[u])->Err_0
            },
{
    let mut components: Vec<Piece> = Vec::new();
    let mut u: usize = 0;
    while u < fs.len()
        invariant
            u <= fs@.len(),
            components@.len() == u,
            forall|u2: int| 0 <= u2 < u ==> spec_parse_fragment(#[trigger] fs@[u2]) is Ok,
            forall|u2: int|
                0 <= u2 < u ==> (#[trigger] components@[u2])@ == spec_parse_fragment(
                    fs@[u2],
                )->Ok_0,
        decreases fs@.len() - u,
    {
        match Piece::parse(&fs[u]) {
            Ok(p) => {
                components.push(p);
            },
            Err(e) => {
                return Err(e);
            },
        }
        u += 1;
    }
    let t = Text::new(components);
    proof {
        assert(t@.pieces =~= parsed_pieces(fs@));
        assert(t@ == parsed_text(fs@));
    }
    Ok(t)
}

impl Record {
    /// Parse one raw bank entry: every fragment must be a plain or tagged
    /// string, and every language must carry its empty-string fallback.
    pub fn parse(raw: &RawRecord) -> (r: Result<Record, ParsingError>)
        requires
            raw_record_wf(*raw),
        ensures
            r is Ok == record_ok(*raw),
            r is Ok ==> record_parses_to(*raw, r->Ok_0) && r->Ok_0.wf(),
            r is Err ==> record_fails_with(*raw, r->Err_0@),
    {
        let mut out: Vec<(String, LanguageRecord)> = Vec::new();
        let mut i: usize = 0;
        while i < raw.text.len()
            invariant
                i <= raw.text@.len(),
                raw_record_wf(*raw),
                out@.len() == i,
                forall|i2: int| 0 <= i2 < i ==> language_ok(#[trigger] raw.text@[i2].1@),
                forall|i2: int|
                    0 <= i2 < i ==> (#[trigger] out@[i2].0)@ == raw.text@[i2].0@,
                forall|i2: int|
                    0 <= i2 < i ==> language_parses_to(raw.text@[i2].1@, (#[trigger] out@[i2]).1),
            decreases raw.text@.len() - i,
        {
            let games = &raw.text[i].1;
            let ghost gseq = games@;
            let mut fallback: Option<Text> = None;
            let mut specifics: Vec<(String, Text)> = Vec::new();
            let mut j: usize = 0;
            proof {
                assert(unique_keys(gseq));
            }
            while j < games.len()
                invariant
                    j <= gseq.len(),
                    gseq == games@,
                    i < raw.text@.len(),
                    gseq == raw.text@[i as int].1@,
                    forall|i2: int| 0 <= i2 < i ==> language_ok(#[trigger] raw.text@[i2].1@),
                    unique_keys(gseq),
                    sorted_keys(specifics@),
                    forall|j2: int| 0 <= j2 < j ==> fragments_ok(#[trigger] gseq[j2].1@),
                    (fallback is Some) == has_key(gseq.subrange(0, j as int), Seq::<char>::empty()),
                    fallback is Some ==> exists|jj: int|
                        0 <= jj < j && (#[trigger] gseq[jj].0)@ == Seq::<char>::empty()
                            && fallback->0@ == parsed_text(gseq[jj].1@),
                    forall|g: Seq<char>| #[trigger] has_key(specifics@, g) == (g
                        != Seq::<char>::empty() && has_key(gseq.subrange(0, j as int), g)),
                    forall|jj: int|
                        0 <= jj < j && (#[trigger] gseq[jj].0)@ != Seq::<char>::empty()
                            ==> value_of(specifics@, gseq[jj].0@)@ == parsed_text(gseq[jj].1@),
                decreases gseq.len() - j,
            {
                let t = match parse_fragments(&games[j].1) {
                    Ok(t) => t,
                    Err(e) => {
                        proof {
                            assert(!fragments_ok(gseq[j as int].1@));
                            assert(!language_fragments_ok(gseq));
                            assert(language_fails_with(gseq, e@));
                            assert(!language_ok(raw.text@[i as int].1@));
                            assert(record_fails_with(*raw, e@));
                        }
                        return Err(e);
                    },
                };
                proof {
                    lemma_has_key_prefix_extend(gseq, j as int);
                }
                if str_equal(games[j].0.as_str(), "") {
                    proof {
                        reveal_strlit("");
                        assert(""@ =~= Seq::<char>::empty());
                        assert(gseq[j as int].0@ == Seq::<char>::empty());
                    }
                    fallback = Some(t);
                    proof {
                        assert(has_key(gseq.subrange(0, j as int + 1), Seq::<char>::empty()));
                        assert forall|g: Seq<char>| #[trigger] has_key(specifics@, g) == (g
                            != Seq::<char>::empty() && has_key(
                            gseq.subrange(0, j as int + 1),
                            g,
                        )) by {}
                    }
                } else {
                    proof {
                        reveal_strlit("");
                        assert(""@ =~= Seq::<char>::empty());
                        assert(gseq[j as int].0@ != Seq::<char>::empty());
                    }
                    let ghost s0 = specifics@;
                    let pos = match find_key(&specifics, games[j].0.as_str()) {
                        Ok(p) => {
                            proof {
                                assert(has_key(gseq.subrange(0, j as int), gseq[j as int].0@));
                                let w = choose|w: int|
                                    0 <= w < j && gseq.subrange(0, j as int)[w].0@ == gseq[
                                        j as int
                                    ].0@;
                                assert(gseq[w].0@ == gseq[j as int].0@);
                                assert(false);
                            }
                            p
                        },
                        Err(p) => p,
                    };
                    let e = (games[j].0.clone(), t);
                    let ghost eg = e;
                    proof {
                        lemma_sorted_insert(s0, pos as int, eg);
                        lemma_sorted_insert_values(s0, pos as int, eg);
                    }
                    specifics.insert(pos, e);
                    proof {
                        assert(value_of(specifics@, gseq[j as int].0@) == eg.1);
                        assert forall|jj: int|
                            0 <= jj < j + 1 && (#[trigger] gseq[jj].0)@ != Seq::<char>::empty()
                                implies value_of(specifics@, gseq[jj].0@)@ == parsed_text(
                            gseq[jj].1@,
                        ) by {
                            if jj < j {
                                assert(gseq[jj].0@ != gseq[j as int].0@);
                                assert(gseq.subrange(0, j as int)[jj] == gseq[jj]);
                                assert(has_key(gseq.subrange(0, j as int), gseq[jj].0@));
                                assert(has_key(s0, gseq[jj].0@));
                                assert(value_of(specifics@, gseq[jj].0@) == value_of(
                                    s0,
                                    gseq[jj].0@,
                                ));
                            }
                        }
                    }
                }
                j += 1;
            }
            proof {
                assert(gseq.subrange(0, gseq.len() as int) =~= gseq);
            }
            let fb = match fallback {
                None => {
                    proof {
                        assert(language_fragments_ok(gseq));
                        assert(!language_has_fallback(gseq));
                        assert(!language_ok(raw.text@[i as int].1@));
                        assert(language_fails_with(gseq, missing_fallback_error()));
                    }
                    return Err(
                        ParsingError::MissingAttribute {
                            attribute: String::new(),
                            reason: String::from_str("fallback"),
                        },
                    );
                },
                Some(fb) => fb,
            };
            let lrec = LanguageRecord { games: specifics, fallback: fb };
            proof {
                let jj = choose|jj: int|
                    0 <= jj < gseq.len() && (#[trigger] gseq[jj].0)@ == Seq::<char>::empty()
                        && lrec.fallback@ == parsed_text(gseq[jj].1@);
                lemma_unique_value(gseq, jj);
                assert(lrec.fallback@ == parsed_text(value_of(gseq, Seq::<char>::empty())@));
                assert(language_parses_to(gseq, lrec));
            }
            out.push((raw.text[i].0.clone(), lrec));
            i += 1;
        }
        let tag = match &raw.tag {
            None => None,
            Some(tags) => Some(clone_strs(tags)),
        };
        let rec = Record { text: out, tag };
        proof {
            assert(tags_match(rec.tag, raw.tag));
            assert(record_parses_to(*raw, rec));
        }
        Ok(rec)
    }
}

/// An ordered mapping from bank key to record, keys strictly sorted and
/// unique.
#[derive(Debug)]
pub struct LocalizedBank {
    entries: Vec<(String, Record)>,
}

impl LocalizedBank {
    /// The bank's entries, in key order.
    pub closed spec fn entries_seq(self) -> Seq<(String, Record)> {
        self.entries@
    }

    /// Keys strictly sorted; every record well-formed.
    pub open spec fn wf(self) -> bool {
        &&& sorted_keys(self.entries_seq())
        &&& (forall|i: int|
            0 <= i < self.entries_seq().len() ==> (#[trigger] self.entries_seq()[i].1).wf())
    }

    /// Parse a whole raw source — a mapping from bank key to raw record —
    /// into a bank.  The first record that fails to parse aborts the load.
    pub fn load(raw: &Vec<(String, RawRecord)>) -> (r: Result<LocalizedBank, ParsingError>)
        requires
            unique_keys(raw@),
            forall|i: int| 0 <= i < raw@.len() ==> raw_record_wf((#[trigger] raw@[i]).1),
        ensures
            r is Ok == (forall|i: int| 0 <= i < raw@.len() ==> record_ok((#[trigger] raw@[i]).1)),
            r is Ok ==> {
                let b = r->Ok_0;
                &&& b.wf()
                &&& (forall|k: Seq<char>| #[trigger] has_key(b.entries_seq(), k) == has_key(
                    raw@,
                    k,
                ))
                &&& (forall|i: int|
                    0 <= i < raw@.len() ==> record_parses_to(
                        (#[trigger] raw@[i]).1,
                        value_of(b.entries_seq(), raw@[i].0@),
                    ))
            },
            r is Err ==> exists|i: int|
                {
                    &&& 0 <= i < raw@.len()
                    &&& !record_ok((#[trigger] raw@[i]).1)
                    &&& (forall|i2: int| 0 <= i2 < i ==> record_ok((#[trigger] raw@[i2]).1))
                    &&& record_fails_with(raw@[i].1, r->Err_0@)
                },
    {
        let mut entries: Vec<(String, Record)> = Vec::new();
        let mut i: usize = 0;
        while i < raw.len()
            invariant
                i <= raw@.len(),
                unique_keys(raw@),
                forall|i2: int| 0 <= i2 < raw@.len() ==> raw_record_wf((#[trigger] raw@[i2]).1),
                sorted_keys(entries@),
                forall|i2: int| 0 <= i2 < entries@.len() ==> (#[trigger] entries@[i2].1).wf(),
                forall|i2: int| 0 <= i2 < i ==> record_ok((#[trigger] raw@[i2]).1),
                forall|k: Seq<char>| #[trigger] has_key(entries@, k) == has_key(
                    raw@.subrange(0, i as int),
                    k,
                ),
                forall|i2: int|
                    0 <= i2 < i ==> record_parses_to(
                        (#[trigger] raw@[i2]).1,
                        value_of(entries@, raw@[i2].0@),
                    ),
            decreases raw@.len() - i,
        {
            let rec = match Record::parse(&raw[i].1) {
                Ok(rec) => rec,
                Err(e) => {
                    return Err(e);
                },
            };
            proof {
                lemma_has_key_prefix_extend(raw@, i as int);
            }
            let ghost s0 = entries@;
            let pos = match find_key(&entries, raw[i].0.as_str()) {
                Ok(p) => {
                    proof {
                        assert(has_key(raw@.subrange(0, i as int), raw@[i as int].0@));
                        let w = choose|w: int|
                            0 <= w < i && raw@.subrange(0, i as int)[w].0@ == raw@[i as int].0@;
                        assert(raw@[w].0@ == raw@[i as int].0@);
                        assert(false);
                    }
                    p
                },
                Err(p) => p,
            };
            let e = (raw[i].0.clone(), rec);
            let ghost eg = e;
            proof {
                lemma_sorted_insert(s0, pos as int, eg);
                lemma_sorted_insert_values(s0, pos as int, eg);
            }
            entries.insert(pos, e);
            proof {
                assert forall|i2: int| 0 <= i2 < entries@.len() implies (#[trigger] entries@[i2].1).wf() by {
                    if i2 < pos {
                        assert(entries@[i2] == s0[i2]);
                    } else if i2 > pos {
                        assert(entries@[i2] == s0[i2 - 1]);
                    } else {
                        assert(entries@[i2] == eg);
                    }
                }
                assert(value_of(entries@, raw@[i as int].0@) == eg.1);
                assert forall|i2: int| 0 <= i2 < i + 1 implies record_parses_to(
                    (#[trigger] raw@[i2]).1,
                    value_of(entries@, raw@[i2].0@),
                ) by {
                    if i2 < i {
                        assert(raw@[i2].0@ != raw@[i as int].0@);
                        assert(raw@.subrange(0, i as int)[i2] == raw@[i2]);
                        assert(has_key(raw@.subrange(0, i as int), raw@[i2].0@));
                        assert(has_key(s0, raw@[i2].0@));
                        assert(value_of(entries@, raw@[i2].0@) == value_of(s0, raw@[i2].0@));
                    }
                }
            }
            i += 1;
        }
        proof {
            assert(raw@.subrange(0, raw@.len() as int) =~= raw@);
        }
        Ok(LocalizedBank { entries })
    }
}

/// Whether a language passes the language filter: no filter admits every
/// language.
pub open spec fn lang_pass(fl: Option<Seq<Seq<char>>>, lang: Seq<char>) -> bool {
    match fl {
        None => true,
        Some(ls) => ls.contains(lang),
    }
}

/// Whether a record's optional tag list passes the tag filter: no filter
/// admits every record; a filter admits exactly the records tagged with one
/// of its tags.
pub open spec fn tag_pass(ft: Option<Seq<Seq<char>>>, tag: Option<Vec<String>>) -> bool {
    match ft {
        None => true,
        Some(ts) => match tag {
            None => false,
            Some(tags) => exists|i: int| 0 <= i < tags@.len() && ts.contains(#[trigger] tags@[i]@),
        },
    }
}

/// What one surviving (key, language) pair emits.  Without a game filter:
/// one tuple for the fallback itself under the empty game label, then one
/// per override.  With a (sorted) game filter: exactly one tuple per
/// requested game, the override where one exists, else the fallback under
/// the requested game's label.
pub open spec fn emit_language(
    key: Seq<char>,
    lang: Seq<char>,
    lr: LanguageRecord,
    fg: Option<Seq<Seq<char>>>,
) -> Seq<(Seq<char>, Seq<char>, Seq<char>, TextView)> {
    match fg {
        None => seq![(key, lang, Seq::<char>::empty(), lr.fallback@)] + lr.games@.map_values(
            |p: (String, Text)| (key, lang, p.0@, p.1@),
        ),
        Some(gs) => Seq::new(
            gs.len(),
            |u: int|
                (
                    key,
                    lang,
                    gs[u],
                    if has_key(lr.games@, gs[u]) {
                        value_of(lr.games@, gs[u])@
                    } else {
                        lr.fallback@
                    },
                ),
        ),
    }
}

/// What one surviving record emits: its passing languages' emissions, in
/// source order.
pub open spec fn emit_record(
    key: Seq<char>,
    langs: Seq<(String, LanguageRecord)>,
    fl: Option<Seq<Seq<char>>>,
    fg: Option<Seq<Seq<char>>>,
) -> Seq<(Seq<char>, Seq<char>, Seq<char>, TextView)>
    decreases langs.len(),
{
    if langs.len() == 0 {
        Seq::empty()
    } else {
        emit_record(key, langs.drop_last(), fl, fg) + (if lang_pass(fl, langs.last().0@) {
            emit_language(key, langs.last().0@, langs.last().1, fg)
        } else {
            Seq::empty()
        })
    }
}

/// The whole projection: surviving records' emissions in bank key order.
pub open spec fn project(
    entries: Seq<(String, Record)>,
    fl: Option<Seq<Seq<char>>>,
    fg: Option<Seq<Seq<char>>>,
    ft: Option<Seq<Seq<char>>>,
) -> Seq<(Seq<char>, Seq<char>, Seq<char>, TextView)>
    decreases entries.len(),
{
    if entries.len() == 0 {
        Seq::empty()
    } else {
        project(entries.drop_last(), fl, fg, ft) + (if tag_pass(ft, entries.last().1.tag) {
            emit_record(entries.last().0@, entries.last().1.text@, fl, fg)
        } else {
            Seq::empty()
        })
    }
}

/// The views of an optional filter list.
pub open spec fn opt_views(o: Option<&Vec<String>>) -> Option<Seq<Seq<char>>> {
    match o {
        None => None,
        Some(v) => Some(views_of(v@)),
    }
}

/// The views of the emitted tuples.
pub open spec fn tuple_views(s: Seq<(String, String, String, Text)>) -> Seq<
    (Seq<char>, Seq<char>, Seq<char>, TextView),
> {
    s.map_values(|t: (String, String, String, Text)| (t.0@, t.1@, t.2@, t.3@))
}

/// Some tag of `tags` occurs in the filter list `ts`.
fn tag_matches(tags: &Vec<String>, ts: &Vec<String>) -> (r: bool)
    ensures
        r == exists|i: int|
            0 <= i < tags@.len() && views_of(ts@).contains(#[trigger] tags@[i]@),
{
    let mut i: usize = 0;
    while i < tags.len()
        invariant
            i <= tags@.len(),
            forall|j: int| 0 <= j < i ==> !views_of(ts@).contains(#[trigger] tags@[j]@),
        decreases tags@.len() - i,
    {
        let hit = contains_str_exec(ts, tags[i].as_str());
        proof {
            lemma_views_contains(ts@);
        }
        if hit {
            return true;
        }
        i += 1;
    }
    false
}

impl LocalizedBank {
    /// Project the bank into flat (key, language, game, text) tuples under
    /// the given language, game and tag filters.  The caller-supplied game
    /// filter list is sorted in place, duplicates kept, and emission
    /// follows that sorted list.  The filters are allow-lists rather than
    /// the arbitrary predicates a closure could express: a closure's
    /// behaviour cannot be pinned down in an exact contract, a list can.
    /// `None` admits every language / record; a tag filter admits exactly
    /// the records tagged with one of its tags, so it never admits an
    /// untagged record.  The returned texts are owned copies of the bank's.
    pub fn records(
        &self,
        filter_language: Option<&Vec<String>>,
        filter_game: Option<&mut Vec<String>>,
        filter_tag: Option<&Vec<String>>,
    ) -> (r: Vec<(String, String, String, Text)>)
        requires
            self.wf(),
        ensures
            tuple_views(r@) == project(
                self.entries_seq(),
                opt_views(filter_language),
                match filter_game {
                    None => None,
                    Some(g) => Some(sort_seq(views_of(g@))),
                },
                opt_views(filter_tag),
            ),
            match filter_game {
                Some(g) => views_of(final(g)@) == sort_seq(views_of(g@)) && sorted_le(
                    views_of(final(g)@),
                ),
                None => true,
            },
    {
        let ghost flv = opt_views(filter_language);
        let ghost ftv = opt_views(filter_tag);
        let ghost fgv: Option<Seq<Seq<char>>> = match filter_game {
            None => None,
            Some(ref g) => Some(sort_seq(views_of(g@))),
        };
        let sorted_games: Option<&Vec<String>> = match filter_game {
            None => None,
            Some(gs) => {
                sort_strs(gs);
                Some(&*gs)
            },
        };
        let mut out: Vec<(String, String, String, Text)> = Vec::new();
        proof {
            assert(tuple_views(out@) =~= project(self.entries@.subrange(0, 0), flv, fgv, ftv));
        }
        let mut i: usize = 0;
        while i < self.entries.len()
            invariant
                self.wf(),
                i <= self.entries@.len(),
                flv == opt_views(filter_language),
                ftv == opt_views(filter_tag),
                match sorted_games {
                    Option::None => fgv is None,
                    Option::Some(sv) => fgv == Some(views_of(sv@)),
                },
                tuple_views(out@) == project(self.entries@.subrange(0, i as int), flv, fgv, ftv),
            decreases self.entries@.len() - i,
        {
            let ghost base = tuple_views(out@);
            let key = &self.entries[i].0;
            let record = &self.entries[i].1;
            let tag_ok = match (filter_tag, &record.tag) {
                (None, _) => true,
                (Some(_), None) => false,
                (Some(ts), Some(tags)) => tag_matches(tags, ts),
            };
            proof {
                assert(tag_ok == tag_pass(ftv, record.tag));
            }
            if tag_ok {
                let mut j: usize = 0;
                while j < record.text.len()
                    invariant
                        j <= record.text@.len(),
                        record.wf(),
                        flv == opt_views(filter_language),
                        match sorted_games {
                            Option::None => fgv is None,
                            Option::Some(sv) => fgv == Some(views_of(sv@)),
                        },
                        tuple_views(out@) == base + emit_record(
                            key@,
                            record.text@.subrange(0, j as int),
                            flv,
                            fgv,
                        ),
                    decreases record.text@.len() - j,
                {
                    proof {
                        assert(record.text@.subrange(0, j as int + 1).drop_last()
                            =~= record.text@.subrange(0, j as int));
                        assert(record.text@.subrange(0, j as int + 1).last() == record.text@[
                            j as int
                        ]);
                    }
                    let lang = &record.text[j].0;
                    let lr = &record.text[j].1;
                    let lang_ok = match filter_language {
                        None => true,
                        Some(ls) => {
                            let hit = contains_str_exec(ls, lang.as_str());
                            proof {
                                lemma_views_contains(ls@);
                            }
                            hit
                        },
                    };
                    proof {
                        assert(lang_ok == lang_pass(flv, lang@));
                    }
                    if lang_ok {
                        let ghost base2 = tuple_views(out@);
                        match sorted_games {
                            None => {
                                out.push(
                                    (
                                        key.clone(),
                                        lang.clone(),
                                        String::new(),
                                        lr.fallback.duplicate(),
                                    ),
                                );
                                let ghost base3 = tuple_views(out@);
                                proof {
                                    assert(base3 =~= base2 + seq![
                                        (key@, lang@, Seq::<char>::empty(), lr.fallback@),
                                    ]);
                                    assert(lr.games@.subrange(0, 0).map_values(
                                        |p: (String, Text)| (key@, lang@, p.0@, p.1@),
                                    ) =~= Seq::<(Seq<char>, Seq<char>, Seq<char>, TextView)>::empty());
                                    assert(tuple_views(out@) =~= base3 + lr.games@.subrange(
                                        0,
                                        0,
                                    ).map_values(|p: (String, Text)| (key@, lang@, p.0@, p.1@)));
                                }
                                let mut u: usize = 0;
                                while u < lr.games.len()
                                    invariant
                                        u <= lr.games@.len(),
                                        tuple_views(out@) == base3 + lr.games@.subrange(
                                            0,
                                            u as int,
                                        ).map_values(|p: (String, Text)| (key@, lang@, p.0@, p.1@)),
                                    decreases lr.games@.len() - u,
                                {
                                    let ghost prev = tuple_views(out@);
                                    out.push(
                                        (
                                            key.clone(),
                                            lang.clone(),
                                            lr.games[u].0.clone(),
                                            lr.games[u].1.duplicate(),
                                        ),
                                    );
                                    proof {
                                        assert(tuple_views(out@) =~= prev.push(
                                            (
                                                key@,
                                                lang@,
                                                lr.games@[u as int].0@,
                                                lr.games@[u as int].1@,
                                            ),
                                        ));
                                        assert(lr.games@.subrange(0, u as int + 1).map_values(
                                            |p: (String, Text)| (key@, lang@, p.0@, p.1@),
                                        ) =~= lr.games@.subrange(0, u as int).map_values(
                                            |p: (String, Text)| (key@, lang@, p.0@, p.1@),
                                        ).push(
                                            (
                                                key@,
                                                lang@,
                                                lr.games@[u as int].0@,
                                                lr.games@[u as int].1@,
                                            ),
                                        ));
                                        assert(tuple_views(out@) =~= base3 + lr.games@.subrange(
                                            0,
                                            u as int + 1,
                                        ).map_values(|p: (String, Text)| (key@, lang@, p.0@, p.1@)));
                                    }
                                    u += 1;
                                }
                                proof {
                                    assert(lr.games@.subrange(0, lr.games@.len() as int)
                                        =~= lr.games@);
                                    assert(emit_language(key@, lang@, *lr, fgv) == seq![
                                        (key@, lang@, Seq::<char>::empty(), lr.fallback@),
                                    ] + lr.games@.map_values(
                                        |p: (String, Text)| (key@, lang@, p.0@, p.1@),
                                    ));
                                    assert(tuple_views(out@) =~= base2 + emit_language(
                                        key@,
                                        lang@,
                                        *lr,
                                        fgv,
                                    ));
                                }
                            },
                            Some(gs) => {
                                proof {
                                    assert(sorted_keys(lr.games@));
                                    assert(emit_language(key@, lang@, *lr, fgv).subrange(0, 0)
                                        =~= Seq::<(Seq<char>, Seq<char>, Seq<char>, TextView)>::empty());
                                    assert(tuple_views(out@) =~= base2 + emit_language(
                                        key@,
                                        lang@,
                                        *lr,
                                        fgv,
                                    ).subrange(0, 0));
                                }
                                let mut u: usize = 0;
                                while u < gs.len()
                                    invariant
                                        u <= gs@.len(),
                                        fgv == Some(views_of(gs@)),
                                        sorted_keys(lr.games@),
                                        tuple_views(out@) == base2 + emit_language(
                                            key@,
                                            lang@,
                                            *lr,
                                            fgv,
                                        ).subrange(0, u as int),
                                    decreases gs@.len() - u,
                                {
                                    let ghost prev = tuple_views(out@);
                                    let ghost gview = gs@[u as int]@;
                                    match find_key(&lr.games, gs[u].as_str()) {
                                        Ok(idx) => {
                                            out.push(
                                                (
                                                    key.clone(),
                                                    lang.clone(),
                                                    lr.games[idx].0.clone(),
                                                    lr.games[idx].1.duplicate(),
                                                ),
                                            );
                                            proof {
                                                assert(tuple_views(out@) =~= prev.push(
                                                    (
                                                        key@,
                                                        lang@,
                                                        lr.games@[idx as int].0@,
                                                        lr.games@[idx as int].1@,
                                                    ),
                                                ));
                                                assert(views_of(gs@)[u as int] == gview);
                                                assert(has_key(lr.games@, gview));
                                                assert(value_of(lr.games@, gview) == lr.games@[
                                                    idx as int
                                                ].1);
                                                assert(lr.games@[idx as int].0@ == gview);
                                                assert(emit_language(key@, lang@, *lr, fgv)[
                                                    u as int
                                                ] == (key@, lang@, gview, lr.games@[idx as int].1@));
                                            }
                                        },
                                        Err(_) => {
                                            out.push(
                                                (
                                                    key.clone(),
                                                    lang.clone(),
                                                    gs[u].clone(),
                                                    lr.fallback.duplicate(),
                                                ),
                                            );
                                            proof {
                                                assert(tuple_views(out@) =~= prev.push(
                                                    (key@, lang@, gview, lr.fallback@),
                                                ));
                                                assert(views_of(gs@)[u as int] == gview);
                                                assert(!has_key(lr.games@, gview));
                                                assert(emit_language(key@, lang@, *lr, fgv)[
                                                    u as int
                                                ] == (key@, lang@, gview, lr.fallback@));
                                            }
                                        },
                                    }
                                    proof {
                                        assert(emit_language(key@, lang@, *lr, fgv).subrange(
                                            0,
                                            u as int + 1,
                                        ) =~= emit_language(key@, lang@, *lr, fgv).subrange(
                                            0,
                                            u as int,
                                        ).push(emit_language(key@, lang@, *lr, fgv)[u as int]));
                                        assert(tuple_views(out@) =~= base2 + emit_language(
                                            key@,
                                            lang@,
                                            *lr,
                                            fgv,
                                        ).subrange(0, u as int + 1));
                                    }
                                    u += 1;
                                }
                                proof {
                                    assert(emit_language(key@, lang@, *lr, fgv).subrange(
                                        0,
                                        emit_language(key@, lang@, *lr, fgv).len() as int,
                                    ) =~= emit_language(key@, lang@, *lr, fgv));
                                    assert(gs@.len() == views_of(gs@).len());
                                    assert(tuple_views(out@) =~= base2 + emit_language(
                                        key@,
                                        lang@,
                                        *lr,
                                        fgv,
                                    ));
                                }
                            },
                        }
                        proof {
                            assert(tuple_views(out@) =~= base + emit_record(
                                key@,
                                record.text@.subrange(0, j as int + 1),
                                flv,
                                fgv,
                            ));
                        }
                    } else {
                        proof {
                            assert(emit_record(
                                key@,
                                record.text@.subrange(0, j as int + 1),
                                flv,
                                fgv,
                            ) =~= emit_record(key@, record.text@.subrange(0, j as int), flv, fgv));
                            assert(tuple_views(out@) =~= base + emit_record(
                                key@,
                                record.text@.subrange(0, j as int + 1),
                                flv,
                                fgv,
                            ));
                        }
                    }
                    j += 1;
                }
                proof {
                    assert(record.text@.subrange(0, record.text@.len() as int) =~= record.text@);
                    assert(self.entries@.subrange(0, i as int + 1).drop_last()
                        =~= self.entries@.subrange(0, i as int));
                    assert(self.entries@.subrange(0, i as int + 1).last() == self.entries@[
                        i as int
                    ]);
                    assert(tuple_views(out@) =~= project(
                        self.entries@.subrange(0, i as int + 1),
                        flv,
                        fgv,
                        ftv,
                    ));
                }
            } else {
                proof {
                    assert(self.entries@.subrange(0, i as int + 1).drop_last()
                        =~= self.entries@.subrange(0, i as int));
                    assert(self.entries@.subrange(0, i as int + 1).last() == self.entries@[
                        i as int
                    ]);
                    assert(tuple_views(out@) =~= project(
                        self.entries@.subrange(0, i as int + 1),
                        flv,
                        fgv,
                        ftv,
                    ));
                }
            }
            i += 1;
        }
        proof {
            assert(self.entries@.subrange(0, self.entries@.len() as int) =~= self.entries@);
        }
        out
    }
}

} // verus!
