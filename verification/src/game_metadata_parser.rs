//! The bidirectional game / language association index.
//!
//! Two parallel, strictly sorted association sequences mirror one relation:
//! a game lists a language exactly when that language lists the game.  A
//! "free language" (declared in the source under the reserved empty-string
//! game key) appears only on the language side, with an empty game list.
//! Lookups by unknown keys are not errors: they fall back to the full known
//! set of the other side.

use vstd::prelude::*;

use crate::sorted_assoc::{
    find_key, has_key, key_index, lemma_key_index_of, lemma_sorted_insert,
    lemma_sorted_insert_values, lemma_sorted_remove, lemma_update_value, sorted_keys, value_of,
    clone_keys,
};
use crate::str_list::{
    clone_strs, contains_str, find_str, lemma_contains_str_extend, lemma_contains_str_push,
    lemma_sorted_strs_insert, lemma_sorted_strs_remove, sorted_strs, views_of,
};
use crate::str_order::str_equal;

verus! {

/// A key of `entries` holds `x` in its list.
pub open spec fn listed_under(s: Seq<(String, Vec<String>)>, k: Seq<char>, x: Seq<char>) -> bool {
    has_key(s, k) && contains_str(value_of(s, k)@, x)
}

/// Some entry's list holds `l`, whatever its key.
pub open spec fn mentioned_language(entries: Seq<(String, Vec<String>)>, l: Seq<char>) -> bool {
    exists|i: int| 0 <= i < entries.len() && contains_str(#[trigger] entries[i].1@, l)
}

/// Some entry keyed `g` holds `l` in its list.
pub open spec fn pair_in_entries(
    entries: Seq<(String, Vec<String>)>,
    g: Seq<char>,
    l: Seq<char>,
) -> bool {
    exists|i: int|
        0 <= i < entries.len() && entries[i].0@ == g && contains_str(#[trigger] entries[i].1@, l)
}

/// The sorted, mirrored, bidirectional game / language index.
#[derive(Debug)]
pub struct LanguageSet {
    games: Vec<(String, Vec<String>)>,
    languages: Vec<(String, Vec<String>)>,
}

impl LanguageSet {
    /// The game-keyed side, as a sequence of (game, its languages).
    pub closed spec fn games_seq(self) -> Seq<(String, Vec<String>)> {
        self.games@
    }

    /// The language-keyed side, as a sequence of (language, its games).
    pub closed spec fn languages_seq(self) -> Seq<(String, Vec<String>)> {
        self.languages@
    }

    /// The game names, in their sorted order.
    pub open spec fn game_names(self) -> Seq<Seq<char>> {
        Seq::new(self.games_seq().len(), |i: int| self.games_seq()[i].0@)
    }

    /// The language names, in their sorted order.
    pub open spec fn language_names(self) -> Seq<Seq<char>> {
        Seq::new(self.languages_seq().len(), |i: int| self.languages_seq()[i].0@)
    }

    /// The game `g` is known.
    pub open spec fn has_game(self, g: Seq<char>) -> bool {
        has_key(self.games_seq(), g)
    }

    /// The language `l` is known.
    pub open spec fn has_language(self, l: Seq<char>) -> bool {
        has_key(self.languages_seq(), l)
    }

    /// The game-keyed side lists `l` under `g`.
    pub open spec fn game_lists_language(self, g: Seq<char>, l: Seq<char>) -> bool {
        listed_under(self.games_seq(), g, l)
    }

    /// The language-keyed side lists `g` under `l`.
    pub open spec fn language_lists_game(self, l: Seq<char>, g: Seq<char>) -> bool {
        listed_under(self.languages_seq(), l, g)
    }

    /// The association between `g` and `l` is established.
    pub open spec fn has_assoc(self, g: Seq<char>, l: Seq<char>) -> bool {
        self.game_lists_language(g, l)
    }

    /// The two sides are consistent mirrors of one relation.
    pub open spec fn mirrored(self) -> bool {
        forall|g: Seq<char>, l: Seq<char>|
            #![trigger self.game_lists_language(g, l)]
            #![trigger self.language_lists_game(l, g)]
            self.game_lists_language(g, l) == self.language_lists_game(l, g)
    }

    /// Well-formedness: both sides strictly sorted by key, every inner list
    /// strictly sorted, and the two sides mirrored.
    pub open spec fn wf(self) -> bool {
        &&& sorted_keys(self.games_seq())
        &&& sorted_keys(self.languages_seq())
        &&& (forall|i: int|
            0 <= i < self.games_seq().len() ==> sorted_strs(#[trigger] self.games_seq()[i].1@))
        &&& (forall|i: int|
            0 <= i < self.languages_seq().len() ==> sorted_strs(
                #[trigger] self.languages_seq()[i].1@,
            ))
        &&& self.mirrored()
    }
}

/// Create the entry for `key`, with an empty list, if it is absent.
fn ensure_key(v: &mut Vec<(String, Vec<String>)>, key: &str)
    requires
        sorted_keys(old(v)@),
        forall|i: int| 0 <= i < old(v)@.len() ==> sorted_strs(#[trigger] old(v)@[i].1@),
    ensures
        sorted_keys(final(v)@),
        forall|i: int| 0 <= i < final(v)@.len() ==> sorted_strs(#[trigger] final(v)@[i].1@),
        forall|k: Seq<char>| #[trigger] has_key(final(v)@, k) == (has_key(old(v)@, k) || k
            == key@),
        forall|k: Seq<char>, x: Seq<char>| #[trigger] listed_under(final(v)@, k, x)
            == listed_under(old(v)@, k, x),
{
    match find_key(v, key) {
        Ok(_) => {},
        Err(pos) => {
            let ghost s0 = v@;
            let e = (String::from_str(key), Vec::<String>::new());
            let ghost eg = e;
            proof {
                lemma_sorted_insert(s0, pos as int, eg);
                lemma_sorted_insert_values(s0, pos as int, eg);
            }
            v.insert(pos, e);
            proof {
                assert(eg.1@.len() == 0);
                assert forall|i: int| 0 <= i < v@.len() implies sorted_strs(
                    #[trigger] v@[i].1@,
                ) by {
                    if i < pos {
                        assert(v@[i] == s0[i]);
                    } else if i > pos {
                        assert(v@[i] == s0[i - 1]);
                    } else {
                        assert(v@[i] == eg);
                    }
                }
                assert forall|k: Seq<char>, x: Seq<char>| #[trigger] listed_under(v@, k, x)
                    == listed_under(s0, k, x) by {
                    if k == key@ {
                        assert(value_of(v@, k) == eg.1);
                        assert(!contains_str(eg.1@, x));
                        assert(!has_key(s0, k));
                    } else {
                        if has_key(s0, k) {
                            assert(value_of(v@, k) == value_of(s0, k));
                        }
                    }
                }
            }
        },
    }
}

/// Insert `item` into the sorted list stored under `key`, which must exist.
fn add_to_key_list(v: &mut Vec<(String, Vec<String>)>, key: &str, item: &str)
    requires
        sorted_keys(old(v)@),
        forall|i: int| 0 <= i < old(v)@.len() ==> sorted_strs(#[trigger] old(v)@[i].1@),
        has_key(old(v)@, key@),
    ensures
        sorted_keys(final(v)@),
        forall|i: int| 0 <= i < final(v)@.len() ==> sorted_strs(#[trigger] final(v)@[i].1@),
        forall|k: Seq<char>| #[trigger] has_key(final(v)@, k) == has_key(old(v)@, k),
        forall|k: Seq<char>, x: Seq<char>| #[trigger] listed_under(final(v)@, k, x)
            == (listed_under(old(v)@, k, x) || (k == key@ && x == item@)),
{
    let ghost s0 = v@;
    let r = find_key(v, key);
    let gi = match r {
        Ok(i) => i,
        Err(i) => {
            proof {
                assert(false);
            }
            i
        },
    };
    let mut entry = v.remove(gi);
    let ghost entry0 = entry;
    match find_str(&entry.1, item) {
        Ok(_) => {},
        Err(p) => {
            let s = String::from_str(item);
            let ghost sg = s;
            proof {
                lemma_sorted_strs_insert(entry0.1@, p as int, sg);
            }
            entry.1.insert(p, s);
        },
    }
    let ghost entry1 = entry;
    v.insert(gi, entry);
    proof {
        assert(v@ =~= s0.update(gi as int, entry1));
        assert(entry1.0 == s0[gi as int].0);
        lemma_update_value(s0, gi as int, entry1);
        assert(value_of(v@, key@) == entry1.1);
        assert forall|i: int| 0 <= i < v@.len() implies sorted_strs(#[trigger] v@[i].1@) by {
            if i == gi as int {
                assert(v@[i].1 == entry1.1);
            } else {
                assert(v@[i] == s0[i]);
            }
        }
        // what the list under `key` now holds
        assert(forall|x: Seq<char>| #[trigger] contains_str(entry1.1@, x) == (contains_str(
            entry0.1@,
            x,
        ) || x == item@));
        lemma_key_index_of(s0, gi as int);
        assert(value_of(s0, key@) == entry0.1);
        assert forall|k: Seq<char>, x: Seq<char>| #[trigger] listed_under(v@, k, x)
            == (listed_under(s0, k, x) || (k == key@ && x == item@)) by {
            if k == key@ {
            } else {
                if has_key(s0, k) {
                    assert(value_of(v@, k) == value_of(s0, k));
                }
            }
        }
    }
}

impl LanguageSet {
    /// An index knowing no games and no languages.
    pub fn empty() -> (r: LanguageSet)
        ensures
            r.wf(),
            r.games_seq().len() == 0,
            r.languages_seq().len() == 0,
    {
        let r = LanguageSet { games: Vec::new(), languages: Vec::new() };
        proof {
            assert forall|g: Seq<char>, l: Seq<char>|
                #![trigger r.game_lists_language(g, l)]
                #![trigger r.language_lists_game(l, g)]
                r.game_lists_language(g, l) == r.language_lists_game(l, g) by {
                assert(!has_key(r.games_seq(), g));
                assert(!has_key(r.languages_seq(), l));
            }
        }
        r
    }

    /// Create the game if it is absent, associated with no language yet.
    fn ensure_game(&mut self, game: &str)
        requires
            old(self).wf(),
        ensures
            final(self).wf(),
            final(self).languages_seq() == old(self).languages_seq(),
            forall|g: Seq<char>| #[trigger] final(self).has_game(g) == (old(self).has_game(g) || g
                == game@),
            forall|l: Seq<char>| #[trigger] final(self).has_language(l) == old(self).has_language(
                l,
            ),
            forall|g: Seq<char>, l: Seq<char>| #[trigger] final(self).has_assoc(g, l) == old(
                self,
            ).has_assoc(g, l),
    {
        ensure_key(&mut self.games, game);
        proof {
            let s = *self;
            let o = *old(self);
            assert forall|g: Seq<char>, l: Seq<char>|
                #![trigger s.game_lists_language(g, l)]
                #![trigger s.language_lists_game(l, g)]
                s.game_lists_language(g, l) == s.language_lists_game(l, g) by {
                assert(s.game_lists_language(g, l) == o.game_lists_language(g, l));
                assert(o.game_lists_language(g, l) == o.language_lists_game(l, g));
            }
        }
    }

    /// Create the language if it is absent, associated with no game yet.
    fn ensure_language(&mut self, language: &str)
        requires
            old(self).wf(),
        ensures
            final(self).wf(),
            final(self).games_seq() == old(self).games_seq(),
            forall|l: Seq<char>| #[trigger] final(self).has_language(l) == (old(self).has_language(
                l,
            ) || l == language@),
            forall|g: Seq<char>| #[trigger] final(self).has_game(g) == old(self).has_game(g),
            forall|g: Seq<char>, l: Seq<char>| #[trigger] final(self).has_assoc(g, l) == old(
                self,
            ).has_assoc(g, l),
    {
        ensure_key(&mut self.languages, language);
        proof {
            let s = *self;
            let o = *old(self);
            assert forall|g: Seq<char>, l: Seq<char>|
                #![trigger s.game_lists_language(g, l)]
                #![trigger s.language_lists_game(l, g)]
                s.game_lists_language(g, l) == s.language_lists_game(l, g) by {
                assert(s.language_lists_game(l, g) == o.language_lists_game(l, g));
                assert(o.game_lists_language(g, l) == o.language_lists_game(l, g));
            }
        }
    }

    /// Associate a language with a game, creating the language or the game
    /// in the process if necessary.  Idempotent; both sides stay sorted and
    /// mirrored.
    pub fn add_target(&mut self, language: &str, game: &str)
        requires
            old(self).wf(),
        ensures
            final(self).wf(),
            forall|g: Seq<char>, l: Seq<char>| #[trigger] final(self).has_assoc(g, l) == (old(
                self,
            ).has_assoc(g, l) || (g == game@ && l == language@)),
            forall|g: Seq<char>| #[trigger] final(self).has_game(g) == (old(self).has_game(g) || g
                == game@),
            forall|l: Seq<char>| #[trigger] final(self).has_language(l) == (old(
                self,
            ).has_language(l) || l == language@),
    {
        self.ensure_game(game);
        let ghost m1 = *self;
        self.ensure_language(language);
        let ghost mid = *self;
        proof {
            assert(m1.has_game(game@));
            assert(mid.has_game(game@));
            assert(mid.has_language(language@));
            assert(has_key(mid.games_seq(), game@));
            assert(has_key(mid.languages_seq(), language@));
        }
        add_to_key_list(&mut self.games, game, language);
        proof {
            assert(has_key(self.languages@, language@));
        }
        add_to_key_list(&mut self.languages, language, game);
        proof {
            let s = *self;
            assert forall|g: Seq<char>, l: Seq<char>|
                #![trigger s.game_lists_language(g, l)]
                #![trigger s.language_lists_game(l, g)]
                s.game_lists_language(g, l) == s.language_lists_game(l, g) by {
                assert(s.game_lists_language(g, l) == (mid.game_lists_language(g, l) || (g == game@
                    && l == language@)));
                assert(s.language_lists_game(l, g) == (mid.language_lists_game(l, g) || (l
                    == language@ && g == game@)));
                assert(mid.game_lists_language(g, l) == mid.language_lists_game(l, g));
            }
            assert forall|g: Seq<char>, l: Seq<char>| #[trigger] s.has_assoc(g, l) == (old(
                self,
            ).has_assoc(g, l) || (g == game@ && l == language@)) by {
                assert(s.game_lists_language(g, l) == (mid.game_lists_language(g, l) || (g == game@
                    && l == language@)));
                assert(mid.has_assoc(g, l) == old(self).has_assoc(g, l));
            }
            assert forall|g: Seq<char>| #[trigger] s.has_game(g) == (old(self).has_game(g) || g
                == game@) by {
                assert(m1.has_game(g) == (old(self).has_game(g) || g == game@));
                assert(mid.has_game(g) == m1.has_game(g));
                assert(has_key(s.games@, g) == has_key(mid.games@, g));
            }
            assert forall|l: Seq<char>| #[trigger] s.has_language(l) == (old(self).has_language(l)
                || l == language@) by {
                assert(m1.has_language(l) == old(self).has_language(l));
                assert(mid.has_language(l) == (m1.has_language(l) || l == language@));
                assert(has_key(s.languages@, l) == has_key(mid.languages@, l));
            }
        }
    }

    /// Remove the association between a language and a game.  Does not
    /// remove any games or languages: both entries stay, even with an empty
    /// list.  Returns the game's position in the game-keyed sequence when
    /// the association existed, `None` (leaving the index untouched) when
    /// the game, the language or the association is unknown.
    pub fn remove_association(&mut self, game: &str, language: &str) -> (r: Option<usize>)
        requires
            old(self).wf(),
        ensures
            final(self).wf(),
            !old(self).has_assoc(game@, language@) ==> r is None && *final(self) == *old(self),
            old(self).has_assoc(game@, language@) ==> {
                &&& r is Some
                &&& r->0 as int == key_index(old(self).games_seq(), game@)
                &&& (forall|g: Seq<char>, l: Seq<char>| #[trigger] final(self).has_assoc(g, l)
                    == (old(self).has_assoc(g, l) && !(g == game@ && l == language@)))
                &&& (forall|g: Seq<char>| #[trigger] final(self).has_game(g) == old(
                    self,
                ).has_game(g))
                &&& (forall|l: Seq<char>| #[trigger] final(self).has_language(l) == old(
                    self,
                ).has_language(l))
            },
    {
        let gi = match find_key(&self.games, game) {
            Ok(i) => i,
            Err(_) => {
                return None;
            },
        };
        let pos = match find_str(&self.games[gi].1, language) {
            Ok(p) => p,
            Err(_) => {
                proof {
                    lemma_key_index_of(self.games@, gi as int);
                }
                return None;
            },
        };
        proof {
            lemma_key_index_of(self.games@, gi as int);
            assert(old(self).has_assoc(game@, language@));
        }
        let ghost g0 = self.games@;
        let mut gentry = self.games.remove(gi);
        let ghost glist0 = gentry.1@;
        proof {
            lemma_sorted_strs_remove(glist0, pos as int);
        }
        gentry.1.remove(pos);
        let ghost gentry1 = gentry;
        self.games.insert(gi, gentry);
        proof {
            assert(self.games@ =~= g0.update(gi as int, gentry1));
            lemma_update_value(g0, gi as int, gentry1);
            assert forall|i: int| 0 <= i < self.games@.len() implies sorted_strs(
                #[trigger] self.games@[i].1@,
            ) by {
                if i != gi as int {
                    assert(self.games@[i] == g0[i]);
                }
            }
            assert forall|k: Seq<char>, x: Seq<char>| #[trigger] listed_under(self.games@, k, x)
                == (listed_under(g0, k, x) && !(k == game@ && x == language@)) by {
                if k == game@ {
                    assert(value_of(self.games@, k) == gentry1.1);
                    assert(value_of(g0, k) == g0[gi as int].1);
                } else {
                    if has_key(g0, k) {
                        assert(value_of(self.games@, k) == value_of(g0, k));
                    }
                }
            }
        }
        // the mirror of a well-formed index guarantees the other side holds
        // the association too
        proof {
            assert(old(self).language_lists_game(language@, game@));
        }
        let li = match find_key(&self.languages, language) {
            Ok(i) => i,
            Err(_) => {
                proof {
                    assert(false);
                }
                return None;
            },
        };
        let gpos = match find_str(&self.languages[li].1, game) {
            Ok(p) => p,
            Err(_) => {
                proof {
                    lemma_key_index_of(self.languages@, li as int);
                    assert(false);
                }
                return None;
            },
        };
        proof {
            lemma_key_index_of(self.languages@, li as int);
        }
        let ghost l0 = self.languages@;
        let mut lentry = self.languages.remove(li);
        let ghost llist0 = lentry.1@;
        proof {
            lemma_sorted_strs_remove(llist0, gpos as int);
        }
        lentry.1.remove(gpos);
        let ghost lentry1 = lentry;
        self.languages.insert(li, lentry);
        proof {
            assert(self.languages@ =~= l0.update(li as int, lentry1));
            lemma_update_value(l0, li as int, lentry1);
            assert forall|i: int| 0 <= i < self.languages@.len() implies sorted_strs(
                #[trigger] self.languages@[i].1@,
            ) by {
                if i != li as int {
                    assert(self.languages@[i] == l0[i]);
                }
            }
            assert forall|k: Seq<char>, x: Seq<char>| #[trigger] listed_under(
                self.languages@,
                k,
                x,
            ) == (listed_under(l0, k, x) && !(k == language@ && x == game@)) by {
                if k == language@ {
                    assert(value_of(self.languages@, k) == lentry1.1);
                    assert(value_of(l0, k) == l0[li as int].1);
                } else {
                    if has_key(l0, k) {
                        assert(value_of(self.languages@, k) == value_of(l0, k));
                    }
                }
            }
            let s = *self;
            assert forall|g: Seq<char>, l: Seq<char>|
                #![trigger s.game_lists_language(g, l)]
                #![trigger s.language_lists_game(l, g)]
                s.game_lists_language(g, l) == s.language_lists_game(l, g) by {
                assert(s.game_lists_language(g, l) == (old(self).game_lists_language(g, l) && !(g
                    == game@ && l == language@)));
                assert(s.language_lists_game(l, g) == (old(self).language_lists_game(l, g) && !(l
                    == language@ && g == game@)));
                assert(old(self).game_lists_language(g, l) == old(self).language_lists_game(l, g));
            }
            assert forall|g: Seq<char>| #[trigger] s.has_game(g) == old(self).has_game(g) by {
                assert(has_key(s.games@, g) == has_key(g0, g));
            }
            assert forall|l: Seq<char>| #[trigger] s.has_language(l) == old(self).has_language(
                l,
            ) by {
                assert(has_key(s.languages@, l) == has_key(l0, l));
            }
        }
        Some(gi)
    }

    /// Remove a game and all of its associations with any languages.  Does
    /// not remove any languages: a language whose last association goes
    /// stays known, with an empty game list.  Returns the positions, in the
    /// language-keyed sequence and in ascending order, of the languages
    /// that were associated with the game; unknown games leave the index
    /// untouched and return nothing.
    pub fn remove_game(&mut self, game: &str) -> (r: Vec<usize>)
        requires
            old(self).wf(),
        ensures
            final(self).wf(),
            !old(self).has_game(game@) ==> *final(self) == *old(self) && r@.len() == 0,
            old(self).has_game(game@) ==> {
                &&& (forall|g: Seq<char>| #[trigger] final(self).has_game(g) == (old(
                    self,
                ).has_game(g) && g != game@))
                &&& (forall|l: Seq<char>| #[trigger] final(self).has_language(l) == old(
                    self,
                ).has_language(l))
                &&& (forall|g: Seq<char>, l: Seq<char>| #[trigger] final(self).has_assoc(g, l)
                    == (old(self).has_assoc(g, l) && g != game@))
                &&& (forall|m: int, n: int| 0 <= m < n < r@.len() ==> r@[m] < r@[n])
                &&& (forall|n: int| 0 <= n < r@.len() ==> (#[trigger] r@[n]) < old(
                    self,
                ).languages_seq().len())
                &&& (forall|n: int|
                    0 <= n < r@.len() ==> old(self).language_lists_game(
                        old(self).languages_seq()[(#[trigger] r@[n]) as int].0@,
                        game@,
                    ))
                &&& (forall|p: int|
                    0 <= p < old(self).languages_seq().len() && old(self).language_lists_game(
                        (#[trigger] old(self).languages_seq()[p]).0@,
                        game@,
                    ) ==> r@.contains(p as usize))
            },
    {
        let gi = match find_key(&self.games, game) {
            Ok(i) => i,
            Err(_) => {
                return Vec::new();
            },
        };
        let ghost g0 = self.games@;
        proof {
            lemma_sorted_remove(g0, gi as int);
        }
        self.games.remove(gi);
        proof {
            assert forall|n: int| 0 <= n < self.games@.len() implies sorted_strs(
                #[trigger] self.games@[n].1@,
            ) by {
                if n < gi as int {
                    assert(self.games@[n] == g0[n]);
                } else {
                    assert(self.games@[n] == g0[n + 1]);
                }
            }
            assert forall|k: Seq<char>, x: Seq<char>| #[trigger] listed_under(self.games@, k, x)
                == (listed_under(g0, k, x) && k != game@) by {
                if k != game@ && has_key(g0, k) {
                    assert(value_of(self.games@, k) == value_of(g0, k));
                }
            }
            assert(g0[gi as int].0@ == game@);
            assert(forall|g: Seq<char>| #[trigger] has_key(self.games@, g) == (has_key(g0, g) && g
                != game@));
        }
        let ghost l0 = self.languages@;
        let mut hit: Vec<usize> = Vec::new();
        let mut idx: usize = 0;
        while idx < self.languages.len()
            invariant
                sorted_keys(self.games@),
                forall|n: int| 0 <= n < self.games@.len() ==> sorted_strs(
                    (#[trigger] self.games@[n]).1@,
                ),
                forall|g: Seq<char>| #[trigger] has_key(self.games@, g) == (has_key(g0, g) && g
                    != game@),
                forall|k: Seq<char>, x: Seq<char>| #[trigger] listed_under(self.games@, k, x)
                    == (listed_under(g0, k, x) && k != game@),
                idx <= l0.len(),
                self.languages@.len() == l0.len(),
                sorted_keys(self.languages@),
                forall|n: int| 0 <= n < l0.len() ==> (#[trigger] self.languages@[n]).0 == l0[n].0,
                forall|n: int| idx <= n < l0.len() ==> (#[trigger] self.languages@[n]).1 == l0[n].1,
                forall|n: int| 0 <= n < l0.len() ==> sorted_strs((#[trigger] l0[n]).1@),
                forall|n: int|
                    0 <= n < idx ==> sorted_strs((#[trigger] self.languages@[n]).1@),
                forall|n: int, x: Seq<char>|
                    #![trigger contains_str(self.languages@[n].1@, x)]
                    0 <= n < idx ==> contains_str(self.languages@[n].1@, x) == (contains_str(
                        l0[n].1@,
                        x,
                    ) && x != game@),
                forall|m: int, n: int| 0 <= m < n < hit@.len() ==> hit@[m] < hit@[n],
                forall|n: int| 0 <= n < hit@.len() ==> (#[trigger] hit@[n]) < idx,
                forall|n: int|
                    0 <= n < hit@.len() ==> contains_str(l0[(#[trigger] hit@[n]) as int].1@, game@),
                forall|p: int|
                    0 <= p < idx && contains_str((#[trigger] l0[p]).1@, game@) ==> hit@.contains(
                        p as usize,
                    ),
            decreases l0.len() - idx,
        {
            let ghost hit0 = hit@;
            match find_str(&self.languages[idx].1, game) {
                Ok(p) => {
                    let ghost cur = self.languages@;
                    let mut e = self.languages.remove(idx);
                    let ghost elist = e.1@;
                    proof {
                        lemma_sorted_strs_remove(elist, p as int);
                    }
                    e.1.remove(p);
                    let ghost e1 = e;
                    self.languages.insert(idx, e);
                    hit.push(idx);
                    proof {
                        assert(self.languages@ =~= cur.update(idx as int, e1));
                        assert(forall|n: int|
                            0 <= n < l0.len() && n != idx ==> (#[trigger] self.languages@[n])
                                == cur[n]);
                        assert(cur[idx as int].1@ == elist);
                        assert(forall|x: Seq<char>| #[trigger] contains_str(e1.1@, x)
                            == (contains_str(elist, x) && x != game@));
                        assert forall|n: int, x: Seq<char>|
                            #![trigger contains_str(self.languages@[n].1@, x)]
                            0 <= n < idx + 1 implies contains_str(self.languages@[n].1@, x)
                            == (contains_str(l0[n].1@, x) && x != game@) by {
                            if n < idx {
                                assert(contains_str(cur[n].1@, x) == (contains_str(l0[n].1@, x)
                                    && x != game@));
                            } else {
                                assert(self.languages@[n].1@ == e1.1@);
                                assert(contains_str(l0[n].1@, game@));
                            }
                        }
                        assert(hit@ == hit0.push(idx));
                        assert forall|pp: int|
                            0 <= pp < idx + 1 && contains_str(
                                (#[trigger] l0[pp]).1@,
                                game@,
                            ) implies hit@.contains(pp as usize) by {
                            if pp < idx {
                                assert(hit0.contains(pp as usize));
                                let w = choose|w: int|
                                    0 <= w < hit0.len() && hit0[w] == pp as usize;
                                assert(hit@[w] == pp as usize);
                            } else {
                                assert(hit@[hit0.len() as int] == idx);
                            }
                        }
                    }
                },
                Err(_) => {
                    proof {
                        assert(self.languages@[idx as int].1 == l0[idx as int].1);
                        assert(!contains_str(l0[idx as int].1@, game@));
                        assert forall|pp: int|
                            0 <= pp < idx + 1 && contains_str(
                                (#[trigger] l0[pp]).1@,
                                game@,
                            ) implies hit@.contains(pp as usize) by {
                            if pp < idx {
                                assert(hit@.contains(pp as usize));
                            }
                        }
                        assert forall|n: int, x: Seq<char>|
                            #![trigger contains_str(self.languages@[n].1@, x)]
                            0 <= n < idx + 1 implies contains_str(self.languages@[n].1@, x)
                            == (contains_str(l0[n].1@, x) && x != game@) by {
                            if n == idx as int {
                                assert(self.languages@[n].1 == l0[n].1);
                                if contains_str(l0[n].1@, x) && x == game@ {
                                    assert(false);
                                }
                            }
                        }
                    }
                },
            }
            idx += 1;
        }
        proof {
            let s = *self;
            let o = *old(self);
            // the keys of the language side are untouched
            assert forall|l: Seq<char>| #[trigger] has_key(s.languages@, l) == has_key(
                l0,
                l,
            ) by {
                if has_key(s.languages@, l) {
                    let w = choose|w: int| 0 <= w < s.languages@.len() && s.languages@[w].0@ == l;
                    assert(l0[w].0@ == l);
                }
                if has_key(l0, l) {
                    let w = choose|w: int| 0 <= w < l0.len() && l0[w].0@ == l;
                    assert(s.languages@[w].0@ == l);
                }
            }
            // each language's list lost exactly the removed game
            assert forall|k: Seq<char>, x: Seq<char>| #[trigger] listed_under(s.languages@, k, x)
                == (listed_under(l0, k, x) && x != game@) by {
                if has_key(l0, k) {
                    let w = key_index(l0, k);
                    assert(0 <= w < l0.len() && l0[w].0@ == k);
                    lemma_key_index_of(l0, w);
                    assert(s.languages@[w].0@ == k);
                    lemma_key_index_of(s.languages@, w);
                    assert(value_of(s.languages@, k) == s.languages@[w].1);
                    assert(value_of(l0, k) == l0[w].1);
                    assert(contains_str(s.languages@[w].1@, x) == (contains_str(l0[w].1@, x) && x
                        != game@));
                }
            }
            assert forall|g: Seq<char>, l: Seq<char>|
                #![trigger s.game_lists_language(g, l)]
                #![trigger s.language_lists_game(l, g)]
                s.game_lists_language(g, l) == s.language_lists_game(l, g) by {
                assert(s.game_lists_language(g, l) == (o.game_lists_language(g, l) && g != game@));
                assert(s.language_lists_game(l, g) == (o.language_lists_game(l, g) && g != game@));
                assert(o.game_lists_language(g, l) == o.language_lists_game(l, g));
            }
            assert forall|g: Seq<char>, l: Seq<char>| #[trigger] s.has_assoc(g, l) == (o.has_assoc(
                g,
                l,
            ) && g != game@) by {
                assert(s.game_lists_language(g, l) == (o.game_lists_language(g, l) && g != game@));
            }
            assert forall|g: Seq<char>| #[trigger] s.has_game(g) == (o.has_game(g) && g
                != game@) by {
                assert(has_key(s.games@, g) == (has_key(g0, g) && g != game@));
            }
            assert forall|l: Seq<char>| #[trigger] s.has_language(l) == o.has_language(l) by {
                assert(has_key(s.languages@, l) == has_key(l0, l));
            }
            // the returned positions name exactly the languages that listed
            // the game
            assert forall|n: int| 0 <= n < hit@.len() implies o.language_lists_game(
                o.languages_seq()[(#[trigger] hit@[n]) as int].0@,
                game@,
            ) by {
                let w = hit@[n] as int;
                assert(contains_str(l0[w].1@, game@));
                lemma_key_index_of(l0, w);
                assert(value_of(l0, l0[w].0@) == l0[w].1);
            }
            assert forall|p: int|
                0 <= p < o.languages_seq().len() && o.language_lists_game(
                    (#[trigger] o.languages_seq()[p]).0@,
                    game@,
                ) implies hit@.contains(p as usize) by {
                lemma_key_index_of(l0, p);
                assert(value_of(l0, l0[p].0@) == l0[p].1);
                assert(contains_str(l0[p].1@, game@));
            }
        }
        hit
    }

    /// Remove a language and all of its associations with any games.  Does
    /// not remove any games: a game whose last association goes stays
    /// known, with an empty language list.  Returns the positions, in the
    /// game-keyed sequence and in ascending order, of the games that were
    /// associated with the language; unknown languages leave the index
    /// untouched and return nothing.
    pub fn remove_language(&mut self, language: &str) -> (r: Vec<usize>)
        requires
            old(self).wf(),
        ensures
            final(self).wf(),
            !old(self).has_language(language@) ==> *final(self) == *old(self) && r@.len() == 0,
            old(self).has_language(language@) ==> {
                &&& (forall|l: Seq<char>| #[trigger] final(self).has_language(l) == (old(
                    self,
                ).has_language(l) && l != language@))
                &&& (forall|g: Seq<char>| #[trigger] final(self).has_game(g) == old(
                    self,
                ).has_game(g))
                &&& (forall|g: Seq<char>, l: Seq<char>| #[trigger] final(self).has_assoc(g, l)
                    == (old(self).has_assoc(g, l) && l != language@))
                &&& (forall|m: int, n: int| 0 <= m < n < r@.len() ==> r@[m] < r@[n])
                &&& (forall|n: int| 0 <= n < r@.len() ==> (#[trigger] r@[n]) < old(
                    self,
                ).games_seq().len())
                &&& (forall|n: int|
                    0 <= n < r@.len() ==> old(self).game_lists_language(
                        old(self).games_seq()[(#[trigger] r@[n]) as int].0@,
                        language@,
                    ))
                &&& (forall|p: int|
                    0 <= p < old(self).games_seq().len() && old(self).game_lists_language(
                        (#[trigger] old(self).games_seq()[p]).0@,
                        language@,
                    ) ==> r@.contains(p as usize))
            },
    {
        let li = match find_key(&self.languages, language) {
            Ok(i) => i,
            Err(_) => {
                return Vec::new();
            },
        };
        let ghost l0 = self.languages@;
        proof {
            lemma_sorted_remove(l0, li as int);
        }
        self.languages.remove(li);
        proof {
            assert forall|n: int| 0 <= n < self.languages@.len() implies sorted_strs(
                #[trigger] self.languages@[n].1@,
            ) by {
                if n < li as int {
                    assert(self.languages@[n] == l0[n]);
                } else {
                    assert(self.languages@[n] == l0[n + 1]);
                }
            }
            assert forall|k: Seq<char>, x: Seq<char>| #[trigger] listed_under(
                self.languages@,
                k,
                x,
            ) == (listed_under(l0, k, x) && k != language@) by {
                if k != language@ && has_key(l0, k) {
                    assert(value_of(self.languages@, k) == value_of(l0, k));
                }
            }
            assert(l0[li as int].0@ == language@);
            assert(forall|l: Seq<char>| #[trigger] has_key(self.languages@, l) == (has_key(l0, l)
                && l != language@));
        }
        let ghost g0 = self.games@;
        let mut hit: Vec<usize> = Vec::new();
        let mut idx: usize = 0;
        while idx < self.games.len()
            invariant
                sorted_keys(self.languages@),
                forall|n: int| 0 <= n < self.languages@.len() ==> sorted_strs(
                    (#[trigger] self.languages@[n]).1@,
                ),
                forall|l: Seq<char>| #[trigger] has_key(self.languages@, l) == (has_key(l0, l)
                    && l != language@),
                forall|k: Seq<char>, x: Seq<char>| #[trigger] listed_under(self.languages@, k, x)
                    == (listed_under(l0, k, x) && k != language@),
                idx <= g0.len(),
                self.games@.len() == g0.len(),
                sorted_keys(self.games@),
                forall|n: int| 0 <= n < g0.len() ==> (#[trigger] self.games@[n]).0 == g0[n].0,
                forall|n: int| idx <= n < g0.len() ==> (#[trigger] self.games@[n]).1 == g0[n].1,
                forall|n: int| 0 <= n < g0.len() ==> sorted_strs((#[trigger] g0[n]).1@),
                forall|n: int| 0 <= n < idx ==> sorted_strs((#[trigger] self.games@[n]).1@),
                forall|n: int, x: Seq<char>|
                    #![trigger contains_str(self.games@[n].1@, x)]
                    0 <= n < idx ==> contains_str(self.games@[n].1@, x) == (contains_str(
                        g0[n].1@,
                        x,
                    ) && x != language@),
                forall|m: int, n: int| 0 <= m < n < hit@.len() ==> hit@[m] < hit@[n],
                forall|n: int| 0 <= n < hit@.len() ==> (#[trigger] hit@[n]) < idx,
                forall|n: int|
                    0 <= n < hit@.len() ==> contains_str(
                        g0[(#[trigger] hit@[n]) as int].1@,
                        language@,
                    ),
                forall|p: int|
                    0 <= p < idx && contains_str((#[trigger] g0[p]).1@, language@)
                        ==> hit@.contains(p as usize),
            decreases g0.len() - idx,
        {
            let ghost hit0 = hit@;
            match find_str(&self.games[idx].1, language) {
                Ok(p) => {
                    let ghost cur = self.games@;
                    let mut e = self.games.remove(idx);
                    let ghost elist = e.1@;
                    proof {
                        lemma_sorted_strs_remove(elist, p as int);
                    }
                    e.1.remove(p);
                    let ghost e1 = e;
                    self.games.insert(idx, e);
                    hit.push(idx);
                    proof {
                        assert(self.games@ =~= cur.update(idx as int, e1));
                        assert(forall|n: int|
                            0 <= n < g0.len() && n != idx ==> (#[trigger] self.games@[n])
                                == cur[n]);
                        assert(cur[idx as int].1@ == elist);
                        assert(forall|x: Seq<char>| #[trigger] contains_str(e1.1@, x)
                            == (contains_str(elist, x) && x != language@));
                        assert forall|n: int, x: Seq<char>|
                            #![trigger contains_str(self.games@[n].1@, x)]
                            0 <= n < idx + 1 implies contains_str(self.games@[n].1@, x)
                            == (contains_str(g0[n].1@, x) && x != language@) by {
                            if n < idx {
                                assert(contains_str(cur[n].1@, x) == (contains_str(g0[n].1@, x)
                                    && x != language@));
                            } else {
                                assert(self.games@[n].1@ == e1.1@);
                                assert(contains_str(g0[n].1@, language@));
                            }
                        }
                        assert(hit@ == hit0.push(idx));
                        assert forall|pp: int|
                            0 <= pp < idx + 1 && contains_str(
                                (#[trigger] g0[pp]).1@,
                                language@,
                            ) implies hit@.contains(pp as usize) by {
                            if pp < idx {
                                assert(hit0.contains(pp as usize));
                                let w = choose|w: int|
                                    0 <= w < hit0.len() && hit0[w] == pp as usize;
                                assert(hit@[w] == pp as usize);
                            } else {
                                assert(hit@[hit0.len() as int] == idx);
                            }
                        }
                    }
                },
                Err(_) => {
                    proof {
                        assert(self.games@[idx as int].1 == g0[idx as int].1);
                        assert(!contains_str(g0[idx as int].1@, language@));
                        assert forall|pp: int|
                            0 <= pp < idx + 1 && contains_str(
                                (#[trigger] g0[pp]).1@,
                                language@,
                            ) implies hit@.contains(pp as usize) by {
                            if pp < idx {
                                assert(hit@.contains(pp as usize));
                            }
                        }
                        assert forall|n: int, x: Seq<char>|
                            #![trigger contains_str(self.games@[n].1@, x)]
                            0 <= n < idx + 1 implies contains_str(self.games@[n].1@, x)
                            == (contains_str(g0[n].1@, x) && x != language@) by {
                            if n == idx as int {
                                assert(self.games@[n].1 == g0[n].1);
                                if contains_str(g0[n].1@, x) && x == language@ {
                                    assert(false);
                                }
                            }
                        }
                    }
                },
            }
            idx += 1;
        }
        proof {
            let s = *self;
            let o = *old(self);
            assert forall|g: Seq<char>| #[trigger] has_key(s.games@, g) == has_key(g0, g) by {
                if has_key(s.games@, g) {
                    let w = choose|w: int| 0 <= w < s.games@.len() && s.games@[w].0@ == g;
                    assert(g0[w].0@ == g);
                }
                if has_key(g0, g) {
                    let w = choose|w: int| 0 <= w < g0.len() && g0[w].0@ == g;
                    assert(s.games@[w].0@ == g);
                }
            }
            assert forall|k: Seq<char>, x: Seq<char>| #[trigger] listed_under(s.games@, k, x)
                == (listed_under(g0, k, x) && x != language@) by {
                if has_key(g0, k) {
                    let w = key_index(g0, k);
                    assert(0 <= w < g0.len() && g0[w].0@ == k);
                    lemma_key_index_of(g0, w);
                    assert(s.games@[w].0@ == k);
                    lemma_key_index_of(s.games@, w);
                    assert(value_of(s.games@, k) == s.games@[w].1);
                    assert(value_of(g0, k) == g0[w].1);
                    assert(contains_str(s.games@[w].1@, x) == (contains_str(g0[w].1@, x) && x
                        != language@));
                }
            }
            assert forall|g: Seq<char>, l: Seq<char>|
                #![trigger s.game_lists_language(g, l)]
                #![trigger s.language_lists_game(l, g)]
                s.game_lists_language(g, l) == s.language_lists_game(l, g) by {
                assert(s.game_lists_language(g, l) == (o.game_lists_language(g, l) && l
                    != language@));
                assert(s.language_lists_game(l, g) == (o.language_lists_game(l, g) && l
                    != language@));
                assert(o.game_lists_language(g, l) == o.language_lists_game(l, g));
            }
            assert forall|g: Seq<char>, l: Seq<char>| #[trigger] s.has_assoc(g, l) == (o.has_assoc(
                g,
                l,
            ) && l != language@) by {
                assert(s.game_lists_language(g, l) == (o.game_lists_language(g, l) && l
                    != language@));
            }
            assert forall|l: Seq<char>| #[trigger] s.has_language(l) == (o.has_language(l) && l
                != language@) by {
                assert(has_key(s.languages@, l) == (has_key(l0, l) && l != language@));
            }
            assert forall|g: Seq<char>| #[trigger] s.has_game(g) == o.has_game(g) by {
                assert(has_key(s.games@, g) == has_key(g0, g));
            }
            assert forall|n: int| 0 <= n < hit@.len() implies o.game_lists_language(
                o.games_seq()[(#[trigger] hit@[n]) as int].0@,
                language@,
            ) by {
                let w = hit@[n] as int;
                assert(contains_str(g0[w].1@, language@));
                lemma_key_index_of(g0, w);
                assert(value_of(g0, g0[w].0@) == g0[w].1);
            }
            assert forall|p: int|
                0 <= p < o.games_seq().len() && o.game_lists_language(
                    (#[trigger] o.games_seq()[p]).0@,
                    language@,
                ) implies hit@.contains(p as usize) by {
                lemma_key_index_of(g0, p);
                assert(value_of(g0, g0[p].0@) == g0[p].1);
                assert(contains_str(g0[p].1@, language@));
            }
        }
        hit
    }

    /// The sorted sequence of all known game names.
    pub fn games(&self) -> (r: Vec<String>)
        ensures
            views_of(r@) == self.game_names(),
    {
        let r = clone_keys(&self.games);
        proof {
            assert(views_of(r@) =~= self.game_names());
        }
        r
    }

    /// The sorted sequence of all known language names.
    pub fn languages(&self) -> (r: Vec<String>)
        ensures
            views_of(r@) == self.language_names(),
    {
        let r = clone_keys(&self.languages);
        proof {
            assert(views_of(r@) =~= self.language_names());
        }
        r
    }

    /// The games associated with `language`; an unknown language implicitly
    /// covers everything, so the full game set comes back for it.
    pub fn games_by_language(&self, language: &str) -> (r: Vec<String>)
        requires
            self.wf(),
        ensures
            self.has_language(language@) ==> r@ == value_of(self.languages_seq(), language@)@,
            !self.has_language(language@) ==> views_of(r@) == self.game_names(),
    {
        match find_key(&self.languages, language) {
            Ok(i) => clone_strs(&self.languages[i].1),
            Err(_) => self.games(),
        }
    }

    /// The languages associated with `game`; an unknown game implicitly
    /// covers everything, so the full language set comes back for it.
    pub fn language_by_games(&self, game: &str) -> (r: Vec<String>)
        requires
            self.wf(),
        ensures
            self.has_game(game@) ==> r@ == value_of(self.games_seq(), game@)@,
            !self.has_game(game@) ==> views_of(r@) == self.language_names(),
    {
        match find_key(&self.games, game) {
            Ok(i) => clone_strs(&self.games[i].1),
            Err(_) => self.languages(),
        }
    }
}

/// Extending a prefix of entries by one entry extends what it knows by
/// exactly that entry's key, languages and pairs.
proof fn lemma_entries_prefix_extend(entries: Seq<(String, Vec<String>)>, i: int)
    requires
        0 <= i < entries.len(),
    ensures
        forall|g: Seq<char>| #[trigger] has_key(entries.subrange(0, i + 1), g) == (has_key(
            entries.subrange(0, i),
            g,
        ) || entries[i].0@ == g),
        forall|l: Seq<char>| #[trigger] mentioned_language(entries.subrange(0, i + 1), l)
            == (mentioned_language(entries.subrange(0, i), l) || contains_str(entries[i].1@, l)),
        forall|g: Seq<char>, l: Seq<char>| #[trigger] pair_in_entries(
            entries.subrange(0, i + 1),
            g,
            l,
        ) == (pair_in_entries(entries.subrange(0, i), g, l) || (entries[i].0@ == g && contains_str(
            entries[i].1@,
            l,
        ))),
{
    let a = entries.subrange(0, i);
    let b = entries.subrange(0, i + 1);
    assert(b[i] == entries[i]);
    assert forall|g: Seq<char>| #[trigger] has_key(b, g) == (has_key(a, g) || entries[i].0@
        == g) by {
        if has_key(b, g) {
            let w = choose|w: int| 0 <= w < b.len() && b[w].0@ == g;
            if w < i {
                assert(a[w].0@ == g);
            }
        }
        if has_key(a, g) {
            let w = choose|w: int| 0 <= w < a.len() && a[w].0@ == g;
            assert(b[w].0@ == g);
        }
    }
    assert forall|l: Seq<char>| #[trigger] mentioned_language(b, l) == (mentioned_language(a, l)
        || contains_str(entries[i].1@, l)) by {
        if mentioned_language(b, l) {
            let w = choose|w: int| 0 <= w < b.len() && contains_str(b[w].1@, l);
            if w < i {
                assert(contains_str(a[w].1@, l));
            }
        }
        if mentioned_language(a, l) {
            let w = choose|w: int| 0 <= w < a.len() && contains_str(a[w].1@, l);
            assert(contains_str(b[w].1@, l));
        }
    }
    assert forall|g: Seq<char>, l: Seq<char>| #[trigger] pair_in_entries(b, g, l)
        == (pair_in_entries(a, g, l) || (entries[i].0@ == g && contains_str(
        entries[i].1@,
        l,
    ))) by {
        if pair_in_entries(b, g, l) {
            let w = choose|w: int| 0 <= w < b.len() && b[w].0@ == g && contains_str(b[w].1@, l);
            if w < i {
                assert(a[w].0@ == g && contains_str(a[w].1@, l));
            }
        }
        if pair_in_entries(a, g, l) {
            let w = choose|w: int| 0 <= w < a.len() && a[w].0@ == g && contains_str(a[w].1@, l);
            assert(b[w].0@ == g && contains_str(b[w].1@, l));
        }
    }
}

/// Appending one entry extends what a sequence of entries knows by exactly
/// that entry's key, languages and pairs.
proof fn lemma_entries_push(s: Seq<(String, Vec<String>)>, e: (String, Vec<String>))
    ensures
        forall|g: Seq<char>| #[trigger] has_key(s.push(e), g) == (has_key(s, g) || e.0@ == g),
        forall|l: Seq<char>| #[trigger] mentioned_language(s.push(e), l) == (mentioned_language(
            s,
            l,
        ) || contains_str(e.1@, l)),
        forall|g: Seq<char>, l: Seq<char>| #[trigger] pair_in_entries(s.push(e), g, l)
            == (pair_in_entries(s, g, l) || (e.0@ == g && contains_str(e.1@, l))),
{
    let b = s.push(e);
    assert(b[s.len() as int] == e);
    assert forall|g: Seq<char>| #[trigger] has_key(b, g) == (has_key(s, g) || e.0@ == g) by {
        if has_key(b, g) {
            let w = choose|w: int| 0 <= w < b.len() && b[w].0@ == g;
            if w < s.len() {
                assert(s[w].0@ == g);
            } else {
                assert(b[w] == e);
            }
        }
        if has_key(s, g) {
            let w = choose|w: int| 0 <= w < s.len() && s[w].0@ == g;
            assert(b[w].0@ == g);
        }
        if e.0@ == g {
            assert(b[s.len() as int].0@ == g);
        }
    }
    assert forall|l: Seq<char>| #[trigger] mentioned_language(b, l) == (mentioned_language(s, l)
        || contains_str(e.1@, l)) by {
        if mentioned_language(b, l) {
            let w = choose|w: int| 0 <= w < b.len() && contains_str(b[w].1@, l);
            if w < s.len() {
                assert(contains_str(s[w].1@, l));
            } else {
                assert(b[w] == e);
            }
        }
        if mentioned_language(s, l) {
            let w = choose|w: int| 0 <= w < s.len() && contains_str(s[w].1@, l);
            assert(contains_str(b[w].1@, l));
        }
        if contains_str(e.1@, l) {
            assert(contains_str(b[s.len() as int].1@, l));
        }
    }
    assert forall|g: Seq<char>, l: Seq<char>| #[trigger] pair_in_entries(b, g, l)
        == (pair_in_entries(s, g, l) || (e.0@ == g && contains_str(e.1@, l))) by {
        if pair_in_entries(b, g, l) {
            let w = choose|w: int| 0 <= w < b.len() && b[w].0@ == g && contains_str(b[w].1@, l);
            if w < s.len() {
                assert(s[w].0@ == g && contains_str(s[w].1@, l));
            } else {
                assert(b[w] == e);
            }
        }
        if pair_in_entries(s, g, l) {
            let w = choose|w: int| 0 <= w < s.len() && s[w].0@ == g && contains_str(s[w].1@, l);
            assert(b[w].0@ == g && contains_str(b[w].1@, l));
        }
        if e.0@ == g && contains_str(e.1@, l) {
            assert(b[s.len() as int].0@ == g && contains_str(b[s.len() as int].1@, l));
        }
    }
}

impl LanguageSet {
    /// Build the mirrored index from a mapping of games to language sets,
    /// plus a set of free languages associated with no game.
    pub fn new(game_to_languages: Vec<(String, Vec<String>)>, free_languages: Vec<String>) -> (r:
        LanguageSet)
        ensures
            r.wf(),
            forall|g: Seq<char>| #[trigger] r.has_game(g) == has_key(game_to_languages@, g),
            forall|l: Seq<char>| #[trigger] r.has_language(l) == (mentioned_language(
                game_to_languages@,
                l,
            ) || contains_str(free_languages@, l)),
            forall|g: Seq<char>, l: Seq<char>| #[trigger] r.has_assoc(g, l) == pair_in_entries(
                game_to_languages@,
                g,
                l,
            ),
    {
        let ghost t = game_to_languages@;
        let mut set = LanguageSet::empty();
        proof {
            assert(t.subrange(0, 0).len() == 0);
        }
        let mut i: usize = 0;
        while i < game_to_languages.len()
            invariant
                i <= t.len(),
                t == game_to_languages@,
                set.wf(),
                forall|g: Seq<char>| #[trigger] set.has_game(g) == has_key(t.subrange(0, i as int), g),
                forall|l: Seq<char>| #[trigger] set.has_language(l) == mentioned_language(
                    t.subrange(0, i as int),
                    l,
                ),
                forall|g: Seq<char>, l: Seq<char>| #[trigger] set.has_assoc(g, l)
                    == pair_in_entries(t.subrange(0, i as int), g, l),
            decreases t.len() - i,
        {
            let ghost key = t[i as int].0@;
            let ghost list = t[i as int].1@;
            set.ensure_game(game_to_languages[i].0.as_str());
            proof {
                assert(list.subrange(0, 0).len() == 0);
            }
            let mut j: usize = 0;
            while j < game_to_languages[i].1.len()
                invariant
                    i < t.len(),
                    j <= list.len(),
                    t == game_to_languages@,
                    key == t[i as int].0@,
                    list == t[i as int].1@,
                    set.wf(),
                    forall|g: Seq<char>| #[trigger] set.has_game(g) == (has_key(
                        t.subrange(0, i as int),
                        g,
                    ) || g == key),
                    forall|l: Seq<char>| #[trigger] set.has_language(l) == (mentioned_language(
                        t.subrange(0, i as int),
                        l,
                    ) || contains_str(list.subrange(0, j as int), l)),
                    forall|g: Seq<char>, l: Seq<char>| #[trigger] set.has_assoc(g, l)
                        == (pair_in_entries(t.subrange(0, i as int), g, l) || (g == key
                        && contains_str(list.subrange(0, j as int), l))),
                decreases list.len() - j,
            {
                proof {
                    lemma_contains_str_extend(list, j as int);
                }
                set.add_target(
                    game_to_languages[i].1[j].as_str(),
                    game_to_languages[i].0.as_str(),
                );
                j += 1;
            }
            proof {
                assert(list.subrange(0, list.len() as int) =~= list);
                lemma_entries_prefix_extend(t, i as int);
            }
            i += 1;
        }
        proof {
            assert(t.subrange(0, t.len() as int) =~= t);
            assert(free_languages@.subrange(0, 0).len() == 0);
        }
        let ghost f = free_languages@;
        let mut j: usize = 0;
        while j < free_languages.len()
            invariant
                j <= f.len(),
                f == free_languages@,
                t == game_to_languages@,
                set.wf(),
                forall|g: Seq<char>| #[trigger] set.has_game(g) == has_key(t, g),
                forall|l: Seq<char>| #[trigger] set.has_language(l) == (mentioned_language(t, l)
                    || contains_str(f.subrange(0, j as int), l)),
                forall|g: Seq<char>, l: Seq<char>| #[trigger] set.has_assoc(g, l)
                    == pair_in_entries(t, g, l),
            decreases f.len() - j,
        {
            proof {
                lemma_contains_str_extend(f, j as int);
            }
            set.ensure_language(free_languages[j].as_str());
            j += 1;
        }
        proof {
            assert(f.subrange(0, f.len() as int) =~= f);
        }
        set
    }

    /// Build the index from the raw target mapping, where the reserved
    /// empty-string game key carries the free languages.
    pub fn load(targets: Vec<(String, Vec<String>)>) -> (r: LanguageSet)
        ensures
            r.wf(),
            forall|g: Seq<char>| #[trigger] r.has_game(g) == (g != ""@ && has_key(targets@, g)),
            forall|l: Seq<char>| #[trigger] r.has_language(l) == mentioned_language(targets@, l),
            forall|g: Seq<char>, l: Seq<char>| #[trigger] r.has_assoc(g, l) == (g != ""@
                && pair_in_entries(targets@, g, l)),
    {
        let ghost t = targets@;
        let mut game_entries: Vec<(String, Vec<String>)> = Vec::new();
        let mut free: Vec<String> = Vec::new();
        proof {
            assert(t.subrange(0, 0).len() == 0);
        }
        let mut i: usize = 0;
        while i < targets.len()
            invariant
                i <= t.len(),
                t == targets@,
                forall|g: Seq<char>| #[trigger] has_key(game_entries@, g) == (g != ""@ && has_key(
                    t.subrange(0, i as int),
                    g,
                )),
                forall|g: Seq<char>, l: Seq<char>| #[trigger] pair_in_entries(game_entries@, g, l)
                    == (g != ""@ && pair_in_entries(t.subrange(0, i as int), g, l)),
                forall|l: Seq<char>| (contains_str(free@, l) || mentioned_language(
                    game_entries@,
                    l,
                )) == #[trigger] mentioned_language(t.subrange(0, i as int), l),
            decreases t.len() - i,
        {
            proof {
                lemma_entries_prefix_extend(t, i as int);
            }
            if str_equal(targets[i].0.as_str(), "") {
                let ghost list = t[i as int].1@;
                let ghost free0 = free@;
                proof {
                    assert(list.subrange(0, 0).len() == 0);
                }
                let mut j: usize = 0;
                while j < targets[i].1.len()
                    invariant
                        i < t.len(),
                        j <= list.len(),
                        t == targets@,
                        list == t[i as int].1@,
                        forall|l: Seq<char>| #[trigger] contains_str(free@, l) == (contains_str(
                            free0,
                            l,
                        ) || contains_str(list.subrange(0, j as int), l)),
                    decreases list.len() - j,
                {
                    proof {
                        lemma_contains_str_extend(list, j as int);
                        lemma_contains_str_push(free@, targets@[i as int].1@[j as int]);
                    }
                    free.push(targets[i].1[j].clone());
                    j += 1;
                }
                proof {
                    assert(list.subrange(0, list.len() as int) =~= list);
                    assert(t[i as int].0@ == ""@);
                }
            } else {
                let ghost ge0 = game_entries@;
                let key = targets[i].0.clone();
                let list = clone_strs(&targets[i].1);
                let ghost e = (key, list);
                proof {
                    assert(e.0@ == t[i as int].0@ && e.1@ == t[i as int].1@);
                }
                game_entries.push((key, list));
                proof {
                    assert(game_entries@ == ge0.push(e));
                    lemma_entries_push(ge0, e);
                    assert(t[i as int].0@ != ""@);
                }
            }
            i += 1;
        }
        proof {
            assert(t.subrange(0, t.len() as int) =~= t);
        }
        LanguageSet::new(game_entries, free)
    }
}

/// Index symmetry: a game lists a language exactly when that language lists
/// the game — a well-formed index keeps this after any sequence of
/// mutations, since every mutation preserves well-formedness.
pub proof fn lemma_index_symmetry(s: LanguageSet, g: Seq<char>, l: Seq<char>)
    requires
        s.wf(),
    ensures
        s.game_lists_language(g, l) == s.language_lists_game(l, g),
{
    assert(s.game_lists_language(g, l) == s.language_lists_game(l, g));
}

/// Sortedness: both sides of a well-formed index are strictly sorted by
/// key, with unique keys, and so is every inner list.
pub proof fn lemma_index_sorted(s: LanguageSet)
    requires
        s.wf(),
    ensures
        sorted_keys(s.games_seq()),
        sorted_keys(s.languages_seq()),
        forall|i: int| 0 <= i < s.games_seq().len() ==> sorted_strs(#[trigger] s.games_seq()[i].1@),
        forall|i: int|
            0 <= i < s.languages_seq().len() ==> sorted_strs(#[trigger] s.languages_seq()[i].1@),
{
}

} // verus!
