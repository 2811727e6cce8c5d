//! Texts and the resolution / caching engine.
//!
//! A text is an ordered sequence of pieces plus an optional cached
//! actualized string.  Caching concatenates, in piece order, each literal
//! piece's content and each reference piece's resolved string from a
//! caller-supplied lookup; a reference key absent from the lookup degrades
//! to showing the key itself.  The cache is invalidated only explicitly.

use vstd::prelude::*;

use crate::piece::{Piece, PieceView};
use crate::str_list::views_of;
use crate::str_order::str_equal;

verus! {

/// The map held by a [`ResolvedLookup`]: later insertions win.
pub open spec fn map_of(s: Seq<(String, String)>) -> Map<Seq<char>, Seq<char>>
    decreases s.len(),
{
    if s.len() == 0 {
        Map::empty()
    } else {
        map_of(s.drop_last()).insert(s.last().0@, s.last().1@)
    }
}

/// A lookup from reference keys to their already-resolved display strings,
/// fed to [`Text::cache`].
pub struct ResolvedLookup {
    entries: Vec<(String, String)>,
}

impl View for ResolvedLookup {
    type V = Map<Seq<char>, Seq<char>>;

    closed spec fn view(&self) -> Map<Seq<char>, Seq<char>> {
        map_of(self.entries@)
    }
}

/// Entries at or past `i` that never carry `k` do not affect what the map
/// holds under `k`.
proof fn lemma_map_of_no_suffix(s: Seq<(String, String)>, i: int, k: Seq<char>)
    requires
        0 <= i <= s.len(),
        forall|j: int| i <= j < s.len() ==> s[j].0@ != k,
    ensures
        map_of(s).contains_key(k) == map_of(s.take(i)).contains_key(k),
        map_of(s).contains_key(k) ==> map_of(s)[k] == map_of(s.take(i))[k],
    decreases s.len() - i,
{
    if i == s.len() {
        assert(s.take(i) =~= s);
    } else {
        assert(forall|j: int| i <= j < s.drop_last().len() ==> s.drop_last()[j].0@ != k);
        lemma_map_of_no_suffix(s.drop_last(), i, k);
        assert(s.drop_last().take(i) =~= s.take(i));
        assert(s.last().0@ != k);
    }
}

impl ResolvedLookup {
    /// An empty lookup.
    pub fn new() -> (r: ResolvedLookup)
        ensures
            r@ == Map::<Seq<char>, Seq<char>>::empty(),
    {
        ResolvedLookup { entries: Vec::new() }
    }

    /// Map `key` to `value`, replacing what the key was mapped to before.
    pub fn insert(&mut self, key: String, value: String)
        ensures
            final(self)@ == old(self)@.insert(key@, value@),
    {
        let ghost s0 = self.entries@;
        self.entries.push((key, value));
        proof {
            assert(self.entries@.drop_last() =~= s0);
        }
    }

    /// The resolved string under `key`, if the lookup holds one.
    pub fn get(&self, key: &str) -> (r: Option<&String>)
        ensures
            match r {
                Some(v) => self@.contains_key(key@) && v@ == self@[key@],
                None => !self@.contains_key(key@),
            },
    {
        let mut i: usize = self.entries.len();
        while i > 0
            invariant
                i <= self.entries@.len(),
                forall|j: int| i <= j < self.entries@.len() ==> self.entries@[j].0@ != key@,
            decreases i,
        {
            i -= 1;
            if str_equal(self.entries[i].0.as_str(), key) {
                proof {
                    let s = self.entries@;
                    assert(s.take(i as int + 1).drop_last() =~= s.take(i as int));
                    assert(s.take(i as int + 1).last() == s[i as int]);
                    lemma_map_of_no_suffix(s, i as int + 1, key@);
                }
                return Some(&self.entries[i].1);
            }
        }
        proof {
            lemma_map_of_no_suffix(self.entries@, 0, key@);
            assert(self.entries@.take(0).len() == 0);
        }
        None
    }
}

/// What one piece contributes to the actualized string: a literal piece its
/// content, a reference piece its resolved string, or — when the lookup
/// lacks the key — the key itself, verbatim.
pub open spec fn piece_resolved(p: PieceView, m: Map<Seq<char>, Seq<char>>) -> Seq<char> {
    match p {
        PieceView::Raw(s) => s,
        PieceView::Ref(k) => if m.contains_key(k) {
            m[k]
        } else {
            k
        },
    }
}

/// The actualized string: the pieces' contributions concatenated in order.
pub open spec fn actualize(ps: Seq<PieceView>, m: Map<Seq<char>, Seq<char>>) -> Seq<char>
    decreases ps.len(),
{
    if ps.len() == 0 {
        Seq::empty()
    } else {
        actualize(ps.drop_last(), m) + piece_resolved(ps.last(), m)
    }
}

/// The reference keys among the pieces, in order.
pub open spec fn refs_of(ps: Seq<PieceView>) -> Seq<Seq<char>>
    decreases ps.len(),
{
    if ps.len() == 0 {
        Seq::empty()
    } else {
        refs_of(ps.drop_last()) + (match ps.last() {
            PieceView::Ref(k) => seq![k],
            _ => Seq::empty(),
        })
    }
}

/// The view of a [`Text`].
pub struct TextView {
    pub pieces: Seq<PieceView>,
    pub actualized: Option<Seq<char>>,
}

/// What [`Text::cache`] leaves behind: an already cached text is untouched,
/// otherwise the actualized string is computed from the pieces and `m`.
pub open spec fn cached_view(t: TextView, m: Map<Seq<char>, Seq<char>>) -> TextView {
    if t.actualized is Some {
        t
    } else {
        TextView { pieces: t.pieces, actualized: Some(actualize(t.pieces, m)) }
    }
}

/// What [`Text::uncache`] leaves behind.
pub open spec fn uncached_view(t: TextView) -> TextView {
    TextView { pieces: t.pieces, actualized: None }
}

/// The smallest unit of exported localization: each triple of target game,
/// language and bank key results in a single text.
#[derive(Debug)]
pub struct Text {
    pieces: Vec<Piece>,
    actualized: Option<String>,
}

impl View for Text {
    type V = TextView;

    closed spec fn view(&self) -> TextView {
        TextView {
            pieces: self.pieces@.map_values(|p: Piece| p@),
            actualized: match self.actualized {
                Some(s) => Some(s@),
                None => None,
            },
        }
    }
}

impl Text {
    /// Create a text from its pieces, without actualizing the display text.
    pub fn new(pieces: Vec<Piece>) -> (r: Text)
        ensures
            r@.pieces == pieces@.map_values(|p: Piece| p@),
            r@.actualized is None,
    {
        Text { pieces, actualized: None }
    }

    /// The pieces comprising this text.
    pub fn pieces(&self) -> (r: &Vec<Piece>)
        ensures
            r@.map_values(|p: Piece| p@) == self@.pieces,
    {
        &self.pieces
    }

    /// The cached actualized string, if one is present.
    pub fn actualized(&self) -> (r: Option<&String>)
        ensures
            match r {
                Some(s) => self@.actualized == Some(s@),
                None => self@.actualized is None,
            },
    {
        match &self.actualized {
            Some(s) => Some(s),
            None => None,
        }
    }

    /// An exact copy of the text, cached string included.
    pub fn duplicate(&self) -> (r: Text)
        ensures
            r@ == self@,
    {
        let mut ps: Vec<Piece> = Vec::new();
        let mut i: usize = 0;
        while i < self.pieces.len()
            invariant
                i <= self.pieces@.len(),
                ps@.len() == i,
                forall|j: int| 0 <= j < i ==> ps@[j] == self.pieces@[j],
            decreases self.pieces@.len() - i,
        {
            ps.push(self.pieces[i].duplicate());
            i += 1;
        }
        proof {
            assert(ps@ =~= self.pieces@);
        }
        let actualized = match &self.actualized {
            Some(s) => Some(s.clone()),
            None => None,
        };
        Text { pieces: ps, actualized }
    }

    /// All foreign referential keys among the pieces, in order.
    pub fn get_references(&self) -> (r: Vec<String>)
        ensures
            views_of(r@) == refs_of(self@.pieces),
    {
        let mut out: Vec<String> = Vec::new();
        let mut i: usize = 0;
        proof {
            assert(views_of(out@) =~= refs_of(self@.pieces.subrange(0, 0)));
        }
        while i < self.pieces.len()
            invariant
                i <= self.pieces@.len(),
                self@.pieces.len() == self.pieces@.len(),
                views_of(out@) == refs_of(self@.pieces.subrange(0, i as int)),
            decreases self.pieces@.len() - i,
        {
            proof {
                assert(self@.pieces.subrange(0, i as int + 1).drop_last() =~= self@.pieces.subrange(
                    0,
                    i as int,
                ));
                assert(self@.pieces.subrange(0, i as int + 1).last() == self@.pieces[i as int]);
            }
            match &self.pieces[i] {
                Piece::Ref(k) => {
                    let ghost out0 = out@;
                    out.push(k.clone());
                    proof {
                        assert(views_of(out@) =~= views_of(out0) + seq![k@]);
                    }
                },
                Piece::Raw(_) => {
                    proof {
                        assert(views_of(out@) =~= views_of(out@) + Seq::<Seq<char>>::empty());
                    }
                },
            }
            i += 1;
        }
        proof {
            assert(self@.pieces.subrange(0, self.pieces@.len() as int) =~= self@.pieces);
        }
        out
    }

    /// Actualize and memoize the display string: a no-op when already
    /// cached, otherwise the concatenation, in piece order, of each piece's
    /// contribution under `lookup`.
    pub fn cache(&mut self, lookup: &ResolvedLookup)
        ensures
            final(self)@ == cached_view(old(self)@, lookup@),
    {
        if self.actualized.is_some() {
            return;
        }
        let mut s = String::new();
        let mut i: usize = 0;
        proof {
            assert(s@ =~= actualize(self@.pieces.subrange(0, 0), lookup@));
        }
        while i < self.pieces.len()
            invariant
                i <= self.pieces@.len(),
                self.pieces@ == old(self).pieces@,
                self.actualized is None,
                s@ == actualize(self@.pieces.subrange(0, i as int), lookup@),
            decreases self.pieces@.len() - i,
        {
            proof {
                assert(self@.pieces.subrange(0, i as int + 1).drop_last() =~= self@.pieces.subrange(
                    0,
                    i as int,
                ));
                assert(self@.pieces.subrange(0, i as int + 1).last() == self@.pieces[i as int]);
            }
            match &self.pieces[i] {
                Piece::Raw(t) => {
                    s.append(t.as_str());
                },
                Piece::Ref(k) => {
                    match lookup.get(k.as_str()) {
                        Some(v) => {
                            s.append(v.as_str());
                        },
                        None => {
                            s.append(k.as_str());
                        },
                    }
                },
            }
            i += 1;
        }
        proof {
            assert(self@.pieces.subrange(0, self.pieces@.len() as int) =~= self@.pieces);
        }
        self.actualized = Some(s);
    }

    /// Clear the cached actualized string, allowing recomputation.
    pub fn uncache(&mut self)
        ensures
            final(self)@ == uncached_view(old(self)@),
    {
        self.actualized = None;
    }
}

/// Resolution is idempotent: caching an already cached text changes
/// nothing, and re-caching after an uncache with an unchanged lookup
/// reproduces the same actualized string.
pub proof fn lemma_resolution_idempotent(t: TextView, m: Map<Seq<char>, Seq<char>>)
    ensures
        cached_view(cached_view(t, m), m) == cached_view(t, m),
        t.actualized is None ==> cached_view(uncached_view(cached_view(t, m)), m) == cached_view(
            t,
            m,
        ),
{
}

/// Actualization distributes over concatenation of piece sequences.
pub proof fn lemma_actualize_append(
    a: Seq<PieceView>,
    b: Seq<PieceView>,
    m: Map<Seq<char>, Seq<char>>,
)
    ensures
        actualize(a + b, m) == actualize(a, m) + actualize(b, m),
    decreases b.len(),
{
    if b.len() == 0 {
        assert(a + b =~= a);
        assert(actualize(b, m) =~= Seq::<char>::empty());
        assert(actualize(a, m) + actualize(b, m) =~= actualize(a, m));
    } else {
        lemma_actualize_append(a, b.drop_last(), m);
        assert((a + b).drop_last() =~= a + b.drop_last());
        assert((a + b).last() == b.last());
        assert((actualize(a, m) + actualize(b.drop_last(), m)) + piece_resolved(b.last(), m)
            =~= actualize(a, m) + (actualize(b.drop_last(), m) + piece_resolved(b.last(), m)));
    }
}

/// A reference whose key the lookup lacks degrades gracefully: the
/// actualized string shows the key itself, verbatim, as a contiguous run.
pub proof fn lemma_missing_reference_keeps_key(
    ps: Seq<PieceView>,
    m: Map<Seq<char>, Seq<char>>,
    i: int,
    k: Seq<char>,
)
    requires
        0 <= i < ps.len(),
        ps[i] == PieceView::Ref(k),
        !m.contains_key(k),
    ensures
        exists|j: int|
            0 <= j && j + k.len() <= actualize(ps, m).len() && #[trigger] actualize(
                ps,
                m,
            ).subrange(j, j + k.len() as int) == k,
{
    let a = ps.subrange(0, i);
    let b = ps.subrange(i, i + 1);
    let c = ps.subrange(i + 1, ps.len() as int);
    assert(ps =~= (a + b) + c);
    lemma_actualize_append(a + b, c, m);
    lemma_actualize_append(a, b, m);
    assert(b.drop_last().len() == 0);
    assert(b.last() == ps[i]);
    assert(actualize(b.drop_last(), m) =~= Seq::<char>::empty());
    assert(actualize(b, m) =~= piece_resolved(ps[i], m));
    assert(piece_resolved(ps[i], m) == k);
    let whole = actualize(ps, m);
    let j = actualize(a, m).len() as int;
    assert(whole == (actualize(a, m) + actualize(b, m)) + actualize(c, m));
    assert(whole.subrange(j, j + k.len() as int) =~= k);
}

} // verus!
