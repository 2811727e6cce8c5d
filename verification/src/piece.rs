//! The smallest logical unit of localized text.
//!
//! Each triple of target game, language and bank key results in a list of
//! these pieces concatenated.  A piece is either a literal run of text or a
//! bank key referencing another record.

use vstd::prelude::*;

use crate::parsing_error::{ParsingError, ParsingErrorView};
use crate::raw_data::RawFragment;

verus! {

/// The view of a [`Piece`].
pub enum PieceView {
    Raw(Seq<char>),
    Ref(Seq<char>),
}

/// The smallest logical unit of localized text.
#[derive(Debug)]
pub enum Piece {
    /// The raw string as is.
    Raw(String),
    /// The raw string used as key to reference another record.
    Ref(String),
}

impl View for Piece {
    type V = PieceView;

    open spec fn view(&self) -> PieceView {
        match self {
            Piece::Raw(s) => PieceView::Raw(s@),
            Piece::Ref(s) => PieceView::Ref(s@),
        }
    }
}

/// What parsing one raw fragment yields: a literal piece from a plain
/// string, a reference piece from a tagged string, and a type-mismatch
/// error from anything else.
pub open spec fn spec_parse_fragment(f: RawFragment) -> Result<PieceView, ParsingErrorView> {
    match f {
        RawFragment::Str(s) => Ok(PieceView::Raw(s@)),
        RawFragment::TaggedStr(s) => Ok(PieceView::Ref(s@)),
        RawFragment::TaggedOther => Err(
            ParsingErrorView::MismatchType { attribute: "tagged value"@, expected: "string"@ },
        ),
        RawFragment::Other => Err(
            ParsingErrorView::MismatchType { attribute: "string value"@, expected: "string"@ },
        ),
    }
}

impl Piece {
    /// Parse one raw fragment value into a piece.
    pub fn parse(f: &RawFragment) -> (r: Result<Piece, ParsingError>)
        ensures
            r is Ok == spec_parse_fragment(*f) is Ok,
            r is Ok ==> r->Ok_0@ == spec_parse_fragment(*f)->Ok_0,
            r is Err ==> r->Err_0@ == spec_parse_fragment(*f)->Err_0,
    {
        match f {
            RawFragment::Str(s) => Ok(Piece::Raw(s.clone())),
            RawFragment::TaggedStr(s) => Ok(Piece::Ref(s.clone())),
            RawFragment::TaggedOther => Err(
                ParsingError::MismatchType {
                    attribute: String::from_str("tagged value"),
                    expected: String::from_str("string"),
                },
            ),
            RawFragment::Other => Err(
                ParsingError::MismatchType {
                    attribute: String::from_str("string value"),
                    expected: String::from_str("string"),
                },
            ),
        }
    }

    /// The raw string stored in the piece, literal and reference alike.
    pub fn inner(&self) -> (r: &String)
        ensures
            self@ matches PieceView::Raw(s) ==> r@ == s,
            self@ matches PieceView::Ref(s) ==> r@ == s,
    {
        match self {
            Piece::Raw(s) => s,
            Piece::Ref(s) => s,
        }
    }

    /// An exact copy of the piece.
    pub fn duplicate(&self) -> (r: Piece)
        ensures
            r == *self,
    {
        match self {
            Piece::Raw(s) => Piece::Raw(s.clone()),
            Piece::Ref(s) => Piece::Ref(s.clone()),
        }
    }
}

} // verus!
