//! The raw, already-deserialized shape of one bank entry.
//!
//! The data source is a structured document; by the time it reaches this
//! library it has been reduced to plain values.  A fragment value is either
//! a plain string, an explicitly tagged string (marking a cross-record
//! reference), or something of another shape that the parser must reject.

use vstd::prelude::*;

use crate::sorted_assoc::unique_keys;

verus! {

/// The view of a [`RawFragment`].
pub enum RawFragmentView {
    Str(Seq<char>),
    TaggedStr(Seq<char>),
    TaggedOther,
    Other,
}

/// One fragment value of a raw record, reduced to its shape.
#[derive(Debug)]
pub enum RawFragment {
    /// A plain scalar string.
    Str(String),
    /// A tagged value holding a string.
    TaggedStr(String),
    /// A tagged value holding something that is not a string.
    TaggedOther,
    /// A value that is neither a string nor tagged.
    Other,
}

impl View for RawFragment {
    type V = RawFragmentView;

    open spec fn view(&self) -> RawFragmentView {
        match self {
            RawFragment::Str(s) => RawFragmentView::Str(s@),
            RawFragment::TaggedStr(s) => RawFragmentView::TaggedStr(s@),
            RawFragment::TaggedOther => RawFragmentView::TaggedOther,
            RawFragment::Other => RawFragmentView::Other,
        }
    }
}

/// One bank entry as the data source delivers it: per language, per game,
/// an ordered list of fragment values, plus optional free-form tags.  The
/// empty-string game key is reserved for the language's fallback text.
#[derive(Debug)]
pub struct RawRecord {
    pub text: Vec<(String, Vec<(String, Vec<RawFragment>)>)>,
    pub tag: Option<Vec<String>>,
}

/// The raw entry came from nested mappings: language keys are unique, and
/// so are the game keys under each language.
pub open spec fn raw_record_wf(r: RawRecord) -> bool {
    &&& unique_keys(r.text@)
    &&& forall|i: int| 0 <= i < r.text@.len() ==> unique_keys(#[trigger] r.text@[i].1@)
}

} // verus!
