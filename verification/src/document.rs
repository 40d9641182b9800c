//! The document tree: units of text that own nested units.

use crate::model::path_view;
use vstd::prelude::*;

verus! {

/// A chapter of the document. It has a `path`, the components of its
/// location in the source tree (none for a unit without a location), owns its
/// text, and owns the units nested under it, in document order. Units are
/// told apart by their place in the document, not by their path: several
/// units may have no path, or the same one.
pub struct DocumentUnit {
    pub path: Vec<String>,
    pub text: String,
    pub sub_units: Vec<DocumentUnit>,
}

/// What a unit is to the contracts: its path, its text and its nested units.
pub struct UnitView {
    pub path: Seq<Seq<char>>,
    pub text: Seq<char>,
    pub subs: Seq<UnitView>,
}

/// The view of one unit.
pub open spec fn unit_view(unit: DocumentUnit) -> UnitView
    decreases unit,
{
    UnitView {
        path: path_view(unit.path@),
        text: unit.text@,
        subs: forest_view(unit.sub_units@),
    }
}

/// The views of a sequence of units, in the same order.
pub open spec fn forest_view(units: Seq<DocumentUnit>) -> Seq<UnitView>
    decreases units,
{
    if units.len() == 0 {
        Seq::empty()
    } else {
        forest_view(units.drop_last()).push(unit_view(units.last()))
    }
}

impl View for DocumentUnit {
    type V = UnitView;

    open spec fn view(&self) -> UnitView {
        unit_view(*self)
    }
}

/// `forest_view` maps unit by unit.
pub proof fn lemma_forest_view(units: Seq<DocumentUnit>)
    ensures
        forest_view(units).len() == units.len(),
        forall|i: int| 0 <= i < units.len() ==> #[trigger] forest_view(units)[i] == unit_view(units[i]),
    decreases units.len(),
{
    if units.len() > 0 {
        lemma_forest_view(units.drop_last());
    }
}

/// Two units differ at most in their texts and in the texts of the units
/// nested under them: paths and nesting are the same.
pub open spec fn same_shape(a: UnitView, b: UnitView) -> bool
    decreases a,
{
    a.path == b.path && forest_same_shape(a.subs, b.subs)
}

/// Two sequences of units are of the same length and pairwise of the same
/// shape.
pub open spec fn forest_same_shape(a: Seq<UnitView>, b: Seq<UnitView>) -> bool
    decreases a,
{
    a.len() == b.len() && (a.len() > 0 ==> forest_same_shape(a.drop_last(), b.drop_last())
        && same_shape(a.last(), b.last()))
}

impl DocumentUnit {
    /// A unit with the given path, text and nested units.
    pub fn new(path: Vec<String>, text: String, sub_units: Vec<DocumentUnit>) -> (unit:
        DocumentUnit)
        ensures
            unit.path == path,
            unit.text == text,
            unit.sub_units == sub_units,
    {
        DocumentUnit { path, text, sub_units }
    }
}

} // verus!
