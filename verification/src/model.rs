//! Views of lists, and the places of units: how the contracts see a `Vec` of
//! library values, and how a unit is told from every other.

use vstd::prelude::*;

verus! {

/// The views of a list of values, in the same order.
pub open spec fn views<T: View>(items: Seq<T>) -> Seq<T::V> {
    Seq::new(items.len(), |i: int| items[i]@)
}

/// Appending a value appends its view.
pub proof fn lemma_views_push<T: View>(items: Seq<T>, item: T)
    ensures
        views(items.push(item)) == views(items).push(item@),
{
    assert(views(items.push(item)) =~= views(items).push(item@));
}

/// The views of a concatenation are the concatenated views.
pub proof fn lemma_views_concat<T: View>(left: Seq<T>, right: Seq<T>)
    ensures
        views(left + right) == views(left) + views(right),
{
    assert(views(left + right) =~= views(left) + views(right));
}

/// A path by the text of its components.
pub open spec fn path_view(path: Seq<String>) -> Seq<Seq<char>> {
    views(path)
}

/// The place of a unit in the document: the index of its ancestor among the
/// top-level units, then the index of each further ancestor among its
/// parent's nested units, down to the unit's own index. No two units of a
/// document have the same place.
pub open spec fn place_view(place: Seq<usize>) -> Seq<int> {
    Seq::new(place.len(), |i: int| place[i] as int)
}

/// A copy of a place.
pub fn clone_place(place: &Vec<usize>) -> (copy: Vec<usize>)
    ensures
        copy@ == place@,
{
    let mut copy: Vec<usize> = Vec::new();
    let mut i: usize = 0;
    while i < place.len()
        invariant
            i <= place.len(),
            copy@ == place@.subrange(0, i as int),
        decreases place.len() - i,
    {
        copy.push(place[i]);
        assert(copy@ =~= place@.subrange(0, i as int + 1));
        i += 1;
    }
    assert(place@.subrange(0, i as int) =~= place@);
    copy
}

/// The place of the unit with the given index among the units nested under
/// the unit at `parent`.
pub fn child_place(parent: &Vec<usize>, index: usize) -> (child: Vec<usize>)
    ensures
        place_view(child@) == place_view(parent@).push(index as int),
{
    let mut child = clone_place(parent);
    child.push(index);
    assert(place_view(child@) =~= place_view(parent@).push(index as int));
    child
}

/// True when the two places are the same.
pub fn same_place(a: &Vec<usize>, b: &Vec<usize>) -> (same: bool)
    ensures
        same == (place_view(a@) == place_view(b@)),
{
    if a.len() != b.len() {
        assert(place_view(a@).len() != place_view(b@).len());
        return false;
    }
    let mut i: usize = 0;
    while i < a.len()
        invariant
            i <= a.len(),
            a.len() == b.len(),
            forall|k: int| 0 <= k < i ==> a@[k] == b@[k],
        decreases a.len() - i,
    {
        if a[i] != b[i] {
            assert(place_view(a@)[i as int] != place_view(b@)[i as int]);
            return false;
        }
        i += 1;
    }
    assert(place_view(a@) =~= place_view(b@));
    true
}

} // verus!
