//! Garbage collection of the artifact cache.
//!
//! After the blocks of a run are resolved, every entry of the cache directory
//! that no edit of the run refers to is stale. The library selects the stale
//! entries; the caller lists the directory and deletes them.

use crate::collect::EditView;
use crate::collect::PendingEdit;
use crate::config::DiagramsPreprocessor;
use crate::model::lemma_views_push;
use crate::model::views;
use crate::text::same_text;
use vstd::prelude::*;

verus! {

/// The artifact names that the edits refer to, each once, in the order in
/// which they first occur. An edit with an empty name refers to none.
pub open spec fn used_names(edits: Seq<EditView>) -> Seq<Seq<char>>
    decreases edits.len(),
{
    if edits.len() == 0 {
        Seq::empty()
    } else {
        let before = used_names(edits.drop_last());
        let name = edits.last().cached_filename;
        if name.len() == 0 || before.contains(name) {
            before
        } else {
            before.push(name)
        }
    }
}

/// An entry is stale when it has a name and no edit of the run refers to it.
pub open spec fn is_stale(name: Seq<char>, referenced: Seq<Seq<char>>) -> bool {
    name.len() > 0 && !referenced.contains(name)
}

/// The test for stale entries under the given referenced names.
pub open spec fn stale_under(referenced: Seq<Seq<char>>) -> spec_fn(Seq<char>) -> bool {
    |name: Seq<char>| is_stale(name, referenced)
}

/// The stale entries of a directory listing, in the order of the listing.
pub open spec fn stale_entries(listing: Seq<Seq<char>>, referenced: Seq<Seq<char>>) -> Seq<
    Seq<char>,
> {
    listing.filter(stale_under(referenced))
}

/// The test for entries that are still there after a cleanup in which the
/// entries in `undeletable` could not be deleted.
pub open spec fn kept_under(referenced: Seq<Seq<char>>, undeletable: Set<Seq<char>>) -> spec_fn(
    Seq<char>,
) -> bool {
    |name: Seq<char>| !is_stale(name, referenced) || undeletable.contains(name)
}

/// The directory after a cleanup: the listing without the stale entries that
/// could be deleted.
pub open spec fn directory_after(
    listing: Seq<Seq<char>>,
    referenced: Seq<Seq<char>>,
    undeletable: Set<Seq<char>>,
) -> Seq<Seq<char>> {
    listing.filter(kept_under(referenced, undeletable))
}

/// The entries to delete in a run: the stale entries where the cache is
/// enabled, none where it is not.
pub open spec fn entries_to_delete(
    enable_cache: bool,
    listing: Seq<Seq<char>>,
    edits: Seq<EditView>,
) -> Seq<Seq<char>> {
    if enable_cache {
        stale_entries(listing, used_names(edits))
    } else {
        Seq::empty()
    }
}

/// True when `name` is among `names`.
pub fn contains_name(names: &Vec<String>, name: &str) -> (found: bool)
    ensures
        found == views(names@).contains(name@),
{
    let mut i: usize = 0;
    while i < names.len()
        invariant
            i <= names.len(),
            forall|k: int| 0 <= k < i ==> views(names@)[k] != name@,
        decreases names.len() - i,
    {
        if same_text(names[i].as_str(), name) {
            assert(views(names@)[i as int] == name@);
            return true;
        }
        i += 1;
    }
    false
}

/// The artifact names that the edits refer to, each once, in the order in
/// which they first occur.
pub fn referenced_files(edits: &Vec<PendingEdit>) -> (names: Vec<String>)
    ensures
        views(names@) == used_names(views(edits@)),
{
    let mut names: Vec<String> = Vec::new();
    let mut i: usize = 0;
    while i < edits.len()
        invariant
            i <= edits.len(),
            views(names@) == used_names(views(edits@).subrange(0, i as int)),
        decreases edits.len() - i,
    {
        proof {
            let longer = views(edits@).subrange(0, i as int + 1);
            assert(longer.drop_last() =~= views(edits@).subrange(0, i as int));
            assert(longer.last() == edits@[i as int]@);
        }
        let name = &edits[i].cached_filename;
        if !name.as_str().is_empty() && !contains_name(&names, name.as_str()) {
            let copy = name.clone();
            proof {
                lemma_views_push(names@, copy);
            }
            names.push(copy);
        }
        i += 1;
    }
    assert(views(edits@).subrange(0, i as int) =~= views(edits@));
    names
}

/// The entries of the cache directory to delete: those of `listing` that
/// have a name and are not among `referenced`, in the order of the listing.
pub fn cleanup_unreferenced_files(listing: &Vec<String>, referenced: &Vec<String>) -> (stale: Vec<
    String,
>)
    ensures
        views(stale@) == stale_entries(views(listing@), views(referenced@)),
{
    let mut stale: Vec<String> = Vec::new();
    let mut i: usize = 0;
    let ghost test = stale_under(views(referenced@));
    while i < listing.len()
        invariant
            i <= listing.len(),
            test == stale_under(views(referenced@)),
            views(stale@) == views(listing@).subrange(0, i as int).filter(test),
        decreases listing.len() - i,
    {
        proof {
            let longer = views(listing@).subrange(0, i as int + 1);
            assert(longer.drop_last() =~= views(listing@).subrange(0, i as int));
            assert(longer.last() == listing@[i as int]@);
            reveal(Seq::filter);
        }
        let name = &listing[i];
        if !name.as_str().is_empty() && !contains_name(referenced, name.as_str()) {
            let copy = name.clone();
            proof {
                lemma_views_push(stale@, copy);
            }
            stale.push(copy);
        }
        i += 1;
    }
    assert(views(listing@).subrange(0, i as int) =~= views(listing@));
    stale
}

impl DiagramsPreprocessor {
    /// The entries of the cache directory to delete at the end of a run that
    /// produced `edits`: with the cache enabled, every entry of `listing`
    /// that no edit refers to; with the cache disabled, none.
    pub fn stale_artifacts(&self, listing: &Vec<String>, edits: &Vec<PendingEdit>) -> (stale: Vec<
        String,
    >)
        ensures
            views(stale@) == entries_to_delete(self@.enable_cache, views(listing@), views(edits@)),
    {
        if self.enable_cache() {
            let referenced = referenced_files(edits);
            cleanup_unreferenced_files(listing, &referenced)
        } else {
            Vec::new()
        }
    }
}

/// The referenced names are exactly the non-empty artifact names of the
/// edits, and none occurs twice.
pub proof fn used_names_are_the_references(edits: Seq<EditView>)
    ensures
        forall|name: Seq<char>|
            used_names(edits).contains(name) <==> name.len() > 0 && exists|i: int|
                0 <= i < edits.len() && (#[trigger] edits[i]).cached_filename == name,
        used_names(edits).no_duplicates(),
    decreases edits.len(),
{
    if edits.len() > 0 {
        let shorter = edits.drop_last();
        let before = used_names(shorter);
        let last = edits.last().cached_filename;
        used_names_are_the_references(shorter);
        assert forall|name: Seq<char>|
            used_names(edits).contains(name) <==> name.len() > 0 && exists|i: int|
                0 <= i < edits.len() && (#[trigger] edits[i]).cached_filename == name by {
            if used_names(edits).contains(name) {
                if before.contains(name) {
                    let i = choose|i: int|
                        0 <= i < shorter.len() && (#[trigger] shorter[i]).cached_filename == name;
                    assert(edits[i].cached_filename == name);
                } else {
                    let k = choose|k: int|
                        0 <= k < used_names(edits).len() && used_names(edits)[k] == name;
                    assert(name == last);
                    assert(edits[edits.len() - 1].cached_filename == name);
                }
            }
            if name.len() > 0 && exists|i: int|
                0 <= i < edits.len() && (#[trigger] edits[i]).cached_filename == name {
                let i = choose|i: int|
                    0 <= i < edits.len() && (#[trigger] edits[i]).cached_filename == name;
                if i < shorter.len() {
                    assert(shorter[i].cached_filename == name);
                    assert(before.contains(name));
                    let k = choose|k: int| 0 <= k < before.len() && before[k] == name;
                    if used_names(edits) != before {
                        assert(used_names(edits)[k] == name);
                    }
                } else {
                    if !before.contains(name) {
                        assert(used_names(edits) == before.push(name));
                        assert(used_names(edits)[before.len() as int] == name);
                    }
                }
            }
        }
    }
}

/// What a cleanup leaves in the cache directory. An entry is there afterwards
/// exactly if it was listed and is referenced, has no name, or could not be
/// deleted. So where every referenced artifact is in the directory, every
/// entry has a name and every deletion succeeds, the directory holds exactly
/// the referenced artifacts; and an entry that cannot be deleted changes
/// nothing for the others.
pub proof fn cleanup_leaves_the_referenced(
    listing: Seq<Seq<char>>,
    referenced: Seq<Seq<char>>,
    undeletable: Set<Seq<char>>,
)
    ensures
        forall|name: Seq<char>|
            directory_after(listing, referenced, undeletable).contains(name) <==> listing.contains(
                name,
            ) && (!is_stale(name, referenced) || undeletable.contains(name)),
        forall|name: Seq<char>|
            stale_entries(listing, referenced).contains(name) <==> listing.contains(name)
                && is_stale(name, referenced),
        (forall|name: Seq<char>| referenced.contains(name) ==> listing.contains(name)) && (forall|
            name: Seq<char>,
        |
            listing.contains(name) ==> name.len() > 0 && !undeletable.contains(name))
            ==> directory_after(listing, referenced, undeletable).to_set() == referenced.to_set(),
{
    let kept = kept_under(referenced, undeletable);
    let stale = stale_under(referenced);
    assert forall|name: Seq<char>|
        directory_after(listing, referenced, undeletable).contains(name) <==> listing.contains(name)
            && (!is_stale(name, referenced) || undeletable.contains(name)) by {
        lemma_filter_contains(listing, kept, name);
    }
    assert forall|name: Seq<char>|
        stale_entries(listing, referenced).contains(name) <==> listing.contains(name) && is_stale(
            name,
            referenced,
        ) by {
        lemma_filter_contains(listing, stale, name);
    }
    if (forall|name: Seq<char>| referenced.contains(name) ==> listing.contains(name)) && (forall|
        name: Seq<char>,
    |
        listing.contains(name) ==> name.len() > 0 && !undeletable.contains(name)) {
        assert(directory_after(listing, referenced, undeletable).to_set() =~= referenced.to_set());
    }
}

proof fn lemma_filter_contains(
    items: Seq<Seq<char>>,
    test: spec_fn(Seq<char>) -> bool,
    name: Seq<char>,
)
    ensures
        items.filter(test).contains(name) <==> items.contains(name) && test(name),
{
    if items.filter(test).contains(name) {
        items.lemma_filter_contains_rev(test, name);
        let k = choose|k: int| 0 <= k < items.filter(test).len() && items.filter(test)[k] == name;
        items.lemma_filter_pred(test, k);
    }
    if items.contains(name) && test(name) {
        let k = choose|k: int| 0 <= k < items.len() && items[k] == name;
        items.lemma_filter_contains(test, k);
    }
}

} // verus!
