//! The commands of all the directories of a `PATH`, each listed once.

use vstd::prelude::*;
use crate::entry::{command_names, find_executables, EntryView, Listing};
use crate::name_set::NameSet;
use crate::order::{lemma_ascending_distinct, strictly_ascending};
use crate::output::rendered;

verus! {

/// The listings of a list as the contracts see them, in the list's order.
pub open spec fn listing_views(listings: Seq<Listing>) -> Seq<Seq<EntryView>> {
    listings.map_values(|listing: Listing| listing@)
}

/// Whether directory `i` of `listings` holds a command called `name`.
pub open spec fn found_in(listings: Seq<Seq<EntryView>>, i: int, name: Seq<u8>) -> bool {
    0 <= i < listings.len() && command_names(listings[i]).contains(name)
}

/// The names of the commands that the directories hold between them.
pub open spec fn command_set(listings: Seq<Seq<EntryView>>) -> Set<Seq<u8>> {
    Set::new(|name: Seq<u8>| exists|i: int| found_in(listings, i, name))
}

/// Whether `list` is the list of the commands of `listings`: every name that
/// some directory holds as a command and no other, in strictly ascending
/// order and so each name once.
pub open spec fn is_command_list(list: Seq<Seq<u8>>, listings: Seq<Seq<EntryView>>) -> bool {
    strictly_ascending(list) && list.to_set() == command_set(listings)
}

/// One more directory adds the names of its commands to the set.
pub proof fn lemma_command_set_push(listings: Seq<Seq<EntryView>>, listing: Seq<EntryView>)
    ensures
        command_set(listings.push(listing)) == command_set(listings).union(
            command_names(listing).to_set(),
        ),
{
    let more = listings.push(listing);
    assert forall|name: Seq<u8>|
        command_set(more).contains(name) <==> command_set(listings).union(
            command_names(listing).to_set(),
        ).contains(name) by {
        if command_set(more).contains(name) {
            let i = choose|i: int| found_in(more, i, name);
            if i < listings.len() {
                assert(found_in(listings, i, name));
            }
        }
        if command_set(listings).contains(name) {
            let i = choose|i: int| found_in(listings, i, name);
            assert(found_in(more, i, name));
        }
        if command_names(listing).contains(name) {
            assert(found_in(more, listings.len() as int, name));
        }
    }
}

/// The set of commands depends on which directories are listed, not on their
/// order nor on how often one is listed.
pub proof fn lemma_directory_order_irrelevant(
    first: Seq<Seq<EntryView>>,
    second: Seq<Seq<EntryView>>,
)
    requires
        first.to_set() == second.to_set(),
    ensures
        command_set(first) == command_set(second),
{
    assert forall|name: Seq<u8>|
        command_set(first).contains(name) <==> command_set(second).contains(name) by {
        if command_set(first).contains(name) {
            let i = choose|i: int| found_in(first, i, name);
            assert(second.to_set().contains(first[i]));
            let j = choose|j: int| 0 <= j < second.len() && second[j] == first[i];
            assert(found_in(second, j, name));
        }
        if command_set(second).contains(name) {
            let i = choose|i: int| found_in(second, i, name);
            assert(first.to_set().contains(second[i]));
            let j = choose|j: int| 0 <= j < first.len() && first[j] == second[i];
            assert(found_in(first, j, name));
        }
    }
}

/// Directories that are all empty or unreadable give an empty list and no
/// output at all.
pub proof fn lemma_barren_path_lists_nothing(listings: Seq<Seq<EntryView>>, list: Seq<Seq<u8>>)
    requires
        forall|i: int| 0 <= i < listings.len() ==> (#[trigger] listings[i]).len() == 0,
        is_command_list(list, listings),
    ensures
        list == Seq::<Seq<u8>>::empty(),
        rendered(list) == Seq::<u8>::empty(),
{
    if list.len() > 0 {
        assert(list.to_set().contains(list[0]));
        let i = choose|i: int| found_in(listings, i, list[0]);
        listings[i].lemma_filter_len(|entry: EntryView| entry.is_command());
    }
}

/// A name that two directories both hold as a command stands in the list
/// exactly once.
pub proof fn lemma_shared_name_listed_once(
    listings: Seq<Seq<EntryView>>,
    list: Seq<Seq<u8>>,
    i: int,
    j: int,
    name: Seq<u8>,
)
    requires
        i != j,
        found_in(listings, i, name),
        found_in(listings, j, name),
        is_command_list(list, listings),
    ensures
        list.to_multiset().count(name) == 1,
{
    assert(command_set(listings).contains(name));
    lemma_ascending_distinct(list);
    list.to_multiset_ensures();
    list.lemma_multiset_has_no_duplicates();
}

/// Gathers the commands of all the directories into one set: a name is in
/// the set exactly if some directory holds a command of that name.
pub fn list_executables(listings: &Vec<Listing>) -> (set: NameSet)
    ensures
        set@ == command_set(listing_views(listings@)),
{
    let mut set = NameSet::new();
    let mut i: usize = 0;
    while i < listings.len()
        invariant
            i <= listings.len(),
            set@ == command_set(listing_views(listings@.take(i as int))),
        decreases listings.len() - i,
    {
        proof {
            let seen = listing_views(listings@.take(i as int));
            assert(listing_views(listings@.take(i + 1)) =~= seen.push(listings@[i as int]@));
            lemma_command_set_push(seen, listings@[i as int]@);
        }
        let names = find_executables(&listings[i]);
        set.extend(names);
        i += 1;
    }
    assert(listings@.take(i as int) =~= listings@);
    set
}

} // verus!
