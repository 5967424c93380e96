//! Directory entries, and the rule by which an entry counts as a command.

use vstd::prelude::*;
use crate::names::views;

verus! {

/// The owner's execute permission bit.
pub const OWNER_EXEC: u32 = 0o100;

/// The group's execute permission bit.
pub const GROUP_EXEC: u32 = 0o010;

/// The execute permission bit for everybody else.
pub const OTHER_EXEC: u32 = 0o001;

/// All three execute permission bits together.
pub const ANY_EXEC: u32 = 0o111;

/// Whether at least one of the owner, group and other execute bits is set in
/// `mode`.
pub open spec fn has_exec_bit(mode: u32) -> bool {
    ||| mode & OWNER_EXEC != 0
    ||| mode & GROUP_EXEC != 0
    ||| mode & OTHER_EXEC != 0
}

/// What was learnt of one entry of a directory.
#[derive(Clone, Debug, PartialEq, Eq)]
pub struct Entry {
    /// The file name, without the directory.
    pub name: Vec<u8>,
    /// Whether the entry is a directory; `None` where its type could not be
    /// read.
    pub is_dir: Option<bool>,
    /// The permission bits; `None` where the metadata could not be read.
    pub mode: Option<u32>,
}

/// An entry as the contracts see it: the bytes of its name, and what the two
/// probes gave.
pub struct EntryView {
    /// The bytes of the file name.
    pub name: Seq<u8>,
    /// Whether the entry is a directory; `None` where its type could not be
    /// read.
    pub is_dir: Option<bool>,
    /// The permission bits; `None` where the metadata could not be read.
    pub mode: Option<u32>,
}

impl EntryView {
    /// Whether the permission bits were read and hold an execute bit.
    pub open spec fn executable(self) -> bool {
        self.mode matches Some(mode) && has_exec_bit(mode)
    }

    /// Whether the entry is listed: it is known not to be a directory, and it
    /// is executable.
    pub open spec fn is_command(self) -> bool {
        self.is_dir == Some(false) && self.executable()
    }
}

impl View for Entry {
    type V = EntryView;

    open spec fn view(&self) -> EntryView {
        EntryView { name: self.name@, is_dir: self.is_dir, mode: self.mode }
    }
}

/// What came of reading one directory.
#[derive(Clone, Debug, PartialEq, Eq)]
pub enum Listing {
    /// The directory could not be opened or read.
    Unreadable,
    /// The entries that were read, in the order in which they came.
    Entries(Vec<Entry>),
}

/// A listing is seen as the entries that the directory gave: none where it
/// was unreadable.
impl View for Listing {
    type V = Seq<EntryView>;

    open spec fn view(&self) -> Seq<EntryView> {
        match self {
            Listing::Unreadable => Seq::empty(),
            Listing::Entries(entries) => entry_views(entries@),
        }
    }
}

/// The entries of a list as the contracts see them, in the list's order.
pub open spec fn entry_views(entries: Seq<Entry>) -> Seq<EntryView> {
    entries.map_values(|entry: Entry| entry@)
}

/// The names of the commands among `entries`, in the order of the entries.
pub open spec fn command_names(entries: Seq<EntryView>) -> Seq<Seq<u8>> {
    entries.filter(|entry: EntryView| entry.is_command()).map_values(
        |entry: EntryView| entry.name,
    )
}

/// One more entry adds its name to the command names if it is a command, and
/// nothing otherwise.
pub proof fn lemma_command_names_push(entries: Seq<EntryView>, entry: EntryView)
    ensures
        command_names(entries.push(entry)) == if entry.is_command() {
            command_names(entries).push(entry.name)
        } else {
            command_names(entries)
        },
{
    broadcast use Seq::lemma_filter_push;

    if entry.is_command() {
    }
}

/// One test against the mask of all three execute bits tells whether any of
/// them is set.
pub proof fn lemma_mask_finds_any_bit(mode: u32)
    ensures
        (mode & ANY_EXEC != 0) == has_exec_bit(mode),
{
    assert((mode & 0o111 != 0) == (mode & 0o100 != 0 || mode & 0o010 != 0 || mode & 0o001 != 0))
        by (bit_vector);
}

/// The rule for a single entry. A directory is no command, whatever its
/// permission bits are. A file is a command if the mask of the three execute
/// bits finds at least one of them in its mode, and none if it finds no such
/// bit or the mode could not be read.
pub proof fn lemma_command_rule(entry: EntryView)
    ensures
        entry.is_dir == Some(true) ==> !entry.is_command(),
        entry.is_dir == Some(false) ==> (entry.is_command() <==> entry.mode is Some
            && entry.mode->0 & ANY_EXEC != 0),
{
    if let Some(mode) = entry.mode {
        lemma_mask_finds_any_bit(mode);
    }
}

/// Tells whether an entry's permission bits allow anybody to execute it. An
/// entry whose metadata could not be read is not executable.
pub fn is_executable(entry: &Entry) -> (r: bool)
    ensures
        r == entry@.executable(),
{
    match entry.mode {
        Some(mode) => {
            proof {
                lemma_mask_finds_any_bit(mode);
            }
            mode & ANY_EXEC != 0
        },
        None => false,
    }
}

/// Gives the name of an entry that is a command, and nothing for any other
/// entry: one whose type could not be read, a directory whatever its
/// permission bits, or a file without an execute bit.
pub fn executable_file_filter(entry: &Entry) -> (r: Option<Vec<u8>>)
    ensures
        match r {
            Some(name) => entry@.is_command() && name@ == entry@.name,
            None => !entry@.is_command(),
        },
{
    match entry.is_dir {
        Some(false) => {
            if is_executable(entry) {
                Some(entry.name.clone())
            } else {
                None
            }
        },
        _ => None,
    }
}

/// Picks the commands of one directory: the names of the entries that pass
/// [`executable_file_filter`], in the order of the entries. An unreadable
/// directory gives none.
pub fn find_executables(listing: &Listing) -> (names: Vec<Vec<u8>>)
    ensures
        views(names@) == command_names(listing@),
{
    let mut names: Vec<Vec<u8>> = Vec::new();
    match listing {
        Listing::Unreadable => {
        },
        Listing::Entries(entries) => {
            let mut i: usize = 0;
            while i < entries.len()
                invariant
                    i <= entries.len(),
                    views(names@) == command_names(entry_views(entries@.take(i as int))),
                decreases entries.len() - i,
            {
                proof {
                    let seen = entry_views(entries@.take(i as int));
                    assert(entry_views(entries@.take(i + 1)) =~= seen.push(entries@[i as int]@));
                    lemma_command_names_push(seen, entries@[i as int]@);
                }
                match executable_file_filter(&entries[i]) {
                    Some(name) => {
                        assert(views(names@.push(name)) =~= views(names@).push(name@));
                        names.push(name);
                    },
                    None => {},
                }
                i += 1;
            }
            assert(entries@.take(i as int) =~= entries@);
        },
    }
    names
}

} // verus!
