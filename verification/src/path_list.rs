//! The `PATH` value: a list of directories with a separator between them.

use vstd::prelude::*;
use crate::names::views;

verus! {

/// The byte that stands between two directories of a `PATH` value: a colon.
pub const SEPARATOR: u8 = 0x3a;

/// The pieces written one after another with a separator between each two.
pub open spec fn joined(pieces: Seq<Seq<u8>>) -> Seq<u8>
    decreases pieces.len(),
{
    if pieces.len() == 0 {
        Seq::empty()
    } else if pieces.len() == 1 {
        pieces[0]
    } else {
        joined(pieces.drop_last()).push(SEPARATOR) + pieces.last()
    }
}

/// Whether `pieces` are the directories of the `PATH` value `path`: there is
/// at least one piece, no piece holds a separator, and the pieces joined by
/// separators give `path` again. An empty piece stands wherever `path` begins
/// or ends with a separator or holds two in a row, and the empty `path` has
/// the one empty piece.
pub open spec fn is_split_of(pieces: Seq<Seq<u8>>, path: Seq<u8>) -> bool {
    &&& pieces.len() >= 1
    &&& forall|i: int| 0 <= i < pieces.len() ==> !(#[trigger] pieces[i]).contains(SEPARATOR)
    &&& joined(pieces) == path
}

/// Why no list of directories could be had.
#[derive(Clone, Copy, Debug, PartialEq, Eq, Structural)]
pub enum PathError {
    /// The `PATH` variable is not set.
    NotSet,
}

impl PathError {
    /// The text of the error, for the user.
    pub fn message(&self) -> (text: String)
        ensures
            text@ == "PATH not set"@,
    {
        "PATH not set".to_owned()
    }
}

/// One more byte at the end of the last piece is one more byte at the end of
/// the joined pieces.
proof fn lemma_joined_grow(pieces: Seq<Seq<u8>>, last: Seq<u8>, byte: u8)
    ensures
        joined(pieces.push(last.push(byte))) == joined(pieces.push(last)).push(byte),
{
    let shorter = pieces.push(last);
    let longer = pieces.push(last.push(byte));
    if pieces.len() > 0 {
        assert(shorter.drop_last() =~= pieces);
        assert(longer.drop_last() =~= pieces);
    }
}

/// A new, empty piece at the end is one more separator at the end of the
/// joined pieces.
proof fn lemma_joined_open(pieces: Seq<Seq<u8>>)
    requires
        pieces.len() >= 1,
    ensures
        joined(pieces.push(Seq::empty())) == joined(pieces).push(SEPARATOR),
{
    let longer = pieces.push(Seq::empty());
    assert(longer.drop_last() =~= pieces);
}

/// How a `PATH` value ends: with its last piece, and before that, where
/// there are more pieces, with a separator after the other pieces joined.
proof fn lemma_split_end(pieces: Seq<Seq<u8>>, path: Seq<u8>)
    requires
        is_split_of(pieces, path),
    ensures
        pieces.last().len() <= path.len(),
        path.skip(path.len() - pieces.last().len()) == pieces.last(),
        pieces.len() == 1 ==> path.len() == pieces.last().len(),
        pieces.len() > 1 ==> {
            let cut = path.len() - pieces.last().len() - 1;
            &&& cut >= 0
            &&& path[cut] == SEPARATOR
            &&& path.take(cut) == joined(pieces.drop_last())
        },
{
    if pieces.len() > 1 {
        assert(path == joined(pieces.drop_last()).push(SEPARATOR) + pieces.last());
    }
}

/// A `PATH` value has one list of directories only.
pub proof fn lemma_split_unique(first: Seq<Seq<u8>>, second: Seq<Seq<u8>>, path: Seq<u8>)
    requires
        is_split_of(first, path),
        is_split_of(second, path),
    ensures
        first == second,
    decreases first.len(),
{
    lemma_split_end(first, path);
    lemma_split_end(second, path);
    // Both last pieces are the end of `path` after its last separator: were
    // one of them longer, it would hold the separator before the other.
    let last = first.last();
    assert(last.len() == second.last().len());
    assert(last == second.last());
    if first.len() > 1 {
        let cut = path.len() - last.len() - 1;
        lemma_split_unique(first.drop_last(), second.drop_last(), path.take(cut));
        assert(first =~= first.drop_last().push(last));
        assert(second =~= second.drop_last().push(last));
    }
}

/// Splits a `PATH` value at each separator into its directories, in their
/// order. Empty pieces are kept as they are.
pub fn split_paths(path: &[u8]) -> (dirs: Vec<Vec<u8>>)
    ensures
        is_split_of(views(dirs@), path@),
{
    let mut dirs: Vec<Vec<u8>> = Vec::new();
    let mut piece: Vec<u8> = Vec::new();
    let mut i: usize = 0;
    while i < path.len()
        invariant
            i <= path.len(),
            forall|k: int|
                0 <= k < dirs@.len() ==> !(#[trigger] views(dirs@)[k]).contains(SEPARATOR),
            !piece@.contains(SEPARATOR),
            joined(views(dirs@).push(piece@)) == path@.take(i as int),
        decreases path.len() - i,
    {
        let byte = path[i];
        let ghost done = views(dirs@);
        if byte == SEPARATOR {
            proof {
                lemma_joined_open(done.push(piece@));
                assert(views(dirs@.push(piece)) =~= done.push(piece@));
            }
            dirs.push(piece);
            piece = Vec::new();
        } else {
            proof {
                lemma_joined_grow(done, piece@, byte);
                assert(!piece@.push(byte).contains(SEPARATOR));
            }
            piece.push(byte);
        }
        i += 1;
    }
    proof {
        assert(path@.take(i as int) =~= path@);
        assert(views(dirs@.push(piece)) =~= views(dirs@).push(piece@));
    }
    dirs.push(piece);
    dirs
}

/// Gives the directories to search for a `PATH` value, or the error for a
/// `PATH` that is not set.
pub fn search_dirs(path: Option<&[u8]>) -> (r: Result<Vec<Vec<u8>>, PathError>)
    ensures
        match r {
            Ok(dirs) => path matches Some(value) && is_split_of(views(dirs@), value@),
            Err(error) => path is None && error == PathError::NotSet,
        },
{
    match path {
        Some(value) => Ok(split_paths(value)),
        None => Err(PathError::NotSet),
    }
}

} // verus!
