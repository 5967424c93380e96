//! The printed list: one name to a line.

use vstd::prelude::*;
use crate::names::views;
use crate::order::{lemma_ascending_distinct, strictly_ascending};

verus! {

/// The byte that ends each line of the output.
pub const NEWLINE: u8 = 0x0a;

/// The output for a list of names: each name as it is, followed by a newline.
pub open spec fn rendered(names: Seq<Seq<u8>>) -> Seq<u8> {
    names.map_values(|name: Seq<u8>| name.push(NEWLINE)).flatten()
}

/// The number of bytes of `bytes` that stand before its first newline; all of
/// them where it holds none.
pub open spec fn first_line_len(bytes: Seq<u8>) -> int
    decreases bytes.len(),
{
    if bytes.len() == 0 || bytes[0] == NEWLINE {
        0
    } else {
        1 + first_line_len(bytes.drop_first())
    }
}

/// The lines of `bytes`: what stands before the first newline, then the lines
/// of what follows that newline. Bytes after the last newline are no line.
pub open spec fn lines(bytes: Seq<u8>) -> Seq<Seq<u8>>
    decreases bytes.len(),
{
    let end = first_line_len(bytes);
    if 0 <= end < bytes.len() {
        seq![bytes.take(end)] + lines(bytes.skip(end + 1))
    } else {
        Seq::empty()
    }
}

/// Whether no name of the list holds a newline.
pub open spec fn newline_free(names: Seq<Seq<u8>>) -> bool {
    forall|i: int| 0 <= i < names.len() ==> !(#[trigger] names[i]).contains(NEWLINE)
}

/// One more name at the end of the list is one more line at the end of the
/// output.
pub proof fn lemma_rendered_push(names: Seq<Seq<u8>>, name: Seq<u8>)
    ensures
        rendered(names.push(name)) == rendered(names) + name.push(NEWLINE),
{
    let line = |name: Seq<u8>| name.push(NEWLINE);
    assert(names.push(name).map_values(line) =~= names.map_values(line).push(name.push(NEWLINE)));
    names.map_values(line).lemma_flatten_push(name.push(NEWLINE));
}

/// The output begins with the first name and its newline; the output for the
/// other names follows.
proof fn lemma_rendered_first(names: Seq<Seq<u8>>)
    requires
        names.len() > 0,
    ensures
        rendered(names) == names[0].push(NEWLINE) + rendered(names.drop_first()),
{
    let line = |name: Seq<u8>| name.push(NEWLINE);
    assert(names.map_values(line).drop_first() =~= names.drop_first().map_values(line));
}

/// A name without a newline, followed by a newline, is found again as the
/// first line.
proof fn lemma_first_line(name: Seq<u8>, rest: Seq<u8>)
    requires
        !name.contains(NEWLINE),
    ensures
        first_line_len(name.push(NEWLINE) + rest) == name.len(),
    decreases name.len(),
{
    let bytes = name.push(NEWLINE) + rest;
    if name.len() > 0 {
        let tail = name.drop_first();
        assert(!tail.contains(NEWLINE));
        assert(bytes.drop_first() =~= tail.push(NEWLINE) + rest);
        lemma_first_line(tail, rest);
    }
}

/// Where no name holds a newline, the lines of the output are the names, one
/// line for each name and in the same order.
pub proof fn lemma_lines_of_rendered(names: Seq<Seq<u8>>)
    requires
        newline_free(names),
    ensures
        lines(rendered(names)) == names,
    decreases names.len(),
{
    if names.len() > 0 {
        let name = names[0];
        let others = names.drop_first();
        let rest = rendered(others);
        let bytes = name.push(NEWLINE) + rest;
        lemma_rendered_first(names);
        lemma_first_line(name, rest);
        assert(bytes.take(name.len() as int) =~= name);
        assert(bytes.skip(name.len() as int + 1) =~= rest);
        assert(newline_free(others));
        lemma_lines_of_rendered(others);
    }
}

/// No line occurs twice in the output for names that come in strictly
/// ascending order and hold no newline.
pub proof fn lemma_output_lines_distinct(names: Seq<Seq<u8>>)
    requires
        strictly_ascending(names),
        newline_free(names),
    ensures
        lines(rendered(names)).no_duplicates(),
{
    lemma_lines_of_rendered(names);
    lemma_ascending_distinct(names);
}

/// The lines of the output come in strictly ascending order where the names
/// do and hold no newline.
pub proof fn lemma_output_lines_ascending(names: Seq<Seq<u8>>)
    requires
        strictly_ascending(names),
        newline_free(names),
    ensures
        strictly_ascending(lines(rendered(names))),
{
    lemma_lines_of_rendered(names);
}

/// Writes the names out, each followed by a newline, in the order of the
/// list. Names are written as the bytes they are.
pub fn render(names: &Vec<Vec<u8>>) -> (out: Vec<u8>)
    ensures
        out@ == rendered(views(names@)),
{
    let mut out: Vec<u8> = Vec::new();
    let mut i: usize = 0;
    while i < names.len()
        invariant
            i <= names.len(),
            out@ == rendered(views(names@.take(i as int))),
        decreases names.len() - i,
    {
        let ghost done = views(names@.take(i as int));
        out.extend_from_slice(names[i].as_slice());
        out.push(NEWLINE);
        proof {
            assert(views(names@.take(i + 1)) =~= done.push(names@[i as int]@));
            lemma_rendered_push(done, names@[i as int]@);
        }
        i += 1;
    }
    assert(names@.take(i as int) =~= names@);
    out
}

} // verus!
