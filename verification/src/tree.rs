//! What was read from the filesystem, as plain values.
//!
//! The library never reads a file or lists a directory. Its caller does,
//! and hands over what came back: for a file its content, for a directory
//! its entries, each with what was read under it in turn.

use crate::text::str_eq;
use vstd::prelude::*;

verus! {

/// What stands at a path.
pub enum Node {
    /// A regular file, with its content as text. `None` where the content
    /// could not be read, or is no text.
    File(Option<String>),
    /// A directory, with its entries in the order in which they were
    /// listed. `None` where the directory could not be listed. An entry
    /// that could not be read is not among them.
    Directory(Option<Vec<Entry>>),
    /// Neither a regular file nor a directory, or of unknown kind.
    Other,
}

/// One entry of a directory: its name, and what stands there.
pub struct Entry {
    /// The name of the entry within its directory.
    pub name: String,
    /// What stands under that name.
    pub node: Node,
}

/// What stands under `name` among `entries`: the node of the first entry
/// of that name.
pub open spec fn lookup(entries: Seq<Entry>, name: Seq<char>) -> Option<Node>
    decreases entries.len(),
{
    if entries.len() == 0 {
        None
    } else if entries[0].name@ == name {
        Some(entries[0].node)
    } else {
        lookup(entries.drop_first(), name)
    }
}

/// Finds what stands under `name` among `entries`.
pub fn find<'a>(entries: &'a Vec<Entry>, name: &str) -> (found: Option<&'a Node>)
    ensures
        found == match lookup(entries@, name@) {
            Some(node) => Some(&node),
            None => None,
        },
{
    let mut i: usize = 0;
    assert(entries@.skip(0) =~= entries@);
    while i < entries.len()
        invariant
            i <= entries.len(),
            lookup(entries@, name@) == lookup(entries@.skip(i as int), name@),
        decreases entries.len() - i,
    {
        let ghost rest = entries@.skip(i as int);
        assert(rest.drop_first() =~= entries@.skip(i + 1));
        if str_eq(entries[i].name.as_str(), name) {
            return Some(&entries[i].node);
        }
        i += 1;
    }
    None
}

} // verus!
