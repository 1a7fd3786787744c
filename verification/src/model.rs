//! The mathematical model of a snapshot: a map from names to nodes,
//! and what inserting a path into such a map gives.

use vstd::prelude::*;

verus! {

/// What stands at a name: a file's digest, or a directory's own entries.
pub enum Node {
    File(Seq<u8>),
    Directory(Map<Seq<char>, Node>),
}

/// The marker of a directory that the walk has met: a directory without entries.
pub open spec fn empty_directory() -> Node {
    Node::Directory(Map::empty())
}

/// `payload` below one fresh directory for each name of `path`.
pub open spec fn chain(path: Seq<Seq<char>>, payload: Node) -> Node
    decreases path.len(),
{
    if path.len() == 0 {
        payload
    } else {
        Node::Directory(Map::empty().insert(path[0], chain(path.drop_first(), payload)))
    }
}

/// The tree that inserting `payload` at `path` makes of `tree`.
///
/// An empty path changes nothing. At the last name a directory gives way to
/// whatever stands there already, and a file takes the place of anything.
/// Before the last name, the insertion goes on below a name that is a
/// directory; a name that is missing, or a file, gets a fresh chain of
/// directories in its place.
pub open spec fn inserted(
    tree: Map<Seq<char>, Node>,
    path: Seq<Seq<char>>,
    payload: Node,
) -> Map<Seq<char>, Node>
    decreases path.len(),
{
    if path.len() == 0 {
        tree
    } else if path.len() == 1 {
        if payload is Directory && tree.contains_key(path[0]) {
            tree
        } else {
            tree.insert(path[0], payload)
        }
    } else if tree.contains_key(path[0]) && tree[path[0]] is Directory {
        tree.insert(
            path[0],
            Node::Directory(inserted(tree[path[0]]->Directory_0, path.drop_first(), payload)),
        )
    } else {
        tree.insert(path[0], chain(path.drop_first(), payload))
    }
}

/// A name of one entry: a string without the separator of paths, `/`.
pub open spec fn is_name(name: Seq<char>) -> bool {
    !name.contains('/')
}

/// Every name in `node`, at whatever depth, is the name of one entry.
pub open spec fn well_named(node: Node) -> bool
    decreases node,
{
    match node {
        Node::File(_) => true,
        Node::Directory(entries) => forall|name: Seq<char>|
            (#[trigger] entries.contains_key(name)) ==> is_name(name) && well_named(entries[name]),
    }
}

/// What `tree` holds at `path`, if every name on the way is there and all
/// but the last are directories.
pub open spec fn lookup(tree: Map<Seq<char>, Node>, path: Seq<Seq<char>>) -> Option<Node>
    decreases path.len(),
{
    if path.len() == 0 || !tree.contains_key(path[0]) {
        None
    } else if path.len() == 1 {
        Some(tree[path[0]])
    } else {
        match tree[path[0]] {
            Node::Directory(below) => lookup(below, path.drop_first()),
            Node::File(_) => None,
        }
    }
}

} // verus!
