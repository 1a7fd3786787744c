//! What holds of every digest, every text and every snapshot.

use crate::document::{encodes, entries_of, node_of, tree_of, Doc, DocumentError};
use crate::file_hash::{absorbed, byte_order, sha384};
use crate::hex_codec::{
    decoded, digit_value, encoded, encoded_byte, is_hex, leading_digits, lemma_leading_digits,
    lower_digit, pair_value, read, DecodeError,
};
use crate::model::{chain, empty_directory, inserted, is_name, lookup, well_named, Node};
use vstd::prelude::*;
use vstd::utf8::{encode_utf8, is_ascii_chars, is_ascii_chars_encode_utf8};

verus! {

/// The text of a byte string reads back as that byte string: what
/// `FileHash::to_hex` gives, `FileHash::from_hex` takes, and returns the
/// digest it came from.
pub proof fn law_hex_round_trip(data: Seq<u8>)
    ensures
        read(encode_utf8(encoded(data))) == Ok::<Seq<u8>, DecodeError>(data),
{
    let chars = encoded(data);
    assert forall|i: int| 0 <= i < chars.len() implies '\0' <= #[trigger] chars[i] <= '\u{7f}' by {
        let v = if i % 2 == 0 {
            data[i / 2] / 16
        } else {
            data[i / 2] % 16
        };
        assert(chars[i] == lower_digit(v) as char);
        assert(0x30 <= lower_digit(v) <= 0x66);
    }
    assert(is_ascii_chars(chars));
    is_ascii_chars_encode_utf8(chars);
    let text = encode_utf8(chars);
    assert forall|i: int| 0 <= i < text.len() implies text[i] == encoded_byte(data, i) by {
        assert(text[i] == chars[i] as u8);
    }
    assert forall|i: int| 0 <= i < text.len() implies (#[trigger] digit_value(text[i])) is Some by {
        assert(text[i] == encoded_byte(data, i));
    }
    lemma_leading_digits(text, text.len() as int);
    assert forall|k: int| 0 <= k < data.len() implies #[trigger] pair_value(text, k) == data[k] by {
        assert(text[2 * k] == encoded_byte(data, 2 * k));
        assert(text[2 * k + 1] == encoded_byte(data, 2 * k + 1));
        assert((2 * k) / 2 == k && (2 * k + 1) / 2 == k);
        assert((2 * k) % 2 == 0 && (2 * k + 1) % 2 == 1);
        let d = data[k];
        assert(digit_value(lower_digit(d / 16)) == Some((d / 16) as u8));
        assert(digit_value(lower_digit(d % 16)) == Some((d % 16) as u8));
        assert(16 * (d / 16) + d % 16 == d);
    }
    assert(decoded(text) =~= data);
}

/// Reading never goes wrong in another way: a text that a string can hold
/// gives bytes exactly where it is an even number of digits; of any other
/// text the fault is the odd length, or the first byte that is no digit, all
/// bytes before it being digits.
pub proof fn law_read_is_total(text: Seq<u8>)
    requires
        text.len() <= usize::MAX,
    ensures
        read(text) is Ok <==> is_hex(text),
        read(text) matches Err(DecodeError::OddLength) ==> text.len() % 2 != 0,
        read(text) matches Err(DecodeError::InvalidHexCharacter { c, index }) ==> {
            &&& text.len() % 2 == 0
            &&& index == leading_digits(text) < text.len()
            &&& c == text[index as int] as char
            &&& digit_value(text[index as int]) is None
            &&& forall|j: int| 0 <= j < index ==> (#[trigger] digit_value(text[j])) is Some
        },
{
    lemma_leading_range(text);
    if is_hex(text) {
        lemma_leading_digits(text, text.len() as int);
    }
}

/// The digits that a text begins with are digits, and what follows them is
/// none.
proof fn lemma_leading_range(text: Seq<u8>)
    ensures
        0 <= leading_digits(text) <= text.len(),
        forall|j: int| 0 <= j < leading_digits(text) ==> (#[trigger] digit_value(text[j])) is Some,
        leading_digits(text) < text.len() ==> digit_value(text[leading_digits(text)]) is None,
    decreases text.len(),
{
    if text.len() > 0 && digit_value(text[0]) is Some {
        let rest = text.drop_first();
        lemma_leading_range(rest);
        assert forall|j: int| 0 <= j < leading_digits(text) implies (#[trigger] digit_value(
            text[j],
        )) is Some by {
            if j > 0 {
                assert(text[j] == rest[j - 1]);
            }
        }
        if leading_digits(text) < text.len() {
            assert(text[leading_digits(text)] == rest[leading_digits(rest)]);
        }
    }
}

/// Inserting the same thing at the same path a second time changes nothing.
pub proof fn law_insert_twice(tree: Map<Seq<char>, Node>, path: Seq<Seq<char>>, payload: Node)
    ensures
        inserted(inserted(tree, path, payload), path, payload) == inserted(tree, path, payload),
    decreases path.len(),
{
    let once = inserted(tree, path, payload);
    if path.len() == 0 {
    } else if path.len() == 1 {
        assert(inserted(once, path, payload) =~= once);
    } else {
        let rest = path.drop_first();
        let below = if tree.contains_key(path[0]) && tree[path[0]] is Directory {
            tree[path[0]]->Directory_0
        } else {
            Map::empty()
        };
        law_insert_into_empty(rest, payload);
        law_insert_twice(below, rest, payload);
        assert(once[path[0]] == Node::Directory(inserted(below, rest, payload)));
        assert(inserted(once, path, payload) =~= once);
    }
}

/// In a snapshot without entries, a path makes one directory for each of
/// its names but the last, each inside the one before, and puts the payload
/// at the last; nothing else comes to be.
pub proof fn law_insert_into_empty(path: Seq<Seq<char>>, payload: Node)
    requires
        path.len() > 0,
    ensures
        Node::Directory(inserted(Map::empty(), path, payload)) == chain(path, payload),
{
}

/// Once a path has been inserted, what stands at it is the payload; only
/// the marker of a directory gives way to what stood there before.
pub proof fn law_lookup_inserted(tree: Map<Seq<char>, Node>, path: Seq<Seq<char>>, payload: Node)
    requires
        path.len() > 0,
    ensures
        lookup(inserted(tree, path, payload), path) == if payload is Directory && lookup(
            tree,
            path,
        ) is Some {
            lookup(tree, path)
        } else {
            Some(payload)
        },
    decreases path.len(),
{
    if path.len() > 1 {
        let rest = path.drop_first();
        let below = if tree.contains_key(path[0]) && tree[path[0]] is Directory {
            tree[path[0]]->Directory_0
        } else {
            Map::empty()
        };
        law_insert_into_empty(rest, payload);
        law_lookup_inserted(below, rest, payload);
        lemma_lookup_in_empty(rest);
    }
}

/// A snapshot without entries holds nothing at any path.
proof fn lemma_lookup_in_empty(path: Seq<Seq<char>>)
    ensures
        lookup(Map::empty(), path) is None,
{
}

/// A file takes the place of whatever stood at its path, with all that was
/// below: afterwards the file stands there, and nothing at any longer path.
pub proof fn law_file_replaces(
    tree: Map<Seq<char>, Node>,
    path: Seq<Seq<char>>,
    digest: Seq<u8>,
    deeper: Seq<Seq<char>>,
)
    requires
        path.len() > 0,
        deeper.len() > 0,
    ensures
        lookup(inserted(tree, path, Node::File(digest)), path) == Some(Node::File(digest)),
        lookup(inserted(tree, path, Node::File(digest)), path + deeper) is None,
{
    let after = inserted(tree, path, Node::File(digest));
    law_lookup_inserted(tree, path, Node::File(digest));
    lemma_lookup_below_file(after, path, deeper);
}

/// Nothing stands below a file.
proof fn lemma_lookup_below_file(
    tree: Map<Seq<char>, Node>,
    path: Seq<Seq<char>>,
    deeper: Seq<Seq<char>>,
)
    requires
        path.len() > 0,
        deeper.len() > 0,
        lookup(tree, path) is Some,
        lookup(tree, path)->Some_0 is File,
    ensures
        lookup(tree, path + deeper) is None,
    decreases path.len(),
{
    let long = path + deeper;
    assert(long[0] == path[0]);
    assert(long.drop_first() =~= path.drop_first() + deeper);
    if path.len() > 1 {
        lemma_lookup_below_file(tree[path[0]]->Directory_0, path.drop_first(), deeper);
    } else {
        assert(long.len() > 1);
    }
}

/// The marker of a directory leaves everything as it is where something
/// stands at its path already, a file or a directory with all its entries.
pub proof fn law_directory_keeps(tree: Map<Seq<char>, Node>, path: Seq<Seq<char>>, payload: Node)
    requires
        payload is Directory,
        lookup(tree, path) is Some,
    ensures
        inserted(tree, path, payload) == tree,
    decreases path.len(),
{
    if path.len() > 1 {
        let below = tree[path[0]]->Directory_0;
        law_directory_keeps(below, path.drop_first(), payload);
        assert(inserted(tree, path, payload) =~= tree);
    }
}

/// After an insertion every name of the path but the last is a directory.
pub proof fn law_prefix_is_directory(
    tree: Map<Seq<char>, Node>,
    path: Seq<Seq<char>>,
    payload: Node,
    k: int,
)
    requires
        0 < k < path.len(),
    ensures
        lookup(inserted(tree, path, payload), path.take(k)) is Some,
        lookup(inserted(tree, path, payload), path.take(k))->Some_0 is Directory,
    decreases path.len(),
{
    let rest = path.drop_first();
    let below = if tree.contains_key(path[0]) && tree[path[0]] is Directory {
        tree[path[0]]->Directory_0
    } else {
        Map::empty()
    };
    law_insert_into_empty(rest, payload);
    let prefix = path.take(k);
    assert(prefix[0] == path[0]);
    if k > 1 {
        assert(prefix.drop_first() =~= rest.take(k - 1));
        law_prefix_is_directory(below, rest, payload, k - 1);
    }
}

/// The marker of a directory that comes after something was inserted below
/// it changes nothing.
pub proof fn law_marker_after_deeper(
    tree: Map<Seq<char>, Node>,
    path: Seq<Seq<char>>,
    payload: Node,
    k: int,
)
    requires
        0 < k < path.len(),
    ensures
        inserted(inserted(tree, path, payload), path.take(k), empty_directory()) == inserted(
            tree,
            path,
            payload,
        ),
{
    law_prefix_is_directory(tree, path, payload, k);
    law_directory_keeps(inserted(tree, path, payload), path.take(k), empty_directory());
}

/// An insertion leaves alone whatever stands at a path that parts from its
/// own: two paths that differ at the place `k` and agree before it.
pub proof fn law_diverging_kept(
    tree: Map<Seq<char>, Node>,
    path: Seq<Seq<char>>,
    payload: Node,
    other: Seq<Seq<char>>,
    k: int,
)
    requires
        0 <= k < path.len(),
        k < other.len(),
        path.take(k) == other.take(k),
        path[k] != other[k],
    ensures
        lookup(inserted(tree, path, payload), other) == lookup(tree, other),
    decreases path.len(),
{
    if k > 0 {
        let rest = path.drop_first();
        let below = if tree.contains_key(path[0]) && tree[path[0]] is Directory {
            tree[path[0]]->Directory_0
        } else {
            Map::empty()
        };
        assert(path.take(k)[0] == other.take(k)[0]);
        assert(rest.take(k - 1) =~= path.take(k).drop_first());
        assert(other.drop_first().take(k - 1) =~= other.take(k).drop_first());
        law_insert_into_empty(rest, payload);
        law_diverging_kept(below, rest, payload, other.drop_first(), k - 1);
        lemma_lookup_in_empty(other.drop_first());
    }
}

/// A directory is well named where each of its names is a name and stands
/// for something well named.
pub proof fn lemma_well_named_directory(entries: Map<Seq<char>, Node>)
    ensures
        well_named(Node::Directory(entries)) <==> forall|name: Seq<char>|
            (#[trigger] entries.contains_key(name)) ==> is_name(name) && well_named(entries[name]),
{
    let node = Node::Directory(entries);
    assert(node->Directory_0 == entries);
}

/// Names stay names: where no name of the snapshot, of the path or of the
/// payload holds the separator, none does after the insertion.
pub proof fn law_names_kept(tree: Map<Seq<char>, Node>, path: Seq<Seq<char>>, payload: Node)
    requires
        well_named(Node::Directory(tree)),
        well_named(payload),
        forall|i: int| 0 <= i < path.len() ==> is_name(#[trigger] path[i]),
    ensures
        well_named(Node::Directory(inserted(tree, path, payload))),
    decreases path.len(),
{
    let after = inserted(tree, path, payload);
    lemma_well_named_directory(tree);
    lemma_well_named_directory(after);
    if path.len() > 0 {
        assert(is_name(path[0]));
        if path.len() > 1 {
            let rest = path.drop_first();
            let below = if tree.contains_key(path[0]) && tree[path[0]] is Directory {
                tree[path[0]]->Directory_0
            } else {
                Map::empty()
            };
            assert forall|i: int| 0 <= i < rest.len() implies is_name(#[trigger] rest[i]) by {
                assert(rest[i] == path[i + 1]);
            }
            lemma_well_named_directory(below);
            law_insert_into_empty(rest, payload);
            law_names_kept(below, rest, payload);
            assert(after[path[0]] == Node::Directory(inserted(below, rest, payload)));
        }
        assert forall|name: Seq<char>| #[trigger] after.contains_key(name) implies is_name(name)
            && well_named(after[name]) by {
            if name != path[0] || after == tree {
                assert(tree.contains_key(name));
            }
        }
    }
}

/// A document of a node reads back as that node: what `to_document` gives,
/// `from_document` takes, and returns the entry it came from.
pub proof fn law_document_round_trip(doc: Doc, node: Node)
    requires
        encodes(doc, node),
    ensures
        node_of(doc) == Ok::<Node, DocumentError>(node),
        node matches Node::Directory(entries) ==> tree_of(doc) == Ok::<
            Map<Seq<char>, Node>,
            DocumentError,
        >(entries),
    decreases doc, 0int,
{
    match doc {
        Doc::Scalar(text) => {
            law_hex_round_trip(node->File_0);
        },
        Doc::Mapping(fields) => {
            let entries = node->Directory_0;
            lemma_fields_read(fields, entries, fields.len() as int);
            assert(fields.take(fields.len() as int) =~= fields);
            assert(entries_upto(fields, entries, fields.len() as int) =~= entries);
        },
        Doc::Other => {},
    }
}

/// What `entries` holds at the names of the first `k` fields.
spec fn entries_upto(fields: Seq<(Seq<char>, Doc)>, entries: Map<Seq<char>, Node>, k: int) -> Map<
    Seq<char>,
    Node,
> {
    Map::new(
        |name: Seq<char>| exists|i: int| 0 <= i < k && (#[trigger] fields[i]).0 == name,
        |name: Seq<char>| entries[name],
    )
}

/// The first `k` fields of a document of a directory read as what the
/// directory holds at their names.
proof fn lemma_fields_read(fields: Seq<(Seq<char>, Doc)>, entries: Map<Seq<char>, Node>, k: int)
    requires
        0 <= k <= fields.len(),
        encodes(Doc::Mapping(fields), Node::Directory(entries)),
    ensures
        entries_of(fields.take(k)) == Ok::<Map<Seq<char>, Node>, DocumentError>(
            entries_upto(fields, entries, k),
        ),
    decreases fields, k,
{
    let doc = Doc::Mapping(fields);
    assert(doc->Mapping_0 == fields);
    if k == 0 {
        assert(fields.take(0) =~= Seq::empty());
        assert(entries_upto(fields, entries, 0) =~= Map::empty());
    } else {
        let first = fields.take(k);
        let field = fields[k - 1];
        assert(first.drop_last() =~= fields.take(k - 1));
        assert(first.last() == field);
        lemma_fields_read(fields, entries, k - 1);
        assert(entries.contains_key(field.0) && encodes(field.1, entries[field.0]));
        law_document_round_trip(field.1, entries[field.0]);
        assert(entries_upto(fields, entries, k) =~= entries_upto(fields, entries, k - 1).insert(
            field.0,
            entries[field.0],
        ));
    }
}

/// Digests are in a total order that agrees with their equality: two byte
/// strings stand level exactly where they are the same, each comes before
/// the other exactly where the other comes after it, and what comes before
/// something that comes before a third comes before the third.
pub proof fn law_byte_order(a: Seq<u8>, b: Seq<u8>, c: Seq<u8>)
    ensures
        byte_order(a, b) == 0 <==> a == b,
        byte_order(a, b) < 0 <==> byte_order(b, a) > 0,
        byte_order(a, b) <= 0 && byte_order(b, c) <= 0 ==> byte_order(a, c) <= 0,
    decreases a.len(),
{
    if a.len() == 0 || b.len() == 0 {
        if a.len() == 0 && b.len() == 0 {
            assert(a =~= b);
        }
    } else if a[0] == b[0] {
        let (x, y) = (a.drop_first(), b.drop_first());
        if c.len() > 0 && b[0] == c[0] {
            law_byte_order(x, y, c.drop_first());
        } else {
            law_byte_order(x, y, y);
        }
        if x == y {
            assert forall|i: int| 0 <= i < a.len() implies a[i] == b[i] by {
                if i > 0 {
                    assert(a[i] == x[i - 1] && b[i] == y[i - 1]);
                }
            }
            assert(a =~= b);
        }
    }
}

/// Two insertions at paths that part from each other can come in either
/// order: the paths differ at the place `k` and agree before it.
pub proof fn law_diverging_commute(
    tree: Map<Seq<char>, Node>,
    first: Seq<Seq<char>>,
    a: Node,
    second: Seq<Seq<char>>,
    b: Node,
    k: int,
)
    requires
        0 <= k < first.len(),
        k < second.len(),
        first.take(k) == second.take(k),
        first[k] != second[k],
    ensures
        inserted(inserted(tree, first, a), second, b) == inserted(
            inserted(tree, second, b),
            first,
            a,
        ),
    decreases first.len(),
{
    let one = inserted(inserted(tree, first, a), second, b);
    let other = inserted(inserted(tree, second, b), first, a);
    if k > 0 {
        let below = if tree.contains_key(first[0]) && tree[first[0]] is Directory {
            tree[first[0]]->Directory_0
        } else {
            Map::empty()
        };
        let (p, q) = (first.drop_first(), second.drop_first());
        assert(first.take(k)[0] == second.take(k)[0]);
        assert(p.take(k - 1) =~= first.take(k).drop_first());
        assert(q.take(k - 1) =~= second.take(k).drop_first());
        law_insert_into_empty(p, a);
        law_insert_into_empty(q, b);
        law_diverging_commute(below, p, a, q, b, k - 1);
        assert(inserted(tree, first, a)[first[0]] == Node::Directory(inserted(below, p, a)));
        assert(inserted(tree, second, b)[first[0]] == Node::Directory(inserted(below, q, b)));
    } else {
        if first.len() > 1 {
            law_insert_into_empty(first.drop_first(), a);
        }
        if second.len() > 1 {
            law_insert_into_empty(second.drop_first(), b);
        }
    }
    assert(one =~= other);
}

/// The marker of a directory that comes before something is inserted below
/// it makes no difference to what the snapshot then is.
pub proof fn law_marker_before_deeper(
    tree: Map<Seq<char>, Node>,
    path: Seq<Seq<char>>,
    payload: Node,
    k: int,
)
    requires
        0 < k < path.len(),
    ensures
        inserted(inserted(tree, path.take(k), empty_directory()), path, payload) == inserted(
            tree,
            path,
            payload,
        ),
    decreases path.len(),
{
    let marker = empty_directory();
    let prefix = path.take(k);
    let rest = path.drop_first();
    let below = if tree.contains_key(path[0]) && tree[path[0]] is Directory {
        tree[path[0]]->Directory_0
    } else {
        Map::empty()
    };
    let marked = inserted(tree, prefix, marker);
    assert(prefix[0] == path[0]);
    law_insert_into_empty(rest, payload);
    if k > 1 {
        assert(prefix.drop_first() =~= rest.take(k - 1));
        law_insert_into_empty(rest.take(k - 1), marker);
        law_marker_before_deeper(below, rest, payload, k - 1);
        assert(marked[path[0]] == Node::Directory(inserted(below, rest.take(k - 1), marker)));
    }
    assert(inserted(marked, path, payload) =~= inserted(tree, path, payload));
}

/// No name of the root is lost by an insertion.
pub proof fn law_nothing_removed(
    tree: Map<Seq<char>, Node>,
    path: Seq<Seq<char>>,
    payload: Node,
    name: Seq<char>,
)
    requires
        tree.contains_key(name),
    ensures
        inserted(tree, path, payload).contains_key(name),
{
}

/// The digest is a matter of the bytes alone: two hashers that have taken
/// in the same bytes give the same digest.
pub proof fn law_same_bytes_same_digest(first: sha2::Sha384, second: sha2::Sha384)
    requires
        absorbed(first) == absorbed(second),
    ensures
        sha384(absorbed(first)) == sha384(absorbed(second)),
{
}

} // verus!
