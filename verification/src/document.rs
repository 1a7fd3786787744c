//! The nested document that a snapshot is written as and read from.
//!
//! A document carries no mark that tells a file from a directory: a file is
//! a text, the hexadecimal digits of its digest, and a directory is a mapping
//! from the names of its entries to their documents. Reading goes by shape.

use crate::hex_codec::{encoded, read, DecodeError};
use crate::model::Node;
use vstd::prelude::*;
use vstd::utf8::encode_utf8;

verus! {

/// One entry of a mapping: a key and the document under it.
pub struct Field {
    pub name: String,
    pub value: Document,
}

/// A document: a text, a mapping, or anything else that a notation may hold
/// (a number, a list, nothing).
pub enum Document {
    Scalar(String),
    Mapping(Vec<Field>),
    Other,
}

/// The mathematical model of a document.
pub enum Doc {
    Scalar(Seq<char>),
    Mapping(Seq<(Seq<char>, Doc)>),
    Other,
}

/// Why a document is not the document of any snapshot.
#[derive(Clone, Copy, Debug, PartialEq, Eq, Structural)]
pub enum DocumentError {
    /// A text is not the hexadecimal form of a digest.
    InvalidDigest(DecodeError),
    /// A value is neither a text nor a mapping, or the whole document is no
    /// mapping.
    UnexpectedShape,
}

impl Field {
    pub open spec fn view(&self) -> (Seq<char>, Doc)
        decreases self,
    {
        (self.name@, self.value.view())
    }
}

impl Document {
    pub open spec fn view(&self) -> Doc
        decreases self,
    {
        match self {
            Document::Scalar(text) => Doc::Scalar(text@),
            Document::Mapping(fields) => Doc::Mapping(fields_view(fields@)),
            Document::Other => Doc::Other,
        }
    }
}

/// The models of the fields `fields`, in their order.
pub open spec fn fields_view(fields: Seq<Field>) -> Seq<(Seq<char>, Doc)>
    decreases fields,
{
    Seq::new(
        fields.len(),
        |i: int|
            if 0 <= i < fields.len() {
                fields[i].view()
            } else {
                arbitrary()
            },
    )
}

/// What a document reads as. A text is tried as the digest of a file, and
/// its fault is told where it is none; a mapping is a directory; anything
/// else has no reading.
pub open spec fn node_of(doc: Doc) -> Result<Node, DocumentError>
    decreases doc,
{
    match doc {
        Doc::Scalar(text) => match read(encode_utf8(text)) {
            Ok(digest) => Ok(Node::File(digest)),
            Err(e) => Err(DocumentError::InvalidDigest(e)),
        },
        Doc::Mapping(fields) => match entries_of(fields) {
            Ok(entries) => Ok(Node::Directory(entries)),
            Err(e) => Err(e),
        },
        Doc::Other => Err(DocumentError::UnexpectedShape),
    }
}

/// What the fields of a mapping read as: each name with the reading of its
/// document, a later field taking the place of an earlier one of the same
/// name. The first field without a reading gives the fault.
pub open spec fn entries_of(fields: Seq<(Seq<char>, Doc)>) -> Result<
    Map<Seq<char>, Node>,
    DocumentError,
>
    decreases fields,
{
    if fields.len() == 0 {
        Ok(Map::empty())
    } else {
        match entries_of(fields.drop_last()) {
            Err(e) => Err(e),
            Ok(entries) => match node_of(fields.last().1) {
                Err(e) => Err(e),
                Ok(node) => Ok(entries.insert(fields.last().0, node)),
            },
        }
    }
}

/// What a whole document reads as: the entries of the root, which is a
/// mapping.
pub open spec fn tree_of(doc: Doc) -> Result<Map<Seq<char>, Node>, DocumentError> {
    match doc {
        Doc::Mapping(fields) => entries_of(fields),
        _ => Err(DocumentError::UnexpectedShape),
    }
}

/// `doc` is a document of `node`: the lower-case digits of a file's digest,
/// or a mapping that has each name of a directory once, in any order, with a
/// document of what stands at it.
pub open spec fn encodes(doc: Doc, node: Node) -> bool
    decreases doc,
{
    match doc {
        Doc::Scalar(text) => node matches Node::File(digest) && text == encoded(digest),
        Doc::Mapping(fields) => node matches Node::Directory(entries) && {
            &&& forall|i: int|
                0 <= i < fields.len() ==> entries.contains_key((#[trigger] fields[i]).0)
                    && encodes(fields[i].1, entries[fields[i].0])
            &&& forall|i: int, j: int|
                0 <= i < j < fields.len() ==> (#[trigger] fields[i]).0 != (#[trigger] fields[j]).0
            &&& forall|name: Seq<char>|
                entries.contains_key(name) ==> exists|i: int|
                    0 <= i < fields.len() && (#[trigger] fields[i]).0 == name
        },
        Doc::Other => false,
    }
}

} // verus!
