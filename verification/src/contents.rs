//! The snapshot itself, and the insertion of paths into it.
//!
//! A path is a sequence of names, one for each directory on the way and one
//! for the entry itself. Each string of a path is taken as one name, whatever
//! it holds: paths are split into names before they come here, and nothing
//! here splits or joins a name. So a snapshot built from names without a
//! separator holds no other names (`law_names_kept`).

use crate::document::{
    encodes, entries_of, fields_view, node_of, tree_of, Doc, Document, DocumentError, Field,
};
use crate::file_hash::FileHash;
use crate::laws::law_document_round_trip;
use crate::model::{chain, empty_directory, inserted, lookup, Node};
use vstd::prelude::*;

verus! {

/// One entry of a directory: a file, or a directory with its own entries.
pub enum FsItem {
    File(FileHash),
    Directory(Contents),
}

/// A name and what stands at it.
struct Entry {
    name: String,
    item: FsItem,
}

/// The entries of one directory, each under a name of its own. The root of
/// a snapshot is one, and so is every directory below it.
pub struct Contents {
    items: Vec<Entry>,
}

/// Some entry of `items` has the name `name`.
spec fn holds(items: Seq<Entry>, name: Seq<char>) -> bool {
    exists|i: int| 0 <= i < items.len() && (#[trigger] items[i]).name@ == name
}

/// The place of an entry of `items` with the name `name`.
spec fn place(items: Seq<Entry>, name: Seq<char>) -> int {
    choose|i: int| 0 <= i < items.len() && (#[trigger] items[i]).name@ == name
}

/// No two entries of `items` share a name.
spec fn distinct(items: Seq<Entry>) -> bool {
    forall|i: int, j: int|
        0 <= i < j < items.len() ==> (#[trigger] items[i]).name@ != (#[trigger] items[j]).name@
}

/// The map that the entries `items` stand for.
spec fn mapped(items: Seq<Entry>) -> Map<Seq<char>, Node>
    decreases items,
{
    Map::new(
        |name: Seq<char>| holds(items, name),
        |name: Seq<char>|
            if holds(items, name) {
                items[place(items, name)].item.view()
            } else {
                arbitrary()
            },
    )
}

/// The names that the strings of `path` spell, in their order.
pub open spec fn names(path: Seq<String>) -> Seq<Seq<char>> {
    Seq::new(path.len(), |i: int| path[i]@)
}

/// Among distinct names, each entry is what the map gives at its name.
proof fn lemma_mapped_at(items: Seq<Entry>, i: int)
    requires
        distinct(items),
        0 <= i < items.len(),
    ensures
        mapped(items).contains_key(items[i].name@),
        mapped(items)[items[i].name@] == items[i].item@,
{
    let name = items[i].name@;
    assert(holds(items, name));
    let j = place(items, name);
    assert(items[j].name@ == name);
    assert(i == j);
}

/// Putting `entry` in the place of an entry with the same name is an
/// insertion at that name.
proof fn lemma_mapped_update(items: Seq<Entry>, i: int, entry: Entry)
    requires
        distinct(items),
        0 <= i < items.len(),
        entry.name@ == items[i].name@,
    ensures
        distinct(items.update(i, entry)),
        mapped(items.update(i, entry)) == mapped(items).insert(entry.name@, entry.item@),
{
    let after = items.update(i, entry);
    assert(distinct(after)) by {
        assert forall|a: int, b: int| 0 <= a < b < after.len() implies (#[trigger] after[a]).name@
            != (#[trigger] after[b]).name@ by {
            assert(after[a].name@ == items[a].name@);
            assert(after[b].name@ == items[b].name@);
        }
    }
    let want = mapped(items).insert(entry.name@, entry.item@);
    assert forall|name: Seq<char>| mapped(after).contains_key(name) <==> want.contains_key(
        name,
    ) by {
        if holds(after, name) {
            let j = place(after, name);
            assert(items[j].name@ == name);
        }
        if holds(items, name) {
            let j = place(items, name);
            assert(after[j].name@ == name);
        }
        assert(after[i].name@ == entry.name@);
    }
    assert forall|name: Seq<char>| mapped(after).contains_key(name) implies mapped(after)[name]
        == want[name] by {
        let j = place(after, name);
        lemma_mapped_at(after, j);
        if j != i {
            assert(items[j] == after[j]);
            lemma_mapped_at(items, j);
        }
    }
    assert(mapped(after) =~= want);
}

/// Adding an entry under a name that is not there yet is an insertion at
/// that name.
proof fn lemma_mapped_push(items: Seq<Entry>, entry: Entry)
    requires
        distinct(items),
        !holds(items, entry.name@),
    ensures
        distinct(items.push(entry)),
        mapped(items.push(entry)) == mapped(items).insert(entry.name@, entry.item@),
{
    let after = items.push(entry);
    assert(distinct(after)) by {
        assert forall|a: int, b: int| 0 <= a < b < after.len() implies (#[trigger] after[a]).name@
            != (#[trigger] after[b]).name@ by {
            assert(after[a] == items[a]);
            if b < items.len() {
                assert(after[b] == items[b]);
            }
        }
    }
    let want = mapped(items).insert(entry.name@, entry.item@);
    let last = items.len() as int;
    assert(after[last] == entry);
    assert forall|name: Seq<char>| mapped(after).contains_key(name) <==> want.contains_key(
        name,
    ) by {
        if holds(after, name) {
            let j = place(after, name);
            if j < last {
                assert(items[j].name@ == name);
            }
        }
        if holds(items, name) {
            let j = place(items, name);
            assert(after[j].name@ == name);
        }
    }
    assert forall|name: Seq<char>| mapped(after).contains_key(name) implies mapped(after)[name]
        == want[name] by {
        let j = place(after, name);
        lemma_mapped_at(after, j);
        if j < last {
            assert(items[j] == after[j]);
            lemma_mapped_at(items, j);
        }
    }
    assert(mapped(after) =~= want);
}

/// The place of the entry of `items` with the name `name`, if there is one.
fn position(items: &Vec<Entry>, name: &String) -> (r: Option<usize>)
    ensures
        match r {
            Some(i) => i < items@.len() && items@[i as int].name@ == name@,
            None => !holds(items@, name@),
        },
{
    let mut i: usize = 0;
    while i < items.len()
        invariant
            i <= items@.len(),
            forall|j: int| 0 <= j < i ==> (#[trigger] items@[j]).name@ != name@,
        decreases items@.len() - i,
    {
        if items[i].name == *name {
            return Some(i);
        }
        i += 1;
    }
    None
}

/// Binds `item` at `name`, in the place of what stood there: at `found`, the
/// place of that name, or behind the last entry where the name is new.
fn bind(items: &mut Vec<Entry>, found: Option<usize>, name: String, item: FsItem)
    requires
        distinct(old(items)@),
        match found {
            Some(i) => i < old(items)@.len() && old(items)@[i as int].name@ == name@,
            None => !holds(old(items)@, name@),
        },
    ensures
        distinct(final(items)@),
        mapped(final(items)@) == mapped(old(items)@).insert(name@, item@),
{
    let entry = Entry { name, item };
    match found {
        Some(i) => {
            proof {
                lemma_mapped_update(items@, i as int, entry);
            }
            items[i] = entry;
        },
        None => {
            proof {
                lemma_mapped_push(items@, entry);
            }
            items.push(entry);
        },
    }
}

/// Once a field has no reading, the fields have none, however many follow.
proof fn lemma_fault_stays(fields: Seq<(Seq<char>, Doc)>, k: int)
    requires
        0 <= k <= fields.len(),
        entries_of(fields.take(k)) is Err,
    ensures
        entries_of(fields) == entries_of(fields.take(k)),
    decreases fields.len() - k,
{
    if k < fields.len() {
        assert(fields.drop_last().take(k) =~= fields.take(k));
        lemma_fault_stays(fields.drop_last(), k);
    } else {
        assert(fields.take(k) =~= fields);
    }
}

/// The directory that the fields of a mapping read as.
fn entries_from(fields: &Vec<Field>) -> (r: Result<Contents, DocumentError>)
    ensures
        match r {
            Ok(contents) => entries_of(fields_view(fields@)) == Ok::<
                Map<Seq<char>, Node>,
                DocumentError,
            >(contents@),
            Err(e) => entries_of(fields_view(fields@)) == Err::<
                Map<Seq<char>, Node>,
                DocumentError,
            >(e),
        },
    decreases fields,
{
    let ghost all = fields_view(fields@);
    let mut items: Vec<Entry> = Vec::new();
    let mut i: usize = 0;
    assert(all.take(0) =~= Seq::empty());
    assert(mapped(items@) =~= Map::<Seq<char>, Node>::empty());
    while i < fields.len()
        invariant
            i <= fields@.len(),
            all == fields_view(fields@),
            distinct(items@),
            entries_of(all.take(i as int)) == Ok::<Map<Seq<char>, Node>, DocumentError>(
                mapped(items@),
            ),
        decreases fields@.len() - i,
    {
        let field = &fields[i];
        proof {
            let next = all.take(i + 1);
            assert(next.drop_last() =~= all.take(i as int));
            assert(next.last() == field@);
        }
        match FsItem::from_document(&field.value) {
            Err(e) => {
                proof {
                    lemma_fault_stays(all, i + 1);
                }
                return Err(e);
            },
            Ok(item) => {
                let found = position(&items, &field.name);
                bind(&mut items, found, field.name.clone(), item);
            },
        }
        i += 1;
    }
    assert(all.take(i as int) =~= all);
    Ok(Contents { items })
}

impl Default for Contents {
    /// A directory without entries.
    fn default() -> (r: Contents)
        ensures
            r@ == Map::<Seq<char>, Node>::empty(),
    {
        let r = Contents { items: Vec::new() };
        assert(r@ =~= Map::<Seq<char>, Node>::empty());
        r
    }
}

impl FsItem {
    /// The node that this entry stands for.
    pub open spec fn view(&self) -> Node
        decreases self,
    {
        match self {
            FsItem::File(hash) => Node::File(hash@),
            FsItem::Directory(contents) => Node::Directory(contents.view()),
        }
    }

    /// `item` below one fresh directory for each name of `path`, the first
    /// name outermost.
    pub fn create(path: &[String], item: FsItem) -> (r: FsItem)
        ensures
            r@ == chain(names(path@), item@),
    {
        let ghost all = names(path@);
        let ghost payload = item@;
        let mut new = item;
        let mut i: usize = path.len();
        assert(all.subrange(i as int, all.len() as int) =~= Seq::empty());
        while i > 0
            invariant
                i <= path@.len(),
                all == names(path@),
                new@ == chain(all.subrange(i as int, all.len() as int), payload),
            decreases i,
        {
            i -= 1;
            let mut items: Vec<Entry> = Vec::new();
            assert(mapped(items@) =~= Map::<Seq<char>, Node>::empty());
            bind(&mut items, None, path[i].clone(), new);
            let new2 = Contents { items };
            new = FsItem::Directory(new2);
            proof {
                let tail = all.subrange(i as int, all.len() as int);
                assert(tail.drop_first() =~= all.subrange(i + 1, all.len() as int));
                assert(tail[0] == path@[i as int]@);
            }
        }
        assert(all.subrange(0, all.len() as int) =~= all);
        new
    }

    /// The document of this entry: the hexadecimal digits of a file's
    /// digest, or the mapping of a directory's entries. It reads back as
    /// this entry.
    pub fn to_document(&self) -> (doc: Document)
        ensures
            encodes(doc@, self@),
            node_of(doc@) == Ok::<Node, DocumentError>(self@),
        decreases self,
    {
        let doc = match self {
            FsItem::File(hash) => Document::Scalar(hash.to_hex()),
            FsItem::Directory(contents) => contents.to_document(),
        };
        proof {
            law_document_round_trip(doc@, self@);
        }
        doc
    }

    /// The entry that `doc` reads as: a file for a text of hexadecimal
    /// digits, a directory for a mapping whose fields all read as entries.
    pub fn from_document(doc: &Document) -> (r: Result<FsItem, DocumentError>)
        ensures
            match r {
                Ok(item) => node_of(doc@) == Ok::<Node, DocumentError>(item@),
                Err(e) => node_of(doc@) == Err::<Node, DocumentError>(e),
            },
        decreases doc,
    {
        match doc {
            Document::Scalar(text) => match FileHash::from_hex(text.as_str()) {
                Ok(hash) => Ok(FsItem::File(hash)),
                Err(e) => Err(DocumentError::InvalidDigest(e)),
            },
            Document::Mapping(fields) => match entries_from(fields) {
                Ok(contents) => Ok(FsItem::Directory(contents)),
                Err(e) => Err(e),
            },
            Document::Other => Err(DocumentError::UnexpectedShape),
        }
    }

    /// The digest, where this is a file.
    pub fn as_file(&self) -> (r: Option<&FileHash>)
        ensures
            match r {
                Some(hash) => self@ == Node::File(hash@),
                None => self@ is Directory,
            },
    {
        if let FsItem::File(file) = self {
            Some(file)
        } else {
            None
        }
    }

    /// The digest, to be changed in place, where this is a file.
    pub fn as_file_mut(&mut self) -> (r: Option<&mut FileHash>)
        ensures
            match r {
                Some(hash) => {
                    &&& old(self)@ == Node::File(hash@)
                    &&& final(self)@ == Node::File(final(hash)@)
                },
                None => old(self)@ is Directory && *final(self) == *old(self),
            },
        no_unwind
    {
        if let FsItem::File(file) = self {
            Some(file)
        } else {
            None
        }
    }

    /// The entries, where this is a directory.
    pub fn as_directory(&self) -> (r: Option<&Contents>)
        ensures
            match r {
                Some(contents) => self@ == Node::Directory(contents@),
                None => self@ is File,
            },
    {
        if let FsItem::Directory(contents) = self {
            Some(contents)
        } else {
            None
        }
    }

    /// The entries, to be changed in place, where this is a directory.
    pub fn as_directory_mut(&mut self) -> (r: Option<&mut Contents>)
        ensures
            match r {
                Some(contents) => {
                    &&& old(self)@ == Node::Directory(contents@)
                    &&& final(self)@ == Node::Directory(final(contents)@)
                },
                None => old(self)@ is File && *final(self) == *old(self),
            },
        no_unwind
    {
        if let FsItem::Directory(contents) = self {
            Some(contents)
        } else {
            None
        }
    }
}

impl Contents {
    /// The map that this directory stands for: each of its names with the
    /// node of what stands at it.
    pub closed spec fn view(&self) -> Map<Seq<char>, Node>
        decreases self,
    {
        mapped(self.items@)
    }

    /// No name stands twice in a directory.
    #[verifier::type_invariant]
    spec fn inv(&self) -> bool {
        distinct(self.items@)
    }

    /// Inserts `item` at `path`; an empty path changes nothing.
    ///
    /// At the last name a directory gives way to whatever stands there
    /// already, and a file takes the place of anything, a directory with all
    /// its entries too. A name before the last that is a directory keeps its
    /// entries and takes the rest of the path; one that is missing, or a
    /// file, is bound anew to a chain of fresh directories that ends in
    /// `item`.
    pub fn add_item(&mut self, path: &[String], item: FsItem)
        ensures
            final(self)@ == inserted(old(self)@, names(path@), item@),
        decreases path@.len(),
    {
        proof {
            use_type_invariant(&*self);
        }
        if path.len() == 0 {
            return ;
        }
        // The entries leave `self` while they change: what `self` holds has
        // no name twice at any moment.
        let mut items: Vec<Entry> = Vec::new();
        std::mem::swap(&mut self.items, &mut items);
        let ghost before = items@;
        let found = position(&items, &path[0]);
        proof {
            if let Some(i) = found {
                lemma_mapped_at(before, i as int);
            }
        }
        if path.len() > 1 {
            let without_base = vstd::slice::slice_subrange(path, 1, path.len());
            assert(names(without_base@) =~= names(path@).drop_first());
            let dir = match found {
                Some(i) => items[i].item.as_directory_mut(),
                None => None,
            };
            if let Some(dir) = dir {
                dir.add_item(without_base, item);
                proof {
                    let i = found.unwrap() as int;
                    lemma_mapped_update(before, i, items@[i]);
                }
            } else {
                assert(items@ =~= before);
                bind(&mut items, found, path[0].clone(), FsItem::create(without_base, item));
            }
        } else if !(item.as_directory().is_some() && found.is_some()) {
            bind(&mut items, found, path[0].clone(), item);
        }
        std::mem::swap(&mut self.items, &mut items);
    }

    /// Inserts the digest `hash` of a file at `path`, in the place of whatever
    /// stands there. Directories are made for the names before the last
    /// where they are missing; an empty path changes nothing.
    pub fn add_file(&mut self, path: &[String], hash: FileHash)
        ensures
            final(self)@ == inserted(old(self)@, names(path@), Node::File(hash@)),
    {
        self.add_item(path, FsItem::File(hash));
    }

    /// Inserts an empty directory at `path`, unless something stands there
    /// already, be it a file: a directory that the walk meets after its
    /// entries loses none of them. An empty path changes nothing.
    pub fn add_dir(&mut self, path: &[String])
        ensures
            final(self)@ == inserted(old(self)@, names(path@), empty_directory()),
    {
        self.add_item(path, FsItem::Directory(Contents::default()));
    }

    /// The document of this directory: a mapping with one field for each
    /// entry, under its name. It reads back as this directory.
    pub fn to_document(&self) -> (doc: Document)
        ensures
            encodes(doc@, Node::Directory(self@)),
            tree_of(doc@) == Ok::<Map<Seq<char>, Node>, DocumentError>(self@),
        decreases self,
    {
        proof {
            use_type_invariant(self);
        }
        let mut fields: Vec<Field> = Vec::new();
        let mut i: usize = 0;
        while i < self.items.len()
            invariant
                i <= self.items@.len(),
                fields@.len() == i,
                forall|j: int|
                    0 <= j < i ==> (#[trigger] fields@[j]).name@ == self.items@[j].name@
                        && encodes(fields@[j].value@, self.items@[j].item@),
            decreases self.items@.len() - i,
        {
            let entry = &self.items[i];
            fields.push(Field { name: entry.name.clone(), value: entry.item.to_document() });
            i += 1;
        }
        proof {
            let items = self.items@;
            let pairs = fields_view(fields@);
            assert forall|j: int| 0 <= j < pairs.len() implies self@.contains_key(
                (#[trigger] pairs[j]).0,
            ) && encodes(pairs[j].1, self@[pairs[j].0]) by {
                assert(pairs[j] == fields@[j]@);
                lemma_mapped_at(items, j);
            }
            assert forall|a: int, b: int| 0 <= a < b < pairs.len() implies (#[trigger] pairs[a]).0
                != (#[trigger] pairs[b]).0 by {
                assert(pairs[a] == fields@[a]@);
                assert(pairs[b] == fields@[b]@);
                assert(items[a].name@ != items[b].name@);
            }
            assert forall|name: Seq<char>| self@.contains_key(name) implies exists|j: int|
                0 <= j < pairs.len() && (#[trigger] pairs[j]).0 == name by {
                let j = place(items, name);
                assert(pairs[j] == fields@[j]@);
            }
            let doc = Doc::Mapping(pairs);
            assert(doc->Mapping_0 == pairs);
            assert(encodes(doc, Node::Directory(self@)));
            law_document_round_trip(doc, Node::Directory(self@));
        }
        Document::Mapping(fields)
    }

    /// The snapshot that `doc` reads as: `doc` is a mapping, and each of its
    /// fields reads as an entry.
    pub fn from_document(doc: &Document) -> (r: Result<Contents, DocumentError>)
        ensures
            match r {
                Ok(contents) => tree_of(doc@) == Ok::<Map<Seq<char>, Node>, DocumentError>(
                    contents@,
                ),
                Err(e) => tree_of(doc@) == Err::<Map<Seq<char>, Node>, DocumentError>(e),
            },
    {
        match doc {
            Document::Mapping(fields) => entries_from(fields),
            _ => Err(DocumentError::UnexpectedShape),
        }
    }

    /// What stands at the name `name` in this directory.
    pub fn get(&self, name: &String) -> (r: Option<&FsItem>)
        ensures
            match r {
                Some(item) => self@.contains_key(name@) && item@ == self@[name@],
                None => !self@.contains_key(name@),
            },
    {
        proof {
            use_type_invariant(self);
        }
        match position(&self.items, name) {
            Some(i) => {
                proof {
                    lemma_mapped_at(self.items@, i as int);
                }
                Some(&self.items[i].item)
            },
            None => None,
        }
    }

    /// What stands at `path`, each name taken inside the directory that the
    /// names before it lead to.
    pub fn find(&self, path: &[String]) -> (r: Option<&FsItem>)
        ensures
            match r {
                Some(item) => lookup(self@, names(path@)) == Some(item@),
                None => lookup(self@, names(path@)) is None,
            },
        decreases path@.len(),
    {
        if path.len() == 0 {
            return None;
        }
        match self.get(&path[0]) {
            None => None,
            Some(item) => {
                if path.len() == 1 {
                    Some(item)
                } else {
                    let rest = vstd::slice::slice_subrange(path, 1, path.len());
                    assert(names(rest@) =~= names(path@).drop_first());
                    match item.as_directory() {
                        Some(dir) => dir.find(rest),
                        None => None,
                    }
                }
            },
        }
    }

    /// The names of this directory, each once.
    pub fn names(&self) -> (r: Vec<String>)
        ensures
            forall|i: int| 0 <= i < r@.len() ==> self@.contains_key(#[trigger] r@[i]@),
            forall|name: Seq<char>|
                self@.contains_key(name) ==> exists|i: int|
                    0 <= i < r@.len() && (#[trigger] r@[i])@ == name,
            forall|i: int, j: int|
                0 <= i < j < r@.len() ==> (#[trigger] r@[i])@ != (#[trigger] r@[j])@,
    {
        proof {
            use_type_invariant(self);
        }
        let mut r: Vec<String> = Vec::new();
        let mut i: usize = 0;
        while i < self.items.len()
            invariant
                i <= self.items@.len(),
                r@.len() == i,
                forall|j: int| 0 <= j < i ==> (#[trigger] r@[j])@ == self.items@[j].name@,
            decreases self.items@.len() - i,
        {
            r.push(self.items[i].name.clone());
            i += 1;
        }
        proof {
            assert forall|name: Seq<char>| self@.contains_key(name) implies exists|i: int|
                0 <= i < r@.len() && (#[trigger] r@[i])@ == name by {
                let j = place(self.items@, name);
                assert(r@[j]@ == name);
            }
            assert forall|i: int| 0 <= i < r@.len() implies self@.contains_key(
                #[trigger] r@[i]@,
            ) by {
                lemma_mapped_at(self.items@, i);
            }
        }
        r
    }
}

} // verus!
