//! Stable identifiers: collection, view and schema names, the database
//! name grammar, and the tree-file names derived from them.

use vstd::prelude::*;
use vstd::string::StringExecFns;
use vstd::string::StrSliceExecFns;
use vstd::string::StringSliceAdditionalSpecFns;

verus! {

/// A byte that is an ASCII digit or letter.
pub open spec fn is_ascii_alphanumeric_byte(b: u8) -> bool {
    (0x30 <= b <= 0x39) || (0x41 <= b <= 0x5a) || (0x61 <= b <= 0x7a)
}

/// Whether byte `b` may stand at position `i` of a database name:
/// the first byte must be alphanumeric or an underscore, later bytes
/// may also be `.` or `-`.
pub open spec fn valid_name_byte_at(b: u8, i: int) -> bool {
    is_ascii_alphanumeric_byte(b) || (i == 0 && b == 0x5f) || (i > 0 && (b == 0x2e || b == 0x2d))
}

/// The database name grammar: non-empty, at most 64 bytes, first byte
/// alphanumeric or underscore, the rest alphanumeric, `.` or `-`.
pub open spec fn valid_database_name(s: Seq<u8>) -> bool {
    &&& 1 <= s.len() <= 64
    &&& forall|i: int| 0 <= i < s.len() ==> valid_name_byte_at(#[trigger] s[i], i)
}

/// ASCII lower-case folding of one character, as a code point.
pub open spec fn fold_char(c: char) -> u32 {
    if 0x41 <= c as u32 <= 0x5a {
        (c as u32 + 0x20) as u32
    } else {
        c as u32
    }
}

/// ASCII lower-case folding of a string's code points; database names
/// are compared under this folding for uniqueness.
pub open spec fn folded(s: Seq<char>) -> Seq<u32> {
    s.map_values(|c: char| fold_char(c))
}

fn fold_char_exec(c: char) -> (r: u32)
    ensures
        r == fold_char(c),
{
    let v = c as u32;
    if 0x41 <= v && v <= 0x5a {
        v + 0x20
    } else {
        v
    }
}

/// Whether two names are the same database name, compared
/// case-insensitively as the uniqueness check demands.
pub fn names_equal_folded(a: &str, b: &str) -> (r: bool)
    ensures
        r == (folded(a@) == folded(b@)),
{
    let alen = a.unicode_len();
    let blen = b.unicode_len();
    if alen != blen {
        assert(folded(a@).len() != folded(b@).len());
        return false;
    }
    let mut i: usize = 0;
    while i < alen
        invariant
            0 <= i <= alen,
            alen == a@.len(),
            blen == b@.len(),
            alen == blen,
            forall|j: int| 0 <= j < i ==> fold_char(a@[j]) == fold_char(b@[j]),
        decreases alen - i,
    {
        if fold_char_exec(a.get_char(i)) != fold_char_exec(b.get_char(i)) {
            assert(folded(a@)[i as int] != folded(b@)[i as int]);
            return false;
        }
        i += 1;
    }
    assert(folded(a@) =~= folded(b@));
    true
}

/// Whether two strings hold the same characters.
pub fn string_equal(a: &String, b: &String) -> (r: bool)
    ensures
        r == (a@ == b@),
{
    a.eq(b)
}

/// Checks `name` against the database name grammar.
pub fn database_name_is_valid(name: &str) -> (r: bool)
    ensures
        r == valid_database_name(name.spec_bytes()),
{
    let bytes = name.as_bytes();
    if bytes.len() < 1 || bytes.len() > 64 {
        return false;
    }
    let mut i: usize = 0;
    while i < bytes.len()
        invariant
            0 <= i <= bytes.len(),
            bytes@ == name.spec_bytes(),
            forall|j: int| 0 <= j < i ==> valid_name_byte_at(#[trigger] bytes@[j], j),
        decreases bytes.len() - i,
    {
        let b = bytes[i];
        let alnum = (0x30 <= b && b <= 0x39) || (0x41 <= b && b <= 0x5a) || (0x61 <= b && b
            <= 0x7a);
        let ok = alnum || (i == 0 && b == 0x5f) || (i > 0 && (b == 0x2e || b == 0x2d));
        if !ok {
            assert(!valid_name_byte_at(bytes@[i as int], i as int));
            return false;
        }
        i += 1;
    }
    true
}

/// The stable identifier of a collection: an `(authority, name)` pair.
#[derive(Debug)]
pub struct CollectionName {
    /// The authority that defines the collection.
    pub authority: String,
    /// The collection's name within its authority.
    pub name: String,
}

/// The mathematical value of a collection name.
pub struct CollectionNameView {
    pub authority: Seq<char>,
    pub name: Seq<char>,
}

impl View for CollectionName {
    type V = CollectionNameView;

    open spec fn view(&self) -> CollectionNameView {
        CollectionNameView { authority: self.authority@, name: self.name@ }
    }
}

impl CollectionName {
    /// Creates a collection name from its two parts.
    pub fn new(authority: &str, name: &str) -> (r: Self)
        ensures
            r.authority@ == authority@,
            r.name@ == name@,
    {
        CollectionName { authority: authority.to_owned(), name: name.to_owned() }
    }

    /// An identical copy of this name.
    pub fn duplicate(&self) -> (r: Self)
        ensures
            r@ == self@,
    {
        CollectionName { authority: self.authority.clone(), name: self.name.clone() }
    }

    /// Whether two collection names denote the same collection.
    pub fn same_as(&self, other: &Self) -> (r: bool)
        ensures
            r == (self@ == other@),
    {
        let r = self.authority == other.authority && self.name == other.name;
        if r {
            assert(self@ == other@);
        } else {
            assert(self@ != other@);
        }
        r
    }
}

/// The stable identifier of a view: the collection it indexes and the
/// view's own name.
#[derive(Debug)]
pub struct ViewName {
    /// The collection the view is built over.
    pub collection: CollectionName,
    /// The view's name.
    pub name: String,
}

/// The mathematical value of a view name.
pub struct ViewNameView {
    pub collection: CollectionNameView,
    pub name: Seq<char>,
}

impl View for ViewName {
    type V = ViewNameView;

    open spec fn view(&self) -> ViewNameView {
        ViewNameView { collection: self.collection@, name: self.name@ }
    }
}

impl ViewName {
    /// Creates a view name from the collection it indexes and its name.
    pub fn new(collection: CollectionName, name: &str) -> (r: Self)
        ensures
            r.collection == collection,
            r.name@ == name@,
    {
        ViewName { collection, name: name.to_owned() }
    }

    /// An identical copy of this name.
    pub fn duplicate(&self) -> (r: Self)
        ensures
            r@ == self@,
    {
        ViewName { collection: self.collection.duplicate(), name: self.name.clone() }
    }

    /// Whether two view names denote the same view.
    pub fn same_as(&self, other: &Self) -> (r: bool)
        ensures
            r == (self@ == other@),
    {
        let r = self.collection.same_as(&other.collection) && self.name == other.name;
        if r {
            assert(self@ == other@);
        } else {
            assert(self@ != other@);
        }
        r
    }
}

/// The stable identifier of a schema: an `(authority, name)` pair.
#[derive(Debug)]
pub struct SchemaName {
    /// The authority that defines the schema.
    pub authority: String,
    /// The schema's name within its authority.
    pub name: String,
}

/// The mathematical value of a schema name.
pub struct SchemaNameView {
    pub authority: Seq<char>,
    pub name: Seq<char>,
}

impl View for SchemaName {
    type V = SchemaNameView;

    open spec fn view(&self) -> SchemaNameView {
        SchemaNameView { authority: self.authority@, name: self.name@ }
    }
}

impl SchemaName {
    /// Creates a schema name from its two parts.
    pub fn new(authority: &str, name: &str) -> (r: Self)
        ensures
            r.authority@ == authority@,
            r.name@ == name@,
    {
        SchemaName { authority: authority.to_owned(), name: name.to_owned() }
    }

    /// An identical copy of this name.
    pub fn duplicate(&self) -> (r: Self)
        ensures
            r@ == self@,
    {
        SchemaName { authority: self.authority.clone(), name: self.name.clone() }
    }

    /// Whether two schema names denote the same schema.
    pub fn same_as(&self, other: &Self) -> (r: bool)
        ensures
            r == (self@ == other@),
    {
        let r = self.authority == other.authority && self.name == other.name;
        if r {
            assert(self@ == other@);
        } else {
            assert(self@ != other@);
        }
        r
    }
}

/// The name of the tree file that stores a collection's documents.
pub open spec fn document_tree_name_spec(c: CollectionNameView) -> Seq<char> {
    "c."@ + c.authority + "."@ + c.name
}

/// The name of the tree file that stores a collection's documents.
pub fn document_tree_name(collection: &CollectionName) -> (r: String)
    ensures
        r@ == document_tree_name_spec(collection@),
{
    let mut s = "c.".to_owned();
    s.append(collection.authority.as_str());
    s.append(".");
    s.append(collection.name.as_str());
    s
}

/// The name shared by a collection's view-version markers.
pub open spec fn view_versions_tree_name_spec(c: CollectionNameView) -> Seq<char> {
    "v."@ + c.authority + "."@ + c.name + ".versions"@
}

/// The name shared by a collection's view-version markers.
pub fn view_versions_tree_name(collection: &CollectionName) -> (r: String)
    ensures
        r@ == view_versions_tree_name_spec(collection@),
{
    let mut s = "v.".to_owned();
    s.append(collection.authority.as_str());
    s.append(".");
    s.append(collection.name.as_str());
    s.append(".versions");
    s
}

/// The common stem of a view's tree-file names.
pub open spec fn view_tree_stem_spec(v: ViewNameView) -> Seq<char> {
    "v."@ + v.collection.authority + "."@ + v.collection.name + "."@ + v.name
}

fn view_tree_stem(view: &ViewName) -> (r: String)
    ensures
        r@ == view_tree_stem_spec(view@),
{
    let mut s = "v.".to_owned();
    s.append(view.collection.authority.as_str());
    s.append(".");
    s.append(view.collection.name.as_str());
    s.append(".");
    s.append(view.name.as_str());
    s
}

/// The name of the tree file that stores a view's forward index.
pub open spec fn view_entries_tree_name_spec(v: ViewNameView) -> Seq<char> {
    view_tree_stem_spec(v) + ".entries"@
}

/// The name of the tree file that stores a view's forward index.
pub fn view_entries_tree_name(view: &ViewName) -> (r: String)
    ensures
        r@ == view_entries_tree_name_spec(view@),
{
    let mut s = view_tree_stem(view);
    s.append(".entries");
    s
}

/// The name of the tree file that stores a view's per-document key sets.
pub open spec fn view_document_map_tree_name_spec(v: ViewNameView) -> Seq<char> {
    view_tree_stem_spec(v) + ".docmap"@
}

/// The name of the tree file that stores a view's per-document key sets.
pub fn view_document_map_tree_name(view: &ViewName) -> (r: String)
    ensures
        r@ == view_document_map_tree_name_spec(view@),
{
    let mut s = view_tree_stem(view);
    s.append(".docmap");
    s
}

/// The name of the tree file that stores a view's invalidated-document set.
pub open spec fn view_invalidated_docs_tree_name_spec(v: ViewNameView) -> Seq<char> {
    view_tree_stem_spec(v) + ".invalidated"@
}

/// The name of the tree file that stores a view's invalidated-document set.
pub fn view_invalidated_docs_tree_name(view: &ViewName) -> (r: String)
    ensures
        r@ == view_invalidated_docs_tree_name_spec(view@),
{
    let mut s = view_tree_stem(view);
    s.append(".invalidated");
    s
}

} // verus!
