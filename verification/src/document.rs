//! Documents: opaque byte contents under a header that carries the
//! document's id and its revision, used for optimistic concurrency.

use vstd::prelude::*;
use vstd::slice::slice_to_vec;

use sha2::Digest;

use crate::error::Error;

verus! {

/// The SHA-256 digest of a byte string, as the outside hash computes it.
pub uninterp spec fn sha256_of(bytes: Seq<u8>) -> Seq<u8>;

/// Relies on `sha2::Sha256::digest`: the 32-byte SHA-256 digest of the
/// input, a function of the input bytes alone.
#[verifier::external_body]
fn sha256(bytes: &[u8]) -> (r: Vec<u8>)
    ensures
        r@ == sha256_of(bytes@),
        r@.len() == 32,
{
    sha2::Sha256::digest(bytes).to_vec()
}

/// A document revision: how many committed writes the document has
/// seen, and the digest of its current contents.
#[derive(Debug)]
pub struct Revision {
    /// The number of committed writes, starting at 1 on insertion.
    pub count: u32,
    /// The SHA-256 digest of the current contents.
    pub sha256: Vec<u8>,
}

/// The mathematical value of a revision.
pub struct RevisionView {
    pub count: u32,
    pub sha256: Seq<u8>,
}

impl View for Revision {
    type V = RevisionView;

    open spec fn view(&self) -> RevisionView {
        RevisionView { count: self.count, sha256: self.sha256@ }
    }
}

/// The revision a freshly inserted document with `contents` carries.
pub open spec fn first_revision(contents: Seq<u8>) -> RevisionView {
    RevisionView { count: 1, sha256: sha256_of(contents) }
}

/// The revision that follows `current` after a committed write of
/// `contents`.
pub open spec fn next_revision(current: RevisionView, contents: Seq<u8>) -> RevisionView {
    RevisionView { count: (current.count + 1) as u32, sha256: sha256_of(contents) }
}

impl Revision {
    /// The revision of a newly inserted document: one write, the digest
    /// of the initial contents.
    pub fn new(contents: &[u8]) -> (r: Self)
        ensures
            r@ == first_revision(contents@),
    {
        Revision { count: 1, sha256: sha256(contents) }
    }

    /// The revision after one more committed write; fails only when the
    /// write counter can no longer be incremented.
    pub fn next(&self, contents: &[u8]) -> (r: Result<Self, Error>)
        ensures
            match r {
                Ok(rev) => self@.count < u32::MAX && rev@ == next_revision(self@, contents@),
                Err(e) => self@.count == u32::MAX && e is Internal,
            },
    {
        if self.count == u32::MAX {
            return Err(Error::Internal);
        }
        Ok(Revision { count: self.count + 1, sha256: sha256(contents) })
    }

    /// Whether two revisions agree on both the write counter and the
    /// contents digest.
    pub fn matches(&self, other: &Revision) -> (r: bool)
        ensures
            r == (self@ == other@),
    {
        let r = self.count == other.count && bytes_equal(&self.sha256, &other.sha256);
        if r {
            assert(self@ == other@);
        } else {
            assert(self@ != other@);
        }
        r
    }

    /// An identical copy of this revision.
    pub fn duplicate(&self) -> (r: Self)
        ensures
            r@ == self@,
    {
        Revision { count: self.count, sha256: slice_to_vec(self.sha256.as_slice()) }
    }
}

/// Whether two byte strings hold the same bytes.
pub fn bytes_equal(a: &Vec<u8>, b: &Vec<u8>) -> (r: bool)
    ensures
        r == (a@ == b@),
{
    if a.len() != b.len() {
        return false;
    }
    let mut i: usize = 0;
    while i < a.len()
        invariant
            0 <= i <= a.len(),
            a.len() == b.len(),
            forall|j: int| 0 <= j < i ==> a[j] == b[j],
        decreases a.len() - i,
    {
        if a[i] != b[i] {
            return false;
        }
        i += 1;
    }
    assert(a@ =~= b@);
    true
}

/// A document's header: its id and current revision.
#[derive(Debug)]
pub struct Header {
    /// The document's id, unique within its collection.
    pub id: u64,
    /// The document's current revision.
    pub revision: Revision,
}

/// The mathematical value of a header.
pub struct HeaderView {
    pub id: u64,
    pub revision: RevisionView,
}

impl View for Header {
    type V = HeaderView;

    open spec fn view(&self) -> HeaderView {
        HeaderView { id: self.id, revision: self.revision@ }
    }
}

impl Header {
    /// An identical copy of this header.
    pub fn duplicate(&self) -> (r: Self)
        ensures
            r@ == self@,
    {
        Header { id: self.id, revision: self.revision.duplicate() }
    }
}

/// A document read out of a collection: its header and its contents.
#[derive(Debug)]
pub struct OwnedDocument {
    /// The document's header.
    pub header: Header,
    /// The document's contents, opaque to the engine.
    pub contents: Vec<u8>,
}

/// The mathematical value of a document.
pub struct DocumentView {
    pub header: HeaderView,
    pub contents: Seq<u8>,
}

impl View for OwnedDocument {
    type V = DocumentView;

    open spec fn view(&self) -> DocumentView {
        DocumentView { header: self.header@, contents: self.contents@ }
    }
}

impl OwnedDocument {
    /// An identical copy of this document.
    pub fn duplicate(&self) -> (r: Self)
        ensures
            r@ == self@,
    {
        OwnedDocument {
            header: self.header.duplicate(),
            contents: slice_to_vec(self.contents.as_slice()),
        }
    }
}

} // verus!
