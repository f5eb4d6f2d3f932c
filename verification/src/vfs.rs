//! The document store: the authoritative text and version of every open
//! document, keyed by URI, with lifecycle and version-monotonicity
//! invariants. Callers that violate them get an error back and the store is
//! left untouched.
use vstd::prelude::*;

use crate::fmt::Range;

verus! {

/// One open document: its full current text and its version.
#[derive(Debug)]
pub struct Document {
    pub text: String,
    pub version: i32,
}

/// Mathematical image of a `Document`.
#[verifier::ext_equal]
pub ghost struct DocumentV {
    pub text: Seq<char>,
    pub version: int,
}

impl View for Document {
    type V = DocumentV;

    open spec fn view(&self) -> DocumentV {
        DocumentV { text: self.text@, version: self.version as int }
    }
}

impl Document {
    pub fn new(text: String, version: i32) -> (d: Document)
        ensures
            d.text == text,
            d.version == version,
    {
        Document { text, version }
    }
}

/// One change notification. Only a full-document replacement is supported:
/// an event that carries a range is a contract violation, not a degenerate
/// case.
#[derive(Debug)]
pub struct ChangeEvent {
    pub range: Option<Range>,
    pub text: String,
}

/// Why the store refused an operation.
#[derive(Clone, Copy, Debug, PartialEq, Eq, Structural)]
pub enum VfsError {
    /// `add_doc` for a URI that is already open.
    AlreadyTracked,
    /// An operation on a URI that is not open.
    NotTracked,
    /// A change event that is not a full-document replacement.
    NotFullReplacement,
    /// A version that does not strictly increase the stored one, or a batch
    /// that would have to move the version twice.
    StaleVersion,
}

#[derive(Debug)]
struct Entry {
    uri: String,
    doc: Document,
}

/// The open-document registry.
#[derive(Debug)]
pub struct VFS {
    docs: Vec<Entry>,
}

impl VFS {
    /// At most one entry per URI.
    pub closed spec fn wf(&self) -> bool {
        forall|i: int, j: int|
            0 <= i < j < self.docs@.len() ==> (#[trigger] self.docs@[i]).uri@ != (
            #[trigger] self.docs@[j]).uri@
    }

    /// Whether a document is currently open under `uri`.
    pub closed spec fn tracks(&self, uri: Seq<char>) -> bool {
        exists|k: int| 0 <= k < self.docs@.len() && (#[trigger] self.docs@[k]).uri@ == uri
    }

    spec fn index_of(&self, uri: Seq<char>) -> int {
        choose|k: int| 0 <= k < self.docs@.len() && (#[trigger] self.docs@[k]).uri@ == uri
    }

    /// The stored document under `uri`, when one is tracked.
    pub closed spec fn doc_of(&self, uri: Seq<char>) -> DocumentV {
        self.docs@[self.index_of(uri)].doc@
    }
}

impl Default for VFS {
    /// An empty store: nothing is tracked.
    fn default() -> (v: VFS)
        ensures
            v.wf(),
            forall|u: Seq<char>| !v.tracks(u),
    {
        VFS { docs: Vec::new() }
    }
}

/// Relies on str's `==` (PartialEq::eq): true exactly when the two slices
/// hold the same text.
#[verifier::external_body]
fn str_eq(a: &str, b: &str) -> (r: bool)
    ensures
        r == (a@ == b@),
{
    a == b
}

impl VFS {
    fn find(&self, uri: &str) -> (r: Option<usize>)
        requires
            self.wf(),
        ensures
            match r {
                Some(k) => k < self.docs@.len() && self.docs@[k as int].uri@ == uri@
                    && self.tracks(uri@) && self.index_of(uri@) == k as int,
                None => !self.tracks(uri@),
            },
    {
        let mut k: usize = 0;
        while k < self.docs.len()
            invariant
                k <= self.docs@.len(),
                self.wf(),
                forall|j: int| 0 <= j < k ==> (#[trigger] self.docs@[j]).uri@ != uri@,
            decreases self.docs@.len() - k,
        {
            if str_eq(self.docs[k].uri.as_str(), uri) {
                proof {
                    assert(self.tracks(uri@));
                    let k0 = self.index_of(uri@);
                    assert(0 <= k0 < self.docs@.len() && self.docs@[k0].uri@ == uri@);
                    assert(k0 == k as int);
                }
                return Some(k);
            }
            k = k + 1;
        }
        return None;
    }

    /// Registers a newly opened document. Refused when the URI is already
    /// tracked; the rest of the store is never touched.
    pub fn add_doc(&mut self, uri: String, text: String, version: i32) -> (r: Result<
        (),
        VfsError,
    >)
        requires
            old(self).wf(),
        ensures
            final(self).wf(),
            r is Ok <==> !old(self).tracks(uri@),
            r is Err ==> *final(self) == *old(self) && r == Result::<(), VfsError>::Err(
                VfsError::AlreadyTracked,
            ),
            r is Ok ==> final(self).tracks(uri@) && final(self).doc_of(uri@) == (DocumentV {
                text: text@,
                version: version as int,
            }),
            forall|u: Seq<char>|
                u != uri@ ==> final(self).tracks(u) == old(self).tracks(u),
            forall|u: Seq<char>|
                u != uri@ && old(self).tracks(u) ==> final(self).doc_of(u) == old(self).doc_of(u),
    {
        let ghost uri_v = uri@;
        let ghost pre = *self;
        match self.find(uri.as_str()) {
            Some(_) => Err(VfsError::AlreadyTracked),
            None => {
                let ghost n = self.docs@.len();
                self.docs.push(Entry { uri, doc: Document { text, version } });
                proof {
                    assert(self.docs@.len() == n + 1);
                    assert(self.docs@[n as int].uri@ == uri_v);
                    assert(forall|j: int|
                        0 <= j < n ==> #[trigger] self.docs@[j] == pre.docs@[j]);
                    assert forall|i: int, j: int|
                        0 <= i < j < self.docs@.len() implies (#[trigger] self.docs@[i]).uri@ != (
                        #[trigger] self.docs@[j]).uri@ by {
                        if j == n as int {
                            assert(pre.docs@[i].uri@ != uri_v);
                        }
                    }
                    assert(self.tracks(uri_v));
                    let k0 = self.index_of(uri_v);
                    assert(0 <= k0 < self.docs@.len() && self.docs@[k0].uri@ == uri_v);
                    assert(k0 == n as int) by {
                        if k0 < n as int {
                            assert(pre.docs@[k0].uri@ == uri_v);
                            assert(pre.tracks(uri_v));
                        }
                    }
                    assert forall|u: Seq<char>| u != uri_v implies self.tracks(u) == pre.tracks(
                        u,
                    ) by {
                        if pre.tracks(u) {
                            let w = pre.index_of(u);
                            assert(0 <= w < pre.docs@.len() && pre.docs@[w].uri@ == u);
                            assert(self.docs@[w].uri@ == u);
                            assert(self.tracks(u));
                        }
                        if self.tracks(u) {
                            let w = choose|w: int|
                                0 <= w < self.docs@.len() && (#[trigger] self.docs@[w]).uri@ == u;
                            assert(w != n as int);
                            assert(pre.docs@[w].uri@ == u);
                            assert(pre.tracks(u));
                        }
                    }
                    assert forall|u: Seq<char>| u != uri_v && pre.tracks(u) implies self.doc_of(u)
                        == pre.doc_of(u) by {
                        let k1 = pre.index_of(u);
                        assert(0 <= k1 < pre.docs@.len() && pre.docs@[k1].uri@ == u);
                        assert(self.tracks(u));
                        let k2 = self.index_of(u);
                        assert(0 <= k2 < self.docs@.len() && self.docs@[k2].uri@ == u);
                        assert(k2 != n as int);
                        assert(pre.docs@[k2].uri@ == u);
                        assert(k1 == k2) by {
                            if k1 != k2 {
                                assert(pre.docs@[k1].uri@ != pre.docs@[k2].uri@);
                            }
                        }
                    }
                }
                Ok(())
            },
        }
    }

    /// Removes a closed document. Refused when the URI is not tracked.
    pub fn close_doc(&mut self, uri: &str) -> (r: Result<(), VfsError>)
        requires
            old(self).wf(),
        ensures
            final(self).wf(),
            r is Ok <==> old(self).tracks(uri@),
            r is Err ==> *final(self) == *old(self) && r == Result::<(), VfsError>::Err(
                VfsError::NotTracked,
            ),
            r is Ok ==> !final(self).tracks(uri@),
            forall|u: Seq<char>|
                u != uri@ ==> final(self).tracks(u) == old(self).tracks(u),
            forall|u: Seq<char>|
                u != uri@ && old(self).tracks(u) ==> final(self).doc_of(u) == old(self).doc_of(u),
    {
        let ghost pre = *self;
        match self.find(uri) {
            None => Err(VfsError::NotTracked),
            Some(k) => {
                self.docs.remove(k);
                proof {
                    assert(self.docs@ == pre.docs@.remove(k as int));
                    assert(forall|j: int|
                        0 <= j < k ==> #[trigger] self.docs@[j] == pre.docs@[j]);
                    assert(forall|j: int|
                        k <= j < self.docs@.len() ==> #[trigger] self.docs@[j] == pre.docs@[j
                            + 1]);
                    assert forall|i: int, j: int|
                        0 <= i < j < self.docs@.len() implies (#[trigger] self.docs@[i]).uri@ != (
                        #[trigger] self.docs@[j]).uri@ by {
                        let i0 = if i < k as int { i } else { i + 1 };
                        let j0 = if j < k as int { j } else { j + 1 };
                        assert(pre.docs@[i0].uri@ != pre.docs@[j0].uri@);
                    }
                    assert(!self.tracks(uri@)) by {
                        if self.tracks(uri@) {
                            let w = choose|w: int|
                                0 <= w < self.docs@.len() && (#[trigger] self.docs@[w]).uri@
                                    == uri@;
                            let w0 = if w < k as int { w } else { w + 1 };
                            assert(pre.docs@[w0].uri@ == uri@);
                            assert(w0 != k as int);
                            assert(pre.docs@[k as int].uri@ == pre.docs@[w0].uri@);
                        }
                    }
                    assert forall|u: Seq<char>| u != uri@ implies self.tracks(u) == pre.tracks(
                        u,
                    ) by {
                        if pre.tracks(u) {
                            let w = pre.index_of(u);
                            assert(0 <= w < pre.docs@.len() && pre.docs@[w].uri@ == u);
                            assert(w != k as int);
                            let w1 = if w < k as int { w } else { w - 1 };
                            assert(self.docs@[w1].uri@ == u);
                            assert(self.tracks(u));
                        }
                        if self.tracks(u) {
                            let w = choose|w: int|
                                0 <= w < self.docs@.len() && (#[trigger] self.docs@[w]).uri@ == u;
                            let w0 = if w < k as int { w } else { w + 1 };
                            assert(pre.docs@[w0].uri@ == u);
                            assert(pre.tracks(u));
                        }
                    }
                    assert forall|u: Seq<char>| u != uri@ && pre.tracks(u) implies self.doc_of(u)
                        == pre.doc_of(u) by {
                        let k1 = pre.index_of(u);
                        assert(0 <= k1 < pre.docs@.len() && pre.docs@[k1].uri@ == u);
                        assert(self.tracks(u));
                        let k2 = self.index_of(u);
                        assert(0 <= k2 < self.docs@.len() && self.docs@[k2].uri@ == u);
                        let k20 = if k2 < k as int { k2 } else { k2 + 1 };
                        assert(pre.docs@[k20].uri@ == u);
                        assert(k1 == k20) by {
                            if k1 != k20 {
                                assert(pre.docs@[k1].uri@ != pre.docs@[k20].uri@);
                            }
                        }
                        assert(self.docs@[k2].doc@ == pre.docs@[k1].doc@);
                    }
                }
                Ok(())
            },
        }
    }

    /// Applies a batch of full-document change notifications under one new
    /// version. The batch must hold at most one event: the version can move
    /// only once. Validation is atomic: on any refusal the store is
    /// unchanged.
    pub fn apply_changes(&mut self, uri: &str, version: i32, changes: Vec<ChangeEvent>) -> (r:
        Result<(), VfsError>)
        requires
            old(self).wf(),
        ensures
            final(self).wf(),
            r is Ok <==> (old(self).tracks(uri@) && (forall|m: int|
                0 <= m < changes@.len() ==> (#[trigger] changes@[m]).range is None)
                && changes@.len() <= 1 && (changes@.len() == 1 ==> version > old(self).doc_of(
                uri@,
            ).version)),
            !old(self).tracks(uri@) ==> r == Result::<(), VfsError>::Err(VfsError::NotTracked),
            (old(self).tracks(uri@) && (exists|m: int|
                0 <= m < changes@.len() && (#[trigger] changes@[m]).range is Some)) ==> r
                == Result::<(), VfsError>::Err(VfsError::NotFullReplacement),
            (old(self).tracks(uri@) && (forall|m: int|
                0 <= m < changes@.len() ==> (#[trigger] changes@[m]).range is None) && (
            changes@.len() >= 2 || (changes@.len() == 1 && version <= old(self).doc_of(
                uri@,
            ).version))) ==> r == Result::<(), VfsError>::Err(VfsError::StaleVersion),
            r is Err ==> *final(self) == *old(self),
            r is Ok && changes@.len() == 1 ==> final(self).tracks(uri@) && final(self).doc_of(
                uri@,
            ) == (DocumentV { text: changes@[0].text@, version: version as int }),
            r is Ok && changes@.len() == 0 ==> *final(self) == *old(self),
            forall|u: Seq<char>|
                u != uri@ ==> final(self).tracks(u) == old(self).tracks(u),
            forall|u: Seq<char>|
                u != uri@ && old(self).tracks(u) ==> final(self).doc_of(u) == old(self).doc_of(u),
    {
        let ghost pre = *self;
        let k = match self.find(uri) {
            None => {
                return Err(VfsError::NotTracked);
            },
            Some(k) => k,
        };
        let mut j: usize = 0;
        while j < changes.len()
            invariant
                *self == pre,
                pre.wf(),
                pre.tracks(uri@),
                j <= changes@.len(),
                forall|m: int| 0 <= m < j ==> (#[trigger] changes@[m]).range is None,
            decreases changes@.len() - j,
        {
            if changes[j].range.is_some() {
                return Err(VfsError::NotFullReplacement);
            }
            j = j + 1;
        }
        if changes.len() == 0 {
            return Ok(());
        }
        if changes.len() >= 2 {
            return Err(VfsError::StaleVersion);
        }
        let stored = self.docs[k].doc.version;
        proof {
            assert(pre.doc_of(uri@).version == stored as int);
        }
        if version <= stored {
            return Err(VfsError::StaleVersion);
        }
        let mut changes = changes;
        let c = changes.remove(0);
        self.docs[k].doc = Document { text: c.text, version };
        proof {
            assert(self.docs@ == pre.docs@.update(
                k as int,
                Entry { uri: pre.docs@[k as int].uri, doc: self.docs@[k as int].doc },
            ));
            assert(forall|j: int|
                0 <= j < self.docs@.len() && j != k as int ==> #[trigger] self.docs@[j]
                    == pre.docs@[j]);
            assert(self.docs@[k as int].uri@ == uri@);
            assert forall|i: int, j: int|
                0 <= i < j < self.docs@.len() implies (#[trigger] self.docs@[i]).uri@ != (
                #[trigger] self.docs@[j]).uri@ by {
                assert(pre.docs@[i].uri@ != pre.docs@[j].uri@);
                assert(self.docs@[i].uri@ == pre.docs@[i].uri@);
                assert(self.docs@[j].uri@ == pre.docs@[j].uri@);
            }
            assert(self.tracks(uri@));
            let k0 = self.index_of(uri@);
            assert(0 <= k0 < self.docs@.len() && self.docs@[k0].uri@ == uri@);
            assert(k0 == k as int) by {
                if k0 != k as int {
                    assert(pre.docs@[k0].uri@ == uri@);
                    assert(pre.docs@[k0].uri@ != pre.docs@[k as int].uri@);
                }
            }
            assert forall|u: Seq<char>| u != uri@ implies self.tracks(u) == pre.tracks(u) by {
                if pre.tracks(u) {
                    let w = pre.index_of(u);
                    assert(0 <= w < pre.docs@.len() && pre.docs@[w].uri@ == u);
                    assert(w != k as int);
                    assert(self.docs@[w].uri@ == u);
                    assert(self.tracks(u));
                }
                if self.tracks(u) {
                    let w = choose|w: int|
                        0 <= w < self.docs@.len() && (#[trigger] self.docs@[w]).uri@ == u;
                    assert(w != k as int);
                    assert(pre.docs@[w].uri@ == u);
                    assert(pre.tracks(u));
                }
            }
            assert forall|u: Seq<char>| u != uri@ && pre.tracks(u) implies self.doc_of(u)
                == pre.doc_of(u) by {
                let k1 = pre.index_of(u);
                assert(0 <= k1 < pre.docs@.len() && pre.docs@[k1].uri@ == u);
                assert(k1 != k as int);
                assert(self.docs@[k1].uri@ == u);
                assert(self.tracks(u));
                let k2 = self.index_of(u);
                assert(0 <= k2 < self.docs@.len() && self.docs@[k2].uri@ == u);
                assert(k2 != k as int);
                assert(pre.docs@[k2].uri@ == u);
                assert(k1 == k2) by {
                    if k1 != k2 {
                        assert(pre.docs@[k1].uri@ != pre.docs@[k2].uri@);
                    }
                }
            }
        }
        Ok(())
    }

    /// A snapshot of the document under `uri`, decoupled from the live
    /// entry, or nothing when the URI is not tracked.
    pub fn get_doc(&self, uri: &str) -> (r: Option<Document>)
        requires
            self.wf(),
        ensures
            match r {
                Some(d) => self.tracks(uri@) && d@ == self.doc_of(uri@),
                None => !self.tracks(uri@),
            },
    {
        match self.find(uri) {
            None => None,
            Some(k) => {
                let d = Document {
                    text: self.docs[k].doc.text.clone(),
                    version: self.docs[k].doc.version,
                };
                proof {
                    assert(d@ =~= self.doc_of(uri@));
                }
                Some(d)
            },
        }
    }
}

} // verus!
