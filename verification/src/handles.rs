//! One physical append-only file: write serialization state, size tracking,
//! and the in-flight byte range that masks uncommitted data from concurrent
//! readers.
//!
//! The handle here is the bookkeeping state machine.  The surrounding
//! program opens the file, appends the bytes between [`Handle::begin_write`]
//! and [`Handle::commit_write`], and passes the file contents to
//! [`Handle::read`].

use vstd::prelude::*;
use crate::doc::Document;
use crate::reader::{at_boundary, clear_collected, feed, init_model, FrameError, Reader};
use crate::reader::{frame_bytes, lemma_feed_concat, lemma_feed_frame};
use crate::codec::{encode_document, wf_doc};
use crate::doc::DocView;

verus! {

/// The byte range `[start, end)` of a write that is not yet committed.
#[derive(PartialEq, Eq, Structural, Clone, Copy, Debug)]
pub struct DataLocation(pub usize, pub usize);

/// Bookkeeping for one append-only backing file.
pub struct Handle {
    pub id: usize,
    pub path: String,
    pub file_size: usize,
    pub is_busy: bool,
    pub write_op: Option<DataLocation>,
}

impl Handle {
    /// The in-flight range, when present, lies within `[0, file_size]`.
    pub open spec fn wf(&self) -> bool {
        self.write_op matches Some(loc) ==> loc.0 <= loc.1 <= self.file_size
    }

    /// A handle over an existing backing file of the given size.
    pub fn new(path: String, id: usize, file_size: usize) -> (r: Handle)
        ensures
            r.id == id,
            r.path@ == path@,
            r.file_size == file_size,
            !r.is_busy,
            r.write_op is None,
            r.wf(),
    {
        Handle { id, path, file_size, is_busy: false, write_op: None }
    }

    pub fn get_id(&self) -> (r: usize)
        ensures
            r == self.id,
    {
        self.id
    }

    pub fn get_path(&self) -> (r: &String)
        ensures
            r@ == self.path@,
    {
        &self.path
    }

    pub fn is_busy(&self) -> (r: bool)
        ensures
            r == self.is_busy,
    {
        self.is_busy
    }

    pub fn file_size(&self) -> (r: usize)
        ensures
            r == self.file_size,
    {
        self.file_size
    }

    /// Reserves the next contiguous byte range for a write: the handle
    /// becomes busy, the size counter moves past the reservation, and the
    /// range is recorded as in flight so that readers mask it.
    pub fn begin_write(&mut self, len: usize) -> (r: DataLocation)
        requires
            old(self).wf(),
            old(self).file_size + len <= usize::MAX,
        ensures
            final(self).wf(),
            final(self).id == old(self).id,
            final(self).path == old(self).path,
            final(self).file_size == old(self).file_size + len,
            final(self).is_busy,
            final(self).write_op == Some(r),
            r == DataLocation(old(self).file_size, (old(self).file_size + len) as usize),
    {
        self.is_busy = true;
        let start = self.file_size;
        self.file_size = self.file_size + len;
        let loc = DataLocation(start, self.file_size);
        self.write_op = Some(loc);
        loc
    }

    /// Clears the in-flight range once the bytes are on disk: the write is
    /// committed and the handle is free again.
    pub fn commit_write(&mut self)
        ensures
            final(self).wf(),
            final(self).id == old(self).id,
            final(self).path == old(self).path,
            final(self).file_size == old(self).file_size,
            !final(self).is_busy,
            final(self).write_op is None,
    {
        self.write_op = None;
        self.is_busy = false;
    }

    /// A whole write, reservation through commit: the file grows by `len`
    /// bytes at the returned range and nothing stays in flight.
    pub fn write(&mut self, len: usize) -> (r: DataLocation)
        requires
            old(self).wf(),
            old(self).file_size + len <= usize::MAX,
        ensures
            final(self).wf(),
            final(self).id == old(self).id,
            final(self).path == old(self).path,
            final(self).file_size == old(self).file_size + len,
            !final(self).is_busy,
            final(self).write_op is None,
            r == DataLocation(old(self).file_size, (old(self).file_size + len) as usize),
    {
        let loc = self.begin_write(len);
        self.commit_write();
        loc
    }
}

/// The byte stream a reader observes: the file contents with the in-flight
/// range spliced out (clamped to the available bytes).
pub open spec fn mask_bytes(s: Seq<u8>, op: Option<DataLocation>) -> Seq<u8> {
    match op {
        None => s,
        Some(loc) => {
            let a = if loc.0 <= s.len() {
                loc.0 as int
            } else {
                s.len() as int
            };
            let b = if loc.1 <= s.len() {
                loc.1 as int
            } else {
                s.len() as int
            };
            if a <= b {
                s.subrange(0, a) + s.subrange(b, s.len() as int)
            } else {
                s.subrange(0, a)
            }
        },
    }
}

impl Handle {
    /// Decodes every document in the file contents, masking the in-flight
    /// range so that no reader observes bytes of an uncommitted write.
    pub fn read(&self, contents: &[u8]) -> (r: Result<Vec<Document>, FrameError>)
        ensures
            ({
                let m = feed::<Document>(init_model(), mask_bytes(contents@, self.write_op));
                match r {
                    Ok(docs) => m.failed is None && docs.deep_view() == m.collected_documents,
                    Err(e) => m.failed == Some(e),
                }
            }),
    {
        let len = contents.len();
        let masked: Vec<u8> = match self.write_op {
            None => vstd::slice::slice_to_vec(contents),
            Some(loc) => {
                let a = if loc.0 <= len {
                    loc.0
                } else {
                    len
                };
                let b = if loc.1 <= len {
                    loc.1
                } else {
                    len
                };
                let mut head = vstd::slice::slice_to_vec(
                    vstd::slice::slice_subrange(contents, 0, a),
                );
                if a <= b {
                    let mut tail = vstd::slice::slice_to_vec(
                        vstd::slice::slice_subrange(contents, b, len),
                    );
                    head.append(&mut tail);
                }
                head
            },
        };
        proof {
            assert(masked@ =~= mask_bytes(contents@, self.write_op));
        }
        let mut reader: Reader<Document> = Reader::new();
        let res = reader.read_bytes_and_collect(masked.as_slice());
        proof {
            assert(clear_collected(init_model::<DocView>()) =~= init_model::<DocView>());
        }
        res
    }
}

// ---------------------------------------------------------------------------
// Reading back what was written
// ---------------------------------------------------------------------------

/// The concatenated frames of a document sequence, in order.
pub open spec fn docs_frames(docs: Seq<DocView>) -> Seq<u8>
    decreases docs,
{
    if docs.len() == 0 {
        Seq::empty()
    } else {
        frame_bytes(encode_document(docs[0])) + docs_frames(docs.subrange(1, docs.len() as int))
    }
}

/// Every document in the sequence is encodable.
pub open spec fn wf_docs(docs: Seq<DocView>) -> bool {
    forall|i: int|
        0 <= i < docs.len() ==> wf_doc(#[trigger] docs[i]) && 1 <= encode_document(docs[i]).len()
            <= u32::MAX
}

/// Feeding the frames of a document sequence from a frame boundary collects
/// exactly those documents, in order.
pub proof fn lemma_feed_frames(m: crate::reader::ReaderModel<DocView>, docs: Seq<DocView>)
    requires
        at_boundary(m),
        wf_docs(docs),
    ensures
        at_boundary(feed::<Document>(m, docs_frames(docs))),
        feed::<Document>(m, docs_frames(docs)).collected_documents == m.collected_documents
            + docs,
    decreases docs,
{
    if docs.len() == 0 {
        assert(m.collected_documents + docs =~= m.collected_documents);
    } else {
        let d0 = docs[0];
        let rest = docs.subrange(1, docs.len() as int);
        let f0 = frame_bytes(encode_document(d0));
        crate::codec::lemma_round_trip_document(d0);
        lemma_feed_concat::<Document>(m, f0, docs_frames(rest));
        lemma_feed_frame::<Document>(m, encode_document(d0), d0);
        let m1 = feed::<Document>(m, f0);
        lemma_feed_frames(m1, rest);
        assert(m.collected_documents.push(d0) + rest =~= m.collected_documents + docs);
    }
}

/// Writing documents `D1 ... Dn` to a handle and reading the handle back
/// once no write is in flight yields exactly `D1 ... Dn`, in append order.
pub proof fn lemma_write_read_round_trip(h: Handle, docs: Seq<DocView>)
    requires
        h.write_op is None,
        wf_docs(docs),
    ensures
        ({
            let m = feed::<Document>(init_model(), mask_bytes(docs_frames(docs), h.write_op));
            m.failed is None && m.collected_documents == docs
        }),
{
    let m0 = init_model::<DocView>();
    lemma_feed_frames(m0, docs);
    assert(Seq::<DocView>::empty() + docs =~= docs);
}

} // verus!
