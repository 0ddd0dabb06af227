//! Streaming frame decoder.
//!
//! A frame is `[4-byte little-endian length][payload][1 delimiter byte]`.
//! The decoder consumes an unbounded byte stream in arbitrary chunks,
//! buffering partial length or payload bytes across calls, and collects each
//! completely decoded value.  It performs no I/O: it is a state machine
//! driven by [`Reader::read_bytes`].

use vstd::prelude::*;
use vstd::bytes::{spec_u32_from_le_bytes, spec_u32_to_le_bytes, u32_from_le_bytes};
use crate::FRAME_DELIMITER;

verus! {

/// Why a read of a frame stream failed.  Both conditions are fatal for the
/// stream that produced them: the decoder accepts no further bytes.
#[derive(Clone, Copy, PartialEq, Eq, Structural, Debug)]
pub enum FrameError {
    /// A complete payload did not decode as a value of the expected type.
    CorruptPayload,
    /// The byte after a payload was not the frame delimiter.
    FramingError,
}

/// Reads a 32-bit frame-length prefix out of exactly four bytes.
///
/// The byte order of the on-disk format is fixed little-endian, independent
/// of the host.
pub fn vec_to_u32_ne(bytes: &[u8]) -> (r: u32)
    requires
        bytes@.len() == 4,
    ensures
        r == spec_u32_from_le_bytes(bytes@),
{
    u32_from_le_bytes(bytes)
}

/// A value type that can be decoded from a frame payload.
///
/// `decode_spec` is the mathematical decoder; `deserialize` is its
/// executable counterpart and must agree with it.
pub trait Deserializable: Sized + DeepView {
    /// What the payload bytes decode to, if anything.
    spec fn decode_spec(bytes: Seq<u8>) -> Option<Self::V>;

    /// Decodes one complete payload.
    fn deserialize(bytes: &[u8]) -> (r: Option<Self>)
        ensures
            r is Some ==> Self::decode_spec(bytes@) == Some(r.unwrap().deep_view()),
            r is None ==> Self::decode_spec(bytes@) is None,
    ;
}

/// The abstract state of a [`Reader`].
#[verifier::ext_equal]
pub struct ReaderModel<V> {
    pub is_reading_document: bool,
    pub expecting_delimiter: bool,
    pub expected_bytes_count: u32,
    pub doc_bytes: Seq<u8>,
    pub doc_length_bytes: Seq<u8>,
    pub collected_documents: Seq<V>,
    pub failed: Option<FrameError>,
}

/// The state of a freshly created reader.
pub open spec fn init_model<V>() -> ReaderModel<V> {
    ReaderModel {
        is_reading_document: false,
        expecting_delimiter: false,
        expected_bytes_count: 0,
        doc_bytes: Seq::empty(),
        doc_length_bytes: Seq::empty(),
        collected_documents: Seq::empty(),
        failed: None,
    }
}

/// The same state with the collected values dropped.
pub open spec fn clear_collected<V>(m: ReaderModel<V>) -> ReaderModel<V> {
    ReaderModel { collected_documents: Seq::empty(), ..m }
}

/// The decoder sits between frames: nothing is buffered and nothing failed.
pub open spec fn at_boundary<V>(m: ReaderModel<V>) -> bool {
    &&& !m.is_reading_document
    &&& !m.expecting_delimiter
    &&& m.doc_bytes.len() == 0
    &&& m.doc_length_bytes.len() == 0
    &&& m.failed is None
}

/// One step of the decoding state machine:
/// `AwaitingLength -> AwaitingPayload -> AwaitingDelimiter -> AwaitingLength`.
pub open spec fn feed_byte<T: Deserializable>(m: ReaderModel<T::V>, byte: u8) -> ReaderModel<
    T::V,
> {
    if m.failed is Some {
        m
    } else if !m.is_reading_document {
        let lb = m.doc_length_bytes.push(byte);
        if lb.len() == 4 {
            ReaderModel {
                is_reading_document: true,
                expected_bytes_count: spec_u32_from_le_bytes(lb),
                doc_length_bytes: Seq::empty(),
                ..m
            }
        } else {
            ReaderModel { doc_length_bytes: lb, ..m }
        }
    } else if m.expecting_delimiter {
        if byte != FRAME_DELIMITER {
            ReaderModel { failed: Some(FrameError::FramingError), ..m }
        } else {
            ReaderModel { expecting_delimiter: false, is_reading_document: false, ..m }
        }
    } else {
        let db = m.doc_bytes.push(byte);
        if db.len() == m.expected_bytes_count {
            match T::decode_spec(db) {
                Some(d) => ReaderModel {
                    collected_documents: m.collected_documents.push(d),
                    expecting_delimiter: true,
                    doc_bytes: Seq::empty(),
                    ..m
                },
                None => ReaderModel {
                    failed: Some(FrameError::CorruptPayload),
                    doc_bytes: db,
                    ..m
                },
            }
        } else {
            ReaderModel { doc_bytes: db, ..m }
        }
    }
}

/// Feeding a whole byte sequence, byte by byte.
pub open spec fn feed<T: Deserializable>(m: ReaderModel<T::V>, bytes: Seq<u8>) -> ReaderModel<
    T::V,
>
    decreases bytes.len(),
{
    if bytes.len() == 0 {
        m
    } else {
        feed::<T>(feed_byte::<T>(m, bytes[0]), bytes.subrange(1, bytes.len() as int))
    }
}

/// The decoder yields the same result however the stream is chunked:
/// feeding `a` then `b` is feeding `a + b`.  This is the re-chunking law;
/// every split of a stream into chunks folds down to this equation.
pub proof fn lemma_feed_concat<T: Deserializable>(m: ReaderModel<T::V>, a: Seq<u8>, b: Seq<u8>)
    ensures
        feed::<T>(m, a + b) == feed::<T>(feed::<T>(m, a), b),
    decreases a.len(),
{
    if a.len() == 0 {
        assert(a + b =~= b);
    } else {
        let ab = a + b;
        assert(ab[0] == a[0]);
        assert(ab.subrange(1, ab.len() as int) =~= a.subrange(1, a.len() as int) + b);
        lemma_feed_concat::<T>(feed_byte::<T>(m, a[0]), a.subrange(1, a.len() as int), b);
    }
}

/// Feeding a single byte.
pub proof fn lemma_feed_one<T: Deserializable>(m: ReaderModel<T::V>, b: u8)
    ensures
        feed::<T>(m, seq![b]) == feed_byte::<T>(m, b),
{
    let s = seq![b];
    assert(s.len() == 1);
    assert(s[0] == b);
    assert(s.subrange(1, 1) =~= Seq::<u8>::empty());
    assert(feed::<T>(m, s) == feed::<T>(feed_byte::<T>(m, b), s.subrange(1, 1)));
    assert(feed::<T>(feed_byte::<T>(m, b), s.subrange(1, 1)) == feed_byte::<T>(m, b));
}

/// A failed decoder consumes nothing further.
pub proof fn lemma_feed_failed<T: Deserializable>(m: ReaderModel<T::V>, bytes: Seq<u8>)
    requires
        m.failed is Some,
    ensures
        feed::<T>(m, bytes) == m,
    decreases bytes.len(),
{
    if bytes.len() > 0 {
        lemma_feed_failed::<T>(m, bytes.subrange(1, bytes.len() as int));
    }
}

/// Feeding the rest of a payload completes the value.
proof fn lemma_feed_payload_full<T: Deserializable>(
    m: ReaderModel<T::V>,
    bytes: Seq<u8>,
    d: T::V,
)
    requires
        m.failed is None,
        m.is_reading_document,
        !m.expecting_delimiter,
        bytes.len() >= 1,
        m.doc_bytes.len() + bytes.len() == m.expected_bytes_count,
        T::decode_spec(m.doc_bytes + bytes) == Some(d),
    ensures
        feed::<T>(m, bytes) == (ReaderModel {
            collected_documents: m.collected_documents.push(d),
            expecting_delimiter: true,
            doc_bytes: Seq::empty(),
            ..m
        }),
    decreases bytes.len(),
{
    if bytes.len() == 1 {
        assert(m.doc_bytes.push(bytes[0]) =~= m.doc_bytes + bytes);
        let m1 = feed_byte::<T>(m, bytes[0]);
        assert(m1 =~= (ReaderModel {
            collected_documents: m.collected_documents.push(d),
            expecting_delimiter: true,
            doc_bytes: Seq::empty(),
            ..m
        }));
        assert(feed::<T>(m1, bytes.subrange(1, 1)) == m1);
    } else {
        let m1 = feed_byte::<T>(m, bytes[0]);
        assert(m1 =~= (ReaderModel { doc_bytes: m.doc_bytes.push(bytes[0]), ..m }));
        assert(m.doc_bytes.push(bytes[0]) + bytes.subrange(1, bytes.len() as int) =~= m.doc_bytes
            + bytes);
        lemma_feed_payload_full::<T>(m1, bytes.subrange(1, bytes.len() as int), d);
    }
}

/// The bytes of one frame around the given payload.
pub open spec fn frame_bytes(payload: Seq<u8>) -> Seq<u8> {
    spec_u32_to_le_bytes(payload.len() as u32) + payload + seq![FRAME_DELIMITER]
}

/// Feeding one whole frame from a frame boundary collects exactly its value
/// and returns to a frame boundary.
pub proof fn lemma_feed_frame<T: Deserializable>(m: ReaderModel<T::V>, payload: Seq<u8>, d: T::V)
    requires
        at_boundary(m),
        1 <= payload.len() <= u32::MAX,
        T::decode_spec(payload) == Some(d),
    ensures
        feed::<T>(m, frame_bytes(payload)) == (ReaderModel {
            collected_documents: m.collected_documents.push(d),
            expected_bytes_count: payload.len() as u32,
            ..m
        }),
        at_boundary(feed::<T>(m, frame_bytes(payload))),
{
    let lb = spec_u32_to_le_bytes(payload.len() as u32);
    vstd::bytes::lemma_auto_spec_u32_to_from_le_bytes();
    assert(lb.len() == 4);
    assert(spec_u32_from_le_bytes(lb) == payload.len() as u32);
    assert(frame_bytes(payload) =~= lb + (payload + seq![FRAME_DELIMITER]));
    lemma_feed_concat::<T>(m, lb, payload + seq![FRAME_DELIMITER]);

    // The four length bytes.
    let m0 = m;
    let m1 = feed_byte::<T>(m0, lb[0]);
    let m2 = feed_byte::<T>(m1, lb[1]);
    let m3 = feed_byte::<T>(m2, lb[2]);
    let m4 = feed_byte::<T>(m3, lb[3]);
    assert(m1 =~= (ReaderModel { doc_length_bytes: seq![lb[0]], ..m0 }));
    assert(m1.doc_length_bytes.push(lb[1]) =~= seq![lb[0], lb[1]]);
    assert(m2 =~= (ReaderModel { doc_length_bytes: seq![lb[0], lb[1]], ..m0 }));
    assert(m2.doc_length_bytes.push(lb[2]) =~= seq![lb[0], lb[1], lb[2]]);
    assert(m3 =~= (ReaderModel { doc_length_bytes: seq![lb[0], lb[1], lb[2]], ..m0 }));
    assert(m3.doc_length_bytes.push(lb[3]) =~= seq![lb[0], lb[1], lb[2], lb[3]]);
    assert(m3.doc_length_bytes.push(lb[3]) =~= lb);
    assert(m4 =~= (ReaderModel {
        is_reading_document: true,
        expected_bytes_count: payload.len() as u32,
        doc_length_bytes: Seq::empty(),
        ..m0
    }));
    assert(lb.subrange(1, 4).subrange(1, 3) =~= lb.subrange(2, 4));
    assert(lb.subrange(2, 4).subrange(1, 2) =~= lb.subrange(3, 4));
    assert(lb.subrange(3, 4).subrange(1, 1) =~= Seq::<u8>::empty());
    assert(lb.subrange(1, 4)[0] == lb[1]);
    assert(lb.subrange(2, 4)[0] == lb[2]);
    assert(lb.subrange(3, 4)[0] == lb[3]);
    assert(feed::<T>(m0, lb) == feed::<T>(m1, lb.subrange(1, 4)));
    assert(feed::<T>(m1, lb.subrange(1, 4)) == feed::<T>(m2, lb.subrange(2, 4)));
    assert(feed::<T>(m2, lb.subrange(2, 4)) == feed::<T>(m3, lb.subrange(3, 4)));
    assert(feed::<T>(m3, lb.subrange(3, 4)) == feed::<T>(m4, Seq::<u8>::empty()));
    assert(feed::<T>(m0, lb) == m4);

    // The payload, then the delimiter.
    lemma_feed_concat::<T>(m4, payload, seq![FRAME_DELIMITER]);
    assert(m4.doc_bytes + payload =~= payload);
    lemma_feed_payload_full::<T>(m4, payload, d);
    let m5 = feed::<T>(m4, payload);
    let m6 = feed_byte::<T>(m5, FRAME_DELIMITER);
    assert(seq![FRAME_DELIMITER][0] == FRAME_DELIMITER);
    assert(seq![FRAME_DELIMITER].subrange(1, 1) =~= Seq::<u8>::empty());
    assert(feed::<T>(m5, seq![FRAME_DELIMITER]) == feed::<T>(m6, Seq::<u8>::empty()));
    assert(feed::<T>(m5, seq![FRAME_DELIMITER]) == m6);
    assert(m6 =~= (ReaderModel {
        collected_documents: m.collected_documents.push(d),
        expected_bytes_count: payload.len() as u32,
        ..m
    }));
}

// ---------------------------------------------------------------------------
// The executable decoder
// ---------------------------------------------------------------------------

/// Streaming decoder for values of type `T`.
pub struct Reader<T> {
    is_reading_document: bool,
    expecting_delimiter: bool,
    expected_bytes_count: u32,
    doc_bytes: Vec<u8>,
    doc_length_bytes: Vec<u8>,
    pub collected_documents: Vec<T>,
    failed: Option<FrameError>,
}

impl<T: Deserializable> View for Reader<T> {
    type V = ReaderModel<T::V>;

    closed spec fn view(&self) -> ReaderModel<T::V> {
        ReaderModel {
            is_reading_document: self.is_reading_document,
            expecting_delimiter: self.expecting_delimiter,
            expected_bytes_count: self.expected_bytes_count,
            doc_bytes: self.doc_bytes@,
            doc_length_bytes: self.doc_length_bytes@,
            collected_documents: self.collected_documents.deep_view(),
            failed: self.failed,
        }
    }
}

impl<T: Deserializable> Reader<T> {
    /// A decoder awaiting the first length byte.
    pub fn new() -> (r: Reader<T>)
        ensures
            r@ == init_model::<T::V>(),
    {
        let r = Reader {
            is_reading_document: false,
            expecting_delimiter: false,
            expected_bytes_count: 0,
            doc_bytes: Vec::new(),
            doc_length_bytes: Vec::new(),
            collected_documents: Vec::new(),
            failed: None,
        };
        proof {
            assert(r@ =~= init_model::<T::V>());
        }
        r
    }

    /// Feeds one chunk of the stream.  Values completed by this chunk are
    /// collected in `collected_documents`, which is cleared first; partial
    /// frame state carries over to the next call.  Once a chunk fails, the
    /// decoder stays failed.
    #[verifier::loop_isolation(false)]
    pub fn read_bytes(&mut self, bytes: &[u8]) -> (r: Result<(), FrameError>)
        ensures
            final(self)@ == feed::<T>(clear_collected(old(self)@), bytes@),
            r is Ok <==> final(self)@.failed is None,
            r matches Err(e) ==> final(self)@.failed == Some(e),
    {
        self.collected_documents.clear();
        let ghost m0 = clear_collected(old(self)@);
        proof {
            assert(self@ =~= m0);
            assert(bytes@.subrange(0, 0) =~= Seq::<u8>::empty());
        }
        let n = bytes.len();
        for i in 0..n
            invariant
                self@ == feed::<T>(m0, bytes@.subrange(0, i as int)),
        {
            proof {
                assert(bytes@.subrange(0, i + 1) =~= bytes@.subrange(0, i as int) + seq![
                    bytes@[i as int],
                ]);
                lemma_feed_concat::<T>(m0, bytes@.subrange(0, i as int), seq![bytes@[i as int]]);
                assert(seq![bytes@[i as int]].subrange(1, 1) =~= Seq::<u8>::empty());
            }
            let ghost pre = self@;
            let b = bytes[i];
            if self.failed.is_some() {
                proof {
                    assert(self@ =~= feed_byte::<T>(pre, b));
                }
            } else if !self.is_reading_document {
                self.doc_length_bytes.push(b);
                if self.doc_length_bytes.len() == 4 {
                    self.is_reading_document = true;
                    self.expected_bytes_count = vec_to_u32_ne(self.doc_length_bytes.as_slice());
                    self.doc_length_bytes.clear();
                }
                proof {
                    assert(self@ =~= feed_byte::<T>(pre, b));
                }
            } else if self.expecting_delimiter {
                if b != FRAME_DELIMITER {
                    self.failed = Some(FrameError::FramingError);
                } else {
                    self.expecting_delimiter = false;
                    self.is_reading_document = false;
                }
                proof {
                    assert(self@ =~= feed_byte::<T>(pre, b));
                }
            } else {
                self.doc_bytes.push(b);
                if self.doc_bytes.len() == self.expected_bytes_count as usize {
                    match T::deserialize(self.doc_bytes.as_slice()) {
                        Some(d) => {
                            let ghost dv = d.deep_view();
                            self.collected_documents.push(d);
                            self.expecting_delimiter = true;
                            self.doc_bytes.clear();
                            proof {
                                assert(self.collected_documents.deep_view()
                                    =~= pre.collected_documents.push(dv));
                                assert(self@ =~= feed_byte::<T>(pre, b));
                            }
                        },
                        None => {
                            self.failed = Some(FrameError::CorruptPayload);
                            proof {
                                assert(self@ =~= feed_byte::<T>(pre, b));
                            }
                        },
                    }
                } else {
                    proof {
                        assert(self@ =~= feed_byte::<T>(pre, b));
                    }
                }
            }
            proof {
                assert(self@ == feed_byte::<T>(pre, bytes@[i as int]));
                lemma_feed_one::<T>(pre, bytes@[i as int]);
                assert(self@ == feed::<T>(m0, bytes@.subrange(0, i + 1)));
            }
        }
        proof {
            assert(bytes@.subrange(0, n as int) =~= bytes@);
        }
        match self.failed {
            Some(e) => Err(e),
            None => Ok(()),
        }
    }

    /// Whether the decoder sits exactly between frames, with nothing
    /// buffered and nothing failed.
    pub fn is_at_boundary(&self) -> (r: bool)
        ensures
            r == at_boundary(self@),
    {
        !self.is_reading_document && !self.expecting_delimiter && self.doc_bytes.len() == 0
            && self.doc_length_bytes.len() == 0 && self.failed.is_none()
    }

    /// Feeds one chunk and hands over everything collected so far.
    pub fn read_bytes_and_collect(&mut self, bytes: &[u8]) -> (r: Result<Vec<T>, FrameError>)
        ensures
            ({
                let m1 = feed::<T>(clear_collected(old(self)@), bytes@);
                match r {
                    Ok(v) => {
                        &&& m1.failed is None
                        &&& v.deep_view() == m1.collected_documents
                        &&& final(self)@ == clear_collected(m1)
                    },
                    Err(e) => {
                        &&& m1.failed == Some(e)
                        &&& final(self)@ == m1
                    },
                }
            }),
    {
        match self.read_bytes(bytes) {
            Err(e) => Err(e),
            Ok(()) => {
                let mut out: Vec<T> = Vec::new();
                core::mem::swap(&mut out, &mut self.collected_documents);
                proof {
                    assert(self@ =~= clear_collected(
                        feed::<T>(clear_collected(old(self)@), bytes@),
                    ));
                }
                Ok(out)
            },
        }
    }
}

} // verus!
