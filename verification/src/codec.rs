//! The binary payload format of documents and index records.
//!
//! Every number is little-endian.  A string is its UTF-8 byte length (4
//! bytes) followed by its UTF-8 bytes; arrays and objects are a 4-byte entry
//! count followed by their entries; every value starts with a one-byte tag.
//! The decoder is proved to be the inverse of the encoder.

use vstd::prelude::*;
use vstd::bytes::{
    spec_u32_from_le_bytes, spec_u32_to_le_bytes, spec_u64_from_le_bytes, spec_u64_to_le_bytes,
};
use vstd::utf8::{decode_utf8, encode_utf8, valid_utf8};
use crate::doc::{DocView, Document, DocumentState, DocumentValue, ValueView};

verus! {

pub const TAG_INTEGER: u8 = 1;

pub const TAG_FLOAT: u8 = 2;

pub const TAG_STRING: u8 = 3;

pub const TAG_ARRAY: u8 = 4;

pub const TAG_OBJECT: u8 = 5;

pub const STATE_DELETED: u8 = 0;

pub const STATE_DELETED_UPDATING: u8 = 1;

pub const STATE_EXISTS: u8 = 2;

// ---------------------------------------------------------------------------
// Signed/unsigned conversion, stated arithmetically
// ---------------------------------------------------------------------------

/// The two's-complement image of a 32-bit signed integer.
pub open spec fn i32_to_u32(i: i32) -> u32 {
    if i >= 0 {
        i as u32
    } else {
        (i + 0x1_0000_0000) as u32
    }
}

/// The inverse of [`i32_to_u32`].
pub open spec fn u32_to_i32(u: u32) -> i32 {
    if u <= 0x7fff_ffff {
        u as i32
    } else {
        (u - 0x1_0000_0000) as i32
    }
}

pub proof fn lemma_i32_u32_round_trip(i: i32)
    ensures
        u32_to_i32(i32_to_u32(i)) == i,
{
}

// ---------------------------------------------------------------------------
// Encoding
// ---------------------------------------------------------------------------

/// A string: 4-byte UTF-8 length, then the UTF-8 bytes.
pub open spec fn encode_string(s: Seq<char>) -> Seq<u8> {
    spec_u32_to_le_bytes(encode_utf8(s).len() as u32) + encode_utf8(s)
}

/// The string is small enough for its length prefix.
pub open spec fn wf_string(s: Seq<char>) -> bool {
    encode_utf8(s).len() <= u32::MAX
}

pub open spec fn encode_value(v: ValueView) -> Seq<u8>
    decreases v,
{
    match v {
        ValueView::Integer(i) => seq![TAG_INTEGER] + spec_u32_to_le_bytes(i32_to_u32(i)),
        ValueView::Float(bits) => seq![TAG_FLOAT] + spec_u64_to_le_bytes(bits),
        ValueView::String(s) => seq![TAG_STRING] + encode_string(s),
        ValueView::Array(items) => seq![TAG_ARRAY] + spec_u32_to_le_bytes(items.len() as u32)
            + encode_values(items),
        ValueView::Object(pairs) => seq![TAG_OBJECT] + spec_u32_to_le_bytes(pairs.len() as u32)
            + encode_pairs(pairs),
    }
}

pub open spec fn encode_values(s: Seq<ValueView>) -> Seq<u8>
    decreases s,
{
    if s.len() == 0 {
        Seq::empty()
    } else {
        encode_value(s[0]) + encode_values(s.subrange(1, s.len() as int))
    }
}

pub open spec fn encode_pairs(s: Seq<(Seq<char>, ValueView)>) -> Seq<u8>
    decreases s,
{
    if s.len() == 0 {
        Seq::empty()
    } else {
        encode_string(s[0].0) + encode_value(s[0].1) + encode_pairs(s.subrange(1, s.len() as int))
    }
}

/// Every length in the value fits its 4-byte prefix.
pub open spec fn wf_value(v: ValueView) -> bool
    decreases v,
{
    match v {
        ValueView::Integer(_) => true,
        ValueView::Float(_) => true,
        ValueView::String(s) => wf_string(s),
        ValueView::Array(items) => {
            &&& items.len() <= u32::MAX
            &&& forall|i: int| 0 <= i < items.len() ==> wf_value(#[trigger] items[i])
        },
        ValueView::Object(pairs) => {
            &&& pairs.len() <= u32::MAX
            &&& forall|i: int| 0 <= i < pairs.len() ==> wf_string(#[trigger] pairs[i].0)
            &&& forall|i: int| 0 <= i < pairs.len() ==> wf_value(#[trigger] pairs[i].1)
        },
    }
}

pub open spec fn encode_state(st: DocumentState) -> u8 {
    match st {
        DocumentState::Deleted => STATE_DELETED,
        DocumentState::DeletedUpdating => STATE_DELETED_UPDATING,
        DocumentState::Exists => STATE_EXISTS,
    }
}

/// A document: state byte, 8-byte id, field count, then the fields.
pub open spec fn encode_document(d: DocView) -> Seq<u8> {
    seq![encode_state(d.state)] + spec_u64_to_le_bytes(d.id) + spec_u32_to_le_bytes(
        d.fields.len() as u32,
    ) + encode_pairs(d.fields)
}

pub open spec fn wf_doc(d: DocView) -> bool {
    &&& d.fields.len() <= u32::MAX
    &&& forall|i: int| 0 <= i < d.fields.len() ==> wf_string(#[trigger] d.fields[i].0)
    &&& forall|i: int| 0 <= i < d.fields.len() ==> wf_value(#[trigger] d.fields[i].1)
}

// ---------------------------------------------------------------------------
// Decoding
// ---------------------------------------------------------------------------

/// Decodes one length-prefixed string at the head of `bytes`; yields the
/// characters and the bytes consumed.
pub open spec fn decode_string(bytes: Seq<u8>) -> Option<(Seq<char>, nat)> {
    if bytes.len() < 4 {
        None
    } else {
        let n = spec_u32_from_le_bytes(bytes.subrange(0, 4)) as nat;
        if 4 + n > bytes.len() {
            None
        } else {
            let content = bytes.subrange(4, 4 + n as int);
            if valid_utf8(content) {
                Some((decode_utf8(content), 4 + n))
            } else {
                None
            }
        }
    }
}

/// Decodes one tagged value at the head of `bytes`.
pub open spec fn decode_value(bytes: Seq<u8>) -> Option<(ValueView, nat)>
    decreases bytes.len(), 0nat,
{
    if bytes.len() < 1 {
        None
    } else {
        let tag = bytes[0];
        let rest = bytes.subrange(1, bytes.len() as int);
        if tag == TAG_INTEGER {
            if rest.len() < 4 {
                None
            } else {
                Some(
                    (
                        ValueView::Integer(
                            u32_to_i32(spec_u32_from_le_bytes(rest.subrange(0, 4))),
                        ),
                        5,
                    ),
                )
            }
        } else if tag == TAG_FLOAT {
            if rest.len() < 8 {
                None
            } else {
                Some((ValueView::Float(spec_u64_from_le_bytes(rest.subrange(0, 8))), 9))
            }
        } else if tag == TAG_STRING {
            match decode_string(rest) {
                Some((s, c)) => Some((ValueView::String(s), (1 + c) as nat)),
                None => None,
            }
        } else if tag == TAG_ARRAY {
            if rest.len() < 4 {
                None
            } else {
                let n = spec_u32_from_le_bytes(rest.subrange(0, 4)) as nat;
                match decode_values(rest.subrange(4, rest.len() as int), n) {
                    Some((vs, c)) => Some((ValueView::Array(vs), (5 + c) as nat)),
                    None => None,
                }
            }
        } else if tag == TAG_OBJECT {
            if rest.len() < 4 {
                None
            } else {
                let n = spec_u32_from_le_bytes(rest.subrange(0, 4)) as nat;
                match decode_pairs(rest.subrange(4, rest.len() as int), n) {
                    Some((ps, c)) => Some((ValueView::Object(ps), (5 + c) as nat)),
                    None => None,
                }
            }
        } else {
            None
        }
    }
}

/// Decodes `n` consecutive values at the head of `bytes`.
pub open spec fn decode_values(bytes: Seq<u8>, n: nat) -> Option<(Seq<ValueView>, nat)>
    decreases bytes.len(), n + 1,
{
    if n == 0 {
        Some((Seq::empty(), 0))
    } else {
        match decode_value(bytes) {
            None => None,
            Some((v, c)) => {
                if c < 1 || c > bytes.len() {
                    None
                } else {
                    match decode_values(bytes.subrange(c as int, bytes.len() as int), (n - 1) as nat) {
                        None => None,
                        Some((vs, c2)) => Some((seq![v] + vs, c + c2)),
                    }
                }
            },
        }
    }
}

/// Decodes `n` consecutive key/value pairs at the head of `bytes`.
pub open spec fn decode_pairs(bytes: Seq<u8>, n: nat) -> Option<
    (Seq<(Seq<char>, ValueView)>, nat),
>
    decreases bytes.len(), n + 1,
{
    if n == 0 {
        Some((Seq::empty(), 0))
    } else {
        match decode_string(bytes) {
            None => None,
            Some((k, c1)) => {
                if c1 < 1 || c1 > bytes.len() {
                    None
                } else {
                    match decode_value(bytes.subrange(c1 as int, bytes.len() as int)) {
                        None => None,
                        Some((v, c2)) => {
                            let c12 = (c1 + c2) as nat;
                            if c2 < 1 || c12 > bytes.len() {
                                None
                            } else {
                                match decode_pairs(
                                    bytes.subrange(c12 as int, bytes.len() as int),
                                    (n - 1) as nat,
                                ) {
                                    None => None,
                                    Some((ps, c3)) => Some((seq![(k, v)] + ps, c12 + c3)),
                                }
                            }
                        },
                    }
                }
            },
        }
    }
}

/// Decodes a whole document payload; every byte must be consumed.
pub open spec fn decode_document(bytes: Seq<u8>) -> Option<DocView> {
    if bytes.len() < 13 {
        None
    } else {
        let st = bytes[0];
        if st != STATE_DELETED && st != STATE_DELETED_UPDATING && st != STATE_EXISTS {
            None
        } else {
            let state = if st == STATE_DELETED {
                DocumentState::Deleted
            } else if st == STATE_DELETED_UPDATING {
                DocumentState::DeletedUpdating
            } else {
                DocumentState::Exists
            };
            let id = spec_u64_from_le_bytes(bytes.subrange(1, 9));
            let n = spec_u32_from_le_bytes(bytes.subrange(9, 13)) as nat;
            match decode_pairs(bytes.subrange(13, bytes.len() as int), n) {
                None => None,
                Some((ps, c)) => {
                    if 13 + c == bytes.len() {
                        Some(DocView { state, id, fields: ps })
                    } else {
                        None
                    }
                },
            }
        }
    }
}

// ---------------------------------------------------------------------------
// The decoder inverts the encoder
// ---------------------------------------------------------------------------

/// Decoding an encoded string consumes exactly the encoding and returns the
/// original characters, whatever follows it.
pub proof fn lemma_round_trip_string(s: Seq<char>, rest: Seq<u8>)
    requires
        wf_string(s),
    ensures
        decode_string(encode_string(s) + rest) == Some(
            (s, encode_string(s).len() as nat),
        ),
        encode_string(s).len() == 4 + encode_utf8(s).len(),
{
    let b = encode_utf8(s);
    let e = encode_string(s);
    vstd::bytes::lemma_auto_spec_u32_to_from_le_bytes();
    let all = e + rest;
    assert(all.subrange(0, 4) =~= spec_u32_to_le_bytes(b.len() as u32));
    assert(spec_u32_from_le_bytes(all.subrange(0, 4)) == b.len());
    assert(all.subrange(4, 4 + b.len() as int) =~= b);
    vstd::utf8::encode_utf8_valid_utf8(s);
    vstd::utf8::encode_utf8_decode_utf8(s);
}

/// Every value encoding starts with its tag and is non-empty.
pub proof fn lemma_encode_value_len(v: ValueView)
    ensures
        encode_value(v).len() >= 1,
        encode_value(v)[0] == match v {
            ValueView::Integer(_) => TAG_INTEGER,
            ValueView::Float(_) => TAG_FLOAT,
            ValueView::String(_) => TAG_STRING,
            ValueView::Array(_) => TAG_ARRAY,
            ValueView::Object(_) => TAG_OBJECT,
        },
{
    match v {
        ValueView::Integer(_) => {},
        ValueView::Float(_) => {},
        ValueView::String(_) => {},
        ValueView::Array(_) => {},
        ValueView::Object(_) => {},
    }
}

/// Decoding an encoded value consumes exactly the encoding and returns the
/// original value, whatever follows it.
pub proof fn lemma_round_trip_value(v: ValueView, rest: Seq<u8>)
    requires
        wf_value(v),
    ensures
        decode_value(encode_value(v) + rest) == Some((v, encode_value(v).len() as nat)),
    decreases v,
{
    let e = encode_value(v);
    let all = e + rest;
    vstd::bytes::lemma_auto_spec_u32_to_from_le_bytes();
    vstd::bytes::lemma_auto_spec_u64_to_from_le_bytes();
    lemma_encode_value_len(v);
    assert(all[0] == e[0]);
    let tail = all.subrange(1, all.len() as int);
    match v {
        ValueView::Integer(i) => {
            let ib = spec_u32_to_le_bytes(i32_to_u32(i));
            assert(tail =~= ib + rest);
            assert(tail.subrange(0, 4) =~= ib);
            lemma_i32_u32_round_trip(i);
            assert(e.len() == 5);
        },
        ValueView::Float(bits) => {
            let fb = spec_u64_to_le_bytes(bits);
            assert(tail =~= fb + rest);
            assert(tail.subrange(0, 8) =~= fb);
            assert(e.len() == 9);
        },
        ValueView::String(s) => {
            assert(tail =~= encode_string(s) + rest);
            lemma_round_trip_string(s, rest);
            assert(e.len() == 1 + encode_string(s).len());
        },
        ValueView::Array(items) => {
            let nb = spec_u32_to_le_bytes(items.len() as u32);
            let ev = encode_values(items);
            assert(tail =~= nb + ev + rest);
            assert(tail.subrange(0, 4) =~= nb);
            assert(tail.subrange(4, tail.len() as int) =~= ev + rest);
            lemma_round_trip_values(items, rest);
            assert(e.len() == 5 + ev.len());
        },
        ValueView::Object(pairs) => {
            let nb = spec_u32_to_le_bytes(pairs.len() as u32);
            let ep = encode_pairs(pairs);
            assert(tail =~= nb + ep + rest);
            assert(tail.subrange(0, 4) =~= nb);
            assert(tail.subrange(4, tail.len() as int) =~= ep + rest);
            lemma_round_trip_pairs(pairs, rest);
            assert(e.len() == 5 + ep.len());
        },
    }
}

/// As [`lemma_round_trip_value`], for a run of values.
pub proof fn lemma_round_trip_values(s: Seq<ValueView>, rest: Seq<u8>)
    requires
        forall|i: int| 0 <= i < s.len() ==> wf_value(#[trigger] s[i]),
    ensures
        decode_values(encode_values(s) + rest, s.len() as nat) == Some(
            (s, encode_values(s).len() as nat),
        ),
    decreases s,
{
    if s.len() == 0 {
        assert(s =~= Seq::<ValueView>::empty());
    } else {
        let s1 = s.subrange(1, s.len() as int);
        let e0 = encode_value(s[0]);
        let ev = encode_values(s1);
        let all = encode_values(s) + rest;
        assert(all =~= e0 + (ev + rest));
        lemma_round_trip_value(s[0], ev + rest);
        lemma_encode_value_len(s[0]);
        assert(all.subrange(e0.len() as int, all.len() as int) =~= ev + rest);
        assert(forall|i: int| 0 <= i < s1.len() ==> wf_value(#[trigger] s1[i]));
        lemma_round_trip_values(s1, rest);
        assert(seq![s[0]] + s1 =~= s);
    }
}

/// As [`lemma_round_trip_value`], for a run of key/value pairs.
pub proof fn lemma_round_trip_pairs(s: Seq<(Seq<char>, ValueView)>, rest: Seq<u8>)
    requires
        forall|i: int| 0 <= i < s.len() ==> wf_string(#[trigger] s[i].0),
        forall|i: int| 0 <= i < s.len() ==> wf_value(#[trigger] s[i].1),
    ensures
        decode_pairs(encode_pairs(s) + rest, s.len() as nat) == Some(
            (s, encode_pairs(s).len() as nat),
        ),
    decreases s,
{
    if s.len() == 0 {
        assert(s =~= Seq::<(Seq<char>, ValueView)>::empty());
    } else {
        let s1 = s.subrange(1, s.len() as int);
        let ek = encode_string(s[0].0);
        let e0 = encode_value(s[0].1);
        let ep = encode_pairs(s1);
        let all = encode_pairs(s) + rest;
        assert(all =~= ek + (e0 + (ep + rest)));
        lemma_round_trip_string(s[0].0, e0 + (ep + rest));
        assert(all.subrange(ek.len() as int, all.len() as int) =~= e0 + (ep + rest));
        lemma_round_trip_value(s[0].1, ep + rest);
        lemma_encode_value_len(s[0].1);
        assert(all.subrange(ek.len() + e0.len() as int, all.len() as int) =~= ep + rest);
        assert(forall|i: int| 0 <= i < s1.len() ==> wf_string(#[trigger] s1[i].0));
        assert(forall|i: int| 0 <= i < s1.len() ==> wf_value(#[trigger] s1[i].1));
        lemma_round_trip_pairs(s1, rest);
        assert(seq![(s[0].0, s[0].1)] + s1 =~= s);
    }
}

/// Decoding an encoded document payload gives back the document.
pub proof fn lemma_round_trip_document(d: DocView)
    requires
        wf_doc(d),
    ensures
        decode_document(encode_document(d)) == Some(d),
        encode_document(d).len() == 13 + encode_pairs(d.fields).len(),
{
    let e = encode_document(d);
    vstd::bytes::lemma_auto_spec_u32_to_from_le_bytes();
    vstd::bytes::lemma_auto_spec_u64_to_from_le_bytes();
    let sb = seq![encode_state(d.state)];
    let idb = spec_u64_to_le_bytes(d.id);
    let nb = spec_u32_to_le_bytes(d.fields.len() as u32);
    let ep = encode_pairs(d.fields);
    assert(e.len() == 13 + ep.len());
    assert(e[0] == encode_state(d.state));
    assert(e.subrange(1, 9) =~= idb);
    assert(e.subrange(9, 13) =~= nb);
    assert(e.subrange(13, e.len() as int) =~= ep + Seq::<u8>::empty());
    lemma_round_trip_pairs(d.fields, Seq::empty());
    assert(decode_document(e) == Some(DocView { state: d.state, id: d.id, fields: d.fields }));
    assert(DocView { state: d.state, id: d.id, fields: d.fields } =~= d);
}


// ---------------------------------------------------------------------------
// Executable encoder
// ---------------------------------------------------------------------------

/// Executable counterpart of [`i32_to_u32`].
pub fn i32_bits(i: i32) -> (u: u32)
    ensures
        u == i32_to_u32(i),
{
    if i >= 0 {
        i as u32
    } else {
        (((i as i64) + 0x1_0000_0000) as u32)
    }
}

/// Executable counterpart of [`u32_to_i32`].
pub fn i32_of_bits(u: u32) -> (i: i32)
    ensures
        i == u32_to_i32(u),
{
    if u <= 0x7fff_ffff {
        u as i32
    } else {
        (((u as i64) - 0x1_0000_0000) as i32)
    }
}

/// Relies on `String::from_utf8`: it succeeds exactly on valid UTF-8 and
/// returns the string whose UTF-8 encoding is the input.
#[verifier::external_body]
fn string_from_utf8(v: Vec<u8>) -> (r: Option<String>)
    ensures
        r matches Some(s) ==> encode_utf8(s@) == v@,
        r is None ==> !valid_utf8(v@),
        valid_utf8(v@) ==> r is Some,
{
    String::from_utf8(v).ok()
}

/// Appends the encoding of one string.
pub fn push_string(s: &str, out: &mut Vec<u8>)
    requires
        wf_string(s@),
    ensures
        final(out)@ == old(out)@ + encode_string(s@),
{
    proof {
        vstd::string::is_ascii_spec_bytes(s);
    }
    let b = s.as_bytes();
    let mut lenb = vstd::bytes::u32_to_le_bytes(b.len() as u32);
    out.append(&mut lenb);
    let mut content = vstd::slice::slice_to_vec(b);
    out.append(&mut content);
    proof {
        assert(out@ =~= old(out)@ + encode_string(s@));
    }
}

/// Appends the encoding of one value.
#[verifier::loop_isolation(false)]
#[verifier::rlimit(80)]
#[verifier::spinoff_prover]
pub fn encode_value_into(v: &DocumentValue, out: &mut Vec<u8>)
    requires
        wf_value(v@),
    ensures
        final(out)@ == old(out)@ + encode_value(v@),
    decreases *v,
{
    match v {
        DocumentValue::Integer(i) => {
            out.push(TAG_INTEGER);
            let mut b = vstd::bytes::u32_to_le_bytes(i32_bits(*i));
            out.append(&mut b);
            proof {
                assert(out@ =~= old(out)@ + encode_value(v@));
            }
        },
        DocumentValue::Float(bits) => {
            out.push(TAG_FLOAT);
            let mut b = vstd::bytes::u64_to_le_bytes(*bits);
            out.append(&mut b);
            proof {
                assert(out@ =~= old(out)@ + encode_value(v@));
            }
        },
        DocumentValue::String(s) => {
            out.push(TAG_STRING);
            push_string(s.as_str(), out);
            proof {
                assert(out@ =~= old(out)@ + encode_value(v@));
            }
        },
        DocumentValue::Array(items) => {
            proof {
                crate::doc::lemma_view_value_seq_len(items@);
            }
            let ghost vs = crate::doc::view_value_seq(items@);
            out.push(TAG_ARRAY);
            let n = items.len();
            let mut nb = vstd::bytes::u32_to_le_bytes(n as u32);
            out.append(&mut nb);
            let ghost base = out@;
            proof {
                assert(vs.subrange(0, 0) =~= Seq::<ValueView>::empty());
                assert(out@ =~= base + encode_values(vs.subrange(0, 0)));
            }
            for j in 0..n
                invariant
                    out@ == base + encode_values(vs.subrange(0, j as int)),
            {
                proof {
                    crate::doc::lemma_view_value_seq_index(items@, j as int);
                    assert(wf_value(vs[j as int]));
                    assert(decreases_to!(*v => (*v)->Array_0));
                    assert(decreases_to!((*v)->Array_0 => (*v)->Array_0[j as int]));
                    assert((*v)->Array_0[j as int] == items@[j as int]);
                }
                encode_value_into(&items[j], out);
                proof {
                    assert(vs.subrange(0, j + 1) =~= vs.subrange(0, j as int).push(vs[j as int]));
                    lemma_encode_values_snoc(vs.subrange(0, j as int), vs[j as int]);
                }
            }
            proof {
                assert(vs.subrange(0, n as int) =~= vs);
                assert(out@ =~= old(out)@ + encode_value(v@));
            }
        },
        DocumentValue::Object(pairs) => {
            proof {
                crate::doc::lemma_view_pair_seq_len(pairs@);
            }
            let ghost ps = crate::doc::view_pair_seq(pairs@);
            out.push(TAG_OBJECT);
            let n = pairs.len();
            let mut nb = vstd::bytes::u32_to_le_bytes(n as u32);
            out.append(&mut nb);
            let ghost base = out@;
            proof {
                assert(ps.subrange(0, 0) =~= Seq::<(Seq<char>, ValueView)>::empty());
                assert(out@ =~= base + encode_pairs(ps.subrange(0, 0)));
            }
            for j in 0..n
                invariant
                    out@ == base + encode_pairs(ps.subrange(0, j as int)),
            {
                proof {
                    crate::doc::lemma_view_pair_seq_index(pairs@, j as int);
                    assert(wf_string(ps[j as int].0));
                    assert(wf_value(ps[j as int].1));
                    assert(decreases_to!(*v => (*v)->Object_0));
                    assert(decreases_to!((*v)->Object_0 => (*v)->Object_0[j as int]));
                    assert((*v)->Object_0[j as int] == pairs@[j as int]);
                    assert(decreases_to!(pairs@[j as int] => pairs@[j as int].1));
                }
                let (k, val) = &pairs[j];
                proof {
                    assert(pairs@[j as int] == (*k, *val));
                }
                push_string(k.as_str(), out);
                encode_value_into(val, out);
                proof {
                    assert(ps.subrange(0, j + 1) =~= ps.subrange(0, j as int).push(ps[j as int]));
                    lemma_encode_pairs_snoc(ps.subrange(0, j as int), ps[j as int]);
                }
            }
            proof {
                assert(ps.subrange(0, n as int) =~= ps);
                assert(out@ =~= old(out)@ + encode_value(v@));
            }
        },
    }
}

/// Appending one value to a run extends its encoding.
pub proof fn lemma_encode_values_snoc(s: Seq<ValueView>, x: ValueView)
    ensures
        encode_values(s.push(x)) == encode_values(s) + encode_value(x),
    decreases s,
{
    reveal_with_fuel(encode_values, 3);
    let sp = s.push(x);
    if s.len() == 0 {
        assert(sp[0] == x);
        assert(sp.subrange(1, sp.len() as int) =~= Seq::<ValueView>::empty());
        assert(encode_values(sp) =~= encode_values(s) + encode_value(x));
    } else {
        assert(sp.subrange(1, sp.len() as int) =~= s.subrange(1, s.len() as int).push(x));
        assert(sp[0] == s[0]);
        lemma_encode_values_snoc(s.subrange(1, s.len() as int), x);
        assert(encode_values(sp) =~= encode_values(s) + encode_value(x));
    }
}

/// Appending one pair to a run extends its encoding.
pub proof fn lemma_encode_pairs_snoc(s: Seq<(Seq<char>, ValueView)>, x: (Seq<char>, ValueView))
    ensures
        encode_pairs(s.push(x)) == encode_pairs(s) + encode_string(x.0) + encode_value(x.1),
    decreases s,
{
    reveal_with_fuel(encode_pairs, 3);
    let sp = s.push(x);
    if s.len() == 0 {
        assert(sp[0] == x);
        assert(sp.subrange(1, sp.len() as int) =~= Seq::<(Seq<char>, ValueView)>::empty());
        assert(encode_pairs(sp) =~= encode_pairs(s) + encode_string(x.0) + encode_value(x.1));
    } else {
        assert(sp.subrange(1, sp.len() as int) =~= s.subrange(1, s.len() as int).push(x));
        assert(sp[0] == s[0]);
        lemma_encode_pairs_snoc(s.subrange(1, s.len() as int), x);
        assert(encode_pairs(sp) =~= encode_pairs(s) + encode_string(x.0) + encode_value(x.1));
    }
}


// ---------------------------------------------------------------------------
// Executable decoder
// ---------------------------------------------------------------------------

/// Decodes one length-prefixed string starting at `pos`.
pub fn decode_string_from(bytes: &[u8], pos: usize) -> (r: Option<(String, usize)>)
    requires
        pos <= bytes@.len(),
    ensures
        ({
            let span = bytes@.subrange(pos as int, bytes@.len() as int);
            match r {
                Some((s, c)) => {
                    &&& decode_string(span) == Some((s@, c as nat))
                    &&& 4 <= c
                    &&& pos + c <= bytes@.len()
                },
                None => decode_string(span) is None,
            }
        }),
{
    let len = bytes.len();
    let ghost span = bytes@.subrange(pos as int, bytes@.len() as int);
    if len - pos < 4 {
        return None;
    }
    let nb = vstd::slice::slice_subrange(bytes, pos, pos + 4);
    let n32 = vstd::bytes::u32_from_le_bytes(nb);
    proof {
        assert(span.subrange(0, 4) =~= bytes@.subrange(pos as int, pos + 4));
    }
    let n = n32 as usize;
    if n > len - (pos + 4) {
        return None;
    }
    let content = vstd::slice::slice_subrange(bytes, pos + 4, pos + 4 + n);
    let v = vstd::slice::slice_to_vec(content);
    proof {
        assert(v@ =~= span.subrange(4, 4 + n as int));
    }
    match string_from_utf8(v) {
        Some(s) => {
            proof {
                vstd::utf8::encode_utf8_valid_utf8(s@);
                vstd::utf8::encode_utf8_decode_utf8(s@);
            }
            Some((s, 4 + n))
        },
        None => None,
    }
}

/// Decodes one tagged value starting at `pos`.
#[verifier::loop_isolation(false)]
#[verifier::rlimit(80)]
#[verifier::spinoff_prover]
pub fn decode_value_from(bytes: &[u8], pos: usize) -> (r: Option<(DocumentValue, usize)>)
    requires
        pos <= bytes@.len(),
    ensures
        ({
            let span = bytes@.subrange(pos as int, bytes@.len() as int);
            match r {
                Some((v, c)) => {
                    &&& decode_value(span) == Some((v@, c as nat))
                    &&& 1 <= c
                    &&& pos + c <= bytes@.len()
                },
                None => decode_value(span) is None,
            }
        }),
    decreases bytes@.len() - pos, 0nat,
{
    let len = bytes.len();
    let ghost span = bytes@.subrange(pos as int, bytes@.len() as int);
    if len - pos < 1 {
        return None;
    }
    let tag = bytes[pos];
    let ghost rest = span.subrange(1, span.len() as int);
    proof {
        assert(span[0] == bytes@[pos as int]);
        assert(rest =~= bytes@.subrange(pos + 1, len as int));
    }
    if tag == TAG_INTEGER {
        if len - (pos + 1) < 4 {
            return None;
        }
        let u = vstd::bytes::u32_from_le_bytes(vstd::slice::slice_subrange(bytes, pos + 1, pos + 5));
        proof {
            assert(rest.subrange(0, 4) =~= bytes@.subrange(pos + 1, pos + 5));
        }
        Some((DocumentValue::Integer(i32_of_bits(u)), 5))
    } else if tag == TAG_FLOAT {
        if len - (pos + 1) < 8 {
            return None;
        }
        let bits = vstd::bytes::u64_from_le_bytes(vstd::slice::slice_subrange(bytes, pos + 1, pos + 9));
        proof {
            assert(rest.subrange(0, 8) =~= bytes@.subrange(pos + 1, pos + 9));
        }
        Some((DocumentValue::Float(bits), 9))
    } else if tag == TAG_STRING {
        proof {
            assert(rest =~= bytes@.subrange(pos + 1, len as int));
        }
        match decode_string_from(bytes, pos + 1) {
            Some((s, c)) => Some((DocumentValue::String(s), 1 + c)),
            None => None,
        }
    } else if tag == TAG_ARRAY {
        if len - (pos + 1) < 4 {
            return None;
        }
        let n32 = vstd::bytes::u32_from_le_bytes(vstd::slice::slice_subrange(bytes, pos + 1, pos + 5));
        proof {
            assert(rest.subrange(0, 4) =~= bytes@.subrange(pos + 1, pos + 5));
            assert(rest.subrange(4, rest.len() as int) =~= bytes@.subrange(pos + 5, len as int));
        }
        let n = n32 as usize;
        let mut out: Vec<DocumentValue> = Vec::new();
        let mut cursor: usize = pos + 5;
        let ghost elems_start = pos + 5;
        proof {
            crate::doc::lemma_view_value_seq_len(out@);
            assert(out@ =~= Seq::<DocumentValue>::empty());
            assert(crate::doc::view_value_seq(out@) =~= Seq::<ValueView>::empty());
        }
        for j in 0..n
            invariant
                elems_start <= cursor <= len,
                crate::doc::view_value_seq(out@).len() == j,
                ({
                    let full = decode_values(
                        bytes@.subrange(elems_start as int, len as int),
                        n as nat,
                    );
                    let tail = decode_values(
                        bytes@.subrange(cursor as int, len as int),
                        (n - j) as nat,
                    );
                    match tail {
                        Some((vs, c2)) => full == Some(
                            (
                                crate::doc::view_value_seq(out@) + vs,
                                ((cursor - elems_start) + c2) as nat,
                            ),
                        ),
                        None => full is None,
                    }
                }),
        {
            let ghost tail_bytes = bytes@.subrange(cursor as int, len as int);
            match decode_value_from(bytes, cursor) {
                None => {
                    return None;
                },
                Some((v, c)) => {
                    proof {
                        assert(tail_bytes.subrange(c as int, tail_bytes.len() as int)
                            =~= bytes@.subrange(cursor + c, len as int));
                        crate::doc::lemma_view_value_seq_snoc(out@, v);
                    }
                    out.push(v);
                    cursor = cursor + c;
                },
            }
        }
        proof {
            assert(decode_values(bytes@.subrange(cursor as int, len as int), 0) == Some(
                (Seq::<ValueView>::empty(), 0nat),
            ));
            assert(crate::doc::view_value_seq(out@) + Seq::<ValueView>::empty()
                =~= crate::doc::view_value_seq(out@));
        }
        Some((DocumentValue::Array(out), cursor - pos))
    } else if tag == TAG_OBJECT {
        if len - (pos + 1) < 4 {
            return None;
        }
        let n32 = vstd::bytes::u32_from_le_bytes(vstd::slice::slice_subrange(bytes, pos + 1, pos + 5));
        proof {
            assert(rest.subrange(0, 4) =~= bytes@.subrange(pos + 1, pos + 5));
            assert(rest.subrange(4, rest.len() as int) =~= bytes@.subrange(pos + 5, len as int));
        }
        let n = n32 as usize;
        match decode_pairs_from(bytes, pos + 5, n) {
            Some((ps, c)) => Some((DocumentValue::Object(ps), 5 + c)),
            None => None,
        }
    } else {
        None
    }
}

/// A list of document fields: keys with their values.
pub type FieldList = Vec<(String, DocumentValue)>;

/// Decodes `n` key/value pairs starting at `pos`.
#[verifier::loop_isolation(false)]
#[verifier::rlimit(30)]
pub fn decode_pairs_from(bytes: &[u8], pos: usize, n: usize) -> (r: Option<(FieldList, usize)>)
    requires
        pos <= bytes@.len(),
    ensures
        ({
            let span = bytes@.subrange(pos as int, bytes@.len() as int);
            match r {
                Some((ps, c)) => {
                    &&& decode_pairs(span, n as nat) == Some((crate::doc::view_pair_seq(ps@), c as nat))
                    &&& pos + c <= bytes@.len()
                },
                None => decode_pairs(span, n as nat) is None,
            }
        }),
    decreases bytes@.len() - pos, 1nat,
{
    let len = bytes.len();
    let mut out: Vec<(String, DocumentValue)> = Vec::new();
    let mut cursor: usize = pos;
    proof {
        crate::doc::lemma_view_pair_seq_len(out@);
        assert(out@ =~= Seq::<(String, DocumentValue)>::empty());
        assert(crate::doc::view_pair_seq(out@) =~= Seq::<(Seq<char>, ValueView)>::empty());
    }
    for j in 0..n
        invariant
            pos <= cursor <= len,
            crate::doc::view_pair_seq(out@).len() == j,
            ({
                let full = decode_pairs(bytes@.subrange(pos as int, len as int), n as nat);
                let tail = decode_pairs(
                    bytes@.subrange(cursor as int, len as int),
                    (n - j) as nat,
                );
                match tail {
                    Some((ps2, c2)) => full == Some(
                        (crate::doc::view_pair_seq(out@) + ps2, ((cursor - pos) + c2) as nat),
                    ),
                    None => full is None,
                }
            }),
    {
        let ghost tail_bytes = bytes@.subrange(cursor as int, len as int);
        let key = decode_string_from(bytes, cursor);
        match key {
            None => {
                return None;
            },
            Some((k, c1)) => {
                proof {
                    assert(tail_bytes.subrange(c1 as int, tail_bytes.len() as int)
                        =~= bytes@.subrange(cursor + c1, len as int));
                }
                match decode_value_from(bytes, cursor + c1) {
                    None => {
                        return None;
                    },
                    Some((v, c2)) => {
                        proof {
                            assert(tail_bytes.subrange(c1 + c2 as int, tail_bytes.len() as int)
                                =~= bytes@.subrange(cursor + c1 + c2, len as int));
                            crate::doc::lemma_view_pair_seq_snoc(out@, (k, v));
                        }
                        out.push((k, v));
                        cursor = cursor + c1 + c2;
                    },
                }
            },
        }
    }
    proof {
        assert(decode_pairs(bytes@.subrange(cursor as int, len as int), 0) == Some(
            (Seq::<(Seq<char>, ValueView)>::empty(), 0nat),
        ));
        assert(crate::doc::view_pair_seq(out@) + Seq::<(Seq<char>, ValueView)>::empty()
            =~= crate::doc::view_pair_seq(out@));
    }
    Some((out, cursor - pos))
}


// ---------------------------------------------------------------------------
// Document framing
// ---------------------------------------------------------------------------

/// Executable counterpart of [`encode_state`].
pub fn state_byte(st: DocumentState) -> (b: u8)
    ensures
        b == encode_state(st),
{
    match st {
        DocumentState::Deleted => STATE_DELETED,
        DocumentState::DeletedUpdating => STATE_DELETED_UPDATING,
        DocumentState::Exists => STATE_EXISTS,
    }
}

/// Prepends the 4-byte little-endian length of the buffer to the buffer,
/// turning a payload into a length-prefixed frame body.
pub fn insert_vec_length(vec: &mut Vec<u8>)
    requires
        old(vec)@.len() <= u32::MAX,
    ensures
        final(vec)@ == vstd::bytes::spec_u32_to_le_bytes(old(vec)@.len() as u32) + old(vec)@,
{
    let mut prefixed = vstd::bytes::u32_to_le_bytes(vec.len() as u32);
    prefixed.append(vec);
    core::mem::swap(vec, &mut prefixed);
}

impl Document {
    /// Encodes the document into one complete frame:
    /// `[4-byte length][payload][delimiter]`.  The framing overhead is
    /// exactly 5 bytes beyond the payload.
    #[verifier::loop_isolation(false)]
    pub fn serialize(&self) -> (r: Vec<u8>)
        requires
            wf_doc(self@),
            encode_document(self@).len() <= u32::MAX,
        ensures
            r@ == crate::reader::frame_bytes(encode_document(self@)),
            r@.len() == encode_document(self@).len() + 5,
    {
        proof {
            crate::doc::lemma_view_pair_seq_len(self.fields@);
        }
        let ghost ps = crate::doc::view_pair_seq(self.fields@);
        let mut out: Vec<u8> = Vec::new();
        out.push(state_byte(self.state));
        let mut idb = vstd::bytes::u64_to_le_bytes(self.id);
        out.append(&mut idb);
        let n = self.fields.len();
        let mut nb = vstd::bytes::u32_to_le_bytes(n as u32);
        out.append(&mut nb);
        let ghost base = out@;
        proof {
            assert(ps.subrange(0, 0) =~= Seq::<(Seq<char>, ValueView)>::empty());
            assert(out@ =~= base + encode_pairs(ps.subrange(0, 0)));
        }
        for j in 0..n
            invariant
                out@ == base + encode_pairs(ps.subrange(0, j as int)),
        {
            proof {
                crate::doc::lemma_view_pair_seq_index(self.fields@, j as int);
                assert(wf_string(ps[j as int].0));
                assert(wf_value(ps[j as int].1));
            }
            let (k, val) = &self.fields[j];
            proof {
                assert(self.fields@[j as int] == (*k, *val));
            }
            push_string(k.as_str(), &mut out);
            encode_value_into(val, &mut out);
            proof {
                assert(ps.subrange(0, j + 1) =~= ps.subrange(0, j as int).push(ps[j as int]));
                lemma_encode_pairs_snoc(ps.subrange(0, j as int), ps[j as int]);
            }
        }
        proof {
            assert(ps.subrange(0, n as int) =~= ps);
            assert(out@ =~= encode_document(self@));
        }
        insert_vec_length(&mut out);
        out.push(crate::FRAME_DELIMITER);
        proof {
            vstd::bytes::lemma_auto_spec_u32_to_from_le_bytes();
            assert(out@ =~= crate::reader::frame_bytes(encode_document(self@)));
        }
        out
    }
}

impl crate::reader::Deserializable for Document {
    /// A document payload decodes through [`decode_document`]; every byte of
    /// the payload must be used.
    open spec fn decode_spec(bytes: Seq<u8>) -> Option<DocView> {
        decode_document(bytes)
    }

    fn deserialize(bytes: &[u8]) -> (r: Option<Document>) {
        let len = bytes.len();
        if len < 13 {
            return None;
        }
        let st = bytes[0];
        proof {
            assert(bytes@.subrange(0, bytes@.len() as int) =~= bytes@);
        }
        let state = if st == STATE_DELETED {
            DocumentState::Deleted
        } else if st == STATE_DELETED_UPDATING {
            DocumentState::DeletedUpdating
        } else if st == STATE_EXISTS {
            DocumentState::Exists
        } else {
            return None;
        };
        let id = vstd::bytes::u64_from_le_bytes(vstd::slice::slice_subrange(bytes, 1, 9));
        let n32 = vstd::bytes::u32_from_le_bytes(vstd::slice::slice_subrange(bytes, 9, 13));
        let n = n32 as usize;
        match decode_pairs_from(bytes, 13, n) {
            None => None,
            Some((fields, c)) => {
                if 13 + c != len {
                    return None;
                }
                let d = Document { state, id, fields };
                proof {
                    assert(d.deep_view() =~= decode_document(bytes@).unwrap());
                }
                Some(d)
            },
        }
    }
}

// ---------------------------------------------------------------------------
// Index records
// ---------------------------------------------------------------------------

/// An index record payload: the document id, then the indexed value.
pub open spec fn encode_index_record(id: u64, v: ValueView) -> Seq<u8> {
    spec_u64_to_le_bytes(id) + encode_value(v)
}

/// Decodes a whole index record payload; every byte must be consumed.
pub open spec fn decode_index_record(bytes: Seq<u8>) -> Option<(u64, ValueView)> {
    if bytes.len() < 9 {
        None
    } else {
        let id = spec_u64_from_le_bytes(bytes.subrange(0, 8));
        match decode_value(bytes.subrange(8, bytes.len() as int)) {
            Some((v, c)) => {
                if 8 + c == bytes.len() {
                    Some((id, v))
                } else {
                    None
                }
            },
            None => None,
        }
    }
}

/// Decoding an encoded index record gives back the record.
pub proof fn lemma_round_trip_index_record(id: u64, v: ValueView)
    requires
        wf_value(v),
    ensures
        decode_index_record(encode_index_record(id, v)) == Some((id, v)),
        encode_index_record(id, v).len() == 8 + encode_value(v).len(),
{
    let e = encode_index_record(id, v);
    vstd::bytes::lemma_auto_spec_u64_to_from_le_bytes();
    lemma_encode_value_len(v);
    assert(e.subrange(0, 8) =~= spec_u64_to_le_bytes(id));
    assert(e.subrange(8, e.len() as int) =~= encode_value(v) + Seq::<u8>::empty());
    lemma_round_trip_value(v, Seq::empty());
}

} // verus!
