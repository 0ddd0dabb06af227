//! The ordered secondary index: a map from field value to document id,
//! persisted as an append log behind a fixed-size metadata header.

use vstd::prelude::*;
use vstd::bytes::{spec_u32_from_le_bytes, spec_u32_to_le_bytes};
use vstd::utf8::encode_utf8;
use core::cmp::Ordering;
use crate::doc::{
    bytes_cmp, bytes_compare, lemma_bytes_cmp_eq, lemma_bytes_cmp_flip, lemma_bytes_cmp_trans,
    reverse_ordering, DocumentValue, ValueView,
};
use crate::codec::{decode_string, encode_string, encode_value, wf_string, wf_value};
use crate::reader::FrameError;

verus! {

/// Why an index operation failed.
#[derive(Clone, Copy, PartialEq, Eq, Structural, Debug)]
pub enum IndexError {
    /// The sort direction is not one of the two recognized values.
    Sorting,
    /// The serialized metadata would not fit the reserved 1024-byte header.
    MetaTooBig,
    /// An index file already exists at the target path.
    PathExists,
    /// The header or the log did not decode.
    Corrupt(FrameError),
}

// ---------------------------------------------------------------------------
// Index metadata and its header
// ---------------------------------------------------------------------------

/// What an index is over: a field of a collection, with a sort direction
/// (`1` ascending, `-1` descending).
pub struct IndexMetaData {
    pub field: String,
    pub collection_name: String,
    pub sorting: i8,
}

/// The mathematical shape of [`IndexMetaData`].
pub struct MetaView {
    pub field: Seq<char>,
    pub collection_name: Seq<char>,
    pub sorting: i8,
}

impl View for IndexMetaData {
    type V = MetaView;

    open spec fn view(&self) -> MetaView {
        MetaView {
            field: self.field@,
            collection_name: self.collection_name@,
            sorting: self.sorting,
        }
    }
}

/// The two's-complement byte of an 8-bit signed integer.
pub open spec fn i8_to_u8(i: i8) -> u8 {
    if i >= 0 {
        i as u8
    } else {
        (i + 0x100) as u8
    }
}

/// The inverse of [`i8_to_u8`].
pub open spec fn u8_to_i8(u: u8) -> i8 {
    if u <= 0x7f {
        u as i8
    } else {
        (u - 0x100) as i8
    }
}

/// A metadata record: the field name, the collection name, the direction.
pub open spec fn encode_metadata(m: MetaView) -> Seq<u8> {
    encode_string(m.field) + encode_string(m.collection_name) + seq![i8_to_u8(m.sorting)]
}

/// Decodes a whole metadata record; every byte must be consumed.
pub open spec fn decode_metadata(bytes: Seq<u8>) -> Option<MetaView> {
    match decode_string(bytes) {
        None => None,
        Some((f, c1)) => {
            if c1 > bytes.len() {
                None
            } else {
                match decode_string(bytes.subrange(c1 as int, bytes.len() as int)) {
                    None => None,
                    Some((cn, c2)) => {
                        if c1 + c2 + 1 == bytes.len() {
                            Some(
                                MetaView {
                                    field: f,
                                    collection_name: cn,
                                    sorting: u8_to_i8(bytes[bytes.len() - 1]),
                                },
                            )
                        } else {
                            None
                        }
                    },
                }
            }
        },
    }
}

pub proof fn lemma_round_trip_metadata(m: MetaView)
    requires
        wf_string(m.field),
        wf_string(m.collection_name),
    ensures
        decode_metadata(encode_metadata(m)) == Some(m),
        encode_metadata(m).len() == 9 + encode_utf8(m.field).len() + encode_utf8(
            m.collection_name,
        ).len(),
{
    let e = encode_metadata(m);
    let ef = encode_string(m.field);
    let ec = encode_string(m.collection_name);
    crate::codec::lemma_round_trip_string(m.field, ec + seq![i8_to_u8(m.sorting)]);
    assert(e =~= ef + (ec + seq![i8_to_u8(m.sorting)]));
    assert(e.subrange(ef.len() as int, e.len() as int) =~= ec + seq![i8_to_u8(m.sorting)]);
    crate::codec::lemma_round_trip_string(m.collection_name, seq![i8_to_u8(m.sorting)]);
    assert(e[e.len() - 1] == i8_to_u8(m.sorting));
    assert(decode_metadata(e) == Some(
        MetaView {
            field: m.field,
            collection_name: m.collection_name,
            sorting: u8_to_i8(i8_to_u8(m.sorting)),
        },
    ));
    assert(u8_to_i8(i8_to_u8(m.sorting)) == m.sorting);
}

/// The reserved header length at the start of every index file.
pub const INDEX_HEADER_LEN: usize = 1024;

/// The fixed 1024-byte header: 4-byte metadata length, the metadata record,
/// zero padding.
pub open spec fn index_header(m: MetaView) -> Seq<u8> {
    let e = encode_metadata(m);
    spec_u32_to_le_bytes(e.len() as u32) + e + Seq::new((1024 - (4 + e.len())) as nat, |i: int| 0u8)
}

/// What the first 1024 bytes of an index file hold, if they are well formed.
pub open spec fn parse_header(bytes: Seq<u8>) -> Option<MetaView> {
    if bytes.len() < 1024 {
        None
    } else {
        let l = spec_u32_from_le_bytes(bytes.subrange(0, 4)) as nat;
        if 4 + l > 1024 {
            None
        } else {
            decode_metadata(bytes.subrange(4, 4 + l as int))
        }
    }
}

/// Reading back a written header yields the metadata, whatever follows the
/// header.
pub proof fn lemma_round_trip_header(m: MetaView, rest: Seq<u8>)
    requires
        wf_string(m.field),
        wf_string(m.collection_name),
        4 + encode_metadata(m).len() <= 1024,
    ensures
        index_header(m).len() == 1024,
        parse_header(index_header(m) + rest) == Some(m),
{
    let e = encode_metadata(m);
    let h = index_header(m);
    let all = h + rest;
    vstd::bytes::lemma_auto_spec_u32_to_from_le_bytes();
    lemma_round_trip_metadata(m);
    assert(all.subrange(0, 4) =~= spec_u32_to_le_bytes(e.len() as u32));
    assert(all.subrange(4, 4 + e.len() as int) =~= e);
}

// ---------------------------------------------------------------------------
// The total order on index keys
// ---------------------------------------------------------------------------

/// A rank that separates the variants.
pub open spec fn key_rank(v: ValueView) -> int {
    match v {
        ValueView::Integer(_) => 0,
        ValueView::Float(_) => 1,
        ValueView::String(_) => 2,
        ValueView::Array(_) => 3,
        ValueView::Object(_) => 4,
    }
}

pub open spec fn ord_of_ints(x: int, y: int) -> Ordering {
    if x < y {
        Ordering::Less
    } else if x > y {
        Ordering::Greater
    } else {
        Ordering::Equal
    }
}

/// The key of a float for total ordering: the sign-flipped bit pattern, so
/// that `u64` order equals the IEEE total order.
pub open spec fn float_order_bits(x: u64) -> u64 {
    if x >> 63 == 1 {
        !x
    } else {
        x | 0x8000_0000_0000_0000
    }
}

/// The total order the index map is organized by.  It extends the partial
/// value order: integers numerically, floats in IEEE total order, strings
/// and arrays lexicographically; entries of different variants are grouped
/// by variant; objects compare by their entry lists.
pub open spec fn key_cmp(a: ValueView, b: ValueView) -> Ordering
    decreases a,
{
    if key_rank(a) != key_rank(b) {
        ord_of_ints(key_rank(a), key_rank(b))
    } else {
        match (a, b) {
            (ValueView::Integer(x), ValueView::Integer(y)) => ord_of_ints(x as int, y as int),
            (ValueView::Float(x), ValueView::Float(y)) => ord_of_ints(
                float_order_bits(x) as int,
                float_order_bits(y) as int,
            ),
            (ValueView::String(x), ValueView::String(y)) => bytes_cmp(
                encode_utf8(x),
                encode_utf8(y),
            ),
            (ValueView::Array(x), ValueView::Array(y)) => key_seq_cmp(x, y),
            (ValueView::Object(x), ValueView::Object(y)) => key_pair_seq_cmp(x, y),
            _ => Ordering::Equal,
        }
    }
}

pub open spec fn key_seq_cmp(x: Seq<ValueView>, y: Seq<ValueView>) -> Ordering
    decreases x,
{
    if x.len() == 0 && y.len() == 0 {
        Ordering::Equal
    } else if x.len() == 0 {
        Ordering::Less
    } else if y.len() == 0 {
        Ordering::Greater
    } else {
        match key_cmp(x[0], y[0]) {
            Ordering::Equal => key_seq_cmp(x.subrange(1, x.len() as int), y.subrange(1, y.len() as int)),
            o => o,
        }
    }
}

pub open spec fn key_pair_seq_cmp(
    x: Seq<(Seq<char>, ValueView)>,
    y: Seq<(Seq<char>, ValueView)>,
) -> Ordering
    decreases x,
{
    if x.len() == 0 && y.len() == 0 {
        Ordering::Equal
    } else if x.len() == 0 {
        Ordering::Less
    } else if y.len() == 0 {
        Ordering::Greater
    } else {
        match bytes_cmp(encode_utf8(x[0].0), encode_utf8(y[0].0)) {
            Ordering::Equal => match key_cmp(x[0].1, y[0].1) {
                Ordering::Equal => key_pair_seq_cmp(
                    x.subrange(1, x.len() as int),
                    y.subrange(1, y.len() as int),
                ),
                o => o,
            },
            o => o,
        }
    }
}

// --- order laws -----------------------------------------------------------

/// Swapping the operands mirrors the outcome.
pub proof fn lemma_key_cmp_flip(a: ValueView, b: ValueView)
    ensures
        key_cmp(b, a) == reverse_ordering(key_cmp(a, b)),
    decreases a,
{
    if key_rank(a) == key_rank(b) {
        match (a, b) {
            (ValueView::String(x), ValueView::String(y)) => {
                lemma_bytes_cmp_flip(encode_utf8(x), encode_utf8(y));
            },
            (ValueView::Array(x), ValueView::Array(y)) => {
                lemma_key_seq_cmp_flip(x, y);
            },
            (ValueView::Object(x), ValueView::Object(y)) => {
                lemma_key_pair_seq_cmp_flip(x, y);
            },
            _ => {},
        }
    }
}

proof fn lemma_key_seq_cmp_flip(x: Seq<ValueView>, y: Seq<ValueView>)
    ensures
        key_seq_cmp(y, x) == reverse_ordering(key_seq_cmp(x, y)),
    decreases x,
{
    if x.len() > 0 && y.len() > 0 {
        lemma_key_cmp_flip(x[0], y[0]);
        if key_cmp(x[0], y[0]) == Ordering::Equal {
            lemma_key_seq_cmp_flip(x.subrange(1, x.len() as int), y.subrange(1, y.len() as int));
        }
    }
}

proof fn lemma_key_pair_seq_cmp_flip(x: Seq<(Seq<char>, ValueView)>, y: Seq<(Seq<char>, ValueView)>)
    ensures
        key_pair_seq_cmp(y, x) == reverse_ordering(key_pair_seq_cmp(x, y)),
    decreases x,
{
    if x.len() > 0 && y.len() > 0 {
        lemma_bytes_cmp_flip(encode_utf8(x[0].0), encode_utf8(y[0].0));
        if bytes_cmp(encode_utf8(x[0].0), encode_utf8(y[0].0)) == Ordering::Equal {
            lemma_key_cmp_flip(x[0].1, y[0].1);
            if key_cmp(x[0].1, y[0].1) == Ordering::Equal {
                lemma_key_pair_seq_cmp_flip(
                    x.subrange(1, x.len() as int),
                    y.subrange(1, y.len() as int),
                );
            }
        }
    }
}

/// An `Equal` operand can be substituted on the left of any comparison.
pub proof fn lemma_key_cmp_equal_subst(a: ValueView, b: ValueView, c: ValueView)
    requires
        key_cmp(a, b) == Ordering::Equal,
    ensures
        key_cmp(a, c) == key_cmp(b, c),
    decreases a,
{
    match (a, b) {
        (ValueView::Float(x), ValueView::Float(y)) => {
            assert(float_order_bits(x) == float_order_bits(y));
            assert(x == y) by (bit_vector)
                requires
                    (if x >> 63 == 1 {
                        !x
                    } else {
                        x | 0x8000_0000_0000_0000
                    }) == (if y >> 63 == 1 {
                        !y
                    } else {
                        y | 0x8000_0000_0000_0000
                    }),
            ;
        },
        (ValueView::String(x), ValueView::String(y)) => {
            lemma_bytes_cmp_eq(encode_utf8(x), encode_utf8(y));
        },
        (ValueView::Array(x), ValueView::Array(y)) => {
            match c {
                ValueView::Array(z) => lemma_key_seq_cmp_equal_subst(x, y, z),
                _ => {},
            }
        },
        (ValueView::Object(x), ValueView::Object(y)) => {
            match c {
                ValueView::Object(z) => lemma_key_pair_seq_cmp_equal_subst(x, y, z),
                _ => {},
            }
        },
        _ => {},
    }
}

proof fn lemma_key_seq_cmp_equal_subst(x: Seq<ValueView>, y: Seq<ValueView>, z: Seq<ValueView>)
    requires
        key_seq_cmp(x, y) == Ordering::Equal,
    ensures
        key_seq_cmp(x, z) == key_seq_cmp(y, z),
    decreases x,
{
    if x.len() == 0 {
        assert(y.len() == 0);
    } else {
        assert(y.len() > 0);
        assert(key_cmp(x[0], y[0]) == Ordering::Equal);
        if z.len() > 0 {
            lemma_key_cmp_equal_subst(x[0], y[0], z[0]);
            if key_cmp(x[0], z[0]) == Ordering::Equal {
                lemma_key_seq_cmp_equal_subst(
                    x.subrange(1, x.len() as int),
                    y.subrange(1, y.len() as int),
                    z.subrange(1, z.len() as int),
                );
            }
        }
    }
}

proof fn lemma_key_pair_seq_cmp_equal_subst(
    x: Seq<(Seq<char>, ValueView)>,
    y: Seq<(Seq<char>, ValueView)>,
    z: Seq<(Seq<char>, ValueView)>,
)
    requires
        key_pair_seq_cmp(x, y) == Ordering::Equal,
    ensures
        key_pair_seq_cmp(x, z) == key_pair_seq_cmp(y, z),
    decreases x,
{
    if x.len() == 0 {
        assert(y.len() == 0);
    } else {
        assert(y.len() > 0);
        assert(bytes_cmp(encode_utf8(x[0].0), encode_utf8(y[0].0)) == Ordering::Equal);
        lemma_bytes_cmp_eq(encode_utf8(x[0].0), encode_utf8(y[0].0));
        assert(key_cmp(x[0].1, y[0].1) == Ordering::Equal);
        if z.len() > 0 {
            lemma_key_cmp_equal_subst(x[0].1, y[0].1, z[0].1);
            if bytes_cmp(encode_utf8(x[0].0), encode_utf8(z[0].0)) == Ordering::Equal && key_cmp(
                x[0].1,
                z[0].1,
            ) == Ordering::Equal {
                lemma_key_pair_seq_cmp_equal_subst(
                    x.subrange(1, x.len() as int),
                    y.subrange(1, y.len() as int),
                    z.subrange(1, z.len() as int),
                );
            }
        }
    }
}

/// Transitivity on the `Less`-or-`Equal` side.
pub proof fn lemma_key_cmp_trans(a: ValueView, b: ValueView, c: ValueView)
    requires
        key_cmp(a, b) != Ordering::Greater,
        key_cmp(b, c) != Ordering::Greater,
    ensures
        key_cmp(a, c) != Ordering::Greater,
        key_cmp(a, b) == Ordering::Less || key_cmp(b, c) == Ordering::Less ==> key_cmp(a, c)
            == Ordering::Less,
    decreases a,
{
    if key_cmp(a, b) == Ordering::Equal {
        lemma_key_cmp_equal_subst(a, b, c);
    } else if key_cmp(b, c) == Ordering::Equal {
        lemma_key_cmp_flip(b, c);
        lemma_key_cmp_equal_subst(c, b, a);
        lemma_key_cmp_flip(b, a);
        lemma_key_cmp_flip(c, a);
    } else {
        // Both comparisons are strictly Less.
        if key_rank(a) == key_rank(b) && key_rank(b) == key_rank(c) {
            match (a, b) {
                (ValueView::String(x), ValueView::String(y)) => {
                    match c {
                        ValueView::String(z) => lemma_bytes_cmp_trans(
                            encode_utf8(x),
                            encode_utf8(y),
                            encode_utf8(z),
                        ),
                        _ => {},
                    }
                },
                (ValueView::Array(x), ValueView::Array(y)) => {
                    match c {
                        ValueView::Array(z) => lemma_key_seq_cmp_trans(x, y, z),
                        _ => {},
                    }
                },
                (ValueView::Object(x), ValueView::Object(y)) => {
                    match c {
                        ValueView::Object(z) => lemma_key_pair_seq_cmp_trans(x, y, z),
                        _ => {},
                    }
                },
                _ => {},
            }
        }
    }
}

proof fn lemma_key_seq_cmp_trans(x: Seq<ValueView>, y: Seq<ValueView>, z: Seq<ValueView>)
    requires
        key_seq_cmp(x, y) == Ordering::Less,
        key_seq_cmp(y, z) == Ordering::Less,
    ensures
        key_seq_cmp(x, z) == Ordering::Less,
    decreases x,
{
    if x.len() == 0 {
        assert(y.len() > 0);
        assert(z.len() > 0);
    } else {
        assert(y.len() > 0);
        assert(z.len() > 0);
        let cxy = key_cmp(x[0], y[0]);
        let cyz = key_cmp(y[0], z[0]);
        if cxy == Ordering::Equal {
            lemma_key_cmp_equal_subst(x[0], y[0], z[0]);
            if cyz == Ordering::Equal {
                lemma_key_seq_cmp_trans(
                    x.subrange(1, x.len() as int),
                    y.subrange(1, y.len() as int),
                    z.subrange(1, z.len() as int),
                );
            }
        } else if cyz == Ordering::Equal {
            lemma_key_cmp_flip(y[0], z[0]);
            lemma_key_cmp_equal_subst(z[0], y[0], x[0]);
            lemma_key_cmp_flip(y[0], x[0]);
            lemma_key_cmp_flip(z[0], x[0]);
        } else {
            lemma_key_cmp_trans(x[0], y[0], z[0]);
        }
    }
}

proof fn lemma_key_pair_seq_cmp_trans(
    x: Seq<(Seq<char>, ValueView)>,
    y: Seq<(Seq<char>, ValueView)>,
    z: Seq<(Seq<char>, ValueView)>,
)
    requires
        key_pair_seq_cmp(x, y) == Ordering::Less,
        key_pair_seq_cmp(y, z) == Ordering::Less,
    ensures
        key_pair_seq_cmp(x, z) == Ordering::Less,
    decreases x,
{
    if x.len() == 0 {
        assert(y.len() > 0);
        assert(z.len() > 0);
    } else {
        assert(y.len() > 0);
        assert(z.len() > 0);
        let kxy = bytes_cmp(encode_utf8(x[0].0), encode_utf8(y[0].0));
        let kyz = bytes_cmp(encode_utf8(y[0].0), encode_utf8(z[0].0));
        if kxy == Ordering::Equal {
            lemma_bytes_cmp_eq(encode_utf8(x[0].0), encode_utf8(y[0].0));
            let cxy = key_cmp(x[0].1, y[0].1);
            let cyz = key_cmp(y[0].1, z[0].1);
            if kyz == Ordering::Equal {
                lemma_bytes_cmp_eq(encode_utf8(y[0].0), encode_utf8(z[0].0));
                if cxy == Ordering::Equal {
                    lemma_key_cmp_equal_subst(x[0].1, y[0].1, z[0].1);
                    if cyz == Ordering::Equal {
                        lemma_key_pair_seq_cmp_trans(
                            x.subrange(1, x.len() as int),
                            y.subrange(1, y.len() as int),
                            z.subrange(1, z.len() as int),
                        );
                    }
                } else if cyz == Ordering::Equal {
                    lemma_key_cmp_flip(y[0].1, z[0].1);
                    lemma_key_cmp_equal_subst(z[0].1, y[0].1, x[0].1);
                    lemma_key_cmp_flip(y[0].1, x[0].1);
                    lemma_key_cmp_flip(z[0].1, x[0].1);
                } else {
                    lemma_key_cmp_trans(x[0].1, y[0].1, z[0].1);
                }
            }
        } else if kyz == Ordering::Equal {
            lemma_bytes_cmp_eq(encode_utf8(y[0].0), encode_utf8(z[0].0));
        } else {
            lemma_bytes_cmp_trans(encode_utf8(x[0].0), encode_utf8(y[0].0), encode_utf8(z[0].0));
        }
    }
}

// --- executable comparison -------------------------------------------------

/// Executable variant rank.
pub fn rank_of(v: &DocumentValue) -> (r: u8)
    ensures
        r as int == key_rank(v@),
{
    match v {
        DocumentValue::Integer(_) => 0,
        DocumentValue::Float(_) => 1,
        DocumentValue::String(_) => 2,
        DocumentValue::Array(_) => 3,
        DocumentValue::Object(_) => 4,
    }
}

/// Stepping a lexicographic key comparison past one equal element.
proof fn lemma_key_seq_cmp_skip(x: Seq<ValueView>, y: Seq<ValueView>, i: int)
    requires
        0 <= i < x.len(),
        0 <= i < y.len(),
    ensures
        key_cmp(x[i], y[i]) == Ordering::Equal ==> key_seq_cmp(
            x.subrange(i, x.len() as int),
            y.subrange(i, y.len() as int),
        ) == key_seq_cmp(x.subrange(i + 1, x.len() as int), y.subrange(i + 1, y.len() as int)),
        key_cmp(x[i], y[i]) != Ordering::Equal ==> key_seq_cmp(
            x.subrange(i, x.len() as int),
            y.subrange(i, y.len() as int),
        ) == key_cmp(x[i], y[i]),
{
    let xr = x.subrange(i, x.len() as int);
    let yr = y.subrange(i, y.len() as int);
    assert(xr[0] == x[i]);
    assert(yr[0] == y[i]);
    assert(xr.subrange(1, xr.len() as int) =~= x.subrange(i + 1, x.len() as int));
    assert(yr.subrange(1, yr.len() as int) =~= y.subrange(i + 1, y.len() as int));
}

/// The comparison of the heads of two pair runs.
pub open spec fn key_pair_head_cmp(p: (Seq<char>, ValueView), q: (Seq<char>, ValueView)) -> Ordering {
    match bytes_cmp(encode_utf8(p.0), encode_utf8(q.0)) {
        Ordering::Equal => key_cmp(p.1, q.1),
        o => o,
    }
}

proof fn lemma_key_pair_seq_cmp_skip(
    x: Seq<(Seq<char>, ValueView)>,
    y: Seq<(Seq<char>, ValueView)>,
    i: int,
)
    requires
        0 <= i < x.len(),
        0 <= i < y.len(),
    ensures
        key_pair_head_cmp(x[i], y[i]) == Ordering::Equal ==> key_pair_seq_cmp(
            x.subrange(i, x.len() as int),
            y.subrange(i, y.len() as int),
        ) == key_pair_seq_cmp(
            x.subrange(i + 1, x.len() as int),
            y.subrange(i + 1, y.len() as int),
        ),
        key_pair_head_cmp(x[i], y[i]) != Ordering::Equal ==> key_pair_seq_cmp(
            x.subrange(i, x.len() as int),
            y.subrange(i, y.len() as int),
        ) == key_pair_head_cmp(x[i], y[i]),
{
    let xr = x.subrange(i, x.len() as int);
    let yr = y.subrange(i, y.len() as int);
    assert(xr[0] == x[i]);
    assert(yr[0] == y[i]);
    assert(xr.subrange(1, xr.len() as int) =~= x.subrange(i + 1, x.len() as int));
    assert(yr.subrange(1, yr.len() as int) =~= y.subrange(i + 1, y.len() as int));
}

/// Comparison in the total key order.
#[verifier::loop_isolation(false)]
#[verifier::rlimit(60)]
pub fn key_compare(a: &DocumentValue, b: &DocumentValue) -> (r: Ordering)
    ensures
        r == key_cmp(a@, b@),
    decreases *a,
{
    let ra = rank_of(a);
    let rb = rank_of(b);
    if ra != rb {
        return if ra < rb {
            Ordering::Less
        } else {
            Ordering::Greater
        };
    }
    match (a, b) {
        (DocumentValue::Integer(x), DocumentValue::Integer(y)) => {
            if *x < *y {
                Ordering::Less
            } else if *x > *y {
                Ordering::Greater
            } else {
                Ordering::Equal
            }
        },
        (DocumentValue::Float(x), DocumentValue::Float(y)) => {
            let fx = if *x >> 63 == 1 {
                !*x
            } else {
                *x | 0x8000_0000_0000_0000
            };
            let fy = if *y >> 63 == 1 {
                !*y
            } else {
                *y | 0x8000_0000_0000_0000
            };
            if fx < fy {
                Ordering::Less
            } else if fx > fy {
                Ordering::Greater
            } else {
                Ordering::Equal
            }
        },
        (DocumentValue::String(x), DocumentValue::String(y)) => {
            bytes_compare(x.as_str().as_bytes(), y.as_str().as_bytes())
        },
        (DocumentValue::Array(x), DocumentValue::Array(y)) => {
            proof {
                crate::doc::lemma_view_value_seq_len(x@);
                crate::doc::lemma_view_value_seq_len(y@);
            }
            let ghost vx = crate::doc::view_value_seq(x@);
            let ghost vy = crate::doc::view_value_seq(y@);
            proof {
                assert(vx.subrange(0, vx.len() as int) =~= vx);
                assert(vy.subrange(0, vy.len() as int) =~= vy);
            }
            let xn = x.len();
            let yn = y.len();
            let n = if xn < yn {
                xn
            } else {
                yn
            };
            for i in 0..n
                invariant
                    n == if xn < yn { xn } else { yn },
                    xn == x@.len(),
                    yn == y@.len(),
                    vx == crate::doc::view_value_seq(x@),
                    vy == crate::doc::view_value_seq(y@),
                    vx.len() == xn,
                    vy.len() == yn,
                    a@ == ValueView::Array(vx),
                    b@ == ValueView::Array(vy),
                    key_seq_cmp(vx, vy) == key_seq_cmp(
                        vx.subrange(i as int, vx.len() as int),
                        vy.subrange(i as int, vy.len() as int),
                    ),
            {
                proof {
                    crate::doc::lemma_view_value_seq_index(x@, i as int);
                    crate::doc::lemma_view_value_seq_index(y@, i as int);
                    assert(decreases_to!(*a => (*a)->Array_0));
                    assert(decreases_to!((*a)->Array_0 => (*a)->Array_0[i as int]));
                    assert((*a)->Array_0[i as int] == x@[i as int]);
                }
                let c = key_compare(&x[i], &y[i]);
                proof {
                    lemma_key_seq_cmp_skip(vx, vy, i as int);
                }
                match c {
                    Ordering::Equal => {},
                    o => {
                        return o;
                    },
                }
            }
            proof {
                if xn <= yn {
                    assert(vx.subrange(n as int, vx.len() as int) =~= Seq::<ValueView>::empty());
                } else {
                    assert(vy.subrange(n as int, vy.len() as int) =~= Seq::<ValueView>::empty());
                }
            }
            if xn < yn {
                Ordering::Less
            } else if xn > yn {
                Ordering::Greater
            } else {
                Ordering::Equal
            }
        },
        (DocumentValue::Object(x), DocumentValue::Object(y)) => {
            proof {
                crate::doc::lemma_view_pair_seq_len(x@);
                crate::doc::lemma_view_pair_seq_len(y@);
            }
            let ghost vx = crate::doc::view_pair_seq(x@);
            let ghost vy = crate::doc::view_pair_seq(y@);
            proof {
                assert(vx.subrange(0, vx.len() as int) =~= vx);
                assert(vy.subrange(0, vy.len() as int) =~= vy);
            }
            let xn = x.len();
            let yn = y.len();
            let n = if xn < yn {
                xn
            } else {
                yn
            };
            for i in 0..n
                invariant
                    n == if xn < yn { xn } else { yn },
                    xn == x@.len(),
                    yn == y@.len(),
                    vx == crate::doc::view_pair_seq(x@),
                    vy == crate::doc::view_pair_seq(y@),
                    vx.len() == xn,
                    vy.len() == yn,
                    a@ == ValueView::Object(vx),
                    b@ == ValueView::Object(vy),
                    key_pair_seq_cmp(vx, vy) == key_pair_seq_cmp(
                        vx.subrange(i as int, vx.len() as int),
                        vy.subrange(i as int, vy.len() as int),
                    ),
            {
                proof {
                    crate::doc::lemma_view_pair_seq_index(x@, i as int);
                    crate::doc::lemma_view_pair_seq_index(y@, i as int);
                    assert(decreases_to!(*a => (*a)->Object_0));
                    assert(decreases_to!((*a)->Object_0 => (*a)->Object_0[i as int]));
                    assert((*a)->Object_0[i as int] == x@[i as int]);
                    assert(decreases_to!(x@[i as int] => x@[i as int].1));
                }
                let (kx, valx) = &x[i];
                let (ky, valy) = &y[i];
                proof {
                    assert(x@[i as int] == (*kx, *valx));
                    assert(y@[i as int] == (*ky, *valy));
                }
                let kc = bytes_compare(kx.as_str().as_bytes(), ky.as_str().as_bytes());
                let hc = match kc {
                    Ordering::Equal => key_compare(valx, valy),
                    o => o,
                };
                proof {
                    assert(hc == key_pair_head_cmp(vx[i as int], vy[i as int]));
                    lemma_key_pair_seq_cmp_skip(vx, vy, i as int);
                }
                match hc {
                    Ordering::Equal => {},
                    o => {
                        return o;
                    },
                }
            }
            proof {
                if xn <= yn {
                    assert(vx.subrange(n as int, vx.len() as int) =~= Seq::<
                        (Seq<char>, ValueView),
                    >::empty());
                } else {
                    assert(vy.subrange(n as int, vy.len() as int) =~= Seq::<
                        (Seq<char>, ValueView),
                    >::empty());
                }
            }
            if xn < yn {
                Ordering::Less
            } else if xn > yn {
                Ordering::Greater
            } else {
                Ordering::Equal
            }
        },
        _ => {
            proof {
                crate::doc::lemma_view_variant(a);
                crate::doc::lemma_view_variant(b);
                assert(false);
            }
            Ordering::Equal
        },
    }
}

// ---------------------------------------------------------------------------
// The ordered map of index entries
// ---------------------------------------------------------------------------

/// The mathematical shape of the entry list.
pub open spec fn view_entry_seq(s: Seq<(DocumentValue, u64)>) -> Seq<(ValueView, u64)>
    decreases s,
{
    if s.len() == 0 {
        Seq::empty()
    } else {
        seq![(crate::doc::view_value(s[0].0), s[0].1)] + view_entry_seq(
            s.subrange(1, s.len() as int),
        )
    }
}

pub proof fn lemma_view_entry_seq_len(s: Seq<(DocumentValue, u64)>)
    ensures
        view_entry_seq(s).len() == s.len(),
    decreases s,
{
    if s.len() > 0 {
        lemma_view_entry_seq_len(s.subrange(1, s.len() as int));
    }
}

pub proof fn lemma_view_entry_seq_index(s: Seq<(DocumentValue, u64)>, i: int)
    requires
        0 <= i < s.len(),
    ensures
        view_entry_seq(s).len() == s.len(),
        view_entry_seq(s)[i] == (crate::doc::view_value(s[i].0), s[i].1),
    decreases s,
{
    lemma_view_entry_seq_len(s);
    if i > 0 {
        lemma_view_entry_seq_index(s.subrange(1, s.len() as int), i - 1);
    }
}

/// The entries are strictly ascending in the key order.
pub open spec fn entries_sorted(s: Seq<(ValueView, u64)>) -> bool {
    forall|i: int, j: int|
        0 <= i < j < s.len() ==> key_cmp(#[trigger] s[i].0, #[trigger] s[j].0) == Ordering::Less
}

/// Inserting one association into an ordered entry list: the first entry
/// whose key is not below the new key either gets the new id (equal key,
/// last write wins) or has the new entry placed before it.
pub open spec fn spec_insert(s: Seq<(ValueView, u64)>, k: ValueView, id: u64) -> Seq<
    (ValueView, u64),
>
    decreases s,
{
    if s.len() == 0 {
        seq![(k, id)]
    } else {
        match key_cmp(s[0].0, k) {
            Ordering::Less => seq![s[0]] + spec_insert(s.subrange(1, s.len() as int), k, id),
            Ordering::Equal => seq![(s[0].0, id)] + s.subrange(1, s.len() as int),
            Ordering::Greater => seq![(k, id)] + s,
        }
    }
}

/// Where the scan for the insertion point stops, [`spec_insert`] does one of
/// three things: append, overwrite in place, or shift right.
pub proof fn lemma_spec_insert_shape(s: Seq<(ValueView, u64)>, k: ValueView, id: u64, pos: int)
    requires
        0 <= pos <= s.len(),
        forall|i: int| 0 <= i < pos ==> key_cmp(#[trigger] s[i].0, k) == Ordering::Less,
        pos < s.len() ==> key_cmp(s[pos].0, k) != Ordering::Less,
    ensures
        pos == s.len() ==> spec_insert(s, k, id) == s.push((k, id)),
        pos < s.len() && key_cmp(s[pos].0, k) == Ordering::Equal ==> spec_insert(s, k, id)
            == s.update(pos, (s[pos].0, id)),
        pos < s.len() && key_cmp(s[pos].0, k) == Ordering::Greater ==> spec_insert(s, k, id)
            == s.insert(pos, (k, id)),
    decreases s,
{
    if s.len() == 0 {
        assert(spec_insert(s, k, id) =~= s.push((k, id)));
    } else {
        let tail = s.subrange(1, s.len() as int);
        if pos == 0 {
            if key_cmp(s[0].0, k) == Ordering::Equal {
                assert(seq![(s[0].0, id)] + tail =~= s.update(0, (s[0].0, id)));
            } else if key_cmp(s[0].0, k) == Ordering::Greater {
                assert(seq![(k, id)] + s =~= s.insert(0, (k, id)));
            }
        } else {
            assert(key_cmp(s[0].0, k) == Ordering::Less);
            assert(forall|i: int|
                0 <= i < pos - 1 ==> key_cmp(#[trigger] tail[i].0, k) == Ordering::Less);
            lemma_spec_insert_shape(tail, k, id, pos - 1);
            if pos == s.len() {
                assert(seq![s[0]] + tail.push((k, id)) =~= s.push((k, id)));
            } else if key_cmp(s[pos].0, k) == Ordering::Equal {
                assert(tail[pos - 1] == s[pos]);
                assert(seq![s[0]] + tail.update(pos - 1, (s[pos].0, id)) =~= s.update(
                    pos,
                    (s[pos].0, id),
                ));
            } else {
                assert(seq![s[0]] + tail.insert(pos - 1, (k, id)) =~= s.insert(pos, (k, id)));
            }
        }
    }
}

/// A strict lower bound on every key survives an insertion below it.
proof fn lemma_spec_insert_lower(s: Seq<(ValueView, u64)>, k: ValueView, id: u64, lo: ValueView)
    requires
        forall|i: int| 0 <= i < s.len() ==> key_cmp(lo, #[trigger] s[i].0) == Ordering::Less,
        key_cmp(lo, k) == Ordering::Less,
    ensures
        forall|m: int|
            0 <= m < spec_insert(s, k, id).len() ==> key_cmp(
                lo,
                #[trigger] spec_insert(s, k, id)[m].0,
            ) == Ordering::Less,
    decreases s,
{
    let r = spec_insert(s, k, id);
    if s.len() == 0 {
        assert(r[0] == (k, id));
    } else {
        let tail = s.subrange(1, s.len() as int);
        assert(forall|i: int|
            0 <= i < tail.len() ==> key_cmp(lo, #[trigger] tail[i].0) == Ordering::Less);
        match key_cmp(s[0].0, k) {
            Ordering::Less => {
                lemma_spec_insert_lower(tail, k, id, lo);
                let r1 = spec_insert(tail, k, id);
                assert forall|m: int| 0 <= m < r.len() implies key_cmp(lo, #[trigger] r[m].0)
                    == Ordering::Less by {
                    if m > 0 {
                        assert(r[m] == r1[m - 1]);
                    }
                }
            },
            Ordering::Equal => {
                assert forall|m: int| 0 <= m < r.len() implies key_cmp(lo, #[trigger] r[m].0)
                    == Ordering::Less by {
                    if m > 0 {
                        assert(r[m] == tail[m - 1]);
                    } else {
                        assert(r[0].0 == s[0].0);
                    }
                }
            },
            Ordering::Greater => {
                assert forall|m: int| 0 <= m < r.len() implies key_cmp(lo, #[trigger] r[m].0)
                    == Ordering::Less by {
                    if m > 0 {
                        assert(r[m] == s[m - 1]);
                    } else {
                        assert(r[0] == (k, id));
                    }
                }
            },
        }
    }
}

/// Insertion keeps the entries strictly sorted.
pub proof fn lemma_spec_insert_sorted(s: Seq<(ValueView, u64)>, k: ValueView, id: u64)
    requires
        entries_sorted(s),
    ensures
        entries_sorted(spec_insert(s, k, id)),
    decreases s,
{
    let r = spec_insert(s, k, id);
    if s.len() == 0 {
    } else {
        let tail = s.subrange(1, s.len() as int);
        assert(entries_sorted(tail)) by {
            assert forall|i: int, j: int| 0 <= i < j < tail.len() implies key_cmp(
                #[trigger] tail[i].0,
                #[trigger] tail[j].0,
            ) == Ordering::Less by {
                assert(tail[i] == s[i + 1]);
                assert(tail[j] == s[j + 1]);
            }
        }
        match key_cmp(s[0].0, k) {
            Ordering::Less => {
                lemma_spec_insert_sorted(tail, k, id);
                let r1 = spec_insert(tail, k, id);
                assert(forall|i: int|
                    0 <= i < tail.len() ==> key_cmp(s[0].0, #[trigger] tail[i].0)
                        == Ordering::Less);
                lemma_spec_insert_lower(tail, k, id, s[0].0);
                assert forall|i: int, j: int| 0 <= i < j < r.len() implies key_cmp(
                    #[trigger] r[i].0,
                    #[trigger] r[j].0,
                ) == Ordering::Less by {
                    if i == 0 {
                        assert(r[j] == r1[j - 1]);
                    } else {
                        assert(r[i] == r1[i - 1]);
                        assert(r[j] == r1[j - 1]);
                    }
                }
            },
            Ordering::Equal => {
                assert forall|i: int, j: int| 0 <= i < j < r.len() implies key_cmp(
                    #[trigger] r[i].0,
                    #[trigger] r[j].0,
                ) == Ordering::Less by {
                    if i == 0 {
                        assert(r[0].0 == s[0].0);
                        assert(r[j] == tail[j - 1]);
                        assert(tail[j - 1] == s[j]);
                    } else {
                        assert(r[i] == tail[i - 1]);
                        assert(r[j] == tail[j - 1]);
                    }
                }
            },
            Ordering::Greater => {
                lemma_key_cmp_flip(s[0].0, k);
                assert forall|i: int, j: int| 0 <= i < j < r.len() implies key_cmp(
                    #[trigger] r[i].0,
                    #[trigger] r[j].0,
                ) == Ordering::Less by {
                    if i == 0 {
                        assert(r[0] == (k, id));
                        assert(r[j] == s[j - 1]);
                        if j > 1 {
                            lemma_key_cmp_trans(k, s[0].0, s[j - 1].0);
                        }
                    } else {
                        assert(r[i] == s[i - 1]);
                        assert(r[j] == s[j - 1]);
                    }
                }
            },
        }
    }
}

// ---------------------------------------------------------------------------
// Index records in the log
// ---------------------------------------------------------------------------

/// One record of the index log: a document id and the indexed value.
pub struct Index {
    pub id: u64,
    pub value: DocumentValue,
}

/// The mathematical shape of an [`Index`] record.
pub struct IndexView {
    pub id: u64,
    pub value: ValueView,
}

impl DeepView for Index {
    type V = IndexView;

    open spec fn deep_view(&self) -> IndexView {
        IndexView { id: self.id, value: crate::doc::view_value(self.value) }
    }
}

impl crate::reader::Deserializable for Index {
    /// An index record payload decodes through
    /// [`crate::codec::decode_index_record`]; every byte must be used.
    open spec fn decode_spec(bytes: Seq<u8>) -> Option<IndexView> {
        match crate::codec::decode_index_record(bytes) {
            Some((id, v)) => Some(IndexView { id, value: v }),
            None => None,
        }
    }

    fn deserialize(bytes: &[u8]) -> (r: Option<Index>) {
        let len = bytes.len();
        if len < 9 {
            return None;
        }
        let id = vstd::bytes::u64_from_le_bytes(vstd::slice::slice_subrange(bytes, 0, 8));
        proof {
            assert(bytes@.subrange(0, bytes@.len() as int) =~= bytes@);
            assert(bytes@.subrange(0, 8) =~= bytes@.subrange(0, 8));
            assert(bytes@.subrange(8, bytes@.len() as int) =~= bytes@.subrange(
                8,
                bytes@.len() as int,
            ));
        }
        match crate::codec::decode_value_from(bytes, 8) {
            None => None,
            Some((v, c)) => {
                if 8 + c != len {
                    return None;
                }
                Some(Index { id, value: v })
            },
        }
    }
}

/// Replaying decoded records over an entry list, first to last.
pub open spec fn replay(acc: Seq<(ValueView, u64)>, recs: Seq<IndexView>) -> Seq<(ValueView, u64)>
    decreases recs,
{
    if recs.len() == 0 {
        acc
    } else {
        replay(spec_insert(acc, recs[0].value, recs[0].id), recs.subrange(1, recs.len() as int))
    }
}

pub proof fn lemma_replay_snoc(acc: Seq<(ValueView, u64)>, recs: Seq<IndexView>, r: IndexView)
    ensures
        replay(acc, recs.push(r)) == spec_insert(replay(acc, recs), r.value, r.id),
    decreases recs,
{
    reveal_with_fuel(replay, 3);
    let rp = recs.push(r);
    if recs.len() == 0 {
        assert(rp.subrange(1, rp.len() as int) =~= Seq::<IndexView>::empty());
        assert(rp[0] == r);
        assert(replay(acc, recs.push(r)) == spec_insert(replay(acc, recs), r.value, r.id));
    } else {
        assert(rp[0] == recs[0]);
        assert(rp.subrange(1, rp.len() as int) =~= recs.subrange(1, recs.len() as int).push(r));
        lemma_replay_snoc(
            spec_insert(acc, recs[0].value, recs[0].id),
            recs.subrange(1, recs.len() as int),
            r,
        );
    }
}

pub proof fn lemma_replay_sorted(acc: Seq<(ValueView, u64)>, recs: Seq<IndexView>)
    requires
        entries_sorted(acc),
    ensures
        entries_sorted(replay(acc, recs)),
    decreases recs,
{
    if recs.len() > 0 {
        lemma_spec_insert_sorted(acc, recs[0].value, recs[0].id);
        lemma_replay_sorted(
            spec_insert(acc, recs[0].value, recs[0].id),
            recs.subrange(1, recs.len() as int),
        );
    }
}
// ---------------------------------------------------------------------------
// The index manager
// ---------------------------------------------------------------------------

proof fn lemma_view_entry_seq_push(s: Seq<(DocumentValue, u64)>, x: (DocumentValue, u64))
    ensures
        view_entry_seq(s.push(x)) == view_entry_seq(s).push((crate::doc::view_value(x.0), x.1)),
{
    lemma_view_entry_seq_len(s);
    lemma_view_entry_seq_len(s.push(x));
    assert(view_entry_seq(s.push(x)) =~= view_entry_seq(s).push(
        (crate::doc::view_value(x.0), x.1),
    )) by {
        assert forall|i: int| 0 <= i < s.len() + 1 implies view_entry_seq(s.push(x))[i]
            == view_entry_seq(s).push((crate::doc::view_value(x.0), x.1))[i] by {
            lemma_view_entry_seq_index(s.push(x), i);
            if i < s.len() {
                lemma_view_entry_seq_index(s, i);
                assert(s.push(x)[i] == s[i]);
            } else {
                assert(s.push(x)[i] == x);
            }
        }
    }
}

proof fn lemma_view_entry_seq_update(s: Seq<(DocumentValue, u64)>, p: int, x: (DocumentValue, u64))
    requires
        0 <= p < s.len(),
    ensures
        view_entry_seq(s.update(p, x)) == view_entry_seq(s).update(
            p,
            (crate::doc::view_value(x.0), x.1),
        ),
{
    lemma_view_entry_seq_len(s);
    lemma_view_entry_seq_len(s.update(p, x));
    assert(view_entry_seq(s.update(p, x)) =~= view_entry_seq(s).update(
        p,
        (crate::doc::view_value(x.0), x.1),
    )) by {
        assert forall|i: int| 0 <= i < s.len() implies view_entry_seq(s.update(p, x))[i]
            == view_entry_seq(s).update(p, (crate::doc::view_value(x.0), x.1))[i] by {
            lemma_view_entry_seq_index(s.update(p, x), i);
            lemma_view_entry_seq_index(s, i);
            if i != p {
                assert(s.update(p, x)[i] == s[i]);
            } else {
                assert(s.update(p, x)[i] == x);
            }
        }
    }
}

proof fn lemma_view_entry_seq_insert(s: Seq<(DocumentValue, u64)>, p: int, x: (DocumentValue, u64))
    requires
        0 <= p <= s.len(),
    ensures
        view_entry_seq(s.insert(p, x)) == view_entry_seq(s).insert(
            p,
            (crate::doc::view_value(x.0), x.1),
        ),
{
    lemma_view_entry_seq_len(s);
    lemma_view_entry_seq_len(s.insert(p, x));
    assert(view_entry_seq(s.insert(p, x)) =~= view_entry_seq(s).insert(
        p,
        (crate::doc::view_value(x.0), x.1),
    )) by {
        assert forall|i: int| 0 <= i < s.len() + 1 implies view_entry_seq(s.insert(p, x))[i]
            == view_entry_seq(s).insert(p, (crate::doc::view_value(x.0), x.1))[i] by {
            lemma_view_entry_seq_index(s.insert(p, x), i);
            if i < p {
                lemma_view_entry_seq_index(s, i);
                assert(s.insert(p, x)[i] == s[i]);
            } else if i == p {
                assert(s.insert(p, x)[i] == x);
            } else {
                lemma_view_entry_seq_index(s, i - 1);
                assert(s.insert(p, x)[i] == s[i - 1]);
            }
        }
    }
}

/// Inserts one association into the ordered entry list, last write winning
/// on an equal key.
#[verifier::loop_isolation(false)]
pub fn insert_entry(data: &mut Vec<(DocumentValue, u64)>, value: DocumentValue, id: u64)
    ensures
        view_entry_seq(final(data)@) == spec_insert(
            view_entry_seq(old(data)@),
            crate::doc::view_value(value),
            id,
        ),
{
    proof {
        lemma_view_entry_seq_len(data@);
    }
    let ghost ve0 = view_entry_seq(data@);
    let ghost kv = crate::doc::view_value(value);
    let n = data.len();
    let mut i: usize = 0;
    loop
        invariant
            i <= n,
            n == data@.len(),
            data@ == old(data)@,
            forall|j: int| 0 <= j < i ==> key_cmp(#[trigger] ve0[j].0, kv) == Ordering::Less,
        decreases n - i,
    {
        if i == n {
            break;
        }
        proof {
            lemma_view_entry_seq_index(data@, i as int);
        }
        let c = key_compare(&data[i].0, &value);
        if !matches!(c, Ordering::Less) {
            break;
        }
        i = i + 1;
    }
    proof {
        if i < n {
            lemma_view_entry_seq_index(data@, i as int);
        }
        lemma_spec_insert_shape(ve0, kv, id, i as int);
    }
    if i == n {
        data.push((value, id));
        proof {
            lemma_view_entry_seq_push(old(data)@, (value, id));
        }
    } else {
        let c = key_compare(&data[i].0, &value);
        if matches!(c, Ordering::Equal) {
            let (old_key, _old_id) = data.remove(i);
            data.insert(i, (old_key, id));
            proof {
                assert(data@ =~= old(data)@.update(i as int, (old(data)@[i as int].0, id)));
                lemma_view_entry_seq_update(
                    old(data)@,
                    i as int,
                    (old(data)@[i as int].0, id),
                );
                assert(view_entry_seq(old(data)@).update(
                    i as int,
                    (crate::doc::view_value(old(data)@[i as int].0), id),
                ) =~= ve0.update(i as int, (ve0[i as int].0, id)));
            }
        } else {
            data.insert(i, (value, id));
            proof {
                lemma_view_entry_seq_insert(old(data)@, i as int, (value, id));
            }
        }
    }
}

/// What opening an index file yields: the metadata from the header and the
/// ordered map rebuilt by replaying every log record, or nothing when the
/// header or the log is not well formed.
pub open spec fn open_result(contents: Seq<u8>) -> Option<(MetaView, Seq<(ValueView, u64)>)> {
    match parse_header(contents) {
        None => None,
        Some(meta) => {
            let m = crate::reader::feed::<Index>(
                crate::reader::init_model(),
                contents.subrange(1024, contents.len() as int),
            );
            if crate::reader::at_boundary(m) {
                Some((meta, replay(Seq::empty(), m.collected_documents)))
            } else {
                None
            }
        },
    }
}

/// The error reported when an index file does not open.
pub open spec fn open_error(contents: Seq<u8>) -> IndexError {
    if parse_header(contents) is None {
        IndexError::Corrupt(FrameError::CorruptPayload)
    } else {
        let m = crate::reader::feed::<Index>(
            crate::reader::init_model(),
            contents.subrange(1024, contents.len() as int),
        );
        match m.failed {
            Some(e) => IndexError::Corrupt(e),
            None => IndexError::Corrupt(FrameError::CorruptPayload),
        }
    }
}

/// One secondary index: its metadata, its ordered map, and the log bytes
/// that persist the map (the caller appends them to the index file).
pub struct SingleIndexManager {
    pub data: Vec<(DocumentValue, u64)>,
    pub path: String,
    pub log: Vec<u8>,
    pub metadata: IndexMetaData,
}

impl SingleIndexManager {
    /// The in-memory map is exactly what replaying the log rebuilds, and it
    /// is strictly sorted in the key order.
    pub open spec fn wf(&self) -> bool {
        &&& wf_string(self.metadata@.field)
        &&& wf_string(self.metadata@.collection_name)
        &&& 4 + encode_metadata(self.metadata@).len() <= 1024
        &&& ({
            let m = crate::reader::feed::<Index>(crate::reader::init_model(), self.log@);
            &&& crate::reader::at_boundary(m)
            &&& view_entry_seq(self.data@) == replay(Seq::empty(), m.collected_documents)
        })
        &&& entries_sorted(view_entry_seq(self.data@))
    }

    /// Builds the fixed 1024-byte header for a fresh index file, or says why
    /// none can be written: the path is taken, the direction is not `1` or
    /// `-1`, or the metadata record would overflow the header.
    #[verifier::loop_isolation(false)]
    pub fn create_new(
        path_exists: bool,
        collection_name: String,
        field_name: String,
        sorting: i8,
    ) -> (r: Result<Vec<u8>, IndexError>)
        ensures
            path_exists <==> r == Err::<Vec<u8>, IndexError>(IndexError::PathExists),
            !path_exists && sorting != 1 && sorting != -1 <==> r == Err::<Vec<u8>, IndexError>(
                IndexError::Sorting,
            ),
            ({
                let mv = MetaView {
                    field: field_name@,
                    collection_name: collection_name@,
                    sorting,
                };
                &&& (!path_exists && (sorting == 1 || sorting == -1) && 4 + encode_metadata(
                    mv,
                ).len() > 1024 <==> r == Err::<Vec<u8>, IndexError>(IndexError::MetaTooBig))
                &&& (!path_exists && (sorting == 1 || sorting == -1) && 4 + encode_metadata(
                    mv,
                ).len() <= 1024 ==> (r matches Ok(h) && h@ == index_header(mv) && h@.len()
                    == 1024))
            }),
    {
        if path_exists {
            return Err(IndexError::PathExists);
        }
        if sorting != 1 && sorting != -1 {
            return Err(IndexError::Sorting);
        }
        let ghost mv = MetaView { field: field_name@, collection_name: collection_name@, sorting };
        proof {
            vstd::bytes::lemma_auto_spec_u32_to_from_le_bytes();
        }
        let fs = field_name.as_str();
        let cs = collection_name.as_str();
        let flen = fs.as_bytes().len();
        let clen = cs.as_bytes().len();
        if flen > 1011 || clen > 1011 - flen {
            return Err(IndexError::MetaTooBig);
        }
        let mut out: Vec<u8> = Vec::new();
        crate::codec::push_string(fs, &mut out);
        crate::codec::push_string(cs, &mut out);
        let sb: u8 = if sorting >= 0 {
            sorting as u8
        } else {
            (((sorting as i16) + 0x100) as u8)
        };
        out.push(sb);
        proof {
            assert(out@ =~= encode_metadata(mv));
        }
        let ghost enc = encode_metadata(mv);
        crate::codec::insert_vec_length(&mut out);
        while out.len() < 1024
            invariant
                out@.len() <= 1024,
                out@.len() >= 4 + enc.len(),
                out@ == vstd::bytes::spec_u32_to_le_bytes(enc.len() as u32) + enc + Seq::new(
                    (out@.len() - (4 + enc.len())) as nat,
                    |i: int| 0u8,
                ),
            decreases 1024 - out@.len(),
        {
            out.push(0u8);
            proof {
                assert(out@ =~= vstd::bytes::spec_u32_to_le_bytes(enc.len() as u32) + enc
                    + Seq::new((out@.len() - (4 + enc.len())) as nat, |i: int| 0u8));
            }
        }
        proof {
            vstd::bytes::lemma_auto_spec_u32_to_from_le_bytes();
            assert(out@ =~= index_header(mv));
        }
        Ok(out)
    }

    /// Opens an index from the full contents of its file: decodes the
    /// header, then replays every frame after it into the ordered map.
    #[verifier::loop_isolation(false)]
    #[verifier::rlimit(60)]
    pub fn new(path: String, contents: &[u8]) -> (r: Result<SingleIndexManager, IndexError>)
        ensures
            ({
                match r {
                    Ok(mgr) => {
                        &&& open_result(contents@) matches Some(p) && mgr.metadata@ == p.0
                            && view_entry_seq(mgr.data@) == p.1
                        &&& mgr.log@ == contents@.subrange(1024, contents@.len() as int)
                        &&& mgr.path@ == path@
                        &&& mgr.wf()
                    },
                    Err(e) => open_result(contents@) is None && e == open_error(contents@),
                }
            }),
    {
        let total = contents.len();
        if total < 1024 {
            return Err(IndexError::Corrupt(FrameError::CorruptPayload));
        }
        let l32 = vstd::bytes::u32_from_le_bytes(vstd::slice::slice_subrange(contents, 0, 4));
        proof {
            assert(contents@.subrange(0, 4) =~= contents@.subrange(0, 4));
        }
        let l = l32 as usize;
        if l > 1020 {
            return Err(IndexError::Corrupt(FrameError::CorruptPayload));
        }
        let meta_slice = vstd::slice::slice_subrange(contents, 4, 4 + l);
        let ghost mb = contents@.subrange(4, 4 + l as int);
        let f = match crate::codec::decode_string_from(meta_slice, 0) {
            None => {
                proof {
                    assert(mb.subrange(0, mb.len() as int) =~= mb);
                }
                return Err(IndexError::Corrupt(FrameError::CorruptPayload));
            },
            Some(p) => p,
        };
        proof {
            assert(mb.subrange(0, mb.len() as int) =~= mb);
        }
        let (field, c1) = f;
        let cn = match crate::codec::decode_string_from(meta_slice, c1) {
            None => {
                return Err(IndexError::Corrupt(FrameError::CorruptPayload));
            },
            Some(p) => p,
        };
        let (collection_name, c2) = cn;
        if c1 + c2 + 1 != l {
            return Err(IndexError::Corrupt(FrameError::CorruptPayload));
        }
        let sbyte = meta_slice[l - 1];
        let sorting: i8 = if sbyte <= 0x7f {
            sbyte as i8
        } else {
            (((sbyte as i16) - 0x100) as i8)
        };
        let metadata = IndexMetaData { field, collection_name, sorting };
        proof {
            assert(decode_metadata(mb) == Some(metadata@));
        }
        let log = vstd::slice::slice_to_vec(
            vstd::slice::slice_subrange(contents, 1024, total),
        );
        let mut reader: crate::reader::Reader<Index> = crate::reader::Reader::new();
        let ghost fed = crate::reader::feed::<Index>(
            crate::reader::init_model(),
            contents@.subrange(1024, total as int),
        );
        proof {
            assert(crate::reader::clear_collected(
                crate::reader::init_model::<IndexView>(),
            ) =~= crate::reader::init_model::<IndexView>());
        }
        let recs = match reader.read_bytes_and_collect(log.as_slice()) {
            Err(e) => {
                return Err(IndexError::Corrupt(e));
            },
            Ok(v) => v,
        };
        if !reader.is_at_boundary() {
            return Err(IndexError::Corrupt(FrameError::CorruptPayload));
        }
        let ghost all_recs = fed.collected_documents;
        proof {
            assert(recs.deep_view() == all_recs);
            assert(crate::reader::at_boundary(fed));
        }
        let mut rest = recs;
        let mut data: Vec<(DocumentValue, u64)> = Vec::new();
        let ghost mut done: Seq<IndexView> = Seq::empty();
        proof {
            assert(view_entry_seq(data@) =~= Seq::<(ValueView, u64)>::empty());
            assert(replay(Seq::empty(), done) == Seq::<(ValueView, u64)>::empty());
            assert(done + rest.deep_view() =~= all_recs);
        }
        loop
            invariant
                done + rest.deep_view() == all_recs,
                view_entry_seq(data@) == replay(Seq::empty(), done),
            decreases rest@.len(),
        {
            if rest.len() == 0 {
                break;
            }
            let ghost old_dv = rest.deep_view();
            let rec = rest.remove(0);
            proof {
                assert(old_dv[0] == rec.deep_view());
                assert(rest.deep_view() =~= old_dv.subrange(1, old_dv.len() as int));
                assert(done.push(rec.deep_view()) + rest.deep_view() =~= done + old_dv);
                lemma_replay_snoc(Seq::empty(), done, rec.deep_view());
            }
            insert_entry(&mut data, rec.value, rec.id);
            proof {
                done = done.push(rec.deep_view());
            }
        }
        proof {
            assert(rest.deep_view() =~= Seq::<IndexView>::empty());
            assert(done =~= all_recs);
            lemma_replay_sorted(Seq::empty(), all_recs);
        }
        let mgr = SingleIndexManager { data, path, log, metadata };
        proof {
            assert(mgr.log@ =~= contents@.subrange(1024, total as int));
            let n1 = (c1 - 4) as int;
            vstd::utf8::decode_utf8_encode_utf8(mb.subrange(4, 4 + n1));
            assert(encode_utf8(mgr.metadata@.field) == mb.subrange(4, 4 + n1));
            let tail = mb.subrange(c1 as int, mb.len() as int);
            let n2 = (c2 - 4) as int;
            vstd::utf8::decode_utf8_encode_utf8(tail.subrange(4, 4 + n2));
            assert(encode_utf8(mgr.metadata@.collection_name) == tail.subrange(4, 4 + n2));
            vstd::bytes::lemma_auto_spec_u32_to_from_le_bytes();
            assert(encode_metadata(mgr.metadata@).len() == 9 + n1 + n2);
            lemma_round_trip_metadata(mgr.metadata@);
        }
        Ok(mgr)
    }

    /// Appends one `{id, value}` record to the log and updates the ordered
    /// map in place; returns the framed bytes for the caller to append to
    /// the index file.  A value present in the map after this call is
    /// recovered by a later open that replays the log.
    pub fn add_index(&mut self, id: u64, value: DocumentValue) -> (r: Vec<u8>)
        requires
            old(self).wf(),
            wf_value(crate::doc::view_value(value)),
            8 + encode_value(crate::doc::view_value(value)).len() <= u32::MAX,
        ensures
            final(self).wf(),
            final(self).metadata == old(self).metadata,
            final(self).path == old(self).path,
            final(self).log@ == old(self).log@ + crate::reader::frame_bytes(
                crate::codec::encode_index_record(id, crate::doc::view_value(value)),
            ),
            view_entry_seq(final(self).data@) == spec_insert(
                view_entry_seq(old(self).data@),
                crate::doc::view_value(value),
                id,
            ),
            r@ == crate::reader::frame_bytes(
                crate::codec::encode_index_record(id, crate::doc::view_value(value)),
            ),
    {
        let ghost kv = crate::doc::view_value(value);
        let ghost payload = crate::codec::encode_index_record(id, kv);
        let mut frame = vstd::bytes::u64_to_le_bytes(id);
        crate::codec::encode_value_into(&value, &mut frame);
        proof {
            assert(frame@ =~= payload);
        }
        crate::codec::insert_vec_length(&mut frame);
        frame.push(crate::FRAME_DELIMITER);
        proof {
            assert(frame@ =~= crate::reader::frame_bytes(payload));
        }
        let mut copy = vstd::slice::slice_to_vec(frame.as_slice());
        self.log.append(&mut copy);
        proof {
            let m0 = crate::reader::feed::<Index>(
                crate::reader::init_model(),
                old(self).log@,
            );
            crate::reader::lemma_feed_concat::<Index>(
                crate::reader::init_model(),
                old(self).log@,
                crate::reader::frame_bytes(payload),
            );
            crate::codec::lemma_round_trip_index_record(id, kv);
            vstd::bytes::lemma_auto_spec_u64_to_from_le_bytes();
            crate::reader::lemma_feed_frame::<Index>(m0, payload, IndexView { id, value: kv });
            lemma_replay_snoc(Seq::empty(), m0.collected_documents, IndexView { id, value: kv });
            lemma_spec_insert_sorted(view_entry_seq(old(self).data@), kv, id);
        }
        insert_entry(&mut self.data, value, id);
        frame
    }
}

/// For a sequence of `add` calls, the ordered map held in memory and the
/// ordered map a re-open rebuilds by replaying the persisted log are
/// identical: opening the header followed by the log yields this manager's
/// metadata and exactly its entries.
pub proof fn lemma_index_persistence(m: &SingleIndexManager)
    requires
        m.wf(),
    ensures
        open_result(index_header(m.metadata@) + m.log@) == Some(
            (m.metadata@, view_entry_seq(m.data@)),
        ),
{
    let img = index_header(m.metadata@) + m.log@;
    lemma_round_trip_header(m.metadata@, m.log@);
    assert(img.subrange(1024, img.len() as int) =~= m.log@);
}
} // verus!
