//! The document model: field values, documents, and their equality and
//! ordering.
//!
//! A float is carried as its IEEE-754 bit pattern so that comparisons can be
//! stated and verified exactly; an object is a list of key/value pairs.
//! Equality and ordering are defined only within a variant; comparing values
//! of different variants yields not-equal and not-ordered, never a panic.

use vstd::prelude::*;
use vstd::utf8::encode_utf8;
use core::cmp::Ordering;

verus! {

// ---------------------------------------------------------------------------
// Mathematical model of a field value
// ---------------------------------------------------------------------------

/// The mathematical shape of a [`DocumentValue`]: strings are character
/// sequences, collections are sequences.
pub enum ValueView {
    Integer(i32),
    Float(u64),
    String(Seq<char>),
    Array(Seq<ValueView>),
    Object(Seq<(Seq<char>, ValueView)>),
}

// ---------------------------------------------------------------------------
// Executable value and document types
// ---------------------------------------------------------------------------

/// One field value of a document.  `Float` holds the IEEE-754 bit pattern of
/// a 64-bit float; `Object` holds its entries as a key/value pair list.
pub enum DocumentValue {
    Integer(i32),
    Float(u64),
    String(String),
    Array(Vec<DocumentValue>),
    Object(Vec<(String, DocumentValue)>),
}

/// Soft-delete marker of a document.  `DeletedUpdating` denotes a
/// delete-in-progress; decoders round-trip it faithfully.
#[derive(Clone, Copy, PartialEq, Eq, Structural, Debug)]
pub enum DocumentState {
    Deleted,
    DeletedUpdating,
    Exists,
}

/// One stored document.
pub struct Document {
    pub state: DocumentState,
    pub id: u64,
    pub fields: Vec<(String, DocumentValue)>,
}

/// The mathematical shape of a [`Document`].
pub struct DocView {
    pub state: DocumentState,
    pub id: u64,
    pub fields: Seq<(Seq<char>, ValueView)>,
}

pub open spec fn view_value(v: DocumentValue) -> ValueView
    decreases v,
{
    match v {
        DocumentValue::Integer(i) => ValueView::Integer(i),
        DocumentValue::Float(bits) => ValueView::Float(bits),
        DocumentValue::String(s) => ValueView::String(s@),
        DocumentValue::Array(items) => ValueView::Array(view_value_seq(items@)),
        DocumentValue::Object(pairs) => ValueView::Object(view_pair_seq(pairs@)),
    }
}

pub open spec fn view_value_seq(s: Seq<DocumentValue>) -> Seq<ValueView>
    decreases s,
{
    if s.len() == 0 {
        Seq::empty()
    } else {
        seq![view_value(s[0])] + view_value_seq(s.subrange(1, s.len() as int))
    }
}

pub open spec fn view_pair_seq(s: Seq<(String, DocumentValue)>) -> Seq<(Seq<char>, ValueView)>
    decreases s,
{
    if s.len() == 0 {
        Seq::empty()
    } else {
        seq![(s[0].0@, view_value(s[0].1))] + view_pair_seq(s.subrange(1, s.len() as int))
    }
}

impl View for DocumentValue {
    type V = ValueView;

    open spec fn view(&self) -> ValueView {
        view_value(*self)
    }
}

impl View for Document {
    type V = DocView;

    open spec fn view(&self) -> DocView {
        DocView { state: self.state, id: self.id, fields: view_pair_seq(self.fields@) }
    }
}

impl DeepView for DocumentValue {
    type V = ValueView;

    open spec fn deep_view(&self) -> ValueView {
        view_value(*self)
    }
}

impl DeepView for Document {
    type V = DocView;

    open spec fn deep_view(&self) -> DocView {
        self.view()
    }
}

// ---------------------------------------------------------------------------
// Float comparison on bit patterns (IEEE-754 semantics)
// ---------------------------------------------------------------------------

/// The bit pattern encodes a NaN: exponent all ones, mantissa non-zero.
pub open spec fn float_is_nan(bits: u64) -> bool {
    (bits >> 52) & 0x7ff == 0x7ff && bits & 0xf_ffff_ffff_ffff != 0
}

/// The bit pattern encodes a zero (either sign).
pub open spec fn float_is_zero(bits: u64) -> bool {
    bits & 0x7fff_ffff_ffff_ffff == 0
}

/// IEEE-754 equality of two 64-bit floats given as bit patterns: NaN equals
/// nothing, and the two zeros are equal.
pub open spec fn float_eq(a: u64, b: u64) -> bool {
    &&& !float_is_nan(a)
    &&& !float_is_nan(b)
    &&& (a == b || (float_is_zero(a) && float_is_zero(b)))
}

/// IEEE-754 `<` on bit patterns: false whenever a NaN is involved; otherwise
/// sign-magnitude order.
pub open spec fn float_lt(a: u64, b: u64) -> bool {
    &&& !float_is_nan(a)
    &&& !float_is_nan(b)
    &&& !float_eq(a, b)
    &&& {
        let sa = a >> 63;
        let sb = b >> 63;
        if sa != sb {
            sa == 1
        } else if sa == 0 {
            a < b
        } else {
            b < a
        }
    }
}

pub open spec fn float_cmp(a: u64, b: u64) -> Option<Ordering> {
    if float_is_nan(a) || float_is_nan(b) {
        None
    } else if float_eq(a, b) {
        Some(Ordering::Equal)
    } else if float_lt(a, b) {
        Some(Ordering::Less)
    } else {
        Some(Ordering::Greater)
    }
}

// ---------------------------------------------------------------------------
// Byte-sequence and string ordering
// ---------------------------------------------------------------------------

/// Lexicographic order on byte sequences.
pub open spec fn bytes_cmp(a: Seq<u8>, b: Seq<u8>) -> Ordering
    decreases a.len(),
{
    if a.len() == 0 && b.len() == 0 {
        Ordering::Equal
    } else if a.len() == 0 {
        Ordering::Less
    } else if b.len() == 0 {
        Ordering::Greater
    } else if a[0] < b[0] {
        Ordering::Less
    } else if a[0] > b[0] {
        Ordering::Greater
    } else {
        bytes_cmp(a.subrange(1, a.len() as int), b.subrange(1, b.len() as int))
    }
}

/// Lexicographic order on strings, by their UTF-8 encodings.  UTF-8 preserves
/// the code-point order, so this is the usual string order.
pub open spec fn string_cmp(a: Seq<char>, b: Seq<char>) -> Ordering {
    bytes_cmp(encode_utf8(a), encode_utf8(b))
}

// ---------------------------------------------------------------------------
// Value equality and partial ordering
// ---------------------------------------------------------------------------

/// Equality of two values: defined within a variant only.  Two objects are
/// never equal (their entries are unordered), and NaN equals nothing.
pub open spec fn value_eq(a: ValueView, b: ValueView) -> bool
    decreases a,
{
    match (a, b) {
        (ValueView::Integer(x), ValueView::Integer(y)) => x == y,
        (ValueView::Float(x), ValueView::Float(y)) => float_eq(x, y),
        (ValueView::String(x), ValueView::String(y)) => x == y,
        (ValueView::Array(x), ValueView::Array(y)) => {
            &&& x.len() == y.len()
            &&& forall|i: int| 0 <= i < x.len() ==> value_eq(x[i], #[trigger] y[i])
        },
        _ => false,
    }
}

/// Partial order on values: `None` whenever the two operands are not ordered
/// (different variants, a NaN, or an object).
pub open spec fn value_cmp(a: ValueView, b: ValueView) -> Option<Ordering>
    decreases a,
{
    match (a, b) {
        (ValueView::Integer(x), ValueView::Integer(y)) => {
            if x < y {
                Some(Ordering::Less)
            } else if x > y {
                Some(Ordering::Greater)
            } else {
                Some(Ordering::Equal)
            }
        },
        (ValueView::Float(x), ValueView::Float(y)) => float_cmp(x, y),
        (ValueView::String(x), ValueView::String(y)) => Some(string_cmp(x, y)),
        (ValueView::Array(x), ValueView::Array(y)) => value_seq_cmp(x, y),
        _ => None,
    }
}

/// Lexicographic partial order on value sequences.
pub open spec fn value_seq_cmp(x: Seq<ValueView>, y: Seq<ValueView>) -> Option<Ordering>
    decreases x,
{
    if x.len() == 0 && y.len() == 0 {
        Some(Ordering::Equal)
    } else if x.len() == 0 {
        Some(Ordering::Less)
    } else if y.len() == 0 {
        Some(Ordering::Greater)
    } else {
        match value_cmp(x[0], y[0]) {
            None => None,
            Some(Ordering::Equal) => value_seq_cmp(
                x.subrange(1, x.len() as int),
                y.subrange(1, y.len() as int),
            ),
            Some(o) => Some(o),
        }
    }
}

/// Equality of documents: same state, same id, and fields pairwise equal.
pub open spec fn doc_eq(a: DocView, b: DocView) -> bool {
    &&& a.state == b.state
    &&& a.id == b.id
    &&& a.fields.len() == b.fields.len()
    &&& forall|i: int|
        0 <= i < a.fields.len() ==> {
            &&& a.fields[i].0 == #[trigger] b.fields[i].0
            &&& value_eq(a.fields[i].1, b.fields[i].1)
        }
}

// ---------------------------------------------------------------------------
// Executable comparisons
// ---------------------------------------------------------------------------

/// Lexicographic comparison of two byte slices.
#[verifier::loop_isolation(false)]
pub fn bytes_compare(a: &[u8], b: &[u8]) -> (r: Ordering)
    ensures
        r == bytes_cmp(a@, b@),
{
    let mut i: usize = 0;
    proof {
        assert(a@.subrange(0, a@.len() as int) =~= a@);
        assert(b@.subrange(0, b@.len() as int) =~= b@);
    }
    loop
        invariant
            i <= a@.len(),
            i <= b@.len(),
            bytes_cmp(a@, b@) == bytes_cmp(
                a@.subrange(i as int, a@.len() as int),
                b@.subrange(i as int, b@.len() as int),
            ),
        decreases a@.len() - i,
    {
        proof {
            let ar = a@.subrange(i as int, a@.len() as int);
            let br = b@.subrange(i as int, b@.len() as int);
            if i < a@.len() && i < b@.len() && a@[i as int] == b@[i as int] {
                assert(ar.subrange(1, ar.len() as int) =~= a@.subrange(
                    i + 1,
                    a@.len() as int,
                ));
                assert(br.subrange(1, br.len() as int) =~= b@.subrange(
                    i + 1,
                    b@.len() as int,
                ));
            }
        }
        if i == a.len() && i == b.len() {
            return Ordering::Equal;
        } else if i == a.len() {
            return Ordering::Less;
        } else if i == b.len() {
            return Ordering::Greater;
        } else if a[i] < b[i] {
            return Ordering::Less;
        } else if a[i] > b[i] {
            return Ordering::Greater;
        }
        i = i + 1;
    }
}

/// Comparison of two strings in the order of [`string_cmp`].
pub fn string_compare(a: &str, b: &str) -> (r: Ordering)
    ensures
        r == string_cmp(a@, b@),
{
    bytes_compare(a.as_bytes(), b.as_bytes())
}

/// IEEE-754 comparison of two floats given as bit patterns.
pub fn float_compare(a: u64, b: u64) -> (r: Option<Ordering>)
    ensures
        r == float_cmp(a, b),
{
    let a_nan = (a >> 52) & 0x7ff == 0x7ff && a & 0xf_ffff_ffff_ffff != 0;
    let b_nan = (b >> 52) & 0x7ff == 0x7ff && b & 0xf_ffff_ffff_ffff != 0;
    if a_nan || b_nan {
        return None;
    }
    let a_zero = a & 0x7fff_ffff_ffff_ffff == 0;
    let b_zero = b & 0x7fff_ffff_ffff_ffff == 0;
    if a == b || (a_zero && b_zero) {
        return Some(Ordering::Equal);
    }
    let sa = a >> 63;
    let sb = b >> 63;
    let lt = if sa != sb {
        sa == 1
    } else if sa == 0 {
        a < b
    } else {
        b < a
    };
    if lt {
        Some(Ordering::Less)
    } else {
        Some(Ordering::Greater)
    }
}

/// Equality test in the sense of [`value_eq`].
#[verifier::loop_isolation(false)]
pub fn eq_value(a: &DocumentValue, b: &DocumentValue) -> (r: bool)
    ensures
        r == value_eq(a@, b@),
    decreases *a,
{
    match (a, b) {
        (DocumentValue::Integer(x), DocumentValue::Integer(y)) => *x == *y,
        (DocumentValue::Float(x), DocumentValue::Float(y)) => {
            matches!(float_compare(*x, *y), Some(Ordering::Equal))
        },
        (DocumentValue::String(x), DocumentValue::String(y)) => *x == *y,
        (DocumentValue::Array(x), DocumentValue::Array(y)) => {
            proof {
                lemma_view_value_seq_len(x@);
                lemma_view_value_seq_len(y@);
            }
            if x.len() != y.len() {
                return false;
            }
            let ghost vx = view_value_seq(x@);
            let ghost vy = view_value_seq(y@);
            let n = x.len();
            for i in 0..n
                invariant
                    n == x@.len(),
                    n == y@.len(),
                    vx == view_value_seq(x@),
                    vy == view_value_seq(y@),
                    vx.len() == n,
                    vy.len() == n,
                    a@ == ValueView::Array(vx),
                    b@ == ValueView::Array(vy),
                    forall|j: int| 0 <= j < i ==> value_eq(vx[j], #[trigger] vy[j]),
            {
                proof {
                    lemma_view_value_seq_index(x@, i as int);
                    lemma_view_value_seq_index(y@, i as int);
                    assert(decreases_to!(*a => (*a)->Array_0));
                    assert(decreases_to!((*a)->Array_0 => (*a)->Array_0[i as int]));
                    assert((*a)->Array_0[i as int] == x@[i as int]);
                }
                if !eq_value(&x[i], &y[i]) {
                    proof {
                        assert(!value_eq(vx[i as int], vy[i as int]));
                        assert(!value_eq(a@, b@));
                    }
                    return false;
                }
            }
            true
        },
        _ => {
            proof {
                lemma_view_variant(a);
                lemma_view_variant(b);
            }
            false
        },
    }
}

/// Comparison in the sense of [`value_cmp`].
#[verifier::loop_isolation(false)]
pub fn compare_value(a: &DocumentValue, b: &DocumentValue) -> (r: Option<Ordering>)
    ensures
        r == value_cmp(a@, b@),
    decreases *a,
{
    match (a, b) {
        (DocumentValue::Integer(x), DocumentValue::Integer(y)) => {
            if x < y {
                Some(Ordering::Less)
            } else if x > y {
                Some(Ordering::Greater)
            } else {
                Some(Ordering::Equal)
            }
        },
        (DocumentValue::Float(x), DocumentValue::Float(y)) => float_compare(*x, *y),
        (DocumentValue::String(x), DocumentValue::String(y)) => {
            Some(string_compare(x.as_str(), y.as_str()))
        },
        (DocumentValue::Array(x), DocumentValue::Array(y)) => {
            proof {
                lemma_view_value_seq_len(x@);
                lemma_view_value_seq_len(y@);
            }
            let ghost vx = view_value_seq(x@);
            let ghost vy = view_value_seq(y@);
            proof {
                assert(vx.subrange(0, vx.len() as int) =~= vx);
                assert(vy.subrange(0, vy.len() as int) =~= vy);
            }
            let xn = x.len();
            let yn = y.len();
            let n = if xn < yn {
                xn
            } else {
                yn
            };
            for i in 0..n
                invariant
                    xn == x@.len(),
                    yn == y@.len(),
                    n == if xn < yn { xn } else { yn },
                    vx == view_value_seq(x@),
                    vy == view_value_seq(y@),
                    vx.len() == xn,
                    vy.len() == yn,
                    a@ == ValueView::Array(vx),
                    b@ == ValueView::Array(vy),
                    value_seq_cmp(vx, vy) == value_seq_cmp(
                        vx.subrange(i as int, vx.len() as int),
                        vy.subrange(i as int, vy.len() as int),
                    ),
            {
                proof {
                    lemma_view_value_seq_index(x@, i as int);
                    lemma_view_value_seq_index(y@, i as int);
                    assert(decreases_to!(*a => (*a)->Array_0));
                    assert(decreases_to!((*a)->Array_0 => (*a)->Array_0[i as int]));
                    assert((*a)->Array_0[i as int] == x@[i as int]);
                }
                let c = compare_value(&x[i], &y[i]);
                proof {
                    lemma_value_seq_cmp_skip(vx, vy, i as int);
                }
                match c {
                    None => {
                        return None;
                    },
                    Some(Ordering::Equal) => {},
                    Some(o) => {
                        return Some(o);
                    },
                }
            }
            proof {
                if xn <= yn {
                    assert(vx.subrange(n as int, vx.len() as int) =~= Seq::<ValueView>::empty());
                } else {
                    assert(vy.subrange(n as int, vy.len() as int) =~= Seq::<ValueView>::empty());
                }
            }
            if xn < yn {
                Some(Ordering::Less)
            } else if xn > yn {
                Some(Ordering::Greater)
            } else {
                Some(Ordering::Equal)
            }
        },
        _ => {
            proof {
                lemma_view_variant(a);
                lemma_view_variant(b);
            }
            None
        },
    }
}

// ---------------------------------------------------------------------------
// Helper lemmas about the view functions
// ---------------------------------------------------------------------------

pub proof fn lemma_view_value_seq_len(s: Seq<DocumentValue>)
    ensures
        view_value_seq(s).len() == s.len(),
    decreases s,
{
    if s.len() > 0 {
        lemma_view_value_seq_len(s.subrange(1, s.len() as int));
    }
}

pub proof fn lemma_view_value_seq_index(s: Seq<DocumentValue>, i: int)
    requires
        0 <= i < s.len(),
    ensures
        view_value_seq(s).len() == s.len(),
        view_value_seq(s)[i] == view_value(s[i]),
    decreases s,
{
    lemma_view_value_seq_len(s);
    if i > 0 {
        lemma_view_value_seq_index(s.subrange(1, s.len() as int), i - 1);
    }
}

pub proof fn lemma_view_value_seq_snoc(s: Seq<DocumentValue>, x: DocumentValue)
    ensures
        view_value_seq(s.push(x)) == view_value_seq(s) + seq![view_value(x)],
    decreases s,
{
    reveal_with_fuel(view_value_seq, 3);
    let sp = s.push(x);
    if s.len() == 0 {
        assert(sp[0] == x);
        assert(sp.subrange(1, sp.len() as int) =~= Seq::<DocumentValue>::empty());
        assert(view_value_seq(s.push(x)) =~= view_value_seq(s) + seq![view_value(x)]);
    } else {
        let s1 = s.subrange(1, s.len() as int);
        assert(sp[0] == s[0]);
        assert(sp.subrange(1, sp.len() as int) =~= s1.push(x));
        lemma_view_value_seq_snoc(s1, x);
        assert(view_value_seq(sp) == seq![view_value(sp[0])] + view_value_seq(
            sp.subrange(1, sp.len() as int),
        ));
        assert(view_value_seq(sp.subrange(1, sp.len() as int)) == view_value_seq(s1) + seq![
            view_value(x),
        ]);
        assert(view_value_seq(s) == seq![view_value(s[0])] + view_value_seq(s1));
        assert(view_value_seq(s.push(x)) =~= view_value_seq(s) + seq![view_value(x)]);
    }
}

pub proof fn lemma_view_pair_seq_snoc(s: Seq<(String, DocumentValue)>, x: (String, DocumentValue))
    ensures
        view_pair_seq(s.push(x)) == view_pair_seq(s) + seq![(x.0@, view_value(x.1))],
    decreases s,
{
    reveal_with_fuel(view_pair_seq, 3);
    let sp = s.push(x);
    if s.len() == 0 {
        assert(sp[0] == x);
        assert(sp.subrange(1, sp.len() as int) =~= Seq::<(String, DocumentValue)>::empty());
        assert(view_pair_seq(s.push(x)) =~= view_pair_seq(s) + seq![(x.0@, view_value(x.1))]);
    } else {
        let s1 = s.subrange(1, s.len() as int);
        assert(sp[0] == s[0]);
        assert(sp.subrange(1, sp.len() as int) =~= s1.push(x));
        lemma_view_pair_seq_snoc(s1, x);
        assert(view_pair_seq(sp) == seq![(sp[0].0@, view_value(sp[0].1))] + view_pair_seq(
            sp.subrange(1, sp.len() as int),
        ));
        assert(view_pair_seq(s) == seq![(s[0].0@, view_value(s[0].1))] + view_pair_seq(s1));
        assert(view_pair_seq(s.push(x)) =~= view_pair_seq(s) + seq![(x.0@, view_value(x.1))]);
    }
}

pub proof fn lemma_view_pair_seq_len(s: Seq<(String, DocumentValue)>)
    ensures
        view_pair_seq(s).len() == s.len(),
    decreases s,
{
    if s.len() > 0 {
        lemma_view_pair_seq_len(s.subrange(1, s.len() as int));
    }
}

pub proof fn lemma_view_pair_seq_index(s: Seq<(String, DocumentValue)>, i: int)
    requires
        0 <= i < s.len(),
    ensures
        view_pair_seq(s).len() == s.len(),
        view_pair_seq(s)[i] == (s[i].0@, view_value(s[i].1)),
    decreases s,
{
    lemma_view_pair_seq_len(s);
    if i > 0 {
        lemma_view_pair_seq_index(s.subrange(1, s.len() as int), i - 1);
    }
}

/// Stepping a lexicographic sequence comparison past one equal element.
proof fn lemma_value_seq_cmp_skip(x: Seq<ValueView>, y: Seq<ValueView>, i: int)
    requires
        0 <= i < x.len(),
        0 <= i < y.len(),
        value_cmp(x[i], y[i]) == Some(Ordering::Equal) || value_seq_cmp(
            x.subrange(i, x.len() as int),
            y.subrange(i, y.len() as int),
        ) == value_cmp(x[i], y[i]),
    ensures
        value_cmp(x[i], y[i]) == Some(Ordering::Equal) ==> value_seq_cmp(
            x.subrange(i, x.len() as int),
            y.subrange(i, y.len() as int),
        ) == value_seq_cmp(x.subrange(i + 1, x.len() as int), y.subrange(i + 1, y.len() as int)),
        value_cmp(x[i], y[i]) != Some(Ordering::Equal) ==> value_seq_cmp(
            x.subrange(i, x.len() as int),
            y.subrange(i, y.len() as int),
        ) == value_cmp(x[i], y[i]),
{
    let xr = x.subrange(i, x.len() as int);
    let yr = y.subrange(i, y.len() as int);
    assert(xr[0] == x[i]);
    assert(yr[0] == y[i]);
    assert(xr.subrange(1, xr.len() as int) =~= x.subrange(i + 1, x.len() as int));
    assert(yr.subrange(1, yr.len() as int) =~= y.subrange(i + 1, y.len() as int));
}

/// The view keeps the variant of a value.
pub proof fn lemma_view_variant(v: &DocumentValue)
    ensures
        (*v is Integer) == v@ is Integer,
        (*v is Float) == v@ is Float,
        (*v is String) == v@ is String,
        (*v is Array) == v@ is Array,
        (*v is Object) == v@ is Object,
{
}

// ---------------------------------------------------------------------------
// The std comparison traits, with their meaning in contracts
// ---------------------------------------------------------------------------

impl PartialEq for DocumentValue {
    fn eq(&self, other: &Self) -> (r: bool) {
        eq_value(self, other)
    }
}

impl vstd::std_specs::cmp::PartialEqSpecImpl for DocumentValue {
    open spec fn obeys_eq_spec() -> bool {
        true
    }

    open spec fn eq_spec(&self, other: &Self) -> bool {
        value_eq(self@, other@)
    }
}

impl PartialOrd for DocumentValue {
    fn partial_cmp(&self, other: &Self) -> (r: Option<Ordering>) {
        compare_value(self, other)
    }
}

impl vstd::std_specs::cmp::PartialOrdSpecImpl for DocumentValue {
    open spec fn obeys_partial_cmp_spec() -> bool {
        true
    }

    open spec fn partial_cmp_spec(&self, other: &Self) -> Option<Ordering> {
        value_cmp(self@, other@)
    }
}

impl PartialEq for Document {
    #[verifier::loop_isolation(false)]
    fn eq(&self, other: &Self) -> (r: bool) {
        if !(self.state == other.state && self.id == other.id) {
            return false;
        }
        if self.fields.len() != other.fields.len() {
            proof {
                lemma_view_pair_seq_len(self.fields@);
                lemma_view_pair_seq_len(other.fields@);
            }
            return false;
        }
        proof {
            lemma_view_pair_seq_len(self.fields@);
            lemma_view_pair_seq_len(other.fields@);
        }
        let ghost va_s = view_pair_seq(self.fields@);
        let ghost vb_s = view_pair_seq(other.fields@);
        let n = self.fields.len();
        for i in 0..n
            invariant
                n == self.fields@.len(),
                n == other.fields@.len(),
                va_s == view_pair_seq(self.fields@),
                vb_s == view_pair_seq(other.fields@),
                va_s.len() == n,
                vb_s.len() == n,
                self.state == other.state,
                self.id == other.id,
                forall|j: int| 0 <= j < i ==> va_s[j].0 == #[trigger] vb_s[j].0,
                forall|j: int| 0 <= j < i ==> value_eq(va_s[j].1, #[trigger] vb_s[j].1),
        {
            proof {
                lemma_view_pair_seq_index(self.fields@, i as int);
                lemma_view_pair_seq_index(other.fields@, i as int);
            }
            let (ka, va) = &self.fields[i];
            let (kb, vb) = &other.fields[i];
            let key_match = *ka == *kb;
            let value_match = eq_value(va, vb);
            if !(key_match && value_match) {
                proof {
                    assert(self.fields@[i as int] == (*ka, *va));
                    assert(other.fields@[i as int] == (*kb, *vb));
                    assert(va_s[i as int] == (ka@, view_value(*va)));
                    assert(vb_s[i as int] == (kb@, view_value(*vb)));
                    if doc_eq(self@, other@) {
                        assert(self@.fields[i as int].0 == other@.fields[i as int].0
                            && value_eq(self@.fields[i as int].1, other@.fields[i as int].1));
                        assert(false);
                    }
                }
                return false;
            }
            proof {
                assert(self.fields@[i as int] == (*ka, *va));
                assert(other.fields@[i as int] == (*kb, *vb));
                assert(va_s[i as int].0 == vb_s[i as int].0);
                assert(value_eq(va_s[i as int].1, vb_s[i as int].1));
            }
        }
        proof {
            assert(va_s.len() == n);
            assert(self@.fields == va_s);
            assert(other@.fields == vb_s);
            assert(forall|j: int| 0 <= j < n ==> va_s[j].0 == #[trigger] vb_s[j].0);
            assert forall|j: int| 0 <= j < self@.fields.len() implies self@.fields[j].0
                == other@.fields[j].0 && value_eq(self@.fields[j].1, other@.fields[j].1) by {
                assert(va_s[j].0 == vb_s[j].0 && value_eq(va_s[j].1, vb_s[j].1));
            }
            assert(doc_eq(self@, other@));
        }
        true
    }
}

impl vstd::std_specs::cmp::PartialEqSpecImpl for Document {
    open spec fn obeys_eq_spec() -> bool {
        true
    }

    open spec fn eq_spec(&self, other: &Self) -> bool {
        doc_eq(self@, other@)
    }
}

// ---------------------------------------------------------------------------
// Constructors and accessors
// ---------------------------------------------------------------------------

impl DocumentValue {
    /// Whether the value is a number (integer or float).
    pub fn is_numeric(&self) -> (r: bool)
        ensures
            r == (self@ is Integer || self@ is Float),
    {
        matches!(self, DocumentValue::Integer(_)) || matches!(self, DocumentValue::Float(_))
    }
}

impl Document {
    /// A fresh document: it exists and carries the given fields.
    pub fn new(id: u64, fields: Vec<(String, DocumentValue)>) -> (r: Document)
        ensures
            r@.state == DocumentState::Exists,
            r@.id == id,
            r@.fields == view_pair_seq(fields@),
    {
        Document { state: DocumentState::Exists, id, fields }
    }
}


/// The mirror image of a comparison outcome.
pub open spec fn reverse_ordering(o: Ordering) -> Ordering {
    match o {
        Ordering::Less => Ordering::Greater,
        Ordering::Equal => Ordering::Equal,
        Ordering::Greater => Ordering::Less,
    }
}

/// Swapping the operands of [`bytes_cmp`] mirrors the outcome.
pub proof fn lemma_bytes_cmp_flip(a: Seq<u8>, b: Seq<u8>)
    ensures
        bytes_cmp(b, a) == reverse_ordering(bytes_cmp(a, b)),
    decreases a.len(),
{
    if a.len() > 0 && b.len() > 0 && a[0] == b[0] {
        lemma_bytes_cmp_flip(a.subrange(1, a.len() as int), b.subrange(1, b.len() as int));
    }
}

/// [`bytes_cmp`] is transitive on the `Less`-or-`Equal` side.
pub proof fn lemma_bytes_cmp_trans(a: Seq<u8>, b: Seq<u8>, c: Seq<u8>)
    requires
        bytes_cmp(a, b) != Ordering::Greater,
        bytes_cmp(b, c) != Ordering::Greater,
    ensures
        bytes_cmp(a, c) != Ordering::Greater,
        bytes_cmp(a, b) == Ordering::Less || bytes_cmp(b, c) == Ordering::Less
            ==> bytes_cmp(a, c) == Ordering::Less,
    decreases a.len() + b.len() + c.len(),
{
    if a.len() == 0 {
        // a is least; nothing to do unless c is empty, which forces b empty.
    } else {
        // a non-empty forces b non-empty, and in turn c non-empty.
        assert(b.len() > 0);
        assert(c.len() > 0);
        if a[0] == b[0] && b[0] == c[0] {
            lemma_bytes_cmp_trans(
                a.subrange(1, a.len() as int),
                b.subrange(1, b.len() as int),
                c.subrange(1, c.len() as int),
            );
        }
    }
}

/// `Equal` under [`bytes_cmp`] means the sequences are the same.
pub proof fn lemma_bytes_cmp_eq(a: Seq<u8>, b: Seq<u8>)
    requires
        bytes_cmp(a, b) == Ordering::Equal,
    ensures
        a == b,
    decreases a.len(),
{
    if a.len() > 0 {
        lemma_bytes_cmp_eq(a.subrange(1, a.len() as int), b.subrange(1, b.len() as int));
        assert(a =~= seq![a[0]] + a.subrange(1, a.len() as int));
        assert(b =~= seq![b[0]] + b.subrange(1, b.len() as int));
    } else {
        assert(a =~= b);
    }
}

/// [`bytes_cmp`] is reflexive.
pub proof fn lemma_bytes_cmp_refl(a: Seq<u8>)
    ensures
        bytes_cmp(a, a) == Ordering::Equal,
    decreases a.len(),
{
    if a.len() > 0 {
        lemma_bytes_cmp_refl(a.subrange(1, a.len() as int));
    }
}

/// The value compares to itself: it holds no NaN and no object, which never
/// equal anything, not even themselves.
pub open spec fn self_comparable(v: ValueView) -> bool
    decreases v,
{
    match v {
        ValueView::Integer(_) => true,
        ValueView::Float(bits) => !float_is_nan(bits),
        ValueView::String(_) => true,
        ValueView::Array(x) => forall|i: int| 0 <= i < x.len() ==> self_comparable(#[trigger] x[i]),
        ValueView::Object(_) => false,
    }
}

/// Equality and ordering of values are reflexive on every value that
/// compares to itself.
pub proof fn lemma_value_eq_reflexive(a: ValueView)
    requires
        self_comparable(a),
    ensures
        value_eq(a, a),
        value_cmp(a, a) == Some(Ordering::Equal),
    decreases a,
{
    match a {
        ValueView::String(x) => {
            lemma_bytes_cmp_refl(vstd::utf8::encode_utf8(x));
        },
        ValueView::Array(x) => {
            assert forall|i: int| 0 <= i < x.len() implies value_eq(x[i], #[trigger] x[i])
                && value_cmp(x[i], x[i]) == Some(Ordering::Equal) by {
                lemma_value_eq_reflexive(x[i]);
            }
            lemma_value_seq_cmp_refl(x);
        },
        _ => {},
    }
}

proof fn lemma_value_seq_cmp_refl(x: Seq<ValueView>)
    requires
        forall|i: int| 0 <= i < x.len() ==> self_comparable(#[trigger] x[i]),
    ensures
        value_seq_cmp(x, x) == Some(Ordering::Equal),
    decreases x,
{
    if x.len() > 0 {
        lemma_value_eq_reflexive(x[0]);
        lemma_value_seq_cmp_refl(x.subrange(1, x.len() as int));
    }
}

/// Equality of values is symmetric.
pub proof fn lemma_value_eq_symmetric(a: ValueView, b: ValueView)
    ensures
        value_eq(a, b) == value_eq(b, a),
    decreases a,
{
    match (a, b) {
        (ValueView::Array(x), ValueView::Array(y)) => {
            if x.len() == y.len() {
                assert forall|i: int| 0 <= i < x.len() implies value_eq(x[i], #[trigger] y[i])
                    == value_eq(y[i], x[i]) by {
                    lemma_value_eq_symmetric(x[i], y[i]);
                }
                if value_eq(a, b) {
                    assert forall|i: int| 0 <= i < y.len() implies value_eq(
                        y[i],
                        #[trigger] x[i],
                    ) by {
                        assert(value_eq(x[i], y[i]));
                    }
                }
                if value_eq(b, a) {
                    assert forall|i: int| 0 <= i < x.len() implies value_eq(
                        x[i],
                        #[trigger] y[i],
                    ) by {
                        assert(value_eq(y[i], x[i]));
                    }
                }
            }
        },
        _ => {},
    }
}

/// Ordering of values is mirror-symmetric: swapping the operands reverses
/// the outcome.
pub proof fn lemma_value_cmp_symmetric(a: ValueView, b: ValueView)
    ensures
        value_cmp(b, a) == match value_cmp(a, b) {
            None => None,
            Some(o) => Some(reverse_ordering(o)),
        },
    decreases a,
{
    match (a, b) {
        (ValueView::Float(x), ValueView::Float(y)) => {
            assert(x >> 63 == 0 || x >> 63 == 1) by (bit_vector);
            assert(y >> 63 == 0 || y >> 63 == 1) by (bit_vector);
        },
        (ValueView::String(x), ValueView::String(y)) => {
            lemma_bytes_cmp_flip(vstd::utf8::encode_utf8(x), vstd::utf8::encode_utf8(y));
        },
        (ValueView::Array(x), ValueView::Array(y)) => {
            lemma_value_seq_cmp_symmetric(x, y);
        },
        _ => {},
    }
}

proof fn lemma_value_seq_cmp_symmetric(x: Seq<ValueView>, y: Seq<ValueView>)
    ensures
        value_seq_cmp(y, x) == match value_seq_cmp(x, y) {
            None => None,
            Some(o) => Some(reverse_ordering(o)),
        },
    decreases x,
{
    if x.len() > 0 && y.len() > 0 {
        lemma_value_cmp_symmetric(x[0], y[0]);
        if value_cmp(x[0], y[0]) == Some(Ordering::Equal) {
            lemma_value_seq_cmp_symmetric(
                x.subrange(1, x.len() as int),
                y.subrange(1, y.len() as int),
            );
        }
    }
}

/// Two values of different variants are not equal and not ordered.
pub proof fn lemma_value_cross_variant(a: ValueView, b: ValueView)
    requires
        !(a is Integer && b is Integer),
        !(a is Float && b is Float),
        !(a is String && b is String),
        !(a is Array && b is Array),
    ensures
        !value_eq(a, b),
        value_cmp(a, b) is None,
{
}
} // verus!
