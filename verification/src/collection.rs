//! A collection: an unbounded logical log split across a pool of storage
//! handles, with the allocation policy for writes and the capacity-driven
//! growth that the periodic scan performs.

use vstd::prelude::*;
use crate::handles::{DataLocation, Handle};

verus! {

/// The scan keeps at least this many handles below the capacity ceiling.
pub const MINIMUM_FREE_HANDLES: usize = 2;

/// The per-handle capacity ceiling, in bytes.  Capacity is a soft target:
/// the degraded-mode fallback of [`Collection::write`] may exceed it.
pub const MAXIMUM_HANDLE_SIZE: usize = 2000000000;

// ---------------------------------------------------------------------------
// Handle file names
// ---------------------------------------------------------------------------

pub open spec fn digit_char(d: nat) -> char {
    if d == 0 {
        '0'
    } else if d == 1 {
        '1'
    } else if d == 2 {
        '2'
    } else if d == 3 {
        '3'
    } else if d == 4 {
        '4'
    } else if d == 5 {
        '5'
    } else if d == 6 {
        '6'
    } else if d == 7 {
        '7'
    } else if d == 8 {
        '8'
    } else {
        '9'
    }
}

/// The decimal digits of `n`, most significant first.
pub open spec fn dec_digits(n: nat) -> Seq<char>
    decreases n,
{
    if n < 10 {
        seq![digit_char(n)]
    } else {
        dec_digits(n / 10).push(digit_char(n % 10))
    }
}

/// Relies on `String::push_str`: it appends the characters of `t`.
#[verifier::external_body]
fn string_push_str(s: &mut String, t: &str)
    ensures
        final(s)@ == old(s)@ + t@,
{
    s.push_str(t)
}

/// One decimal digit as a string literal.
fn digit_str(d: usize) -> (r: &'static str)
    requires
        d < 10,
    ensures
        r@ == seq![digit_char(d as nat)],
{
    if d == 0 {
        proof {
            reveal_strlit("0");
        }
        "0"
    } else if d == 1 {
        proof {
            reveal_strlit("1");
        }
        "1"
    } else if d == 2 {
        proof {
            reveal_strlit("2");
        }
        "2"
    } else if d == 3 {
        proof {
            reveal_strlit("3");
        }
        "3"
    } else if d == 4 {
        proof {
            reveal_strlit("4");
        }
        "4"
    } else if d == 5 {
        proof {
            reveal_strlit("5");
        }
        "5"
    } else if d == 6 {
        proof {
            reveal_strlit("6");
        }
        "6"
    } else if d == 7 {
        proof {
            reveal_strlit("7");
        }
        "7"
    } else if d == 8 {
        proof {
            reveal_strlit("8");
        }
        "8"
    } else {
        proof {
            reveal_strlit("9");
        }
        "9"
    }
}

/// Appends the decimal digits of `n`.
fn push_decimal(s: &mut String, n: usize)
    ensures
        final(s)@ == old(s)@ + dec_digits(n as nat),
    decreases n,
{
    if n < 10 {
        string_push_str(s, digit_str(n));
    } else {
        push_decimal(s, n / 10);
        string_push_str(s, digit_str(n % 10));
        proof {
            assert(old(s)@ + dec_digits((n / 10) as nat) + seq![digit_char((n % 10) as nat)]
                =~= old(s)@ + dec_digits(n as nat));
        }
    }
}

/// The deterministic file name of a handle: `collection-<name>-<id>.bin`.
pub open spec fn handle_file_name_spec(name: Seq<char>, id: nat) -> Seq<char> {
    "collection-"@ + name + "-"@ + dec_digits(id) + ".bin"@
}

/// Builds the handle file name, so that a later process can re-discover the
/// file by prefix match.
pub fn handle_file_name(name: &str, id: usize) -> (r: String)
    ensures
        r@ == handle_file_name_spec(name@, id as nat),
{
    let mut s = String::new();
    string_push_str(&mut s, "collection-");
    string_push_str(&mut s, name);
    string_push_str(&mut s, "-");
    push_decimal(&mut s, id);
    string_push_str(&mut s, ".bin");
    proof {
        assert(s@ =~= handle_file_name_spec(name@, id as nat));
    }
    s
}

// ---------------------------------------------------------------------------
// The collection
// ---------------------------------------------------------------------------

/// A pool of storage handles for one logical collection.
pub struct Collection {
    pub handles: Vec<Handle>,
    pub name: String,
    pub last_id: usize,
    pub db_path: String,
}

/// The first handle below the capacity ceiling and not busy; the first
/// handle of the pool as the degraded-mode fallback.
pub open spec fn first_free(handles: Seq<Handle>, i: int) -> int
    decreases handles.len() - i,
{
    if i < 0 || i >= handles.len() {
        0
    } else if handles[i].file_size < MAXIMUM_HANDLE_SIZE && !handles[i].is_busy {
        i
    } else {
        first_free(handles, i + 1)
    }
}

/// How many of the given on-disk sizes are below the capacity ceiling.
pub open spec fn free_count(sizes: Seq<usize>, i: int) -> int
    decreases sizes.len() - i,
{
    if i < 0 || i >= sizes.len() {
        0
    } else {
        (if sizes[i] < MAXIMUM_HANDLE_SIZE {
            1int
        } else {
            0int
        }) + free_count(sizes, i + 1)
    }
}

/// The greatest handle id in the pool, `0` for an empty pool.
pub open spec fn max_id(handles: Seq<Handle>, i: int) -> nat
    decreases handles.len() - i,
{
    if i < 0 || i >= handles.len() {
        0
    } else {
        let rest = max_id(handles, i + 1);
        if handles[i].id >= rest {
            handles[i].id as nat
        } else {
            rest
        }
    }
}

/// Every id in the pool is bounded by [`max_id`].
pub proof fn lemma_max_id_bound(handles: Seq<Handle>, i: int, j: int)
    requires
        0 <= i <= j < handles.len(),
    ensures
        handles[j].id <= max_id(handles, i),
    decreases j - i,
{
    if i < j {
        lemma_max_id_bound(handles, i + 1, j);
    }
}

impl Collection {
    /// Handle ids are distinct and every handle is well formed.
    pub open spec fn wf(&self) -> bool {
        &&& forall|i: int, j: int|
            0 <= i < j < self.handles@.len() ==> (#[trigger] self.handles@[i]).id != (
            #[trigger] self.handles@[j]).id
        &&& forall|i: int| 0 <= i < self.handles@.len() ==> (#[trigger] self.handles@[i]).wf()
    }

    /// A collection over an existing pool of handles.
    pub fn new(name: String, db_path: String, handles: Vec<Handle>) -> (r: Collection)
        requires
            forall|i: int, j: int|
                0 <= i < j < handles@.len() ==> (#[trigger] handles@[i]).id != (
                #[trigger] handles@[j]).id,
            forall|i: int| 0 <= i < handles@.len() ==> (#[trigger] handles@[i]).wf(),
        ensures
            r.wf(),
            r.name@ == name@,
            r.db_path@ == db_path@,
            r.handles@ == handles@,
            r.last_id == 0,
    {
        Collection { handles, name, last_id: 0, db_path }
    }

    /// Writes `len` bytes into the pool: the first handle with spare
    /// capacity and a clear busy flag takes them; with no such handle, the
    /// first handle of the pool does, past its ceiling.  Returns the index
    /// of the chosen handle and the byte range the write occupies.
    #[verifier::loop_isolation(false)]
    pub fn write(&mut self, len: usize) -> (r: (usize, DataLocation))
        requires
            old(self).wf(),
            old(self).handles@.len() > 0,
            old(self).handles@[first_free(old(self).handles@, 0)].file_size + len
                <= usize::MAX,
        ensures
            final(self).wf(),
            r.0 == first_free(old(self).handles@, 0),
            final(self).name == old(self).name,
            final(self).db_path == old(self).db_path,
            final(self).last_id == old(self).last_id,
            final(self).handles@.len() == old(self).handles@.len(),
            forall|i: int|
                0 <= i < old(self).handles@.len() && i != r.0 ==> final(self).handles@[i]
                    == old(self).handles@[i],
            ({
                let c = r.0 as int;
                let oldh = old(self).handles@[c];
                let newh = final(self).handles@[c];
                &&& newh.id == oldh.id
                &&& newh.path == oldh.path
                &&& newh.file_size == oldh.file_size + len
                &&& !newh.is_busy
                &&& newh.write_op is None
                &&& r.1 == DataLocation(oldh.file_size, (oldh.file_size + len) as usize)
            }),
    {
        let ghost h0 = self.handles@;
        let n = self.handles.len();
        let mut idx: usize = 0;
        let mut found = false;
        let mut i: usize = 0;
        while i < n && !found
            invariant
                i <= n,
                !found ==> first_free(h0, 0) == first_free(h0, i as int),
                found ==> first_free(h0, 0) == idx && idx < n,
                !found ==> idx == 0,
            decreases n - i + (if found { 0int } else { 1int }),
        {
            if self.handles[i].file_size() < MAXIMUM_HANDLE_SIZE && !self.handles[i].is_busy() {
                idx = i;
                found = true;
            } else {
                i = i + 1;
            }
        }
        proof {
            if !found {
                assert(first_free(h0, n as int) == 0);
            }
        }
        let mut h = self.handles.remove(idx);
        let loc = h.write(len);
        self.handles.insert(idx, h);
        proof {
            assert(self.handles@ =~= h0.update(idx as int, self.handles@[idx as int]));
        }
        (idx, loc)
    }

    /// Creates `needed` fresh, empty handles with sequential ids past
    /// `last_id`, and returns the file paths the caller must create.
    #[verifier::loop_isolation(false)]
    fn create_handles(&mut self, needed: usize, last_id: usize) -> (r: Vec<String>)
        requires
            old(self).wf(),
            last_id + needed <= usize::MAX,
            forall|i: int|
                0 <= i < old(self).handles@.len() ==> (#[trigger] old(self).handles@[i]).id
                    <= last_id,
        ensures
            final(self).wf(),
            final(self).name == old(self).name,
            final(self).db_path == old(self).db_path,
            final(self).last_id == old(self).last_id,
            final(self).handles@.len() == old(self).handles@.len() + needed,
            forall|i: int|
                0 <= i < old(self).handles@.len() ==> final(self).handles@[i] == old(
                    self,
                ).handles@[i],
            forall|k: int|
                0 <= k < needed ==> {
                    let h = #[trigger] final(self).handles@[old(self).handles@.len() + k];
                    &&& h.id == last_id + k + 1
                    &&& h.file_size == 0
                    &&& !h.is_busy
                    &&& h.write_op is None
                    &&& h.path@ == handle_file_name_spec(
                        old(self).name@,
                        (last_id + k + 1) as nat,
                    )
                },
            r@.len() == needed,
            forall|k: int|
                0 <= k < needed ==> (#[trigger] r@[k])@ == handle_file_name_spec(
                    old(self).name@,
                    (last_id + k + 1) as nat,
                ),
    {
        let base = self.handles.len();
        let mut out: Vec<String> = Vec::new();
        for k in 0..needed
            invariant
                self.handles@.len() == base + k,
                self.name == old(self).name,
                self.db_path == old(self).db_path,
                self.last_id == old(self).last_id,
                out@.len() == k,
                forall|i: int| 0 <= i < base ==> self.handles@[i] == old(self).handles@[i],
                forall|j: int|
                    0 <= j < k ==> {
                        let h = #[trigger] self.handles@[base + j];
                        &&& h.id == last_id + j + 1
                        &&& h.file_size == 0
                        &&& !h.is_busy
                        &&& h.write_op is None
                        &&& h.path@ == handle_file_name_spec(
                            old(self).name@,
                            (last_id + j + 1) as nat,
                        )
                    },
                forall|j: int|
                    0 <= j < k ==> (#[trigger] out@[j])@ == handle_file_name_spec(
                        old(self).name@,
                        (last_id + j + 1) as nat,
                    ),
        {
            let new_id = last_id + k + 1;
            let path = handle_file_name(self.name.as_str(), new_id);
            let path_copy = path.clone();
            out.push(path_copy);
            self.handles.push(Handle::new(path, new_id, 0));
        }
        proof {
            assert forall|i: int, j: int| 0 <= i < j < self.handles@.len() implies (
            #[trigger] self.handles@[i]).id != (#[trigger] self.handles@[j]).id by {
                if j >= base {
                    let kj = j - base;
                    assert(self.handles@[base + kj].id == last_id + kj + 1);
                }
                if i >= base {
                    let ki = i - base;
                    assert(self.handles@[base + ki].id == last_id + ki + 1);
                }
            }
            assert forall|i: int| 0 <= i < self.handles@.len() implies (
            #[trigger] self.handles@[i]).wf() by {
                if i >= base {
                    let ki = i - base;
                    assert(self.handles@[base + ki].write_op is None);
                }
            }
        }
        out
    }

    /// The periodic maintenance pass.  `sizes` holds each handle's current
    /// on-disk size, in pool order.  Counts the handles below the capacity
    /// ceiling, adopts the greatest id in the pool, and when fewer than
    /// [`MINIMUM_FREE_HANDLES`] handles are free, creates exactly enough
    /// fresh handles, with ids strictly greater than every existing id, to
    /// restore that minimum.  Returns the paths of the files to create.
    #[verifier::loop_isolation(false)]
    pub fn scan_handles(&mut self, sizes: &Vec<usize>) -> (r: Vec<String>)
        requires
            old(self).wf(),
            sizes@.len() == old(self).handles@.len(),
            max_id(old(self).handles@, 0) + MINIMUM_FREE_HANDLES <= usize::MAX,
        ensures
            final(self).wf(),
            final(self).name == old(self).name,
            final(self).db_path == old(self).db_path,
            ({
                let free = free_count(sizes@, 0);
                let mid = max_id(old(self).handles@, 0);
                if free >= MINIMUM_FREE_HANDLES {
                    &&& final(self).handles@ == old(self).handles@
                    &&& final(self).last_id == mid
                    &&& r@.len() == 0
                } else {
                    let needed = MINIMUM_FREE_HANDLES - free;
                    &&& final(self).handles@.len() == old(self).handles@.len() + needed
                    &&& forall|i: int|
                        0 <= i < old(self).handles@.len() ==> final(self).handles@[i] == old(
                            self,
                        ).handles@[i]
                    &&& forall|k: int|
                        0 <= k < needed ==> {
                            let h = #[trigger] final(self).handles@[old(self).handles@.len()
                                + k];
                            &&& h.id == mid + k + 1
                            &&& h.file_size == 0
                            &&& !h.is_busy
                            &&& h.write_op is None
                            &&& h.path@ == handle_file_name_spec(
                                old(self).name@,
                                (mid + k + 1) as nat,
                            )
                        }
                    &&& forall|k: int, i: int|
                        0 <= k < needed && 0 <= i < old(self).handles@.len() ==> (
                        #[trigger] final(self).handles@[old(self).handles@.len() + k]).id > (
                        #[trigger] old(self).handles@[i]).id
                    &&& final(self).last_id == mid + needed
                    &&& r@.len() == needed
                    &&& forall|k: int|
                        0 <= k < needed ==> (#[trigger] r@[k])@ == handle_file_name_spec(
                            old(self).name@,
                            (mid + k + 1) as nat,
                        )
                }
            }),
    {
        let ghost h0 = self.handles@;
        let n = self.handles.len();
        let mut free: usize = 0;
        for i in 0..n
            invariant
                free <= i,
                free + free_count(sizes@, i as int) == free_count(sizes@, 0),
        {
            if sizes[i] < MAXIMUM_HANDLE_SIZE {
                free = free + 1;
            }
        }
        let mut mid: usize = 0;
        for i in 0..n
            invariant
                mid <= max_id(h0, 0),
                max_id(h0, 0) == if mid >= max_id(h0, i as int) {
                    mid as nat
                } else {
                    max_id(h0, i as int)
                },
        {
            let hid = self.handles[i].get_id();
            if hid > mid {
                mid = hid;
            }
        }
        proof {
            assert(max_id(h0, n as int) == 0);
            assert(mid == max_id(h0, 0));
            assert forall|i: int| 0 <= i < h0.len() implies (#[trigger] h0[i]).id <= mid by {
                lemma_max_id_bound(h0, 0, i);
            }
        }
        if free < MINIMUM_FREE_HANDLES {
            let needed = MINIMUM_FREE_HANDLES - free;
            let out = self.create_handles(needed, mid);
            self.last_id = mid + needed;
            out
        } else {
            self.last_id = mid;
            Vec::new()
        }
    }
}

} // verus!
