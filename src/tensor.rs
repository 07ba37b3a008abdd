use vstd::prelude::*;

use crate::error::{ErrorType, TCError};
use crate::sort::{in_order, sort_rows, wide_enough};
use crate::table::{leading, rows_view};

verus! {

/// A stored entry as plain values: a coordinate and its value.
pub type EntryView = (Seq<u64>, u64);

/// The value at `coord` in a list of entries: that of the last entry at `coord`, or zero.
pub open spec fn value_at(entries: Seq<EntryView>, coord: Seq<u64>) -> u64
    decreases entries.len(),
{
    if entries.len() == 0 {
        0
    } else if entries.last().0 == coord {
        entries.last().1
    } else {
        value_at(entries.drop_last(), coord)
    }
}

/// The entries that are not at `coord`, in their order.
pub open spec fn without(entries: Seq<EntryView>, coord: Seq<u64>) -> Seq<EntryView>
    decreases entries.len(),
{
    if entries.len() == 0 {
        Seq::empty()
    } else if entries.last().0 == coord {
        without(entries.drop_last(), coord)
    } else {
        without(entries.drop_last(), coord).push(entries.last())
    }
}

/// A coordinate lies within a shape: one index per axis, each below that axis's length.
pub open spec fn valid_coord(shape: Seq<u64>, coord: Seq<u64>) -> bool {
    &&& coord.len() == shape.len()
    &&& forall|i: int| 0 <= i < coord.len() ==> coord[i] < shape[i]
}

proof fn lemma_without(entries: Seq<EntryView>, coord: Seq<u64>, other: Seq<u64>)
    ensures
        value_at(without(entries, coord), other) == if other == coord {
            0
        } else {
            value_at(entries, other)
        },
        forall|i: int| 0 <= i < without(entries, coord).len() ==> exists|j: int|
            0 <= j < entries.len() && #[trigger] without(entries, coord)[i] == entries[j],
        forall|i: int| 0 <= i < without(entries, coord).len() ==> (#[trigger] without(entries, coord)[i]).0 != coord,
    decreases entries.len(),
{
    if entries.len() > 0 {
        lemma_without(entries.drop_last(), coord, other);
        let w = without(entries.drop_last(), coord);
        if entries.last().0 != coord {
            assert(w.push(entries.last()).drop_last() =~= w);
        }
        assert forall|i: int| 0 <= i < without(entries, coord).len() implies exists|j: int|
            0 <= j < entries.len() && #[trigger] without(entries, coord)[i] == entries[j] by {
            if i < w.len() {
                let j = choose|j: int| 0 <= j < entries.drop_last().len() && w[i] == entries.drop_last()[j];
                assert(entries[j] == entries.drop_last()[j]);
            } else {
                assert(without(entries, coord)[i] == entries[entries.len() - 1]);
            }
        }
    }
}

/// No coordinate occurs twice.
pub open spec fn distinct_coords(entries: Seq<EntryView>) -> bool {
    forall|i: int, j: int| 0 <= i < j < entries.len() ==> entries[i].0 != entries[j].0
}

proof fn lemma_without_distinct(entries: Seq<EntryView>, coord: Seq<u64>)
    requires
        distinct_coords(entries),
    ensures
        distinct_coords(without(entries, coord)),
    decreases entries.len(),
{
    if entries.len() > 0 {
        let d = entries.drop_last();
        assert(distinct_coords(d)) by {
            assert forall|i: int, j: int| 0 <= i < j < d.len() implies d[i].0 != d[j].0 by {
                assert(d[i] == entries[i] && d[j] == entries[j]);
            }
        }
        lemma_without_distinct(d, coord);
        lemma_without(d, coord, coord);
        let w = without(d, coord);
        if entries.last().0 != coord {
            let n = w.push(entries.last());
            assert(without(entries, coord) == n);
            assert forall|i: int, j: int| 0 <= i < j < n.len() implies n[i].0 != n[j].0 by {
                if j < w.len() {
                    assert(n[i] == w[i] && n[j] == w[j]);
                } else {
                    assert(n[i] == w[i]);
                    let k = choose|k: int| 0 <= k < d.len() && #[trigger] w[i] == d[k];
                    assert(d[k] == entries[k]);
                    assert(n[j] == entries[entries.len() - 1]);
                }
            }
        }
    }
}

/// A sparse tensor of unsigned integers: only the coordinates whose value is not zero are
/// stored.
pub struct SparseTensor {
    shape: Vec<u64>,
    entries: Vec<(Vec<u64>, u64)>,
}

impl SparseTensor {
    /// The length of each axis.
    pub closed spec fn spec_shape(&self) -> Seq<u64> {
        self.shape@
    }

    /// The stored entries, as plain values.
    pub closed spec fn stored(&self) -> Seq<EntryView> {
        self.entries@.map_values(|e: (Vec<u64>, u64)| (e.0@, e.1))
    }

    /// No stored value is zero, every stored coordinate lies within the shape, and no
    /// coordinate is stored twice.
    pub open spec fn wf(&self) -> bool {
        &&& forall|i: int| 0 <= i < self.stored().len() ==> {
            &&& (#[trigger] self.stored()[i]).1 != 0
            &&& valid_coord(self.spec_shape(), self.stored()[i].0)
        }
        &&& distinct_coords(self.stored())
    }

    /// The value at a coordinate.
    pub open spec fn spec_value(&self, coord: Seq<u64>) -> u64 {
        value_at(self.stored(), coord)
    }

    /// An empty tensor of the given shape: every value is zero.
    pub fn new(shape: Vec<u64>) -> (r: SparseTensor)
        ensures
            r.wf(),
            r.spec_shape() == shape@,
            r.stored() == Seq::<EntryView>::empty(),
    {
        let r = SparseTensor { shape, entries: Vec::new() };
        assert(r.stored() =~= Seq::<EntryView>::empty());
        r
    }

    /// The length of each axis.
    pub fn shape(&self) -> (r: &Vec<u64>)
        ensures
            r@ == self.spec_shape(),
    {
        &self.shape
    }

    /// The number of axes.
    pub fn ndim(&self) -> (r: usize)
        ensures
            r == self.spec_shape().len(),
    {
        self.shape.len()
    }

    /// The number of stored (non-zero) entries.
    pub fn filled_count(&self) -> (r: usize)
        ensures
            r == self.stored().len(),
    {
        self.entries.len()
    }

    /// The stored coordinates and their values, in the order they are kept.
    pub fn filled(&self) -> (r: Vec<(Vec<u64>, u64)>)
        ensures
            r@.map_values(|e: (Vec<u64>, u64)| (e.0@, e.1)) == self.stored(),
    {
        let ghost s = self.stored();
        let mut out: Vec<(Vec<u64>, u64)> = Vec::new();
        let mut i: usize = 0;
        while i < self.entries.len()
            invariant
                i <= s.len(),
                s == self.stored(),
                out@.map_values(|e: (Vec<u64>, u64)| (e.0@, e.1)) == s.subrange(0, i as int),
            decreases s.len() - i,
        {
            let c = self.entries[i].0.clone();
            let ghost prev = out@;
            out.push((c, self.entries[i].1));
            assert(s[i as int] == (self.entries@[i as int].0@, self.entries@[i as int].1));
            assert(c@ =~= self.entries@[i as int].0@);
            assert(out@.map_values(|e: (Vec<u64>, u64)| (e.0@, e.1)) =~= prev.map_values(
                |e: (Vec<u64>, u64)| (e.0@, e.1),
            ).push(s[i as int]));
            assert(s.subrange(0, i + 1) =~= s.subrange(0, i as int).push(s[i as int]));
            i = i + 1;
        }
        assert(s.subrange(0, i as int) =~= s);
        out
    }

    fn check_coord(&self, coord: &Vec<u64>) -> (r: bool)
        ensures
            r == valid_coord(self.spec_shape(), coord@),
    {
        if coord.len() != self.shape.len() {
            return false;
        }
        let mut i: usize = 0;
        while i < coord.len()
            invariant
                i <= coord@.len(),
                coord@.len() == self.shape@.len(),
                forall|j: int| 0 <= j < i ==> coord@[j] < self.shape@[j],
            decreases coord@.len() - i,
        {
            if coord[i] >= self.shape[i] {
                return false;
            }
            i = i + 1;
        }
        true
    }

    /// The value at `coord`, zero where nothing is stored there. A coordinate outside the
    /// shape is a bad request.
    pub fn read_value_at(&self, coord: &Vec<u64>) -> (r: Result<u64, TCError>)
        ensures
            valid_coord(self.spec_shape(), coord@) ==> r == Ok::<u64, TCError>(
                self.spec_value(coord@),
            ),
            !valid_coord(self.spec_shape(), coord@) ==> r is Err && r->Err_0.spec_code()
                == ErrorType::BadRequest,
    {
        if !self.check_coord(coord) {
            return Err(TCError::bad_request("coordinate out of bounds", "read"));
        }
        let mut i = self.entries.len();
        let ghost s = self.stored();
        assert(s.subrange(0, i as int) =~= s);
        while i > 0
            invariant
                i <= s.len(),
                s == self.stored(),
                valid_coord(self.spec_shape(), coord@),
                value_at(s, coord@) == value_at(s.subrange(0, i as int), coord@),
            decreases i,
        {
            assert(s[i - 1] == (self.entries@[i - 1].0@, self.entries@[i - 1].1));
            if same_coord(&self.entries[i - 1].0, coord) {
                return Ok(self.entries[i - 1].1);
            }
            assert(s.subrange(0, i as int).drop_last() =~= s.subrange(0, i - 1));
            i = i - 1;
        }
        Ok(0)
    }

    /// Sets the value at `coord`: a zero removes what is stored there, any other value
    /// replaces it. A coordinate outside the shape is a bad request.
    pub fn write_value_at(&mut self, coord: Vec<u64>, value: u64) -> (r: Result<(), TCError>)
        requires
            old(self).wf(),
        ensures
            final(self).wf(),
            final(self).spec_shape() == old(self).spec_shape(),
            valid_coord(old(self).spec_shape(), coord@) ==> {
                &&& r is Ok
                &&& value == 0 ==> final(self).stored() == without(old(self).stored(), coord@)
                &&& value != 0 ==> final(self).stored() == without(old(self).stored(), coord@).push(
                    (coord@, value),
                )
            },
            !valid_coord(old(self).spec_shape(), coord@) ==> r is Err && r->Err_0.spec_code()
                == ErrorType::BadRequest && final(self).stored() == old(self).stored(),
    {
        if !self.check_coord(&coord) {
            return Err(TCError::bad_request("coordinate out of bounds", "write"));
        }
        let ghost s = self.stored();
        let mut kept: Vec<(Vec<u64>, u64)> = Vec::new();
        let mut i: usize = 0;
        while i < self.entries.len()
            invariant
                i <= s.len(),
                s == self.stored(),
                kept@.map_values(|e: (Vec<u64>, u64)| (e.0@, e.1)) == without(s.subrange(0, i as int), coord@),
            decreases s.len() - i,
        {
            let ghost prev = kept@;
            assert(s.subrange(0, i + 1).drop_last() =~= s.subrange(0, i as int));
            assert(s[i as int] == (self.entries@[i as int].0@, self.entries@[i as int].1));
            if !same_coord(&self.entries[i].0, &coord) {
                let c = self.entries[i].0.clone();
                assert(c@ =~= self.entries@[i as int].0@);
                kept.push((c, self.entries[i].1));
                assert(kept@.map_values(|e: (Vec<u64>, u64)| (e.0@, e.1)) =~= prev.map_values(
                    |e: (Vec<u64>, u64)| (e.0@, e.1),
                ).push(s[i as int]));
            }
            i = i + 1;
        }
        assert(s.subrange(0, i as int) =~= s);
        let ghost w = without(s, coord@);
        proof {
            lemma_without(s, coord@, coord@);
        }
        if value != 0 {
            let ghost prev = kept@;
            kept.push((coord, value));
            assert(kept@.map_values(|e: (Vec<u64>, u64)| (e.0@, e.1)) =~= prev.map_values(
                |e: (Vec<u64>, u64)| (e.0@, e.1),
            ).push((coord@, value)));
        }
        self.entries = kept;
        proof {
            lemma_without_distinct(s, coord@);
            let t = self.stored();
            if value != 0 {
                assert forall|i: int, j: int| 0 <= i < j < t.len() implies t[i].0 != t[j].0 by {
                    if j < w.len() {
                        assert(t[i] == w[i] && t[j] == w[j]);
                    } else {
                        assert(t[i] == w[i]);
                        assert(t[j].0 == coord@);
                    }
                }
            } else {
                assert(t == w);
            }
            assert forall|i: int| 0 <= i < t.len() implies {
                &&& (#[trigger] t[i]).1 != 0
                &&& valid_coord(self.spec_shape(), t[i].0)
            } by {
                if i < w.len() {
                    let j = choose|j: int| 0 <= j < s.len() && w[i] == s[j];
                    assert(t[i] == w[i]);
                }
            }
        }
        Ok(())
    }
}

/// Whether two coordinates are the same.
pub fn same_coord(a: &Vec<u64>, b: &Vec<u64>) -> (r: bool)
    ensures
        r == (a@ == b@),
{
    if a.len() != b.len() {
        return false;
    }
    let mut i: usize = 0;
    while i < a.len()
        invariant
            i <= a@.len(),
            a@.len() == b@.len(),
            forall|j: int| 0 <= j < i ==> a@[j] == b@[j],
        decreases a@.len() - i,
    {
        if a[i] != b[i] {
            return false;
        }
        i = i + 1;
    }
    assert(a@ =~= b@);
    true
}

proof fn lemma_absent(entries: Seq<EntryView>, coord: Seq<u64>)
    requires
        forall|i: int| 0 <= i < entries.len() ==> (#[trigger] entries[i]).0 != coord,
    ensures
        value_at(entries, coord) == 0,
    decreases entries.len(),
{
    if entries.len() > 0 {
        assert(entries.last().0 != coord);
        lemma_absent(entries.drop_last(), coord);
    }
}

/// A tensor stores no zero, and a coordinate with nothing stored reads as zero.
pub proof fn lemma_sparse_zero(tensor: &SparseTensor, coord: Seq<u64>)
    requires
        tensor.wf(),
    ensures
        forall|i: int| 0 <= i < tensor.stored().len() ==> (#[trigger] tensor.stored()[i]).1 != 0,
        (forall|i: int| 0 <= i < tensor.stored().len() ==> (#[trigger] tensor.stored()[i]).0
            != coord) ==> tensor.spec_value(coord) == 0,
{
    if forall|i: int| 0 <= i < tensor.stored().len() ==> (#[trigger] tensor.stored()[i]).0 != coord {
        lemma_absent(tensor.stored(), coord);
    }
}

/// After a write of `value` at `coord`, reading `coord` gives `value` (zero included) and
/// every other coordinate reads as before.
pub proof fn lemma_write_read(entries: Seq<EntryView>, coord: Seq<u64>, value: u64, other: Seq<u64>)
    ensures
        value_at(
            if value == 0 {
                without(entries, coord)
            } else {
                without(entries, coord).push((coord, value))
            },
            other,
        ) == if other == coord {
            value
        } else {
            value_at(entries, other)
        },
{
    lemma_without(entries, coord, other);
    let w = without(entries, coord);
    assert(w.push((coord, value)).drop_last() =~= w);
}

/// The shape that two operands broadcast to: the larger length on each axis that both have.
pub fn broadcast(left: &Vec<u64>, right: &Vec<u64>) -> (r: Vec<u64>)
    ensures
        r@.len() == if left@.len() <= right@.len() { left@.len() } else { right@.len() },
        forall|i: int| 0 <= i < r@.len() ==> #[trigger] r@[i] == if left@[i] >= right@[i] {
            left@[i]
        } else {
            right@[i]
        },
{
    let n = if left.len() <= right.len() { left.len() } else { right.len() };
    let mut shape: Vec<u64> = Vec::new();
    let mut i: usize = 0;
    while i < n
        invariant
            i <= n,
            n <= left@.len(),
            n <= right@.len(),
            n == if left@.len() <= right@.len() { left@.len() } else { right@.len() },
            shape@.len() == i,
            forall|j: int| 0 <= j < i ==> #[trigger] shape@[j] == if left@[j] >= right@[j] {
                left@[j]
            } else {
                right@[j]
            },
        decreases n - i,
    {
        if left[i] >= right[i] {
            shape.push(left[i]);
        } else {
            shape.push(right[i]);
        }
        i = i + 1;
    }
    shape
}

/// The sum of the stored values.
pub open spec fn sum_of(entries: Seq<EntryView>) -> int
    decreases entries.len(),
{
    if entries.len() == 0 {
        0
    } else {
        sum_of(entries.drop_last()) + entries.last().1
    }
}

/// A coordinate lies within per-axis ranges, each from `lo` (inclusive) to `hi` (exclusive).
pub open spec fn coord_within(coord: Seq<u64>, bounds: Seq<(u64, u64)>) -> bool {
    &&& coord.len() == bounds.len()
    &&& forall|i: int| 0 <= i < bounds.len() ==> bounds[i].0 <= #[trigger] coord[i] && coord[i] < bounds[i].1
}

/// The entries whose coordinates lie within the ranges, in order.
pub open spec fn entries_within(entries: Seq<EntryView>, bounds: Seq<(u64, u64)>) -> Seq<EntryView>
    decreases entries.len(),
{
    if entries.len() == 0 {
        Seq::empty()
    } else if coord_within(entries.last().0, bounds) {
        entries_within(entries.drop_last(), bounds).push(entries.last())
    } else {
        entries_within(entries.drop_last(), bounds)
    }
}

impl SparseTensor {
    /// The sum of every value of the tensor; the zeros that are not stored add nothing.
    pub fn sum_all(&self) -> (r: u128)
        ensures
            r == sum_of(self.stored()),
    {
        let ghost s = self.stored();
        let mut acc: u128 = 0;
        let mut i: usize = 0;
        assert(s.subrange(0, 0) =~= Seq::<EntryView>::empty());
        while i < self.entries.len()
            invariant
                i <= s.len(),
                s == self.stored(),
                acc == sum_of(s.subrange(0, i as int)),
                acc <= i * 0xffff_ffff_ffff_ffffu128,
            decreases s.len() - i,
        {
            let v = self.entries[i].1;
            assert(s[i as int].1 == v);
            assert(s.subrange(0, i + 1).drop_last() =~= s.subrange(0, i as int));
            proof {
                assert((i + 1) * 0xffff_ffff_ffff_ffffu128 == i * 0xffff_ffff_ffff_ffffu128 + 0xffff_ffff_ffff_ffffu128) by (nonlinear_arith);
                assert((i + 1) * 0xffff_ffff_ffff_ffffu128 <= 0xffff_ffff_ffff_ffff * 0xffff_ffff_ffff_ffffu128) by (nonlinear_arith)
                    requires
                        i + 1 <= 0xffff_ffff_ffff_ffffu128,
                ;
            }
            acc = acc + v as u128;
            i = i + 1;
        }
        assert(s.subrange(0, i as int) =~= s);
        acc
    }

    /// The stored entries whose coordinates lie within one range per axis, in order. Ranges
    /// that do not match the number of axes are a bad request.
    pub fn slice(&self, bounds: &Vec<(u64, u64)>) -> (r: Result<Vec<(Vec<u64>, u64)>, TCError>)
        ensures
            r is Ok <==> bounds@.len() == self.spec_shape().len(),
            r matches Ok(v) ==> v@.map_values(|e: (Vec<u64>, u64)| (e.0@, e.1)) == entries_within(
                self.stored(),
                bounds@,
            ),
            r is Err ==> r->Err_0.spec_code() == ErrorType::BadRequest,
    {
        if bounds.len() != self.shape.len() {
            return Err(TCError::bad_request("slice bounds do not match the tensor's axes", "bounds"));
        }
        let ghost s = self.stored();
        let mut out: Vec<(Vec<u64>, u64)> = Vec::new();
        let mut i: usize = 0;
        assert(s.subrange(0, 0) =~= Seq::<EntryView>::empty());
        while i < self.entries.len()
            invariant
                i <= s.len(),
                s == self.stored(),
                out@.map_values(|e: (Vec<u64>, u64)| (e.0@, e.1)) == entries_within(s.subrange(0, i as int), bounds@),
            decreases s.len() - i,
        {
            assert(s[i as int] == (self.entries@[i as int].0@, self.entries@[i as int].1));
            assert(s.subrange(0, i + 1).drop_last() =~= s.subrange(0, i as int));
            let coord = &self.entries[i].0;
            let mut inside = coord.len() == bounds.len();
            if inside {
                let mut a: usize = 0;
                while a < bounds.len()
                    invariant
                        a <= bounds@.len(),
                        coord@.len() == bounds@.len(),
                        inside == forall|j: int| 0 <= j < a ==> bounds@[j].0 <= #[trigger] coord@[j] && coord@[j] < bounds@[j].1,
                    decreases bounds@.len() - a,
                {
                    if coord[a] < bounds[a].0 || coord[a] >= bounds[a].1 {
                        inside = false;
                    }
                    a = a + 1;
                }
            }
            if inside {
                let c = coord.clone();
                let ghost prev = out@;
                out.push((c, self.entries[i].1));
                assert(c@ =~= coord@);
                assert(out@.map_values(|e: (Vec<u64>, u64)| (e.0@, e.1)) =~= prev.map_values(
                    |e: (Vec<u64>, u64)| (e.0@, e.1),
                ).push(s[i as int]));
            }
            i = i + 1;
        }
        assert(s.subrange(0, i as int) =~= s);
        Ok(out)
    }
}

/// An entry as one row: its coordinate, then its value.
pub open spec fn entry_row(e: EntryView) -> Seq<u64> {
    e.0.push(e.1)
}

impl SparseTensor {
    /// The stored entries in ascending order of their coordinates, each as its coordinate
    /// followed by its value.
    pub fn filled_in_order(&self) -> (r: Vec<Vec<u64>>)
        requires
            self.wf(),
        ensures
            rows_view(r@).to_multiset() == self.stored().map_values(|e: EntryView| entry_row(e)).to_multiset(),
            in_order(rows_view(r@), leading(self.spec_shape().len()), false),
    {
        let ghost s = self.stored();
        let ndim = self.shape.len();
        let mut rows: Vec<Vec<u64>> = Vec::new();
        let mut i: usize = 0;
        while i < self.entries.len()
            invariant
                i <= s.len(),
                s == self.stored(),
                self.wf(),
                ndim == self.spec_shape().len(),
                rows_view(rows@) == s.subrange(0, i as int).map_values(|e: EntryView| entry_row(e)),
                forall|k: int| 0 <= k < rows@.len() ==> (#[trigger] rows@[k])@.len() == ndim + 1,
            decreases s.len() - i,
        {
            assert(s[i as int] == (self.entries@[i as int].0@, self.entries@[i as int].1));
            assert(valid_coord(self.spec_shape(), s[i as int].0));
            let mut row = self.entries[i].0.clone();
            row.push(self.entries[i].1);
            let ghost prev = rows@;
            rows.push(row);
            assert(rows_view(rows@) =~= rows_view(prev).push(row@));
            assert(row@ =~= entry_row(s[i as int]));
            assert(rows_view(rows@) =~= s.subrange(0, i + 1).map_values(|e: EntryView| entry_row(e)));
            i = i + 1;
        }
        assert(s.subrange(0, i as int) =~= s);
        let mut positions: Vec<usize> = Vec::new();
        let mut k: usize = 0;
        while k < ndim
            invariant
                k <= ndim,
                positions@ == leading(k as nat),
            decreases ndim - k,
        {
            positions.push(k);
            assert(positions@ =~= leading((k + 1) as nat));
            k = k + 1;
        }
        proof {
            let rv = rows_view(rows@);
            assert forall|a: int, b: int|
                #![trigger rv[a], positions@[b]]
                0 <= a < rv.len() && 0 <= b < positions@.len() implies positions@[b] < rv[a].len() by {
                assert(rv[a] == rows@[a]@);
                assert(positions@[b] as int == b);
            }
        }
        sort_rows(&rows, &positions, false)
    }
}

} // verus!
