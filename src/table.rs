use vstd::prelude::*;

use crate::error::{ErrorType, TCError};
use crate::sort::{in_order, sort_rows, wide_enough};

verus! {

/// A column name as plain values.
pub type Name = Seq<char>;

/// The names of a list of columns, as plain values.
pub open spec fn names_of(columns: Seq<String>) -> Seq<Name> {
    columns.map_values(|c: String| c@)
}

/// A bound on one column: a single value, or the values from `lo` (inclusive) to `hi`
/// (exclusive).
#[derive(Clone, Copy, Debug, PartialEq, Eq, Structural)]
pub enum ColumnBound {
    Is(u64),
    In(u64, u64),
}

/// Whether a value lies within a bound.
pub open spec fn within(bound: ColumnBound, v: u64) -> bool {
    match bound {
        ColumnBound::Is(x) => v == x,
        ColumnBound::In(lo, hi) => lo <= v && v < hi,
    }
}

impl ColumnBound {
    /// Whether `v` lies within this bound.
    pub fn contains(&self, v: u64) -> (r: bool)
        ensures
            r == within(*self, v),
    {
        match self {
            ColumnBound::Is(x) => v == *x,
            ColumnBound::In(lo, hi) => *lo <= v && v < *hi,
        }
    }
}

/// An index accepts a list of names when they are, in order, the leading columns of its key.
pub open spec fn accepts(columns: Seq<Name>, names: Seq<Name>) -> bool {
    &&& names.len() <= columns.len()
    &&& forall|i: int| 0 <= i < names.len() ==> names[i] == columns[i]
}

/// Whether the `n` names that start at `start` are accepted.
fn accepts_at(columns: &Vec<String>, names: &Vec<String>, start: usize, n: usize) -> (r: bool)
    requires
        start + n <= names@.len(),
    ensures
        r == accepts(names_of(columns@), names_of(names@).subrange(start as int, start + n)),
{
    let ghost cs = names_of(columns@);
    let ghost ns = names_of(names@).subrange(start as int, start + n);
    if n > columns.len() {
        return false;
    }
    let len = names.len();
    let mut i: usize = 0;
    while i < n
        invariant
            i <= n,
            n <= columns@.len(),
            start + n <= names@.len(),
            len == names@.len(),
            cs == names_of(columns@),
            ns == names_of(names@).subrange(start as int, start + n),
            forall|j: int| 0 <= j < i ==> ns[j] == cs[j],
        decreases n - i,
    {
        if names[start + i] != columns[i] {
            assert(ns[i as int] == names@[start + i]@);
            return false;
        }
        i = i + 1;
    }
    true
}

/// The first index, from `from` on, that accepts the `n` names at `start`.
pub open spec fn first_accepting(indexes: Seq<Seq<Name>>, names: Seq<Name>, from: nat) -> Option<nat>
    decreases indexes.len() - from,
{
    if from >= indexes.len() {
        None
    } else if accepts(indexes[from as int], names) {
        Some(from)
    } else {
        first_accepting(indexes, names, from + 1)
    }
}

/// Greedy steps over `names` that leave `rest`. Each step `(k, n)` takes the longest run of
/// leading names that any index accepts, and, among the indexes that accept it, the first.
pub open spec fn greedy_steps(
    indexes: Seq<Seq<Name>>,
    names: Seq<Name>,
    plan: Seq<(nat, nat)>,
    rest: Seq<Name>,
) -> bool
    decreases plan.len(),
{
    if plan.len() == 0 {
        rest == names
    } else {
        let (k, n) = plan[0];
        &&& 1 <= n <= names.len()
        &&& first_accepting(indexes, names.take(n as int), 0) == Some(k)
        &&& forall|m: int|
            n < m <= names.len() ==> first_accepting(indexes, #[trigger] names.take(m), 0) is None
        &&& greedy_steps(indexes, names.skip(n as int), plan.skip(1), rest)
    }
}

/// A plan that covers every name by greedy steps.
pub open spec fn greedy(indexes: Seq<Seq<Name>>, names: Seq<Name>, plan: Seq<(nat, nat)>) -> bool {
    greedy_steps(indexes, names, plan, Seq::empty())
}

/// No index accepts any leading run of the names.
pub open spec fn unsupported(indexes: Seq<Seq<Name>>, names: Seq<Name>) -> bool {
    &&& names.len() > 0
    &&& forall|m: int|
        1 <= m <= names.len() ==> first_accepting(indexes, #[trigger] names.take(m), 0) is None
}

/// The planner gets stuck: after some greedy steps, no index accepts any leading run of the
/// names that are left.
pub open spec fn stuck(indexes: Seq<Seq<Name>>, names: Seq<Name>) -> bool {
    exists|plan: Seq<(nat, nat)>, rest: Seq<Name>|
        #[trigger] greedy_steps(indexes, names, plan, rest) && unsupported(indexes, rest)
}

/// A plan as plain values.
pub open spec fn plan_view(plan: Seq<(usize, usize)>) -> Seq<(nat, nat)> {
    plan.map_values(|p: (usize, usize)| (p.0 as nat, p.1 as nat))
}

proof fn lemma_greedy_extend(
    indexes: Seq<Seq<Name>>,
    names: Seq<Name>,
    plan: Seq<(nat, nat)>,
    rest: Seq<Name>,
    k: nat,
    n: nat,
)
    requires
        greedy_steps(indexes, names, plan, rest),
        1 <= n <= rest.len(),
        first_accepting(indexes, rest.take(n as int), 0) == Some(k),
        forall|m: int| n < m <= rest.len() ==> first_accepting(indexes, #[trigger] rest.take(m), 0) is None,
    ensures
        greedy_steps(indexes, names, plan.push((k, n)), rest.skip(n as int)),
    decreases plan.len(),
{
    if plan.len() == 0 {
        let p = plan.push((k, n));
        assert(p.skip(1) =~= Seq::<(nat, nat)>::empty());
        assert(p[0] == (k, n));
        assert(rest == names);
        assert(greedy_steps(indexes, names.skip(n as int), p.skip(1), rest.skip(n as int)));
    } else {
        let (k0, n0) = plan[0];
        assert(plan.push((k, n)).skip(1) =~= plan.skip(1).push((k, n)));
        lemma_greedy_extend(indexes, names.skip(n0 as int), plan.skip(1), rest, k, n);
    }
}

/// An index of a table: its key columns, then its value columns, and its rows, each a value
/// per column in that order.
#[derive(Debug)]
pub struct Index {
    key: Vec<String>,
    columns: Vec<String>,
    rows: Vec<Vec<u64>>,
}

impl Index {
    /// The names of the key columns.
    pub closed spec fn spec_key(&self) -> Seq<Name> {
        names_of(self.key@)
    }

    /// The names of all columns: key columns first.
    pub closed spec fn spec_columns(&self) -> Seq<Name> {
        names_of(self.columns@)
    }

    /// The rows, as plain values.
    pub closed spec fn spec_rows(&self) -> Seq<Seq<u64>> {
        self.rows@.map_values(|r: Vec<u64>| r@)
    }

    /// The key columns lead the columns.
    pub open spec fn wf(&self) -> bool {
        &&& self.spec_key().len() <= self.spec_columns().len()
        &&& forall|i: int| 0 <= i < self.spec_key().len() ==> self.spec_key()[i] == self.spec_columns()[i]
        &&& forall|i: int| 0 <= i < self.spec_rows().len() ==> (#[trigger] self.spec_rows()[i]).len()
            == self.spec_columns().len()
    }

    /// The names of all columns, key columns first.
    pub fn columns(&self) -> (r: &Vec<String>)
        ensures
            names_of(r@) == self.spec_columns(),
    {
        &self.columns
    }

    /// The number of rows.
    pub fn len(&self) -> (r: usize)
        ensures
            r == self.spec_rows().len(),
    {
        self.rows.len()
    }

    /// Whether the index holds no row.
    pub fn is_empty(&self) -> (r: bool)
        ensures
            r == (self.spec_rows().len() == 0),
    {
        self.rows.len() == 0
    }

    /// Accepts bounds whose columns are, in order, the leading columns of this index.
    pub fn validate_bounds(&self, bounds: &Vec<(String, ColumnBound)>) -> (r: Result<(), TCError>)
        ensures
            r is Ok <==> accepts(self.spec_columns(), bound_names(bounds@)),
            r is Err ==> r->Err_0.spec_code() == ErrorType::BadRequest,
    {
        let names = bound_name_list(bounds);
        if accepts_at(&self.columns, &names, 0, names.len()) {
            assert(names_of(names@).subrange(0, names@.len() as int) =~= names_of(names@));
            Ok(())
        } else {
            assert(names_of(names@).subrange(0, names@.len() as int) =~= names_of(names@));
            Err(TCError::bad_request("index does not support bounds", "columns out of order"))
        }
    }

    /// Accepts an order whose columns are, in order, the leading columns of this index.
    pub fn validate_order(&self, order: &Vec<String>) -> (r: Result<(), TCError>)
        ensures
            r is Ok <==> accepts(self.spec_columns(), names_of(order@)),
            r is Err ==> r->Err_0.spec_code() == ErrorType::BadRequest,
    {
        if accepts_at(&self.columns, order, 0, order.len()) {
            assert(names_of(order@).subrange(0, order@.len() as int) =~= names_of(order@));
            Ok(())
        } else {
            assert(names_of(order@).subrange(0, order@.len() as int) =~= names_of(order@));
            Err(TCError::bad_request("index does not support order", "columns out of order"))
        }
    }
}

/// No name occurs twice.
pub open spec fn unique(names: Seq<Name>) -> bool {
    forall|i: int, j: int| 0 <= i < j < names.len() ==> names[i] != names[j]
}

/// The values of a row at the given positions, in order.
pub open spec fn project(row: Seq<u64>, positions: Seq<usize>) -> Seq<u64> {
    positions.map_values(|p: usize| row[p as int])
}

/// The rows whose mark is set, in order.
pub open spec fn masked(rows: Seq<Seq<u64>>, keep: Seq<bool>) -> Seq<Seq<u64>>
    decreases rows.len(),
{
    if rows.len() == 0 || keep.len() < rows.len() {
        Seq::empty()
    } else if keep[rows.len() - 1] {
        masked(rows.drop_last(), keep).push(rows.last())
    } else {
        masked(rows.drop_last(), keep)
    }
}

/// No two rows share their leading `width` values.
pub open spec fn unique_keys(rows: Seq<Seq<u64>>, width: nat) -> bool {
    forall|i: int, j: int| 0 <= i < j < rows.len() ==> rows[i].take(width as int) != rows[j].take(width as int)
}

/// `x` is a row of `rows` whose mark is set.
pub open spec fn kept_member(x: Seq<u64>, rows: Seq<Seq<u64>>, keep: Seq<bool>) -> bool {
    exists|j: int| 0 <= j < rows.len() && keep.len() >= rows.len() && keep[j] && x == #[trigger] rows[j]
}

proof fn lemma_masked_members(rows: Seq<Seq<u64>>, keep: Seq<bool>)
    ensures
        forall|i: int| 0 <= i < masked(rows, keep).len() ==> kept_member(#[trigger] masked(rows, keep)[i], rows, keep),
    decreases rows.len(),
{
    if rows.len() > 0 && keep.len() >= rows.len() {
        let d = rows.drop_last();
        lemma_masked_members(d, keep);
        let m = masked(rows, keep);
        let p = masked(d, keep);
        assert forall|i: int| 0 <= i < m.len() implies kept_member(#[trigger] m[i], rows, keep) by {
            if i < p.len() {
                assert(kept_member(p[i], d, keep));
                let j = choose|j: int| 0 <= j < d.len() && keep.len() >= d.len() && keep[j] && p[i] == #[trigger] d[j];
                assert(m[i] == p[i]);
                assert(rows[j] == d[j]);
            } else {
                assert(keep[rows.len() - 1]);
                assert(m[i] == rows[rows.len() - 1]);
            }
        }
    }
}

proof fn lemma_masked_unique(rows: Seq<Seq<u64>>, keep: Seq<bool>, width: nat)
    requires
        unique_keys(rows, width),
    ensures
        unique_keys(masked(rows, keep), width),
    decreases rows.len(),
{
    if rows.len() > 0 && keep.len() >= rows.len() {
        let d = rows.drop_last();
        assert(unique_keys(d, width)) by {
            assert forall|i: int, j: int| 0 <= i < j < d.len() implies d[i].take(width as int) != d[j].take(width as int) by {
                assert(d[i] == rows[i] && d[j] == rows[j]);
            }
        }
        lemma_masked_unique(d, keep, width);
        lemma_masked_members(d, keep);
        let m = masked(rows, keep);
        let p = masked(d, keep);
        if keep[rows.len() - 1] {
            assert forall|i: int, j: int| 0 <= i < j < m.len() implies m[i].take(width as int) != m[j].take(width as int) by {
                if j < p.len() {
                    assert(m[i] == p[i] && m[j] == p[j]);
                } else {
                    assert(kept_member(p[i], d, keep));
                    let k = choose|k: int| 0 <= k < d.len() && keep.len() >= d.len() && keep[k] && p[i] == #[trigger] d[k];
                    assert(m[i] == p[i]);
                    assert(m[j] == rows[rows.len() - 1]);
                    assert(rows[k] == d[k]);
                }
            }
        }
    }
}

proof fn lemma_without_key_push(rows: Seq<Seq<u64>>, row: Seq<u64>, width: nat)
    requires
        unique_keys(rows, width),
    ensures
        unique_keys(without_key(rows, row.take(width as int), width).push(row), width),
{
    let key = row.take(width as int);
    let keep = other_keys(rows, key, width);
    let w = without_key(rows, key, width);
    lemma_masked_unique(rows, keep, width);
    lemma_masked_members(rows, keep);
    let m = w.push(row);
    assert forall|i: int, j: int| 0 <= i < j < m.len() implies m[i].take(width as int) != m[j].take(width as int) by {
        if j < w.len() {
            assert(m[i] == w[i] && m[j] == w[j]);
        } else {
            assert(kept_member(w[i], rows, keep));
            let k = choose|k: int| 0 <= k < rows.len() && keep.len() >= rows.len() && keep[k] && w[i] == #[trigger] rows[k];
            assert(m[i] == w[i]);
            assert(keep[k] == (rows[k].take(width as int) != key));
        }
    }
}

/// Marks the rows whose leading `width` values differ from `key`.
pub open spec fn other_keys(rows: Seq<Seq<u64>>, key: Seq<u64>, width: nat) -> Seq<bool> {
    Seq::new(rows.len(), |j: int| rows[j].take(width as int) != key)
}

/// The rows whose leading `width` values differ from `key`, in order.
pub open spec fn without_key(rows: Seq<Seq<u64>>, key: Seq<u64>, width: nat) -> Seq<Seq<u64>> {
    masked(rows, other_keys(rows, key, width))
}

/// The column names of a list of bounds, in order.
pub open spec fn bound_names(bounds: Seq<(String, ColumnBound)>) -> Seq<Name> {
    bounds.map_values(|b: (String, ColumnBound)| b.0@)
}

fn bound_name_list(bounds: &Vec<(String, ColumnBound)>) -> (r: Vec<String>)
    ensures
        names_of(r@) == bound_names(bounds@),
{
    let mut r: Vec<String> = Vec::new();
    let mut i: usize = 0;
    while i < bounds.len()
        invariant
            i <= bounds@.len(),
            names_of(r@) == bound_names(bounds@).subrange(0, i as int),
        decreases bounds@.len() - i,
    {
        let name = bounds[i].0.clone();
        let ghost prev = r@;
        r.push(name);
        assert(r@ =~= prev.push(name));
        assert(names_of(r@) =~= names_of(prev).push(name@));
        assert(names_of(r@) =~= bound_names(bounds@).subrange(0, i + 1));
        i = i + 1;
    }
    assert(bound_names(bounds@).subrange(0, i as int) =~= bound_names(bounds@));
    r
}

/// A table: a primary index and auxiliary indexes, named, in the order they were declared.
/// Each auxiliary index holds, for each of its columns, the primary column at the position
/// that its projection names.
#[derive(Debug)]
pub struct TableIndex {
    primary: Index,
    auxiliary: Vec<(String, Index)>,
    projections: Vec<Vec<usize>>,
}

impl TableIndex {
    /// The columns of each index: the primary first, then the auxiliaries in declaration order.
    pub closed spec fn indexes(&self) -> Seq<Seq<Name>> {
        seq![self.primary.spec_columns()] + self.auxiliary@.map_values(
            |a: (String, Index)| a.1.spec_columns(),
        )
    }

    /// The indexes agree with the schema and with each other.
    pub closed spec fn wf(&self) -> bool {
        &&& self.auxiliary@.len() < usize::MAX
        &&& self.projections@.len() == self.auxiliary@.len()
        &&& self.primary.wf()
        &&& self.primary.spec_key().len() > 0
        &&& self.primary.spec_columns().len() < usize::MAX
        &&& unique(self.primary.spec_columns())
        &&& unique_keys(self.primary.spec_rows(), self.primary.spec_key().len())
        &&& forall|k: int| 0 <= k < self.auxiliary@.len() ==> {
            let aux = (#[trigger] self.auxiliary@[k]).1;
            let proj = self.projections@[k]@;
            &&& aux.wf()
            &&& forall|i: int| 0 <= i < proj.len() ==> proj[i] < self.primary.spec_columns().len()
            &&& aux.spec_columns() == proj.map_values(|p: usize| self.primary.spec_columns()[p as int])
            &&& aux.spec_rows() == self.primary.spec_rows().map_values(|row: Seq<u64>| project(row, proj))
        }
    }

    /// The rows of the primary index.
    pub closed spec fn spec_rows(&self) -> Seq<Seq<u64>> {
        self.primary.spec_rows()
    }

    /// The rows of index `k`: the primary for zero, else auxiliary `k - 1`.
    pub closed spec fn spec_index_rows(&self, k: int) -> Seq<Seq<u64>> {
        if k == 0 {
            self.primary.spec_rows()
        } else {
            self.auxiliary@[k - 1].1.spec_rows()
        }
    }

    /// Which primary column each column of index `k` holds.
    pub closed spec fn projection(&self, k: int) -> Seq<usize> {
        if k == 0 {
            Seq::new(self.primary.spec_columns().len(), |i: int| i as usize)
        } else {
            self.projections@[k - 1]@
        }
    }

    /// The number of key columns of the primary index.
    pub closed spec fn key_len(&self) -> nat {
        self.primary.spec_key().len()
    }

    /// The number of indexes, the primary included.
    pub fn index_count(&self) -> (r: usize)
        requires
            self.wf(),
        ensures
            r == self.indexes().len(),
            r >= 1,
    {
        self.auxiliary.len() + 1
    }

    fn index_columns(&self, k: usize) -> (r: &Vec<String>)
        requires
            k < self.indexes().len(),
        ensures
            names_of(r@) == self.indexes()[k as int],
    {
        if k == 0 {
            self.primary.columns()
        } else {
            self.auxiliary[k - 1].1.columns()
        }
    }

    fn first_accepting_index(&self, names: &Vec<String>, start: usize, n: usize) -> (r: Option<usize>)
        requires
            start + n <= names@.len(),
            self.auxiliary@.len() < usize::MAX,
        ensures
            match r {
                Some(k) => first_accepting(self.indexes(), names_of(names@).subrange(start as int, start + n), 0) == Some(k as nat),
                None => first_accepting(self.indexes(), names_of(names@).subrange(start as int, start + n), 0) is None,
            },
    {
        let ghost ns = names_of(names@).subrange(start as int, start + n);
        let count = self.auxiliary.len() + 1;
        let mut k: usize = 0;
        while k < count
            invariant
                k <= count,
                count == self.indexes().len(),
                start + n <= names@.len(),
                ns == names_of(names@).subrange(start as int, start + n),
                first_accepting(self.indexes(), ns, 0) == first_accepting(self.indexes(), ns, k as nat),
            decreases count - k,
        {
            if accepts_at(self.index_columns(k), names, start, n) {
                return Some(k);
            }
            k = k + 1;
        }
        None
    }

    fn best_step(&self, names: &Vec<String>, start: usize) -> (r: Option<(usize, usize)>)
        requires
            start < names@.len(),
            self.auxiliary@.len() < usize::MAX,
        ensures
            ({
                let rest = names_of(names@).skip(start as int);
                match r {
                    Some((k, n)) => {
                        &&& 1 <= n <= rest.len()
                        &&& first_accepting(self.indexes(), rest.take(n as int), 0) == Some(k as nat)
                        &&& forall|m: int| n < m <= rest.len() ==> first_accepting(self.indexes(), #[trigger] rest.take(m), 0) is None
                    },
                    None => unsupported(self.indexes(), rest),
                }
            }),
    {
        let ghost rest = names_of(names@).skip(start as int);
        let mut n = names.len() - start;
        while n > 0
            invariant
                n <= names@.len() - start,
                start < names@.len(),
                self.auxiliary@.len() < usize::MAX,
                rest == names_of(names@).skip(start as int),
                rest.len() == names@.len() - start,
                forall|m: int| n < m <= rest.len() ==> first_accepting(self.indexes(), #[trigger] rest.take(m), 0) is None,
            decreases n,
        {
            assert(rest.take(n as int) =~= names_of(names@).subrange(start as int, start + n));
            if let Some(k) = self.first_accepting_index(names, start, n) {
                return Some((k, n));
            }
            n = n - 1;
        }
        None
    }

    /// Covers `names` with greedy steps: each takes the longest run of leading names that an
    /// index accepts, from the first index that accepts it (the primary before the auxiliaries,
    /// the auxiliaries in declaration order). Fails with a bad request where no index accepts
    /// any leading run of what is left.
    pub fn plan(&self, names: &Vec<String>) -> (r: Result<Vec<(usize, usize)>, TCError>)
        requires
            self.wf(),
        ensures
            r is Ok ==> greedy(self.indexes(), names_of(names@), plan_view(r->Ok_0@)),
            r is Err ==> stuck(self.indexes(), names_of(names@)) && r->Err_0.spec_code()
                == ErrorType::BadRequest,
    {
        let ghost ns = names_of(names@);
        let ghost ix = self.indexes();
        let mut plan: Vec<(usize, usize)> = Vec::new();
        let mut start: usize = 0;
        assert(ns.skip(0) =~= ns);
        assert(plan_view(plan@) =~= Seq::<(nat, nat)>::empty());
        while start < names.len()
            invariant
                start <= names@.len(),
                ns == names_of(names@),
                ix == self.indexes(),
                self.auxiliary@.len() < usize::MAX,
                greedy_steps(ix, ns, plan_view(plan@), ns.skip(start as int)),
            decreases names@.len() - start,
        {
            match self.best_step(names, start) {
                None => {
                    return Err(TCError::bad_request("no index supports", "the requested columns"));
                },
                Some((k, n)) => {
                    proof {
                        lemma_greedy_extend(ix, ns, plan_view(plan@), ns.skip(start as int), k as nat, n as nat);
                        assert(ns.skip(start as int).skip(n as int) =~= ns.skip(start + n));
                        assert(plan_view(plan@.push((k, n))) =~= plan_view(plan@).push((k as nat, n as nat)));
                    }
                    plan.push((k, n));
                    start = start + n;
                },
            }
        }
        assert(ns.skip(start as int) =~= Seq::<Name>::empty());
        Ok(plan)
    }
}

/// The position of the last column named `name`, or -1 where there is none.
pub open spec fn position_of(names: Seq<Name>, name: Name) -> int
    decreases names.len(),
{
    if names.len() == 0 {
        -1
    } else if names.last() == name {
        names.len() - 1
    } else {
        position_of(names.drop_last(), name)
    }
}

/// The positions among the first `m` primary columns of those that `key` does not name.
pub open spec fn trailing(names: Seq<Name>, key: Seq<Name>, m: nat) -> Seq<usize>
    decreases m,
{
    if m == 0 {
        Seq::empty()
    } else if key.contains(names[m - 1]) {
        trailing(names, key, (m - 1) as nat)
    } else {
        trailing(names, key, (m - 1) as nat).push((m - 1) as usize)
    }
}

/// What an auxiliary index over `key` holds: the columns of `key`, then the primary key
/// columns (the first `key_len` columns) that `key` does not name, as primary positions.
pub open spec fn aux_projection(names: Seq<Name>, key_len: nat, key: Seq<Name>) -> Seq<usize> {
    key.map_values(|c: Name| position_of(names, c) as usize) + trailing(names, key, key_len)
}

proof fn lemma_position_of(names: Seq<Name>, name: Name)
    ensures
        -1 <= position_of(names, name) < names.len(),
        position_of(names, name) >= 0 ==> names[position_of(names, name)] == name,
        position_of(names, name) < 0 ==> !names.contains(name),
    decreases names.len(),
{
    if names.len() > 0 {
        lemma_position_of(names.drop_last(), name);
        if names.last() != name && position_of(names, name) < 0 {
            assert forall|i: int| 0 <= i < names.len() implies names[i] != name by {
                if i < names.len() - 1 {
                    assert(names.drop_last()[i] == names[i]);
                }
            }
        }
    }
}

proof fn lemma_trailing(names: Seq<Name>, key: Seq<Name>, m: nat)
    requires
        m <= names.len(),
        names.len() <= usize::MAX,
    ensures
        forall|i: int| 0 <= i < trailing(names, key, m).len() ==> (#[trigger] trailing(names, key, m)[i]) < m
            && !key.contains(names[trailing(names, key, m)[i] as int]),
        trailing(names, key, m).len() <= m,
    decreases m,
{
    if m > 0 {
        let prev = trailing(names, key, (m - 1) as nat);
        lemma_trailing(names, key, (m - 1) as nat);
        let t = trailing(names, key, m);
        assert forall|i: int| 0 <= i < t.len() implies (#[trigger] t[i]) < m
            && !key.contains(names[t[i] as int]) by {
            if i < prev.len() {
                assert(t[i] == prev[i]);
            } else {
                assert(!key.contains(names[m - 1]));
                assert(t[i] == (m - 1) as usize);
            }
        }
    }
}

/// The columns of a table: the key, then the other columns; and the auxiliary indexes, each a
/// name and the list of columns it is keyed by.
pub struct TableSchema {
    pub key: Vec<String>,
    pub values: Vec<String>,
    pub indices: Vec<(String, Vec<String>)>,
}

fn find_column(columns: &Vec<String>, name: &String) -> (r: Option<usize>)
    ensures
        match r {
            Some(p) => p as int == position_of(names_of(columns@), name@),
            None => position_of(names_of(columns@), name@) < 0,
        },
{
    let ghost ns = names_of(columns@);
    let mut i = columns.len();
    assert(ns.subrange(0, i as int) =~= ns);
    while i > 0
        invariant
            i <= ns.len(),
            ns == names_of(columns@),
            position_of(ns, name@) == position_of(ns.subrange(0, i as int), name@),
        decreases i,
    {
        assert(ns[i - 1] == columns@[i - 1]@);
        if columns[i - 1] == *name {
            return Some(i - 1);
        }
        assert(ns.subrange(0, i as int).drop_last() =~= ns.subrange(0, i - 1));
        i = i - 1;
    }
    None
}

fn has_duplicate(names: &Vec<String>) -> (r: bool)
    ensures
        r == !unique(names_of(names@)),
{
    let ghost ns = names_of(names@);
    let mut i: usize = 0;
    while i < names.len()
        invariant
            i <= ns.len(),
            ns == names_of(names@),
            forall|a: int, b: int| 0 <= a < b < ns.len() && a < i ==> ns[a] != ns[b],
        decreases ns.len() - i,
    {
        let mut j: usize = i + 1;
        while j < names.len()
            invariant
                i < j <= ns.len(),
                ns == names_of(names@),
                forall|a: int, b: int| 0 <= a < b < ns.len() && a < i ==> ns[a] != ns[b],
                forall|b: int| i < b < j ==> ns[i as int] != ns[b],
            decreases ns.len() - j,
        {
            assert(ns[i as int] == names@[i as int]@ && ns[j as int] == names@[j as int]@);
            if names[i] == names[j] {
                return true;
            }
            j = j + 1;
        }
        i = i + 1;
    }
    false
}

fn copy_names(names: &Vec<String>) -> (r: Vec<String>)
    ensures
        names_of(r@) == names_of(names@),
{
    let mut r: Vec<String> = Vec::new();
    let mut i: usize = 0;
    while i < names.len()
        invariant
            i <= names@.len(),
            names_of(r@) == names_of(names@).subrange(0, i as int),
        decreases names@.len() - i,
    {
        let name = names[i].clone();
        let ghost prev = r@;
        r.push(name);
        assert(names_of(r@) =~= names_of(prev).push(name@));
        assert(names_of(r@) =~= names_of(names@).subrange(0, i + 1));
        i = i + 1;
    }
    assert(names_of(names@).subrange(0, i as int) =~= names_of(names@));
    r
}

/// The name under which a table's primary index goes, which no auxiliary index may take.
pub open spec fn primary_name() -> Name {
    "primary"@
}

/// Builds the (empty) auxiliary index `name` over `key` for a table whose columns are
/// `columns`, with `key_len` key columns; also returns which primary column each of its
/// columns holds.
#[verifier::spinoff_prover]
fn create_index(columns: &Vec<String>, key_len: usize, name: &String, key: &Vec<String>) -> (r: Result<(Index, Vec<usize>), TCError>)
    requires
        key_len <= columns@.len(),
    ensures
        name@ == primary_name() ==> r is Err && r->Err_0.spec_code() == ErrorType::BadRequest,
        name@ != primary_name() && !unique(names_of(key@)) ==> r is Err && r->Err_0.spec_code()
            == ErrorType::BadRequest,
        name@ != primary_name() && unique(names_of(key@)) && (exists|i: int| 0 <= i < key@.len()
            && !names_of(columns@).contains(#[trigger] names_of(key@)[i])) ==> r is Err
            && r->Err_0.spec_code() == ErrorType::NotFound,
        r is Ok ==> {
            let (ix, proj) = r->Ok_0;
            &&& proj@ == aux_projection(names_of(columns@), key_len as nat, names_of(key@))
            &&& ix.spec_key() == names_of(key@)
            &&& ix.spec_columns() == proj@.map_values(|p: usize| names_of(columns@)[p as int])
            &&& ix.spec_rows() == Seq::<Seq<u64>>::empty()
            &&& ix.wf()
            &&& forall|i: int| 0 <= i < proj@.len() ==> proj@[i] < columns@.len()
        },
        r is Err ==> name@ == primary_name() || !unique(names_of(key@)) || (exists|i: int| 0 <= i < key@.len()
            && !names_of(columns@).contains(#[trigger] names_of(key@)[i])),
{
    let ghost ns = names_of(columns@);
    let ghost ks = names_of(key@);
    let ncols = columns.len();
    assert(ns.len() <= usize::MAX);
    let reserved = String::from_str("primary");
    proof {
        reveal_strlit("primary");
    }
    if *name == reserved {
        return Err(TCError::bad_request("this index name is reserved", "primary"));
    }
    if has_duplicate(key) {
        return Err(TCError::bad_request("duplicate column in index", name.as_str()));
    }
    let mut proj: Vec<usize> = Vec::new();
    let mut i: usize = 0;
    while i < key.len()
        invariant
            i <= key@.len(),
            ns == names_of(columns@),
            ks == names_of(key@),
            proj@ == ks.subrange(0, i as int).map_values(|c: Name| position_of(ns, c) as usize),
            forall|j: int| 0 <= j < i ==> ns.contains(#[trigger] ks[j]),
            name@ != primary_name(),
            unique(ks),
        decreases key@.len() - i,
    {
        assert(ks[i as int] == key@[i as int]@);
        match find_column(columns, &key[i]) {
            None => {
                proof {
                    lemma_position_of(ns, ks[i as int]);
                }
                return Err(TCError::not_found(key[i].as_str()));
            },
            Some(p) => {
                proof {
                    lemma_position_of(ns, ks[i as int]);
                }
                let ghost prev = proj@;
                proj.push(p);
                assert(proj@ =~= ks.subrange(0, i + 1).map_values(|c: Name| position_of(ns, c) as usize));
                assert(ns.contains(ks[i as int]));
            },
        }
        i = i + 1;
    }
    assert(ks.subrange(0, i as int) =~= ks);
    let ghost lead = proj@;
    let mut p: usize = 0;
    assert(proj@ =~= lead + trailing(ns, ks, 0));
    while p < key_len
        invariant
            p <= key_len,
            key_len <= columns@.len(),
            ns == names_of(columns@),
            ks == names_of(key@),
            proj@ == lead + trailing(ns, ks, p as nat),
        decreases key_len - p,
    {
        let found = find_column(key, &columns[p]);
        proof {
            lemma_position_of(ks, columns@[p as int]@);
            assert(ns[p as int] == columns@[p as int]@);
        }
        if found.is_none() {
            proj.push(p);
            assert(proj@ =~= lead + trailing(ns, ks, (p + 1) as nat));
        } else {
            assert(ks.contains(ns[p as int]));
        }
        p = p + 1;
    }
    proof {
        assert forall|j: int| 0 <= j < proj@.len() implies proj@[j] < columns@.len() by {
            if j < lead.len() {
                lemma_position_of(ns, ks[j]);
                assert(ns.contains(ks[j]));
            } else {
                lemma_trailing(ns, ks, key_len as nat);
                assert(proj@[j] == trailing(ns, ks, key_len as nat)[j - lead.len()]);
            }
        }
    }
    let mut cols: Vec<String> = Vec::new();
    let mut j: usize = 0;
    while j < proj.len()
        invariant
            j <= proj@.len(),
            ns == names_of(columns@),
            forall|i: int| 0 <= i < proj@.len() ==> proj@[i] < columns@.len(),
            names_of(cols@) == proj@.subrange(0, j as int).map_values(|q: usize| ns[q as int]),
        decreases proj@.len() - j,
    {
        let c = columns[proj[j]].clone();
        let ghost prev = cols@;
        cols.push(c);
        assert(names_of(cols@) =~= names_of(prev).push(c@));
        assert(names_of(cols@) =~= proj@.subrange(0, j + 1).map_values(|q: usize| ns[q as int]));
        j = j + 1;
    }
    assert(proj@.subrange(0, j as int) =~= proj@);
    let ix = Index { key: copy_names(key), columns: cols, rows: Vec::new() };
    proof {
        assert(ix.spec_rows() =~= Seq::<Seq<u64>>::empty());
        assert forall|i: int| 0 <= i < ix.spec_key().len() implies ix.spec_key()[i] == ix.spec_columns()[i] by {
            lemma_position_of(ns, ks[i]);
            assert(ns.contains(ks[i]));
            assert(proj@[i] == lead[i]);
            assert(lead[i] == position_of(ns, ks[i]) as usize);
            assert(ix.spec_columns()[i] == ns[proj@[i] as int]);
        }
    }
    Ok((ix, proj))
}

/// An auxiliary index can be declared: it does not take the primary index's name, names no
/// column twice, and names only columns of the table.
pub open spec fn index_ok(columns: Seq<Name>, name: Name, key: Seq<Name>) -> bool {
    &&& name != primary_name()
    &&& unique(key)
    &&& forall|i: int| 0 <= i < key.len() ==> columns.contains(#[trigger] key[i])
}

/// The names of a schema's columns: key first.
pub open spec fn schema_columns(schema: &TableSchema) -> Seq<Name> {
    names_of(schema.key@) + names_of(schema.values@)
}

/// A schema can be created: its key is not empty, no column name repeats, and every auxiliary
/// index can be declared.
pub open spec fn schema_ok(schema: &TableSchema) -> bool {
    &&& schema.key@.len() > 0
    &&& unique(schema_columns(schema))
    &&& forall|i: int| 0 <= i < schema.indices@.len() ==> index_ok(
        schema_columns(schema),
        (#[trigger] schema.indices@[i]).0@,
        names_of(schema.indices@[i].1@),
    )
}

impl TableIndex {
    /// An empty table with the given schema. Fails with a bad request where the key is empty,
    /// a column name repeats, or an auxiliary index takes the primary's name or names a column
    /// twice; with not found where an auxiliary index names a column the table lacks.
    #[verifier::spinoff_prover]
    pub fn create(schema: &TableSchema) -> (r: Result<TableIndex, TCError>)
        requires
            schema.indices@.len() < usize::MAX,
            schema.key@.len() + schema.values@.len() < usize::MAX,
        ensures
            r is Ok <==> schema_ok(schema),
            r is Err ==> r->Err_0.spec_code() == ErrorType::BadRequest || r->Err_0.spec_code()
                == ErrorType::NotFound,
            !(schema.key@.len() > 0 && unique(schema_columns(schema))) ==> r is Err
                && r->Err_0.spec_code() == ErrorType::BadRequest,
            r is Ok ==> {
                let t = r->Ok_0;
                let cols = schema_columns(schema);
                &&& t.wf()
                &&& t.spec_rows() == Seq::<Seq<u64>>::empty()
                &&& t.key_len() == schema.key@.len()
                &&& t.indexes().len() == schema.indices@.len() + 1
                &&& t.indexes()[0] == cols
                &&& forall|k: int| 0 <= k < schema.indices@.len() ==> t.projection(k + 1) == aux_projection(
                    cols,
                    schema.key@.len(),
                    names_of((#[trigger] schema.indices@[k]).1@),
                )
                &&& forall|k: int| 0 <= k < schema.indices@.len() ==> #[trigger] t.indexes()[k + 1]
                    == t.projection(k + 1).map_values(|p: usize| cols[p as int])
            },
    {
        let ghost cols = schema_columns(schema);
        if schema.key.len() == 0 {
            return Err(TCError::bad_request("a table key needs", "at least one column"));
        }
        let mut columns = copy_names(&schema.key);
        let mut i: usize = 0;
        while i < schema.values.len()
            invariant
                i <= schema.values@.len(),
                names_of(columns@) == names_of(schema.key@) + names_of(schema.values@).subrange(0, i as int),
            decreases schema.values@.len() - i,
        {
            let c = schema.values[i].clone();
            let ghost prev = columns@;
            columns.push(c);
            assert(names_of(columns@) =~= names_of(prev).push(c@));
            assert(names_of(columns@) =~= names_of(schema.key@) + names_of(schema.values@).subrange(0, i + 1));
            i = i + 1;
        }
        assert(names_of(schema.values@).subrange(0, i as int) =~= names_of(schema.values@));
        if has_duplicate(&columns) {
            return Err(TCError::bad_request("duplicate column in schema", "columns"));
        }
        assert(columns@.len() == schema.key@.len() + schema.values@.len());
        let key_len = schema.key.len();
        let mut auxiliary: Vec<(String, Index)> = Vec::new();
        let mut projections: Vec<Vec<usize>> = Vec::new();
        let mut k: usize = 0;
        while k < schema.indices.len()
            invariant
                k <= schema.indices@.len(),
                names_of(columns@) == cols,
                cols == schema_columns(schema),
                schema.key@.len() > 0,
                unique(cols),
                key_len == schema.key@.len(),
                key_len <= columns@.len(),
                auxiliary@.len() == k,
                projections@.len() == k,
                forall|j: int| 0 <= j < k ==> index_ok(cols, (#[trigger] schema.indices@[j]).0@, names_of(schema.indices@[j].1@)),
                forall|j: int| 0 <= j < k ==> {
                    let aux = (#[trigger] auxiliary@[j]).1;
                    let proj = projections@[j]@;
                    &&& aux.wf()
                    &&& forall|i: int| 0 <= i < proj.len() ==> proj[i] < cols.len()
                    &&& aux.spec_columns() == proj.map_values(|p: usize| cols[p as int])
                    &&& aux.spec_rows() == Seq::<Seq<u64>>::empty()
                    &&& proj == aux_projection(cols, key_len as nat, names_of(schema.indices@[j].1@))
                },
            decreases schema.indices@.len() - k,
        {
            let (name, key) = (&schema.indices[k].0, &schema.indices[k].1);
            match create_index(&columns, key_len, name, key) {
                Err(e) => {
                    return Err(e);
                },
                Ok((ix, proj)) => {
                    auxiliary.push((name.clone(), ix));
                    projections.push(proj);
                },
            }
            k = k + 1;
        }
        let primary = Index { key: copy_names(&schema.key), columns, rows: Vec::new() };
        let t = TableIndex { primary, auxiliary, projections };
        proof {
            assert(t.primary.spec_rows() =~= Seq::<Seq<u64>>::empty());
            assert forall|i: int| 0 <= i < t.primary.spec_key().len() implies t.primary.spec_key()[i] == t.primary.spec_columns()[i] by {
                assert(cols[i] == names_of(schema.key@)[i]);
            }
            assert forall|j: int| 0 <= j < t.auxiliary@.len() implies {
                let aux = (#[trigger] t.auxiliary@[j]).1;
                let proj = t.projections@[j]@;
                &&& aux.wf()
                &&& forall|i: int| 0 <= i < proj.len() ==> proj[i] < t.primary.spec_columns().len()
                &&& aux.spec_columns() == proj.map_values(|p: usize| t.primary.spec_columns()[p as int])
                &&& aux.spec_rows() == t.primary.spec_rows().map_values(|row: Seq<u64>| project(row, proj))
            } by {
                assert(t.primary.spec_rows().map_values(|row: Seq<u64>| project(row, t.projections@[j]@)) =~= Seq::<Seq<u64>>::empty());
            }
            assert(t.indexes().len() == schema.indices@.len() + 1);
            assert(t.primary.wf());
            assert(unique(t.primary.spec_columns()));
            assert(t.auxiliary@.len() < usize::MAX);
            assert(t.projections@.len() == t.auxiliary@.len());
            assert(t.primary.spec_key().len() > 0);
            assert(t.primary.spec_columns().len() < usize::MAX);
            assert(t.wf());
            assert(t.spec_rows() == Seq::<Seq<u64>>::empty());
            assert(t.key_len() == schema.key@.len());
            assert(t.indexes()[0] == cols);
            assert forall|k: int| 0 <= k < schema.indices@.len() implies t.projection(k + 1) == aux_projection(
                    cols,
                    schema.key@.len(),
                    names_of((#[trigger] schema.indices@[k]).1@),
                ) by {
                let aux = t.auxiliary@[k];
                assert(t.projection(k + 1) == t.projections@[k]@);
            }
            assert forall|k: int| 0 <= k < schema.indices@.len() implies #[trigger] t.indexes()[k + 1]
                == t.projection(k + 1).map_values(|p: usize| cols[p as int]) by {
                assert(t.indexes()[k + 1] == t.auxiliary@[k].1.spec_columns());
            }
        }
        Ok(t)
    }
}

/// The rows of a list, as plain values.
pub open spec fn rows_view(rows: Seq<Vec<u64>>) -> Seq<Seq<u64>> {
    rows.map_values(|r: Vec<u64>| r@)
}

proof fn lemma_masked_project(rows: Seq<Seq<u64>>, keep: Seq<bool>, proj: Seq<usize>)
    ensures
        masked(rows.map_values(|row: Seq<u64>| project(row, proj)), keep) == masked(rows, keep).map_values(
            |row: Seq<u64>| project(row, proj),
        ),
    decreases rows.len(),
{
    let f = |row: Seq<u64>| project(row, proj);
    if rows.len() > 0 && keep.len() >= rows.len() {
        assert(rows.map_values(f).drop_last() =~= rows.drop_last().map_values(f));
        lemma_masked_project(rows.drop_last(), keep, proj);
        if keep[rows.len() - 1] {
            assert(masked(rows, keep).map_values(f) =~= masked(rows.drop_last(), keep).map_values(f).push(
                f(rows.last()),
            ));
        }
    } else {
        assert(masked(rows, keep).map_values(f) =~= Seq::<Seq<u64>>::empty());
    }
}

fn filter_rows(rows: &Vec<Vec<u64>>, keep: &Vec<bool>) -> (r: Vec<Vec<u64>>)
    requires
        keep@.len() == rows@.len(),
    ensures
        rows_view(r@) == masked(rows_view(rows@), keep@),
{
    let ghost rs = rows_view(rows@);
    let mut out: Vec<Vec<u64>> = Vec::new();
    let mut i: usize = 0;
    while i < rows.len()
        invariant
            i <= rows@.len(),
            keep@.len() == rows@.len(),
            rs == rows_view(rows@),
            rows_view(out@) == masked(rs.subrange(0, i as int), keep@),
        decreases rows@.len() - i,
    {
        assert(rs.subrange(0, i + 1).drop_last() =~= rs.subrange(0, i as int));
        if keep[i] {
            let row = rows[i].clone();
            let ghost prev = out@;
            out.push(row);
            assert(row@ =~= rs[i as int]);
            assert(rows_view(out@) =~= rows_view(prev).push(row@));
        }
        i = i + 1;
    }
    assert(rs.subrange(0, i as int) =~= rs);
    out
}

fn same_prefix(row: &Vec<u64>, key: &Vec<u64>, width: usize) -> (r: bool)
    requires
        width <= row@.len(),
    ensures
        r == (row@.take(width as int) == key@),
{
    if key.len() != width {
        return false;
    }
    let mut i: usize = 0;
    while i < width
        invariant
            i <= width,
            width <= row@.len(),
            key@.len() == width,
            forall|j: int| 0 <= j < i ==> row@[j] == key@[j],
        decreases width - i,
    {
        if row[i] != key[i] {
            return false;
        }
        i = i + 1;
    }
    assert(row@.take(width as int) =~= key@);
    true
}

fn project_row(row: &Vec<u64>, proj: &Vec<usize>) -> (r: Vec<u64>)
    requires
        forall|i: int| 0 <= i < proj@.len() ==> proj@[i] < row@.len(),
    ensures
        r@ == project(row@, proj@),
{
    let mut out: Vec<u64> = Vec::new();
    let mut i: usize = 0;
    while i < proj.len()
        invariant
            i <= proj@.len(),
            forall|i: int| 0 <= i < proj@.len() ==> proj@[i] < row@.len(),
            out@ == project(row@, proj@.subrange(0, i as int)),
        decreases proj@.len() - i,
    {
        out.push(row[proj[i]]);
        assert(out@ =~= project(row@, proj@.subrange(0, i + 1)));
        i = i + 1;
    }
    assert(proj@.subrange(0, i as int) =~= proj@);
    out
}

impl TableIndex {
    /// The number of columns of a row.
    pub closed spec fn width(&self) -> nat {
        self.primary.spec_columns().len()
    }

    fn other_keys_mask(&self, key: &Vec<u64>) -> (r: Vec<bool>)
        requires
            self.wf(),
        ensures
            r@ == other_keys(self.spec_rows(), key@, self.key_len()),
    {
        let kw = self.primary.key.len();
        let mut mask: Vec<bool> = Vec::new();
        let mut j: usize = 0;
        while j < self.primary.rows.len()
            invariant
                self.wf(),
                kw == self.key_len(),
                j <= self.spec_rows().len(),
                mask@ == other_keys(self.spec_rows(), key@, kw as nat).subrange(0, j as int),
            decreases self.spec_rows().len() - j,
        {
            assert(self.spec_rows()[j as int] == self.primary.rows@[j as int]@);
            assert(self.primary.spec_rows()[j as int].len() == self.width());
            let same = same_prefix(&self.primary.rows[j], key, kw);
            mask.push(!same);
            assert(mask@ =~= other_keys(self.spec_rows(), key@, kw as nat).subrange(0, j + 1));
            j = j + 1;
        }
        assert(other_keys(self.spec_rows(), key@, kw as nat).subrange(0, j as int) =~= other_keys(
            self.spec_rows(),
            key@,
            kw as nat,
        ));
        mask
    }

    #[verifier::spinoff_prover]
    fn keep_rows(&mut self, keep: &Vec<bool>)
        requires
            old(self).wf(),
            keep@.len() == old(self).spec_rows().len(),
        ensures
            final(self).wf(),
            final(self).spec_rows() == masked(old(self).spec_rows(), keep@),
            final(self).indexes() == old(self).indexes(),
            final(self).key_len() == old(self).key_len(),
            final(self).width() == old(self).width(),
            forall|k: int| #![auto] final(self).projection(k) == old(self).projection(k),
    {
        let ghost old_self = *self;
        let n = self.auxiliary.len();
        let mut k: usize = 0;
        while k < n
            invariant
                k <= n,
                n == self.auxiliary@.len(),
                n == old_self.auxiliary@.len(),
                keep@.len() == old_self.primary.rows@.len(),
                self.primary == old_self.primary,
                self.projections == old_self.projections,
                forall|j: int| 0 <= j < n ==> (#[trigger] self.auxiliary@[j]).0 == old_self.auxiliary@[j].0
                    && self.auxiliary@[j].1.key == old_self.auxiliary@[j].1.key
                    && self.auxiliary@[j].1.columns == old_self.auxiliary@[j].1.columns,
                forall|j: int| 0 <= j < k ==> (#[trigger] self.auxiliary@[j]).1.spec_rows() == masked(
                    old_self.auxiliary@[j].1.spec_rows(),
                    keep@,
                ),
                forall|j: int| k <= j < n ==> (#[trigger] self.auxiliary@[j]) == old_self.auxiliary@[j],
                old_self.wf(),
            decreases n - k,
        {
            let ghost aux_k = old_self.auxiliary@[k as int].1;
            assert(self.auxiliary@[k as int] == old_self.auxiliary@[k as int]);
            assert(aux_k.spec_rows().len() == old_self.primary.spec_rows().len());
            let rows = filter_rows(&self.auxiliary[k].1.rows, keep);
            self.auxiliary[k].1.rows = rows;
            k = k + 1;
        }
        let rows = filter_rows(&self.primary.rows, keep);
        self.primary.rows = rows;
        proof {
            let new_rows = self.primary.spec_rows();
            assert forall|i: int| 0 <= i < new_rows.len() implies (#[trigger] new_rows[i]).len()
                == self.primary.spec_columns().len() by {
                lemma_masked_all(old_self.primary.spec_rows(), keep@, self.primary.spec_columns().len());
            }
            assert forall|j: int| 0 <= j < self.auxiliary@.len() implies {
                let aux = (#[trigger] self.auxiliary@[j]).1;
                let proj = self.projections@[j]@;
                &&& aux.wf()
                &&& forall|i: int| 0 <= i < proj.len() ==> proj[i] < self.primary.spec_columns().len()
                &&& aux.spec_columns() == proj.map_values(|p: usize| self.primary.spec_columns()[p as int])
                &&& aux.spec_rows() == self.primary.spec_rows().map_values(|row: Seq<u64>| project(row, proj))
            } by {
                let old_aux = old_self.auxiliary@[j].1;
                let proj = self.projections@[j]@;
                lemma_masked_project(old_self.primary.spec_rows(), keep@, proj);
                lemma_masked_all(old_aux.spec_rows(), keep@, old_aux.spec_columns().len());
            }
            assert(self.indexes() =~= old_self.indexes());
            lemma_masked_unique(old_self.primary.spec_rows(), keep@, old_self.primary.spec_key().len());
        }
    }
}

proof fn lemma_masked_all(rows: Seq<Seq<u64>>, keep: Seq<bool>, w: nat)
    requires
        forall|i: int| 0 <= i < rows.len() ==> (#[trigger] rows[i]).len() == w,
    ensures
        forall|i: int| 0 <= i < masked(rows, keep).len() ==> (#[trigger] masked(rows, keep)[i]).len() == w,
        masked(rows, keep).len() <= rows.len(),
    decreases rows.len(),
{
    if rows.len() > 0 && keep.len() >= rows.len() {
        lemma_masked_all(rows.drop_last(), keep, w);
        let m = masked(rows, keep);
        let p = masked(rows.drop_last(), keep);
        assert forall|i: int| 0 <= i < m.len() implies (#[trigger] m[i]).len() == w by {
            if i < p.len() {
                assert(m[i] == p[i]);
            }
        }
    }
}

impl TableIndex {
    /// Deletes from every index the rows whose key is that of `row`. A row of the wrong width
    /// is a bad request.
    pub fn delete_row(&mut self, row: &Vec<u64>) -> (r: Result<(), TCError>)
        requires
            old(self).wf(),
        ensures
            final(self).wf(),
            final(self).indexes() == old(self).indexes(),
            final(self).key_len() == old(self).key_len(),
            final(self).width() == old(self).width(),
            forall|k: int| #![auto] final(self).projection(k) == old(self).projection(k),
            r is Ok <==> row@.len() == old(self).width(),
            r is Ok ==> final(self).spec_rows() == without_key(
                old(self).spec_rows(),
                row@.take(old(self).key_len() as int),
                old(self).key_len(),
            ),
            r is Err ==> r->Err_0.spec_code() == ErrorType::BadRequest && final(self).spec_rows()
                == old(self).spec_rows(),
    {
        if row.len() != self.primary.columns.len() {
            return Err(TCError::bad_request("row does not match the table's columns", "width"));
        }
        let kw = self.primary.key.len();
        let mut key: Vec<u64> = Vec::new();
        let mut i: usize = 0;
        while i < kw
            invariant
                i <= kw,
                kw <= row@.len(),
                key@ == row@.take(i as int),
            decreases kw - i,
        {
            key.push(row[i]);
            assert(key@ =~= row@.take(i + 1));
            i = i + 1;
        }
        let mask = self.other_keys_mask(&key);
        self.keep_rows(&mask);
        Ok(())
    }

    /// Replaces, in every index, the rows whose key is that of `row` by `row` itself. A row
    /// of the wrong width is a bad request.
    #[verifier::spinoff_prover]
    pub fn upsert(&mut self, row: &Vec<u64>) -> (r: Result<(), TCError>)
        requires
            old(self).wf(),
        ensures
            final(self).wf(),
            final(self).indexes() == old(self).indexes(),
            final(self).key_len() == old(self).key_len(),
            final(self).width() == old(self).width(),
            forall|k: int| #![auto] final(self).projection(k) == old(self).projection(k),
            r is Ok <==> row@.len() == old(self).width(),
            r is Ok ==> final(self).spec_rows() == without_key(
                old(self).spec_rows(),
                row@.take(old(self).key_len() as int),
                old(self).key_len(),
            ).push(row@),
            r is Err ==> r->Err_0.spec_code() == ErrorType::BadRequest && final(self).spec_rows()
                == old(self).spec_rows(),
    {
        let ghost start_rows = self.spec_rows();
        let ghost kw = self.key_len();
        match self.delete_row(row) {
            Err(e) => {
                return Err(e);
            },
            Ok(()) => {},
        }
        let ghost mid = *self;
        let n = self.auxiliary.len();
        let mut k: usize = 0;
        while k < n
            invariant
                k <= n,
                n == self.auxiliary@.len(),
                n == mid.auxiliary@.len(),
                mid.wf(),
                row@.len() == mid.width(),
                self.primary == mid.primary,
                self.projections == mid.projections,
                forall|j: int| 0 <= j < n ==> (#[trigger] self.auxiliary@[j]).0 == mid.auxiliary@[j].0
                    && self.auxiliary@[j].1.key == mid.auxiliary@[j].1.key
                    && self.auxiliary@[j].1.columns == mid.auxiliary@[j].1.columns,
                forall|j: int| 0 <= j < k ==> (#[trigger] self.auxiliary@[j]).1.spec_rows()
                    == mid.auxiliary@[j].1.spec_rows().push(project(row@, mid.projections@[j]@)),
                forall|j: int| k <= j < n ==> (#[trigger] self.auxiliary@[j]) == mid.auxiliary@[j],
            decreases n - k,
        {
            assert(self.auxiliary@[k as int] == mid.auxiliary@[k as int]);
            let projected = project_row(row, &self.projections[k]);
            let ghost before = self.auxiliary@[k as int].1.rows@;
            self.auxiliary[k].1.rows.push(projected);
            assert(rows_view(self.auxiliary@[k as int].1.rows@) =~= rows_view(before).push(projected@));
            k = k + 1;
        }
        let copy = row.clone();
        let ghost before = self.primary.rows@;
        self.primary.rows.push(copy);
        proof {
            assert(copy@ =~= row@);
            assert(self.spec_rows() =~= mid.spec_rows().push(row@));
            lemma_without_key_push(start_rows, row@, kw);
            assert forall|i: int| 0 <= i < self.primary.spec_rows().len() implies (
            #[trigger] self.primary.spec_rows()[i]).len() == self.primary.spec_columns().len() by {
                if i < mid.primary.spec_rows().len() {
                    assert(self.primary.spec_rows()[i] == mid.primary.spec_rows()[i]);
                }
            }
            assert forall|j: int| 0 <= j < self.auxiliary@.len() implies {
                let aux = (#[trigger] self.auxiliary@[j]).1;
                let proj = self.projections@[j]@;
                &&& aux.wf()
                &&& forall|i: int| 0 <= i < proj.len() ==> proj[i] < self.primary.spec_columns().len()
                &&& aux.spec_columns() == proj.map_values(|p: usize| self.primary.spec_columns()[p as int])
                &&& aux.spec_rows() == self.primary.spec_rows().map_values(|row: Seq<u64>| project(row, proj))
            } by {
                let aux = self.auxiliary@[j].1;
                let old_aux = mid.auxiliary@[j].1;
                let proj = self.projections@[j]@;
                assert(self.primary.spec_rows().map_values(|row: Seq<u64>| project(row, proj)) =~= mid.primary.spec_rows().map_values(|row: Seq<u64>| project(row, proj)).push(project(row@, proj)));
                assert forall|i: int| 0 <= i < aux.spec_rows().len() implies (#[trigger] aux.spec_rows()[i]).len()
                    == aux.spec_columns().len() by {
                    if i < old_aux.spec_rows().len() {
                        assert(aux.spec_rows()[i] == old_aux.spec_rows()[i]);
                    }
                }
            }
            assert(self.indexes() =~= mid.indexes());
        }
        Ok(())
    }
}

proof fn lemma_masked_none(rows: Seq<Seq<u64>>, keep: Seq<bool>)
    requires
        keep.len() == rows.len(),
        forall|j: int| 0 <= j < keep.len() ==> #[trigger] keep[j],
    ensures
        masked(rows, keep) == rows,
    decreases rows.len(),
{
    if rows.len() > 0 {
        lemma_masked_none(rows.drop_last(), keep.drop_last());
        lemma_masked_prefix(rows.drop_last(), keep);
        assert(rows.drop_last().push(rows.last()) =~= rows);
    }
}

proof fn lemma_masked_prefix(rows: Seq<Seq<u64>>, keep: Seq<bool>)
    requires
        keep.len() > rows.len(),
    ensures
        masked(rows, keep) == masked(rows, keep.take(rows.len() as int)),
    decreases rows.len(),
{
    if rows.len() > 0 {
        lemma_masked_prefix(rows.drop_last(), keep);
        lemma_masked_prefix(rows.drop_last(), keep.take(rows.len() as int));
        assert(keep.take(rows.len() as int).take(rows.len() - 1) =~= keep.take(rows.len() - 1));
    }
}

/// The bound that a list of bounds puts on a column: the last one that names it.
pub open spec fn bound_on(bounds: Seq<(Name, ColumnBound)>, name: Name) -> Option<ColumnBound>
    decreases bounds.len(),
{
    if bounds.len() == 0 {
        None
    } else if bounds.last().0 == name {
        Some(bounds.last().1)
    } else {
        bound_on(bounds.drop_last(), name)
    }
}

/// The bounds in the order of the first `m` table columns, one per bounded column.
pub open spec fn normalized(columns: Seq<Name>, bounds: Seq<(Name, ColumnBound)>, m: nat) -> Seq<(Name, ColumnBound)>
    decreases m,
{
    if m == 0 {
        Seq::empty()
    } else {
        let prev = normalized(columns, bounds, (m - 1) as nat);
        match bound_on(bounds, columns[m - 1]) {
            Some(b) => prev.push((columns[m - 1], b)),
            None => prev,
        }
    }
}

/// A list of bounds as plain values.
pub open spec fn bounds_view(bounds: Seq<(String, ColumnBound)>) -> Seq<(Name, ColumnBound)> {
    bounds.map_values(|b: (String, ColumnBound)| (b.0@, b.1))
}

/// Every bound names a column of the table.
pub open spec fn known_columns(columns: Seq<Name>, bounds: Seq<(Name, ColumnBound)>) -> bool {
    forall|i: int| 0 <= i < bounds.len() ==> columns.contains(#[trigger] bounds[i].0)
}

/// A row lies within every bound, each on the column that it names.
pub open spec fn row_within(columns: Seq<Name>, row: Seq<u64>, bounds: Seq<(Name, ColumnBound)>) -> bool {
    forall|i: int| 0 <= i < bounds.len() ==> within(
        (#[trigger] bounds[i]).1,
        row[position_of(columns, bounds[i].0)],
    )
}

/// Marks the rows that lie within the bounds.
pub open spec fn within_mask(columns: Seq<Name>, rows: Seq<Seq<u64>>, bounds: Seq<(Name, ColumnBound)>) -> Seq<bool> {
    Seq::new(rows.len(), |j: int| row_within(columns, rows[j], bounds))
}

fn bound_for(bounds: &Vec<(String, ColumnBound)>, name: &String) -> (r: Option<ColumnBound>)
    ensures
        r == bound_on(bounds_view(bounds@), name@),
{
    let ghost bv = bounds_view(bounds@);
    let mut i = bounds.len();
    assert(bv.subrange(0, i as int) =~= bv);
    while i > 0
        invariant
            i <= bv.len(),
            bv == bounds_view(bounds@),
            bound_on(bv, name@) == bound_on(bv.subrange(0, i as int), name@),
        decreases i,
    {
        assert(bv[i - 1] == (bounds@[i - 1].0@, bounds@[i - 1].1));
        if bounds[i - 1].0 == *name {
            return Some(bounds[i - 1].1);
        }
        assert(bv.subrange(0, i as int).drop_last() =~= bv.subrange(0, i - 1));
        i = i - 1;
    }
    None
}

impl TableIndex {
    /// The bounds in the order of the table's columns, one per bounded column (the last bound
    /// given on a column wins). A bound on a column that the table lacks is a bad request.
    pub fn normalize(&self, bounds: &Vec<(String, ColumnBound)>) -> (r: Result<Vec<(String, ColumnBound)>, TCError>)
        requires
            self.wf(),
        ensures
            r is Ok <==> known_columns(self.indexes()[0], bounds_view(bounds@)),
            r is Ok ==> bounds_view(r->Ok_0@) == normalized(
                self.indexes()[0],
                bounds_view(bounds@),
                self.indexes()[0].len(),
            ),
            r is Err ==> r->Err_0.spec_code() == ErrorType::BadRequest,
    {
        let ghost cols = self.indexes()[0];
        let ghost bv = bounds_view(bounds@);
        let columns = &self.primary.columns;
        assert(names_of(columns@) == cols);
        let mut i: usize = 0;
        while i < bounds.len()
            invariant
                i <= bv.len(),
                bv == bounds_view(bounds@),
                names_of(columns@) == cols,
                cols == self.indexes()[0],
                forall|j: int| 0 <= j < i ==> cols.contains(#[trigger] bv[j].0),
            decreases bv.len() - i,
        {
            assert(bv[i as int].0 == bounds@[i as int].0@);
            let found = find_column(columns, &bounds[i].0);
            proof {
                lemma_position_of(cols, bv[i as int].0);
            }
            if found.is_none() {
                assert(!cols.contains(bv[i as int].0));
                assert(!known_columns(cols, bv));
                return Err(TCError::bad_request("no such column", bounds[i].0.as_str()));
            }
            i = i + 1;
        }
        let mut out: Vec<(String, ColumnBound)> = Vec::new();
        let mut p: usize = 0;
        while p < columns.len()
            invariant
                p <= cols.len(),
                names_of(columns@) == cols,
                cols == self.indexes()[0],
                bv == bounds_view(bounds@),
                bounds_view(out@) == normalized(cols, bv, p as nat),
            decreases cols.len() - p,
        {
            assert(cols[p as int] == columns@[p as int]@);
            match bound_for(bounds, &columns[p]) {
                Some(b) => {
                    let name = columns[p].clone();
                    let ghost prev = out@;
                    out.push((name, b));
                    assert(bounds_view(out@) =~= bounds_view(prev).push((name@, b)));
                },
                None => {},
            }
            p = p + 1;
        }
        Ok(out)
    }

    /// Whether some greedy plan covers the bounds once normalized: each step slices one index
    /// on a run of leading columns. Fails with a bad request where a bound names a column the
    /// table lacks, or where the planner gets stuck.
    pub fn validate_bounds(&self, bounds: &Vec<(String, ColumnBound)>) -> (r: Result<(), TCError>)
        requires
            self.wf(),
        ensures
            r is Ok ==> known_columns(self.indexes()[0], bounds_view(bounds@)) && exists|plan: Seq<(nat, nat)>|
                greedy(
                    self.indexes(),
                    bound_names_view(normalized(self.indexes()[0], bounds_view(bounds@), self.indexes()[0].len())),
                    plan,
                ),
            r is Err ==> r->Err_0.spec_code() == ErrorType::BadRequest && (!known_columns(
                self.indexes()[0],
                bounds_view(bounds@),
            ) || stuck(
                self.indexes(),
                bound_names_view(normalized(self.indexes()[0], bounds_view(bounds@), self.indexes()[0].len())),
            )),
    {
        match self.slice(bounds) {
            Ok(_) => Ok(()),
            Err(e) => Err(e),
        }
    }

    /// Plans a slice of the table: normalizes the bounds, then covers them with greedy steps
    /// (see `plan`). Returns the plan with the normalized bounds.
    pub fn slice(&self, bounds: &Vec<(String, ColumnBound)>) -> (r: Result<TableSlice, TCError>)
        requires
            self.wf(),
        ensures
            r is Ok ==> {
                let nb = normalized(self.indexes()[0], bounds_view(bounds@), self.indexes()[0].len());
                &&& known_columns(self.indexes()[0], bounds_view(bounds@))
                &&& bounds_view(r->Ok_0.bounds@) == nb
                &&& greedy(self.indexes(), bound_names_view(nb), plan_view(r->Ok_0.plan@))
            },
            r is Err ==> r->Err_0.spec_code() == ErrorType::BadRequest && (!known_columns(
                self.indexes()[0],
                bounds_view(bounds@),
            ) || stuck(
                self.indexes(),
                bound_names_view(normalized(self.indexes()[0], bounds_view(bounds@), self.indexes()[0].len())),
            )),
    {
        let nb = match self.normalize(bounds) {
            Ok(nb) => nb,
            Err(e) => {
                return Err(e);
            },
        };
        let names = bound_name_list(&nb);
        proof {
            assert(names_of(names@) =~= bound_names_view(bounds_view(nb@)));
        }
        match self.plan(&names) {
            Ok(plan) => Ok(TableSlice { plan, bounds: nb }),
            Err(e) => Err(e),
        }
    }
}

/// The column names of a list of bounds given as plain values.
pub open spec fn bound_names_view(bounds: Seq<(Name, ColumnBound)>) -> Seq<Name> {
    bounds.map_values(|b: (Name, ColumnBound)| b.0)
}

/// A planned slice of a table: the steps, each an index and how many of the bounds it
/// covers, and the bounds in the order of the table's columns.
#[derive(Debug)]
pub struct TableSlice {
    pub plan: Vec<(usize, usize)>,
    pub bounds: Vec<(String, ColumnBound)>,
}

impl TableIndex {
    fn index_row(&self, k: usize, j: usize) -> (r: &Vec<u64>)
        requires
            self.wf(),
            k < self.indexes().len(),
            j < self.spec_rows().len(),
        ensures
            r@ == self.spec_index_rows(k as int)[j as int],
    {
        proof {
            lemma_index_consistency(self, k as int);
        }
        if k == 0 {
            &self.primary.rows[j]
        } else {
            assert(self.auxiliary@[k - 1].1.spec_rows().len() == self.spec_rows().len());
            &self.auxiliary[k - 1].1.rows[j]
        }
    }

    /// Whether row `j` lies within a planned slice, read through the index of each step.
    fn row_in_slice(&self, j: usize, slice: &TableSlice) -> (r: bool)
        requires
            self.wf(),
            j < self.spec_rows().len(),
            known_columns(self.indexes()[0], bounds_view(slice.bounds@)),
            greedy(self.indexes(), bound_names_view(bounds_view(slice.bounds@)), plan_view(slice.plan@)),
        ensures
            r == row_within(self.indexes()[0], self.spec_rows()[j as int], bounds_view(slice.bounds@)),
    {
        let ghost ix = self.indexes();
        let ghost cols = ix[0];
        let ghost nb = bounds_view(slice.bounds@);
        let ghost names = bound_names_view(nb);
        let ghost pv = plan_view(slice.plan@);
        let ghost row = self.spec_rows()[j as int];
        proof {
            lemma_index_consistency(self, 0);
            assert(names.skip(0) =~= names);
            assert(pv.skip(0) =~= pv);
        }
        let nlen = slice.bounds.len();
        let mut o: usize = 0;
        let mut s: usize = 0;
        while s < slice.plan.len()
            invariant
                nlen == names.len(),
                self.wf(),
                j < self.spec_rows().len(),
                ix == self.indexes(),
                cols == ix[0],
                row == self.spec_rows()[j as int],
                row.len() == cols.len(),
                nb == bounds_view(slice.bounds@),
                names == bound_names_view(nb),
                pv == plan_view(slice.plan@),
                s <= pv.len(),
                o <= names.len(),
                greedy(ix, names.skip(o as int), pv.skip(s as int)),
                known_columns(cols, nb),
                forall|i: int| 0 <= i < o ==> within((#[trigger] nb[i]).1, row[position_of(cols, nb[i].0)]),
            decreases pv.len() - s,
        {
            let (k, n) = slice.plan[s];
            let ghost rest = names.skip(o as int);
            proof {
                assert(pv.skip(s as int)[0] == (k as nat, n as nat));
                assert(pv.skip(s as int).skip(1) =~= pv.skip(s + 1));
                assert(rest.skip(n as int) =~= names.skip(o + n));
                lemma_first_accepting_some(ix, rest.take(n as int), 0);
                lemma_index_consistency(self, k as int);
            }
            let irow = self.index_row(k, j);
            let ghost proj = self.projection(k as int);
            let mut t: usize = 0;
            while t < n
                invariant
                    self.wf(),
                    ix == self.indexes(),
                    cols == ix[0],
                    unique(cols),
                    j < self.spec_rows().len(),
                    row == self.spec_rows()[j as int],
                    row.len() == cols.len(),
                    nb == bounds_view(slice.bounds@),
                    names == bound_names_view(nb),
                    rest == names.skip(o as int),
                    1 <= n <= rest.len(),
                    o + n <= names.len(),
                    nlen == names.len(),
                    k < ix.len(),
                    accepts(ix[k as int], rest.take(n as int)),
                    ix[k as int] == proj.map_values(|p: usize| cols[p as int]),
                    forall|i: int| 0 <= i < proj.len() ==> proj[i] < cols.len(),
                    irow@ == project(row, proj),
                    t <= n,
                    forall|i: int| 0 <= i < o + t ==> within((#[trigger] nb[i]).1, row[position_of(cols, nb[i].0)]),
                decreases n - t,
            {
                proof {
                    assert(rest.take(n as int)[t as int] == names[o + t]);
                    assert(ix[k as int][t as int] == names[o + t]);
                    assert(names[o + t] == nb[o + t].0);
                    lemma_position_unique(cols, proj[t as int] as int);
                    assert(ix[k as int][t as int] == cols[proj[t as int] as int]);
                    assert(position_of(cols, nb[o + t].0) == proj[t as int] as int);
                    assert(irow@[t as int] == row[proj[t as int] as int]);
                    assert(slice.bounds@[o + t].1 == nb[o + t].1);
                }
                if !slice.bounds[o + t].1.contains(irow[t]) {
                    assert(!within(nb[o + t].1, row[position_of(cols, nb[o + t].0)]));
                    return false;
                }
                t = t + 1;
            }
            o = o + n;
            s = s + 1;
        }
        proof {
            assert(pv.skip(s as int).len() == 0);
            assert(names.skip(o as int).len() == 0);
        }
        true
    }

    /// The rows of the table that lie within the bounds, in the primary's order. Each row is
    /// tested step by step through the index that the plan (see `slice`) names for the step;
    /// the result is exactly the primary's rows within the normalized bounds. Where the planner
    /// rejects the bounds, its error.
    #[verifier::spinoff_prover]
    pub fn stream(&self, bounds: &Vec<(String, ColumnBound)>) -> (r: Result<Vec<Vec<u64>>, TCError>)
        requires
            self.wf(),
        ensures
            r is Ok <==> (known_columns(self.indexes()[0], bounds_view(bounds@)) && exists|plan: Seq<(nat, nat)>|
                greedy(
                    self.indexes(),
                    bound_names_view(normalized(self.indexes()[0], bounds_view(bounds@), self.indexes()[0].len())),
                    plan,
                )),
            r is Ok ==> {
                let nb = normalized(self.indexes()[0], bounds_view(bounds@), self.indexes()[0].len());
                &&& rows_view(r->Ok_0@).to_multiset() == masked(
                    self.spec_rows(),
                    within_mask(self.indexes()[0], self.spec_rows(), nb),
                ).to_multiset()
                &&& in_order(rows_view(r->Ok_0@), leading(self.key_len()), false)
            },
            r is Err ==> r->Err_0.spec_code() == ErrorType::BadRequest,
    {
        let slice = match self.slice(bounds) {
            Ok(s) => s,
            Err(e) => {
                proof {
                    let names = bound_names_view(normalized(self.indexes()[0], bounds_view(bounds@), self.indexes()[0].len()));
                    if known_columns(self.indexes()[0], bounds_view(bounds@)) {
                        assert forall|plan: Seq<(nat, nat)>| !greedy(self.indexes(), names, plan) by {
                            lemma_greedy_excludes_stuck(self.indexes(), names, plan);
                        }
                    }
                }
                return Err(e);
            },
        };
        let ghost cols = self.indexes()[0];
        let ghost nb = bounds_view(slice.bounds@);
        let ghost rows = self.spec_rows();
        proof {
            lemma_normalized_known(cols, bounds_view(bounds@), cols.len());
        }
        let mut keep: Vec<bool> = Vec::new();
        let mut j: usize = 0;
        while j < self.primary.rows.len()
            invariant
                self.wf(),
                j <= rows.len(),
                rows == self.spec_rows(),
                cols == self.indexes()[0],
                nb == bounds_view(slice.bounds@),
                known_columns(cols, nb),
                greedy(self.indexes(), bound_names_view(nb), plan_view(slice.plan@)),
                keep@ == within_mask(cols, rows, nb).subrange(0, j as int),
            decreases rows.len() - j,
        {
            assert(rows[j as int] == self.primary.rows@[j as int]@);
            assert(self.primary.spec_rows()[j as int].len() == self.width());
            let w = self.row_in_slice(j, &slice);
            keep.push(w);
            assert(keep@ =~= within_mask(cols, rows, nb).subrange(0, j + 1));
            j = j + 1;
        }
        assert(within_mask(cols, rows, nb).subrange(0, j as int) =~= within_mask(cols, rows, nb));
        let selected = filter_rows(&self.primary.rows, &keep);
        let key = leading_positions(self.primary.key.len());
        proof {
            lemma_masked_all(self.spec_rows(), keep@, self.width());
            lemma_leading_wide(rows_view(selected@), self.key_len(), self.width());
        }
        Ok(sort_rows(&selected, &key, false))
    }
}

proof fn lemma_normalized_known(columns: Seq<Name>, bounds: Seq<(Name, ColumnBound)>, m: nat)
    requires
        m <= columns.len(),
    ensures
        known_columns(columns, normalized(columns, bounds, m)),
    decreases m,
{
    if m > 0 {
        lemma_normalized_known(columns, bounds, (m - 1) as nat);
        let prev = normalized(columns, bounds, (m - 1) as nat);
        let cur = normalized(columns, bounds, m);
        assert forall|i: int| 0 <= i < cur.len() implies columns.contains(#[trigger] cur[i].0) by {
            if i < prev.len() {
                assert(cur[i] == prev[i]);
            } else {
                assert(cur[i].0 == columns[m - 1]);
            }
        }
    }
}

proof fn lemma_first_accepting_some(indexes: Seq<Seq<Name>>, names: Seq<Name>, from: nat)
    requires
        first_accepting(indexes, names, from) is Some,
    ensures
        first_accepting(indexes, names, from)->Some_0 < indexes.len(),
        accepts(indexes[first_accepting(indexes, names, from)->Some_0 as int], names),
    decreases indexes.len() - from,
{
    if from < indexes.len() && !accepts(indexes[from as int], names) {
        lemma_first_accepting_some(indexes, names, from + 1);
    }
}

proof fn lemma_position_unique(names: Seq<Name>, p: int)
    requires
        unique(names),
        0 <= p < names.len(),
    ensures
        position_of(names, names[p]) == p,
    decreases names.len(),
{
    if p < names.len() - 1 {
        assert(names.last() != names[p]);
        let d = names.drop_last();
        assert(unique(d)) by {
            assert forall|i: int, j: int| 0 <= i < j < d.len() implies d[i] != d[j] by {
                assert(d[i] == names[i] && d[j] == names[j]);
            }
        }
        lemma_position_unique(d, p);
    }
}

proof fn lemma_first_accepting_none(indexes: Seq<Seq<Name>>, names: Seq<Name>, from: nat)
    requires
        first_accepting(indexes, names, from) is None,
    ensures
        forall|k: int| from <= k < indexes.len() ==> !accepts(#[trigger] indexes[k], names),
    decreases indexes.len() - from,
{
    if from < indexes.len() {
        lemma_first_accepting_none(indexes, names, from + 1);
    }
}

proof fn lemma_greedy_deterministic(
    indexes: Seq<Seq<Name>>,
    names: Seq<Name>,
    plan: Seq<(nat, nat)>,
    other: Seq<(nat, nat)>,
    rest: Seq<Name>,
)
    requires
        greedy(indexes, names, plan),
        greedy_steps(indexes, names, other, rest),
    ensures
        !unsupported(indexes, rest),
    decreases plan.len(),
{
    if other.len() == 0 {
        if plan.len() > 0 {
            let (k, n) = plan[0];
            assert(rest == names);
            assert(first_accepting(indexes, rest.take(n as int), 0) is Some);
        }
    } else {
        let (k, n) = plan[0];
        let (k2, n2) = other[0];
        if n < n2 {
            assert(first_accepting(indexes, names.take(n2 as int), 0) is None);
        } else if n2 < n {
            assert(first_accepting(indexes, names.take(n as int), 0) is None);
        }
        lemma_greedy_deterministic(indexes, names.skip(n as int), plan.skip(1), other.skip(1), rest);
    }
}

proof fn lemma_greedy_excludes_stuck(indexes: Seq<Seq<Name>>, names: Seq<Name>, plan: Seq<(nat, nat)>)
    requires
        stuck(indexes, names),
    ensures
        !greedy(indexes, names, plan),
{
    if greedy(indexes, names, plan) {
        let (other, rest) = choose|other: Seq<(nat, nat)>, rest: Seq<Name>|
            #[trigger] greedy_steps(indexes, names, other, rest) && unsupported(indexes, rest);
        lemma_greedy_deterministic(indexes, names, plan, other, rest);
    }
}

/// Where the planner rejects a list of names, a list of names is left on which no index
/// accepts any leading run; and no greedy plan then covers the list.
pub proof fn lemma_planner_rejects(indexes: Seq<Seq<Name>>, names: Seq<Name>)
    requires
        stuck(indexes, names),
    ensures
        exists|rest: Seq<Name>| rest.len() > 0 && forall|k: int, m: int|
            0 <= k < indexes.len() && 1 <= m <= rest.len() ==> !accepts(#[trigger] indexes[k], #[trigger] rest.take(m)),
        forall|plan: Seq<(nat, nat)>| !greedy(indexes, names, plan),
{
    let (other, rest) = choose|other: Seq<(nat, nat)>, rest: Seq<Name>|
        #[trigger] greedy_steps(indexes, names, other, rest) && unsupported(indexes, rest);
    assert forall|k: int, m: int|
        0 <= k < indexes.len() && 1 <= m <= rest.len() implies !accepts(#[trigger] indexes[k], #[trigger] rest.take(m)) by {
        lemma_first_accepting_none(indexes, rest.take(m), 0);
    }
    assert forall|plan: Seq<(nat, nat)>| !greedy(indexes, names, plan) by {
        lemma_greedy_excludes_stuck(indexes, names, plan);
    }
}

/// A planned ordering of a table: the steps, each an index and how many of the order's
/// columns it covers, and whether the order is reversed.
#[derive(Debug)]
pub struct Ordering {
    pub plan: Vec<(usize, usize)>,
    pub reverse: bool,
}

impl TableIndex {
    /// The primary index.
    pub fn primary(&self) -> (r: &Index)
        ensures
            r.spec_columns() == self.indexes()[0],
            r.spec_rows() == self.spec_rows(),
            r.spec_columns().len() == self.width(),
            self.wf() ==> self.key_len() <= self.width(),
    {
        &self.primary
    }

    /// Whether the table holds no row.
    pub fn is_empty(&self) -> (r: bool)
        ensures
            r == (self.spec_rows().len() == 0),
    {
        self.primary.is_empty()
    }

    /// The number of rows.
    pub fn count(&self) -> (r: usize)
        ensures
            r == self.spec_rows().len(),
    {
        self.primary.len()
    }

    /// The rows of index `k` (zero for the primary, then the auxiliaries in declaration
    /// order); each is the projection of the primary row at the same position.
    pub fn index_rows(&self, k: usize) -> (r: Vec<Vec<u64>>)
        requires
            self.wf(),
            k < self.indexes().len(),
        ensures
            rows_view(r@) == self.spec_index_rows(k as int),
            rows_view(r@) == self.spec_rows().map_values(|row: Seq<u64>| project(row, self.projection(k as int))),
    {
        let keep = vec_of_true(self.primary.rows.len());
        proof {
            lemma_index_consistency(self, k as int);
        }
        if k == 0 {
            let r = filter_rows(&self.primary.rows, &keep);
            proof {
                lemma_masked_none(self.primary.spec_rows(), keep@);
            }
            r
        } else {
            let rows = &self.auxiliary[k - 1].1.rows;
            assert(rows_view(rows@) == self.auxiliary@[k - 1].1.spec_rows());
            assert(rows_view(rows@).len() == self.spec_rows().len());
            let r = filter_rows(rows, &keep);
            proof {
                lemma_masked_none(rows_view(rows@), keep@);
            }
            r
        }
    }

    /// The row whose key is `key`, if any. A key of the wrong width is a bad request.
    pub fn get(&self, key: &Vec<u64>) -> (r: Result<Option<Vec<u64>>, TCError>)
        requires
            self.wf(),
        ensures
            r is Ok <==> key@.len() == self.key_len(),
            r matches Ok(Some(row)) ==> exists|j: int|
                0 <= j < self.spec_rows().len() && #[trigger] self.spec_rows()[j] == row@
                    && row@.take(self.key_len() as int) == key@,
            r matches Ok(Some(row)) ==> forall|j: int|
                0 <= j < self.spec_rows().len() && (#[trigger] self.spec_rows()[j]).take(
                    self.key_len() as int,
                ) == key@ ==> self.spec_rows()[j] == row@,
            r matches Ok(None) ==> forall|j: int|
                0 <= j < self.spec_rows().len() ==> (#[trigger] self.spec_rows()[j]).take(
                    self.key_len() as int,
                ) != key@,
            r is Err ==> r->Err_0.spec_code() == ErrorType::BadRequest,
    {
        let kw = self.primary.key.len();
        if key.len() != kw {
            return Err(TCError::bad_request("key does not match the table's key", "width"));
        }
        let mut j: usize = 0;
        while j < self.primary.rows.len()
            invariant
                self.wf(),
                kw == self.key_len(),
                j <= self.spec_rows().len(),
                forall|i: int| 0 <= i < j ==> (#[trigger] self.spec_rows()[i]).take(kw as int) != key@,
            decreases self.spec_rows().len() - j,
        {
            assert(self.spec_rows()[j as int] == self.primary.rows@[j as int]@);
            assert(self.primary.spec_rows()[j as int].len() == self.width());
            if same_prefix(&self.primary.rows[j], key, kw) {
                let row = self.primary.rows[j].clone();
                assert(row@ =~= self.spec_rows()[j as int]);
                proof {
                    assert forall|i: int|
                        0 <= i < self.spec_rows().len() && (#[trigger] self.spec_rows()[i]).take(kw as int) == key@
                        implies self.spec_rows()[i] == row@ by {
                        if i != j {
                            assert(unique_keys(self.primary.spec_rows(), self.primary.spec_key().len()));
                            if i < j {
                                assert(self.spec_rows()[i].take(kw as int) != self.spec_rows()[j as int].take(kw as int));
                            } else {
                                assert(self.spec_rows()[j as int].take(kw as int) != self.spec_rows()[i].take(kw as int));
                            }
                        }
                    }
                }
                return Ok(Some(row));
            }
            j = j + 1;
        }
        Ok(None)
    }

    /// Inserts a new row made of `key` and `values`. Fails with a bad request where the key or
    /// the row has the wrong width, or a row with that key exists.
    #[verifier::spinoff_prover]
    pub fn insert(&mut self, key: &Vec<u64>, values: &Vec<u64>) -> (r: Result<(), TCError>)
        requires
            old(self).wf(),
        ensures
            final(self).wf(),
            final(self).indexes() == old(self).indexes(),
            final(self).key_len() == old(self).key_len(),
            r is Ok <==> {
                &&& key@.len() == old(self).key_len()
                &&& key@.len() + values@.len() == old(self).width()
                &&& forall|j: int| 0 <= j < old(self).spec_rows().len() ==> (#[trigger] old(self).spec_rows()[j]).take(
                    old(self).key_len() as int,
                ) != key@
            },
            r is Ok ==> final(self).spec_rows() == old(self).spec_rows().push(key@ + values@),
            final(self).width() == old(self).width(),
            forall|k: int| #![auto] final(self).projection(k) == old(self).projection(k),
            r is Err ==> r->Err_0.spec_code() == ErrorType::BadRequest && final(self).spec_rows()
                == old(self).spec_rows(),
    {
        match self.get(key) {
            Err(e) => {
                return Err(e);
            },
            Ok(Some(_)) => {
                return Err(TCError::bad_request("tried to insert but this key already exists", "key"));
            },
            Ok(None) => {},
        }
        if values.len() != self.primary.columns.len() - key.len() {
            return Err(TCError::bad_request("row does not match the table's columns", "width"));
        }
        let mut row = key.clone();
        let mut i: usize = 0;
        let ghost kv = key@;
        assert(row@ =~= kv + values@.subrange(0, 0));
        while i < values.len()
            invariant
                i <= values@.len(),
                row@ == kv + values@.subrange(0, i as int),
            decreases values@.len() - i,
        {
            row.push(values[i]);
            assert(row@ =~= kv + values@.subrange(0, i + 1));
            i = i + 1;
        }
        assert(values@.subrange(0, i as int) =~= values@);
        assert(row@.take(kv.len() as int) =~= kv);
        let ghost before = self.spec_rows();
        let ghost kw = self.key_len();
        let r = self.upsert(&row);
        proof {
            let mask = other_keys(before, kv, kw);
            assert forall|j: int| 0 <= j < mask.len() implies #[trigger] mask[j] by {
                assert(before[j].take(kw as int) != kv);
            }
            lemma_masked_none(before, mask);
        }
        r
    }

    /// The first index, the primary before the auxiliaries, whose leading columns are those of
    /// the bounds, in order, as given. Fails with a bad request where there is none.
    pub fn supporting_index(&self, bounds: &Vec<(String, ColumnBound)>) -> (r: Result<usize, TCError>)
        requires
            self.wf(),
        ensures
            r matches Ok(k) ==> first_accepting(self.indexes(), bound_names(bounds@), 0) == Some(k as nat),
            r is Err ==> first_accepting(self.indexes(), bound_names(bounds@), 0) is None
                && r->Err_0.spec_code() == ErrorType::BadRequest,
    {
        let names = bound_name_list(bounds);
        assert(names_of(names@).subrange(0, names@.len() as int) =~= bound_names(bounds@));
        match self.first_accepting_index(&names, 0, names.len()) {
            Some(k) => Ok(k),
            None => Err(TCError::bad_request("this table has no index which supports bounds", "bounds")),
        }
    }

    /// Whether greedy steps over the indexes cover the order. Fails with a bad request where
    /// the planner gets stuck.
    pub fn validate_order(&self, order: &Vec<String>) -> (r: Result<(), TCError>)
        requires
            self.wf(),
        ensures
            r is Ok ==> exists|plan: Seq<(nat, nat)>| greedy(self.indexes(), names_of(order@), plan),
            r is Err ==> stuck(self.indexes(), names_of(order@)) && r->Err_0.spec_code()
                == ErrorType::BadRequest,
    {
        match self.plan(order) {
            Ok(_) => Ok(()),
            Err(e) => Err(e),
        }
    }

    /// Plans iteration in the order of the given columns, reversed if asked: greedy steps over
    /// the indexes (see `plan`). Fails with a bad request where the planner gets stuck. The
    /// rows in that order come from `stream_ordered`.
    pub fn order_by(&self, order: &Vec<String>, reverse: bool) -> (r: Result<Ordering, TCError>)
        requires
            self.wf(),
        ensures
            r is Ok ==> greedy(self.indexes(), names_of(order@), plan_view(r->Ok_0.plan@))
                && r->Ok_0.reverse == reverse,
            r is Err ==> stuck(self.indexes(), names_of(order@)) && r->Err_0.spec_code()
                == ErrorType::BadRequest,
    {
        match self.plan(order) {
            Ok(plan) => Ok(Ordering { plan, reverse }),
            Err(e) => Err(e),
        }
    }
}

fn vec_of_true(n: usize) -> (r: Vec<bool>)
    ensures
        r@.len() == n,
        forall|j: int| 0 <= j < n ==> #[trigger] r@[j],
{
    let mut r: Vec<bool> = Vec::new();
    let mut i: usize = 0;
    while i < n
        invariant
            i <= n,
            r@.len() == i,
            forall|j: int| 0 <= j < i ==> #[trigger] r@[j],
        decreases n - i,
    {
        r.push(true);
        i = i + 1;
    }
    r
}

/// Every index of a table holds, row for row, the projection of the primary's rows: the
/// auxiliary indexes agree with the primary after every change. No two rows share a key.
pub proof fn lemma_index_consistency(table: &TableIndex, k: int)
    requires
        table.wf(),
        0 <= k < table.indexes().len(),
    ensures
        table.spec_index_rows(k) == table.spec_rows().map_values(|row: Seq<u64>| project(row, table.projection(k))),
        table.indexes()[k] == table.projection(k).map_values(|p: usize| table.indexes()[0][p as int]),
        forall|i: int| 0 <= i < table.projection(k).len() ==> table.projection(k)[i] < table.indexes()[0].len(),
        unique_keys(table.spec_rows(), table.key_len()),
{
    if k == 0 {
        let cols = table.primary.spec_columns();
        let proj = table.projection(0);
        assert(proj.map_values(|p: usize| cols[p as int]) =~= cols);
        assert forall|i: int| 0 <= i < table.spec_rows().len() implies project(table.spec_rows()[i], proj) == table.spec_rows()[i] by {
            assert(table.primary.spec_rows()[i].len() == cols.len());
            assert(project(table.spec_rows()[i], proj) =~= table.spec_rows()[i]);
        }
        assert(table.spec_rows().map_values(|row: Seq<u64>| project(row, proj)) =~= table.spec_rows());
    } else {
        let aux = table.auxiliary@[k - 1];
        assert(table.indexes()[k] == aux.1.spec_columns());
    }
}

/// No value lies within the bound.
pub open spec fn bound_empty(b: ColumnBound) -> bool {
    forall|v: u64| !#[trigger] within(b, v)
}

/// Every value within `inner` is within `outer`.
pub open spec fn bound_within(inner: ColumnBound, outer: ColumnBound) -> bool {
    forall|v: u64| within(inner, v) ==> #[trigger] within(outer, v)
}

fn bound_subset(inner: ColumnBound, outer: ColumnBound) -> (r: bool)
    ensures
        r == bound_within(inner, outer),
{
    match (inner, outer) {
        (ColumnBound::Is(x), _) => {
            let r = outer.contains(x);
            assert(within(inner, x));
            r
        },
        (ColumnBound::In(a, b), ColumnBound::Is(y)) => {
            if a >= b {
                true
            } else if a == y && b == y + 1 {
                true
            } else {
                if a != y {
                    assert(within(inner, a) && !within(outer, a));
                } else {
                    assert(within(inner, (a + 1) as u64) && !within(outer, (a + 1) as u64));
                }
                false
            }
        },
        (ColumnBound::In(a, b), ColumnBound::In(lo, hi)) => {
            if a >= b {
                true
            } else if lo <= a && b <= hi {
                true
            } else {
                if a < lo {
                    assert(within(inner, a) && !within(outer, a));
                } else {
                    assert(within(inner, (b - 1) as u64) && !within(outer, (b - 1) as u64));
                }
                false
            }
        },
    }
}

/// A row's leading values lie within the bounds, the first bound on the first column and so on.
pub open spec fn prefix_within(row: Seq<u64>, bounds: Seq<(String, ColumnBound)>) -> bool {
    forall|i: int| 0 <= i < bounds.len() ==> within((#[trigger] bounds[i]).1, row[i])
}

impl Index {
    /// The names of the key columns and of all columns, key columns first.
    pub fn schema(&self) -> (r: (&Vec<String>, &Vec<String>))
        ensures
            names_of(r.0@) == self.spec_key(),
            names_of(r.1@) == self.spec_columns(),
    {
        (&self.key, &self.columns)
    }

    /// The rows whose leading values lie within the bounds, in order. Bounds that are not on
    /// the leading columns, in order, are a bad request.
    pub fn index_slice(&self, bounds: &Vec<(String, ColumnBound)>) -> (r: Result<Vec<Vec<u64>>, TCError>)
        requires
            self.wf(),
        ensures
            r is Ok <==> accepts(self.spec_columns(), bound_names(bounds@)),
            r is Ok ==> rows_view(r->Ok_0@).to_multiset() == masked(
                self.spec_rows(),
                Seq::new(self.spec_rows().len(), |j: int| prefix_within(self.spec_rows()[j], bounds@)),
            ).to_multiset(),
            r is Ok ==> in_order(rows_view(r->Ok_0@), leading(self.spec_key().len()), false),
            r is Err ==> r->Err_0.spec_code() == ErrorType::BadRequest,
    {
        match self.validate_bounds(bounds) {
            Err(e) => {
                return Err(e);
            },
            Ok(()) => {},
        }
        let ghost rows = self.spec_rows();
        let ghost mask = Seq::new(rows.len(), |j: int| prefix_within(rows[j], bounds@));
        let mut keep: Vec<bool> = Vec::new();
        let mut j: usize = 0;
        while j < self.rows.len()
            invariant
                self.wf(),
                j <= rows.len(),
                rows == self.spec_rows(),
                mask == Seq::new(rows.len(), |j: int| prefix_within(rows[j], bounds@)),
                accepts(self.spec_columns(), bound_names(bounds@)),
                keep@ == mask.subrange(0, j as int),
            decreases rows.len() - j,
        {
            assert(rows[j as int] == self.rows@[j as int]@);
            let row = &self.rows[j];
            let mut ok = true;
            let mut i: usize = 0;
            while i < bounds.len()
                invariant
                    i <= bounds@.len(),
                    bounds@.len() <= row@.len(),
                    ok == forall|t: int| 0 <= t < i ==> within((#[trigger] bounds@[t]).1, row@[t]),
                decreases bounds@.len() - i,
            {
                if !bounds[i].1.contains(row[i]) {
                    ok = false;
                }
                i = i + 1;
            }
            keep.push(ok);
            assert(keep@ =~= mask.subrange(0, j + 1));
            j = j + 1;
        }
        assert(mask.subrange(0, j as int) =~= mask);
        let selected = filter_rows(&self.rows, &keep);
        let key = leading_positions(self.key.len());
        proof {
            lemma_masked_all(self.spec_rows(), keep@, self.spec_columns().len());
            lemma_leading_wide(rows_view(selected@), self.spec_key().len(), self.spec_columns().len());
        }
        Ok(sort_rows(&selected, &key, false))
    }

    /// Accepts a slice within a slice: both sets of bounds are on the leading columns, in
    /// order, and either `inner` selects nothing (one of its bounds is empty) or, on each
    /// column that `outer` bounds, `inner` bounds it within `outer`'s bound.
    pub fn validate_slice_bounds(
        &self,
        outer: &Vec<(String, ColumnBound)>,
        inner: &Vec<(String, ColumnBound)>,
    ) -> (r: Result<(), TCError>)
        ensures
            r is Ok <==> {
                &&& accepts(self.spec_columns(), bound_names(outer@))
                &&& accepts(self.spec_columns(), bound_names(inner@))
                &&& ((exists|i: int| 0 <= i < inner@.len() && bound_empty(#[trigger] inner@[i].1)) || {
                    &&& outer@.len() <= inner@.len()
                    &&& forall|i: int| 0 <= i < outer@.len() ==> bound_within(inner@[i].1, #[trigger] outer@[i].1)
                })
            },
            r is Err ==> r->Err_0.spec_code() == ErrorType::BadRequest,
    {
        match self.validate_bounds(outer) {
            Err(e) => {
                return Err(e);
            },
            Ok(()) => {},
        }
        match self.validate_bounds(inner) {
            Err(e) => {
                return Err(e);
            },
            Ok(()) => {},
        }
        let mut e: usize = 0;
        while e < inner.len()
            invariant
                e <= inner@.len(),
                accepts(self.spec_columns(), bound_names(outer@)),
                accepts(self.spec_columns(), bound_names(inner@)),
                forall|t: int| 0 <= t < e ==> !bound_empty(#[trigger] inner@[t].1),
            decreases inner@.len() - e,
        {
            match inner[e].1 {
                ColumnBound::In(lo, hi) => {
                    if lo >= hi {
                        assert(bound_empty(inner@[e as int].1));
                        return Ok(());
                    }
                    assert(within(inner@[e as int].1, lo));
                },
                ColumnBound::Is(x) => {
                    assert(within(inner@[e as int].1, x));
                },
            }
            e = e + 1;
        }
        if outer.len() > inner.len() {
            return Err(TCError::bad_request("slice does not contain requested bounds", "columns"));
        }
        let mut i: usize = 0;
        while i < outer.len()
            invariant
                i <= outer@.len(),
                outer@.len() <= inner@.len(),
                forall|t: int| 0 <= t < inner@.len() ==> !bound_empty(#[trigger] inner@[t].1),
                forall|t: int| 0 <= t < i ==> bound_within(inner@[t].1, #[trigger] outer@[t].1),
            decreases outer@.len() - i,
        {
            if !bound_subset(inner[i].1, outer[i].1) {
                return Err(TCError::bad_request("slice does not contain requested bounds", "range"));
            }
            i = i + 1;
        }
        Ok(())
    }
}

/// A read-only copy of an index, which can be read in either direction.
#[derive(Debug)]
pub struct ReadOnly {
    index: Index,
    reversed: bool,
}

impl ReadOnly {
    /// The rows of the copy, in the order it is read.
    pub closed spec fn spec_rows(&self) -> Seq<Seq<u64>> {
        if self.reversed {
            self.index.spec_rows().reverse()
        } else {
            self.index.spec_rows()
        }
    }

    /// A read-only copy of the rows of index `k` of a table, keyed by that index's columns.
    pub fn copy_from(table: &TableIndex, k: usize) -> (r: ReadOnly)
        requires
            table.wf(),
            k < table.indexes().len(),
        ensures
            r.spec_rows() == table.spec_index_rows(k as int),
    {
        let rows = table.index_rows(k);
        let (key, columns) = if k == 0 {
            table.primary.schema()
        } else {
            table.auxiliary[k - 1].1.schema()
        };
        ReadOnly { index: Index { key: copy_names(key), columns: copy_names(columns), rows }, reversed: false }
    }

    /// The same copy, read in the other direction.
    pub fn into_reversed(self) -> (r: ReadOnly)
        ensures
            r.spec_rows() == self.spec_rows().reverse(),
    {
        let r = ReadOnly { index: self.index, reversed: !self.reversed };
        proof {
            assert(self.index.spec_rows().reverse().reverse() =~= self.index.spec_rows());
        }
        r
    }

    /// Whether the copy holds no row.
    pub fn is_empty(&self) -> (r: bool)
        ensures
            r == (self.spec_rows().len() == 0),
    {
        self.index.is_empty()
    }
}

/// The rows after upserting each of `news` in turn.
pub open spec fn upserted(rows: Seq<Seq<u64>>, news: Seq<Seq<u64>>, width: nat) -> Seq<Seq<u64>>
    decreases news.len(),
{
    if news.len() == 0 {
        rows
    } else {
        let prev = upserted(rows, news.drop_last(), width);
        without_key(prev, news.last().take(width as int), width).push(news.last())
    }
}

impl TableIndex {
    /// Upserts each row in turn (see `upsert`). Where a row has the wrong width nothing is
    /// written and the request is bad.
    pub fn upsert_all(&mut self, rows: &Vec<Vec<u64>>) -> (r: Result<(), TCError>)
        requires
            old(self).wf(),
        ensures
            final(self).wf(),
            final(self).indexes() == old(self).indexes(),
            final(self).key_len() == old(self).key_len(),
            final(self).width() == old(self).width(),
            r is Ok <==> forall|i: int| 0 <= i < rows@.len() ==> (#[trigger] rows@[i])@.len() == old(self).width(),
            r is Ok ==> final(self).spec_rows() == upserted(old(self).spec_rows(), rows_view(rows@), old(self).key_len()),
            r is Err ==> r->Err_0.spec_code() == ErrorType::BadRequest && final(self).spec_rows()
                == old(self).spec_rows(),
    {
        let width = self.primary.columns.len();
        let mut i: usize = 0;
        while i < rows.len()
            invariant
                self.wf(),
                i <= rows@.len(),
                width == self.width(),
                forall|j: int| 0 <= j < i ==> (#[trigger] rows@[j])@.len() == width,
            decreases rows@.len() - i,
        {
            if rows[i].len() != width {
                return Err(TCError::bad_request("row does not match the table's columns", "width"));
            }
            i = i + 1;
        }
        let ghost start = self.spec_rows();
        let ghost news = rows_view(rows@);
        let ghost kw = self.key_len();
        let mut k: usize = 0;
        assert(news.subrange(0, 0) =~= Seq::<Seq<u64>>::empty());
        while k < rows.len()
            invariant
                self.wf(),
                k <= rows@.len(),
                news == rows_view(rows@),
                width == self.width(),
                kw == self.key_len(),
                self.indexes() == old(self).indexes(),
                self.key_len() == old(self).key_len(),
                self.width() == old(self).width(),
                forall|j: int| 0 <= j < rows@.len() ==> (#[trigger] rows@[j])@.len() == width,
                self.spec_rows() == upserted(start, news.subrange(0, k as int), kw),
            decreases rows@.len() - k,
        {
            let written = self.upsert(&rows[k]);
            assert(written is Ok);
            proof {
                assert(news.subrange(0, k + 1).drop_last() =~= news.subrange(0, k as int));
                assert(news.subrange(0, k + 1).last() == rows@[k as int]@);
            }
            k = k + 1;
        }
        assert(news.subrange(0, k as int) =~= news);
        Ok(())
    }

    /// A new table with the given schema, filled by upserting `rows` in turn. Fails as
    /// `create` does, or with a bad request where a row has the wrong width.
    pub fn copy(schema: &TableSchema, rows: &Vec<Vec<u64>>) -> (r: Result<TableIndex, TCError>)
        requires
            schema.indices@.len() < usize::MAX,
            schema.key@.len() + schema.values@.len() < usize::MAX,
        ensures
            r is Ok <==> schema_ok(schema) && forall|i: int| 0 <= i < rows@.len() ==> (#[trigger] rows@[i])@.len()
                == schema.key@.len() + schema.values@.len(),
            r matches Ok(t) ==> {
                &&& t.wf()
                &&& t.indexes()[0] == schema_columns(schema)
                &&& t.spec_rows() == upserted(Seq::empty(), rows_view(rows@), schema.key@.len())
            },
    {
        let mut t = match TableIndex::create(schema) {
            Ok(t) => t,
            Err(e) => {
                return Err(e);
            },
        };
        proof {
            assert(t.width() == t.indexes()[0].len());
            assert(schema_columns(schema).len() == schema.key@.len() + schema.values@.len());
        }
        match t.upsert_all(rows) {
            Ok(()) => Ok(t),
            Err(e) => Err(e),
        }
    }
}

/// The first `n` positions, in order: the key columns of an index.
pub open spec fn leading(n: nat) -> Seq<usize> {
    Seq::new(n, |i: int| i as usize)
}

fn leading_positions(n: usize) -> (r: Vec<usize>)
    ensures
        r@ == leading(n as nat),
{
    let mut r: Vec<usize> = Vec::new();
    let mut i: usize = 0;
    while i < n
        invariant
            i <= n,
            r@ == leading(i as nat),
        decreases n - i,
    {
        r.push(i);
        assert(r@ =~= leading((i + 1) as nat));
        i = i + 1;
    }
    r
}

proof fn lemma_leading_wide(rows: Seq<Seq<u64>>, n: nat, w: nat)
    requires
        n <= w,
        n <= usize::MAX,
        forall|i: int| 0 <= i < rows.len() ==> (#[trigger] rows[i]).len() == w,
    ensures
        wide_enough(rows, leading(n)),
{
    assert forall|i: int, k: int|
        #![trigger rows[i], leading(n)[k]]
        0 <= i < rows.len() && 0 <= k < leading(n).len() implies leading(n)[k] < rows[i].len() by {
        assert(leading(n)[k] as int == k);
    }
}

/// Some index has a column named `name`.
pub open spec fn covered(indexes: Seq<Seq<Name>>, name: Name) -> bool {
    exists|k: int| 0 <= k < indexes.len() && #[trigger] indexes[k].contains(name)
}

proof fn lemma_greedy_covered(indexes: Seq<Seq<Name>>, names: Seq<Name>, plan: Seq<(nat, nat)>, rest: Seq<Name>)
    requires
        greedy_steps(indexes, names, plan, rest),
    ensures
        rest.len() <= names.len(),
        forall|i: int| 0 <= i < names.len() - rest.len() ==> covered(indexes, #[trigger] names[i]),
    decreases plan.len(),
{
    if plan.len() > 0 {
        let (k, n) = plan[0];
        let tail = names.skip(n as int);
        lemma_greedy_covered(indexes, tail, plan.skip(1), rest);
        lemma_first_accepting_some(indexes, names.take(n as int), 0);
        assert forall|i: int| 0 <= i < names.len() - rest.len() implies covered(indexes, #[trigger] names[i]) by {
            if i < n {
                assert(names.take(n as int)[i] == names[i]);
                assert(indexes[k as int][i] == names[i]);
                assert(indexes[k as int].contains(names[i]));
            } else {
                assert(tail[i - n] == names[i]);
                assert(covered(indexes, tail[i - n]));
            }
        }
    }
}

/// The positions among `columns` of the named columns, in order.
pub open spec fn positions_of(columns: Seq<Name>, names: Seq<Name>) -> Seq<usize> {
    names.map_values(|n: Name| position_of(columns, n) as usize)
}

impl TableIndex {
    /// The rows of the table in the order of the given columns, compared lexicographically:
    /// ascending, or descending when `reverse`. The order must be one that the indexes support
    /// (see `order_by`); an unsupported order is a bad request. The result holds exactly the
    /// table's rows.
    pub fn stream_ordered(&self, order: &Vec<String>, reverse: bool) -> (r: Result<Vec<Vec<u64>>, TCError>)
        requires
            self.wf(),
        ensures
            r is Ok <==> exists|plan: Seq<(nat, nat)>| greedy(self.indexes(), names_of(order@), plan),
            r matches Ok(rows) ==> {
                &&& rows_view(rows@).to_multiset() == self.spec_rows().to_multiset()
                &&& in_order(rows_view(rows@), positions_of(self.indexes()[0], names_of(order@)), reverse)
            },
            r is Err ==> r->Err_0.spec_code() == ErrorType::BadRequest,
    {
        let ordering = match self.order_by(order, reverse) {
            Ok(o) => o,
            Err(e) => {
                proof {
                    assert forall|plan: Seq<(nat, nat)>| !greedy(self.indexes(), names_of(order@), plan) by {
                        lemma_greedy_excludes_stuck(self.indexes(), names_of(order@), plan);
                    }
                }
                return Err(e);
            },
        };
        let ghost cols = self.indexes()[0];
        let ghost ns = names_of(order@);
        proof {
            lemma_greedy_covered(self.indexes(), ns, plan_view(ordering.plan@), Seq::empty());
            assert forall|i: int| 0 <= i < ns.len() implies cols.contains(#[trigger] ns[i]) by {
                assert(covered(self.indexes(), ns[i]));
                let k = choose|k: int| 0 <= k < self.indexes().len() && #[trigger] self.indexes()[k].contains(ns[i]);
                lemma_index_consistency(self, k);
                let proj = self.projection(k);
                let j = choose|j: int| 0 <= j < self.indexes()[k].len() && self.indexes()[k][j] == ns[i];
                assert(self.indexes()[k][j] == cols[proj[j] as int]);
            }
        }
        let mut positions: Vec<usize> = Vec::new();
        let mut i: usize = 0;
        while i < order.len()
            invariant
                i <= order@.len(),
                cols == self.indexes()[0],
                ns == names_of(order@),
                names_of(self.primary.columns@) == cols,
                forall|j: int| 0 <= j < ns.len() ==> cols.contains(#[trigger] ns[j]),
                positions@ == positions_of(cols, ns.subrange(0, i as int)),
                forall|j: int| 0 <= j < i ==> cols.contains(#[trigger] ns[j]),
                forall|k: int| 0 <= k < positions@.len() ==> positions@[k] < cols.len(),
            decreases order@.len() - i,
        {
            assert(ns[i as int] == order@[i as int]@);
            let found = find_column(&self.primary.columns, &order[i]);
            proof {
                lemma_position_of(cols, ns[i as int]);
            }
            match found {
                None => {
                    return Err(TCError::bad_request("no such column", order[i].as_str()));
                },
                Some(p) => {
                    positions.push(p);
                    assert(positions@ =~= positions_of(cols, ns.subrange(0, i + 1)));
                },
            }
            i = i + 1;
        }
        assert(ns.subrange(0, i as int) =~= ns);
        proof {
            lemma_index_consistency(self, 0);
            assert forall|a: int, k: int|
                #![trigger self.spec_rows()[a], positions@[k]]
                0 <= a < self.spec_rows().len() && 0 <= k < positions@.len() implies positions@[k] < self.spec_rows()[a].len() by {
                assert(self.primary.spec_rows()[a].len() == self.width());
            }
            assert(self.primary.rows@.map_values(|r: Vec<u64>| r@) == self.spec_rows());
        }
        Ok(sort_rows(&self.primary.rows, &positions, reverse))
    }
}

} // verus!
