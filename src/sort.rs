use vstd::prelude::*;
use vstd::seq_lib::{to_multiset_build, to_multiset_insert};

use crate::table::{project, rows_view};

verus! {

/// Lexicographic order on value sequences: `a` comes no later than `b`.
pub open spec fn lex_le(a: Seq<u64>, b: Seq<u64>) -> bool
    decreases a.len(),
{
    if a.len() == 0 {
        true
    } else if b.len() == 0 {
        false
    } else if a[0] < b[0] {
        true
    } else if a[0] > b[0] {
        false
    } else {
        lex_le(a.drop_first(), b.drop_first())
    }
}

/// `a` comes no later than `b`, in ascending order, or in descending order when `reverse`.
pub open spec fn before(a: Seq<u64>, b: Seq<u64>, reverse: bool) -> bool {
    if reverse {
        lex_le(b, a)
    } else {
        lex_le(a, b)
    }
}

/// The rows come in order of their values at `positions`, compared lexicographically:
/// ascending, or descending when `reverse`.
pub open spec fn in_order(rows: Seq<Seq<u64>>, positions: Seq<usize>, reverse: bool) -> bool {
    forall|i: int, j: int|
        0 <= i < j < rows.len() ==> before(
            #[trigger] project(rows[i], positions),
            #[trigger] project(rows[j], positions),
            reverse,
        )
}

/// Every row has a value at each of the positions.
pub open spec fn wide_enough(rows: Seq<Seq<u64>>, positions: Seq<usize>) -> bool {
    forall|i: int, k: int|
        #![trigger rows[i], positions[k]]
        0 <= i < rows.len() && 0 <= k < positions.len() ==> positions[k] < rows[i].len()
}

proof fn lemma_lex_total(a: Seq<u64>, b: Seq<u64>)
    ensures
        lex_le(a, b) || lex_le(b, a),
    decreases a.len(),
{
    if a.len() > 0 && b.len() > 0 && a[0] == b[0] {
        lemma_lex_total(a.drop_first(), b.drop_first());
    }
}

proof fn lemma_lex_trans(a: Seq<u64>, b: Seq<u64>, c: Seq<u64>)
    requires
        lex_le(a, b),
        lex_le(b, c),
    ensures
        lex_le(a, c),
    decreases a.len(),
{
    if a.len() > 0 && b.len() > 0 && c.len() > 0 && a[0] == b[0] && b[0] == c[0] {
        lemma_lex_trans(a.drop_first(), b.drop_first(), c.drop_first());
    }
}

proof fn lemma_before_total(a: Seq<u64>, b: Seq<u64>, reverse: bool)
    ensures
        before(a, b, reverse) || before(b, a, reverse),
{
    lemma_lex_total(a, b);
}

proof fn lemma_before_trans(a: Seq<u64>, b: Seq<u64>, c: Seq<u64>, reverse: bool)
    requires
        before(a, b, reverse),
        before(b, c, reverse),
    ensures
        before(a, c, reverse),
{
    if reverse {
        lemma_lex_trans(c, b, a);
    } else {
        lemma_lex_trans(a, b, c);
    }
}

fn lex_le_exec(a: &Vec<u64>, b: &Vec<u64>) -> (r: bool)
    ensures
        r == lex_le(a@, b@),
{
    let mut i: usize = 0;
    assert(a@.skip(0) =~= a@ && b@.skip(0) =~= b@);
    while i < a.len() && i < b.len() && a[i] == b[i]
        invariant
            i <= a@.len(),
            i <= b@.len(),
            lex_le(a@, b@) == lex_le(a@.skip(i as int), b@.skip(i as int)),
        decreases a@.len() - i,
    {
        assert(a@.skip(i as int).drop_first() =~= a@.skip(i + 1));
        assert(b@.skip(i as int).drop_first() =~= b@.skip(i + 1));
        i = i + 1;
    }
    if i == a.len() {
        true
    } else if i == b.len() {
        false
    } else {
        a[i] < b[i]
    }
}

fn key_of(row: &Vec<u64>, positions: &Vec<usize>) -> (r: Vec<u64>)
    requires
        forall|k: int| 0 <= k < positions@.len() ==> positions@[k] < row@.len(),
    ensures
        r@ == project(row@, positions@),
{
    let mut out: Vec<u64> = Vec::new();
    let mut k: usize = 0;
    while k < positions.len()
        invariant
            k <= positions@.len(),
            forall|k: int| 0 <= k < positions@.len() ==> positions@[k] < row@.len(),
            out@ == project(row@, positions@.subrange(0, k as int)),
        decreases positions@.len() - k,
    {
        out.push(row[positions[k]]);
        assert(out@ =~= project(row@, positions@.subrange(0, k + 1)));
        k = k + 1;
    }
    assert(positions@.subrange(0, k as int) =~= positions@);
    out
}

/// The rows sorted by their values at `positions`, lexicographically: ascending, or
/// descending when `reverse`. Rows with equal values keep their order. The result holds
/// exactly the given rows.
pub fn sort_rows(rows: &Vec<Vec<u64>>, positions: &Vec<usize>, reverse: bool) -> (r: Vec<Vec<u64>>)
    requires
        wide_enough(rows_view(rows@), positions@),
    ensures
        rows_view(r@).to_multiset() == rows_view(rows@).to_multiset(),
        in_order(rows_view(r@), positions@, reverse),
{
    let ghost rv = rows_view(rows@);
    let mut out: Vec<Vec<u64>> = Vec::new();
    let mut i: usize = 0;
    assert(rv.subrange(0, 0) =~= Seq::<Seq<u64>>::empty());
    assert(rows_view(out@) =~= Seq::<Seq<u64>>::empty());
    while i < rows.len()
        invariant
            i <= rv.len(),
            rv == rows_view(rows@),
            wide_enough(rv, positions@),
            wide_enough(rows_view(out@), positions@),
            rows_view(out@).to_multiset() == rv.subrange(0, i as int).to_multiset(),
            in_order(rows_view(out@), positions@, reverse),
        decreases rv.len() - i,
    {
        let row = rows[i].clone();
        assert(row@ =~= rv[i as int]);
        assert(forall|k: int| 0 <= k < positions@.len() ==> positions@[k] < rv[i as int].len());
        let key = key_of(&row, positions);
        let ghost ov = rows_view(out@);
        let mut p: usize = 0;
        let mut found = false;
        while p < out.len() && !found
            invariant
                p <= ov.len(),
                ov == rows_view(out@),
                wide_enough(ov, positions@),
                key@ == project(row@, positions@),
                forall|k: int| 0 <= k < p ==> before(#[trigger] project(ov[k], positions@), key@, reverse),
                found ==> p < ov.len() && !before(project(ov[p as int], positions@), key@, reverse),
            decreases ov.len() - p + (if found { 0int } else { 1int }),
        {
            proof {
                assert(ov[p as int] == out@[p as int]@);
            }
            let other = key_of(&out[p], positions);
            let fits = if reverse {
                lex_le_exec(&key, &other)
            } else {
                lex_le_exec(&other, &key)
            };
            if fits {
                p = p + 1;
            } else {
                found = true;
            }
        }
        proof {
            if p < ov.len() {
                lemma_before_total(project(ov[p as int], positions@), key@, reverse);
            }
        }
        out.insert(p, row);
        proof {
            let nv = rows_view(out@);
            assert(nv =~= ov.insert(p as int, row@));
            to_multiset_insert(ov, p as int, row@);
            assert(rv.subrange(0, i + 1) =~= rv.subrange(0, i as int).push(rv[i as int]));
            to_multiset_build(rv.subrange(0, i as int), rv[i as int]);
            assert forall|a: int, b: int| 0 <= a < b < nv.len() implies before(
                #[trigger] project(nv[a], positions@),
                #[trigger] project(nv[b], positions@),
                reverse,
            ) by {
                if b < p {
                    assert(nv[a] == ov[a] && nv[b] == ov[b]);
                } else if b == p {
                    assert(nv[a] == ov[a] && nv[b] == row@);
                } else if a < p {
                    assert(nv[a] == ov[a] && nv[b] == ov[b - 1]);
                } else if a == p {
                    assert(nv[a] == row@ && nv[b] == ov[b - 1]);
                    if b - 1 > p {
                        assert(before(project(ov[p as int], positions@), project(ov[b - 1], positions@), reverse));
                        lemma_before_trans(key@, project(ov[p as int], positions@), project(ov[b - 1], positions@), reverse);
                    }
                } else {
                    assert(nv[a] == ov[a - 1] && nv[b] == ov[b - 1]);
                }
            }
            assert forall|a: int, k: int|
                #![trigger nv[a], positions@[k]]
                0 <= a < nv.len() && 0 <= k < positions@.len() implies positions@[k] < nv[a].len() by {
                if a < p {
                    assert(nv[a] == ov[a]);
                } else if a > p {
                    assert(nv[a] == ov[a - 1]);
                }
            }
        }
        i = i + 1;
    }
    assert(rv.subrange(0, i as int) =~= rv);
    out
}

} // verus!
