use vstd::prelude::*;

use crate::decimal::{decimal_u64, parse_u64};
use crate::error::{ErrorType, TCError};
use crate::replication::{path_view, same_path};

verus! {

/// A transaction identifier: the wall time at which the transaction began, in nanoseconds,
/// and a nonce that tells apart transactions begun at the same instant.
#[derive(Clone, Copy, Debug, PartialEq, Eq, Structural)]
pub struct TxnId {
    nanos: u64,
    nonce: u16,
}

impl TxnId {
    /// The identifier of a transaction begun at `nanos` with the given nonce.
    pub fn new(nanos: u64, nonce: u16) -> (r: TxnId)
        ensures
            r.spec_nanos() == nanos,
            r.spec_nonce() == nonce,
    {
        TxnId { nanos, nonce }
    }

    pub closed spec fn spec_nanos(&self) -> u64 {
        self.nanos
    }

    pub closed spec fn spec_nonce(&self) -> u16 {
        self.nonce
    }

    /// The wall time at which the transaction began.
    pub fn nanos(&self) -> (r: u64)
        ensures
            r == self.spec_nanos(),
    {
        self.nanos
    }

    /// The nonce of the transaction.
    pub fn nonce(&self) -> (r: u16)
        ensures
            r == self.spec_nonce(),
    {
        self.nonce
    }

    /// Strictly earlier: by time, then by nonce.
    pub open spec fn spec_lt(&self, other: &TxnId) -> bool {
        self.spec_nanos() < other.spec_nanos() || (self.spec_nanos() == other.spec_nanos()
            && self.spec_nonce() < other.spec_nonce())
    }

    /// Earlier or the same.
    pub open spec fn spec_le(&self, other: &TxnId) -> bool {
        !other.spec_lt(self)
    }

    /// Whether this transaction comes strictly before `other`.
    pub fn lt(&self, other: &TxnId) -> (r: bool)
        ensures
            r == self.spec_lt(other),
    {
        self.nanos < other.nanos || (self.nanos == other.nanos && self.nonce < other.nonce)
    }

    /// Whether this transaction comes before `other` or is `other`.
    pub fn le(&self, other: &TxnId) -> (r: bool)
        ensures
            r == self.spec_le(other),
    {
        !other.lt(self)
    }
}

/// `s` reads as `<nanos>-<nonce>` with the dash at `p`: decimal numbers on both sides, the
/// nonce no greater than `u16::MAX`.
pub open spec fn canonical_split(s: Seq<u8>, p: int) -> bool {
    &&& 0 <= p < s.len()
    &&& s[p] == 45
    &&& decimal_u64(s.subrange(0, p)) is Some
    &&& decimal_u64(s.subrange(p + 1, s.len() as int)) matches Some(m) && m <= u16::MAX
}

impl TxnId {
    /// Reads a transaction identifier in its canonical form, `<nanos>-<nonce>`, both decimal.
    /// Anything else is a bad request.
    pub fn parse(s: &[u8]) -> (r: Result<TxnId, TCError>)
        ensures
            r is Ok <==> exists|p: int| canonical_split(s@, p),
            r matches Ok(t) ==> exists|p: int| #[trigger] canonical_split(s@, p)
                && decimal_u64(s@.subrange(0, p)) == Some(t.spec_nanos())
                && decimal_u64(s@.subrange(p + 1, s@.len() as int)) == Some(t.spec_nonce() as u64),
            r is Err ==> r->Err_0.spec_code() == ErrorType::BadRequest,
    {
        let mut p: usize = 0;
        while p < s.len() && s[p] != 45
            invariant
                p <= s@.len(),
                forall|q: int| 0 <= q < p ==> s@[q] != 45,
            decreases s@.len() - p,
        {
            p = p + 1;
        }
        proof {
            assert forall|q: int| canonical_split(s@, q) implies q == p by {
                if q < p {
                    assert(s@[q] != 45);
                } else if q > p {
                    let pre = s@.subrange(0, q);
                    assert(pre[p as int] == s@[p as int]);
                    assert(!crate::decimal::is_digit(pre[p as int]));
                }
            }
        }
        if p == s.len() {
            return Err(TCError::bad_request("invalid transaction id", "no dash"));
        }
        let nanos = parse_u64(s, 0, p);
        let nonce = parse_u64(s, p + 1, s.len());
        match (nanos, nonce) {
            (Some(n), Some(m)) => {
                if m > 0xffff {
                    return Err(TCError::bad_request("invalid transaction id", "nonce out of range"));
                }
                assert(canonical_split(s@, p as int));
                Ok(TxnId { nanos: n, nonce: m as u16 })
            },
            _ => Err(TCError::bad_request("invalid transaction id", "not decimal")),
        }
    }
}

/// Two identifiers are equal exactly when neither comes before the other.
pub proof fn lemma_txn_id_total(a: TxnId, b: TxnId)
    ensures
        a == b <==> (a.spec_le(&b) && b.spec_le(&a)),
        a.spec_lt(&b) || b.spec_lt(&a) || a == b,
{
    if a.spec_nanos() == b.spec_nanos() && a.spec_nonce() == b.spec_nonce() {
        lemma_txn_id_fields(a, b);
    }
}

proof fn lemma_txn_id_fields(a: TxnId, b: TxnId)
    requires
        a.spec_nanos() == b.spec_nanos(),
        a.spec_nonce() == b.spec_nonce(),
    ensures
        a == b,
{
}

/// The value that a transaction at `t` sees: that of the latest version committed at or
/// before `t`, or `canon` where there is none.
pub open spec fn visible<T>(canon: T, versions: Seq<(TxnId, T)>, t: TxnId) -> T
    decreases versions.len(),
{
    if versions.len() == 0 {
        canon
    } else if versions.last().0.spec_le(&t) {
        versions.last().1
    } else {
        visible(canon, versions.drop_last(), t)
    }
}

proof fn lemma_visible_at_split<T>(c: T, vs: Seq<(TxnId, T)>, k: nat, f: TxnId)
    requires
        0 < k <= vs.len(),
        ascending(vs),
        forall|j: int| 0 <= j < k ==> (#[trigger] vs[j]).0.spec_le(&f),
        forall|j: int| k <= j < vs.len() ==> f.spec_lt(&(#[trigger] vs[j]).0),
    ensures
        visible(c, vs, f) == vs[k - 1].1,
    decreases vs.len(),
{
    if vs.len() > k {
        assert(f.spec_lt(&vs[vs.len() - 1].0));
        lemma_visible_at_split(c, vs.drop_last(), k, f);
    }
}

proof fn lemma_visible_split<T>(c: T, vs: Seq<(TxnId, T)>, k: nat, f: TxnId, t: TxnId)
    requires
        k <= vs.len(),
        forall|j: int| 0 <= j < k ==> (#[trigger] vs[j]).0.spec_le(&f),
        forall|j: int| k <= j < vs.len() ==> f.spec_lt(&(#[trigger] vs[j]).0),
        f.spec_le(&t),
    ensures
        visible(c, vs, t) == visible(visible(c, vs, f), vs.subrange(k as int, vs.len() as int), t),
    decreases vs.len(),
{
    let rest = vs.subrange(k as int, vs.len() as int);
    if vs.len() == k {
        assert(rest.len() == 0);
        if k > 0 {
            assert(vs[k - 1].0.spec_le(&f));
        }
    } else {
        let last = vs.last();
        assert(f.spec_lt(&vs[vs.len() - 1].0));
        assert(rest.last() == last);
        if !last.0.spec_le(&t) {
            assert(rest.drop_last() =~= vs.drop_last().subrange(k as int, vs.len() - 1));
            lemma_visible_split(c, vs.drop_last(), k, f, t);
        }
    }
}

/// The versions are in strictly increasing order of their transactions.
pub open spec fn ascending<T>(versions: Seq<(TxnId, T)>) -> bool {
    forall|i: int, j: int| 0 <= i < j < versions.len() ==> versions[i].0.spec_lt(&versions[j].0)
}

/// A value under transactional control: the versions committed so far, the version that one
/// writer is preparing, and how far history has been finalized.
pub struct TxnLock<T> {
    canon: T,
    versions: Vec<(TxnId, T)>,
    pending: Option<(TxnId, T)>,
    writing: bool,
    last_read: Option<TxnId>,
    finalized: Option<TxnId>,
}

impl<T: Copy> TxnLock<T> {
    /// The value as of before every committed version.
    pub closed spec fn spec_canon(&self) -> T {
        self.canon
    }

    /// The committed versions, oldest first.
    pub closed spec fn spec_versions(&self) -> Seq<(TxnId, T)> {
        self.versions@
    }

    /// The version that a writer is preparing, not yet committed.
    pub closed spec fn spec_pending(&self) -> Option<(TxnId, T)> {
        self.pending
    }

    /// Whether a write guard is out.
    pub closed spec fn spec_writing(&self) -> bool {
        self.writing
    }

    /// The latest transaction that has read a committed version.
    pub closed spec fn spec_last_read(&self) -> Option<TxnId> {
        self.last_read
    }

    /// The latest transaction up to which history was finalized.
    pub closed spec fn spec_finalized(&self) -> Option<TxnId> {
        self.finalized
    }

    /// Versions in order; a pending version comes after them all, and a write guard is out
    /// only over a pending version.
    pub open spec fn wf(&self) -> bool {
        &&& ascending(self.spec_versions())
        &&& (self.spec_pending() matches Some(p) ==> self.spec_versions().len() > 0
            ==> self.spec_versions().last().0.spec_lt(&p.0))
        &&& (self.spec_writing() ==> self.spec_pending() is Some)
    }

    /// Whether a write at `txn` is admitted: no other transaction prepares a version, no write
    /// guard is out, nothing at or after `txn` is committed or finalized, and no later
    /// transaction has read.
    pub open spec fn write_allowed(&self, txn: TxnId) -> bool {
        &&& !self.spec_writing()
        &&& (self.spec_pending() matches Some(p) ==> p.0 == txn)
        &&& (self.spec_versions().len() > 0 ==> self.spec_versions().last().0.spec_lt(&txn))
        &&& (self.spec_finalized() matches Some(f) ==> f.spec_le(&txn))
        &&& (self.spec_last_read() matches Some(r) ==> r.spec_le(&txn))
    }

    /// Whether a read at `txn` is refused: its history is finalized away, or another
    /// transaction at or before `txn` prepares a version that `txn` would have to see.
    pub open spec fn read_conflicts(&self, txn: TxnId) -> bool {
        ||| (self.spec_finalized() matches Some(f) && txn.spec_lt(&f))
        ||| (self.spec_pending() matches Some(p) && p.0.spec_lt(&txn))
    }

    /// Whether `txn` itself prepares the pending version.
    pub open spec fn writes_at(&self, txn: TxnId) -> bool {
        self.spec_pending() is Some && self.spec_pending()->Some_0.0 == txn
    }

    /// A lock over `value`, with no history.
    pub fn new(value: T) -> (r: TxnLock<T>)
        ensures
            r.wf(),
            r.spec_canon() == value,
            r.spec_versions() == Seq::<(TxnId, T)>::empty(),
            r.spec_pending() is None,
            !r.spec_writing(),
            r.spec_last_read() is None,
            r.spec_finalized() is None,
    {
        TxnLock {
            canon: value,
            versions: Vec::new(),
            pending: None,
            writing: false,
            last_read: None,
            finalized: None,
        }
    }

    /// Reads the value as `txn` sees it: its own pending version if it writes, else the
    /// latest version committed at or before it. Where an earlier transaction still prepares
    /// a version that `txn` would have to see, the read does not wait for it: it fails with a
    /// conflict, and the caller may retry once that transaction commits or rolls back.
    pub fn read(&mut self, txn: TxnId) -> (r: Result<T, TCError>)
        requires
            old(self).wf(),
        ensures
            final(self).wf(),
            final(self).spec_canon() == old(self).spec_canon(),
            final(self).spec_versions() == old(self).spec_versions(),
            final(self).spec_pending() == old(self).spec_pending(),
            final(self).spec_writing() == old(self).spec_writing(),
            final(self).spec_finalized() == old(self).spec_finalized(),
            old(self).writes_at(txn) ==> r == Ok::<T, TCError>(old(self).spec_pending()->Some_0.1)
                && final(self).spec_last_read() == old(self).spec_last_read(),
            !old(self).writes_at(txn) ==> {
                &&& old(self).read_conflicts(txn) ==> r is Err && r->Err_0.spec_code()
                    == ErrorType::Conflict && final(self).spec_last_read()
                    == old(self).spec_last_read()
                &&& !old(self).read_conflicts(txn) ==> r == Ok::<T, TCError>(
                    visible(old(self).spec_canon(), old(self).spec_versions(), txn),
                ) && final(self).spec_last_read() == Some(
                    match old(self).spec_last_read() {
                        Some(l) => if l.spec_lt(&txn) { txn } else { l },
                        None => txn,
                    },
                )
            },
    {
        if let Some(p) = &self.pending {
            if p.0 == txn {
                return Ok(p.1);
            }
            if p.0.lt(&txn) {
                return Err(TCError::conflict());
            }
        }
        if let Some(f) = &self.finalized {
            if txn.lt(f) {
                return Err(TCError::conflict());
            }
        }
        let value = self.visible_at(txn);
        let last = match self.last_read {
            Some(l) => if l.lt(&txn) { txn } else { l },
            None => txn,
        };
        self.last_read = Some(last);
        Ok(value)
    }

    /// Takes the write guard at `txn` and sets the value that `txn` prepares. Fails with a
    /// conflict where the write is not admitted.
    pub fn write(&mut self, txn: TxnId, value: T) -> (r: Result<(), TCError>)
        requires
            old(self).wf(),
        ensures
            final(self).wf(),
            r is Ok <==> old(self).write_allowed(txn),
            r is Ok ==> {
                &&& final(self).spec_pending() == Some((txn, value))
                &&& final(self).spec_writing()
                &&& final(self).spec_canon() == old(self).spec_canon()
                &&& final(self).spec_versions() == old(self).spec_versions()
                &&& final(self).spec_last_read() == old(self).spec_last_read()
                &&& final(self).spec_finalized() == old(self).spec_finalized()
            },
            r is Err ==> r->Err_0.spec_code() == ErrorType::Conflict && *final(self) == *old(self),
    {
        if self.writing {
            return Err(TCError::conflict());
        }
        if let Some(p) = &self.pending {
            if p.0 != txn {
                return Err(TCError::conflict());
            }
        }
        let n = self.versions.len();
        if n > 0 && !self.versions[n - 1].0.lt(&txn) {
            return Err(TCError::conflict());
        }
        if let Some(f) = &self.finalized {
            if !f.le(&txn) {
                return Err(TCError::conflict());
            }
        }
        if let Some(l) = &self.last_read {
            if !l.le(&txn) {
                return Err(TCError::conflict());
            }
        }
        self.pending = Some((txn, value));
        self.writing = true;
        Ok(())
    }

    /// Whether a write at `txn` would be admitted now (see `write`).
    pub fn can_write(&self, txn: TxnId) -> (r: bool)
        ensures
            r == self.write_allowed(txn),
    {
        if self.writing {
            return false;
        }
        if let Some(p) = &self.pending {
            if p.0 != txn {
                return false;
            }
        }
        let n = self.versions.len();
        if n > 0 && !self.versions[n - 1].0.lt(&txn) {
            return false;
        }
        if let Some(f) = &self.finalized {
            if !f.le(&txn) {
                return false;
            }
        }
        if let Some(l) = &self.last_read {
            if !l.le(&txn) {
                return false;
            }
        }
        true
    }

    /// Gives back the write guard of `txn`; its pending version stays until commit.
    pub fn release(&mut self, txn: TxnId)
        requires
            old(self).wf(),
        ensures
            final(self).wf(),
            final(self).spec_writing() == (old(self).spec_writing() && !old(self).writes_at(txn)),
            final(self).spec_pending() == old(self).spec_pending(),
            final(self).spec_canon() == old(self).spec_canon(),
            final(self).spec_versions() == old(self).spec_versions(),
            final(self).spec_last_read() == old(self).spec_last_read(),
            final(self).spec_finalized() == old(self).spec_finalized(),
    {
        if let Some(p) = &self.pending {
            if p.0 == txn {
                self.writing = false;
            }
        }
    }

    /// Promotes the version that `txn` prepared, if any, to a committed version.
    pub fn commit(&mut self, txn: TxnId)
        requires
            old(self).wf(),
        ensures
            final(self).wf(),
            old(self).writes_at(txn) ==> {
                &&& final(self).spec_versions() == old(self).spec_versions().push(
                    old(self).spec_pending()->Some_0,
                )
                &&& final(self).spec_pending() is None
                &&& !final(self).spec_writing()
            },
            !old(self).writes_at(txn) ==> {
                &&& final(self).spec_versions() == old(self).spec_versions()
                &&& final(self).spec_pending() == old(self).spec_pending()
                &&& final(self).spec_writing() == old(self).spec_writing()
            },
            final(self).spec_canon() == old(self).spec_canon(),
            final(self).spec_last_read() == old(self).spec_last_read(),
            final(self).spec_finalized() == old(self).spec_finalized(),
    {
        if let Some(p) = self.pending {
            if p.0 == txn {
                let ghost before = self.versions@;
                self.versions.push(p);
                proof {
                    assert forall|i: int, j: int|
                        0 <= i < j < self.versions@.len() implies (#[trigger] self.versions@[i]).0.spec_lt(
                        &(#[trigger] self.versions@[j]).0,
                    ) by {
                        if j == before.len() && i < before.len() - 1 {
                            assert(before[i].0.spec_lt(&before[before.len() - 1].0));
                        }
                    }
                }
                self.pending = None;
                self.writing = false;
            }
        }
    }

    /// Discards the version that `txn` prepared, if any.
    pub fn rollback(&mut self, txn: TxnId)
        requires
            old(self).wf(),
        ensures
            final(self).wf(),
            old(self).writes_at(txn) ==> final(self).spec_pending() is None
                && !final(self).spec_writing(),
            !old(self).writes_at(txn) ==> final(self).spec_pending() == old(self).spec_pending()
                && final(self).spec_writing() == old(self).spec_writing(),
            final(self).spec_versions() == old(self).spec_versions(),
            final(self).spec_canon() == old(self).spec_canon(),
            final(self).spec_last_read() == old(self).spec_last_read(),
            final(self).spec_finalized() == old(self).spec_finalized(),
    {
        if let Some(p) = &self.pending {
            if p.0 == txn {
                self.pending = None;
                self.writing = false;
            }
        }
    }

    /// Discards every committed version at or before `txn` but the latest of them; what any
    /// transaction at or after `txn` sees is unchanged.
    #[verifier::spinoff_prover]
    pub fn finalize(&mut self, txn: TxnId)
        requires
            old(self).wf(),
        ensures
            final(self).wf(),
            forall|t: TxnId| #![auto] txn.spec_le(&t) ==> visible(
                final(self).spec_canon(),
                final(self).spec_versions(),
                t,
            ) == visible(old(self).spec_canon(), old(self).spec_versions(), t),
            forall|i: int| 0 <= i < final(self).spec_versions().len() ==> txn.spec_lt(
                &#[trigger] final(self).spec_versions()[i].0,
            ),
            final(self).spec_finalized() == Some(
                match old(self).spec_finalized() {
                    Some(f) => if txn.spec_lt(&f) { f } else { txn },
                    None => txn,
                },
            ),
            final(self).spec_pending() == old(self).spec_pending(),
            final(self).spec_writing() == old(self).spec_writing(),
            final(self).spec_last_read() == old(self).spec_last_read(),
    {
        let ghost old_versions = self.versions@;
        let ghost old_canon = self.canon;
        let n = self.versions.len();
        let mut k: usize = 0;
        while k < n && self.versions[k].0.le(&txn)
            invariant
                k <= n,
                n == self.versions@.len(),
                forall|j: int| 0 <= j < k ==> (#[trigger] self.versions@[j]).0.spec_le(&txn),
            decreases n - k,
        {
            k = k + 1;
        }
        proof {
            assert forall|j: int| k <= j < n implies txn.spec_lt(&(#[trigger] self.versions@[j]).0) by {
                if k < n {
                    assert(txn.spec_lt(&self.versions@[k as int].0));
                    if j > k {
                        assert(self.versions@[k as int].0.spec_lt(&self.versions@[j].0));
                    }
                }
            }
        }
        if k > 0 {
            let canon = self.versions[k - 1].1;
            let mut rest: Vec<(TxnId, T)> = Vec::new();
            let mut i: usize = k;
            while i < n
                invariant
                    k <= i <= n,
                    n == self.versions@.len(),
                    rest@ == self.versions@.subrange(k as int, i as int),
                decreases n - i,
            {
                rest.push(self.versions[i]);
                assert(rest@ =~= self.versions@.subrange(k as int, i + 1));
                i = i + 1;
            }
            proof {
                lemma_visible_at_split(old_canon, old_versions, k as nat, txn);
                assert(visible(old_canon, old_versions, txn) == canon);
                assert forall|t: TxnId| #![auto] txn.spec_le(&t) implies visible(canon, rest@, t)
                    == visible(old_canon, old_versions, t) by {
                    lemma_visible_split(old_canon, old_versions, k as nat, txn, t);
                }
            }
            self.canon = canon;
            self.versions = rest;
        }
        let fin = match self.finalized {
            Some(f) => if txn.lt(&f) { f } else { txn },
            None => txn,
        };
        self.finalized = Some(fin);
    }

    fn visible_at(&self, txn: TxnId) -> (r: T)
        ensures
            r == visible(self.spec_canon(), self.spec_versions(), txn),
    {
        let mut i = self.versions.len();
        assert(self.versions@.subrange(0, i as int) =~= self.versions@);
        while i > 0
            invariant
                i <= self.versions@.len(),
                visible(self.canon, self.versions@, txn) == visible(
                    self.canon,
                    self.versions@.subrange(0, i as int),
                    txn,
                ),
            decreases i,
        {
            let (t, v) = self.versions[i - 1];
            if t.le(&txn) {
                return v;
            }
            assert(self.versions@.subrange(0, i as int).drop_last() =~= self.versions@.subrange(
                0,
                i - 1,
            ));
            i = i - 1;
        }
        self.canon
    }
}

/// Committing a version at `w.0` leaves what every earlier transaction sees unchanged, and
/// every transaction at or after `w.0` sees it: reads and writes order as their transactions do.
pub proof fn lemma_commit_serializes<T>(canon: T, versions: Seq<(TxnId, T)>, w: (TxnId, T), t: TxnId)
    ensures
        t.spec_lt(&w.0) ==> visible(canon, versions.push(w), t) == visible(canon, versions, t),
        w.0.spec_le(&t) ==> visible(canon, versions.push(w), t) == w.1,
{
    assert(versions.push(w).drop_last() =~= versions);
}

/// While one transaction prepares a version, no other transaction may write, and while a write
/// guard is out not even the same transaction may take a second one; nor may a write land
/// before a transaction that has already read.
pub proof fn lemma_single_writer<T: Copy>(lock: TxnLock<T>, writer: TxnId, other: TxnId)
    requires
        lock.wf(),
    ensures
        lock.writes_at(writer) && other != writer ==> !lock.write_allowed(other),
        lock.spec_writing() ==> !lock.write_allowed(other),
        lock.spec_last_read() matches Some(r) && other.spec_lt(&r) ==> !lock.write_allowed(other),
{
}

/// Reads are repeatable: once a transaction has read, no other transaction can commit a
/// version that it would see. Any write that the lock admits from another transaction comes
/// after every reader, so committing it leaves what the reader sees unchanged.
pub proof fn lemma_repeatable_read<T: Copy>(lock: TxnLock<T>, reader: TxnId, writer: TxnId, value: T)
    requires
        lock.wf(),
        lock.spec_last_read() matches Some(r) && reader.spec_le(&r),
        lock.write_allowed(writer),
        writer != reader,
    ensures
        visible(lock.spec_canon(), lock.spec_versions().push((writer, value)), reader) == visible(
            lock.spec_canon(),
            lock.spec_versions(),
            reader,
        ),
{
    lemma_txn_id_total(reader, writer);
    lemma_commit_serializes(lock.spec_canon(), lock.spec_versions(), (writer, value), reader);
}

/// A transaction as a request sees it: its id, the cluster that owns it (the first to claim
/// it), and the links of the resources that took part, to be committed by the owner.
pub struct Txn {
    id: TxnId,
    owner: Option<Vec<String>>,
    participants: Vec<String>,
}

impl Txn {
    pub closed spec fn spec_id(&self) -> TxnId {
        self.id
    }

    /// The path of the owning cluster, if one has claimed the transaction.
    pub closed spec fn spec_owner(&self) -> Option<Seq<Seq<char>>> {
        match self.owner {
            Some(p) => Some(path_view(p@)),
            None => None,
        }
    }

    /// The participants, in the order they first took part.
    pub closed spec fn spec_participants(&self) -> Seq<Seq<char>> {
        path_view(self.participants@)
    }

    /// A transaction with no owner and no participant yet.
    pub fn new(id: TxnId) -> (r: Txn)
        ensures
            r.spec_id() == id,
            r.spec_owner() is None,
            r.spec_participants() == Seq::<Seq<char>>::empty(),
    {
        let r = Txn { id, owner: None, participants: Vec::new() };
        assert(r.spec_participants() =~= Seq::<Seq<char>>::empty());
        r
    }

    /// The transaction's id.
    pub fn id(&self) -> (r: TxnId)
        ensures
            r == self.spec_id(),
    {
        self.id
    }

    /// The cluster at `path` claims the transaction; only the first claim counts.
    pub fn claim(&mut self, path: &Vec<String>)
        ensures
            final(self).spec_id() == old(self).spec_id(),
            final(self).spec_participants() == old(self).spec_participants(),
            final(self).spec_owner() == match old(self).spec_owner() {
                Some(o) => Some(o),
                None => Some(path_view(path@)),
            },
    {
        if self.owner.is_none() {
            let mut copy: Vec<String> = Vec::new();
            let mut i: usize = 0;
            while i < path.len()
                invariant
                    i <= path@.len(),
                    path_view(copy@) == path_view(path@).take(i as int),
                decreases path@.len() - i,
            {
                let c = path[i].clone();
                let ghost prev = copy@;
                copy.push(c);
                assert(path_view(copy@) =~= path_view(prev).push(c@));
                assert(path_view(copy@) =~= path_view(path@).take(i + 1));
                i = i + 1;
            }
            assert(path_view(path@).take(path@.len() as int) =~= path_view(path@));
            self.owner = Some(copy);
        }
    }

    /// Whether the cluster at `path` owns the transaction.
    pub fn is_owner(&self, path: &Vec<String>) -> (r: bool)
        ensures
            r == (self.spec_owner() == Some(path_view(path@))),
    {
        match &self.owner {
            Some(o) => same_path(o, path),
            None => false,
        }
    }

    /// Records that the resource at `link` took part; a link is recorded once.
    pub fn mutate(&mut self, link: String)
        ensures
            final(self).spec_id() == old(self).spec_id(),
            final(self).spec_owner() == old(self).spec_owner(),
            old(self).spec_participants().contains(link@) ==> final(self).spec_participants()
                == old(self).spec_participants(),
            !old(self).spec_participants().contains(link@) ==> final(self).spec_participants()
                == old(self).spec_participants().push(link@),
    {
        let mut i: usize = 0;
        while i < self.participants.len()
            invariant
                i <= self.participants@.len(),
                forall|j: int| 0 <= j < i ==> self.spec_participants()[j] != link@,
            decreases self.participants@.len() - i,
        {
            if self.participants[i] == link {
                assert(self.spec_participants()[i as int] == link@);
                return;
            }
            i = i + 1;
        }
        let ghost before = self.spec_participants();
        self.participants.push(link);
        assert(self.spec_participants() =~= before.push(link@));
    }

    /// The participants, in the order they first took part.
    pub fn participants(&self) -> (r: &Vec<String>)
        ensures
            path_view(r@) == self.spec_participants(),
    {
        &self.participants
    }
}

} // verus!
