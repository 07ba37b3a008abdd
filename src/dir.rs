use vstd::prelude::*;

use crate::error::{ErrorType, TCError};
use crate::replication::path_view;
use crate::txn::TxnId;

verus! {

/// What an entry of a directory is.
#[derive(Clone, Copy, Debug, PartialEq, Eq, Structural)]
pub enum EntryKind {
    Dir,
    File,
}

/// A path of segments, as plain values.
pub type PathView = Seq<Seq<char>>;

/// The kind of the last entry at `path`, if any.
pub open spec fn lookup(entries: Seq<(PathView, EntryKind)>, path: PathView) -> Option<EntryKind>
    decreases entries.len(),
{
    if entries.len() == 0 {
        None
    } else if entries.last().0 == path {
        Some(entries.last().1)
    } else {
        lookup(entries.drop_last(), path)
    }
}

/// The entries created under `txn`, in order.
pub open spec fn pending_for(pending: Seq<(TxnId, PathView, EntryKind)>, txn: TxnId) -> Seq<(PathView, EntryKind)>
    decreases pending.len(),
{
    if pending.len() == 0 {
        Seq::empty()
    } else if pending.last().0 == txn {
        pending_for(pending.drop_last(), txn).push((pending.last().1, pending.last().2))
    } else {
        pending_for(pending.drop_last(), txn)
    }
}

/// The entries created under transactions other than `txn`, in order.
pub open spec fn pending_except(pending: Seq<(TxnId, PathView, EntryKind)>, txn: TxnId) -> Seq<(TxnId, PathView, EntryKind)>
    decreases pending.len(),
{
    if pending.len() == 0 {
        Seq::empty()
    } else if pending.last().0 == txn {
        pending_except(pending.drop_last(), txn)
    } else {
        pending_except(pending.drop_last(), txn).push(pending.last())
    }
}

/// Every leading run of `path`, up to `m` segments, names a directory.
pub open spec fn dirs_upto(entries: Seq<(PathView, EntryKind)>, path: PathView, m: int) -> bool {
    forall|i: int| 1 <= i <= m ==> lookup(entries, #[trigger] path.take(i)) == Some(EntryKind::Dir)
}

/// No leading run of `path`, up to `m` segments, names a file.
pub open spec fn no_file_upto(entries: Seq<(PathView, EntryKind)>, path: PathView, m: int) -> bool {
    forall|i: int| 1 <= i <= m ==> lookup(entries, #[trigger] path.take(i)) != Some(EntryKind::File)
}

/// `q` is one of the leading runs of `path`, of at most `m` segments.
pub open spec fn on_path(q: PathView, path: PathView, m: int) -> bool {
    1 <= q.len() <= m && q == path.take(q.len() as int)
}

proof fn lemma_lookup_push(entries: Seq<(PathView, EntryKind)>, e: (PathView, EntryKind), path: PathView)
    ensures
        lookup(entries.push(e), path) == if e.0 == path { Some(e.1) } else { lookup(entries, path) },
{
    assert(entries.push(e).drop_last() =~= entries);
}

/// A namespace of directories and files. Entries created under a transaction are seen only
/// by it until it commits.
pub struct Dir {
    entries: Vec<(Vec<String>, EntryKind)>,
    pending: Vec<(TxnId, Vec<String>, EntryKind)>,
}

impl Dir {
    /// The committed entries, as plain values.
    pub closed spec fn committed(&self) -> Seq<(PathView, EntryKind)> {
        self.entries@.map_values(|e: (Vec<String>, EntryKind)| (path_view(e.0@), e.1))
    }

    /// The entries created under a transaction and not yet committed, as plain values.
    pub closed spec fn pending(&self) -> Seq<(TxnId, PathView, EntryKind)> {
        self.pending@.map_values(|e: (TxnId, Vec<String>, EntryKind)| (e.0, path_view(e.1@), e.2))
    }

    /// The entries that `txn` sees: the committed ones, then its own.
    pub open spec fn visible(&self, txn: TxnId) -> Seq<(PathView, EntryKind)> {
        self.committed() + pending_for(self.pending(), txn)
    }

    /// An empty namespace.
    pub fn new() -> (r: Dir)
        ensures
            r.committed() == Seq::<(PathView, EntryKind)>::empty(),
            r.pending() == Seq::<(TxnId, PathView, EntryKind)>::empty(),
    {
        let r = Dir { entries: Vec::new(), pending: Vec::new() };
        assert(r.committed() =~= Seq::<(PathView, EntryKind)>::empty());
        assert(r.pending() =~= Seq::<(TxnId, PathView, EntryKind)>::empty());
        r
    }
}

proof fn lemma_lookup_concat(a: Seq<(PathView, EntryKind)>, b: Seq<(PathView, EntryKind)>, path: PathView)
    ensures
        lookup(a + b, path) == match lookup(b, path) {
            Some(k) => Some(k),
            None => lookup(a, path),
        },
    decreases b.len(),
{
    if b.len() == 0 {
        assert(a + b =~= a);
    } else {
        assert((a + b).drop_last() =~= a + b.drop_last());
        lemma_lookup_concat(a, b.drop_last(), path);
    }
}

fn is_prefix_path(stored: &Vec<String>, path: &Vec<String>, m: usize) -> (r: bool)
    requires
        m <= path@.len(),
    ensures
        r == (path_view(stored@) == path_view(path@).take(m as int)),
{
    if stored.len() != m {
        assert(path_view(stored@).len() != path_view(path@).take(m as int).len());
        return false;
    }
    let mut i: usize = 0;
    while i < m
        invariant
            i <= m,
            m <= path@.len(),
            stored@.len() == m,
            forall|j: int| 0 <= j < i ==> stored@[j]@ == path@[j]@,
        decreases m - i,
    {
        if stored[i] != path[i] {
            assert(path_view(stored@)[i as int] != path_view(path@).take(m as int)[i as int]);
            return false;
        }
        i = i + 1;
    }
    assert(path_view(stored@) =~= path_view(path@).take(m as int));
    true
}

impl Dir {
    fn lookup_prefix(&self, txn: TxnId, path: &Vec<String>, m: usize) -> (r: Option<EntryKind>)
        requires
            m <= path@.len(),
        ensures
            r == lookup(self.visible(txn), path_view(path@).take(m as int)),
    {
        let ghost p = path_view(path@).take(m as int);
        let ghost pv = self.pending();
        proof {
            lemma_lookup_concat(self.committed(), pending_for(pv, txn), p);
        }
        let mut i = self.pending.len();
        assert(pv.subrange(0, i as int) =~= pv);
        while i > 0
            invariant
                i <= pv.len(),
                pv == self.pending(),
                m <= path@.len(),
                p == path_view(path@).take(m as int),
                lookup(pending_for(pv, txn), p) == lookup(pending_for(pv.subrange(0, i as int), txn), p),
                lookup(self.visible(txn), p) == match lookup(pending_for(pv, txn), p) {
                    Some(k) => Some(k),
                    None => lookup(self.committed(), p),
                },
            decreases i,
        {
            let e = &self.pending[i - 1];
            assert(pv[i - 1] == (e.0, path_view(e.1@), e.2));
            assert(pv.subrange(0, i as int).drop_last() =~= pv.subrange(0, i - 1));
            assert(pv.subrange(0, i as int).last() == pv[i - 1]);
            proof {
                lemma_lookup_push(pending_for(pv.subrange(0, i - 1), txn), (pv[i - 1].1, pv[i - 1].2), p);
            }
            if e.0 == txn && is_prefix_path(&e.1, path, m) {
                return Some(e.2);
            }
            i = i - 1;
        }
        assert(pv.subrange(0, 0) =~= Seq::<(TxnId, PathView, EntryKind)>::empty());
        let ghost cv = self.committed();
        let mut k = self.entries.len();
        assert(cv.subrange(0, k as int) =~= cv);
        while k > 0
            invariant
                k <= cv.len(),
                cv == self.committed(),
                m <= path@.len(),
                p == path_view(path@).take(m as int),
                lookup(cv, p) == lookup(cv.subrange(0, k as int), p),
                lookup(self.visible(txn), p) == lookup(cv, p),
            decreases k,
        {
            let e = &self.entries[k - 1];
            assert(cv[k - 1] == (path_view(e.0@), e.1));
            assert(cv.subrange(0, k as int).drop_last() =~= cv.subrange(0, k - 1));
            assert(cv.subrange(0, k as int).last() == cv[k - 1]);
            if is_prefix_path(&e.0, path, m) {
                return Some(e.1);
            }
            k = k - 1;
        }
        None
    }
}

fn prefix_of(path: &Vec<String>, m: usize) -> (r: Vec<String>)
    requires
        m <= path@.len(),
    ensures
        path_view(r@) == path_view(path@).take(m as int),
{
    let mut r: Vec<String> = Vec::new();
    let mut i: usize = 0;
    while i < m
        invariant
            i <= m,
            m <= path@.len(),
            path_view(r@) == path_view(path@).take(i as int),
        decreases m - i,
    {
        let c = path[i].clone();
        let ghost prev = r@;
        r.push(c);
        assert(path_view(r@) =~= path_view(prev).push(c@));
        assert(path_view(r@) =~= path_view(path@).take(i + 1));
        i = i + 1;
    }
    r
}

proof fn lemma_pending_push(pending: Seq<(TxnId, PathView, EntryKind)>, x: (TxnId, PathView, EntryKind), txn: TxnId)
    ensures
        x.0 == txn ==> pending_for(pending.push(x), txn) == pending_for(pending, txn).push((x.1, x.2)),
        x.0 != txn ==> pending_for(pending.push(x), txn) == pending_for(pending, txn),
        x.0 == txn ==> pending_except(pending.push(x), txn) == pending_except(pending, txn),
{
    assert(pending.push(x).drop_last() =~= pending);
}

impl Dir {
    /// Whether `path` names a directory that `txn` sees, and every directory on the way to
    /// it. An empty path, or one that passes through a file, is a bad request; one that
    /// passes through nothing is not found.
    pub fn get_dir(&self, txn: TxnId, path: &Vec<String>) -> (r: Result<(), TCError>)
        ensures
            r is Ok <==> path@.len() > 0 && dirs_upto(self.visible(txn), path_view(path@), path@.len() as int),
            r is Err && path@.len() == 0 ==> r->Err_0.spec_code() == ErrorType::BadRequest,
            r is Err && path@.len() > 0 ==> exists|m: int|
                1 <= m <= path@.len() && dirs_upto(self.visible(txn), path_view(path@), m - 1)
                    && #[trigger] lookup(self.visible(txn), path_view(path@).take(m)) != Some(EntryKind::Dir)
                    && r->Err_0.spec_code() == if lookup(self.visible(txn), path_view(path@).take(m)) is Some {
                        ErrorType::BadRequest
                    } else {
                        ErrorType::NotFound
                    },
    {
        if path.len() == 0 {
            return Err(TCError::bad_request("not a valid directory name", "empty path"));
        }
        let ghost vis = self.visible(txn);
        let ghost pv = path_view(path@);
        let mut i: usize = 0;
        while i < path.len()
            invariant
                i <= path@.len(),
                vis == self.visible(txn),
                pv == path_view(path@),
                dirs_upto(vis, pv, i as int),
            decreases path@.len() - i,
        {
            match self.lookup_prefix(txn, path, i + 1) {
                Some(EntryKind::Dir) => {},
                Some(EntryKind::File) => {
                    assert(lookup(vis, pv.take(i + 1)) != Some(EntryKind::Dir));
                    return Err(TCError::bad_request("not a directory", path[i].as_str()));
                },
                None => {
                    assert(lookup(vis, pv.take(i + 1)) != Some(EntryKind::Dir));
                    return Err(TCError::not_found(path[i].as_str()));
                },
            }
            i = i + 1;
        }
        Ok(())
    }

    fn first_file(&self, txn: TxnId, path: &Vec<String>, upto: usize) -> (r: bool)
        requires
            upto <= path@.len(),
        ensures
            r == !no_file_upto(self.visible(txn), path_view(path@), upto as int),
    {
        let mut i: usize = 0;
        while i < upto
            invariant
                i <= upto,
                upto <= path@.len(),
                no_file_upto(self.visible(txn), path_view(path@), i as int),
            decreases upto - i,
        {
            if self.lookup_prefix(txn, path, i + 1) == Some(EntryKind::File) {
                return true;
            }
            i = i + 1;
        }
        false
    }

    fn make_dirs(&mut self, txn: TxnId, path: &Vec<String>, upto: usize)
        requires
            upto <= path@.len(),
            no_file_upto(old(self).visible(txn), path_view(path@), upto as int),
        ensures
            dirs_upto(final(self).visible(txn), path_view(path@), upto as int),
            no_file_upto(final(self).visible(txn), path_view(path@), path@.len() as int) == no_file_upto(
                old(self).visible(txn),
                path_view(path@),
                path@.len() as int,
            ),
            forall|q: PathView| #![auto] lookup(old(self).visible(txn), q) is Some ==> lookup(final(self).visible(txn), q)
                == lookup(old(self).visible(txn), q),
            forall|q: PathView| #![auto] q.len() > upto ==> lookup(final(self).visible(txn), q)
                == lookup(old(self).visible(txn), q),
            forall|q: PathView| #![auto] !on_path(q, path_view(path@), upto as int) ==> lookup(final(self).visible(txn), q)
                == lookup(old(self).visible(txn), q),
            final(self).committed() == old(self).committed(),
            pending_except(final(self).pending(), txn) == pending_except(old(self).pending(), txn),
    {
        let ghost pv = path_view(path@);
        let ghost vis0 = self.visible(txn);
        let mut i: usize = 0;
        while i < upto
            invariant
                i <= upto,
                upto <= path@.len(),
                pv == path_view(path@),
                dirs_upto(self.visible(txn), pv, i as int),
                forall|k: int| 1 <= k <= path@.len() ==> #[trigger] lookup(self.visible(txn), pv.take(k))
                    != Some(EntryKind::File) || lookup(vis0, pv.take(k)) == Some(EntryKind::File),
                no_file_upto(vis0, pv, upto as int),
                forall|k: int| i < k <= path@.len() ==> #[trigger] lookup(self.visible(txn), pv.take(k))
                    == lookup(vis0, pv.take(k)),
                forall|q: PathView| #![auto] lookup(vis0, q) is Some ==> lookup(self.visible(txn), q) == lookup(vis0, q),
                forall|q: PathView| #![auto] q.len() > upto ==> lookup(self.visible(txn), q) == lookup(vis0, q),
                forall|q: PathView| #![auto] !on_path(q, pv, upto as int) ==> lookup(self.visible(txn), q) == lookup(vis0, q),
                self.committed() == old(self).committed(),
                pending_except(self.pending(), txn) == pending_except(old(self).pending(), txn),
            decreases upto - i,
        {
            let ghost m = i + 1;
            let found = self.lookup_prefix(txn, path, i + 1);
            if found.is_none() {
                let prefix = prefix_of(path, i + 1);
                let ghost before = *self;
                let ghost e = (txn, path_view(prefix@), EntryKind::Dir);
                self.pending.push((txn, prefix, EntryKind::Dir));
                proof {
                    assert(self.pending() =~= before.pending().push(e));
                    lemma_pending_push(before.pending(), e, txn);
                    assert(self.visible(txn) =~= before.visible(txn).push((e.1, e.2)));
                    assert forall|q: PathView| #![auto] true implies lookup(self.visible(txn), q)
                        == if q == pv.take(m) { Some(EntryKind::Dir) } else { lookup(before.visible(txn), q) } by {
                        lemma_lookup_push(before.visible(txn), (e.1, e.2), q);
                    }
                    assert forall|k: int| 1 <= k <= m implies lookup(self.visible(txn), #[trigger] pv.take(k))
                        == Some(EntryKind::Dir) by {
                        lemma_lookup_push(before.visible(txn), (e.1, e.2), pv.take(k));
                        if k < m {
                            assert(pv.take(k).len() != pv.take(m).len());
                        }
                    }
                    assert forall|k: int| 1 <= k <= path@.len() implies #[trigger] lookup(self.visible(txn), pv.take(k))
                        != Some(EntryKind::File) || lookup(vis0, pv.take(k)) == Some(EntryKind::File) by {
                        lemma_lookup_push(before.visible(txn), (e.1, e.2), pv.take(k));
                    }
                    assert forall|k: int| m < k <= path@.len() implies #[trigger] lookup(self.visible(txn), pv.take(k))
                        == lookup(vis0, pv.take(k)) by {
                        lemma_lookup_push(before.visible(txn), (e.1, e.2), pv.take(k));
                        assert(pv.take(k).len() != pv.take(m).len());
                    }
                }
            } else {
                assert(lookup(vis0, pv.take(m)) != Some(EntryKind::File));
                assert(lookup(self.visible(txn), pv.take(m)) == Some(EntryKind::Dir));
            }
            i = i + 1;
        }
    }

    /// Makes sure that `path` and every directory on the way to it exist for `txn`, creating
    /// those that do not. An empty path, or one that passes through a file, is a bad request.
    pub fn get_or_create_dir(&mut self, txn: TxnId, path: &Vec<String>) -> (r: Result<(), TCError>)
        ensures
            r is Ok <==> path@.len() > 0 && no_file_upto(old(self).visible(txn), path_view(path@), path@.len() as int),
            r is Ok ==> dirs_upto(final(self).visible(txn), path_view(path@), path@.len() as int),
            r is Ok ==> forall|q: PathView| #![auto] lookup(old(self).visible(txn), q) is Some ==> lookup(final(self).visible(txn), q)
                == lookup(old(self).visible(txn), q),
            final(self).committed() == old(self).committed(),
            pending_except(final(self).pending(), txn) == pending_except(old(self).pending(), txn),
            r is Err ==> r->Err_0.spec_code() == ErrorType::BadRequest && *final(self) == *old(self),
    {
        if path.len() == 0 {
            return Err(TCError::bad_request("not a valid directory name", "empty path"));
        }
        if self.first_file(txn, path, path.len()) {
            return Err(TCError::bad_request("not a directory", "a file lies on the path"));
        }
        self.make_dirs(txn, path, path.len());
        Ok(())
    }

    /// Creates the directory `path` for `txn`, and the directories on the way to it. An empty
    /// path, one that passes through a file, or one where an entry exists is a bad request.
    pub fn create_dir(&mut self, txn: TxnId, path: &Vec<String>) -> (r: Result<(), TCError>)
        ensures
            r is Ok <==> {
                &&& path@.len() > 0
                &&& no_file_upto(old(self).visible(txn), path_view(path@), path@.len() - 1)
                &&& lookup(old(self).visible(txn), path_view(path@)) is None
            },
            r is Ok ==> dirs_upto(final(self).visible(txn), path_view(path@), path@.len() as int),
            r is Ok ==> forall|q: PathView| #![auto] lookup(old(self).visible(txn), q) is Some ==> lookup(final(self).visible(txn), q)
                == lookup(old(self).visible(txn), q),
            r is Ok ==> forall|q: PathView| #![auto] !on_path(q, path_view(path@), path@.len() as int) ==> lookup(final(self).visible(txn), q)
                == lookup(old(self).visible(txn), q),
            final(self).committed() == old(self).committed(),
            pending_except(final(self).pending(), txn) == pending_except(old(self).pending(), txn),
            r is Err ==> r->Err_0.spec_code() == ErrorType::BadRequest && *final(self) == *old(self),
    {
        let r = self.create_entry(txn, path, EntryKind::Dir);
        proof {
            let pv = path_view(path@);
            assert(pv.take(pv.len() as int) =~= pv);
        }
        r
    }

    /// Creates the file `path` for `txn`, and the directories on the way to it. Creating a
    /// file that exists changes nothing. An empty path, one that passes through a file, or
    /// one where a directory exists is a bad request.
    pub fn create_file(&mut self, txn: TxnId, path: &Vec<String>) -> (r: Result<(), TCError>)
        ensures
            r is Ok <==> {
                &&& path@.len() > 0
                &&& no_file_upto(old(self).visible(txn), path_view(path@), path@.len() - 1)
                &&& lookup(old(self).visible(txn), path_view(path@)) != Some(EntryKind::Dir)
            },
            r is Ok ==> lookup(final(self).visible(txn), path_view(path@)) == Some(EntryKind::File),
            r is Ok && lookup(old(self).visible(txn), path_view(path@)) is None ==> dirs_upto(
                final(self).visible(txn),
                path_view(path@),
                path@.len() - 1,
            ),
            r is Ok && lookup(old(self).visible(txn), path_view(path@)) == Some(EntryKind::File)
                ==> *final(self) == *old(self),
            final(self).committed() == old(self).committed(),
            pending_except(final(self).pending(), txn) == pending_except(old(self).pending(), txn),
            r is Err ==> r->Err_0.spec_code() == ErrorType::BadRequest && *final(self) == *old(self),
    {
        proof {
            let pv = path_view(path@);
            assert(pv.take(pv.len() as int) =~= pv);
        }
        if path.len() > 0 {
            let existing = self.lookup_prefix(txn, path, path.len());
            if let Some(EntryKind::File) = existing {
                if !self.first_file(txn, path, path.len() - 1) {
                    return Ok(());
                }
            }
        }
        self.create_entry(txn, path, EntryKind::File)
    }

    fn create_entry(&mut self, txn: TxnId, path: &Vec<String>, kind: EntryKind) -> (r: Result<(), TCError>)
        ensures
            r is Ok <==> {
                &&& path@.len() > 0
                &&& no_file_upto(old(self).visible(txn), path_view(path@), path@.len() - 1)
                &&& lookup(old(self).visible(txn), path_view(path@)) is None
            },
            r is Ok ==> lookup(final(self).visible(txn), path_view(path@)) == Some(kind)
                && dirs_upto(final(self).visible(txn), path_view(path@), path@.len() - 1),
            r is Ok ==> forall|q: PathView| #![auto] lookup(old(self).visible(txn), q) is Some ==> lookup(final(self).visible(txn), q)
                == lookup(old(self).visible(txn), q),
            r is Ok ==> forall|q: PathView| #![auto] !on_path(q, path_view(path@), path@.len() as int) ==> lookup(final(self).visible(txn), q)
                == lookup(old(self).visible(txn), q),
            final(self).committed() == old(self).committed(),
            pending_except(final(self).pending(), txn) == pending_except(old(self).pending(), txn),
            r is Err ==> r->Err_0.spec_code() == ErrorType::BadRequest && *final(self) == *old(self),
    {
        if path.len() == 0 {
            return Err(TCError::bad_request("not a valid name", "empty path"));
        }
        let n = path.len();
        let ghost pv = path_view(path@);
        assert(pv.take(n as int) =~= pv);
        if self.first_file(txn, path, n - 1) {
            return Err(TCError::bad_request("not a directory", "a file lies on the path"));
        }
        if self.lookup_prefix(txn, path, n).is_some() {
            return Err(TCError::bad_request("an entry exists at this path", path[n - 1].as_str()));
        }
        self.make_dirs(txn, path, n - 1);
        let full = prefix_of(path, n);
        let ghost before = *self;
        let ghost e = (txn, path_view(full@), kind);
        self.pending.push((txn, full, kind));
        proof {
            assert(self.pending() =~= before.pending().push(e));
            lemma_pending_push(before.pending(), e, txn);
            assert(self.visible(txn) =~= before.visible(txn).push((e.1, e.2)));
            lemma_lookup_push(before.visible(txn), (e.1, e.2), pv);
            assert forall|q: PathView| #![auto] true implies lookup(self.visible(txn), q)
                == if q == pv { Some(kind) } else { lookup(before.visible(txn), q) } by {
                lemma_lookup_push(before.visible(txn), (e.1, e.2), q);
            }
            assert forall|q: PathView| #![auto] !on_path(q, pv, n as int) implies lookup(self.visible(txn), q)
                == lookup(old(self).visible(txn), q) by {
                if q != pv {
                    assert(!on_path(q, pv, n - 1));
                } else {
                    assert(on_path(q, pv, n as int));
                }
            }
            assert forall|i: int| 1 <= i <= n - 1 implies lookup(self.visible(txn), #[trigger] pv.take(i)) == Some(EntryKind::Dir) by {
                lemma_lookup_push(before.visible(txn), (e.1, e.2), pv.take(i));
                assert(pv.take(i).len() != pv.len());
            }
        }
        Ok(())
    }

    /// Makes the entries that `txn` created visible to every transaction.
    pub fn commit(&mut self, txn: TxnId)
        ensures
            final(self).committed() == old(self).committed() + pending_for(old(self).pending(), txn),
            final(self).pending() == pending_except(old(self).pending(), txn),
    {
        let ghost c0 = self.committed();
        let ghost pv = self.pending();
        let mut kept: Vec<(TxnId, Vec<String>, EntryKind)> = Vec::new();
        let mut i: usize = 0;
        let n = self.pending.len();
        assert(pv.subrange(0, 0) =~= Seq::<(TxnId, PathView, EntryKind)>::empty());
        assert(self.committed() =~= c0 + pending_for(pv.subrange(0, 0), txn));
        while i < n
            invariant
                i <= n,
                n == self.pending@.len(),
                pv == self.pending(),
                self.committed() == c0 + pending_for(pv.subrange(0, i as int), txn),
                kept@.map_values(|e: (TxnId, Vec<String>, EntryKind)| (e.0, path_view(e.1@), e.2))
                    == pending_except(pv.subrange(0, i as int), txn),
            decreases n - i,
        {
            let e = &self.pending[i];
            let path = e.1.clone();
            assert(pv[i as int] == (e.0, path_view(e.1@), e.2));
            assert(pv.subrange(0, i + 1).drop_last() =~= pv.subrange(0, i as int));
            assert(pv.subrange(0, i + 1).last() == pv[i as int]);
            if e.0 == txn {
                let ghost before = self.committed();
                self.entries.push((path, e.2));
                assert(self.committed() =~= before.push((path_view(e.1@), e.2)));
            } else {
                let ghost before = kept@;
                kept.push((e.0, path, e.2));
                assert(kept@.map_values(|e: (TxnId, Vec<String>, EntryKind)| (e.0, path_view(e.1@), e.2))
                    =~= before.map_values(|e: (TxnId, Vec<String>, EntryKind)| (e.0, path_view(e.1@), e.2)).push(pv[i as int]));
            }
            i = i + 1;
        }
        assert(pv.subrange(0, i as int) =~= pv);
        self.pending = kept;
    }
}

} // verus!
