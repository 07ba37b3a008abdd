use vstd::prelude::*;
use vstd::string::StringExecFns;

use crate::error::{ErrorType, TCError};

verus! {

/// What one replica answered to a replicated write, in the order the answers arrived.
#[derive(Clone, Copy, Debug)]
pub struct Arrival {
    /// The replica's position in the replica set.
    pub replica: usize,
    /// `None` on success, else the kind of error that the replica returned.
    pub error: Option<ErrorType>,
}

/// The fate of a fan-out, as far as the answers seen so far decide it.
pub enum Progress {
    /// Undecided, with this many non-conflict failures seen.
    Running(nat),
    /// A replica reported a conflict: the answer at this position ends the write.
    Conflict(int),
    /// Too many replicas failed: the answer at this position ends the write with its error.
    QuorumLost(int),
}

/// The most failures that a write over `n` replicas tolerates.
pub open spec fn max_failures(n: nat) -> nat {
    n / 2
}

/// The state of a fan-out that tolerates `max` failures, after the first `k` answers.
pub open spec fn progress(max: nat, arrivals: Seq<Arrival>, k: nat) -> Progress
    decreases k,
{
    if k == 0 {
        Progress::Running(0)
    } else {
        let prev = progress(max, arrivals, (k - 1) as nat);
        match prev {
            Progress::Running(f) => match arrivals[k - 1].error {
                None => Progress::Running(f),
                Some(ErrorType::Conflict) => Progress::Conflict(k - 1),
                Some(_) => if f + 1 > max {
                    Progress::QuorumLost(k - 1)
                } else {
                    Progress::Running(f + 1)
                },
            },
            _ => prev,
        }
    }
}

/// The replicas among the first `k` answers that succeeded, in arrival order.
pub open spec fn succeeded_of(arrivals: Seq<Arrival>, k: nat) -> Seq<usize>
    decreases k,
{
    if k == 0 {
        Seq::empty()
    } else if arrivals[k - 1].error is None {
        succeeded_of(arrivals, (k - 1) as nat).push(arrivals[k - 1].replica)
    } else {
        succeeded_of(arrivals, (k - 1) as nat)
    }
}

/// The replicas among the first `k` answers that failed, in arrival order.
pub open spec fn failed_of(arrivals: Seq<Arrival>, k: nat) -> Seq<usize>
    decreases k,
{
    if k == 0 {
        Seq::empty()
    } else if arrivals[k - 1].error is Some {
        failed_of(arrivals, (k - 1) as nat).push(arrivals[k - 1].replica)
    } else {
        failed_of(arrivals, (k - 1) as nat)
    }
}

/// What the owner of a transaction does after one more answer of a replicated write.
#[derive(Clone, Copy, Debug, PartialEq, Eq, Structural)]
pub enum Step {
    /// Wait for the next answer.
    Continue,
    /// Abort the transaction with the conflict that this answer carries.
    Conflict,
    /// Fail the write with the error that this answer carries.
    QuorumLost,
}

/// How a whole replicated write ended.
#[derive(Debug)]
pub enum WriteOutcome {
    /// The answer at this position was a conflict.
    Conflict(usize),
    /// The answer at this position was the failure that lost the quorum.
    QuorumLost(usize),
    /// The write succeeded: every replica in `succeeded` is then told to drop those in `failed`.
    Replicated { succeeded: Vec<usize>, failed: Vec<usize> },
}

/// The bookkeeping of a write fanned out to a set of replicas.
pub struct FanOut {
    replicas: usize,
    succeeded: Vec<usize>,
    failed: Vec<usize>,
    seen: Ghost<Seq<Arrival>>,
}

impl FanOut {
    /// The answers observed so far.
    pub closed spec fn arrivals(&self) -> Seq<Arrival> {
        self.seen@
    }

    /// The size of the replica set.
    pub closed spec fn replica_count(&self) -> nat {
        self.replicas as nat
    }

    /// The replicas that succeeded so far, in arrival order.
    pub closed spec fn spec_succeeded(&self) -> Seq<usize> {
        self.succeeded@
    }

    /// The replicas that failed so far, in arrival order.
    pub closed spec fn spec_failed(&self) -> Seq<usize> {
        self.failed@
    }

    /// Every answer seen so far left the write undecided.
    pub closed spec fn wf(&self) -> bool {
        &&& progress(max_failures(self.replicas as nat), self.seen@, self.seen@.len())
            == Progress::Running(self.failed@.len())
        &&& self.succeeded@ == succeeded_of(self.seen@, self.seen@.len())
        &&& self.failed@ == failed_of(self.seen@, self.seen@.len())
        &&& self.succeeded@.len() + self.failed@.len() == self.seen@.len()
    }

    /// Starts the bookkeeping of a write to `replicas` replicas.
    pub fn new(replicas: usize) -> (r: FanOut)
        ensures
            r.wf(),
            r.replica_count() == replicas,
            r.arrivals() == Seq::<Arrival>::empty(),
    {
        FanOut { replicas, succeeded: Vec::new(), failed: Vec::new(), seen: Ghost(Seq::empty()) }
    }

    /// Records one more answer and says what to do next. After `Conflict` or `QuorumLost`
    /// the write is over and nothing more may be observed.
    pub fn observe(&mut self, arrival: Arrival) -> (r: Step)
        requires
            old(self).wf(),
            old(self).arrivals().len() < usize::MAX,
        ensures
            final(self).arrivals() == old(self).arrivals().push(arrival),
            final(self).replica_count() == old(self).replica_count(),
            r == Step::Continue ==> final(self).wf(),
            (r == Step::Continue) == (progress(
                max_failures(old(self).replica_count()),
                final(self).arrivals(),
                final(self).arrivals().len(),
            ) is Running),
            (r == Step::Conflict) == (progress(
                max_failures(old(self).replica_count()),
                final(self).arrivals(),
                final(self).arrivals().len(),
            ) is Conflict),
            (r == Step::QuorumLost) == (progress(
                max_failures(old(self).replica_count()),
                final(self).arrivals(),
                final(self).arrivals().len(),
            ) is QuorumLost),
    {
        let ghost prev = self.seen@;
        proof {
            self.seen = Ghost(prev.push(arrival));
        }
        let ghost s = self.seen@;
        assert(s.subrange(0, prev.len() as int) =~= prev);
        assert(prev.subrange(0, prev.len() as int) =~= prev);
        proof {
            lemma_progress_prefix(max_failures(self.replicas as nat), prev, s, prev.len());
            lemma_lists_prefix(prev, s, prev.len());
        }
        match arrival.error {
            None => {
                self.succeeded.push(arrival.replica);
                Step::Continue
            },
            Some(ErrorType::Conflict) => Step::Conflict,
            Some(_) => {
                if self.failed.len() + 1 > self.replicas / 2 {
                    Step::QuorumLost
                } else {
                    self.failed.push(arrival.replica);
                    Step::Continue
                }
            },
        }
    }

    /// The replicas that succeeded, in arrival order.
    pub fn succeeded(&self) -> (r: &Vec<usize>)
        ensures
            r@ == self.spec_succeeded(),
    {
        &self.succeeded
    }

    /// The replicas that failed, in arrival order.
    pub fn failed(&self) -> (r: &Vec<usize>)
        ensures
            r@ == self.spec_failed(),
    {
        &self.failed
    }
}

/// Runs the bookkeeping over answers that arrive in the order given: the write ends at the
/// first conflict, or at the failure that exceeds half the replica set, and succeeds otherwise.
pub fn replicate_write(replicas: usize, arrivals: &Vec<Arrival>) -> (r: WriteOutcome)
    ensures
        match r {
            WriteOutcome::Conflict(p) => progress(max_failures(replicas as nat), arrivals@, arrivals@.len())
                == Progress::Conflict(p as int),
            WriteOutcome::QuorumLost(p) => progress(max_failures(replicas as nat), arrivals@, arrivals@.len())
                == Progress::QuorumLost(p as int),
            WriteOutcome::Replicated { succeeded, failed } => {
                &&& progress(max_failures(replicas as nat), arrivals@, arrivals@.len()) is Running
                &&& succeeded@ == succeeded_of(arrivals@, arrivals@.len())
                &&& failed@ == failed_of(arrivals@, arrivals@.len())
            },
        },
{
    let ghost tolerated = max_failures(replicas as nat);
    let mut fan = FanOut::new(replicas);
    let mut i: usize = 0;
    while i < arrivals.len()
        invariant
            i <= arrivals.len(),
            fan.wf(),
            fan.replica_count() == replicas,
            tolerated == max_failures(replicas as nat),
            fan.arrivals() == arrivals@.subrange(0, i as int),
        decreases arrivals.len() - i,
    {
        let ghost before = fan.arrivals();
        proof {
            assert(before.subrange(0, i as int) =~= before);
            assert(arrivals@.subrange(0, i as int) =~= before);
            lemma_progress_prefix(tolerated, before, arrivals@, i as nat);
        }
        let step = fan.observe(arrivals[i]);
        let ghost seen = fan.arrivals();
        assert(seen =~= arrivals@.subrange(0, i + 1));
        proof {
            assert(seen.subrange(0, i + 1) =~= seen);
            lemma_progress_prefix(tolerated, seen, arrivals@, (i + 1) as nat);
            assert(progress(tolerated, arrivals@, (i + 1) as nat) == progress(tolerated, seen, seen.len()));
            if step != Step::Continue {
                lemma_progress_stays(tolerated, arrivals@, (i + 1) as nat, arrivals@.len());
            }
        }
        if step == Step::Conflict {
            return WriteOutcome::Conflict(i);
        }
        if step == Step::QuorumLost {
            return WriteOutcome::QuorumLost(i);
        }
        i = i + 1;
    }
    assert(fan.arrivals() =~= arrivals@);
    WriteOutcome::Replicated { succeeded: fan.succeeded().clone(), failed: fan.failed().clone() }
}

proof fn lemma_progress_stays(max: nat, a: Seq<Arrival>, k: nat, n: nat)
    requires
        k <= n,
        !(progress(max, a, k) is Running),
    ensures
        progress(max, a, n) == progress(max, a, k),
    decreases n - k,
{
    if k < n {
        lemma_progress_stays(max, a, k, (n - 1) as nat);
    }
}

proof fn lemma_counts(a: Seq<Arrival>, k: nat)
    ensures
        succeeded_of(a, k).len() + failed_of(a, k).len() == k,
    decreases k,
{
    if k > 0 {
        lemma_counts(a, (k - 1) as nat);
    }
}

/// No answer among the first `k` is a conflict.
pub open spec fn conflict_free(a: Seq<Arrival>, k: nat) -> bool {
    forall|i: int| 0 <= i < k ==> a[i].error != Some(ErrorType::Conflict)
}

proof fn lemma_no_conflict(max: nat, a: Seq<Arrival>, k: nat)
    requires
        k <= a.len(),
        conflict_free(a, k),
    ensures
        failed_of(a, k).len() <= max ==> progress(max, a, k) == Progress::Running(
            failed_of(a, k).len(),
        ),
        failed_of(a, k).len() > max ==> exists|p: int|
            0 <= p < k && progress(max, a, k) == Progress::QuorumLost(p) && a[p].error is Some
                && failed_of(a, (p + 1) as nat).len() == max + 1,
    decreases k,
{
    if k > 0 {
        let j = (k - 1) as nat;
        lemma_no_conflict(max, a, j);
        if failed_of(a, j).len() > max {
            let p = choose|p: int|
                0 <= p < j && progress(max, a, j) == Progress::QuorumLost(p) && a[p].error is Some
                    && failed_of(a, (p + 1) as nat).len() == max + 1;
            assert(progress(max, a, k) == Progress::QuorumLost(p));
        } else if failed_of(a, k).len() > max {
            assert(progress(max, a, k) == Progress::QuorumLost(j as int));
        }
    }
}

/// A write whose answers hold no conflict and succeed on at least half of the `n` replicas,
/// rounded up, succeeds.
pub proof fn lemma_quorum_reached(n: nat, arrivals: Seq<Arrival>)
    requires
        arrivals.len() == n,
        conflict_free(arrivals, n),
        succeeded_of(arrivals, n).len() >= (n + 1) / 2,
    ensures
        progress(max_failures(n), arrivals, n) is Running,
{
    lemma_counts(arrivals, n);
    lemma_no_conflict(max_failures(n), arrivals, n);
}

/// A write in which more than half of the replica set fails, with no conflict before that
/// failure, ends with the error of the failure that went past that half, whatever answers
/// come after it.
pub proof fn lemma_quorum_lost(n: nat, arrivals: Seq<Arrival>, q: nat)
    requires
        q <= arrivals.len(),
        conflict_free(arrivals, q),
        failed_of(arrivals, q).len() > max_failures(n),
    ensures
        exists|p: int|
            0 <= p < q && progress(max_failures(n), arrivals, arrivals.len())
                == Progress::QuorumLost(p) && arrivals[p].error is Some
                && failed_of(arrivals, (p + 1) as nat).len() == max_failures(n) + 1,
{
    lemma_no_conflict(max_failures(n), arrivals, q);
    lemma_progress_stays(max_failures(n), arrivals, q, arrivals.len());
}

/// A conflict that arrives while the quorum still holds ends the write with that conflict,
/// whatever answers come after it.
pub proof fn lemma_conflict_ends_write(n: nat, arrivals: Seq<Arrival>, p: nat)
    requires
        p < arrivals.len(),
        arrivals[p as int].error == Some(ErrorType::Conflict),
        conflict_free(arrivals, p),
        failed_of(arrivals, p).len() <= max_failures(n),
    ensures
        progress(max_failures(n), arrivals, arrivals.len()) == Progress::Conflict(p as int),
{
    lemma_no_conflict(max_failures(n), arrivals, p);
    assert(progress(max_failures(n), arrivals, p + 1) == Progress::Conflict(p as int));
    lemma_progress_stays(max_failures(n), arrivals, p + 1, arrivals.len());
}

proof fn lemma_progress_prefix(max: nat, a: Seq<Arrival>, b: Seq<Arrival>, k: nat)
    requires
        k <= a.len(),
        k <= b.len(),
        a.subrange(0, k as int) == b.subrange(0, k as int),
    ensures
        progress(max, a, k) == progress(max, b, k),
    decreases k,
{
    if k > 0 {
        assert(a.subrange(0, k - 1) =~= a.subrange(0, k as int).subrange(0, k - 1));
        assert(b.subrange(0, k - 1) =~= b.subrange(0, k as int).subrange(0, k - 1));
        assert(a[k - 1] == a.subrange(0, k as int)[k - 1]);
        assert(b[k - 1] == b.subrange(0, k as int)[k - 1]);
        lemma_progress_prefix(max, a, b, (k - 1) as nat);
    }
}

proof fn lemma_lists_prefix(a: Seq<Arrival>, b: Seq<Arrival>, k: nat)
    requires
        k <= a.len(),
        k <= b.len(),
        a.subrange(0, k as int) == b.subrange(0, k as int),
    ensures
        succeeded_of(a, k) == succeeded_of(b, k),
        failed_of(a, k) == failed_of(b, k),
    decreases k,
{
    if k > 0 {
        assert(a.subrange(0, k - 1) =~= a.subrange(0, k as int).subrange(0, k - 1));
        assert(b.subrange(0, k - 1) =~= b.subrange(0, k as int).subrange(0, k - 1));
        assert(a[k - 1] == a.subrange(0, k as int)[k - 1]);
        assert(b[k - 1] == b.subrange(0, k as int)[k - 1]);
        lemma_lists_prefix(a, b, (k - 1) as nat);
    }
}

/// Where a read at a cluster goes.
#[derive(Clone, Copy, Debug, PartialEq, Eq, Structural)]
pub enum ReadRoute {
    /// Served by this cluster's own handler.
    Local,
    /// Forwarded to the transaction's owner, which holds the cluster's latest writes.
    Owner,
}

/// The segments of a path as plain values.
pub open spec fn path_view(path: Seq<String>) -> Seq<Seq<char>> {
    path.map_values(|s: String| s@)
}

pub(crate) fn same_path(a: &Vec<String>, b: &Vec<String>) -> (r: bool)
    ensures
        r == (path_view(a@) == path_view(b@)),
{
    if a.len() != b.len() {
        return false;
    }
    let mut i: usize = 0;
    while i < a.len()
        invariant
            i <= a@.len(),
            a@.len() == b@.len(),
            forall|j: int| 0 <= j < i ==> a@[j]@ == b@[j]@,
        decreases a@.len() - i,
    {
        if a[i] != b[i] {
            assert(path_view(a@)[i as int] != path_view(b@)[i as int]);
            return false;
        }
        i = i + 1;
    }
    assert(path_view(a@) =~= path_view(b@));
    true
}

/// Routes a read at the cluster at `cluster_path`: the owner of the transaction serves it
/// itself; another member forwards it to the owner where the owner is this same cluster
/// elsewhere, and serves it itself otherwise.
pub fn route_read(is_owner: bool, owner_path: Option<&Vec<String>>, cluster_path: &Vec<String>) -> (r: ReadRoute)
    ensures
        r == ReadRoute::Owner <==> !is_owner && owner_path is Some && path_view(owner_path->Some_0@)
            == path_view(cluster_path@),
{
    if is_owner {
        return ReadRoute::Local;
    }
    match owner_path {
        Some(p) => if same_path(p, cluster_path) {
            ReadRoute::Owner
        } else {
            ReadRoute::Local
        },
        None => ReadRoute::Local,
    }
}

/// The members other than `name`, in their order.
pub open spec fn drop_member(members: Seq<Seq<char>>, name: Seq<char>) -> Seq<Seq<char>>
    decreases members.len(),
{
    if members.len() == 0 {
        Seq::empty()
    } else if members.last() == name {
        drop_member(members.drop_last(), name)
    } else {
        drop_member(members.drop_last(), name).push(members.last())
    }
}

proof fn lemma_drop_member(members: Seq<Seq<char>>, name: Seq<char>)
    ensures
        forall|x: Seq<char>|
            #![trigger drop_member(members, name).contains(x)]
            #![trigger members.contains(x)]
            drop_member(members, name).contains(x) <==> (members.contains(x) && x != name),
        members.no_duplicates() ==> drop_member(members, name).no_duplicates(),
    decreases members.len(),
{
    if members.len() > 0 {
        let d = members.drop_last();
        lemma_drop_member(d, name);
        let r = drop_member(members, name);
        let p = drop_member(d, name);
        assert forall|x: Seq<char>| r.contains(x) <==> (members.contains(x) && x != name) by {
            if members.contains(x) && x != name {
                let i = choose|i: int| 0 <= i < members.len() && members[i] == x;
                if members.last() == name {
                    assert(r == p);
                } else {
                    assert(r == p.push(members.last()));
                }
                if i < d.len() {
                    assert(d[i] == x);
                    assert(d.contains(x));
                    assert(p.contains(x));
                    let k = choose|k: int| 0 <= k < p.len() && p[k] == x;
                    assert(r[k] == p[k]);
                } else {
                    assert(r[r.len() - 1] == x);
                }
            }
            if r.contains(x) {
                let i = choose|i: int| 0 <= i < r.len() && r[i] == x;
                if members.last() == name {
                    assert(r == p);
                } else {
                    assert(r == p.push(members.last()));
                }
                if i < p.len() {
                    assert(r[i] == p[i]);
                    assert(p[i] == x);
                    assert(p.contains(x));
                    assert(d.contains(x) && x != name);
                    let k = choose|k: int| 0 <= k < d.len() && d[k] == x;
                    assert(members[k] == d[k]);
                    assert(members.contains(x));
                } else {
                    assert(members.last() != name);
                    assert(r[i] == members.last());
                    assert(members[members.len() - 1] == x);
                }
            }
        }
        if members.no_duplicates() {
            assert(d.no_duplicates()) by {
                assert forall|i: int, j: int| 0 <= i < d.len() && 0 <= j < d.len() && i != j implies d[i] != d[j] by {
                    assert(d[i] == members[i] && d[j] == members[j]);
                }
            }
            if members.last() != name {
                assert(!d.contains(members.last())) by {
                    if d.contains(members.last()) {
                        let k = choose|k: int| 0 <= k < d.len() && d[k] == members.last();
                        assert(members[k] == members[members.len() - 1]);
                    }
                }
                assert(!p.contains(members.last()));
                assert forall|i: int, j: int| 0 <= i < r.len() && 0 <= j < r.len() && i != j implies r[i] != r[j] by {
                    if i < p.len() && j < p.len() {
                        assert(r[i] == p[i] && r[j] == p[j]);
                    } else if i < p.len() {
                        assert(r[i] == p[i]);
                        assert(p.contains(p[i]));
                    } else {
                        assert(r[j] == p[j]);
                        assert(p.contains(p[j]));
                    }
                }
            }
        }
    }
}

/// The replicas of a cluster: the links of its members, this host's own among them, each once.
pub struct ReplicaSet {
    own: String,
    links: Vec<String>,
}

impl ReplicaSet {
    /// This host's own link.
    pub closed spec fn spec_own(&self) -> Seq<char> {
        self.own@
    }

    /// The links of the members, in the order they joined.
    pub closed spec fn members(&self) -> Seq<Seq<char>> {
        path_view(self.links@)
    }

    /// The set is never empty: it holds this host, and no link twice.
    pub open spec fn wf(&self) -> bool {
        &&& self.members().contains(self.spec_own())
        &&& self.members().no_duplicates()
    }

    /// The replica set of a host alone.
    pub fn new(own: String) -> (r: ReplicaSet)
        ensures
            r.wf(),
            r.spec_own() == own@,
            r.members() == seq![own@],
    {
        let first = own.clone();
        let mut links: Vec<String> = Vec::new();
        links.push(first);
        let r = ReplicaSet { own, links };
        assert(r.members() =~= seq![own@]);
        assert(r.members()[0] == own@);
        r
    }

    fn position(&self, link: &String) -> (r: Option<usize>)
        ensures
            match r {
                Some(i) => i < self.members().len() && self.members()[i as int] == link@,
                None => !self.members().contains(link@),
            },
    {
        let mut i: usize = 0;
        while i < self.links.len()
            invariant
                i <= self.links@.len(),
                forall|j: int| 0 <= j < i ==> self.members()[j] != link@,
            decreases self.links@.len() - i,
        {
            if self.links[i] == *link {
                return Some(i);
            }
            i = i + 1;
        }
        None
    }

    /// Adds a member; a link that is already a member is left as it is.
    pub fn add(&mut self, link: String)
        requires
            old(self).wf(),
        ensures
            final(self).wf(),
            final(self).spec_own() == old(self).spec_own(),
            old(self).members().contains(link@) ==> final(self).members() == old(self).members(),
            !old(self).members().contains(link@) ==> final(self).members() == old(self).members().push(link@),
    {
        if self.position(&link).is_some() {
            return;
        }
        let ghost before = self.members();
        self.links.push(link);
        proof {
            assert(self.members() =~= before.push(link@));
            assert(before.contains(self.own@));
            let k = choose|k: int| 0 <= k < before.len() && before[k] == self.own@;
            assert(self.members()[k] == self.own@);
            assert forall|i: int, j: int| 0 <= i < self.members().len() && 0 <= j < self.members().len() && i != j
                implies self.members()[i] != self.members()[j] by {
                if i < before.len() && j < before.len() {
                    assert(self.members()[i] == before[i] && self.members()[j] == before[j]);
                } else if i < before.len() {
                    assert(self.members()[i] == before[i]);
                    assert(before.contains(before[i]));
                } else {
                    assert(self.members()[j] == before[j]);
                    assert(before.contains(before[j]));
                }
            }
        }
    }

    /// Removes a member. This host cannot remove itself: that is a bad request.
    pub fn remove(&mut self, link: &String) -> (r: Result<(), TCError>)
        requires
            old(self).wf(),
        ensures
            final(self).wf(),
            final(self).spec_own() == old(self).spec_own(),
            r is Ok <==> link@ != old(self).spec_own(),
            r is Ok ==> final(self).members() == drop_member(old(self).members(), link@),
            r is Err ==> r->Err_0.spec_code() == ErrorType::BadRequest && final(self).members()
                == old(self).members(),
    {
        if *link == self.own {
            return Err(TCError::bad_request("a host cannot remove itself from its replicas", link.as_str()));
        }
        let ghost ms = self.members();
        let mut kept: Vec<String> = Vec::new();
        let mut i: usize = 0;
        while i < self.links.len()
            invariant
                i <= ms.len(),
                ms == self.members(),
                path_view(kept@) == drop_member(ms.subrange(0, i as int), link@),
            decreases ms.len() - i,
        {
            assert(ms.subrange(0, i + 1).drop_last() =~= ms.subrange(0, i as int));
            assert(ms[i as int] == self.links@[i as int]@);
            if self.links[i] != *link {
                let c = self.links[i].clone();
                let ghost prev = kept@;
                kept.push(c);
                assert(path_view(kept@) =~= path_view(prev).push(c@));
            }
            i = i + 1;
        }
        assert(ms.subrange(0, i as int) =~= ms);
        self.links = kept;
        proof {
            lemma_drop_member(ms, link@);
            assert(ms.contains(self.own@));
        }
        Ok(())
    }

    /// The links of the members, in the order they joined.
    pub fn links(&self) -> (r: &Vec<String>)
        ensures
            path_view(r@) == self.members(),
    {
        &self.links
    }
}

/// Which handler of a cluster serves a path below it.
#[derive(Clone, Copy, Debug, PartialEq, Eq, Structural)]
pub enum ClusterRoute {
    /// The cluster itself.
    Cluster,
    /// The chain at this position among the cluster's chains, for the rest of the path.
    Chain(usize),
    /// The class at this position among the cluster's classes, for the rest of the path.
    Class(usize),
    Authorize,
    Grant,
    Install,
    Replicas,
    /// Nothing serves the path.
    NotFound,
}

/// The first position of `name` among `names`, if any.
pub open spec fn first_index(names: Seq<Seq<char>>, name: Seq<char>) -> Option<int> {
    if exists|i: int| 0 <= i < names.len() && names[i] == name {
        Some(choose|i: int| 0 <= i < names.len() && names[i] == name && forall|j: int| 0 <= j < i ==> names[j] != name)
    } else {
        None
    }
}

/// Which handler serves `path` below a cluster with the named chains and classes: the
/// cluster for the empty path; else the chain, or failing that the class, that the first
/// segment names; else, for a single segment, one of the cluster's own endpoints.
pub open spec fn cluster_route(path: Seq<Seq<char>>, chains: Seq<Seq<char>>, classes: Seq<Seq<char>>) -> ClusterRoute {
    if path.len() == 0 {
        ClusterRoute::Cluster
    } else if first_index(chains, path[0]) is Some {
        ClusterRoute::Chain(first_index(chains, path[0])->Some_0 as usize)
    } else if first_index(classes, path[0]) is Some {
        ClusterRoute::Class(first_index(classes, path[0])->Some_0 as usize)
    } else if path.len() == 1 && path[0] == "authorize"@ {
        ClusterRoute::Authorize
    } else if path.len() == 1 && path[0] == "grant"@ {
        ClusterRoute::Grant
    } else if path.len() == 1 && path[0] == "install"@ {
        ClusterRoute::Install
    } else if path.len() == 1 && path[0] == "replicas"@ {
        ClusterRoute::Replicas
    } else {
        ClusterRoute::NotFound
    }
}

fn find_name(names: &Vec<String>, name: &String) -> (r: Option<usize>)
    ensures
        match r {
            Some(i) => first_index(path_view(names@), name@) == Some(i as int),
            None => first_index(path_view(names@), name@) is None,
        },
{
    let ghost ns = path_view(names@);
    let mut i: usize = 0;
    while i < names.len()
        invariant
            i <= names@.len(),
            ns == path_view(names@),
            forall|j: int| 0 <= j < i ==> ns[j] != name@,
        decreases names@.len() - i,
    {
        if names[i] == *name {
            assert(ns[i as int] == name@);
            let ghost k = choose|k: int| 0 <= k < ns.len() && ns[k] == name@ && forall|j: int| 0 <= j < k ==> ns[j] != name@;
            assert(k == i) by {
                if k < i {
                    assert(ns[k] != name@);
                } else if k > i {
                    assert(ns[i as int] != name@);
                }
            }
            return Some(i);
        }
        i = i + 1;
    }
    None
}

/// Routes a path below a cluster (see `cluster_route`).
pub fn route_cluster(path: &Vec<String>, chains: &Vec<String>, classes: &Vec<String>) -> (r: ClusterRoute)
    ensures
        r == cluster_route(path_view(path@), path_view(chains@), path_view(classes@)),
{
    proof {
        reveal_strlit("authorize");
        reveal_strlit("grant");
        reveal_strlit("install");
        reveal_strlit("replicas");
    }
    if path.len() == 0 {
        return ClusterRoute::Cluster;
    }
    assert(path_view(path@)[0] == path@[0]@);
    if let Some(i) = find_name(chains, &path[0]) {
        return ClusterRoute::Chain(i);
    }
    if let Some(i) = find_name(classes, &path[0]) {
        return ClusterRoute::Class(i);
    }
    if path.len() == 1 {
        if path[0] == String::from_str("authorize") {
            return ClusterRoute::Authorize;
        }
        if path[0] == String::from_str("grant") {
            return ClusterRoute::Grant;
        }
        if path[0] == String::from_str("install") {
            return ClusterRoute::Install;
        }
        if path[0] == String::from_str("replicas") {
            return ClusterRoute::Replicas;
        }
    }
    ClusterRoute::NotFound
}

} // verus!
