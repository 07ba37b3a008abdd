use vstd::prelude::*;

use crate::error::{ErrorType, TCError};
use crate::table::{names_of, unique, TableIndex, TableSchema};
use crate::txn::{visible, TxnId, TxnLock};

verus! {

/// The value that `txn` sees in a lock: its own pending version if it writes, else the latest
/// version committed at or before it.
pub open spec fn seen_by(lock: TxnLock<u64>, txn: TxnId) -> u64 {
    if lock.writes_at(txn) {
        lock.spec_pending()->Some_0.1
    } else {
        visible(lock.spec_canon(), lock.spec_versions(), txn)
    }
}

/// A read at `txn` is admitted: `txn` writes the value itself, or nothing refuses the read.
pub open spec fn readable(lock: TxnLock<u64>, txn: TxnId) -> bool {
    lock.writes_at(txn) || !lock.read_conflicts(txn)
}

/// The latest reader of a lock once `txn` has read it.
pub open spec fn read_mark(lock: TxnLock<u64>, txn: TxnId) -> Option<TxnId> {
    if lock.writes_at(txn) {
        lock.spec_last_read()
    } else {
        Some(
            match lock.spec_last_read() {
                Some(l) => if l.spec_lt(&txn) { txn } else { l },
                None => txn,
            },
        )
    }
}

/// A node fits under the id that `txn` sees: ids are not exhausted, the node has one value
/// per column but the id, and no node has that id.
pub open spec fn node_fits(graph: &Graph, txn: TxnId, node: Seq<u64>) -> bool {
    let id = seen_by(graph.spec_max_id(), txn);
    &&& id < u64::MAX
    &&& node.len() + 1 == graph.spec_nodes().width()
    &&& forall|j: int| 0 <= j < graph.spec_nodes().spec_rows().len() ==> (#[trigger] graph.spec_nodes().spec_rows()[j]).take(1) != seq![id]
}

/// A graph's nodes: a table keyed by node id, and the next id to give out.
pub struct Graph {
    nodes: TableIndex,
    max_id: TxnLock<u64>,
}

impl Graph {
    /// The table of nodes.
    pub closed spec fn spec_nodes(&self) -> TableIndex {
        self.nodes
    }

    /// The lock over the next node id.
    pub closed spec fn spec_max_id(&self) -> TxnLock<u64> {
        self.max_id
    }

    pub open spec fn wf(&self) -> bool {
        &&& self.spec_nodes().wf()
        &&& self.spec_max_id().wf()
        &&& self.spec_nodes().key_len() == 1
    }

    /// An empty graph whose nodes have an `id` key column and the given columns. A repeated
    /// column name, `id` included, is a bad request.
    pub fn create(node_columns: &Vec<String>) -> (r: Result<Graph, TCError>)
        requires
            node_columns@.len() + 1 < usize::MAX,
        ensures
            r is Ok <==> unique(seq!["id"@] + names_of(node_columns@)),
            r matches Ok(g) ==> {
                &&& g.wf()
                &&& g.spec_nodes().spec_rows() == Seq::<Seq<u64>>::empty()
                &&& g.spec_nodes().indexes()[0] == seq!["id"@] + names_of(node_columns@)
                &&& g.spec_max_id().spec_canon() == 0
                &&& g.spec_max_id().spec_versions() == Seq::<(TxnId, u64)>::empty()
            },
    {
        let mut key: Vec<String> = Vec::new();
        key.push(String::from_str("id"));
        proof {
            reveal_strlit("id");
        }
        let mut values: Vec<String> = Vec::new();
        let mut i: usize = 0;
        while i < node_columns.len()
            invariant
                i <= node_columns@.len(),
                names_of(values@) == names_of(node_columns@).subrange(0, i as int),
            decreases node_columns@.len() - i,
        {
            let c = node_columns[i].clone();
            let ghost prev = values@;
            values.push(c);
            assert(names_of(values@) =~= names_of(prev).push(c@));
            assert(names_of(values@) =~= names_of(node_columns@).subrange(0, i + 1));
            i = i + 1;
        }
        assert(names_of(node_columns@).subrange(0, i as int) =~= names_of(node_columns@));
        let schema = TableSchema { key, values, indices: Vec::new() };
        assert(names_of(schema.key@) =~= seq!["id"@]);
        assert(schema.indices@.len() == 0);
        let nodes = match TableIndex::create(&schema) {
            Ok(nodes) => nodes,
            Err(e) => {
                return Err(e);
            },
        };
        Ok(Graph { nodes, max_id: TxnLock::new(0) })
    }

    /// Adds a node at `txn` under the next id, which it then advances. Fails with a conflict
    /// where `txn` may not read or write the id, and otherwise with a bad request where the
    /// ids are exhausted, the node has the wrong width, or its id is taken. A failure leaves the nodes
    /// and the id's versions as they were; only the lock's read mark may have moved.
    #[verifier::spinoff_prover]
    pub fn add_node(&mut self, txn: TxnId, node: &Vec<u64>) -> (r: Result<(), TCError>)
        requires
            old(self).wf(),
        ensures
            final(self).wf(),
            r is Ok <==> {
                &&& readable(old(self).spec_max_id(), txn)
                &&& old(self).spec_max_id().write_allowed(txn)
                &&& node_fits(old(self), txn, node@)
            },
            r is Ok ==> {
                let id = seen_by(old(self).spec_max_id(), txn);
                &&& final(self).spec_nodes().spec_rows() == old(self).spec_nodes().spec_rows().push(seq![id] + node@)
                &&& final(self).spec_max_id().spec_pending() == Some((txn, (id + 1) as u64))
                &&& !final(self).spec_max_id().spec_writing()
                &&& final(self).spec_max_id().spec_last_read() == read_mark(old(self).spec_max_id(), txn)
            },
            r is Err ==> {
                &&& final(self).spec_nodes().spec_rows() == old(self).spec_nodes().spec_rows()
                &&& final(self).spec_max_id().spec_pending() == old(self).spec_max_id().spec_pending()
                &&& final(self).spec_max_id().spec_writing() == old(self).spec_max_id().spec_writing()
                &&& (final(self).spec_max_id().spec_last_read() == old(self).spec_max_id().spec_last_read()
                    || final(self).spec_max_id().spec_last_read() == read_mark(old(self).spec_max_id(), txn))
                &&& r->Err_0.spec_code() == if readable(old(self).spec_max_id(), txn)
                    && old(self).spec_max_id().write_allowed(txn) {
                    ErrorType::BadRequest
                } else {
                    ErrorType::Conflict
                }
            },
            final(self).spec_max_id().spec_canon() == old(self).spec_max_id().spec_canon(),
            final(self).spec_max_id().spec_versions() == old(self).spec_max_id().spec_versions(),
            final(self).spec_max_id().spec_finalized() == old(self).spec_max_id().spec_finalized(),
            final(self).spec_nodes().indexes() == old(self).spec_nodes().indexes(),
            final(self).spec_nodes().key_len() == old(self).spec_nodes().key_len(),
    {
        let id = match self.max_id.read(txn) {
            Ok(id) => id,
            Err(e) => {
                return Err(e);
            },
        };
        if !self.max_id.can_write(txn) {
            return Err(TCError::conflict());
        }
        if id == u64::MAX {
            return Err(TCError::bad_request("node ids are exhausted", "id"));
        }
        if node.len() != self.nodes.primary().columns().len() - 1 {
            return Err(TCError::bad_request("node does not match the graph's columns", "width"));
        }
        let mut key: Vec<u64> = Vec::new();
        key.push(id);
        assert(key@ =~= seq![id]);
        match self.nodes.get(&key) {
            Ok(None) => {},
            _ => {
                return Err(TCError::bad_request("node id is taken", "id"));
            },
        }
        match self.max_id.write(txn, id + 1) {
            Ok(()) => {},
            Err(e) => {
                return Err(e);
            },
        }
        let result = self.nodes.insert(&key, node);
        assert(result is Ok);
        self.max_id.release(txn);
        Ok(())
    }

    /// Commits the next id as `txn` left it.
    pub fn commit(&mut self, txn: TxnId)
        requires
            old(self).wf(),
        ensures
            final(self).wf(),
            final(self).spec_nodes().spec_rows() == old(self).spec_nodes().spec_rows(),
            old(self).spec_max_id().writes_at(txn) ==> final(self).spec_max_id().spec_versions()
                == old(self).spec_max_id().spec_versions().push(old(self).spec_max_id().spec_pending()->Some_0),
            !old(self).spec_max_id().writes_at(txn) ==> final(self).spec_max_id().spec_versions()
                == old(self).spec_max_id().spec_versions() && final(self).spec_max_id().spec_pending()
                == old(self).spec_max_id().spec_pending() && final(self).spec_max_id().spec_writing()
                == old(self).spec_max_id().spec_writing(),
            old(self).spec_max_id().writes_at(txn) ==> final(self).spec_max_id().spec_pending() is None
                && !final(self).spec_max_id().spec_writing(),
            final(self).spec_max_id().spec_canon() == old(self).spec_max_id().spec_canon(),
            final(self).spec_max_id().spec_last_read() == old(self).spec_max_id().spec_last_read(),
            final(self).spec_max_id().spec_finalized() == old(self).spec_max_id().spec_finalized(),
            final(self).spec_nodes() == old(self).spec_nodes(),
    {
        self.max_id.commit(txn);
    }

    /// The number of nodes.
    pub fn len(&self) -> (r: usize)
        ensures
            r == self.spec_nodes().spec_rows().len(),
    {
        self.nodes.count()
    }
}

} // verus!
