//! The shared ledger: a table of every accepted transaction, keyed by
//! transaction id. It supports insert-if-absent, point lookup, toggling the
//! disputed flag, and removal — exactly what the dispute lifecycle needs.

use vstd::prelude::*;

use crate::engine::TxId;
use crate::transactions::Transaction;

verus! {

/// No two entries share a transaction id.
pub open spec fn unique_ids(s: Seq<Transaction>) -> bool {
    forall|i: int, j: int| 0 <= i < j < s.len() ==> s[i].id != s[j].id
}

/// The entries as a map from id to transaction. With unique ids, the order
/// of the entries is immaterial.
pub open spec fn map_of(s: Seq<Transaction>) -> Map<TxId, Transaction>
    decreases s.len(),
{
    if s.len() == 0 {
        Map::empty()
    } else {
        map_of(s.drop_last()).insert(s.last().id, s.last())
    }
}

/// If no entry carries the id, the map has no such key.
proof fn lemma_map_of_absent(s: Seq<Transaction>, x: TxId)
    requires
        forall|i: int| 0 <= i < s.len() ==> s[i].id != x,
    ensures
        !map_of(s).contains_key(x),
    decreases s.len(),
{
    if s.len() > 0 {
        lemma_map_of_absent(s.drop_last(), x);
    }
}

/// Each entry is in the map under its id, unchanged.
proof fn lemma_map_of_index(s: Seq<Transaction>, i: int)
    requires
        unique_ids(s),
        0 <= i < s.len(),
    ensures
        map_of(s).contains_key(s[i].id),
        map_of(s)[s[i].id] == s[i],
    decreases s.len(),
{
    if i < s.len() - 1 {
        lemma_map_of_index(s.drop_last(), i);
    }
}

/// Every key of the map is the id of some entry.
proof fn lemma_map_of_dom(s: Seq<Transaction>, x: TxId)
    requires
        map_of(s).contains_key(x),
    ensures
        exists|i: int| 0 <= i < s.len() && (#[trigger] s[i]).id == x,
    decreases s.len(),
{
    if s.len() > 0 && x != s.last().id {
        lemma_map_of_dom(s.drop_last(), x);
        let i = choose|i: int| 0 <= i < s.drop_last().len() && (#[trigger] s.drop_last()[i]).id == x;
        assert(s[i].id == x);
    } else if s.len() > 0 {
        assert(s[s.len() - 1].id == x);
    }
}

/// Removing the entry at one index removes exactly its key.
proof fn lemma_map_of_remove(s: Seq<Transaction>, i: int)
    requires
        unique_ids(s),
        0 <= i < s.len(),
    ensures
        map_of(s.remove(i)) =~= map_of(s).remove(s[i].id),
    decreases s.len(),
{
    if i == s.len() - 1 {
        assert(s.remove(i) =~= s.drop_last());
        lemma_map_of_absent(s.drop_last(), s[i].id);
    } else {
        assert(s.remove(i).drop_last() =~= s.drop_last().remove(i));
        lemma_map_of_remove(s.drop_last(), i);
    }
}

/// The shared transaction ledger.
pub struct Ledger {
    entries: Vec<Transaction>,
}

impl View for Ledger {
    type V = Map<TxId, Transaction>;

    closed spec fn view(&self) -> Map<TxId, Transaction> {
        map_of(self.entries@)
    }
}

impl Ledger {
    /// Internal validity: entry ids are unique.
    pub closed spec fn wf(&self) -> bool {
        unique_ids(self.entries@)
    }

    /// An empty ledger.
    pub fn new() -> (l: Ledger)
        ensures
            l.wf(),
            l@ == Map::<TxId, Transaction>::empty(),
    {
        Ledger { entries: Vec::new() }
    }

    /// The index holding `id`, if any.
    fn find_index(&self, id: TxId) -> (r: Option<usize>)
        ensures
            match r {
                Some(i) => i < self.entries@.len() && self.entries@[i as int].id == id,
                None => forall|i: int| 0 <= i < self.entries@.len() ==> self.entries@[i].id != id,
            },
    {
        let n = self.entries.len();
        for i in 0..n
            invariant
                n == self.entries@.len(),
                forall|j: int| 0 <= j < i ==> self.entries@[j].id != id,
        {
            if self.entries[i].id == id {
                return Some(i);
            }
        }
        None
    }

    /// Whether the ledger holds a transaction with this id.
    pub fn contains(&self, id: TxId) -> (r: bool)
        requires
            self.wf(),
        ensures
            r == self@.contains_key(id),
    {
        match self.find_index(id) {
            Some(i) => {
                proof {
                    lemma_map_of_index(self.entries@, i as int);
                }
                true
            },
            None => {
                proof {
                    lemma_map_of_absent(self.entries@, id);
                }
                false
            },
        }
    }

    /// The transaction stored under `id`, if any.
    pub fn get(&self, id: TxId) -> (r: Option<Transaction>)
        requires
            self.wf(),
        ensures
            r == if self@.contains_key(id) {
                Some(self@[id])
            } else {
                None::<Transaction>
            },
    {
        match self.find_index(id) {
            Some(i) => {
                proof {
                    lemma_map_of_index(self.entries@, i as int);
                }
                Some(self.entries[i])
            },
            None => {
                proof {
                    lemma_map_of_absent(self.entries@, id);
                }
                None
            },
        }
    }

    /// Insert-if-absent: keep the ledger as it was when the id is taken.
    /// Returns whether the transaction went in.
    pub fn insert(&mut self, t: Transaction) -> (r: bool)
        requires
            old(self).wf(),
        ensures
            final(self).wf(),
            r == !old(self)@.contains_key(t.id),
            final(self)@ == if r {
                old(self)@.insert(t.id, t)
            } else {
                old(self)@
            },
    {
        match self.find_index(t.id) {
            Some(i) => {
                proof {
                    lemma_map_of_index(self.entries@, i as int);
                }
                false
            },
            None => {
                proof {
                    lemma_map_of_absent(self.entries@, t.id);
                }
                self.entries.push(t);
                proof {
                    assert(self.entries@.drop_last() =~= old(self).entries@);
                }
                true
            },
        }
    }

    /// Overwrite the disputed flag of the entry stored under `id`.
    pub fn set_disputed(&mut self, id: TxId, disputed: bool)
        requires
            old(self).wf(),
            old(self)@.contains_key(id),
        ensures
            final(self).wf(),
            final(self)@ == old(self)@.insert(
                id,
                (Transaction { is_disputed: disputed, ..old(self)@[id] }),
            ),
    {
        proof {
            lemma_map_of_dom(self.entries@, id);
        }
        if let Some(i) = self.find_index(id) {
            proof {
                lemma_map_of_index(self.entries@, i as int);
                lemma_map_of_remove(self.entries@, i as int);
            }
            let mut t = self.entries.remove(i);
            t.is_disputed = disputed;
            let ghost removed = self.entries@;
            self.entries.push(t);
            proof {
                assert(self.entries@.drop_last() =~= removed);
                assert(self@ =~= old(self)@.insert(
                    id,
                    (Transaction { is_disputed: disputed, ..old(self)@[id] }),
                ));
            }
        }
    }

    /// Remove the entry stored under `id`; absent ids are a no-op.
    pub fn remove(&mut self, id: TxId)
        requires
            old(self).wf(),
        ensures
            final(self).wf(),
            final(self)@ == old(self)@.remove(id),
    {
        match self.find_index(id) {
            Some(i) => {
                proof {
                    lemma_map_of_index(self.entries@, i as int);
                    lemma_map_of_remove(self.entries@, i as int);
                }
                self.entries.remove(i);
            },
            None => {
                proof {
                    lemma_map_of_absent(self.entries@, id);
                    assert(old(self)@.remove(id) =~= old(self)@);
                }
            },
        }
    }
}

} // verus!
