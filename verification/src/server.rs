use vstd::prelude::*;

use std::sync::Arc;

use chashmap::CHashMap;
use syncbox::LinkedQueue;

use crate::action::{apply_all, Action, ActionModel};
use crate::codec::{acts_model, dec_snapshot, decode_snapshot, encode_snapshot, entries_model};
use crate::laws::{entries_match, map_of_entries};
use crate::queue::{queue_seq, PendingQueue};
use crate::store::{store_map, AuthoritativeStore};

verus! {

/// Why a restore failed: the snapshot bytes do not decode. Starting against
/// ambiguous state is fatal, so the caller must not serve traffic after this.
#[derive(Debug, PartialEq, Eq)]
pub enum SnapshotError {
    Malformed,
}

/// The aggregate state of the server: one authoritative store and one
/// pending queue, owned together for the lifetime of the process. It is the
/// unit of construction, snapshotting and restoration.
pub struct Server {
    dict: AuthoritativeStore,
    acts: PendingQueue,
}

impl Server {
    /// The entries the authoritative store holds: the only state a read
    /// observes.
    pub closed spec fn store(&self) -> Map<Seq<char>, Seq<char>> {
        store_map(self.dict)
    }

    /// The staged actions not yet applied, head first.
    pub closed spec fn pending(&self) -> Seq<ActionModel> {
        queue_seq(self.acts)
    }

    /// A fresh server: empty store, empty pending queue.
    pub fn new() -> (s: Server)
        ensures
            s.store() == Map::<Seq<char>, Seq<char>>::empty(),
            s.pending() == Seq::<ActionModel>::empty(),
    {
        Server { dict: AuthoritativeStore::empty(), acts: PendingQueue::empty() }
    }

    /// A shared handle on the backing map, for the embedding layer's
    /// concurrent readers.
    #[allow(non_snake_case)]
    pub fn getCache(&self) -> Arc<CHashMap<String, String>> {
        self.dict.handle()
    }

    /// A shared handle on the backing queue, for the embedding layer's
    /// concurrent producers.
    #[allow(non_snake_case)]
    pub fn getQueue(&self) -> LinkedQueue<Action> {
        self.acts.handle()
    }

    /// Look a key up in the authoritative store. A read never observes a
    /// staged, un-committed action; an absent key is a normal result, not a
    /// failure.
    pub fn read(&self, key: &str) -> (r: Option<String>)
        ensures
            r is Some <==> self.store().contains_key(key@),
            r matches Some(v) ==> v@ == self.store()[key@],
    {
        self.dict.get(key)
    }

    /// Stage a set: append `SetValue(key, value)` to the pending queue and
    /// report whether the key was already bound at enqueue time. The store
    /// itself is untouched until a commit.
    pub fn stage_set(&mut self, key: String, value: String) -> (existed: bool)
        ensures
            final(self).store() == old(self).store(),
            final(self).pending() == old(self).pending().push(
                ActionModel::SetValue(key@, value@),
            ),
            existed == old(self).store().contains_key(key@),
    {
        let existed = self.dict.contains(key.as_str());
        self.acts.put(Action::SetValue(key, value));
        existed
    }

    /// Stage a delete: append `Delete(key)` to the pending queue. The store
    /// itself is untouched until a commit.
    pub fn stage_delete(&mut self, key: String)
        ensures
            final(self).store() == old(self).store(),
            final(self).pending() == old(self).pending().push(ActionModel::Delete(key@)),
    {
        self.acts.put(Action::Delete(key));
    }

    /// Commit: drain the pending queue, applying each action to the
    /// authoritative store in dequeue order, until the queue is observed
    /// empty. On an empty queue this is a no-op.
    pub fn commit(&mut self)
        ensures
            final(self).pending() == Seq::<ActionModel>::empty(),
            final(self).store() == apply_all(old(self).store(), old(self).pending()),
    {
        while !self.acts.is_empty()
            invariant
                apply_all(self.store(), self.pending()) == apply_all(
                    old(self).store(),
                    old(self).pending(),
                ),
            decreases queue_seq(self.acts).len(),
        {
            let act = self.acts.take();
            match act {
                Action::SetValue(key, value) => {
                    self.dict.insert(key, value);
                },
                Action::Delete(key) => {
                    self.dict.remove(key.as_str());
                },
            }
        }
        proof {
            assert(self.pending() =~= Seq::<ActionModel>::empty());
        }
    }

    /// Produce a binary snapshot holding every entry of the authoritative
    /// store and every pending action. The queue is drained in the course of
    /// encoding, mirroring consumption semantics; the store is untouched. The
    /// snapshot decodes to an entry run that lists exactly the store's
    /// bindings, and to the drained pending sequence, order preserved.
    pub fn snapshot(&mut self) -> (bytes: Vec<u8>)
        ensures
            final(self).store() == old(self).store(),
            final(self).pending() == Seq::<ActionModel>::empty(),
            dec_snapshot(bytes@) is Some,
            dec_snapshot(bytes@).unwrap().1 == old(self).pending(),
            entries_match(dec_snapshot(bytes@).unwrap().0, old(self).store()),
    {
        let entries = self.dict.entries();
        let mut drained: Vec<Action> = Vec::new();
        while !self.acts.is_empty()
            invariant
                store_map(self.dict) == old(self).store(),
                queue_seq(self.acts) == old(self).pending().skip(drained@.len() as int),
                drained@.len() <= old(self).pending().len(),
                acts_model(drained@) == old(self).pending().take(drained@.len() as int),
            decreases queue_seq(self.acts).len(),
        {
            let ghost n = drained@.len() as int;
            let a = self.acts.take();
            drained.push(a);
            proof {
                assert(a@ == old(self).pending()[n]);
                assert(acts_model(drained@) =~= old(self).pending().take(n).push(a@));
                assert(old(self).pending().take(n).push(a@) =~= old(self).pending().take(n + 1));
                assert(old(self).pending().skip(n).drop_first() =~= old(self).pending().skip(
                    n + 1,
                ));
            }
        }
        proof {
            assert(old(self).pending().take(drained@.len() as int) =~= old(self).pending());
        }
        let bytes = encode_snapshot(&entries, &drained);
        proof {
            crate::codec::lemma_snapshot_round_trip(
                entries_model(entries@),
                acts_model(drained@),
            );
            let em = entries_model(entries@);
            let m = store_map(self.dict);
            assert forall|i: int|
                0 <= i < em.len() implies m.contains_key((#[trigger] em[i]).0) && m[em[i].0]
                == em[i].1 by {
                assert(em[i] == (entries@[i].0@, entries@[i].1@));
            }
            assert forall|i: int, j: int|
                0 <= i < j < em.len() implies (#[trigger] em[i]).0 != (#[trigger] em[j]).0 by {
                assert(em[i] == (entries@[i].0@, entries@[i].1@));
                assert(em[j] == (entries@[j].0@, entries@[j].1@));
            }
            assert forall|k: Seq<char>| #[trigger] m.contains_key(k) implies exists|i: int|
                0 <= i < em.len() && (#[trigger] em[i]).0 == k by {
                let i = choose|i: int| 0 <= i < entries@.len() && (#[trigger] entries@[i]).0@ == k;
                assert(em[i] == (entries@[i].0@, entries@[i].1@));
                assert(em[i].0 == k);
            }
            assert(entries_match(em, m));
        }
        bytes
    }

    /// Rebuild a server from snapshot bytes: the decoded entries are restored
    /// as individual inserts, the decoded actions into a fresh pending queue,
    /// order preserved. Bytes that do not decode are fatal: the caller gets
    /// an error and no server.
    pub fn restore(bytes: &[u8]) -> (r: Result<Server, SnapshotError>)
        ensures
            r is Ok <==> dec_snapshot(bytes@) is Some,
            r matches Ok(s) ==> s.store() == map_of_entries(dec_snapshot(bytes@).unwrap().0),
            r matches Ok(s) ==> s.pending() == dec_snapshot(bytes@).unwrap().1,
    {
        let decoded = match decode_snapshot(bytes) {
            None => {
                return Err(SnapshotError::Malformed);
            },
            Some(p) => p,
        };
        let (mut entries, mut actions) = decoded;
        let ghost full_e = entries_model(entries@);
        let ghost full_a = acts_model(actions@);
        let mut s = Server::new();
        proof {
            assert(full_e.take(0) =~= Seq::<crate::codec::EntryModel>::empty());
        }
        while entries.len() > 0
            invariant
                entries@.len() <= full_e.len(),
                entries_model(entries@) == full_e.skip(full_e.len() - entries@.len()),
                s.store() == map_of_entries(full_e.take(full_e.len() - entries@.len())),
                s.pending() == Seq::<ActionModel>::empty(),
                acts_model(actions@) == full_a,
            decreases entries@.len(),
        {
            let ghost done = full_e.len() - entries@.len();
            let ghost prev = entries@;
            let e = entries.remove(0);
            s.dict.insert(e.0, e.1);
            proof {
                assert(entries_model(prev)[0] == (prev[0].0@, prev[0].1@));
                assert((e.0@, e.1@) == full_e[done]);
                assert(entries@ =~= prev.skip(1));
                assert forall|i: int|
                    0 <= i < entries@.len() implies (#[trigger] entries_model(entries@)[i])
                    == full_e.skip(done + 1)[i] by {
                    assert(entries@[i] == prev[i + 1]);
                    assert(entries_model(prev)[i + 1] == (prev[i + 1].0@, prev[i + 1].1@));
                    assert(entries_model(prev)[i + 1] == full_e.skip(done)[i + 1]);
                    assert(full_e.skip(done)[i + 1] == full_e[done + 1 + i]);
                    assert(full_e.skip(done + 1)[i] == full_e[done + 1 + i]);
                }
                assert(entries_model(entries@) =~= full_e.skip(done + 1));
                assert(full_e.take(done + 1).drop_last() =~= full_e.take(done));
                assert(full_e.take(done + 1).last() == full_e[done]);
                assert(map_of_entries(full_e.take(done + 1)) == map_of_entries(
                    full_e.take(done),
                ).insert(full_e[done].0, full_e[done].1));
            }
        }
        proof {
            assert(full_e.take(full_e.len() as int) =~= full_e);
        }
        while actions.len() > 0
            invariant
                actions@.len() <= full_a.len(),
                acts_model(actions@) == full_a.skip(full_a.len() - actions@.len()),
                s.store() == map_of_entries(full_e),
                s.pending() == full_a.take(full_a.len() - actions@.len()),
            decreases actions@.len(),
        {
            let ghost done = full_a.len() - actions@.len();
            let ghost prev = actions@;
            let a = actions.remove(0);
            s.acts.put(a);
            proof {
                assert(acts_model(prev)[0] == prev[0]@);
                assert(a@ == full_a[done]);
                assert(actions@ =~= prev.skip(1));
                assert forall|i: int|
                    0 <= i < actions@.len() implies (#[trigger] acts_model(actions@)[i])
                    == full_a.skip(done + 1)[i] by {
                    assert(actions@[i] == prev[i + 1]);
                    assert(acts_model(prev)[i + 1] == prev[i + 1]@);
                    assert(acts_model(prev)[i + 1] == full_a.skip(done)[i + 1]);
                    assert(full_a.skip(done)[i + 1] == full_a[done + 1 + i]);
                    assert(full_a.skip(done + 1)[i] == full_a[done + 1 + i]);
                }
                assert(acts_model(actions@) =~= full_a.skip(done + 1));
                assert(full_a.take(done).push(full_a[done]) =~= full_a.take(done + 1));
            }
        }
        proof {
            assert(full_a.take(full_a.len() as int) =~= full_a);
        }
        Ok(s)
    }
}

} // verus!
