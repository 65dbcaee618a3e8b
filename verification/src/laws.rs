use vstd::prelude::*;

use crate::action::{action_key, apply_action, apply_all, ActionModel};
use crate::codec::{
    dec_snapshot, enc_snapshot, lemma_snapshot_round_trip, wf_actions, wf_entries, EntryModel,
};

verus! {

/// The entry run lists exactly the bindings of the map: each listed pair is a
/// binding, no key is listed twice, and every key of the map is listed. The
/// order of the run is not constrained.
pub open spec fn entries_match(es: Seq<EntryModel>, m: Map<Seq<char>, Seq<char>>) -> bool {
    (forall|i: int|
        0 <= i < es.len() ==> m.contains_key((#[trigger] es[i]).0) && m[es[i].0] == es[i].1)
        && (forall|i: int, j: int|
        0 <= i < j < es.len() ==> (#[trigger] es[i]).0 != (#[trigger] es[j]).0) && (forall|
        k: Seq<char>,
    |
        #[trigger] m.contains_key(k) ==> exists|i: int|
            0 <= i < es.len() && (#[trigger] es[i]).0 == k)
}

/// The map an entry run builds when its pairs are inserted front to back.
pub open spec fn map_of_entries(es: Seq<EntryModel>) -> Map<Seq<char>, Seq<char>>
    decreases es.len(),
{
    if es.len() == 0 {
        Map::empty()
    } else {
        map_of_entries(es.drop_last()).insert(es.last().0, es.last().1)
    }
}

/// An entry run that lists exactly the bindings of a map rebuilds that map.
pub proof fn lemma_entries_match_builds_map(es: Seq<EntryModel>, m: Map<Seq<char>, Seq<char>>)
    requires
        entries_match(es, m),
    ensures
        map_of_entries(es) == m,
    decreases es.len(),
{
    if es.len() == 0 {
        assert forall|k: Seq<char>| !(#[trigger] m.contains_key(k)) by {
            if m.contains_key(k) {
                let i = choose|i: int| 0 <= i < es.len() && (#[trigger] es[i]).0 == k;
            }
        }
        assert(m =~= Map::<Seq<char>, Seq<char>>::empty());
    } else {
        let last = es.last();
        let prefix = es.drop_last();
        let m2 = m.remove(last.0);
        assert(es[es.len() - 1] == last);
        assert forall|i: int|
            0 <= i < prefix.len() implies m2.contains_key((#[trigger] prefix[i]).0)
            && m2[prefix[i].0] == prefix[i].1 by {
            assert(prefix[i] == es[i]);
            assert(es[i].0 != es[es.len() - 1].0);
        }
        assert forall|i: int, j: int|
            0 <= i < j < prefix.len() implies (#[trigger] prefix[i]).0 != (
        #[trigger] prefix[j]).0 by {
            assert(prefix[i] == es[i] && prefix[j] == es[j]);
        }
        assert forall|k: Seq<char>| #[trigger] m2.contains_key(k) implies exists|i: int|
            0 <= i < prefix.len() && (#[trigger] prefix[i]).0 == k by {
            let i = choose|i: int| 0 <= i < es.len() && (#[trigger] es[i]).0 == k;
            assert(es[i].0 != es[es.len() - 1].0 || k == last.0);
            assert(i < prefix.len());
            assert((prefix[i]).0 == k);
        }
        lemma_entries_match_builds_map(prefix, m2);
        assert(m.contains_key(last.0) && m[last.0] == last.1);
        assert(m2.insert(last.0, last.1) =~= m);
    }
}

/// Round trip: encoding a state's entry run and pending actions, then
/// decoding the snapshot, rebuilds the same store map and the same pending
/// sequence, order preserved.
pub proof fn lemma_state_round_trip(
    es: Seq<EntryModel>,
    acts: Seq<ActionModel>,
    m: Map<Seq<char>, Seq<char>>,
)
    requires
        wf_entries(es),
        wf_actions(acts),
        entries_match(es, m),
    ensures
        dec_snapshot(enc_snapshot(es, acts)) is Some,
        map_of_entries(dec_snapshot(enc_snapshot(es, acts)).unwrap().0) == m,
        dec_snapshot(enc_snapshot(es, acts)).unwrap().1 == acts,
{
    lemma_snapshot_round_trip(es, acts);
    lemma_entries_match_builds_map(es, m);
}

/// Applying a pending sequence with one more action at its tail is the same
/// as applying the sequence and then that last action.
pub proof fn lemma_apply_all_push(
    m: Map<Seq<char>, Seq<char>>,
    acts: Seq<ActionModel>,
    a: ActionModel,
)
    ensures
        apply_all(m, acts.push(a)) == apply_action(apply_all(m, acts), a),
    decreases acts.len(),
{
    if acts.len() == 0 {
        assert(acts.push(a)[0] == a);
        assert(acts.push(a).drop_first() =~= Seq::<ActionModel>::empty());
        assert(apply_all(m, acts.push(a)) == apply_all(apply_action(m, a), Seq::<ActionModel>::empty()));
        assert(apply_all(m, acts.push(a)) == apply_action(m, a));
        assert(apply_all(m, acts) == m);
    } else {
        assert(acts.push(a)[0] == acts[0]);
        assert(acts.push(a).drop_first() =~= acts.drop_first().push(a));
        lemma_apply_all_push(apply_action(m, acts[0]), acts.drop_first(), a);
        assert(apply_all(m, acts.push(a)) == apply_all(apply_action(m, acts[0]), acts.drop_first().push(a)));
        assert(apply_all(m, acts) == apply_all(apply_action(m, acts[0]), acts.drop_first()));
    }
}

/// A commit is a flush, not a barrier: draining a pending sequence in two
/// batches leaves the store exactly as one drain of the whole sequence would.
pub proof fn lemma_apply_all_concat(
    m: Map<Seq<char>, Seq<char>>,
    first: Seq<ActionModel>,
    second: Seq<ActionModel>,
)
    ensures
        apply_all(m, first + second) == apply_all(apply_all(m, first), second),
    decreases second.len(),
{
    if second.len() == 0 {
        assert(first + second =~= first);
    } else {
        assert(first + second.drop_last() =~= (first + second).drop_last());
        assert((first + second).drop_last().push(second.last()) =~= first + second);
        assert(second.drop_last().push(second.last()) =~= second);
        lemma_apply_all_concat(m, first, second.drop_last());
        lemma_apply_all_push(m, first + second.drop_last(), second.last());
        lemma_apply_all_push(apply_all(m, first), second.drop_last(), second.last());
    }
}

/// After staging `Set(k, v)` behind any pending sequence and committing the
/// whole queue, the store binds `k` to `v`.
pub proof fn lemma_set_then_commit(
    m: Map<Seq<char>, Seq<char>>,
    acts: Seq<ActionModel>,
    k: Seq<char>,
    v: Seq<char>,
)
    ensures
        apply_all(m, acts.push(ActionModel::SetValue(k, v))).contains_key(k),
        apply_all(m, acts.push(ActionModel::SetValue(k, v)))[k] == v,
{
    lemma_apply_all_push(m, acts, ActionModel::SetValue(k, v));
}

/// After staging `Delete(k)` behind any pending sequence and committing the
/// whole queue, `k` is absent from the store, whatever its prior state; every
/// other key is bound exactly as it would be without the delete.
pub proof fn lemma_delete_then_commit(
    m: Map<Seq<char>, Seq<char>>,
    acts: Seq<ActionModel>,
    k: Seq<char>,
)
    ensures
        !apply_all(m, acts.push(ActionModel::Delete(k))).contains_key(k),
        apply_all(m, acts.push(ActionModel::Delete(k))) == apply_all(m, acts).remove(k),
{
    lemma_apply_all_push(m, acts, ActionModel::Delete(k));
}

/// A commit of an empty pending queue leaves the store unchanged.
pub proof fn lemma_commit_empty(m: Map<Seq<char>, Seq<char>>)
    ensures
        apply_all(m, Seq::<ActionModel>::empty()) == m,
{
}

/// When several sets of the same key are staged before one commit, the store
/// ends up holding the value of the set that was dequeued last.
pub proof fn lemma_last_set_wins(
    m: Map<Seq<char>, Seq<char>>,
    acts: Seq<ActionModel>,
    k: Seq<char>,
    v1: Seq<char>,
    v2: Seq<char>,
)
    ensures
        apply_all(m, acts.push(ActionModel::SetValue(k, v1)).push(ActionModel::SetValue(k, v2))).contains_key(k),
        apply_all(m, acts.push(ActionModel::SetValue(k, v1)).push(ActionModel::SetValue(k, v2)))[k] == v2,
{
    lemma_set_then_commit(m, acts.push(ActionModel::SetValue(k, v1)), k, v2);
}

/// A key that no pending action touches keeps its binding across a commit.
pub proof fn lemma_untouched_key_keeps_binding(
    m: Map<Seq<char>, Seq<char>>,
    acts: Seq<ActionModel>,
    k: Seq<char>,
)
    requires
        m.contains_key(k),
        forall|i: int| 0 <= i < acts.len() ==> action_key(#[trigger] acts[i]) != k,
    ensures
        apply_all(m, acts).contains_key(k),
        apply_all(m, acts)[k] == m[k],
    decreases acts.len(),
{
    if acts.len() > 0 {
        assert(action_key(acts[0]) != k);
        lemma_untouched_key_keeps_binding(apply_action(m, acts[0]), acts.drop_first(), k);
    }
}

/// The general arrival-order-wins law: when the pending sequence's last
/// action touching a key is `SetValue(k, v)`, the store holds `v` at `k`
/// after the commit, whatever else was staged around it.
pub proof fn lemma_last_set_of_key_wins(
    m: Map<Seq<char>, Seq<char>>,
    q: Seq<ActionModel>,
    i: int,
    k: Seq<char>,
    v: Seq<char>,
)
    requires
        0 <= i < q.len(),
        q[i] == ActionModel::SetValue(k, v),
        forall|j: int| i < j < q.len() ==> action_key(#[trigger] q[j]) != k,
    ensures
        apply_all(m, q).contains_key(k),
        apply_all(m, q)[k] == v,
{
    let front = q.take(i + 1);
    let back = q.skip(i + 1);
    assert(front + back =~= q);
    lemma_apply_all_concat(m, front, back);
    assert(front =~= q.take(i).push(q[i]));
    lemma_set_then_commit(m, q.take(i), k, v);
    assert forall|j: int| 0 <= j < back.len() implies action_key(#[trigger] back[j]) != k by {
        assert(back[j] == q[i + 1 + j]);
    }
    lemma_untouched_key_keeps_binding(apply_all(m, front), back, k);
}

/// A key that no pending action touches and that the store does not hold is
/// still absent after a commit.
pub proof fn lemma_untouched_key_stays_absent(
    m: Map<Seq<char>, Seq<char>>,
    acts: Seq<ActionModel>,
    k: Seq<char>,
)
    requires
        !m.contains_key(k),
        forall|i: int| 0 <= i < acts.len() ==> action_key(#[trigger] acts[i]) != k,
    ensures
        !apply_all(m, acts).contains_key(k),
    decreases acts.len(),
{
    if acts.len() > 0 {
        assert(action_key(acts[0]) != k);
        lemma_untouched_key_stays_absent(apply_action(m, acts[0]), acts.drop_first(), k);
    }
}

/// Staging a delete of a key that was never staged and is not in the store,
/// then committing, is a no-op: the store is exactly what a commit without
/// that delete would have produced.
pub proof fn lemma_delete_of_unstaged_key(
    m: Map<Seq<char>, Seq<char>>,
    acts: Seq<ActionModel>,
    k: Seq<char>,
)
    requires
        !m.contains_key(k),
        forall|i: int| 0 <= i < acts.len() ==> action_key(#[trigger] acts[i]) != k,
    ensures
        apply_all(m, acts.push(ActionModel::Delete(k))) == apply_all(m, acts),
{
    lemma_delete_then_commit(m, acts, k);
    lemma_untouched_key_stays_absent(m, acts, k);
    assert(apply_all(m, acts).remove(k) =~= apply_all(m, acts));
}

} // verus!
