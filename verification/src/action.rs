use vstd::prelude::*;

verus! {

/// A staged intent to modify the store: either bind a key to a value or
/// delete a key. Immutable once constructed; produced by write requests and
/// consumed exactly once when a commit applies it to the authoritative store.
#[derive(Debug, PartialEq, Eq)]
pub enum Action {
    SetValue(String, String),
    Delete(String),
}

/// The mathematical form of an `Action`: its key and value as character
/// sequences.
pub enum ActionModel {
    SetValue(Seq<char>, Seq<char>),
    Delete(Seq<char>),
}

impl View for Action {
    type V = ActionModel;

    open spec fn view(&self) -> ActionModel {
        match self {
            Action::SetValue(k, v) => ActionModel::SetValue(k@, v@),
            Action::Delete(k) => ActionModel::Delete(k@),
        }
    }
}

/// A store with no entries.
pub open spec fn no_entries() -> Map<Seq<char>, Seq<char>> {
    Map::empty()
}

/// The key an action touches.
pub open spec fn action_key(a: ActionModel) -> Seq<char> {
    match a {
        ActionModel::SetValue(k, _) => k,
        ActionModel::Delete(k) => k,
    }
}

/// The effect of one action on a store: `Set` binds the key, overwriting any
/// prior binding; `Delete` removes the key, a no-op when it is absent.
pub open spec fn apply_action(
    m: Map<Seq<char>, Seq<char>>,
    a: ActionModel,
) -> Map<Seq<char>, Seq<char>> {
    match a {
        ActionModel::SetValue(k, v) => m.insert(k, v),
        ActionModel::Delete(k) => m.remove(k),
    }
}

/// The effect of a whole pending sequence on a store, applied head first,
/// exactly as a commit drains the queue.
pub open spec fn apply_all(
    m: Map<Seq<char>, Seq<char>>,
    acts: Seq<ActionModel>,
) -> Map<Seq<char>, Seq<char>>
    decreases acts.len(),
{
    if acts.len() == 0 {
        m
    } else {
        apply_all(apply_action(m, acts[0]), acts.drop_first())
    }
}

} // verus!
