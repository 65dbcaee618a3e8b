use vstd::prelude::*;

use std::sync::Arc;

use chashmap::CHashMap;

verus! {

#[verifier::external_type_specification]
#[verifier::external_body]
#[verifier::reject_recursive_types(K)]
#[verifier::reject_recursive_types(V)]
pub struct ExCHashMap<K, V>(CHashMap<K, V>);

/// The authoritative concurrent map, the single source of truth for reads.
/// It adapts `chashmap::CHashMap`, whose own locking makes every single
/// operation atomic with respect to the whole map; the handle is held in an
/// `Arc` so that the embedding layer can share it across request handlers.
///
/// Invariant this adapter maintains on the backing table: between calls it
/// holds no `Removed` tombstone, because every removal that unbound a key is
/// followed at once by `shrink_to_fit`, which rebuilds the table from its
/// live entries alone. This matters: chashmap's bucket scan stops only at a
/// matching bucket or an `Empty` one, and panics when a table left without
/// `Empty` buckets is probed for an absent key. Tombstones are what consume
/// `Empty` buckets (the crate's own load factor keeps live entries below 85%
/// of the table), so with none ever left behind, an `Empty` bucket always
/// remains and every lookup returns normally. The contracts of `get`,
/// `contains` and `remove_entry` rest on this invariant. Mutations made
/// through the shared handle of [`AuthoritativeStore::handle`] are outside
/// it, as they are outside the model altogether.
#[verifier::external_body]
pub struct AuthoritativeStore {
    elem: Arc<CHashMap<String, String>>,
}

/// What the authoritative store holds: its entries, as a mapping from key
/// characters to value characters.
pub uninterp spec fn store_map(s: AuthoritativeStore) -> Map<Seq<char>, Seq<char>>;

impl AuthoritativeStore {
    /// Relies on `chashmap::CHashMap::new`: a freshly created map holds no
    /// entries.
    #[verifier::external_body]
    pub fn empty() -> (s: AuthoritativeStore)
        ensures
            store_map(s) == crate::action::no_entries(),
    {
        AuthoritativeStore { elem: Arc::new(CHashMap::new()) }
    }

    /// Relies on `chashmap::CHashMap::get`: it returns the value bound to the
    /// key, or nothing when the key is absent. That the probe of an absent
    /// key returns at all rests on the tombstone-free invariant stated on
    /// [`AuthoritativeStore`].
    #[verifier::external_body]
    pub fn get(&self, key: &str) -> (r: Option<String>)
        ensures
            r is Some <==> store_map(*self).contains_key(key@),
            r matches Some(v) ==> v@ == store_map(*self)[key@],
    {
        self.elem.get(key).map(|guard| (*guard).clone())
    }

    /// Relies on `chashmap::CHashMap::contains_key`: it reports whether the
    /// key is bound. That the probe of an absent key returns at all rests on
    /// the tombstone-free invariant stated on [`AuthoritativeStore`].
    #[verifier::external_body]
    pub fn contains(&self, key: &str) -> (r: bool)
        ensures
            r == store_map(*self).contains_key(key@),
    {
        self.elem.contains_key(key)
    }

    /// Relies on `chashmap::CHashMap::insert`: it binds the key to the value,
    /// replacing any prior binding.
    #[verifier::external_body]
    pub fn insert(&mut self, key: String, value: String)
        ensures
            store_map(*final(self)) == store_map(*old(self)).insert(key@, value@),
    {
        self.elem.insert(key, value);
    }

    /// Relies on `chashmap::CHashMap::remove`: it unbinds the key and
    /// reports whether a binding was removed; on an absent key it is a no-op
    /// that changes no bucket. A removal leaves a `Removed` tombstone behind,
    /// which the caller must clear at once (see [`AuthoritativeStore`]); that
    /// the probe itself returns rests on the same invariant.
    #[verifier::external_body]
    fn remove_entry(&mut self, key: &str) -> (removed: bool)
        ensures
            store_map(*final(self)) == store_map(*old(self)).remove(key@),
            removed == store_map(*old(self)).contains_key(key@),
    {
        self.elem.remove(key).is_some()
    }

    /// Relies on `chashmap::CHashMap::shrink_to_fit`: it rebuilds the
    /// backing table around the live entries alone, changing no binding and
    /// leaving no `Removed` bucket.
    #[verifier::external_body]
    fn compact(&mut self)
        ensures
            store_map(*final(self)) == store_map(*old(self)),
    {
        self.elem.shrink_to_fit();
    }

    /// Unbind the key, a no-op when it is absent. A removal that unbound
    /// something is followed at once by a rebuild of the backing table, so
    /// that no tombstone outlives this call (see [`AuthoritativeStore`]).
    pub fn remove(&mut self, key: &str)
        ensures
            store_map(*final(self)) == store_map(*old(self)).remove(key@),
    {
        let removed = self.remove_entry(key);
        if removed {
            self.compact();
        }
    }

    /// Relies on `chashmap::CHashMap`'s `Clone` and `IntoIterator`: cloning
    /// the table and walking it yields each entry exactly once, in no
    /// promised order.
    #[verifier::external_body]
    pub fn entries(&self) -> (v: Vec<(String, String)>)
        ensures
            forall|i: int|
                0 <= i < v@.len() ==> store_map(*self).contains_key((#[trigger] v@[i]).0@)
                    && store_map(*self)[v@[i].0@] == v@[i].1@,
            forall|i: int, j: int| 0 <= i < j < v@.len() ==> v@[i].0@ != v@[j].0@,
            forall|k: Seq<char>|
                store_map(*self).contains_key(k) ==> exists|i: int|
                    0 <= i < v@.len() && (#[trigger] v@[i]).0@ == k,
    {
        (*self.elem).clone().into_iter().collect()
    }

    /// Relies on `Arc::clone`: the returned handle shares the same underlying
    /// map, for the embedding layer's concurrent readers. Nothing is stated
    /// of it; mutations through it are outside this library's model.
    #[verifier::external_body]
    pub fn handle(&self) -> Arc<CHashMap<String, String>> {
        self.elem.clone()
    }
}

} // verus!
