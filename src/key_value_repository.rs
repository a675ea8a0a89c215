//! The key-value store, kept in a sharded concurrent map.
use dashmap::DashMap;
use vstd::prelude::*;

verus! {

#[verifier::external_type_specification]
#[verifier::external_body]
#[verifier::reject_recursive_types(K)]
#[verifier::reject_recursive_types(V)]
#[verifier::reject_recursive_types(S)]
pub struct ExDashMap<K, V, S>(DashMap<K, V, S>);

/// The entries of a map of strings, as text.
pub uninterp spec fn map_contents(m: DashMap<String, String>) -> Map<Seq<char>, Seq<char>>;

/// Relies on `DashMap::new`: a new map holds no entry.
#[verifier::external_body]
fn new_map() -> (r: DashMap<String, String>)
    ensures
        map_contents(r).dom() == Set::<Seq<char>>::empty(),
{
    DashMap::new()
}

/// Relies on `DashMap::insert`: the key maps to the value afterwards, and no
/// other entry changes.
#[verifier::external_body]
fn map_insert(m: &mut DashMap<String, String>, key: String, value: String)
    ensures
        map_contents(*final(m)) == map_contents(*old(m)).insert(key@, value@),
{
    m.insert(key, value);
}

/// Relies on `DashMap::get`: a copy of the value stored under the key, if any.
#[verifier::external_body]
fn map_get(m: &DashMap<String, String>, key: &str) -> (r: Option<String>)
    ensures
        r is Some <==> map_contents(*m).contains_key(key@),
        r matches Some(v) ==> v@ == map_contents(*m)[key@],
{
    m.get(key).map(|entry| entry.value().clone())
}

/// Relies on `DashMap::remove`: the entry under the key goes, no other entry
/// changes, and its value comes back.
#[verifier::external_body]
fn map_remove(m: &mut DashMap<String, String>, key: &str) -> (r: Option<String>)
    ensures
        map_contents(*final(m)) == map_contents(*old(m)).remove(key@),
        r is Some <==> map_contents(*old(m)).contains_key(key@),
        r matches Some(v) ==> v@ == map_contents(*old(m))[key@],
{
    m.remove(key).map(|(_, value)| value)
}

/// A mapping from keys to values; the last write to a key wins.
pub struct RedisDatabase {
    data: DashMap<String, String>,
}

impl RedisDatabase {
    pub closed spec fn view(&self) -> Map<Seq<char>, Seq<char>> {
        map_contents(self.data)
    }

    /// An empty store.
    pub fn new() -> (r: RedisDatabase)
        ensures
            r@ == Map::<Seq<char>, Seq<char>>::empty(),
    {
        let r = RedisDatabase { data: new_map() };
        assert(r@ =~= Map::<Seq<char>, Seq<char>>::empty());
        r
    }

    /// Stores `value` under `key`, replacing what was there.
    pub fn set(&mut self, key: String, value: String)
        ensures
            final(self)@ == old(self)@.insert(key@, value@),
    {
        map_insert(&mut self.data, key, value);
    }

    /// The value stored under `key`, if any.
    pub fn get(&self, key: &str) -> (r: Option<String>)
        ensures
            r is Some <==> self@.contains_key(key@),
            r matches Some(v) ==> v@ == self@[key@],
    {
        map_get(&self.data, key)
    }

    /// Removes `key`, handing back the value it held, if any.
    pub fn del(&mut self, key: &str) -> (r: Option<String>)
        ensures
            final(self)@ == old(self)@.remove(key@),
            r is Some <==> old(self)@.contains_key(key@),
            r matches Some(v) ==> v@ == old(self)@[key@],
    {
        map_remove(&mut self.data, key)
    }
}

} // verus!
