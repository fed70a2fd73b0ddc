//! The hash table of the cache: from keys to slots.

use hashbrown::HashMap;
use vstd::prelude::*;

verus! {

/// From a name in lower case and a record type to slots of the cache.
#[verifier::external_body]
pub struct SlotTable {
    map: HashMap<(String, u16), Vec<usize>>,
}

/// What a table holds.
pub uninterp spec fn slots(t: SlotTable) -> Map<(Seq<char>, u16), Seq<usize>>;

/// A table without keys.
pub open spec fn no_slots() -> Map<(Seq<char>, u16), Seq<usize>> {
    Map::empty()
}

impl SlotTable {
    /// `hashbrown::HashMap::new`: an empty map.
    #[verifier::external_body]
    pub(crate) fn new() -> (r: Self)
        ensures
            slots(r) == no_slots(),
    {
        SlotTable { map: HashMap::new() }
    }

    /// `hashbrown::HashMap::clear`: nothing is left in the map.
    #[verifier::external_body]
    pub(crate) fn clear(&mut self)
        ensures
            slots(*final(self)) == no_slots(),
    {
        self.map.clear();
    }

    /// `hashbrown::HashMap::get`: the value of the key, if it has one.
    #[verifier::external_body]
    pub(crate) fn get(&self, name: &str, qtype: u16) -> (r: Option<&Vec<usize>>)
        ensures
            match r {
                Some(ids) => slots(*self).contains_key((name@, qtype)) && ids@ == slots(*self)[(
                    name@,
                    qtype,
                )],
                None => !slots(*self).contains_key((name@, qtype)),
            },
    {
        self.map.get(&(String::from(name), qtype))
    }

    /// `hashbrown::HashMap::insert`: the key now has this value; other keys
    /// keep theirs.
    #[verifier::external_body]
    pub(crate) fn insert(&mut self, name: &str, qtype: u16, ids: Vec<usize>)
        ensures
            slots(*final(self)) == slots(*old(self)).insert((name@, qtype), ids@),
    {
        self.map.insert((String::from(name), qtype), ids);
    }

    /// `hashbrown::HashMap::remove`: the key now has no value; other keys keep
    /// theirs.
    #[verifier::external_body]
    pub(crate) fn remove(&mut self, name: &str, qtype: u16)
        ensures
            slots(*final(self)) == slots(*old(self)).remove((name@, qtype)),
    {
        self.map.remove(&(String::from(name), qtype));
    }

    /// `hashbrown::HashMap::keys`: every key once. The order is left open.
    #[verifier::external_body]
    pub(crate) fn keys(&self) -> (r: Vec<(String, u16)>)
        ensures
            key_views(r@).no_duplicates(),
            key_views(r@).to_set() == slots(*self).dom(),
    {
        self.map.keys().cloned().collect()
    }
}

/// Keys with their names as sequences of characters.
pub open spec fn key_views(keys: Seq<(String, u16)>) -> Seq<(Seq<char>, u16)> {
    Seq::new(keys.len(), |i: int| (keys[i].0@, keys[i].1))
}

} // verus!
