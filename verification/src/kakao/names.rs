//! Names by user id.
use vstd::hash_map::StringHashMap;
use vstd::prelude::*;

verus! {

/// Names by user id.
pub struct NameTable {
    names: StringHashMap<String>,
}

impl View for NameTable {
    type V = Map<Seq<char>, Seq<char>>;

    closed spec fn view(&self) -> Map<Seq<char>, Seq<char>> {
        self.names@.map_values(|name: String| name@)
    }
}

impl Default for NameTable {
    fn default() -> (r: Self)
        ensures
            r@ == Map::<Seq<char>, Seq<char>>::empty(),
    {
        let r: NameTable = NameTable { names: StringHashMap::new() };
        assert(r@ =~= Map::<Seq<char>, Seq<char>>::empty());
        r
    }
}

impl NameTable {
    /// Gives a user a name; a later name replaces an earlier one.
    pub fn insert(&mut self, id: String, name: String)
        ensures
            final(self)@ == old(self)@.insert(id@, name@),
    {
        let ghost expected = self@.insert(id@, name@);
        self.names.insert(id, name);
        assert(self@ =~= expected);
    }

    /// The name of a user, if there is one.
    pub fn get(&self, id: &str) -> (r: Option<String>)
        ensures
            match r {
                Some(name) => self@.contains_key(id@) && self@[id@] == name@,
                None => !self@.contains_key(id@),
            },
    {
        match self.names.get(id) {
            Some(name) => Some(name.clone()),
            None => None,
        }
    }
}

} // verus!
