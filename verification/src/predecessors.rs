use vstd::hash_map::StringHashMap;
use vstd::prelude::*;

verus! {

/// A predecessor map: for each key that a search has explored, the key of
/// the node from which it was first reached. The empty key stands for "no
/// predecessor". The map always holds finitely many keys.
pub struct Predecessors {
    map: StringHashMap<String>,
}

impl View for Predecessors {
    type V = Map<Seq<char>, Seq<char>>;

    closed spec fn view(&self) -> Map<Seq<char>, Seq<char>> {
        self.map@.map_values(|parent: String| parent@)
    }
}

impl Predecessors {
    /// What holds of every predecessor map.
    #[verifier::type_invariant]
    pub closed spec fn inv(self) -> bool {
        self.map@.dom().finite()
    }

    /// A predecessor map holds finitely many keys.
    pub proof fn lemma_finite(self)
        requires
            self.inv(),
        ensures
            self@.dom().finite(),
    {
        assert(self@.dom() =~= self.map@.dom());
    }

    /// Returns the empty map.
    pub fn new() -> (predecessors: Predecessors)
        ensures
            predecessors@ == Map::<Seq<char>, Seq<char>>::empty(),
    {
        let predecessors = Predecessors { map: StringHashMap::new() };
        assert(predecessors@ =~= Map::<Seq<char>, Seq<char>>::empty());
        predecessors
    }

    /// Records `parent` as the predecessor of `key`, in place of any that
    /// was recorded before.
    pub fn insert(&mut self, key: String, parent: String)
        ensures
            final(self)@ == old(self)@.insert(key@, parent@),
    {
        proof {
            use_type_invariant(&*self);
        }
        // The map is moved out while it changes, so that `self` is valid at
        // every point.
        let mut map = StringHashMap::new();
        std::mem::swap(&mut self.map, &mut map);
        map.insert(key, parent);
        std::mem::swap(&mut self.map, &mut map);
        assert(self@ =~= old(self)@.insert(key@, parent@));
    }

    /// Returns the predecessor recorded for `key`, if there is one.
    pub fn get(&self, key: &str) -> (found: Option<&String>)
        ensures
            match found {
                Some(parent) => self@.contains_key(key@) && parent@ == self@[key@],
                None => !self@.contains_key(key@),
            },
    {
        self.map.get(key)
    }

    /// Whether a predecessor is recorded for `key`.
    pub fn contains_key(&self, key: &str) -> (found: bool)
        ensures
            found == self@.contains_key(key@),
    {
        self.map.contains_key(key)
    }

    /// Returns the number of keys in the map.
    pub fn len(&self) -> (len: usize)
        ensures
            len == self@.len(),
    {
        assert(self@.dom() =~= self.map@.dom());
        self.map.len()
    }

    /// Whether the map holds no key.
    pub fn is_empty(&self) -> (empty: bool)
        ensures
            empty == (self@.len() == 0),
    {
        self.len() == 0
    }
}

} // verus!
