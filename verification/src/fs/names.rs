use vstd::prelude::*;

verus! {

/// The entries of a directory: a hash map from names to node indices.
#[verifier::external_body]
pub struct NameTable {
    map: hashbrown::HashMap<String, usize>,
}

/// What a name table holds: each name, as its characters, with the node
/// index stored under it.
pub uninterp spec fn name_table_contents(t: NameTable) -> Map<Seq<char>, usize>;

impl NameTable {
    /// `hashbrown::HashMap::new`: an empty map.
    #[verifier::external_body]
    pub fn new() -> (r: NameTable)
        ensures
            name_table_contents(r).dom() == Set::<Seq<char>>::empty(),
    {
        NameTable { map: hashbrown::HashMap::new() }
    }

    /// `hashbrown::HashMap::insert`: afterwards the name maps to `v`, every
    /// other name as before.
    #[verifier::external_body]
    pub fn insert(&mut self, k: String, v: usize)
        ensures
            name_table_contents(*final(self)) == name_table_contents(*old(self)).insert(k@, v),
    {
        self.map.insert(k, v);
    }

    /// `hashbrown::HashMap::get`, the stored index copied out: the index
    /// under the name, `None` when the name is absent.
    #[verifier::external_body]
    pub fn get(&self, k: &str) -> (r: Option<usize>)
        ensures
            name_table_contents(*self).contains_key(k@) ==> r == Some(name_table_contents(*self)[k@]),
            !name_table_contents(*self).contains_key(k@) ==> r is None,
    {
        self.map.get(k).copied()
    }

    /// `hashbrown::HashMap::contains_key`: whether the name is present.
    #[verifier::external_body]
    pub fn contains_key(&self, k: &str) -> (r: bool)
        ensures
            r == name_table_contents(*self).contains_key(k@),
    {
        self.map.contains_key(k)
    }
}

} // verus!
