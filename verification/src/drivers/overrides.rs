use vstd::prelude::*;

verus! {

/// The interrupt source overrides by source IRQ: a hash map from the IRQ
/// to the global system interrupt it is wired to and its polarity and
/// trigger flags.
#[verifier::external_body]
pub struct OverrideTable {
    map: hashbrown::HashMap<usize, (u32, u16)>,
}

/// What an override table holds: each source IRQ with its interrupt and
/// flags.
pub uninterp spec fn override_table_contents(t: OverrideTable) -> Map<usize, (u32, u16)>;

impl OverrideTable {
    /// `hashbrown::HashMap::new`: an empty map.
    #[verifier::external_body]
    pub fn new() -> (r: OverrideTable)
        ensures
            override_table_contents(r).dom() == Set::<usize>::empty(),
    {
        OverrideTable { map: hashbrown::HashMap::new() }
    }

    /// `hashbrown::HashMap::insert`: afterwards the IRQ maps to `v`, every
    /// other IRQ as before.
    #[verifier::external_body]
    pub fn insert(&mut self, k: usize, v: (u32, u16))
        ensures
            override_table_contents(*final(self)) == override_table_contents(*old(self)).insert(k, v),
    {
        self.map.insert(k, v);
    }

    /// `hashbrown::HashMap::get`, the stored pair copied out: the pair
    /// under the IRQ, `None` when the IRQ is absent.
    #[verifier::external_body]
    pub fn get(&self, k: usize) -> (r: Option<(u32, u16)>)
        ensures
            override_table_contents(*self).contains_key(k) ==> r == Some(override_table_contents(*self)[k]),
            !override_table_contents(*self).contains_key(k) ==> r is None,
    {
        self.map.get(&k).copied()
    }

    /// `hashbrown::HashMap::contains_key`: whether the IRQ is present.
    #[verifier::external_body]
    pub fn contains_key(&self, k: usize) -> (r: bool)
        ensures
            r == override_table_contents(*self).contains_key(k),
    {
        self.map.contains_key(&k)
    }
}

} // verus!
