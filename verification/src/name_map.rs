//! The table from identifiers back to the names they replaced.
use vstd::prelude::*;
use std::collections::HashMap;

verus! {

/// The three tables of an [`IdentNameMap`], each from an identifier to a name.
pub struct NameTables {
    /// Static labels `P.x`.
    pub p: Map<i32, Seq<char>>,
    /// Dynamic labels `PD.x`.
    pub pd: Map<i32, Seq<char>>,
    /// Variables.
    pub n: Map<i32, Seq<char>>,
}

/// The names of a hash map's strings.
pub open spec fn names_of(m: Map<i32, String>) -> Map<i32, Seq<char>> {
    m.map_values(|s: String| s@)
}

/// For each kind of name, the name that each identifier stands for.
#[derive(Debug)]
pub struct IdentNameMap {
    id_to_name_static: HashMap<i32, String>,
    id_to_name_dynamic: HashMap<i32, String>,
    id_to_name_var: HashMap<i32, String>,
}

impl View for IdentNameMap {
    type V = NameTables;

    closed spec fn view(&self) -> NameTables {
        NameTables {
            p: names_of(self.id_to_name_static@),
            pd: names_of(self.id_to_name_dynamic@),
            n: names_of(self.id_to_name_var@),
        }
    }
}

impl IdentNameMap {
    /// Three empty tables.
    pub fn new() -> (m: Self)
        ensures
            m@.p == Map::<i32, Seq<char>>::empty(),
            m@.pd == Map::<i32, Seq<char>>::empty(),
            m@.n == Map::<i32, Seq<char>>::empty(),
    {
        let m = IdentNameMap {
            id_to_name_static: HashMap::new(),
            id_to_name_dynamic: HashMap::new(),
            id_to_name_var: HashMap::new(),
        };
        proof {
            assert(m@.p =~= Map::<i32, Seq<char>>::empty());
            assert(m@.pd =~= Map::<i32, Seq<char>>::empty());
            assert(m@.n =~= Map::<i32, Seq<char>>::empty());
        }
        m
    }

    /// Replaces the table of static labels.
    pub fn load_p(&mut self, hash_map: HashMap<i32, String>)
        ensures
            final(self)@.p == names_of(hash_map@),
            final(self)@.pd == old(self)@.pd,
            final(self)@.n == old(self)@.n,
    {
        self.id_to_name_static = hash_map;
    }

    /// Replaces the table of dynamic labels.
    pub fn load_pd(&mut self, hash_map: HashMap<i32, String>)
        ensures
            final(self)@.pd == names_of(hash_map@),
            final(self)@.p == old(self)@.p,
            final(self)@.n == old(self)@.n,
    {
        self.id_to_name_dynamic = hash_map;
    }

    /// Replaces the table of variables.
    pub fn load_n(&mut self, hash_map: HashMap<i32, String>)
        ensures
            final(self)@.n == names_of(hash_map@),
            final(self)@.p == old(self)@.p,
            final(self)@.pd == old(self)@.pd,
    {
        self.id_to_name_var = hash_map;
    }

    /// The name of static label `id`, if the table has it.
    pub(crate) fn lookup_p(&self, id: i32) -> (name: Option<String>)
        ensures
            name matches Some(s) ==> self@.p.contains_key(id) && s@ == self@.p[id],
            name is None ==> !self@.p.contains_key(id),
    {
        match self.id_to_name_static.get(&id) {
            Some(name) => Some(name.clone()),
            None => None,
        }
    }

    /// The name of variable `id`, if the table has it.
    pub(crate) fn lookup_n(&self, id: i32) -> (name: Option<String>)
        ensures
            name matches Some(s) ==> self@.n.contains_key(id) && s@ == self@.n[id],
            name is None ==> !self@.n.contains_key(id),
    {
        match self.id_to_name_var.get(&id) {
            Some(name) => Some(name.clone()),
            None => None,
        }
    }

    /// The name of static label `id`.
    pub fn get_name_p(&self, id: i32) -> (name: String)
        requires
            self@.p.contains_key(id),
        ensures
            name@ == self@.p[id],
    {
        match self.id_to_name_static.get(&id) {
            Some(name) => name.clone(),
            None => String::new(),
        }
    }

    /// The name of dynamic label `id`.
    pub fn get_name_pd(&self, id: i32) -> (name: String)
        requires
            self@.pd.contains_key(id),
        ensures
            name@ == self@.pd[id],
    {
        match self.id_to_name_dynamic.get(&id) {
            Some(name) => name.clone(),
            None => String::new(),
        }
    }

    /// The name of variable `id`.
    pub fn get_name_n(&self, id: i32) -> (name: String)
        requires
            self@.n.contains_key(id),
        ensures
            name@ == self@.n[id],
    {
        match self.id_to_name_var.get(&id) {
            Some(name) => name.clone(),
            None => String::new(),
        }
    }
}


/// What a table is loaded with is what it gives back: after `load_p(m)`,
/// `get_name_p(id)` is `m[id]` for every `id` of `m` (and so for the other
/// two tables).
pub proof fn law_load_then_get(m: Map<i32, String>, id: i32)
    requires
        m.contains_key(id),
    ensures
        names_of(m).contains_key(id),
        names_of(m)[id] == m[id]@,
{
}

} // verus!
