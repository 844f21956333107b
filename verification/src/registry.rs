//! The tracepoint registry: names of code locations and their ids.
//!
//! Names and ids are kept in a `bimap` hash bimap. Verus does not look
//! inside it: its contents are named by `registry_ids`, and each function
//! below that calls it states what the call does to them.

use vstd::prelude::*;
use crate::event::TracepointID;

verus! {

/// `bimap::BiHashMap`, taken as opaque.
#[verifier::external_type_specification]
#[verifier::external_body]
#[verifier::reject_recursive_types(L)]
#[verifier::reject_recursive_types(R)]
#[verifier::reject_recursive_types(LS)]
#[verifier::reject_recursive_types(RS)]
pub struct ExBiHashMap<L, R, LS, RS>(bimap::BiHashMap<L, R, LS, RS>);

/// Names on the left, ids on the right.
pub type NameMap = bimap::BiHashMap<String, usize>;

/// The id of each name that the bimap holds.
pub uninterp spec fn registry_ids(m: NameMap) -> Map<Seq<char>, usize>;

/// `BiHashMap::new`: the bimap without pairs.
#[verifier::external_body]
fn names_new() -> (fresh: NameMap)
    ensures
        registry_ids(fresh) == no_names(),
{
    bimap::BiHashMap::new()
}

/// `BiHashMap::len`: how many pairs the bimap holds.
#[verifier::external_body]
fn names_len(m: &NameMap) -> (n: usize)
    ensures
        n == registry_ids(*m).dom().len(),
{
    m.len()
}

/// `BiHashMap::get_by_left`: the id paired with `name`, if there is one.
#[verifier::external_body]
fn names_get_by_left(m: &NameMap, name: &String) -> (id: Option<usize>)
    ensures
        id == (if registry_ids(*m).contains_key(name@) {
            Some(registry_ids(*m)[name@])
        } else {
            None
        }),
{
    m.get_by_left(name).copied()
}

/// `BiHashMap::get_by_right`: a copy of the name paired with `id`, if
/// there is one.
#[verifier::external_body]
fn names_get_by_right(m: &NameMap, id: usize) -> (name: Option<String>)
    ensures
        match name {
            Some(n) => registry_ids(*m).contains_key(n@) && registry_ids(*m)[n@] == id,
            None => forall|n: Seq<char>| #[trigger]
                registry_ids(*m).contains_key(n) ==> registry_ids(*m)[n] != id,
        },
{
    m.get_by_right(&id).cloned()
}

/// `BiHashMap::insert` of a pair whose name and id are both new: the pair
/// is added and nothing is overwritten.
#[verifier::external_body]
fn names_insert(m: &mut NameMap, name: String, id: usize)
    requires
        !registry_ids(*old(m)).contains_key(name@),
        forall|n: Seq<char>| #[trigger]
            registry_ids(*old(m)).contains_key(n) ==> registry_ids(*old(m))[n] != id,
    ensures
        registry_ids(*final(m)) == registry_ids(*old(m)).insert(name@, id),
{
    m.insert(name, id);
}

/// No names.
pub open spec fn no_names() -> Map<Seq<char>, usize> {
    Map::empty()
}

/// Whether `ids` pairs names with the ids from 0 up to their number, one
/// to one.
pub open spec fn is_bijection(ids: Map<Seq<char>, usize>) -> bool {
    &&& ids.dom().finite()
    &&& forall|n: Seq<char>| #[trigger] ids.contains_key(n) ==> ids[n] < ids.dom().len()
    &&& forall|a: Seq<char>, b: Seq<char>|
        #[trigger] ids.contains_key(a) && #[trigger] ids.contains_key(b) && ids[a] == ids[b] ==> a == b
    &&& forall|id: usize| id < ids.dom().len() ==> ids.contains_key(#[trigger] name_in(ids, id))
            && ids[name_in(ids, id)] == id
}

/// The name that `ids` pairs with `id`.
pub open spec fn name_in(ids: Map<Seq<char>, usize>, id: usize) -> Seq<char> {
    choose|n: Seq<char>| ids.contains_key(n) && ids[n] == id
}

/// Hands out ids for the names of code locations. Ids count up from zero
/// in the order in which new names arrive, and no pair ever changes or
/// leaves.
pub struct TracepointRegistry {
    pub names: NameMap,
}

impl TracepointRegistry {
    /// The id of each name.
    pub open spec fn ids(&self) -> Map<Seq<char>, usize> {
        registry_ids(self.names)
    }

    /// Names and ids are paired one to one, and the ids are those below the
    /// number of names.
    pub open spec fn wf(&self) -> bool {
        is_bijection(self.ids())
    }

    /// Whether `id` was handed out by this registry.
    pub open spec fn knows(&self, id: TracepointID) -> bool {
        id.id < self.ids().dom().len()
    }

    /// The name that `id` stands for.
    pub open spec fn name_of(&self, id: TracepointID) -> Seq<char> {
        name_in(self.ids(), id.id)
    }

    /// A registry without names.
    pub fn new() -> (registry: TracepointRegistry)
        ensures
            registry.wf(),
            registry.ids() == no_names(),
    {
        TracepointRegistry { names: names_new() }
    }

    /// How many names the registry holds.
    pub fn len(&self) -> (n: usize)
        ensures
            n == self.ids().dom().len(),
    {
        names_len(&self.names)
    }

    /// The id of `name`: the one it has, or else the next free one, which
    /// is the number of names so far. Nothing else changes.
    pub fn intern(&mut self, name: &str) -> (id: TracepointID)
        requires
            old(self).wf(),
        ensures
            final(self).wf(),
            final(self).ids().contains_key(name@),
            final(self).ids()[name@] == id.id,
            final(self).name_of(id) == name@,
            old(self).ids().contains_key(name@) ==> final(self).ids() == old(self).ids(),
            !old(self).ids().contains_key(name@) ==> id.id == old(self).ids().dom().len()
                && final(self).ids() == old(self).ids().insert(name@, id.id),
    {
        let owned = crate::text::owned(name);
        let id = match names_get_by_left(&self.names, &owned) {
            Some(id) => id,
            None => {
                let id = names_len(&self.names);
                names_insert(&mut self.names, owned, id);
                proof {
                    let before = old(self).ids();
                    let after = self.ids();
                    assert(after.dom() =~= before.dom().insert(name@));
                    assert forall|i: usize| i < after.dom().len() implies after.contains_key(
                        #[trigger] name_in(after, i),
                    ) && after[name_in(after, i)] == i by {
                        if i == id {
                            assert(after.contains_key(name@) && after[name@] == i);
                        } else {
                            let n = name_in(before, i);
                            assert(before.contains_key(n) && before[n] == i);
                            assert(after.contains_key(n) && after[n] == i);
                        }
                    }
                }
                id
            },
        };
        proof {
            let after = self.ids();
            let n = name_in(after, id);
            assert(after.contains_key(name@) && after[name@] == id);
            assert(after.contains_key(n) && after[n] == id);
        }
        TracepointID { id }
    }

    /// The name that `id` stands for. Every id that this registry handed
    /// out has one.
    pub fn resolve(&self, id: TracepointID) -> (name: String)
        requires
            self.wf(),
            self.knows(id),
        ensures
            name@ == self.name_of(id),
            self.ids().contains_key(name@),
            self.ids()[name@] == id.id,
    {
        match names_get_by_right(&self.names, id.id) {
            Some(name) => {
                proof {
                    let n = name_in(self.ids(), id.id);
                    assert(self.ids().contains_key(n) && self.ids()[n] == id.id);
                }
                name
            },
            None => {
                proof {
                    let n = name_in(self.ids(), id.id);
                    assert(self.ids().contains_key(n) && self.ids()[n] == id.id);
                    assert(false);
                }
                String::new()
            },
        }
    }

    /// The name that `id` stands for, or `None` for an id that this
    /// registry did not hand out.
    pub fn lookup(&self, id: TracepointID) -> (name: Option<String>)
        requires
            self.wf(),
        ensures
            match name {
                Some(n) => self.knows(id) && n@ == self.name_of(id),
                None => !self.knows(id),
            },
    {
        if id.id < names_len(&self.names) {
            Some(self.resolve(id))
        } else {
            None
        }
    }
}

impl TracepointID {
    /// The name behind this id in `registry`.
    pub fn to_string(&self, registry: &TracepointRegistry) -> (name: String)
        requires
            registry.wf(),
            registry.knows(*self),
        ensures
            name@ == registry.name_of(*self),
    {
        registry.resolve(*self)
    }

    /// The id of the name `s` in `registry`, which learns the name if it
    /// is new.
    pub fn from_str(s: &str, registry: &mut TracepointRegistry) -> (id: TracepointID)
        requires
            old(registry).wf(),
        ensures
            final(registry).wf(),
            final(registry).ids().contains_key(s@),
            final(registry).ids()[s@] == id.id,
            final(registry).name_of(id) == s@,
            old(registry).ids().contains_key(s@) ==> final(registry).ids() == old(registry).ids(),
            !old(registry).ids().contains_key(s@) ==> id.id == old(registry).ids().dom().len()
                && final(registry).ids() == old(registry).ids().insert(s@, id.id),
    {
        registry.intern(s)
    }
}

} // verus!
