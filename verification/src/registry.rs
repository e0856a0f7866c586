//! The registry of derived-data types configured for a repository: each
//! type's configuration together with its own persistent mapping.
//!
//! Types reference their prerequisite types by registry index; the
//! declarations are validated when a derive graph is built, where a cycle
//! (or a reference to no registered type) is a fatal configuration error.

use vstd::prelude::*;

use crate::contract::DeriveFunction;
use crate::contract::TypeConfig;
use crate::derive::mapping_correct;
use crate::graph::CommitGraph;
use crate::mapping::DerivedMapping;
use crate::mapping::Mapping;

verus! {

/// The second registry has the same types and at least the entries of the
/// first: derivation only ever adds entries.
pub open spec fn reg_extends(r1: TypeRegistry, r2: TypeRegistry) -> bool {
    &&& r1.n() == r2.n()
    &&& forall|t: int| 0 <= t < r1.n() ==> r1.entries_at(t).submap_of(#[trigger] r2.entries_at(t))
}

/// Every head already has an entry for every enabled type: nothing is
/// pending for this set of heads.
pub open spec fn all_heads_recorded(reg: TypeRegistry, heads: Seq<u64>) -> bool {
    forall|t: int, j: int|
        0 <= t < reg.n() && reg.types_seq()[t].enabled && 0 <= j < heads.len() ==> (
        #[trigger] reg.entries_at(t)).contains_key(#[trigger] heads[j])
}

/// All registered derived-data types and their mappings, index-aligned.
#[derive(Debug)]
pub struct TypeRegistry {
    types: Vec<TypeConfig>,
    mappings: Vec<Mapping>,
}

impl TypeRegistry {
    /// The configurations, in registration order.
    pub closed spec fn types_seq(self) -> Seq<TypeConfig> {
        self.types@
    }

    /// How many types are registered.
    pub open spec fn n(self) -> int {
        self.types_seq().len() as int
    }

    /// The visible mapping entries of the type at index `i`.
    pub closed spec fn entries_at(self, i: int) -> Map<u64, u64> {
        self.mappings@[i].entries()
    }

    /// One mapping per type.
    pub closed spec fn wf(self) -> bool {
        self.types@.len() == self.mappings@.len()
    }

    /// Every type's mapping holds only canonical values.
    pub open spec fn all_correct(self, g: CommitGraph) -> bool {
        forall|i: int|
            0 <= i < self.n() ==> mapping_correct(
                g,
                self.types_seq()[i].func,
                #[trigger] self.entries_at(i),
            )
    }

    /// An empty registry.
    pub fn new() -> (r: Self)
        ensures
            r.wf(),
            r.n() == 0,
    {
        TypeRegistry { types: Vec::new(), mappings: Vec::new() }
    }

    /// Registers a derived-data type with an empty mapping and returns its
    /// index.  Prerequisites name other types by index; they are validated
    /// when a derive graph is built.
    pub fn register(
        &mut self,
        name: String,
        func: DeriveFunction,
        enabled: bool,
        prereqs: Vec<usize>,
    ) -> (i: usize)
        requires
            old(self).wf(),
        ensures
            final(self).wf(),
            i == old(self).n(),
            final(self).n() == old(self).n() + 1,
            final(self).types_seq() == old(self).types_seq().push(
                (TypeConfig { name, func, enabled, prereqs }),
            ),
            forall|j: int| 0 <= j < old(self).n() ==> final(self).entries_at(j) == old(
                self,
            ).entries_at(j),
            final(self).entries_at(old(self).n()) == Map::<u64, u64>::empty(),
    {
        let i = self.types.len();
        self.types.push(TypeConfig { name, func, enabled, prereqs });
        self.mappings.push(Mapping::new());
        i
    }

    /// How many types are registered.
    pub fn len(&self) -> (n: usize)
        ensures
            n == self.n(),
    {
        self.types.len()
    }

    /// The configuration of the type at index `i`.
    pub fn get_type(&self, i: usize) -> (t: &TypeConfig)
        requires
            i < self.n(),
        ensures
            *t == self.types_seq()[i as int],
    {
        &self.types[i]
    }

    /// Read access to the mapping of the type at index `i`.
    pub fn mapping_at(&self, i: usize) -> (m: &Mapping)
        requires
            self.wf(),
            i < self.n(),
        ensures
            m.entries() == self.entries_at(i as int),
    {
        &self.mappings[i]
    }

    /// Takes the mapping of type `i` out for mutation, leaving an empty
    /// placeholder; pair with [`TypeRegistry::restore_mapping`].
    pub fn take_mapping(&mut self, i: usize) -> (m: Mapping)
        requires
            old(self).wf(),
            i < old(self).n(),
        ensures
            final(self).wf(),
            m.entries() == old(self).entries_at(i as int),
            final(self).types_seq() == old(self).types_seq(),
            final(self).n() == old(self).n(),
            forall|j: int|
                0 <= j < final(self).n() && j != i ==> final(self).entries_at(j) == old(
                    self,
                ).entries_at(j),
    {
        let m = self.mappings.remove(i);
        self.mappings.insert(i, Mapping::new());
        proof {
            assert forall|j: int|
                0 <= j < self.types@.len() && j != i implies self.mappings@[j].entries() == old(
                self,
            ).mappings@[j].entries() by {
                if j < i {
                    assert(self.mappings@[j] == old(self).mappings@[j]);
                } else {
                    assert(self.mappings@[j] == old(self).mappings@[j]);
                }
            }
        }
        m
    }

    /// Puts the mapping of type `i` back after mutation.
    pub fn restore_mapping(&mut self, i: usize, m: Mapping)
        requires
            old(self).wf(),
            i < old(self).n(),
        ensures
            final(self).wf(),
            final(self).types_seq() == old(self).types_seq(),
            final(self).n() == old(self).n(),
            final(self).entries_at(i as int) == m.entries(),
            forall|j: int|
                0 <= j < final(self).n() && j != i ==> final(self).entries_at(j) == old(
                    self,
                ).entries_at(j),
    {
        self.mappings.remove(i);
        self.mappings.insert(i, m);
        proof {
            assert forall|j: int|
                0 <= j < self.types@.len() && j != i implies self.mappings@[j].entries() == old(
                self,
            ).mappings@[j].entries() by {
                if j < i {
                    assert(self.mappings@[j] == old(self).mappings@[j]);
                } else {
                    assert(self.mappings@[j] == old(self).mappings@[j]);
                }
            }
        }
    }
}

} // verus!
