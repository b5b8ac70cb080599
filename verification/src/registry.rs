//! The registry of entity and field factories, looked up by name.
use vstd::prelude::*;
use crate::wire::EntityType;

verus! {

/// The value stored under `name`: that of the first entry with this name.
pub open spec fn named_lookup<V>(s: Seq<(String, V)>, name: Seq<char>) -> Option<V>
    decreases s.len(),
{
    if s.len() == 0 {
        None
    } else if s[0].0@ == name {
        Some(s[0].1)
    } else {
        named_lookup(s.drop_first(), name)
    }
}

/// `i` is the position of the first entry named `name`.
pub open spec fn first_named<V>(s: Seq<(String, V)>, name: Seq<char>, i: int) -> bool {
    &&& 0 <= i < s.len()
    &&& s[i].0@ == name
    &&& forall|j: int| 0 <= j < i ==> #[trigger] s[j].0@ != name
}

proof fn lemma_lookup_absent<V>(s: Seq<(String, V)>, name: Seq<char>)
    requires
        forall|j: int| 0 <= j < s.len() ==> #[trigger] s[j].0@ != name,
    ensures
        named_lookup(s, name) is None,
    decreases s.len(),
{
    if s.len() > 0 {
        assert forall|j: int| 0 <= j < s.drop_first().len() implies #[trigger] s.drop_first()[j].0@ != name by {
            assert(s.drop_first()[j] == s[j + 1]);
        }
        lemma_lookup_absent(s.drop_first(), name);
    }
}

proof fn lemma_lookup_first<V>(s: Seq<(String, V)>, name: Seq<char>, i: int)
    requires
        first_named(s, name, i),
    ensures
        named_lookup(s, name) == Some(s[i].1),
    decreases s.len(),
{
    if i > 0 {
        assert(s[0].0@ != name);
        assert(first_named(s.drop_first(), name, i - 1)) by {
            assert forall|j: int| 0 <= j < i - 1 implies #[trigger] s.drop_first()[j].0@ != name by {
                assert(s.drop_first()[j] == s[j + 1]);
            }
        }
        lemma_lookup_first(s.drop_first(), name, i - 1);
    }
}

proof fn lemma_lookup_push<V>(s: Seq<(String, V)>, x: (String, V), name: Seq<char>)
    ensures
        named_lookup(s.push(x), name) == if named_lookup(s, name) is Some {
            named_lookup(s, name)
        } else if x.0@ == name {
            Some(x.1)
        } else {
            None
        },
    decreases s.len(),
{
    if s.len() == 0 {
        assert(s.push(x)[0] == x);
        assert(s.push(x).drop_first() =~= Seq::<(String, V)>::empty());
        assert(named_lookup(s.push(x).drop_first(), name) is None);
    } else {
        assert(s.push(x)[0] == s[0]);
        assert(s.push(x).drop_first() =~= s.drop_first().push(x));
        lemma_lookup_push(s.drop_first(), x, name);
    }
}

proof fn lemma_lookup_replace<V>(s: Seq<(String, V)>, i: int, x: (String, V), name: Seq<char>)
    requires
        first_named(s, x.0@, i),
    ensures
        named_lookup(s.update(i, x), name) == if name == x.0@ {
            Some(x.1)
        } else {
            named_lookup(s, name)
        },
    decreases s.len(),
{
    if i == 0 {
        assert(s.update(0, x).drop_first() =~= s.drop_first());
    } else {
        assert(s.update(i, x)[0] == s[0]);
        assert(s.update(i, x).drop_first() =~= s.drop_first().update(i - 1, x));
        assert(first_named(s.drop_first(), x.0@, i - 1)) by {
            assert forall|j: int| 0 <= j < i - 1 implies #[trigger] s.drop_first()[j].0@ != x.0@ by {
                assert(s.drop_first()[j] == s[j + 1]);
            }
        }
        lemma_lookup_replace(s.drop_first(), i - 1, x, name);
    }
}

/// Values stored under names; storing under a name that is present
/// replaces its value.
pub struct NamedTable<V> {
    entries: Vec<(String, V)>,
}

impl<V> NamedTable<V> {
    /// The value stored under `name`, if any.
    pub closed spec fn lookup(&self, name: Seq<char>) -> Option<V> {
        named_lookup(self.entries@, name)
    }

    /// An empty table.
    pub fn new() -> (t: Self)
        ensures
            forall|n: Seq<char>| t.lookup(n) is None,
    {
        NamedTable { entries: Vec::new() }
    }

    fn find(&self, name: &String) -> (r: Option<usize>)
        ensures
            match r {
                Some(i) => first_named(self.entries@, name@, i as int),
                None => forall|j: int| 0 <= j < self.entries@.len() ==> #[trigger] self.entries@[j].0@ != name@,
            },
    {
        let mut i: usize = 0;
        while i < self.entries.len()
            invariant
                i <= self.entries@.len(),
                forall|j: int| 0 <= j < i ==> #[trigger] self.entries@[j].0@ != name@,
            decreases self.entries@.len() - i,
        {
            if self.entries[i].0 == *name {
                return Some(i);
            }
            i = i + 1;
        }
        None
    }

    /// Stores `value` under `name`, replacing what was stored there.
    pub fn insert(&mut self, name: &str, value: V)
        ensures
            final(self).lookup(name@) == Some(value),
            forall|n: Seq<char>| n != name@ ==> #[trigger] final(self).lookup(n) == old(self).lookup(n),
    {
        let key = name.to_owned();
        match self.find(&key) {
            Some(i) => {
                let ghost s = self.entries@;
                let ghost x = (key, value);
                self.entries.set(i, (key, value));
                proof {
                    assert(self.entries@ == s.update(i as int, x));
                    assert forall|n: Seq<char>| #[trigger] named_lookup(self.entries@, n) == if n == name@ {
                        Some(value)
                    } else {
                        named_lookup(s, n)
                    } by {
                        lemma_lookup_replace(s, i as int, x, n);
                    }
                }
            },
            None => {
                let ghost s = self.entries@;
                let ghost x = (key, value);
                self.entries.push((key, value));
                proof {
                    lemma_lookup_absent(s, name@);
                    assert forall|n: Seq<char>| #[trigger] named_lookup(self.entries@, n) == if n == name@ {
                        Some(value)
                    } else {
                        named_lookup(s, n)
                    } by {
                        lemma_lookup_push(s, x, n);
                    }
                }
            },
        }
    }

    /// The value stored under `name`, if any.
    pub fn get(&self, name: &str) -> (r: Option<&V>)
        ensures
            match r {
                Some(v) => self.lookup(name@) == Some(*v),
                None => self.lookup(name@) is None,
            },
    {
        let key = name.to_owned();
        match self.find(&key) {
            Some(i) => {
                proof {
                    lemma_lookup_first(self.entries@, name@, i as int);
                }
                Some(&self.entries[i].1)
            },
            None => {
                proof {
                    lemma_lookup_absent(self.entries@, name@);
                }
                None
            },
        }
    }
}

/// The factories that make the simulation's entities and fields, by name.
pub struct Registry<E, F> {
    entity_factories: NamedTable<E>,
    field_factories: NamedTable<F>,
}

impl<E, F> Registry<E, F> {
    /// The entity factory registered under `name`, if any.
    pub closed spec fn entity_factory(&self, name: Seq<char>) -> Option<E> {
        self.entity_factories.lookup(name)
    }

    /// The field factory registered under `name`, if any.
    pub closed spec fn field_factory(&self, name: Seq<char>) -> Option<F> {
        self.field_factories.lookup(name)
    }

    /// A registry with no factory.
    pub fn new() -> (r: Self)
        ensures
            forall|n: Seq<char>| r.entity_factory(n) is None && r.field_factory(n) is None,
    {
        Registry { entity_factories: NamedTable::new(), field_factories: NamedTable::new() }
    }

    /// Registers an entity factory under `name`, replacing any before it.
    pub fn register_entity_factory(&mut self, name: &str, factory: E)
        ensures
            final(self).entity_factory(name@) == Some(factory),
            forall|n: Seq<char>| n != name@ ==> #[trigger] final(self).entity_factory(n) == old(self).entity_factory(n),
            forall|n: Seq<char>| #[trigger] final(self).field_factory(n) == old(self).field_factory(n),
    {
        self.entity_factories.insert(name, factory);
    }

    /// The entity factory registered under `name`, if any.
    pub fn get_entity_factory(&self, name: &str) -> (r: Option<&E>)
        ensures
            match r {
                Some(f) => self.entity_factory(name@) == Some(*f),
                None => self.entity_factory(name@) is None,
            },
    {
        self.entity_factories.get(name)
    }

    /// Registers a field factory under `name`, replacing any before it.
    pub fn register_field_factory(&mut self, name: &str, factory: F)
        ensures
            final(self).field_factory(name@) == Some(factory),
            forall|n: Seq<char>| n != name@ ==> #[trigger] final(self).field_factory(n) == old(self).field_factory(n),
            forall|n: Seq<char>| #[trigger] final(self).entity_factory(n) == old(self).entity_factory(n),
    {
        self.field_factories.insert(name, factory);
    }

    /// The field factory registered under `name`, if any.
    pub fn get_field_factory(&self, name: &str) -> (r: Option<&F>)
        ensures
            match r {
                Some(f) => self.field_factory(name@) == Some(*f),
                None => self.field_factory(name@) is None,
            },
    {
        self.field_factories.get(name)
    }
}

/// Makes particles.
#[derive(PartialEq, Eq, Structural, Debug, Clone, Copy)]
pub struct ParticleFactory;

impl ParticleFactory {
    /// The kind of entity this factory makes.
    pub fn entity_type(&self) -> (r: EntityType)
        ensures
            r == EntityType::Particle,
    {
        EntityType::Particle
    }
}

/// Makes scalar fields.
#[derive(PartialEq, Eq, Structural, Debug, Clone, Copy)]
pub struct ScalarFieldFactory;

impl ScalarFieldFactory {
    /// The kind of field this factory makes.
    pub fn field_type(&self) -> (r: &'static str)
        ensures
            r@ == "scalar"@,
    {
        "scalar"
    }
}

/// Registers the default factories: particles under "particle" and scalar
/// fields under "scalar".
pub fn initialize_registry(registry: &mut Registry<ParticleFactory, ScalarFieldFactory>)
    ensures
        final(registry).entity_factory("particle"@) == Some(ParticleFactory),
        final(registry).field_factory("scalar"@) == Some(ScalarFieldFactory),
        forall|n: Seq<char>| n != "particle"@ ==> #[trigger] final(registry).entity_factory(n) == old(registry).entity_factory(n),
        forall|n: Seq<char>| n != "scalar"@ ==> #[trigger] final(registry).field_factory(n) == old(registry).field_factory(n),
{
    registry.register_entity_factory("particle", ParticleFactory);
    registry.register_field_factory("scalar", ScalarFieldFactory);
}

} // verus!
