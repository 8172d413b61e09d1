//! The kinds of actor that a description can name.

use vstd::prelude::*;
use vstd::string::StringExecFns;

verus! {

/// A kind of actor.
#[derive(Debug, Clone, Copy, PartialEq, Eq)]
pub enum ActorKind {
    SimpleActor,
    SimpleSink,
    SimpleSource,
}

/// The kinds of actor, each under the label by which descriptions name it.
pub struct ActorRegistry {
    pub entries: Vec<(String, ActorKind)>,
}

/// The kind that the entries give `label`: that of the last entry with the label.
pub open spec fn kind_of(entries: Seq<(String, ActorKind)>, label: Seq<char>) -> Option<ActorKind>
    decreases entries.len(),
{
    if entries.len() == 0 {
        None
    } else if entries.last().0@ == label {
        Some(entries.last().1)
    } else {
        kind_of(entries.drop_last(), label)
    }
}

impl ActorRegistry {
    /// A registry without entries.
    pub fn new() -> (registry: Self)
        ensures
            registry.entries@.len() == 0,
    {
        ActorRegistry { entries: Vec::new() }
    }

    /// The kind registered under `label`, if any.
    pub fn find(&self, label: &String) -> (kind: Option<ActorKind>)
        ensures
            kind == kind_of(self.entries@, label@),
    {
        let mut i = self.entries.len();
        proof {
            assert(self.entries@.take(i as int) =~= self.entries@);
        }
        while i > 0
            invariant
                i <= self.entries@.len(),
                kind_of(self.entries@, label@) == kind_of(self.entries@.take(i as int), label@),
            decreases i,
        {
            proof {
                assert(self.entries@.take(i as int).drop_last() =~= self.entries@.take(i - 1));
            }
            if self.entries[i - 1].0 == *label {
                return Some(self.entries[i - 1].1);
            }
            i -= 1;
        }
        proof {
            assert(self.entries@.take(0).len() == 0);
        }
        None
    }
}

/// Registers `kind` under `label`; it takes precedence over what was
/// registered under that label before.
pub fn add_actor_implementation(registry: &mut ActorRegistry, label: String, kind: ActorKind)
    ensures
        final(registry).entries@ == old(registry).entries@.push((label, kind)),
        forall|other: Seq<char>|
            kind_of(final(registry).entries@, other) == (if other == label@ {
                Some(kind)
            } else {
                kind_of(old(registry).entries@, other)
            }),
{
    let ghost before = registry.entries@;
    registry.entries.push((label, kind));
    proof {
        assert(registry.entries@.drop_last() =~= before);
    }
}

/// The registry of the kinds of actor that come with the library:
/// `SimpleActor`, `SimpleSink` and `SimpleSource`, each under its name.
pub fn import_default_actors() -> (registry: ActorRegistry)
    ensures
        forall|label: Seq<char>|
            kind_of(registry.entries@, label) == (if label == "SimpleSource"@ {
                Some(ActorKind::SimpleSource)
            } else if label == "SimpleSink"@ {
                Some(ActorKind::SimpleSink)
            } else if label == "SimpleActor"@ {
                Some(ActorKind::SimpleActor)
            } else {
                None
            }),
{
    let mut registry = ActorRegistry::new();
    add_actor_implementation(&mut registry, String::from_str("SimpleActor"), ActorKind::SimpleActor);
    add_actor_implementation(&mut registry, String::from_str("SimpleSink"), ActorKind::SimpleSink);
    add_actor_implementation(
        &mut registry,
        String::from_str("SimpleSource"),
        ActorKind::SimpleSource,
    );
    registry
}

} // verus!
