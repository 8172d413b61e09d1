//! The time distributions that a description can name.  A description
//! gives, with the name of a distribution, the delays drawn from it, in
//! time bins.

use vstd::prelude::*;
use vstd::string::StringExecFns;

verus! {

/// The names of the time distributions that descriptions can use.
pub struct TimeRegistry {
    pub labels: Vec<String>,
}

/// `label` is among `labels`.
pub open spec fn has_label(labels: Seq<String>, label: Seq<char>) -> bool {
    exists|i: int| 0 <= i < labels.len() && (#[trigger] labels[i])@ == label
}

impl TimeRegistry {
    /// A registry without names.
    pub fn new() -> (registry: Self)
        ensures
            registry.labels@.len() == 0,
    {
        TimeRegistry { labels: Vec::new() }
    }

    /// Whether `label` is registered.
    pub fn knows(&self, label: &String) -> (known: bool)
        ensures
            known == has_label(self.labels@, label@),
    {
        let n = self.labels.len();
        let mut i: usize = 0;
        while i < n
            invariant
                i <= n,
                n == self.labels@.len(),
                forall|k: int| 0 <= k < i ==> (#[trigger] self.labels@[k])@ != label@,
            decreases n - i,
        {
            if self.labels[i] == *label {
                return true;
            }
            i += 1;
        }
        false
    }
}

/// Registers the time distribution `label`.
pub fn add_time_callback_implementation(registry: &mut TimeRegistry, label: String)
    ensures
        final(registry).labels@ == old(registry).labels@.push(label),
        forall|other: Seq<char>|
            has_label(final(registry).labels@, other) == (other == label@ || has_label(
                old(registry).labels@,
                other,
            )),
{
    let ghost before = registry.labels@;
    registry.labels.push(label);
    proof {
        let after = registry.labels@;
        assert forall|other: Seq<char>| has_label(after, other) == (other == label@ || has_label(
            before,
            other,
        )) by {
            if has_label(after, other) {
                let i = choose|i: int| 0 <= i < after.len() && (#[trigger] after[i])@ == other;
                if i < before.len() {
                    assert(before[i]@ == other);
                }
            }
            if other == label@ {
                assert(after[after.len() - 1]@ == other);
            }
            if has_label(before, other) {
                let i = choose|i: int| 0 <= i < before.len() && (#[trigger] before[i])@ == other;
                assert(after[i]@ == other);
            }
        }
    }
}

/// The registry of the time distributions that come with the library:
/// `log_normal` and `constant`.
pub fn import_default_time_callbacks() -> (registry: TimeRegistry)
    ensures
        forall|label: Seq<char>|
            has_label(registry.labels@, label) == (label == "log_normal"@ || label
                == "constant"@),
{
    let mut registry = TimeRegistry::new();
    add_time_callback_implementation(&mut registry, String::from_str("log_normal"));
    add_time_callback_implementation(&mut registry, String::from_str("constant"));
    registry
}

} // verus!
