//! What a run of the tests works out once and keeps.

use vstd::prelude::*;
use crate::text::{copy_text, same_text};

verus! {

/// A value for a path.
pub struct PathEntry<V> {
    pub path: String,
    pub value: V,
}

/// At most one value for each path.
pub struct PathMap<V> {
    pub entries: Vec<PathEntry<V>>,
}

/// The value that was put last for a path.
pub open spec fn value_at<V>(entries: Seq<PathEntry<V>>, path: Seq<char>) -> Option<V>
    decreases entries.len(),
{
    if entries.len() == 0 {
        None
    } else if entries.last().path@ == path {
        Some(entries.last().value)
    } else {
        value_at(entries.drop_last(), path)
    }
}

impl<V> PathMap<V> {
    pub open spec fn at(self, path: Seq<char>) -> Option<V> {
        value_at(self.entries@, path)
    }

    pub fn new() -> (r: PathMap<V>)
        ensures
            forall|path: Seq<char>| r.at(path) is None,
    {
        PathMap { entries: Vec::new() }
    }

    /// The value for a path.
    pub fn get(&self, path: &str) -> (r: Option<&V>)
        ensures
            match r {
                Some(v) => self.at(path@) == Some(*v),
                None => self.at(path@) is None,
            },
    {
        let mut i: usize = self.entries.len();
        assert(self.entries@.take(i as int) =~= self.entries@);
        while i > 0
            invariant
                i <= self.entries@.len(),
                self.at(path@) == value_at(self.entries@.take(i as int), path@),
            decreases i,
        {
            i = i - 1;
            proof {
                assert(self.entries@.take(i + 1).drop_last() =~= self.entries@.take(i as int));
                assert(self.entries@.take(i + 1).last() == self.entries@[i as int]);
            }
            if same_text(self.entries[i].path.as_str(), path) {
                return Some(&self.entries[i].value);
            }
        }
        None
    }

    /// Puts a value for a path, in the place of one that is there.
    pub fn insert(&mut self, path: &str, value: V)
        ensures
            final(self).at(path@) == Some(value),
            forall|other: Seq<char>|
                other != path@ ==> #[trigger] final(self).at(other) == old(self).at(other),
    {
        let ghost before = self.entries@;
        self.entries.push(PathEntry { path: copy_text(path), value });
        assert(self.entries@.drop_last() =~= before);
    }
}

/// How often something had to be worked out.
#[derive(Clone, Copy, Debug, PartialEq, Eq, Structural)]
pub struct TestRunCacheStats {
    pub owner_unit_misses: usize,
    pub declared_produces_misses: usize,
    pub declared_consumes_misses: usize,
}

/// The unit that owns a root, and the queues that a department puts events into and takes them
/// from, each worked out once.
pub struct TestRunCache {
    pub owner_units: PathMap<String>,
    pub declared_produces: PathMap<Vec<String>>,
    pub declared_consumes: PathMap<Vec<String>>,
    pub stats: TestRunCacheStats,
}

impl TestRunCache {
    pub fn new() -> (r: TestRunCache)
        ensures
            forall|path: Seq<char>| r.owner_units.at(path) is None,
            forall|path: Seq<char>| r.declared_produces.at(path) is None,
            forall|path: Seq<char>| r.declared_consumes.at(path) is None,
            r.stats == (TestRunCacheStats {
                owner_unit_misses: 0,
                declared_produces_misses: 0,
                declared_consumes_misses: 0,
            }),
    {
        TestRunCache {
            owner_units: PathMap::new(),
            declared_produces: PathMap::new(),
            declared_consumes: PathMap::new(),
            stats: TestRunCacheStats {
                owner_unit_misses: 0,
                declared_produces_misses: 0,
                declared_consumes_misses: 0,
            },
        }
    }

    /// Keeps the unit that owns a root, which had to be worked out.
    pub fn keep_owner_unit(&mut self, root: &str, unit: String)
        requires
            old(self).stats.owner_unit_misses < usize::MAX,
        ensures
            final(self).owner_units.at(root@) == Some(unit),
            forall|other: Seq<char>|
                other != root@ ==> #[trigger] final(self).owner_units.at(other) == old(
                    self,
                ).owner_units.at(other),
            final(self).declared_produces == old(self).declared_produces,
            final(self).declared_consumes == old(self).declared_consumes,
            final(self).stats == (TestRunCacheStats {
                owner_unit_misses: (old(self).stats.owner_unit_misses + 1) as usize,
                ..old(self).stats
            }),
    {
        self.stats.owner_unit_misses = self.stats.owner_unit_misses + 1;
        self.owner_units.insert(root, unit);
    }

    /// Keeps the queues that the department at a path puts events into, which had to be worked out.
    pub fn keep_declared_produces(&mut self, path: &str, queues: Vec<String>)
        requires
            old(self).stats.declared_produces_misses < usize::MAX,
        ensures
            final(self).declared_produces.at(path@) == Some(queues),
            forall|other: Seq<char>|
                other != path@ ==> #[trigger] final(self).declared_produces.at(other) == old(
                    self,
                ).declared_produces.at(other),
            final(self).owner_units == old(self).owner_units,
            final(self).declared_consumes == old(self).declared_consumes,
            final(self).stats == (TestRunCacheStats {
                declared_produces_misses: (old(self).stats.declared_produces_misses + 1) as usize,
                ..old(self).stats
            }),
    {
        self.stats.declared_produces_misses = self.stats.declared_produces_misses + 1;
        self.declared_produces.insert(path, queues);
    }

    /// Keeps the queues that the department at a path takes events from, which had to be worked
    /// out.
    pub fn keep_declared_consumes(&mut self, path: &str, queues: Vec<String>)
        requires
            old(self).stats.declared_consumes_misses < usize::MAX,
        ensures
            final(self).declared_consumes.at(path@) == Some(queues),
            forall|other: Seq<char>|
                other != path@ ==> #[trigger] final(self).declared_consumes.at(other) == old(
                    self,
                ).declared_consumes.at(other),
            final(self).owner_units == old(self).owner_units,
            final(self).declared_produces == old(self).declared_produces,
            final(self).stats == (TestRunCacheStats {
                declared_consumes_misses: (old(self).stats.declared_consumes_misses + 1) as usize,
                ..old(self).stats
            }),
    {
        self.stats.declared_consumes_misses = self.stats.declared_consumes_misses + 1;
        self.declared_consumes.insert(path, queues);
    }
}

} // verus!
